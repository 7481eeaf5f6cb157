//! Fleet orchestration for Plato room engine blocks.
//!
//! The library keeps the fleet's state as plain values and states what every
//! operation does to it: the room registry (`FleetManager`), the room links
//! (`RoomConnection`, `MockRoomConnection`), the tick aggregator, the health
//! monitor and the fleet manifest.

pub mod aggregator;
pub mod keyed_map;
mod clock;
pub mod config;
pub mod connection;
pub mod fleet;
mod json;
pub mod monitor;

pub use keyed_map::KeyedMap;
pub use aggregator::{CorrelationEvent, CorrelationRule, FleetStatistics, TickAggregator};
pub use config::{ConnectionConfig, EscalationPolicy, FleetConfig, RoomManifest};
pub use connection::{MockRoomConnection, Response, RoomConnection, RoomConnectionTrait, Tick};
pub use fleet::{FleetManager, RoomLink, RoomState};
pub use monitor::{FleetHealth, FleetMonitor, HealthStatus, RoomHealth, RoomStateSnapshot};
