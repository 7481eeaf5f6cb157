# plato_fleet_manager

Fleet orchestration for Plato room engine blocks, written in Verus: the room
registry, command routing, tick aggregation, fleet health and the fleet
manifest, each with a contract that Verus proves.

## Layout

- `src/keyed_map.rs`: `KeyedMap`, a string-keyed map with unique keys that keeps
  insertion order; its laws (a read after a write, a read after a removal).
- `src/config.rs`: the fleet manifest (`FleetConfig`, `RoomManifest`, ...),
  its validation rules and the built-in fishing-vessel manifest.
- `src/connection.rs`: ticks, command responses, and the TCP and in-memory
  room links.
- `src/aggregator.rs`: `TickAggregator` (latest ticks, bounded per-room
  histories, time-aligned merging, correlation rules, fleet counts) and its
  laws.
- `src/monitor.rs`: `FleetMonitor`, the green/yellow/red health computation,
  stale-room detection and their laws.
- `src/fleet.rs`: `FleetManager`, which ties rooms, aggregator and monitor
  together.
- `src/clock.rs`, `src/json.rs`: the trusted calls into std's `SystemTime`
  (the wall clock) and serde_json (building and copying JSON payloads).
- `app/`: ordinary Rust around the library: JSON manifests and files, and the
  floating-point computations (average readings, the red threshold given as a
  float).
- `tests/`: tests of the library.

Times are nanoseconds since the Unix epoch. Sensor readings and uptime
percentages are carried as their IEEE-754 binary64 encodings; the library only
compares readings (for the correlation rule and the least and greatest
reading), by the binary64 order of their encodings, and never computes with
them.
