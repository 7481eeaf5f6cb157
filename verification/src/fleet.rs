//! The fleet manager: the room registry, command routing, tick intake and
//! fleet-wide health.

use vstd::prelude::*;
use vstd::string::*;
use crate::aggregator::{
    FleetStatistics, TickAggregator, alarm_total, is_max_reading, is_min_reading, latest_matches_history,
    next_history,
};
use crate::clock::now_nanos;
use crate::config::{ConnectionConfig, FleetConfig};
use crate::connection::{
    MockConnectionView, MockRoomConnection, Response, ResponseView, RoomConnection,
    RoomConnectionTrait, RoomConnectionView, Tick, TickView, mock_after_connect,
    mock_connect_result, mock_send_result, echo_response, response_result, tick_option,
    unit_result,
};
use crate::keyed_map::{KeyedMap, has_key, inserted, lookup, removed, unique_keys};
use crate::monitor::{
    FleetHealth, FleetMonitor, RoomStateSnapshot, default_monitor, lemma_default_monitor,
    lemma_default_settings_agree,
};

verus! {

/// The link the fleet holds to one room: over TCP, or in memory.
pub enum RoomLink {
    Tcp(RoomConnection),
    Mock(MockRoomConnection),
}

/// The abstract state of a room link.
pub enum RoomLinkView {
    Tcp(RoomConnectionView),
    Mock(MockConnectionView),
}

impl View for RoomLink {
    type V = RoomLinkView;

    open spec fn view(&self) -> RoomLinkView {
        match self {
            RoomLink::Tcp(c) => RoomLinkView::Tcp(c@),
            RoomLink::Mock(m) => RoomLinkView::Mock(m@),
        }
    }
}

impl DeepView for RoomLink {
    type V = RoomLinkView;

    open spec fn deep_view(&self) -> RoomLinkView {
        self@
    }
}

/// Whether the room behind a link reports itself healthy.
pub open spec fn link_healthy(v: RoomLinkView) -> bool {
    match v {
        RoomLinkView::Tcp(c) => c.healthy,
        RoomLinkView::Mock(m) => m.healthy,
    }
}

/// Whether a link is connected.
pub open spec fn link_connected(v: RoomLinkView) -> bool {
    match v {
        RoomLinkView::Tcp(c) => c.connected,
        RoomLinkView::Mock(m) => m.connected,
    }
}

/// Whether a link is subscribed to its room's ticks.
pub open spec fn link_subscribed(v: RoomLinkView) -> bool {
    match v {
        RoomLinkView::Tcp(c) => c.subscribed,
        RoomLinkView::Mock(m) => m.subscribed,
    }
}

/// The last tick seen over a link.
pub open spec fn link_last_tick(v: RoomLinkView) -> Option<TickView> {
    match v {
        RoomLinkView::Tcp(c) => c.last_tick,
        RoomLinkView::Mock(m) => m.last_tick,
    }
}

/// What the room behind a link answers to `cmd`.
pub open spec fn link_send(v: RoomLinkView, cmd: Seq<char>) -> Result<ResponseView, Seq<char>> {
    match v {
        RoomLinkView::Tcp(c) => if c.connected {
            Ok(echo_response(c.room_id, cmd))
        } else {
            Err("not connected"@)
        },
        RoomLinkView::Mock(m) => mock_send_result(m, cmd),
    }
}

/// The outcome of a connection attempt over a link.
pub open spec fn link_connect_result(v: RoomLinkView) -> Result<(), Seq<char>> {
    match v {
        RoomLinkView::Tcp(_) => Ok(()),
        RoomLinkView::Mock(m) => mock_connect_result(m),
    }
}

/// A link after a connection attempt.
pub open spec fn link_after_connect(v: RoomLinkView) -> RoomLinkView {
    match v {
        RoomLinkView::Tcp(c) => RoomLinkView::Tcp(RoomConnectionView { connected: true, healthy: true, ..c }),
        RoomLinkView::Mock(m) => RoomLinkView::Mock(mock_after_connect(m)),
    }
}

/// The outcome of a subscription attempt over a link.
pub open spec fn link_subscribe_result(v: RoomLinkView) -> Result<(), Seq<char>> {
    if link_connected(v) {
        Ok(())
    } else {
        Err("not connected"@)
    }
}

/// A link after a subscription attempt.
pub open spec fn link_after_subscribe(v: RoomLinkView) -> RoomLinkView {
    match v {
        RoomLinkView::Tcp(c) => if c.connected {
            RoomLinkView::Tcp(RoomConnectionView { subscribed: true, ..c })
        } else {
            v
        },
        RoomLinkView::Mock(m) => if m.connected {
            RoomLinkView::Mock(MockConnectionView { subscribed: true, ..m })
        } else {
            v
        },
    }
}

impl RoomLink {
    /// Tries to connect.
    pub fn connect(&mut self) -> (r: Result<(), String>)
        ensures
            unit_result(r) == link_connect_result(old(self)@),
            final(self)@ == link_after_connect(old(self)@),
    {
        match self {
            RoomLink::Tcp(c) => c.connect(),
            RoomLink::Mock(m) => m.connect(),
        }
    }

    /// Sends `cmd` to the room.
    pub fn send(&self, cmd: &str) -> (r: Result<Response, String>)
        ensures
            response_result(r) == link_send(self@, cmd@),
    {
        match self {
            RoomLink::Tcp(c) => c.send(cmd),
            RoomLink::Mock(m) => m.send(cmd),
        }
    }

    /// Tries to subscribe to the room's ticks.
    pub fn subscribe(&mut self) -> (r: Result<(), String>)
        ensures
            unit_result(r) == link_subscribe_result(old(self)@),
            final(self)@ == link_after_subscribe(old(self)@),
    {
        match self {
            RoomLink::Tcp(c) => c.subscribe(),
            RoomLink::Mock(m) => m.subscribe(),
        }
    }

    /// Whether the room reports itself healthy.
    pub fn is_healthy(&self) -> (b: bool)
        ensures
            b == link_healthy(self@),
    {
        match self {
            RoomLink::Tcp(c) => c.is_healthy(),
            RoomLink::Mock(m) => m.is_healthy(),
        }
    }

    /// The last tick seen over the link.
    pub fn last_tick(&self) -> (r: Option<Tick>)
        ensures
            tick_option(r) == link_last_tick(self@),
    {
        match self {
            RoomLink::Tcp(c) => c.last_tick(),
            RoomLink::Mock(m) => m.last_tick(),
        }
    }
}

/// Current state of a room in the fleet.
#[derive(Debug, Clone)]
pub struct RoomState {
    pub id: String,
    pub connected: bool,
    pub last_tick: Option<Tick>,
    pub alarm_count: usize,
}

/// The abstract value of a room state.
pub struct RoomStateView {
    pub id: Seq<char>,
    pub connected: bool,
    pub last_tick: Option<TickView>,
    pub alarm_count: nat,
}

impl View for RoomState {
    type V = RoomStateView;

    open spec fn view(&self) -> RoomStateView {
        RoomStateView {
            id: self.id@,
            connected: self.connected,
            last_tick: tick_option(self.last_tick),
            alarm_count: self.alarm_count as nat,
        }
    }
}

impl DeepView for RoomState {
    type V = RoomStateView;

    open spec fn deep_view(&self) -> RoomStateView {
        self@
    }
}

/// The number of alarms of the last tick, or zero without one.
pub open spec fn alarms_of(t: Option<TickView>) -> nat {
    match t {
        Some(t) => t.alarms.len(),
        None => 0,
    }
}

/// The state of room `id` behind link `v`.
pub open spec fn room_state_of(id: Seq<char>, v: RoomLinkView) -> RoomStateView {
    RoomStateView {
        id,
        connected: link_healthy(v),
        last_tick: link_last_tick(v),
        alarm_count: alarms_of(link_last_tick(v)),
    }
}

/// The binary64 encoding of 100.0: the uptime of a healthy room.
pub const FULL_UPTIME: u64 = 0x4059_0000_0000_0000u64;

/// The binary64 encoding of 0.0: the uptime of an unhealthy room.
pub const NO_UPTIME: u64 = 0u64;

/// The health-monitoring snapshot of the room behind link `v`.
pub open spec fn snapshot_of(v: RoomLinkView) -> RoomStateSnapshot {
    RoomStateSnapshot {
        connected: link_healthy(v),
        last_tick_time: match link_last_tick(v) {
            Some(t) => Some(t.timestamp),
            None => None,
        },
        alarm_count: alarms_of(link_last_tick(v)) as usize,
        uptime_percentage: if link_healthy(v) { FULL_UPTIME } else { NO_UPTIME },
    }
}

/// The snapshots of all rooms, in the rooms' order.
pub open spec fn snapshots_of(rooms: Seq<(Seq<char>, RoomLinkView)>) -> Seq<(Seq<char>, RoomStateSnapshot)> {
    rooms.map_values(|e: (Seq<char>, RoomLinkView)| (e.0, snapshot_of(e.1)))
}

/// The ids of the rooms whose connection attempt succeeds, in order.
pub open spec fn connect_successes(s: Seq<(Seq<char>, RoomLinkView)>) -> Seq<Seq<char>>
    decreases s.len(),
{
    if s.len() == 0 {
        Seq::empty()
    } else {
        let rest = connect_successes(s.drop_last());
        match link_connect_result(s.last().1) {
            Ok(_) => rest.push(s.last().0),
            Err(_) => rest,
        }
    }
}

/// One line `"<id>: <error>"` per room whose connection attempt fails, in order.
pub open spec fn connect_failures(s: Seq<(Seq<char>, RoomLinkView)>) -> Seq<Seq<char>>
    decreases s.len(),
{
    if s.len() == 0 {
        Seq::empty()
    } else {
        let rest = connect_failures(s.drop_last());
        match link_connect_result(s.last().1) {
            Ok(_) => rest,
            Err(e) => rest.push(s.last().0 + ": "@ + e),
        }
    }
}

/// The parts joined with `sep` between consecutive parts.
pub open spec fn joined(parts: Seq<Seq<char>>, sep: Seq<char>) -> Seq<char>
    decreases parts.len(),
{
    if parts.len() == 0 {
        Seq::empty()
    } else if parts.len() == 1 {
        parts[0]
    } else {
        joined(parts.drop_last(), sep) + sep + parts.last()
    }
}

/// The parts joined with `sep` between consecutive parts.
fn join_strings(parts: &Vec<String>, sep: &str) -> (s: String)
    ensures
        s@ == joined(parts.deep_view(), sep@),
{
    let mut s = String::new();
    let mut i: usize = 0;
    while i < parts.len()
        invariant
            i <= parts@.len(),
            s@ == joined(parts.deep_view().take(i as int), sep@),
        decreases parts@.len() - i,
    {
        proof {
            assert(parts.deep_view().take(i + 1).drop_last() =~= parts.deep_view().take(i as int));
            assert(parts.deep_view().take(i + 1).last() == parts@[i as int]@);
        }
        if i > 0 {
            s.append(sep);
        }
        s.append(parts[i].as_str());
        proof {
            if i == 0 {
                assert(s@ =~= parts.deep_view().take(1)[0]);
            }
        }
        i = i + 1;
    }
    proof {
        assert(parts.deep_view().take(parts@.len() as int) =~= parts.deep_view());
    }
    s
}

/// The top-level fleet orchestrator.
pub struct FleetManager {
    rooms: KeyedMap<RoomLink>,
    aggregator: TickAggregator,
    config: FleetConfig,
}

impl FleetManager {
    /// The room links, by room id in registration order.
    pub closed spec fn rooms_view(&self) -> Seq<(Seq<char>, RoomLinkView)> {
        self.rooms@
    }

    /// The tick aggregator.
    pub closed spec fn aggregator_view(&self) -> TickAggregator {
        self.aggregator
    }

    /// The health monitor: a monitor with the default settings.
    pub closed spec fn monitor_view(&self) -> FleetMonitor {
        default_monitor()
    }

    /// The fleet configuration.
    pub closed spec fn config_view(&self) -> FleetConfig {
        self.config
    }

    /// A manager for `config` with no rooms, an empty aggregator and the
    /// default monitor.
    pub fn new(config: FleetConfig) -> (m: Self)
        ensures
            m.rooms_view().len() == 0,
            m.aggregator_view().latest_view().len() == 0,
            m.aggregator_view().history_view().len() == 0,
            m.aggregator_view().max_history_view() == 100,
            m.aggregator_view().rules_view().len() == 0,
            m.monitor_view().has_default_settings(),
            m.config_view() == config,
    {
        proof {
            lemma_default_monitor();
        }
        FleetManager {
            rooms: KeyedMap::new(),
            aggregator: TickAggregator::new(),
            config,
        }
    }

    /// Registers `conn` as the in-memory link of room `id`, replacing any
    /// link the room had.
    pub fn add_mock_room(&mut self, id: &str, conn: MockRoomConnection)
        ensures
            final(self).rooms_view() == inserted(old(self).rooms_view(), id@, RoomLinkView::Mock(conn@)),
            unique_keys(old(self).rooms_view()),
            unique_keys(final(self).rooms_view()),
            final(self).aggregator_view() == old(self).aggregator_view(),
            final(self).config_view() == old(self).config_view(),
    {
        proof {
            use_type_invariant(&self.rooms);
        }
        self.rooms.insert(id.to_owned(), RoomLink::Mock(conn));
        proof {
            use_type_invariant(&self.rooms);
        }
    }

    /// Registers a TCP link to room `id` at the configured host and port,
    /// replacing any link the room had.
    pub fn add_room(&mut self, id: &str, config: ConnectionConfig)
        ensures
            final(self).rooms_view() == inserted(
                old(self).rooms_view(),
                id@,
                RoomLinkView::Tcp(RoomConnectionView {
                    room_id: id@,
                    host: config.host@,
                    port: config.port,
                    healthy: false,
                    connected: false,
                    subscribed: false,
                    last_tick: None,
                }),
            ),
            unique_keys(old(self).rooms_view()),
            unique_keys(final(self).rooms_view()),
            final(self).aggregator_view() == old(self).aggregator_view(),
            final(self).config_view() == old(self).config_view(),
    {
        proof {
            use_type_invariant(&self.rooms);
        }
        let conn = RoomConnection::new(id, config.host.as_str(), config.port);
        self.rooms.insert(id.to_owned(), RoomLink::Tcp(conn));
        proof {
            use_type_invariant(&self.rooms);
        }
    }

    /// Removes room `id`; says whether it was registered.
    pub fn remove_room(&mut self, id: &str) -> (r: bool)
        ensures
            r == has_key(old(self).rooms_view(), id@),
            final(self).rooms_view() == removed(old(self).rooms_view(), id@),
            unique_keys(old(self).rooms_view()),
            unique_keys(final(self).rooms_view()),
            final(self).aggregator_view() == old(self).aggregator_view(),
            final(self).config_view() == old(self).config_view(),
    {
        proof {
            use_type_invariant(&self.rooms);
        }
        let r = self.rooms.remove(id).is_some();
        proof {
            use_type_invariant(&self.rooms);
        }
        r
    }

    /// Tries to connect every room, in registration order. Gives the ids of
    /// all rooms when every attempt succeeds, and otherwise one line
    /// `"<id>: <error>"` per failed room.
    pub fn connect_all(&mut self) -> (r: Result<Vec<String>, Vec<String>>)
        ensures
            final(self).rooms_view() == old(self).rooms_view().map_values(
                |e: (Seq<char>, RoomLinkView)| (e.0, link_after_connect(e.1)),
            ),
            match r {
                Ok(ids) => connect_failures(old(self).rooms_view()).len() == 0
                    && ids.deep_view() == connect_successes(old(self).rooms_view()),
                Err(lines) => connect_failures(old(self).rooms_view()).len() > 0
                    && lines.deep_view() == connect_failures(old(self).rooms_view()),
            },
            final(self).aggregator_view() == old(self).aggregator_view(),
            final(self).config_view() == old(self).config_view(),
    {
        let ghost old_rooms = self.rooms@;
        let n = self.rooms.len();
        let mut connected: Vec<String> = Vec::new();
        let mut failed: Vec<String> = Vec::new();
        let mut i: usize = 0;
        while i < n
            invariant
                n == old_rooms.len(),
                i <= n,
                self.rooms@.len() == n,
                forall|j: int| 0 <= j < i ==> #[trigger] self.rooms@[j] == (old_rooms[j].0, link_after_connect(old_rooms[j].1)),
                forall|j: int| i <= j < n ==> #[trigger] self.rooms@[j] == old_rooms[j],
                connected.deep_view() == connect_successes(old_rooms.take(i as int)),
                failed.deep_view() == connect_failures(old_rooms.take(i as int)),
                self.aggregator == old(self).aggregator,
                self.config == old(self).config,
            decreases n - i,
        {
            let ghost before = self.rooms@;
            let (k, mut link) = self.rooms.take_at(i);
            let res = link.connect();
            proof {
                assert(old_rooms.take(i + 1).drop_last() =~= old_rooms.take(i as int));
                assert(old_rooms.take(i + 1).last() == old_rooms[i as int]);
            }
            match res {
                Ok(()) => {
                    let ghost c0 = connected.deep_view();
                    connected.push(k.clone());
                    proof {
                        assert(connected.deep_view() =~= c0.push(k@));
                    }
                },
                Err(e) => {
                    let mut line = k.clone();
                    line.append(": ");
                    line.append(e.as_str());
                    let ghost f0 = failed.deep_view();
                    failed.push(line);
                    proof {
                        assert(failed.deep_view() =~= f0.push(k@ + ": "@ + e@));
                    }
                },
            }
            self.rooms.put_at(i, k, link);
            proof {
                assert forall|j: int| 0 <= j < n implies #[trigger] self.rooms@[j] == if j <= i {
                    (old_rooms[j].0, link_after_connect(old_rooms[j].1))
                } else {
                    old_rooms[j]
                } by {
                    if j < i {
                        assert(self.rooms@[j] == before[j]);
                    } else if j > i {
                        assert(self.rooms@[j] == before[j]);
                    }
                }
            }
            i = i + 1;
        }
        proof {
            assert(old_rooms.take(n as int) =~= old_rooms);
            assert(self.rooms@ =~= old_rooms.map_values(
                |e: (Seq<char>, RoomLinkView)| (e.0, link_after_connect(e.1)),
            ));
        }
        if failed.len() == 0 {
            Ok(connected)
        } else {
            Err(failed)
        }
    }

    /// Sends `cmd` to every room, in registration order.
    pub fn broadcast_command(&self, cmd: &str) -> (r: Vec<Result<Response, String>>)
        ensures
            r@.len() == self.rooms_view().len(),
            forall|i: int| 0 <= i < r@.len() ==> response_result(#[trigger] r@[i]) == link_send(
                self.rooms_view()[i].1,
                cmd@,
            ),
    {
        let n = self.rooms.len();
        let mut results: Vec<Result<Response, String>> = Vec::new();
        let mut i: usize = 0;
        while i < n
            invariant
                n == self.rooms@.len(),
                i <= n,
                results@.len() == i,
                forall|j: int| 0 <= j < i ==> response_result(#[trigger] results@[j]) == link_send(
                    self.rooms@[j].1,
                    cmd@,
                ),
            decreases n - i,
        {
            results.push(self.rooms.value_at(i).send(cmd));
            i = i + 1;
        }
        results
    }

    /// Sends `cmd` to room `room_id`.
    pub fn send_command(&self, room_id: &str, cmd: &str) -> (r: Result<Response, String>)
        ensures
            response_result(r) == match lookup(self.rooms_view(), room_id@) {
                Some(v) => link_send(v, cmd@),
                None => Err("room '"@ + room_id@ + "' not found"@),
            },
    {
        match self.rooms.get(room_id) {
            Some(conn) => conn.send(cmd),
            None => {
                let mut msg = "room '".to_owned();
                msg.append(room_id);
                msg.append("' not found");
                Err(msg)
            },
        }
    }

    /// Subscribes every room to its ticks, in registration order.
    pub fn subscribe_all(&mut self) -> (r: Vec<Result<(), String>>)
        ensures
            final(self).rooms_view() == old(self).rooms_view().map_values(
                |e: (Seq<char>, RoomLinkView)| (e.0, link_after_subscribe(e.1)),
            ),
            r@.len() == old(self).rooms_view().len(),
            forall|i: int| 0 <= i < r@.len() ==> unit_result(#[trigger] r@[i]) == link_subscribe_result(
                old(self).rooms_view()[i].1,
            ),
            final(self).aggregator_view() == old(self).aggregator_view(),
            final(self).config_view() == old(self).config_view(),
    {
        let ghost old_rooms = self.rooms@;
        let n = self.rooms.len();
        let mut results: Vec<Result<(), String>> = Vec::new();
        let mut i: usize = 0;
        while i < n
            invariant
                n == old_rooms.len(),
                i <= n,
                self.rooms@.len() == n,
                forall|j: int| 0 <= j < i ==> #[trigger] self.rooms@[j] == (old_rooms[j].0, link_after_subscribe(old_rooms[j].1)),
                forall|j: int| i <= j < n ==> #[trigger] self.rooms@[j] == old_rooms[j],
                results@.len() == i,
                forall|j: int| 0 <= j < i ==> unit_result(#[trigger] results@[j]) == link_subscribe_result(old_rooms[j].1),
                self.aggregator == old(self).aggregator,
                self.config == old(self).config,
            decreases n - i,
        {
            let ghost before = self.rooms@;
            let (k, mut link) = self.rooms.take_at(i);
            let res = link.subscribe();
            results.push(res);
            self.rooms.put_at(i, k, link);
            proof {
                assert forall|j: int| 0 <= j < n implies #[trigger] self.rooms@[j] == if j <= i {
                    (old_rooms[j].0, link_after_subscribe(old_rooms[j].1))
                } else {
                    old_rooms[j]
                } by {
                    if j != i {
                        assert(self.rooms@[j] == before[j]);
                    }
                }
            }
            i = i + 1;
        }
        proof {
            assert(self.rooms@ =~= old_rooms.map_values(
                |e: (Seq<char>, RoomLinkView)| (e.0, link_after_subscribe(e.1)),
            ));
        }
        results
    }

    /// The state of every room, in registration order.
    pub fn get_room_states(&self) -> (r: KeyedMap<RoomState>)
        ensures
            r@ == self.rooms_view().map_values(
                |e: (Seq<char>, RoomLinkView)| (e.0, room_state_of(e.0, e.1)),
            ),
    {
        proof {
            use_type_invariant(&self.rooms);
        }
        let ghost target = self.rooms@.map_values(
            |e: (Seq<char>, RoomLinkView)| (e.0, room_state_of(e.0, e.1)),
        );
        let n = self.rooms.len();
        let mut states: KeyedMap<RoomState> = KeyedMap::new();
        let mut i: usize = 0;
        while i < n
            invariant
                n == self.rooms@.len(),
                i <= n,
                unique_keys(self.rooms@),
                target == self.rooms@.map_values(
                    |e: (Seq<char>, RoomLinkView)| (e.0, room_state_of(e.0, e.1)),
                ),
                states@ == target.take(i as int),
            decreases n - i,
        {
            let id = self.rooms.key_at(i);
            let conn = self.rooms.value_at(i);
            let last = conn.last_tick();
            let alarm_count = match &last {
                Some(t) => t.alarms.len(),
                None => 0,
            };
            let state = RoomState {
                id: id.clone(),
                connected: conn.is_healthy(),
                last_tick: last,
                alarm_count,
            };
            proof {
                if has_key(states@, id@) {
                    let j = choose|j: int| 0 <= j < states@.len() && #[trigger] states@[j].0 == id@;
                    assert(self.rooms@[j].0 == id@);
                }
            }
            states.push_new(id.clone(), state);
            proof {
                assert(states@ =~= target.take(i + 1));
            }
            i = i + 1;
        }
        proof {
            assert(target.take(n as int) =~= target);
        }
        states
    }

    /// The health-monitoring snapshot of every room, in registration order.
    fn snapshots(&self) -> (r: KeyedMap<RoomStateSnapshot>)
        ensures
            r@ == snapshots_of(self.rooms_view()),
    {
        proof {
            use_type_invariant(&self.rooms);
        }
        let ghost target = snapshots_of(self.rooms@);
        let n = self.rooms.len();
        let mut snaps: KeyedMap<RoomStateSnapshot> = KeyedMap::new();
        let mut i: usize = 0;
        while i < n
            invariant
                n == self.rooms@.len(),
                i <= n,
                unique_keys(self.rooms@),
                target == snapshots_of(self.rooms@),
                snaps@ == target.take(i as int),
            decreases n - i,
        {
            let id = self.rooms.key_at(i);
            let conn = self.rooms.value_at(i);
            let healthy = conn.is_healthy();
            let last = conn.last_tick();
            let snap = match &last {
                Some(t) => RoomStateSnapshot {
                    connected: healthy,
                    last_tick_time: Some(t.timestamp),
                    alarm_count: t.alarms.len(),
                    uptime_percentage: if healthy { FULL_UPTIME } else { NO_UPTIME },
                },
                None => RoomStateSnapshot {
                    connected: healthy,
                    last_tick_time: None,
                    alarm_count: 0,
                    uptime_percentage: if healthy { FULL_UPTIME } else { NO_UPTIME },
                },
            };
            proof {
                if has_key(snaps@, id@) {
                    let j = choose|j: int| 0 <= j < snaps@.len() && #[trigger] snaps@[j].0 == id@;
                    assert(self.rooms@[j].0 == id@);
                }
            }
            snaps.push_new(id.clone(), snap);
            proof {
                assert(snaps@ =~= target.take(i + 1));
            }
            i = i + 1;
        }
        proof {
            assert(target.take(n as int) =~= target);
        }
        snaps
    }

    /// Fleet health at the current time, as a monitor with the default
    /// settings sees the rooms.
    pub fn get_fleet_health(&self) -> (h: FleetHealth)
        ensures
            self.monitor_view().has_default_settings(),
            self.monitor_view().is_health_of(h, snapshots_of(self.rooms_view()), h.last_updated),
    {
        let now = now_nanos();
        self.get_fleet_health_at(now)
    }

    /// Fleet health as seen at `now` (nanoseconds since the epoch).
    pub fn get_fleet_health_at(&self, now: i64) -> (h: FleetHealth)
        ensures
            self.monitor_view().has_default_settings(),
            self.monitor_view().is_health_of(h, snapshots_of(self.rooms_view()), now),
    {
        proof {
            lemma_default_monitor();
        }
        let snaps = self.snapshots();
        let monitor = FleetMonitor::new();
        monitor.compute_health_at(&snaps, now)
    }

    /// Feeds a tick into the aggregator.
    pub fn ingest_tick(&mut self, tick: Tick)
        ensures
            final(self).aggregator_view().latest_view() == inserted(
                old(self).aggregator_view().latest_view(),
                tick@.room_id,
                tick@,
            ),
            final(self).aggregator_view().history_view() == inserted(
                old(self).aggregator_view().history_view(),
                tick@.room_id,
                next_history(
                    lookup(old(self).aggregator_view().history_view(), tick@.room_id),
                    tick@,
                    old(self).aggregator_view().max_history_view(),
                ),
            ),
            final(self).aggregator_view().max_history_view() == old(self).aggregator_view().max_history_view(),
            final(self).aggregator_view().rules_view() == old(self).aggregator_view().rules_view(),
            latest_matches_history(
                old(self).aggregator_view().latest_view(),
                old(self).aggregator_view().history_view(),
            ),
            latest_matches_history(
                final(self).aggregator_view().latest_view(),
                final(self).aggregator_view().history_view(),
            ),
            final(self).rooms_view() == old(self).rooms_view(),
            final(self).config_view() == old(self).config_view(),
    {
        self.aggregator.ingest(tick);
    }

    /// Fleet-wide counts over the latest ticks, with all their readings and
    /// the least and greatest reading.
    pub fn get_statistics(&self) -> (s: FleetStatistics)
        requires
            alarm_total(self.aggregator_view().latest_view()) <= usize::MAX,
        ensures
            s.total_rooms == self.aggregator_view().latest_view().len(),
            s.total_sensors == s.sensor_values@.len(),
            s.sensor_values@ == crate::aggregator::readings_of(self.aggregator_view().latest_view()),
            s.total_alarms == alarm_total(self.aggregator_view().latest_view()),
            is_min_reading(s.min_reading, crate::aggregator::readings_of(self.aggregator_view().latest_view())),
            is_max_reading(s.max_reading, crate::aggregator::readings_of(self.aggregator_view().latest_view())),
    {
        self.aggregator.statistics()
    }

    /// Connects every room and then subscribes every room. When a connection
    /// attempt fails nothing is subscribed, and the failure lines are
    /// reported joined by ", ". Failed subscriptions are not reported.
    pub fn run(&mut self) -> (r: Result<(), String>)
        ensures
            ({
                let after_connect = old(self).rooms_view().map_values(
                    |e: (Seq<char>, RoomLinkView)| (e.0, link_after_connect(e.1)),
                );
                let failures = connect_failures(old(self).rooms_view());
                &&& r is Ok <==> failures.len() == 0
                &&& r matches Err(e) ==> e@ == joined(failures, ", "@)
                &&& final(self).rooms_view() == if failures.len() == 0 {
                    after_connect.map_values(
                        |e: (Seq<char>, RoomLinkView)| (e.0, link_after_subscribe(e.1)),
                    )
                } else {
                    after_connect
                }
            }),
            final(self).aggregator_view() == old(self).aggregator_view(),
            final(self).config_view() == old(self).config_view(),
    {
        match self.connect_all() {
            Err(lines) => Err(join_strings(&lines, ", ")),
            Ok(_) => {
                let _ = self.subscribe_all();
                Ok(())
            },
        }
    }

    /// The fleet configuration.
    pub fn config(&self) -> (c: &FleetConfig)
        ensures
            *c == self.config_view(),
    {
        &self.config
    }
}

/// A manager's fleet health is what a new monitor computes from the rooms'
/// snapshots at the same instant: the manager's monitor has the default
/// settings, and monitors with the default settings are all the same.
pub proof fn law_fleet_health_is_new_monitor_health(
    m: FleetManager,
    fresh: FleetMonitor,
    h: FleetHealth,
    now: i64,
)
    requires
        fresh.has_default_settings(),
        m.monitor_view().is_health_of(h, snapshots_of(m.rooms_view()), now),
    ensures
        fresh.is_health_of(h, snapshots_of(m.rooms_view()), now),
{
    lemma_default_monitor();
    lemma_default_settings_agree(default_monitor(), fresh);
}

/// Every room is reported once by `connect_all`: as connected or as failed.
pub proof fn law_connect_all_reports_every_room(rooms: Seq<(Seq<char>, RoomLinkView)>)
    ensures
        connect_successes(rooms).len() + connect_failures(rooms).len() == rooms.len(),
    decreases rooms.len(),
{
    if rooms.len() > 0 {
        law_connect_all_reports_every_room(rooms.drop_last());
    }
}

/// No connection attempt fails exactly when every room's attempt succeeds.
pub proof fn lemma_no_failures(rooms: Seq<(Seq<char>, RoomLinkView)>)
    ensures
        connect_failures(rooms).len() == 0 <==> forall|i: int| 0 <= i < rooms.len()
            ==> (#[trigger] link_connect_result(rooms[i].1)) is Ok,
    decreases rooms.len(),
{
    if rooms.len() > 0 {
        let r = rooms.drop_last();
        lemma_no_failures(r);
        if connect_failures(rooms).len() == 0 {
            assert forall|i: int| 0 <= i < rooms.len() implies (#[trigger] link_connect_result(rooms[i].1)) is Ok by {
                if i < rooms.len() - 1 {
                    assert(rooms[i] == r[i]);
                    assert(link_connect_result(r[i].1) is Ok);
                }
            }
        }
        if forall|i: int| 0 <= i < rooms.len() ==> (#[trigger] link_connect_result(rooms[i].1)) is Ok {
            assert forall|i: int| 0 <= i < r.len() implies (#[trigger] link_connect_result(r[i].1)) is Ok by {
                assert(rooms[i] == r[i]);
            }
            assert(link_connect_result(rooms[rooms.len() - 1].1) is Ok);
        }
    }
}

/// When `run` succeeds, every room ends up connected, healthy and subscribed.
pub proof fn law_run_connects_and_subscribes_every_room(rooms: Seq<(Seq<char>, RoomLinkView)>)
    requires
        connect_failures(rooms).len() == 0,
    ensures
        forall|i: int| 0 <= i < rooms.len() ==> {
            let v = link_after_subscribe(link_after_connect(#[trigger] rooms[i].1));
            link_connected(v) && link_healthy(v) && link_subscribed(v)
        },
{
    lemma_no_failures(rooms);
    assert forall|i: int| 0 <= i < rooms.len() implies {
        let v = link_after_subscribe(link_after_connect(#[trigger] rooms[i].1));
        link_connected(v) && link_healthy(v) && link_subscribed(v)
    } by {
        assert(link_connect_result(rooms[i].1) is Ok);
    }
}

} // verus!
