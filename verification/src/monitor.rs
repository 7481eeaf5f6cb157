//! Fleet health: a traffic-light status computed from room snapshots.
//!
//! Times are nanoseconds since the Unix epoch. Uptime percentages are carried
//! as the IEEE-754 binary64 encoding of the percentage; the monitor passes them
//! through and never computes with them.

use vstd::prelude::*;
use crate::clock::now_nanos;
use crate::keyed_map::{KeyedMap, Duplicate, has_key, unique_keys};

verus! {

/// Overall health status for the fleet.
#[derive(Debug, Clone, Copy, PartialEq, Eq, Structural)]
pub enum HealthStatus {
    Green,
    Yellow,
    Red,
}

/// The text shown for a status.
pub open spec fn health_label(h: HealthStatus) -> Seq<char> {
    match h {
        HealthStatus::Green => "🟢 GREEN"@,
        HealthStatus::Yellow => "🟡 YELLOW"@,
        HealthStatus::Red => "🔴 RED"@,
    }
}

impl HealthStatus {
    /// The text shown for this status.
    pub fn label(&self) -> (s: &'static str)
        ensures
            s@ == health_label(*self),
    {
        match self {
            HealthStatus::Green => "🟢 GREEN",
            HealthStatus::Yellow => "🟡 YELLOW",
            HealthStatus::Red => "🔴 RED",
        }
    }
}

/// Snapshot of a room's state for health monitoring.
#[derive(Debug, Clone, Copy)]
pub struct RoomStateSnapshot {
    pub connected: bool,
    /// When the room last ticked, in nanoseconds since the epoch.
    pub last_tick_time: Option<i64>,
    pub alarm_count: usize,
    /// The binary64 encoding of the room's uptime percentage.
    pub uptime_percentage: u64,
}

impl View for RoomStateSnapshot {
    type V = RoomStateSnapshot;

    open spec fn view(&self) -> RoomStateSnapshot {
        *self
    }
}

impl DeepView for RoomStateSnapshot {
    type V = RoomStateSnapshot;

    open spec fn deep_view(&self) -> RoomStateSnapshot {
        *self
    }
}

impl Duplicate for RoomStateSnapshot {
    fn duplicate(&self) -> (r: RoomStateSnapshot) {
        *self
    }
}

/// Health info for a single room.
#[derive(Debug, Clone, Copy)]
pub struct RoomHealth {
    pub connected: bool,
    pub ticking: bool,
    pub alarm_count: usize,
    /// When the room last ticked, in nanoseconds since the epoch.
    pub last_tick: Option<i64>,
    /// The binary64 encoding of the room's uptime percentage.
    pub uptime_percentage: u64,
}

impl View for RoomHealth {
    type V = RoomHealth;

    open spec fn view(&self) -> RoomHealth {
        *self
    }
}

impl DeepView for RoomHealth {
    type V = RoomHealth;

    open spec fn deep_view(&self) -> RoomHealth {
        *self
    }
}

impl Duplicate for RoomHealth {
    fn duplicate(&self) -> (r: RoomHealth) {
        *self
    }
}

/// Health snapshot for the entire fleet.
#[derive(Debug, Clone)]
pub struct FleetHealth {
    pub status: HealthStatus,
    pub total_rooms: usize,
    pub healthy_rooms: usize,
    pub rooms_with_alarms: usize,
    pub rooms_down: usize,
    /// When the snapshot was taken, in nanoseconds since the epoch.
    pub last_updated: i64,
    pub details: KeyedMap<RoomHealth>,
}

/// Whole seconds between two instants given in nanoseconds, as chrono's
/// `(now - last).num_seconds().abs()` counts them (truncated toward zero).
pub open spec fn elapsed_secs(now: i64, last: i64) -> int {
    let d = now - last;
    (if d < 0 { -d } else { d }) / 1_000_000_000
}

/// A timeout in seconds read as a signed 64-bit number, as `secs as i64` does.
pub open spec fn signed_timeout(secs: u64) -> int {
    if secs <= i64::MAX {
        secs as int
    } else {
        secs - 0x1_0000_0000_0000_0000int
    }
}

/// A room that is connected, ticking and free of alarms.
pub open spec fn is_healthy_room(h: RoomHealth) -> bool {
    h.connected && h.ticking && h.alarm_count == 0
}

/// A room that is disconnected or not ticking.
pub open spec fn is_down_room(h: RoomHealth) -> bool {
    !h.connected || !h.ticking
}

/// A room that reports at least one alarm.
pub open spec fn has_alarms(h: RoomHealth) -> bool {
    h.alarm_count > 0
}

/// The number of healthy rooms among `s`.
pub open spec fn count_healthy(s: Seq<(Seq<char>, RoomHealth)>) -> nat
    decreases s.len(),
{
    if s.len() == 0 {
        0
    } else {
        count_healthy(s.drop_last()) + if is_healthy_room(s.last().1) { 1nat } else { 0nat }
    }
}

/// The number of rooms among `s` that are down.
pub open spec fn count_down(s: Seq<(Seq<char>, RoomHealth)>) -> nat
    decreases s.len(),
{
    if s.len() == 0 {
        0
    } else {
        count_down(s.drop_last()) + if is_down_room(s.last().1) { 1nat } else { 0nat }
    }
}

/// The number of rooms among `s` that report alarms.
pub open spec fn count_alarmed(s: Seq<(Seq<char>, RoomHealth)>) -> nat
    decreases s.len(),
{
    if s.len() == 0 {
        0
    } else {
        count_alarmed(s.drop_last()) + if has_alarms(s.last().1) { 1nat } else { 0nat }
    }
}

/// The ids of the stale rooms among `s`, in order.
pub open spec fn stale_ids(m: FleetMonitor, s: Seq<(Seq<char>, RoomStateSnapshot)>, now: i64) -> Seq<Seq<char>>
    decreases s.len(),
{
    if s.len() == 0 {
        Seq::empty()
    } else {
        let rest = stale_ids(m, s.drop_last(), now);
        if m.is_stale(s.last().1, now) {
            rest.push(s.last().0)
        } else {
            rest
        }
    }
}

/// Whether a room with snapshot `s` ticks at `now` under a tick timeout of
/// `timeout` seconds: it has ticked, and its last tick lies less than the
/// timeout (read as a signed number of seconds) away from `now`, in either
/// direction.
pub open spec fn ticks_within(s: RoomStateSnapshot, timeout: u64, now: i64) -> bool {
    match s.last_tick_time {
        Some(l) => (if now - l < 0 { l - now } else { now - l }) < signed_timeout(timeout) * 1_000_000_000,
        None => false,
    }
}

/// The number of rooms among `rooms` whose snapshot reports at least one alarm.
pub open spec fn snapshots_with_alarms(rooms: Seq<(Seq<char>, RoomStateSnapshot)>) -> nat
    decreases rooms.len(),
{
    if rooms.len() == 0 {
        0
    } else {
        snapshots_with_alarms(rooms.drop_last()) + if rooms.last().1.alarm_count > 0 { 1nat } else { 0nat }
    }
}

/// The number of rooms among `rooms` that are disconnected or do not tick at
/// `now` under a tick timeout of `timeout` seconds.
pub open spec fn snapshots_down(rooms: Seq<(Seq<char>, RoomStateSnapshot)>, timeout: u64, now: i64) -> nat
    decreases rooms.len(),
{
    if rooms.len() == 0 {
        0
    } else {
        let s = rooms.last().1;
        snapshots_down(rooms.drop_last(), timeout, now) + if !s.connected || !ticks_within(s, timeout, now) {
            1nat
        } else {
            0nat
        }
    }
}

/// The number of rooms among `rooms` that are connected, tick at `now` under a
/// tick timeout of `timeout` seconds, and report no alarm.
pub open spec fn snapshots_healthy(rooms: Seq<(Seq<char>, RoomStateSnapshot)>, timeout: u64, now: i64) -> nat
    decreases rooms.len(),
{
    if rooms.len() == 0 {
        0
    } else {
        let s = rooms.last().1;
        snapshots_healthy(rooms.drop_last(), timeout, now) + if s.connected && ticks_within(s, timeout, now)
            && s.alarm_count == 0 {
            1nat
        } else {
            0nat
        }
    }
}

/// The ids, in order, of the rooms among `rooms` that stopped ticking at
/// `now` under a tick timeout of `timeout` seconds: they ticked, but not
/// within the timeout, or they are connected and never ticked.
pub open spec fn stopped_ids(rooms: Seq<(Seq<char>, RoomStateSnapshot)>, timeout: u64, now: i64) -> Seq<
    Seq<char>,
>
    decreases rooms.len(),
{
    if rooms.len() == 0 {
        Seq::empty()
    } else {
        let s = rooms.last().1;
        let rest = stopped_ids(rooms.drop_last(), timeout, now);
        let stopped = match s.last_tick_time {
            Some(_) => !ticks_within(s, timeout, now),
            None => s.connected,
        };
        if stopped {
            rest.push(rooms.last().0)
        } else {
            rest
        }
    }
}

/// Monitors fleet health.
///
/// A room counts as ticking when its last tick lies less than the tick timeout
/// (in whole seconds) from now. The fleet is red when every room is down or when
/// the share of rooms down exceeds the red threshold, the fraction
/// `red_numerator / red_denominator` (a zero denominator makes the share never
/// exceed it); an inclusive threshold is also met by a share equal to it.
#[derive(Debug, Clone, Copy)]
pub struct FleetMonitor {
    /// Max seconds since last tick before a room is considered "not ticking".
    tick_timeout_secs: u64,
    red_numerator: u64,
    red_denominator: u64,
    red_inclusive: bool,
}

impl FleetMonitor {
    pub closed spec fn tick_timeout(&self) -> u64 {
        self.tick_timeout_secs
    }

    pub closed spec fn red_numerator(&self) -> u64 {
        self.red_numerator
    }

    pub closed spec fn red_denominator(&self) -> u64 {
        self.red_denominator
    }

    /// Whether a share equal to the red threshold already makes the fleet red.
    pub closed spec fn red_inclusive(&self) -> bool {
        self.red_inclusive
    }

    /// The settings of a new monitor: a 30 second tick timeout and a red
    /// threshold of one half that the share of rooms down must exceed.
    pub open spec fn has_default_settings(&self) -> bool {
        &&& self.tick_timeout() == 30
        &&& self.red_numerator() == 1
        &&& self.red_denominator() == 2
        &&& !self.red_inclusive()
    }

    /// Whether a room whose last tick was at `last` is ticking at `now`.
    pub open spec fn is_ticking(&self, last: Option<i64>, now: i64) -> bool {
        match last {
            Some(l) => elapsed_secs(now, l) < signed_timeout(self.tick_timeout()),
            None => false,
        }
    }

    /// Whether a room has stopped ticking: its last tick is at least the
    /// timeout old, or it is connected and has never ticked.
    pub open spec fn is_stale(&self, s: RoomStateSnapshot, now: i64) -> bool {
        match s.last_tick_time {
            Some(l) => elapsed_secs(now, l) >= signed_timeout(self.tick_timeout()),
            None => s.connected,
        }
    }

    /// The health of one room at `now`.
    pub open spec fn room_health(&self, s: RoomStateSnapshot, now: i64) -> RoomHealth {
        RoomHealth {
            connected: s.connected,
            ticking: self.is_ticking(s.last_tick_time, now),
            alarm_count: s.alarm_count,
            last_tick: s.last_tick_time,
            uptime_percentage: s.uptime_percentage,
        }
    }

    /// The per-room health of every room at `now`, in the rooms' order.
    pub open spec fn health_details(
        &self,
        rooms: Seq<(Seq<char>, RoomStateSnapshot)>,
        now: i64,
    ) -> Seq<(Seq<char>, RoomHealth)> {
        rooms.map_values(|e: (Seq<char>, RoomStateSnapshot)| (e.0, self.room_health(e.1, now)))
    }

    /// Whether `down` rooms out of `total` exceed the red threshold (or meet
    /// it, when it is inclusive).
    pub open spec fn over_red_share(&self, down: int, total: int) -> bool {
        if self.red_inclusive() {
            down * self.red_denominator() >= self.red_numerator() * total
        } else {
            down * self.red_denominator() > self.red_numerator() * total
        }
    }

    /// The fleet status for `total` rooms of which `down` are down and
    /// `alarmed` report alarms.
    pub open spec fn status_for(&self, total: int, down: int, alarmed: int) -> HealthStatus {
        if total == 0 {
            HealthStatus::Green
        } else if down == total || self.over_red_share(down, total) {
            HealthStatus::Red
        } else if down > 0 || alarmed > 0 {
            HealthStatus::Yellow
        } else {
            HealthStatus::Green
        }
    }

    /// A monitor with a 30 second tick timeout and a red threshold of one half.
    pub fn new() -> (m: Self)
        ensures
            m.has_default_settings(),
            m == default_monitor(),
    {
        FleetMonitor { tick_timeout_secs: 30, red_numerator: 1, red_denominator: 2, red_inclusive: false }
    }

    /// The same monitor with another tick timeout.
    pub fn with_tick_timeout(self, secs: u64) -> (m: Self)
        ensures
            m.tick_timeout() == secs,
            m.red_numerator() == self.red_numerator(),
            m.red_denominator() == self.red_denominator(),
            m.red_inclusive() == self.red_inclusive(),
    {
        FleetMonitor { tick_timeout_secs: secs, ..self }
    }

    /// The same monitor with the red threshold `numerator / denominator`,
    /// which the share of rooms down must exceed.
    pub fn with_red_threshold(self, numerator: u64, denominator: u64) -> (m: Self)
        ensures
            m.tick_timeout() == self.tick_timeout(),
            m.red_numerator() == numerator,
            m.red_denominator() == denominator,
            !m.red_inclusive(),
    {
        FleetMonitor { red_numerator: numerator, red_denominator: denominator, red_inclusive: false, ..self }
    }

    /// The same monitor with the inclusive red threshold
    /// `numerator / denominator`, which the share of rooms down must reach.
    pub fn with_inclusive_red_threshold(self, numerator: u64, denominator: u64) -> (m: Self)
        ensures
            m.tick_timeout() == self.tick_timeout(),
            m.red_numerator() == numerator,
            m.red_denominator() == denominator,
            m.red_inclusive(),
    {
        FleetMonitor { red_numerator: numerator, red_denominator: denominator, red_inclusive: true, ..self }
    }

    /// Whether a room whose last tick was at `last` is ticking at `now`.
    fn ticking_at(&self, last: Option<i64>, now: i64) -> (b: bool)
        ensures
            b == self.is_ticking(last, now),
    {
        match last {
            Some(l) => {
                let d: i128 = now as i128 - l as i128;
                let a: i128 = if d < 0 { -d } else { d };
                let secs: i128 = a / 1_000_000_000;
                secs < self.signed_timeout_exec()
            },
            None => false,
        }
    }

    fn signed_timeout_exec(&self) -> (t: i128)
        ensures
            t == signed_timeout(self.tick_timeout()),
    {
        if self.tick_timeout_secs <= 0x7fff_ffff_ffff_ffffu64 {
            self.tick_timeout_secs as i128
        } else {
            self.tick_timeout_secs as i128 - 0x1_0000_0000_0000_0000i128
        }
    }

    /// Whether `down` rooms out of `total` exceed the red threshold.
    fn exceeds_red_share(&self, down: usize, total: usize) -> (b: bool)
        ensures
            b == self.over_red_share(down as int, total as int),
    {
        let d = down as u128;
        let rd = self.red_denominator as u128;
        let rn = self.red_numerator as u128;
        let t = total as u128;
        assert(d * rd <= 0xffff_ffff_ffff_ffffu128 * 0xffff_ffff_ffff_ffffu128) by (nonlinear_arith)
            requires
                d <= 0xffff_ffff_ffff_ffffu128,
                rd <= 0xffff_ffff_ffff_ffffu128,
        ;
        assert(rn * t <= 0xffff_ffff_ffff_ffffu128 * 0xffff_ffff_ffff_ffffu128) by (nonlinear_arith)
            requires
                rn <= 0xffff_ffff_ffff_ffffu128,
                t <= 0xffff_ffff_ffff_ffffu128,
        ;
        let lhs: u128 = d * rd;
        let rhs: u128 = rn * t;
        if self.red_inclusive {
            lhs >= rhs
        } else {
            lhs > rhs
        }
    }

    /// Computes fleet health from a set of room states at the current time.
    pub fn compute_health(&self, rooms: &KeyedMap<RoomStateSnapshot>) -> (h: FleetHealth)
        ensures
            self.is_health_of(h, rooms@, h.last_updated),
    {
        let now = now_nanos();
        self.compute_health_at(rooms, now)
    }

    /// What `compute_health` returns when it runs at `now`.
    pub open spec fn is_health_of(
        &self,
        h: FleetHealth,
        rooms: Seq<(Seq<char>, RoomStateSnapshot)>,
        now: i64,
    ) -> bool {
        let details = self.health_details(rooms, now);
        &&& h.details@ == details
        &&& h.total_rooms == rooms.len()
        &&& h.healthy_rooms == count_healthy(details)
        &&& h.rooms_with_alarms == count_alarmed(details)
        &&& h.rooms_down == count_down(details)
        &&& h.status == self.status_for(
            rooms.len() as int,
            count_down(details) as int,
            count_alarmed(details) as int,
        )
        &&& h.last_updated == now
    }

    /// Computes fleet health from a set of room states as seen at `now`
    /// (nanoseconds since the epoch).
    pub fn compute_health_at(&self, rooms: &KeyedMap<RoomStateSnapshot>, now: i64) -> (h: FleetHealth)
        ensures
            self.is_health_of(h, rooms@, now),
            h.rooms_with_alarms == snapshots_with_alarms(rooms@),
            h.rooms_down == snapshots_down(rooms@, self.tick_timeout(), now),
            h.healthy_rooms == snapshots_healthy(rooms@, self.tick_timeout(), now),
    {
        proof {
            lemma_counts_over_snapshots(*self, rooms@, now);
        }
        proof {
            use_type_invariant(rooms);
        }
        let n = rooms.len();
        let ghost details_all = self.health_details(rooms@, now);
        let mut healthy_rooms: usize = 0;
        let mut rooms_with_alarms: usize = 0;
        let mut rooms_down: usize = 0;
        let mut details: KeyedMap<RoomHealth> = KeyedMap::new();
        let mut i: usize = 0;
        while i < n
            invariant
                n == rooms@.len(),
                i <= n,
                unique_keys(rooms@),
                details_all == self.health_details(rooms@, now),
                details@ == details_all.take(i as int),
                healthy_rooms == count_healthy(details@),
                rooms_with_alarms == count_alarmed(details@),
                rooms_down == count_down(details@),
                healthy_rooms <= i,
                rooms_with_alarms <= i,
                rooms_down <= i,
            decreases n - i,
        {
            let id = rooms.key_at(i);
            let state = rooms.value_at(i);
            let connected = state.connected;
            let ticking = self.ticking_at(state.last_tick_time, now);
            let alarm_count = state.alarm_count;
            if connected && ticking && alarm_count == 0 {
                healthy_rooms = healthy_rooms + 1;
            }
            if alarm_count > 0 {
                rooms_with_alarms = rooms_with_alarms + 1;
            }
            if !connected || !ticking {
                rooms_down = rooms_down + 1;
            }
            let rh = RoomHealth {
                connected,
                ticking,
                alarm_count,
                last_tick: state.last_tick_time,
                uptime_percentage: state.uptime_percentage,
            };
            proof {
                if has_key(details@, id@) {
                    let j = choose|j: int| 0 <= j < details@.len() && #[trigger] details@[j].0 == id@;
                    assert(rooms@[j].0 == id@);
                    assert(rooms@[j].0 != rooms@[i as int].0);
                }
            }
            details.push_new(id.clone(), rh);
            proof {
                assert(details@ =~= details_all.take(i + 1));
                assert(details@.drop_last() =~= details_all.take(i as int));
            }
            i = i + 1;
        }
        proof {
            assert(details_all.take(n as int) =~= details_all);
        }
        let status = if n == 0 {
            HealthStatus::Green
        } else if n == rooms_down || self.exceeds_red_share(rooms_down, n) {
            HealthStatus::Red
        } else if rooms_down > 0 || rooms_with_alarms > 0 {
            HealthStatus::Yellow
        } else {
            HealthStatus::Green
        };
        FleetHealth {
            status,
            total_rooms: n,
            healthy_rooms,
            rooms_with_alarms,
            rooms_down,
            last_updated: now,
            details,
        }
    }

    /// Detects rooms that have stopped ticking, at the current time.
    pub fn detect_stale_rooms(&self, rooms: &KeyedMap<RoomStateSnapshot>) -> (r: Vec<String>)
        ensures
            exists|now: i64| r.deep_view() == stale_ids(*self, rooms@, now),
    {
        let now = now_nanos();
        self.detect_stale_rooms_at(rooms, now)
    }

    /// The ids of the rooms that have stopped ticking as seen at `now`, in the
    /// rooms' order.
    pub fn detect_stale_rooms_at(&self, rooms: &KeyedMap<RoomStateSnapshot>, now: i64) -> (r: Vec<String>)
        ensures
            r.deep_view() == stale_ids(*self, rooms@, now),
            r.deep_view() == stopped_ids(rooms@, self.tick_timeout(), now),
    {
        proof {
            lemma_stale_over_snapshots(*self, rooms@, now);
        }
        let n = rooms.len();
        let mut stale: Vec<String> = Vec::new();
        let mut i: usize = 0;
        while i < n
            invariant
                n == rooms@.len(),
                i <= n,
                stale.deep_view() == stale_ids(*self, rooms@.take(i as int), now),
            decreases n - i,
        {
            let state = rooms.value_at(i);
            let is_stale = match state.last_tick_time {
                Some(_) => !self.ticking_at(state.last_tick_time, now),
                None => state.connected,
            };
            proof {
                assert(rooms@.take(i + 1).drop_last() =~= rooms@.take(i as int));
            }
            if is_stale {
                stale.push(rooms.key_at(i).clone());
                proof {
                    assert(stale.deep_view() =~= stale_ids(*self, rooms@.take(i + 1), now));
                }
            }
            i = i + 1;
        }
        proof {
            assert(rooms@.take(n as int) =~= rooms@);
        }
        stale
    }
}

/// Each count is at most the number of rooms, and no room is both healthy and
/// down, nor both healthy and alarmed.
pub proof fn lemma_counts_bounded(s: Seq<(Seq<char>, RoomHealth)>)
    ensures
        count_healthy(s) + count_down(s) <= s.len(),
        count_healthy(s) + count_alarmed(s) <= s.len(),
    decreases s.len(),
{
    if s.len() > 0 {
        lemma_counts_bounded(s.drop_last());
    }
}

/// Every room is healthy exactly when no room is down and none has alarms.
pub proof fn lemma_all_healthy(s: Seq<(Seq<char>, RoomHealth)>)
    ensures
        (count_healthy(s) == s.len()) <==> (count_down(s) == 0 && count_alarmed(s) == 0),
    decreases s.len(),
{
    if s.len() > 0 {
        lemma_all_healthy(s.drop_last());
        lemma_counts_bounded(s.drop_last());
    }
}

/// Each id that `stale_ids` reports belongs to a room of `s` that is stale.
pub proof fn lemma_stale_ids_are_stale(m: FleetMonitor, s: Seq<(Seq<char>, RoomStateSnapshot)>, now: i64, k: int)
    requires
        0 <= k < stale_ids(m, s, now).len(),
    ensures
        exists|i: int| 0 <= i < s.len() && #[trigger] s[i].0 == stale_ids(m, s, now)[k]
            && m.is_stale(s[i].1, now),
    decreases s.len(),
{
    let rest = stale_ids(m, s.drop_last(), now);
    if k < rest.len() {
        lemma_stale_ids_are_stale(m, s.drop_last(), now, k);
        let i = choose|i: int| 0 <= i < s.drop_last().len() && #[trigger] s.drop_last()[i].0 == rest[k]
            && m.is_stale(s.drop_last()[i].1, now);
        assert(s[i] == s.drop_last()[i]);
    } else {
        assert(s[s.len() - 1].0 == stale_ids(m, s, now)[k]);
    }
}

/// The fleet is green exactly when every room is connected, ticking and free
/// of alarms; an empty fleet is green. (An inclusive red threshold of zero is
/// met by every non-empty fleet, which is then never green.)
pub proof fn law_green_exactly_when_all_rooms_healthy(
    m: FleetMonitor,
    rooms: Seq<(Seq<char>, RoomStateSnapshot)>,
    now: i64,
)
    requires
        !(m.red_inclusive() && m.red_numerator() == 0),
    ensures
        ({
            let d = m.health_details(rooms, now);
            (m.status_for(rooms.len() as int, count_down(d) as int, count_alarmed(d) as int)
                == HealthStatus::Green) <==> (count_healthy(d) == rooms.len())
        }),
{
    let d = m.health_details(rooms, now);
    lemma_all_healthy(d);
    lemma_counts_bounded(d);
    let rn = m.red_numerator() as int;
    let t = rooms.len() as int;
    assert(rn * t >= 0) by (nonlinear_arith)
        requires
            rn >= 0,
            t >= 0,
    ;
    assert(rn >= 1 && t >= 1 ==> rn * t > 0) by (nonlinear_arith);
}

/// When every room of a non-empty fleet is down, the fleet is red.
pub proof fn law_red_when_every_room_down(
    m: FleetMonitor,
    rooms: Seq<(Seq<char>, RoomStateSnapshot)>,
    now: i64,
)
    requires
        rooms.len() > 0,
        count_down(m.health_details(rooms, now)) == rooms.len(),
    ensures
        m.status_for(
            rooms.len() as int,
            count_down(m.health_details(rooms, now)) as int,
            count_alarmed(m.health_details(rooms, now)) as int,
        ) == HealthStatus::Red,
{
}

/// The health counts never exceed the number of rooms, and no room counts as
/// both healthy and down or both healthy and alarmed.
pub proof fn law_health_counts_bounded(
    m: FleetMonitor,
    rooms: Seq<(Seq<char>, RoomStateSnapshot)>,
    now: i64,
)
    ensures
        ({
            let d = m.health_details(rooms, now);
            &&& count_healthy(d) + count_down(d) <= rooms.len()
            &&& count_healthy(d) + count_alarmed(d) <= rooms.len()
        }),
{
    lemma_counts_bounded(m.health_details(rooms, now));
}

/// A room reported stale at some instant is counted as down by the health
/// computed at the same instant.
pub proof fn law_stale_rooms_are_down(
    m: FleetMonitor,
    rooms: Seq<(Seq<char>, RoomStateSnapshot)>,
    now: i64,
    k: int,
)
    requires
        0 <= k < stale_ids(m, rooms, now).len(),
    ensures
        exists|i: int| 0 <= i < rooms.len() && #[trigger] rooms[i].0 == stale_ids(m, rooms, now)[k]
            && is_down_room(m.health_details(rooms, now)[i].1),
{
    lemma_stale_ids_are_stale(m, rooms, now, k);
    let i = choose|i: int| 0 <= i < rooms.len() && #[trigger] rooms[i].0 == stale_ids(m, rooms, now)[k]
        && m.is_stale(rooms[i].1, now);
    assert(is_down_room(m.health_details(rooms, now)[i].1));
}

/// With a red threshold of one half, a fleet with a majority of rooms down is
/// red.
pub proof fn law_majority_down_is_red(
    m: FleetMonitor,
    rooms: Seq<(Seq<char>, RoomStateSnapshot)>,
    now: i64,
)
    requires
        m.red_numerator() == 1,
        m.red_denominator() == 2,
        2 * count_down(m.health_details(rooms, now)) > rooms.len(),
    ensures
        m.status_for(
            rooms.len() as int,
            count_down(m.health_details(rooms, now)) as int,
            count_alarmed(m.health_details(rooms, now)) as int,
        ) == HealthStatus::Red,
{
}

/// The monitor with the default settings.
pub closed spec fn default_monitor() -> FleetMonitor {
    FleetMonitor { tick_timeout_secs: 30, red_numerator: 1, red_denominator: 2, red_inclusive: false }
}

/// The default monitor has the default settings.
pub proof fn lemma_default_monitor()
    ensures
        default_monitor().has_default_settings(),
{
}

/// Two monitors with the default settings are the same monitor, so they give
/// the same health for the same rooms at the same instant.
pub proof fn lemma_default_settings_agree(a: FleetMonitor, b: FleetMonitor)
    requires
        a.has_default_settings(),
        b.has_default_settings(),
    ensures
        a == b,
{
}

/// A room ticks exactly when its last tick lies less than the timeout, in
/// nanoseconds, away from now.
pub proof fn lemma_ticking_in_nanos(m: FleetMonitor, s: RoomStateSnapshot, now: i64)
    ensures
        m.is_ticking(s.last_tick_time, now) == ticks_within(s, m.tick_timeout(), now),
{
    if let Some(l) = s.last_tick_time {
        let d: int = if now - l < 0 { l - now } else { now - l };
        let t = signed_timeout(m.tick_timeout());
        assert(elapsed_secs(now, l) == d / 1_000_000_000);
        if t <= 0 {
            assert(d / 1_000_000_000 >= 0) by (nonlinear_arith)
                requires
                    d >= 0,
            ;
            assert(t * 1_000_000_000 <= 0) by (nonlinear_arith)
                requires
                    t <= 0,
            ;
        } else {
            assert((d / 1_000_000_000 < t) == (d < t * 1_000_000_000)) by (nonlinear_arith)
                requires
                    d >= 0,
                    t > 0,
            ;
        }
    }
}

/// The health counts, read over the snapshots themselves.
pub proof fn lemma_counts_over_snapshots(m: FleetMonitor, rooms: Seq<(Seq<char>, RoomStateSnapshot)>, now: i64)
    ensures
        count_alarmed(m.health_details(rooms, now)) == snapshots_with_alarms(rooms),
        count_down(m.health_details(rooms, now)) == snapshots_down(rooms, m.tick_timeout(), now),
        count_healthy(m.health_details(rooms, now)) == snapshots_healthy(rooms, m.tick_timeout(), now),
    decreases rooms.len(),
{
    if rooms.len() > 0 {
        let prev = rooms.drop_last();
        lemma_counts_over_snapshots(m, prev, now);
        assert(m.health_details(rooms, now).drop_last() =~= m.health_details(prev, now));
        lemma_ticking_in_nanos(m, rooms.last().1, now);
    }
}

/// The stale rooms, read over the snapshots themselves.
pub proof fn lemma_stale_over_snapshots(m: FleetMonitor, rooms: Seq<(Seq<char>, RoomStateSnapshot)>, now: i64)
    ensures
        stale_ids(m, rooms, now) == stopped_ids(rooms, m.tick_timeout(), now),
    decreases rooms.len(),
{
    if rooms.len() > 0 {
        lemma_stale_over_snapshots(m, rooms.drop_last(), now);
        lemma_ticking_in_nanos(m, rooms.last().1, now);
    }
}

/// Fleet health counts every room whose snapshot reports an alarm, connected
/// or not; every room that is disconnected or whose last tick lies at least
/// the tick timeout away from the instant of the computation (or that never
/// ticked); and every connected room that ticked within the timeout and
/// reports no alarm. Each room's details carry its snapshot's values, with
/// `ticking` meaning that its last tick lies within the timeout.
pub proof fn law_health_from_snapshots(
    m: FleetMonitor,
    rooms: Seq<(Seq<char>, RoomStateSnapshot)>,
    now: i64,
    h: FleetHealth,
)
    requires
        m.is_health_of(h, rooms, now),
    ensures
        h.total_rooms == rooms.len(),
        h.last_updated == now,
        h.rooms_with_alarms == snapshots_with_alarms(rooms),
        h.rooms_down == snapshots_down(rooms, m.tick_timeout(), now),
        h.healthy_rooms == snapshots_healthy(rooms, m.tick_timeout(), now),
        h.details@.len() == rooms.len(),
        forall|i: int| 0 <= i < rooms.len() ==> {
            let d = #[trigger] h.details@[i];
            &&& d.0 == rooms[i].0
            &&& d.1.connected == rooms[i].1.connected
            &&& d.1.ticking == ticks_within(rooms[i].1, m.tick_timeout(), now)
            &&& d.1.alarm_count == rooms[i].1.alarm_count
            &&& d.1.last_tick == rooms[i].1.last_tick_time
            &&& d.1.uptime_percentage == rooms[i].1.uptime_percentage
        },
{
    lemma_counts_over_snapshots(m, rooms, now);
    assert forall|i: int| 0 <= i < rooms.len() implies {
        let d = #[trigger] h.details@[i];
        &&& d.0 == rooms[i].0
        &&& d.1.connected == rooms[i].1.connected
        &&& d.1.ticking == ticks_within(rooms[i].1, m.tick_timeout(), now)
        &&& d.1.alarm_count == rooms[i].1.alarm_count
        &&& d.1.last_tick == rooms[i].1.last_tick_time
        &&& d.1.uptime_percentage == rooms[i].1.uptime_percentage
    } by {
        lemma_ticking_in_nanos(m, rooms[i].1, now);
    }
}

/// The stale rooms at an instant are, in order, the rooms that ticked but not
/// within the tick timeout of that instant, and the connected rooms that never
/// ticked.
pub proof fn law_stale_from_snapshots(m: FleetMonitor, rooms: Seq<(Seq<char>, RoomStateSnapshot)>, now: i64)
    ensures
        stale_ids(m, rooms, now) == stopped_ids(rooms, m.tick_timeout(), now),
{
    lemma_stale_over_snapshots(m, rooms, now);
}

} // verus!
