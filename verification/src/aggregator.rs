//! Merges the tick streams of many rooms.

use vstd::prelude::*;
use vstd::string::*;
use crate::clock::now_nanos;
use crate::connection::{Tick, TickView};
use crate::keyed_map::{
    Duplicate, KeyedMap, has_key, inserted, key_index, law_lookup_after_insert, lemma_key_index, lookup,
    unique_keys,
};

verus! {

/// A cross-room correlation detected by the aggregator.
#[derive(Debug, Clone)]
pub struct CorrelationEvent {
    /// Nanoseconds since the Unix epoch.
    pub timestamp: i64,
    pub rooms: Vec<String>,
    pub description: String,
    pub severity: String,
}

/// A rule that detects a correlation across rooms.
#[derive(Debug, Clone, Copy, PartialEq, Eq, Structural)]
pub enum CorrelationRule {
    /// The engine room runs hot while the bilge water rises: fires when the
    /// engine room's latest temperature exceeds 90 and the bilge's latest
    /// water level exceeds 50.
    EngineBilgeRising,
}

impl CorrelationRule {
    /// The rule's name.
    pub fn name(&self) -> (s: &'static str)
        ensures
            s@ == "engine_bilge_rising"@,
    {
        match self {
            CorrelationRule::EngineBilgeRising => "engine_bilge_rising",
        }
    }
}

/// Whether `e` is the engine-room/bilge event raised at `timestamp`.
pub open spec fn is_engine_bilge_event(e: CorrelationEvent, timestamp: i64) -> bool {
    &&& e.timestamp == timestamp
    &&& e.rooms.deep_view() == seq!["engine-room"@, "bilge"@]
    &&& e.description@ == "Engine temperature and bilge water level both elevated"@
    &&& e.severity@ == "critical"@
}

/// The sign bit of a binary64 encoding.
pub const SIGN_BIT: u64 = 0x8000_0000_0000_0000;

/// The encoding of positive infinity; larger magnitudes encode NaNs.
pub const INFINITY_BITS: u64 = 0x7ff0_0000_0000_0000;

/// The encoding of the engine-room temperature limit, 90.0.
pub const ENGINE_TEMPERATURE_LIMIT: u64 = 0x4056_8000_0000_0000;

/// The encoding of the bilge water level limit, 50.0.
pub const BILGE_LEVEL_LIMIT: u64 = 0x4049_0000_0000_0000;

/// Whether the binary64 encoding `a` encodes a NaN.
pub open spec fn encodes_nan(a: u64) -> bool {
    a % SIGN_BIT > INFINITY_BITS
}

/// The place of the value encoded by `a` in the IEEE 754 order of binary64
/// values: its magnitude bits, negated for a negative value (so both zeros
/// sit at 0).
pub open spec fn order_key(a: u64) -> int {
    if a >= SIGN_BIT {
        -((a - SIGN_BIT) as int)
    } else {
        a as int
    }
}

/// Whether the value encoded by `a` is greater than the value encoded by `b`,
/// as binary64 comparison decides it: never when either is a NaN.
pub open spec fn encoded_gt(a: u64, b: u64) -> bool {
    !encodes_nan(a) && !encodes_nan(b) && order_key(a) > order_key(b)
}

/// Whether `r` is the first of the non-NaN readings in `vals` with the least
/// value (none when every reading is a NaN). Of equal values (the two zeros)
/// the first one counts.
pub open spec fn is_min_reading(r: Option<u64>, vals: Seq<u64>) -> bool {
    match r {
        Some(m) => exists|i: int|
            0 <= i < vals.len() && #[trigger] vals[i] == m && first_least_at(vals, i),
        None => forall|j: int| 0 <= j < vals.len() ==> encodes_nan(#[trigger] vals[j]),
    }
}

/// Whether reading `i` of `vals` is a non-NaN reading of the least value, and
/// no earlier reading has that value.
pub open spec fn first_least_at(vals: Seq<u64>, i: int) -> bool {
    &&& !encodes_nan(vals[i])
    &&& forall|j: int|
        0 <= j < vals.len() && !encodes_nan(#[trigger] vals[j]) ==> order_key(vals[i]) <= order_key(vals[j])
    &&& forall|j: int|
        0 <= j < i && !encodes_nan(#[trigger] vals[j]) ==> order_key(vals[j]) > order_key(vals[i])
}

/// Whether `r` is the first of the non-NaN readings in `vals` with the
/// greatest value (none when every reading is a NaN). Of equal values (the
/// two zeros) the first one counts.
pub open spec fn is_max_reading(r: Option<u64>, vals: Seq<u64>) -> bool {
    match r {
        Some(m) => exists|i: int|
            0 <= i < vals.len() && #[trigger] vals[i] == m && first_greatest_at(vals, i),
        None => forall|j: int| 0 <= j < vals.len() ==> encodes_nan(#[trigger] vals[j]),
    }
}

/// Whether reading `i` of `vals` is a non-NaN reading of the greatest value,
/// and no earlier reading has that value.
pub open spec fn first_greatest_at(vals: Seq<u64>, i: int) -> bool {
    &&& !encodes_nan(vals[i])
    &&& forall|j: int|
        0 <= j < vals.len() && !encodes_nan(#[trigger] vals[j]) ==> order_key(vals[i]) >= order_key(vals[j])
    &&& forall|j: int|
        0 <= j < i && !encodes_nan(#[trigger] vals[j]) ==> order_key(vals[j]) < order_key(vals[i])
}

/// Whether `a` encodes a NaN.
fn is_nan_encoding(a: u64) -> (b: bool)
    ensures
        b == encodes_nan(a),
{
    a % SIGN_BIT > INFINITY_BITS
}

/// The place of the value encoded by `a` in the binary64 order.
fn encoding_order_key(a: u64) -> (k: i128)
    ensures
        k == order_key(a),
{
    if a >= SIGN_BIT { -((a - SIGN_BIT) as i128) } else { a as i128 }
}

/// The first non-NaN reading of least value, if any.
fn min_of_readings(vals: &Vec<u64>) -> (r: Option<u64>)
    ensures
        is_min_reading(r, vals@),
{
    let n = vals.len();
    let mut best: Option<u64> = None;
    let mut best_key: i128 = 0;
    let ghost mut at: int = 0;
    let mut k: usize = 0;
    while k < n
        invariant
            n == vals@.len(),
            k <= n,
            match best {
                Some(m) => {
                    &&& 0 <= at < k
                    &&& vals@[at] == m
                    &&& best_key == order_key(m)
                    &&& !encodes_nan(m)
                    &&& forall|j: int|
                        0 <= j < k && !encodes_nan(#[trigger] vals@[j]) ==> order_key(m) <= order_key(vals@[j])
                    &&& forall|j: int|
                        0 <= j < at && !encodes_nan(#[trigger] vals@[j]) ==> order_key(vals@[j]) > order_key(m)
                },
                None => forall|j: int| 0 <= j < k ==> encodes_nan(#[trigger] vals@[j]),
            },
        decreases n - k,
    {
        let v = vals[k];
        if !is_nan_encoding(v) {
            let key = encoding_order_key(v);
            let better = match best {
                Some(_) => key < best_key,
                None => true,
            };
            if better {
                best = Some(v);
                best_key = key;
                proof {
                    at = k as int;
                }
            }
        }
        k = k + 1;
    }
    proof {
        if let Some(m) = best {
            assert(first_least_at(vals@, at));
        }
    }
    best
}

/// The first non-NaN reading of greatest value, if any.
fn max_of_readings(vals: &Vec<u64>) -> (r: Option<u64>)
    ensures
        is_max_reading(r, vals@),
{
    let n = vals.len();
    let mut best: Option<u64> = None;
    let mut best_key: i128 = 0;
    let ghost mut at: int = 0;
    let mut k: usize = 0;
    while k < n
        invariant
            n == vals@.len(),
            k <= n,
            match best {
                Some(m) => {
                    &&& 0 <= at < k
                    &&& vals@[at] == m
                    &&& best_key == order_key(m)
                    &&& !encodes_nan(m)
                    &&& forall|j: int|
                        0 <= j < k && !encodes_nan(#[trigger] vals@[j]) ==> order_key(m) >= order_key(vals@[j])
                    &&& forall|j: int|
                        0 <= j < at && !encodes_nan(#[trigger] vals@[j]) ==> order_key(vals@[j]) < order_key(m)
                },
                None => forall|j: int| 0 <= j < k ==> encodes_nan(#[trigger] vals@[j]),
            },
        decreases n - k,
    {
        let v = vals[k];
        if !is_nan_encoding(v) {
            let key = encoding_order_key(v);
            let better = match best {
                Some(_) => key > best_key,
                None => true,
            };
            if better {
                best = Some(v);
                best_key = key;
                proof {
                    at = k as int;
                }
            }
        }
        k = k + 1;
    }
    proof {
        if let Some(m) = best {
            assert(first_greatest_at(vals@, at));
        }
    }
    best
}

/// Whether the engine-room/bilge rule fires on `history`: the engine room's
/// newest temperature is above 90 and the bilge's newest water level above 50.
pub open spec fn engine_bilge_fires(history: Seq<(Seq<char>, Seq<TickView>)>) -> bool {
    match engine_bilge_pair(history) {
        Some((t, w)) => encoded_gt(t, ENGINE_TEMPERATURE_LIMIT) && encoded_gt(w, BILGE_LEVEL_LIMIT),
        None => false,
    }
}

/// Whether the value encoded by `a` is greater than the one encoded by `b`.
fn exceeds_encoded(a: u64, b: u64) -> (r: bool)
    ensures
        r == encoded_gt(a, b),
{
    if a % SIGN_BIT > INFINITY_BITS || b % SIGN_BIT > INFINITY_BITS {
        return false;
    }
    let ka: i128 = if a >= SIGN_BIT { -((a - SIGN_BIT) as i128) } else { a as i128 };
    let kb: i128 = if b >= SIGN_BIT { -((b - SIGN_BIT) as i128) } else { b as i128 };
    ka > kb
}

impl CorrelationEvent {
    /// The event raised at `timestamp` when the engine room runs hot while the
    /// bilge water rises.
    pub fn engine_bilge_rising(timestamp: i64) -> (e: Self)
        ensures
            is_engine_bilge_event(e, timestamp),
    {
        let mut rooms: Vec<String> = Vec::new();
        rooms.push("engine-room".to_owned());
        rooms.push("bilge".to_owned());
        assert(rooms.deep_view() =~= seq!["engine-room"@, "bilge"@]);
        CorrelationEvent {
            timestamp,
            rooms,
            description: "Engine temperature and bilge water level both elevated".to_owned(),
            severity: "critical".to_owned(),
        }
    }
}

/// Counts over the latest ticks of the fleet, with their readings and the
/// least and greatest of them. The readings are the binary64 encodings of the
/// sensor values, room by room; NaN readings have no place in the order and
/// are never the least or greatest.
#[derive(Debug, Clone)]
pub struct FleetStatistics {
    pub total_rooms: usize,
    pub total_sensors: usize,
    pub total_alarms: usize,
    pub sensor_values: Vec<u64>,
    pub min_reading: Option<u64>,
    pub max_reading: Option<u64>,
}

/// The ticks of all histories, room after room, each history oldest first.
pub open spec fn all_history_ticks(h: Seq<(Seq<char>, Seq<TickView>)>) -> Seq<TickView>
    decreases h.len(),
{
    if h.len() == 0 {
        Seq::empty()
    } else {
        all_history_ticks(h.drop_last()) + h.last().1
    }
}

/// The ticks of all groups, group after group.
pub open spec fn concat_groups(g: Seq<Seq<TickView>>) -> Seq<TickView>
    decreases g.len(),
{
    if g.len() == 0 {
        Seq::empty()
    } else {
        concat_groups(g.drop_last()) + g.last()
    }
}

/// Whether `k` is where a tick stamped `ts` goes into `s`: after every tick
/// stamped no later than `ts`, before the first one stamped later.
pub open spec fn is_insert_point(s: Seq<TickView>, ts: i64, k: int) -> bool {
    &&& 0 <= k <= s.len()
    &&& forall|i: int| 0 <= i < k ==> (#[trigger] s[i]).timestamp <= ts
    &&& k < s.len() ==> s[k].timestamp > ts
}

/// Where a tick stamped `ts` goes into `s`.
pub open spec fn insert_point(s: Seq<TickView>, ts: i64) -> int {
    choose|k: int| is_insert_point(s, ts, k)
}

/// The ticks of `s` ordered by timestamp; ticks with equal timestamps keep
/// their order in `s`.
pub open spec fn sort_by_time(s: Seq<TickView>) -> Seq<TickView>
    decreases s.len(),
{
    if s.len() == 0 {
        Seq::empty()
    } else {
        let sorted = sort_by_time(s.drop_last());
        sorted.insert(insert_point(sorted, s.last().timestamp), s.last())
    }
}

/// Whether `s` is ordered by timestamp.
pub open spec fn is_time_ordered(s: Seq<TickView>) -> bool {
    forall|i: int, j: int| 0 <= i <= j < s.len() ==> (#[trigger] s[i]).timestamp <= (#[trigger] s[j]).timestamp
}

/// The distance between two ticks in whole milliseconds, as chrono's
/// `(a - b).num_milliseconds().abs()` counts it (truncated toward zero).
pub open spec fn time_gap(a: TickView, b: TickView) -> int {
    let d = a.timestamp - b.timestamp;
    (if d < 0 { -d } else { d }) / 1_000_000
}

/// The ticks of `s`, in order, cut into groups: a tick joins the current
/// group when it lies within `tolerance` milliseconds of the group's first
/// tick, and opens a new group otherwise.
pub open spec fn group_by_window(s: Seq<TickView>, tolerance: int) -> Seq<Seq<TickView>>
    decreases s.len(),
{
    if s.len() == 0 {
        Seq::empty()
    } else {
        let g = group_by_window(s.drop_last(), tolerance);
        let t = s.last();
        if g.len() == 0 {
            seq![seq![t]]
        } else if time_gap(t, g.last()[0]) <= tolerance {
            g.update(g.len() - 1, g.last().push(t))
        } else {
            g.push(seq![t])
        }
    }
}

/// A room's history after the tick `t` arrives: `t` is appended to the room's
/// history (an empty one for a room not seen before), and the oldest tick goes
/// when the history then holds more than `max` ticks.
pub open spec fn next_history(old: Option<Seq<TickView>>, t: TickView, max: usize) -> Seq<TickView> {
    let h2 = match old {
        Some(h) => h.push(t),
        None => seq![t],
    };
    if h2.len() > max {
        h2.drop_first()
    } else {
        h2
    }
}

/// The latest ticks and the histories have the same rooms in the same order,
/// no room occurs twice, and each room's latest tick is the newest tick of its
/// history whenever that history holds a tick.
pub open spec fn latest_matches_history(
    latest: Seq<(Seq<char>, TickView)>,
    history: Seq<(Seq<char>, Seq<TickView>)>,
) -> bool {
    &&& latest.len() == history.len()
    &&& unique_keys(latest)
    &&& unique_keys(history)
    &&& forall|i: int| 0 <= i < latest.len() ==> {
        &&& (#[trigger] latest[i]).0 == history[i].0
        &&& history[i].1.len() > 0 ==> latest[i].1 == history[i].1.last()
    }
}

/// Whether `events` are what the correlation rules `rules` raise at `now` on
/// `history`: one event per rule that fires, in the rules' order.
pub open spec fn correlations_at(
    events: Seq<CorrelationEvent>,
    rules: Seq<CorrelationRule>,
    history: Seq<(Seq<char>, Seq<TickView>)>,
    now: i64,
) -> bool {
    &&& events.len() == if engine_bilge_fires(history) { rules.len() } else { 0 }
    &&& forall|k: int| 0 <= k < events.len() ==> is_engine_bilge_event(#[trigger] events[k], now)
}

/// The newest reading of `sensor` in the history of `room`, if any.
pub open spec fn latest_reading(
    history: Seq<(Seq<char>, Seq<TickView>)>,
    room: Seq<char>,
    sensor: Seq<char>,
) -> Option<u64> {
    match lookup(history, room) {
        Some(ticks) => if ticks.len() > 0 {
            lookup(ticks.last().sensors, sensor)
        } else {
            None
        },
        None => None,
    }
}

/// The engine room's newest temperature and the bilge's newest water level,
/// when both are known.
pub open spec fn engine_bilge_pair(history: Seq<(Seq<char>, Seq<TickView>)>) -> Option<(u64, u64)> {
    match (
        latest_reading(history, "engine-room"@, "temperature"@),
        latest_reading(history, "bilge"@, "water_level"@),
    ) {
        (Some(t), Some(w)) => Some((t, w)),
        _ => None,
    }
}

/// All readings of the ticks in `s`, tick after tick.
pub open spec fn readings_of(s: Seq<(Seq<char>, TickView)>) -> Seq<u64>
    decreases s.len(),
{
    if s.len() == 0 {
        Seq::empty()
    } else {
        readings_of(s.drop_last()) + s.last().1.sensors.map_values(|e: (Seq<char>, u64)| e.1)
    }
}

/// The number of alarms of the ticks in `s`.
pub open spec fn alarm_total(s: Seq<(Seq<char>, TickView)>) -> nat
    decreases s.len(),
{
    if s.len() == 0 {
        0
    } else {
        alarm_total(s.drop_last()) + s.last().1.alarms.len()
    }
}

/// Aggregates tick streams from multiple rooms.
pub struct TickAggregator {
    /// Latest tick from each room.
    latest_ticks: KeyedMap<Tick>,
    /// The last `max_history` ticks of each room, oldest first.
    history: KeyedMap<Vec<Tick>>,
    max_history: usize,
    /// Active correlation rules.
    correlation_rules: Vec<CorrelationRule>,
}

impl TickAggregator {
    #[verifier::type_invariant]
    spec fn inv(&self) -> bool {
        latest_matches_history(self.latest_ticks@, self.history@)
    }

    /// The latest tick of each room.
    pub closed spec fn latest_view(&self) -> Seq<(Seq<char>, TickView)> {
        self.latest_ticks@
    }

    /// The history of each room, oldest tick first.
    pub closed spec fn history_view(&self) -> Seq<(Seq<char>, Seq<TickView>)> {
        self.history@
    }

    /// The most ticks a history keeps.
    pub closed spec fn max_history_view(&self) -> usize {
        self.max_history
    }

    /// The active correlation rules.
    pub closed spec fn rules_view(&self) -> Seq<CorrelationRule> {
        self.correlation_rules@
    }

    /// An empty aggregator keeping 100 ticks per room and no rules.
    pub fn new() -> (a: Self)
        ensures
            a.latest_view().len() == 0,
            a.history_view().len() == 0,
            a.max_history_view() == 100,
            a.rules_view().len() == 0,
            latest_matches_history(a.latest_view(), a.history_view()),
    {
        TickAggregator {
            latest_ticks: KeyedMap::new(),
            history: KeyedMap::new(),
            max_history: 100,
            correlation_rules: Vec::new(),
        }
    }

    /// The same aggregator keeping at most `n` ticks per room from now on.
    pub fn with_max_history(self, n: usize) -> (a: Self)
        ensures
            a.latest_view() == self.latest_view(),
            a.history_view() == self.history_view(),
            a.max_history_view() == n,
            a.rules_view() == self.rules_view(),
            latest_matches_history(a.latest_view(), a.history_view()),
    {
        proof {
            use_type_invariant(&self);
        }
        TickAggregator { max_history: n, ..self }
    }

    /// Takes in a tick: it becomes its room's latest tick and the newest tick
    /// of its room's history.
    pub fn ingest(&mut self, tick: Tick)
        ensures
            final(self).latest_view() == inserted(old(self).latest_view(), tick@.room_id, tick@),
            final(self).history_view() == inserted(
                old(self).history_view(),
                tick@.room_id,
                next_history(lookup(old(self).history_view(), tick@.room_id), tick@, old(self).max_history_view()),
            ),
            final(self).max_history_view() == old(self).max_history_view(),
            final(self).rules_view() == old(self).rules_view(),
            latest_matches_history(old(self).latest_view(), old(self).history_view()),
            latest_matches_history(final(self).latest_view(), final(self).history_view()),
    {
        proof {
            use_type_invariant(&*self);
            use_type_invariant(&self.latest_ticks);
            use_type_invariant(&self.history);
        }
        let ghost old_latest = self.latest_ticks@;
        let ghost old_history = self.history@;
        let ghost t = tick@;
        let room_id = tick.room_id.clone();
        let copy = tick.duplicate();
        let pos = self.history.position(room_id.as_str());
        proof {
            match pos {
                Some(i) => {
                    assert(old_latest[i as int].0 == room_id@);
                    lemma_key_index(old_latest, i as int);
                },
                None => {
                    if has_key(old_latest, room_id@) {
                        let j = choose|j: int| 0 <= j < old_latest.len() && #[trigger] old_latest[j].0 == room_id@;
                        assert(old_history[j].0 == room_id@);
                    }
                },
            }
        }
        let mut me = TickAggregator::new();
        std::mem::swap(&mut me, self);
        let TickAggregator {
            latest_ticks: mut latest,
            history: mut history,
            max_history,
            correlation_rules,
        } = me;
        latest.insert(room_id.clone(), copy);
        match pos {
            Some(i) => {
                let (k, mut h) = history.take_at(i);
                h.push(tick);
                if h.len() > max_history {
                    h.remove(0);
                }
                proof {
                    let h_old = old_history[i as int].1;
                    assert(h.deep_view() =~= next_history(Some(h_old), t, max_history));
                }
                history.put_at(i, k, h);
                proof {
                    assert(history@ =~= old_history.update(i as int, (room_id@, next_history(Some(old_history[i as int].1), t, max_history))));
                }
            },
            None => {
                let mut h: Vec<Tick> = Vec::new();
                h.push(tick);
                if h.len() > max_history {
                    h.remove(0);
                }
                proof {
                    assert(h.deep_view() =~= next_history(None, t, max_history));
                }
                history.push_new(room_id, h);
            },
        }
        proof {
            use_type_invariant(&latest);
            use_type_invariant(&history);
            let nl = latest@;
            let nh = history@;
            assert forall|i: int| 0 <= i < nl.len() implies {
                &&& (#[trigger] nl[i]).0 == nh[i].0
                &&& nh[i].1.len() > 0 ==> nl[i].1 == nh[i].1.last()
            } by {
                match pos {
                    Some(p) => {
                        if i != p {
                            assert(nl[i] == old_latest[i]);
                            assert(nh[i] == old_history[i]);
                        }
                    },
                    None => {
                        if i < old_latest.len() {
                            assert(nl[i] == old_latest[i]);
                            assert(nh[i] == old_history[i]);
                        }
                    },
                }
            }
        }
        *self = TickAggregator { latest_ticks: latest, history, max_history, correlation_rules };
    }

    /// All ticks of all histories, ordered by timestamp and cut into groups
    /// of ticks that lie within `tolerance_ms` of their group's first tick.
    pub fn merge_aligned(&self, tolerance_ms: i64) -> (groups: Vec<Vec<Tick>>)
        ensures
            groups.deep_view() == group_by_window(
                sort_by_time(all_history_ticks(self.history_view())),
                tolerance_ms as int,
            ),
            concat_groups(groups.deep_view()).len() == total_history_len(self.history_view()),
            forall|i: int, j: int|
                0 <= i < self.history_view().len() && 0 <= j < self.history_view()[i].1.len()
                    ==> concat_groups(groups.deep_view()).contains(#[trigger] self.history_view()[i].1[j]),
    {
        let all = self.collect_history();
        let sorted = sort_ticks_by_time(&all);
        let groups = group_ticks(&sorted, tolerance_ms);
        proof {
            law_merge_keeps_every_tick(self.history_view(), tolerance_ms as int);
        }
        groups
    }

    /// Copies of all ticks of all histories, room after room.
    fn collect_history(&self) -> (all: Vec<Tick>)
        ensures
            all.deep_view() == all_history_ticks(self.history_view()),
    {
        let n = self.history.len();
        let mut all: Vec<Tick> = Vec::new();
        let mut i: usize = 0;
        while i < n
            invariant
                n == self.history@.len(),
                i <= n,
                all.deep_view() == all_history_ticks(self.history@.take(i as int)),
            decreases n - i,
        {
            let h = self.history.value_at(i);
            let ghost before = all.deep_view();
            let mut j: usize = 0;
            while j < h.len()
                invariant
                    i < n,
                    n == self.history@.len(),
                    h.deep_view() == self.history@[i as int].1,
                    j <= h@.len(),
                    all.deep_view() == before + h.deep_view().take(j as int),
                decreases h@.len() - j,
            {
                let ghost prev = all.deep_view();
                let t = h[j].duplicate();
                let ghost tv = t@;
                all.push(t);
                proof {
                    assert(h.deep_view()[j as int] == h@[j as int]@);
                    assert(all.deep_view() =~= prev.push(tv));
                    assert(h.deep_view().take(j + 1) =~= h.deep_view().take(j as int).push(tv));
                    assert(all.deep_view() =~= before + h.deep_view().take(j + 1));
                }
                j = j + 1;
            }
            proof {
                assert(h.deep_view().take(h@.len() as int) =~= h.deep_view());
                assert(self.history@.take(i + 1).drop_last() =~= self.history@.take(i as int));
            }
            i = i + 1;
        }
        proof {
            assert(self.history@.take(n as int) =~= self.history@);
        }
        all
    }

    /// Registers the engine-room/bilge correlation rule.
    pub fn add_engine_bilge_correlation(&mut self)
        ensures
            final(self).rules_view() == old(self).rules_view().push(CorrelationRule::EngineBilgeRising),
            final(self).latest_view() == old(self).latest_view(),
            final(self).history_view() == old(self).history_view(),
            final(self).max_history_view() == old(self).max_history_view(),
            latest_matches_history(final(self).latest_view(), final(self).history_view()),
    {
        let mut me = TickAggregator::new();
        std::mem::swap(&mut me, self);
        proof {
            use_type_invariant(&me);
        }
        let TickAggregator { latest_ticks, history, max_history, mut correlation_rules } = me;
        correlation_rules.push(CorrelationRule::EngineBilgeRising);
        *self = TickAggregator { latest_ticks, history, max_history, correlation_rules };
    }

    /// The active correlation rules, in the order they were added.
    pub fn correlation_rules(&self) -> (r: &Vec<CorrelationRule>)
        ensures
            r@ == self.rules_view(),
    {
        &self.correlation_rules
    }

    /// The engine room's newest temperature reading and the bilge's newest
    /// water level reading, when both rooms have ticked with them.
    pub fn engine_bilge_readings(&self) -> (r: Option<(u64, u64)>)
        ensures
            r == engine_bilge_pair(self.history_view()),
    {
        let temp = latest_reading_of(&self.history, "engine-room", "temperature");
        let level = latest_reading_of(&self.history, "bilge", "water_level");
        match (temp, level) {
            (Some(t), Some(w)) => Some((t, w)),
            _ => None,
        }
    }

    /// Runs the correlation rules, in order, on the newest readings; each rule
    /// that fires gives its event, stamped with the current time.
    pub fn detect_correlations(&self) -> (events: Vec<CorrelationEvent>)
        ensures
            exists|now: i64| #[trigger] correlations_at(events@, self.rules_view(), self.history_view(), now),
    {
        let now = now_nanos();
        let events = self.detect_correlations_at(now);
        assert(correlations_at(events@, self.rules_view(), self.history_view(), now));
        events
    }

    /// What `detect_correlations` gives when it runs at `now`.
    pub fn detect_correlations_at(&self, now: i64) -> (events: Vec<CorrelationEvent>)
        ensures
            correlations_at(events@, self.rules_view(), self.history_view(), now),
    {
        let fires = match self.engine_bilge_readings() {
            Some((t, w)) => exceeds_encoded(t, ENGINE_TEMPERATURE_LIMIT) && exceeds_encoded(w, BILGE_LEVEL_LIMIT),
            None => false,
        };
        let mut events: Vec<CorrelationEvent> = Vec::new();
        let n = self.correlation_rules.len();
        let mut i: usize = 0;
        while i < n
            invariant
                n == self.rules_view().len(),
                i <= n,
                fires == engine_bilge_fires(self.history_view()),
                events@.len() == if fires { i as int } else { 0 },
                forall|k: int| 0 <= k < events@.len() ==> is_engine_bilge_event(#[trigger] events@[k], now),
            decreases n - i,
        {
            match self.correlation_rules[i] {
                CorrelationRule::EngineBilgeRising => {
                    if fires {
                        events.push(CorrelationEvent::engine_bilge_rising(now));
                    }
                },
            }
            i = i + 1;
        }
        events
    }

    /// The latest tick of each room.
    pub fn latest(&self) -> (r: KeyedMap<Tick>)
        ensures
            r@ == self.latest_view(),
            latest_matches_history(self.latest_view(), self.history_view()),
    {
        proof {
            use_type_invariant(self);
        }
        self.latest_ticks.duplicate_map()
    }

    /// Fleet-wide counts over the latest ticks, with all their readings and
    /// the least and greatest reading.
    pub fn statistics(&self) -> (s: FleetStatistics)
        requires
            alarm_total(self.latest_view()) <= usize::MAX,
        ensures
            s.total_rooms == self.latest_view().len(),
            s.total_sensors == s.sensor_values@.len(),
            s.sensor_values@ == readings_of(self.latest_view()),
            s.total_alarms == alarm_total(self.latest_view()),
            is_min_reading(s.min_reading, readings_of(self.latest_view())),
            is_max_reading(s.max_reading, readings_of(self.latest_view())),
    {
        let n = self.latest_ticks.len();
        let mut values: Vec<u64> = Vec::new();
        let mut total_alarms: usize = 0;
        let mut i: usize = 0;
        while i < n
            invariant
                n == self.latest_ticks@.len(),
                i <= n,
                alarm_total(self.latest_ticks@) <= usize::MAX,
                values@ == readings_of(self.latest_ticks@.take(i as int)),
                total_alarms == alarm_total(self.latest_ticks@.take(i as int)),
            decreases n - i,
        {
            let tick = self.latest_ticks.value_at(i);
            let ghost before = values@;
            let m = tick.sensors.len();
            let mut j: usize = 0;
            while j < m
                invariant
                    i < n,
                    n == self.latest_ticks@.len(),
                    tick@ == self.latest_ticks@[i as int].1,
                    m == tick@.sensors.len(),
                    j <= m,
                    values@ == before + tick@.sensors.take(j as int).map_values(|e: (Seq<char>, u64)| e.1),
                decreases m - j,
            {
                values.push(*tick.sensors.value_at(j));
                proof {
                    assert(values@ =~= before + tick@.sensors.take(j + 1).map_values(|e: (Seq<char>, u64)| e.1));
                }
                j = j + 1;
            }
            proof {
                assert(tick@.sensors.take(m as int) =~= tick@.sensors);
                assert(self.latest_ticks@.take(i + 1).drop_last() =~= self.latest_ticks@.take(i as int));
                lemma_alarm_total_prefix(self.latest_ticks@, i + 1);
            }
            total_alarms = total_alarms + tick.alarms.len();
            i = i + 1;
        }
        proof {
            assert(self.latest_ticks@.take(n as int) =~= self.latest_ticks@);
        }
        let min_reading = min_of_readings(&values);
        let max_reading = max_of_readings(&values);
        FleetStatistics {
            total_rooms: n,
            total_sensors: values.len(),
            total_alarms,
            sensor_values: values,
            min_reading,
            max_reading,
        }
    }
}

/// The alarm total of a prefix is at most the total.
pub proof fn lemma_alarm_total_prefix(s: Seq<(Seq<char>, TickView)>, k: int)
    requires
        0 <= k <= s.len(),
    ensures
        alarm_total(s.take(k)) <= alarm_total(s),
    decreases s.len() - k,
{
    if k < s.len() {
        lemma_alarm_total_prefix(s, k + 1);
        assert(s.take(k + 1).drop_last() =~= s.take(k));
        assert(alarm_total(s.take(k + 1)) == alarm_total(s.take(k + 1).drop_last())
            + s.take(k + 1).last().1.alarms.len());
    } else {
        assert(s.take(k) =~= s);
    }
}

/// The newest reading of `sensor` in the history of `room`, if any.
fn latest_reading_of(history: &KeyedMap<Vec<Tick>>, room: &str, sensor: &str) -> (r: Option<u64>)
    ensures
        r == latest_reading(history@, room@, sensor@),
{
    match history.get(room) {
        Some(ticks) => {
            if ticks.len() > 0 {
                match ticks[ticks.len() - 1].sensors.get(sensor) {
                    Some(v) => Some(*v),
                    None => None,
                }
            } else {
                None
            }
        },
        None => None,
    }
}

/// Where a tick stamped `ts` goes into the time-ordered ticks `sorted`.
fn find_insert_point(sorted: &Vec<Tick>, ts: i64) -> (k: usize)
    ensures
        is_insert_point(sorted.deep_view(), ts, k as int),
        k as int == insert_point(sorted.deep_view(), ts),
{
    let n = sorted.len();
    let mut k: usize = 0;
    while k < n && sorted[k].timestamp <= ts
        invariant
            n == sorted@.len(),
            k <= n,
            forall|i: int| 0 <= i < k ==> (#[trigger] sorted.deep_view()[i]).timestamp <= ts,
        decreases n - k,
    {
        k = k + 1;
    }
    proof {
        lemma_insert_point_unique(sorted.deep_view(), ts, k as int);
    }
    k
}

/// There is one insertion point, and `insert_point` is it.
pub proof fn lemma_insert_point_unique(s: Seq<TickView>, ts: i64, k: int)
    requires
        is_insert_point(s, ts, k),
    ensures
        insert_point(s, ts) == k,
{
    let c = insert_point(s, ts);
    assert(is_insert_point(s, ts, c));
    if c < k {
        assert(s[c].timestamp <= ts);
    } else if c > k {
        assert(s[k].timestamp <= ts);
    }
}

/// Copies of `ticks` ordered by timestamp, ties kept in their order.
fn sort_ticks_by_time(ticks: &Vec<Tick>) -> (sorted: Vec<Tick>)
    ensures
        sorted.deep_view() == sort_by_time(ticks.deep_view()),
{
    let n = ticks.len();
    let mut sorted: Vec<Tick> = Vec::new();
    let mut i: usize = 0;
    while i < n
        invariant
            n == ticks@.len(),
            i <= n,
            sorted.deep_view() == sort_by_time(ticks.deep_view().take(i as int)),
        decreases n - i,
    {
        let t = ticks[i].duplicate();
        let k = find_insert_point(&sorted, t.timestamp);
        let ghost before = sorted.deep_view();
        let ghost tv = t@;
        sorted.insert(k, t);
        proof {
            assert(sorted.deep_view() =~= before.insert(k as int, tv));
            assert(ticks.deep_view().take(i + 1).drop_last() =~= ticks.deep_view().take(i as int));
            assert(ticks.deep_view().take(i + 1).last() == tv);
        }
        i = i + 1;
    }
    proof {
        assert(ticks.deep_view().take(n as int) =~= ticks.deep_view());
    }
    sorted
}

/// The distance in whole milliseconds between two timestamps given in
/// nanoseconds.
fn gap_ms(a: i64, b: i64) -> (d: i128)
    ensures
        d == (if a - b < 0 { b - a } else { a - b }) / 1_000_000,
{
    let d: i128 = a as i128 - b as i128;
    let m: i128 = if d < 0 { -d } else { d };
    m / 1_000_000
}

/// Copies of `sorted` cut into groups of ticks within `tolerance_ms` of their
/// group's first tick.
fn group_ticks(sorted: &Vec<Tick>, tolerance_ms: i64) -> (groups: Vec<Vec<Tick>>)
    ensures
        groups.deep_view() == group_by_window(sorted.deep_view(), tolerance_ms as int),
{
    let n = sorted.len();
    let ghost s = sorted.deep_view();
    let mut groups: Vec<Vec<Tick>> = Vec::new();
    let mut current: Vec<Tick> = Vec::new();
    let mut i: usize = 0;
    while i < n
        invariant
            n == s.len(),
            s == sorted.deep_view(),
            i <= n,
            i == 0 ==> groups@.len() == 0 && current@.len() == 0,
            i > 0 ==> current@.len() > 0 && group_by_window(s.take(i as int), tolerance_ms as int)
                == groups.deep_view().push(current.deep_view()),
        decreases n - i,
    {
        let tick = sorted[i].duplicate();
        let ghost tv = tick@;
        let ghost g0 = groups.deep_view();
        let ghost c0 = current.deep_view();
        let ghost tol = tolerance_ms as int;
        let ghost gi = group_by_window(s.take(i as int), tol);
        proof {
            assert(s.take(i + 1).drop_last() =~= s.take(i as int));
            assert(s.take(i + 1).last() == tv);
            assert(group_by_window(s.take(i + 1), tol) == if gi.len() == 0 {
                seq![seq![tv]]
            } else if time_gap(tv, gi.last()[0]) <= tol {
                gi.update(gi.len() - 1, gi.last().push(tv))
            } else {
                gi.push(seq![tv])
            });
        }
        if current.len() == 0 {
            current.push(tick);
            proof {
                assert(s.take(0int).len() == 0);
                assert(gi.len() == 0);
                assert(current.deep_view() =~= seq![tv]);
                assert(groups.deep_view().push(current.deep_view()) =~= seq![seq![tv]]);
            }
        } else {
            let diff = gap_ms(tick.timestamp, current[0].timestamp);
            proof {
                let g = g0.push(c0);
                assert(g.last() == c0);
                assert(c0[0] == current@[0]@);
                assert(diff == time_gap(tv, g.last()[0]));
            }
            if diff <= tolerance_ms as i128 {
                current.push(tick);
                proof {
                    assert(current.deep_view() =~= c0.push(tv));
                    assert(g0.push(c0).update(g0.len() as int, c0.push(tv)) =~= g0.push(c0.push(tv)));
                }
            } else {
                groups.push(current);
                current = Vec::new();
                current.push(tick);
                proof {
                    assert(groups.deep_view() =~= g0.push(c0));
                    assert(current.deep_view() =~= seq![tv]);
                }
            }
        }
        i = i + 1;
    }
    proof {
        assert(s.take(n as int) =~= s);
    }
    if current.len() > 0 {
        let ghost g0 = groups.deep_view();
        let ghost c0 = current.deep_view();
        groups.push(current);
        proof {
            assert(groups.deep_view() =~= g0.push(c0));
        }
    }
    groups
}

/// Every sequence of ticks has an insertion point for any timestamp.
pub proof fn lemma_insert_point_exists(s: Seq<TickView>, ts: i64)
    ensures
        is_insert_point(s, ts, insert_point(s, ts)),
    decreases s.len(),
{
    if s.len() == 0 {
        assert(is_insert_point(s, ts, 0));
    } else if s[0].timestamp > ts {
        assert(is_insert_point(s, ts, 0));
    } else {
        let rest = s.drop_first();
        lemma_insert_point_exists(rest, ts);
        let k = insert_point(rest, ts);
        assert forall|i: int| 0 <= i < k + 1 implies (#[trigger] s[i]).timestamp <= ts by {
            if i > 0 {
                assert(s[i] == rest[i - 1]);
            }
        }
        if k + 1 < s.len() {
            assert(s[k + 1] == rest[k]);
        }
        assert(is_insert_point(s, ts, k + 1));
    }
}

/// Sorting keeps the ticks: the result holds each tick as often as `s` does.
#[verifier::spinoff_prover]
pub proof fn lemma_sort_permutes(s: Seq<TickView>)
    ensures
        sort_by_time(s).to_multiset() =~= s.to_multiset(),
        sort_by_time(s).len() == s.len(),
    decreases s.len(),
{
    broadcast use vstd::seq_lib::group_to_multiset_ensures;

    if s.len() > 0 {
        let prev = sort_by_time(s.drop_last());
        lemma_sort_permutes(s.drop_last());
        lemma_insert_point_exists(prev, s.last().timestamp);
        let k = insert_point(prev, s.last().timestamp);
        let x = s.last();
        let ins = prev.insert(k, x);
        assert(ins.remove(k) =~= prev);
        assert(ins[k] == x);
        assert(ins.remove(k).to_multiset() =~= ins.to_multiset().remove(x));
        assert(s.drop_last().push(x) =~= s);
        assert(s.to_multiset() =~= s.drop_last().to_multiset().insert(x));
        assert(ins.to_multiset().count(x) > 0) by {
            assert(ins.contains(x));
        }
        assert(ins.to_multiset() =~= ins.to_multiset().remove(x).insert(x));
    }
}

/// Sorting orders the ticks by timestamp.
#[verifier::spinoff_prover]
pub proof fn lemma_sort_ordered(s: Seq<TickView>)
    ensures
        is_time_ordered(sort_by_time(s)),
    decreases s.len(),
{
    if s.len() > 0 {
        let prev = sort_by_time(s.drop_last());
        lemma_sort_ordered(s.drop_last());
        let x = s.last();
        lemma_insert_point_exists(prev, x.timestamp);
        let k = insert_point(prev, x.timestamp);
        let ins = prev.insert(k, x);
        assert forall|i: int, j: int| 0 <= i <= j < ins.len() implies (#[trigger] ins[i]).timestamp
            <= (#[trigger] ins[j]).timestamp by {
            if j < k {
                assert(ins[i] == prev[i] && ins[j] == prev[j]);
            } else if j == k {
                if i < k {
                    assert(ins[i] == prev[i]);
                }
            } else {
                assert(ins[j] == prev[j - 1]);
                assert(prev[k].timestamp > x.timestamp);
                assert(prev[k].timestamp <= prev[j - 1].timestamp);
                if i < k {
                    assert(ins[i] == prev[i]);
                } else if i > k {
                    assert(ins[i] == prev[i - 1]);
                }
            }
        }
    }
}

/// Grouping keeps the ticks in order, and every group is non-empty, its later
/// ticks lie within the tolerance of its first tick, and it starts beyond the
/// tolerance from the previous group's first tick.
#[verifier::spinoff_prover]
pub proof fn lemma_group_properties(s: Seq<TickView>, tolerance: int)
    ensures
        concat_groups(group_by_window(s, tolerance)) == s,
        forall|i: int| 0 <= i < group_by_window(s, tolerance).len()
            ==> (#[trigger] group_by_window(s, tolerance)[i]).len() > 0,
        forall|i: int, j: int| 0 <= i < group_by_window(s, tolerance).len()
            && 0 < j < group_by_window(s, tolerance)[i].len()
            ==> time_gap(#[trigger] group_by_window(s, tolerance)[i][j], group_by_window(s, tolerance)[i][0])
                <= tolerance,
        forall|i: int| 0 < i < group_by_window(s, tolerance).len()
            ==> time_gap((#[trigger] group_by_window(s, tolerance)[i])[0], group_by_window(s, tolerance)[i - 1][0])
                > tolerance,
    decreases s.len(),
{
    if s.len() > 0 {
        let g = group_by_window(s.drop_last(), tolerance);
        lemma_group_properties(s.drop_last(), tolerance);
        let t = s.last();
        let g2 = group_by_window(s, tolerance);
        assert(s.drop_last().push(t) =~= s);
        if g.len() == 0 {
            assert(concat_groups(g) == s.drop_last());
            assert(s.drop_last().len() == 0);
            assert(g2 == seq![seq![t]]);
            assert(g2.drop_last() =~= Seq::<Seq<TickView>>::empty());
            assert(concat_groups(g2) =~= s);
        } else if time_gap(t, g.last()[0]) <= tolerance {
            assert(g2.drop_last() =~= g.drop_last());
            assert(g2.last() == g.last().push(t));
            assert(concat_groups(g) == concat_groups(g.drop_last()) + g.last());
            assert(concat_groups(g2) =~= s);
            assert forall|i: int, j: int| 0 <= i < g2.len() && 0 <= j < g2[i].len()
                && 0 < j implies time_gap(#[trigger] g2[i][j], g2[i][0]) <= tolerance by {
                if i < g.len() - 1 {
                    assert(g2[i] == g[i]);
                } else if j < g.last().len() {
                    assert(g2[i][j] == g[i][j]);
                }
            }
            assert forall|i: int| 0 < i < g2.len() implies time_gap((#[trigger] g2[i])[0], g2[i - 1][0])
                > tolerance by {
                assert(g2[i][0] == g[i][0]);
                assert(g2[i - 1][0] == g[i - 1][0]);
            }
        } else {
            assert(g2.drop_last() =~= g);
            assert(concat_groups(g2) =~= s);
            assert forall|i: int, j: int| 0 <= i < g2.len() && 0 <= j < g2[i].len()
                && 0 < j implies time_gap(#[trigger] g2[i][j], g2[i][0]) <= tolerance by {
                if i < g.len() {
                    assert(g2[i] == g[i]);
                }
            }
            assert forall|i: int| 0 < i < g2.len() implies time_gap((#[trigger] g2[i])[0], g2[i - 1][0])
                > tolerance by {
                if i < g.len() {
                    assert(g2[i] == g[i]);
                }
                assert(g2[i - 1] == g[i - 1]);
            }
        }
    }
}

/// Merging aligned ticks puts every tick of every history into exactly one
/// group, all groups in time order; a group holds the ticks within the
/// tolerance of its first tick, and each next group starts beyond the
/// tolerance from the first tick of the group before it.
pub proof fn law_merge_partitions_ticks(history: Seq<(Seq<char>, Seq<TickView>)>, tolerance: int)
    ensures
        ({
            let all = all_history_ticks(history);
            let g = group_by_window(sort_by_time(all), tolerance);
            &&& concat_groups(g).to_multiset() == all.to_multiset()
            &&& is_time_ordered(concat_groups(g))
            &&& forall|i: int| 0 <= i < g.len() ==> (#[trigger] g[i]).len() > 0
            &&& forall|i: int, j: int| 0 <= i < g.len() && 0 < j < g[i].len()
                ==> time_gap(#[trigger] g[i][j], g[i][0]) <= tolerance
            &&& forall|i: int| 0 < i < g.len() ==> time_gap((#[trigger] g[i])[0], g[i - 1][0]) > tolerance
        }),
{
    let all = all_history_ticks(history);
    lemma_sort_permutes(all);
    lemma_sort_ordered(all);
    lemma_group_properties(sort_by_time(all), tolerance);
}

/// Whether a tick is stamped `ts`.
pub open spec fn stamped(ts: i64) -> spec_fn(TickView) -> bool {
    |t: TickView| t.timestamp == ts
}

/// Ticks none of which is stamped `ts` keep none when filtered for `ts`.
pub proof fn lemma_none_stamped(b: Seq<TickView>, ts: i64)
    requires
        forall|j: int| 0 <= j < b.len() ==> (#[trigger] b[j]).timestamp != ts,
    ensures
        b.filter(stamped(ts)) == Seq::<TickView>::empty(),
    decreases b.len(),
{
    reveal(Seq::filter);
    if b.len() > 0 {
        lemma_none_stamped(b.drop_last(), ts);
    }
}

/// Putting a tick into time-ordered ticks at its insertion point puts it
/// after every tick with its own timestamp.
#[verifier::spinoff_prover]
pub proof fn lemma_insert_keeps_stamped_order(a: Seq<TickView>, x: TickView, ts: i64)
    requires
        is_time_ordered(a),
    ensures
        a.insert(insert_point(a, x.timestamp), x).filter(stamped(ts)) == if x.timestamp == ts {
            a.filter(stamped(ts)).push(x)
        } else {
            a.filter(stamped(ts))
        },
{
    let k = insert_point(a, x.timestamp);
    lemma_insert_point_exists(a, x.timestamp);
    let p = stamped(ts);
    let left = a.take(k);
    let right = a.skip(k);
    assert(a.insert(k, x) =~= left + seq![x] + right);
    assert(a =~= left + right);
    Seq::filter_distributes_over_add(left + seq![x], right, p);
    Seq::filter_distributes_over_add(left, seq![x], p);
    Seq::filter_distributes_over_add(left, right, p);
    reveal_with_fuel(Seq::filter, 2);
    assert(seq![x].drop_last() =~= Seq::<TickView>::empty());
    if x.timestamp == ts {
        assert forall|j: int| 0 <= j < right.len() implies (#[trigger] right[j]).timestamp != ts by {
            assert(right[j] == a[k + j]);
            assert(a[k].timestamp > x.timestamp);
            assert(a[k].timestamp <= a[k + j].timestamp);
        }
        lemma_none_stamped(right, ts);
        assert(left.filter(p) + right.filter(p) =~= left.filter(p));
        assert(left.filter(p) + seq![x] =~= left.filter(p).push(x));
    } else {
        assert(seq![x].filter(p) =~= Seq::<TickView>::empty());
        assert(left.filter(p) + Seq::<TickView>::empty() =~= left.filter(p));
    }
}

/// Ordering ticks by time is stable: the ticks stamped with any one timestamp
/// come out in the order in which they went in.
#[verifier::spinoff_prover]
pub proof fn law_sort_is_stable(s: Seq<TickView>, ts: i64)
    ensures
        sort_by_time(s).filter(stamped(ts)) == s.filter(stamped(ts)),
    decreases s.len(),
{
    reveal(Seq::filter);
    if s.len() > 0 {
        let prev = s.drop_last();
        law_sort_is_stable(prev, ts);
        lemma_sort_ordered(prev);
        lemma_insert_keeps_stamped_order(sort_by_time(prev), s.last(), ts);
    }
}

/// The number of ticks in all histories together.
pub open spec fn total_history_len(h: Seq<(Seq<char>, Seq<TickView>)>) -> nat
    decreases h.len(),
{
    if h.len() == 0 {
        0
    } else {
        total_history_len(h.drop_last()) + h.last().1.len()
    }
}

/// The ticks of no history are none, and adding a room's history adds its
/// ticks after those of the rooms before it.
pub proof fn law_history_ticks_add(h: Seq<(Seq<char>, Seq<TickView>)>, x: (Seq<char>, Seq<TickView>))
    ensures
        all_history_ticks(Seq::empty()) == Seq::<TickView>::empty(),
        all_history_ticks(h.push(x)) == all_history_ticks(h) + x.1,
{
    assert(h.push(x).drop_last() =~= h);
}

/// The ticks of no groups are none, and adding a group adds its ticks after
/// those of the groups before it.
pub proof fn law_concat_groups_add(g: Seq<Seq<TickView>>, x: Seq<TickView>)
    ensures
        concat_groups(Seq::empty()) == Seq::<TickView>::empty(),
        concat_groups(g.push(x)) == concat_groups(g) + x,
{
    assert(g.push(x).drop_last() =~= g);
}

/// No ticks carry no alarms, and adding a room's latest tick adds its alarms.
pub proof fn law_alarm_total_adds(s: Seq<(Seq<char>, TickView)>, x: (Seq<char>, TickView))
    ensures
        alarm_total(Seq::empty()) == 0,
        alarm_total(s.push(x)) == alarm_total(s) + x.1.alarms.len(),
{
    assert(s.push(x).drop_last() =~= s);
}

/// No ticks carry no readings, and adding a room's latest tick adds its
/// readings, in the tick's order, after the readings before it.
pub proof fn law_readings_add(s: Seq<(Seq<char>, TickView)>, x: (Seq<char>, TickView))
    ensures
        readings_of(Seq::empty()) == Seq::<u64>::empty(),
        readings_of(s.push(x)) == readings_of(s) + x.1.sensors.map_values(|e: (Seq<char>, u64)| e.1),
        readings_of(s.push(x)).len() == readings_of(s).len() + x.1.sensors.len(),
{
    assert(s.push(x).drop_last() =~= s);
}

/// The ticks of all histories number as many as the histories hold together.
pub proof fn lemma_history_ticks_len(h: Seq<(Seq<char>, Seq<TickView>)>)
    ensures
        all_history_ticks(h).len() == total_history_len(h),
    decreases h.len(),
{
    if h.len() > 0 {
        lemma_history_ticks_len(h.drop_last());
    }
}

/// Every tick of every history is among the ticks of all histories.
pub proof fn lemma_history_ticks_contain(h: Seq<(Seq<char>, Seq<TickView>)>, i: int, j: int)
    requires
        0 <= i < h.len(),
        0 <= j < h[i].1.len(),
    ensures
        all_history_ticks(h).contains(h[i].1[j]),
    decreases h.len(),
{
    let prev = h.drop_last();
    let a = all_history_ticks(prev);
    if i == h.len() - 1 {
        assert(all_history_ticks(h)[a.len() + j] == h[i].1[j]);
    } else {
        assert(prev[i] == h[i]);
        lemma_history_ticks_contain(prev, i, j);
        let k = choose|k: int| 0 <= k < a.len() && a[k] == h[i].1[j];
        assert(all_history_ticks(h)[k] == h[i].1[j]);
    }
}

/// Merging aligned ticks leaves out no tick: the groups hold as many ticks as
/// all histories together, and every tick of every room's history is in one of
/// them.
#[verifier::spinoff_prover]
pub proof fn law_merge_keeps_every_tick(history: Seq<(Seq<char>, Seq<TickView>)>, tolerance: int)
    ensures
        ({
            let g = group_by_window(sort_by_time(all_history_ticks(history)), tolerance);
            &&& concat_groups(g).len() == total_history_len(history)
            &&& forall|i: int, j: int|
                0 <= i < history.len() && 0 <= j < history[i].1.len() ==> concat_groups(g).contains(
                    #[trigger] history[i].1[j],
                )
        }),
{
    let all = all_history_ticks(history);
    let g = group_by_window(sort_by_time(all), tolerance);
    law_merge_partitions_ticks(history, tolerance);
    lemma_history_ticks_len(history);
    concat_groups(g).to_multiset_ensures();
    all.to_multiset_ensures();
    assert forall|i: int, j: int|
        0 <= i < history.len() && 0 <= j < history[i].1.len() implies concat_groups(g).contains(
            #[trigger] history[i].1[j],
        ) by {
        let x = history[i].1[j];
        lemma_history_ticks_contain(history, i, j);
        assert(all.to_multiset().count(x) > 0);
        assert(concat_groups(g).to_multiset().count(x) > 0);
    }
}

/// Where run `k` of the runs that start at `starts` ends (exclusive), in a
/// sequence of `n` ticks: at the next run's start, or at the end.
pub open spec fn run_end(starts: Seq<int>, k: int, n: int) -> int {
    if k + 1 < starts.len() {
        starts[k + 1]
    } else {
        n
    }
}

/// Whether `starts` cuts `s` into consecutive non-empty runs (run `k` from
/// `starts[k]` up to where the next run starts) whose last tick lies within
/// `tolerance` milliseconds of its first.
pub open spec fn is_window_cover(s: Seq<TickView>, starts: Seq<int>, tolerance: int) -> bool {
    &&& (s.len() == 0) == (starts.len() == 0)
    &&& starts.len() > 0 ==> starts[0] == 0
    &&& forall|k: int, l: int| 0 <= k < l < starts.len() ==> #[trigger] starts[k] < #[trigger] starts[l]
    &&& forall|k: int| 0 <= k < starts.len() ==> 0 <= #[trigger] starts[k] < s.len()
    &&& forall|k: int|
        0 <= k < starts.len() ==> time_gap(s[run_end(starts, k, s.len() as int) - 1], s[#[trigger] starts[k]])
            <= tolerance
}

/// Where the last group of `group_by_window(s, tolerance)` starts in `s`.
pub open spec fn last_group_start(s: Seq<TickView>, tolerance: int) -> int {
    s.len() - group_by_window(s, tolerance).last().len()
}

/// The last group of a grouping of a non-empty sequence is a non-empty tail
/// of the sequence.
#[verifier::spinoff_prover]
pub proof fn lemma_last_group_is_tail(s: Seq<TickView>, tolerance: int)
    requires
        s.len() > 0,
    ensures
        ({
            let g = group_by_window(s, tolerance);
            &&& g.len() > 0
            &&& 0 < g.last().len() <= s.len()
            &&& g.last() == s.subrange(last_group_start(s, tolerance), s.len() as int)
        }),
    decreases s.len(),
{
    let prev = s.drop_last();
    let t = s.last();
    let g2 = group_by_window(s, tolerance);
    if prev.len() == 0 {
        assert(g2 == seq![seq![t]]);
        assert(seq![t] =~= s.subrange(0, 1));
    } else {
        lemma_last_group_is_tail(prev, tolerance);
        let g = group_by_window(prev, tolerance);
        if time_gap(t, g.last()[0]) <= tolerance {
            let st = last_group_start(prev, tolerance);
            assert(g2 == g.update(g.len() - 1, g.last().push(t)));
            assert(g2.last() == g.last().push(t));
            assert(g.last().push(t) =~= s.subrange(st, s.len() as int));
        } else {
            assert(g2 == g.push(seq![t]));
            assert(seq![t] =~= s.subrange(s.len() - 1, s.len() as int));
        }
    }
}

/// In time order, a tick lies no farther from a later tick than an earlier
/// tick does, and no farther from an earlier tick than a later tick does.
pub proof fn lemma_gap_ordered(s: Seq<TickView>, a: int, b: int, c: int)
    requires
        is_time_ordered(s),
        0 <= a <= b <= c < s.len(),
    ensures
        time_gap(s[c], s[b]) <= time_gap(s[c], s[a]),
        time_gap(s[b], s[a]) <= time_gap(s[c], s[a]),
{
    assert(s[a].timestamp <= s[b].timestamp);
    assert(s[b].timestamp <= s[c].timestamp);
    vstd::arithmetic::div_mod::lemma_div_is_ordered(
        s[c].timestamp - s[b].timestamp,
        s[c].timestamp - s[a].timestamp,
        1_000_000,
    );
    vstd::arithmetic::div_mod::lemma_div_is_ordered(
        s[b].timestamp - s[a].timestamp,
        s[c].timestamp - s[a].timestamp,
        1_000_000,
    );
}

/// Dropping the last tick of a cover whose last run is that tick alone leaves
/// a cover of the other ticks by the other runs.
#[verifier::spinoff_prover]
pub proof fn lemma_cover_without_last_run(s: Seq<TickView>, starts: Seq<int>, tolerance: int)
    requires
        s.len() > 1,
        is_window_cover(s, starts, tolerance),
        starts.last() == s.len() - 1,
    ensures
        starts.len() >= 2,
        is_window_cover(s.drop_last(), starts.drop_last(), tolerance),
{
    let prev = s.drop_last();
    let c2 = starts.drop_last();
    let n = s.len() as int;
    assert(starts[0] == 0);
    assert forall|k: int| 0 <= k < c2.len() implies time_gap(
        prev[run_end(c2, k, prev.len() as int) - 1],
        prev[#[trigger] c2[k]],
    ) <= tolerance by {
        assert(starts[k] == c2[k]);
        assert(run_end(c2, k, prev.len() as int) == run_end(starts, k, n));
    }
    assert forall|k: int, l: int| 0 <= k < l < c2.len() implies #[trigger] c2[k] < #[trigger] c2[l] by {
        assert(starts[k] < starts[l]);
    }
    assert forall|k: int| 0 <= k < c2.len() implies 0 <= #[trigger] c2[k] < prev.len() by {
        assert(starts[k] < starts[starts.len() - 1]);
    }
}

/// A cover of time-ordered ticks whose last run holds more than the last tick
/// also covers the ticks without the last one.
#[verifier::spinoff_prover]
pub proof fn lemma_cover_of_shorter(s: Seq<TickView>, starts: Seq<int>, tolerance: int)
    requires
        is_time_ordered(s),
        s.len() > 1,
        is_window_cover(s, starts, tolerance),
        starts.last() < s.len() - 1,
    ensures
        is_window_cover(s.drop_last(), starts, tolerance),
{
    let prev = s.drop_last();
    let n = s.len() as int;
    let i = n - 1;
    let m = starts.len() as int;
    let cl = starts[m - 1];
    assert forall|k: int| 0 <= k < starts.len() implies time_gap(
        prev[run_end(starts, k, prev.len() as int) - 1],
        prev[#[trigger] starts[k]],
    ) <= tolerance by {
        if k + 1 < m {
            assert(starts[k + 1] <= cl);
        } else {
            lemma_gap_ordered(s, cl, i - 1, i);
        }
    }
}

/// Greedy grouping stays ahead of any cover of time-ordered ticks by runs
/// within the tolerance: it uses no more groups, and with as many groups its
/// last group starts no earlier than the cover's last run.
#[verifier::spinoff_prover]
pub proof fn lemma_greedy_stays_ahead(s: Seq<TickView>, starts: Seq<int>, tolerance: int)
    requires
        is_time_ordered(s),
        s.len() > 0,
        is_window_cover(s, starts, tolerance),
    ensures
        group_by_window(s, tolerance).len() <= starts.len(),
        group_by_window(s, tolerance).len() == starts.len() ==> last_group_start(s, tolerance)
            >= starts.last(),
    decreases s.len(),
{
    let n = s.len() as int;
    let i = n - 1;
    let prev = s.drop_last();
    let m = starts.len() as int;
    let cl = starts[m - 1];
    lemma_last_group_is_tail(s, tolerance);
    if i > 0 {
        assert(is_time_ordered(prev));
        if cl == i {
            lemma_cover_without_last_run(s, starts, tolerance);
            lemma_greedy_stays_ahead(prev, starts.drop_last(), tolerance);
        } else {
            lemma_cover_of_shorter(s, starts, tolerance);
            lemma_greedy_stays_ahead(prev, starts, tolerance);
            lemma_last_group_is_tail(prev, tolerance);
            let st = last_group_start(prev, tolerance);
            let g = group_by_window(prev, tolerance);
            assert(g.last()[0] == s[st]);
            if g.len() == m && time_gap(s[i], s[st]) > tolerance {
                lemma_gap_ordered(s, cl, st, i);
                assert(run_end(starts, m - 1, n) == n);
            }
        }
    }
}

/// Greedy grouping with a larger tolerance stays ahead of greedy grouping with
/// a smaller one: no more groups, and with as many groups a last group that
/// starts no earlier.
#[verifier::spinoff_prover]
pub proof fn lemma_wider_window_stays_ahead(s: Seq<TickView>, narrow: int, wide: int)
    requires
        is_time_ordered(s),
        s.len() > 0,
        narrow <= wide,
    ensures
        group_by_window(s, wide).len() <= group_by_window(s, narrow).len(),
        group_by_window(s, wide).len() == group_by_window(s, narrow).len() ==> last_group_start(s, wide)
            >= last_group_start(s, narrow),
    decreases s.len(),
{
    let i = s.len() - 1;
    let prev = s.drop_last();
    lemma_last_group_is_tail(s, narrow);
    lemma_last_group_is_tail(s, wide);
    if i > 0 {
        assert(is_time_ordered(prev));
        lemma_wider_window_stays_ahead(prev, narrow, wide);
        lemma_last_group_is_tail(prev, narrow);
        lemma_last_group_is_tail(prev, wide);
        let s1 = last_group_start(prev, narrow);
        let s2 = last_group_start(prev, wide);
        assert(group_by_window(prev, narrow).last()[0] == s[s1]);
        assert(group_by_window(prev, wide).last()[0] == s[s2]);
        if group_by_window(prev, wide).len() == group_by_window(prev, narrow).len() {
            lemma_gap_ordered(s, s1, s2, i);
        }
    }
}

/// Merging aligned ticks uses as few groups as any way of cutting the ticks,
/// in time order, into consecutive runs whose last tick lies within the
/// tolerance of the first.
pub proof fn law_merge_uses_fewest_windows(
    history: Seq<(Seq<char>, Seq<TickView>)>,
    tolerance: int,
    starts: Seq<int>,
)
    requires
        is_window_cover(sort_by_time(all_history_ticks(history)), starts, tolerance),
    ensures
        group_by_window(sort_by_time(all_history_ticks(history)), tolerance).len() <= starts.len(),
{
    let sorted = sort_by_time(all_history_ticks(history));
    lemma_sort_ordered(all_history_ticks(history));
    if sorted.len() > 0 {
        lemma_greedy_stays_ahead(sorted, starts, tolerance);
    }
}

/// Merging aligned ticks with a larger tolerance never gives more groups.
pub proof fn law_merge_monotone_in_tolerance(
    history: Seq<(Seq<char>, Seq<TickView>)>,
    narrow: int,
    wide: int,
)
    requires
        narrow <= wide,
    ensures
        group_by_window(sort_by_time(all_history_ticks(history)), wide).len() <= group_by_window(
            sort_by_time(all_history_ticks(history)),
            narrow,
        ).len(),
{
    let sorted = sort_by_time(all_history_ticks(history));
    lemma_sort_ordered(all_history_ticks(history));
    if sorted.len() > 0 {
        lemma_wider_window_stays_ahead(sorted, narrow, wide);
    }
}

/// Reading after taking in a tick `t` of room `r`: `r`'s latest tick is `t`
/// and its history is its next history; every other room keeps its latest tick
/// and its history; the latest ticks and the histories still match; and the
/// two name the same rooms.
pub proof fn law_read_after_ingest(
    latest: Seq<(Seq<char>, TickView)>,
    history: Seq<(Seq<char>, Seq<TickView>)>,
    t: TickView,
    max: usize,
    other: Seq<char>,
)
    requires
        latest_matches_history(latest, history),
        other != t.room_id,
    ensures
        ({
            let r = t.room_id;
            let nh = next_history(lookup(history, r), t, max);
            let latest2 = inserted(latest, r, t);
            let history2 = inserted(history, r, nh);
            &&& lookup(latest2, r) == Some(t)
            &&& lookup(history2, r) == Some(nh)
            &&& lookup(latest2, other) == lookup(latest, other)
            &&& lookup(history2, other) == lookup(history, other)
            &&& latest_matches_history(latest2, history2)
            &&& has_key(latest, other) == has_key(history, other)
        }),
{
    let r = t.room_id;
    let nh = next_history(lookup(history, r), t, max);
    law_lookup_after_insert(latest, r, t, other);
    law_lookup_after_insert(history, r, nh, other);
    let latest2 = inserted(latest, r, t);
    let history2 = inserted(history, r, nh);
    if has_key(latest, other) {
        let j = choose|j: int| 0 <= j < latest.len() && #[trigger] latest[j].0 == other;
        assert(history[j].0 == other);
    }
    if has_key(history, other) {
        let j = choose|j: int| 0 <= j < history.len() && #[trigger] history[j].0 == other;
        assert(latest[j].0 == other);
    }
    if has_key(latest, r) {
        let i = key_index(latest, r);
        assert(history[i].0 == r);
        lemma_key_index(history, i);
        lemma_key_index(latest, i);
    } else {
        if has_key(history, r) {
            let j = choose|j: int| 0 <= j < history.len() && #[trigger] history[j].0 == r;
            assert(latest[j].0 == r);
        }
    }
    assert forall|i: int| 0 <= i < latest2.len() implies {
        &&& (#[trigger] latest2[i]).0 == history2[i].0
        &&& history2[i].1.len() > 0 ==> latest2[i].1 == history2[i].1.last()
    } by {
        if i < latest.len() {
            if latest2[i] == latest[i] {
                assert(latest[i].0 == history[i].0);
            }
        }
        law_history_bounded(lookup(history, r), t, max);
    }
}

/// A room's history after a tick arrives is the newest part of its previous
/// history (empty for a new room) followed by that tick. Once the history is
/// within `max` ticks it stays so: it keeps the last `min(n + 1, max)` of the
/// `n + 1` ticks, so it ends with the new tick unless `max` is 0, and it is
/// empty when `max` is 0.
pub proof fn law_history_bounded(old: Option<Seq<TickView>>, t: TickView, max: usize)
    ensures
        ({
            let prev = match old {
                Some(h) => h,
                None => Seq::<TickView>::empty(),
            };
            let full = prev.push(t);
            let next = next_history(old, t, max);
            &&& next.len() <= full.len()
            &&& full.subrange(full.len() - next.len(), full.len() as int) == next
            &&& prev.len() <= max ==> next.len() == if prev.len() + 1 <= max {
                prev.len() + 1int
            } else {
                max as int
            }
            &&& 1 <= max && prev.len() <= max ==> next.len() > 0 && next.last() == t
        }),
{
    let prev = match old {
        Some(h) => h,
        None => Seq::<TickView>::empty(),
    };
    let full = prev.push(t);
    assert(old is None ==> seq![t] =~= full);
    if full.len() > max {
        assert(full.subrange(1, full.len() as int) =~= full.drop_first());
    } else {
        assert(full.subrange(0, full.len() as int) =~= full);
    }
}

} // verus!
