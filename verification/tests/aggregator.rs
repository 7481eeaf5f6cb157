use plato_fleet_manager::{CorrelationRule, KeyedMap, Tick, TickAggregator};

fn readings(pairs: &[(&str, f64)]) -> KeyedMap<u64> {
    let mut m = KeyedMap::new();
    for (k, v) in pairs {
        m.insert(k.to_string(), v.to_bits());
    }
    m
}

/// Nanoseconds per millisecond.
const MS: i64 = 1_000_000;

/// A tick of `room` stamped `ts` milliseconds after the epoch.
fn make_tick(room: &str, ts: i64, pairs: &[(&str, f64)]) -> Tick {
    Tick::new(room, readings(pairs)).at(ts * MS)
}

fn now_ms() -> i64 {
    chrono::Utc::now().timestamp_millis()
}

#[test]
fn merge_two_tick_streams_by_timestamp() {
    let mut agg = TickAggregator::new();
    let base = now_ms();

    agg.ingest(make_tick("room-a", base, &[]));
    agg.ingest(make_tick("room-b", base + 5, &[]));
    agg.ingest(make_tick("room-a", base + 1000, &[]));
    agg.ingest(make_tick("room-b", base + 1005, &[]));

    let groups = agg.merge_aligned(10);
    assert!(groups.len() >= 2, "Expected at least 2 groups, got {}", groups.len());
}

#[test]
fn detect_engine_bilge_correlation() {
    let mut agg = TickAggregator::new();
    agg.add_engine_bilge_correlation();
    assert_eq!(agg.correlation_rules(), &vec![CorrelationRule::EngineBilgeRising]);

    // Normal readings — no correlation
    agg.ingest(Tick::new("engine-room", readings(&[("temperature", 70.0)])));
    agg.ingest(Tick::new("bilge", readings(&[("water_level", 30.0)])));
    let events = agg.detect_correlations();
    assert!(events.is_empty());

    // Critical readings — correlation detected
    agg.ingest(Tick::new("engine-room", readings(&[("temperature", 95.0)])));
    agg.ingest(Tick::new("bilge", readings(&[("water_level", 60.0)])));
    let events = agg.detect_correlations();
    assert_eq!(events.len(), 1);
    assert_eq!(events[0].severity, "critical");
    assert_eq!(events[0].rooms, vec!["engine-room", "bilge"]);
}

#[test]
fn handle_different_tick_rates() {
    let mut agg = TickAggregator::new();
    let base = now_ms();

    // Room A ticks every 100ms, Room B every 500ms
    for i in 0..5 {
        agg.ingest(make_tick("room-a", base + i * 100, &[]));
    }
    agg.ingest(make_tick("room-b", base, &[]));
    agg.ingest(make_tick("room-b", base + 500, &[]));

    let groups = agg.merge_aligned(200);
    assert!(groups.len() > 0);
    // At least one group should have both rooms
    assert!(groups.iter().any(|g| g.iter().any(|t| t.room_id == "room-b")));
}

#[test]
fn fleet_statistics() {
    let mut agg = TickAggregator::new();
    agg.ingest(Tick::new("room-a", readings(&[("temp", 20.0), ("pressure", 101.0)])));
    let tick = Tick::new("room-b", readings(&[("temp", 25.0), ("humidity", 60.0)]))
        .with_alarms(vec!["high_temp".into()]);
    agg.ingest(tick);

    let stats = agg.statistics();
    assert_eq!(stats.total_rooms, 2);
    assert_eq!(stats.total_sensors, 4);
    assert_eq!(stats.total_alarms, 1);
    let sum: f64 = stats.sensor_values.iter().map(|b| f64::from_bits(*b)).sum();
    let avg = sum / stats.sensor_values.len() as f64;
    assert!((avg - 51.5).abs() < 0.01);
}

#[test]
fn empty_aggregator() {
    let agg = TickAggregator::new();
    let stats = agg.statistics();
    assert_eq!(stats.total_rooms, 0);
    let groups = agg.merge_aligned(100);
    assert!(groups.is_empty());
}

#[test]
fn merge_groups_against_first_tick_of_group() {
    let mut agg = TickAggregator::new();
    agg.ingest(make_tick("a", 100, &[]));
    agg.ingest(make_tick("a", 108, &[]));
    agg.ingest(make_tick("a", 116, &[]));
    agg.ingest(make_tick("b", 104, &[]));
    agg.ingest(make_tick("b", 130, &[]));
    // Sorted: a100 b104 a108 a116 b130. With a 10 ms window measured from each
    // group's first tick: [100, 104, 108] [116] [130].
    let groups = agg.merge_aligned(10);
    let stamps: Vec<Vec<i64>> = groups.iter().map(|g| g.iter().map(|t| t.timestamp / MS).collect()).collect();
    assert_eq!(stamps, vec![vec![100, 104, 108], vec![116], vec![130]]);
    let rooms: Vec<&str> = groups[0].iter().map(|t| t.room_id.as_str()).collect();
    assert_eq!(rooms, vec!["a", "b", "a"]);
}

#[test]
fn equal_timestamps_keep_room_order() {
    let mut agg = TickAggregator::new();
    agg.ingest(make_tick("a", 50, &[]));
    agg.ingest(make_tick("b", 50, &[]));
    agg.ingest(make_tick("c", 10, &[]));
    let groups = agg.merge_aligned(0);
    let rooms: Vec<Vec<&str>> = groups.iter().map(|g| g.iter().map(|t| t.room_id.as_str()).collect()).collect();
    assert_eq!(rooms, vec![vec!["c"], vec!["a", "b"]]);
}

#[test]
fn negative_tolerance_splits_every_tick() {
    let mut agg = TickAggregator::new();
    agg.ingest(make_tick("a", 7, &[]));
    agg.ingest(make_tick("a", 7, &[]));
    let groups = agg.merge_aligned(-1);
    assert_eq!(groups.len(), 2);
}

#[test]
fn history_keeps_newest_ticks() {
    let mut agg = TickAggregator::new().with_max_history(2);
    for i in 0..5 {
        agg.ingest(make_tick("a", i, &[]));
    }
    let groups = agg.merge_aligned(100);
    let stamps: Vec<i64> = groups.iter().flat_map(|g| g.iter().map(|t| t.timestamp / MS)).collect();
    assert_eq!(stamps, vec![3, 4]);
    let latest = agg.latest();
    assert_eq!(latest.len(), 1);
    assert_eq!(latest.get("a").unwrap().timestamp / MS, 4);
}

#[test]
fn zero_history_keeps_no_ticks() {
    let mut agg = TickAggregator::new().with_max_history(0);
    agg.ingest(make_tick("a", 1, &[]));
    assert!(agg.merge_aligned(100).is_empty());
    agg.ingest(make_tick("a", 2, &[]));
    assert!(agg.merge_aligned(100).is_empty());
    let latest = agg.latest();
    assert_eq!(latest.len(), 1);
    assert_eq!(latest.get("a").unwrap().timestamp / MS, 2);
}

#[test]
fn one_tick_history_keeps_newest() {
    let mut agg = TickAggregator::new().with_max_history(1);
    agg.ingest(make_tick("a", 1, &[]));
    agg.ingest(make_tick("a", 2, &[]));
    let groups = agg.merge_aligned(100);
    let stamps: Vec<i64> = groups.iter().flat_map(|g| g.iter().map(|t| t.timestamp / MS)).collect();
    assert_eq!(stamps, vec![2]);
}

#[test]
fn ticks_within_a_millisecond_sort_by_time() {
    let mut agg = TickAggregator::new();
    agg.ingest(Tick::new("a", KeyedMap::new()).at(5_000_700));
    agg.ingest(Tick::new("b", KeyedMap::new()).at(5_000_200));
    // Both lie in the same millisecond; the earlier one still comes first.
    let groups = agg.merge_aligned(0);
    assert_eq!(groups.len(), 1);
    let rooms: Vec<&str> = groups[0].iter().map(|t| t.room_id.as_str()).collect();
    assert_eq!(rooms, vec!["b", "a"]);
}

#[test]
fn window_counts_whole_milliseconds() {
    let mut agg = TickAggregator::new();
    agg.ingest(Tick::new("a", KeyedMap::new()).at(0));
    agg.ingest(Tick::new("b", KeyedMap::new()).at(1_999_999));
    agg.ingest(Tick::new("c", KeyedMap::new()).at(2_000_000));
    // 1.999999 ms counts as 1 ms, 2 ms as 2 ms.
    let groups = agg.merge_aligned(1);
    let sizes: Vec<usize> = groups.iter().map(|g| g.len()).collect();
    assert_eq!(sizes, vec![2, 1]);
}

#[test]
fn correlation_thresholds_are_strict() {
    let mut agg = TickAggregator::new();
    agg.add_engine_bilge_correlation();
    agg.add_engine_bilge_correlation();
    agg.ingest(Tick::new("engine-room", readings(&[("temperature", 90.0)])));
    agg.ingest(Tick::new("bilge", readings(&[("water_level", 60.0)])));
    assert!(agg.detect_correlations_at(7).is_empty());
    agg.ingest(Tick::new("engine-room", readings(&[("temperature", 90.000001)])));
    let events = agg.detect_correlations_at(7);
    assert_eq!(events.len(), 2);
    assert_eq!(events[1].timestamp, 7);
    assert_eq!(events[0].description, "Engine temperature and bilge water level both elevated");
    agg.ingest(Tick::new("bilge", readings(&[("water_level", f64::NAN)])));
    assert!(agg.detect_correlations_at(7).is_empty());
    agg.ingest(Tick::new("bilge", readings(&[("water_level", f64::INFINITY)])));
    assert_eq!(agg.detect_correlations_at(7).len(), 2);
    agg.ingest(Tick::new("engine-room", readings(&[("temperature", -95.0)])));
    assert!(agg.detect_correlations_at(7).is_empty());
}

#[test]
fn no_rules_no_correlations() {
    let mut agg = TickAggregator::new();
    agg.ingest(Tick::new("engine-room", readings(&[("temperature", 95.0)])));
    agg.ingest(Tick::new("bilge", readings(&[("water_level", 60.0)])));
    assert!(agg.detect_correlations().is_empty());
}

#[test]
fn engine_bilge_needs_both_readings() {
    let mut agg = TickAggregator::new();
    agg.ingest(Tick::new("engine-room", readings(&[("temperature", 95.0)])));
    assert_eq!(agg.engine_bilge_readings(), None);
    agg.ingest(Tick::new("bilge", readings(&[("pump", 1.0)])));
    assert_eq!(agg.engine_bilge_readings(), None);
    agg.ingest(Tick::new("bilge", readings(&[("water_level", 55.0)])));
    assert_eq!(agg.engine_bilge_readings(), Some((95.0f64.to_bits(), 55.0f64.to_bits())));
    assert_eq!(CorrelationRule::EngineBilgeRising.name(), "engine_bilge_rising");
}

#[test]
fn latest_tick_is_replaced() {
    let mut agg = TickAggregator::new();
    agg.ingest(make_tick("a", 1, &[("x", 1.0)]));
    agg.ingest(make_tick("b", 2, &[]));
    agg.ingest(make_tick("a", 3, &[("x", 2.0)]).with_alarms(vec!["hot".into(), "loud".into()]));
    let latest = agg.latest();
    assert_eq!(latest.len(), 2);
    assert_eq!(latest.key_at(0), "a");
    assert_eq!(latest.get("a").unwrap().timestamp / MS, 3);
    let stats = agg.statistics();
    assert_eq!(stats.total_rooms, 2);
    assert_eq!(stats.total_alarms, 2);
    assert_eq!(stats.sensor_values, vec![2.0f64.to_bits()]);
}

#[test]
fn wider_window_never_gives_more_groups() {
    let mut agg = TickAggregator::new();
    for (room, ts) in [("a", 0), ("b", 3), ("a", 6), ("c", 9), ("b", 12), ("a", 20), ("c", 21)] {
        agg.ingest(make_tick(room, ts, &[]));
    }
    let counts: Vec<usize> = [0, 2, 3, 5, 9, 30].iter().map(|t| agg.merge_aligned(*t).len()).collect();
    assert_eq!(counts, vec![7, 6, 4, 4, 2, 1]);
    for w in counts.windows(2) {
        assert!(w[1] <= w[0]);
    }
}

#[test]
fn statistics_report_least_and_greatest_reading() {
    let mut agg = TickAggregator::new();
    agg.ingest(Tick::new("room-a", readings(&[("temp", 20.0), ("pressure", 101.0)])));
    agg.ingest(Tick::new("room-b", readings(&[("temp", 25.0), ("humidity", 60.0)])));
    let stats = agg.statistics();
    assert_eq!(stats.min_reading.map(f64::from_bits), Some(20.0));
    assert_eq!(stats.max_reading.map(f64::from_bits), Some(101.0));
}

#[test]
fn least_and_greatest_skip_nans_and_order_signs() {
    let mut agg = TickAggregator::new();
    agg.ingest(Tick::new("a", readings(&[("x", f64::NAN), ("y", -3.5), ("z", 0.0)])));
    agg.ingest(Tick::new("b", readings(&[("x", -0.0), ("y", -7.25), ("z", f64::INFINITY)])));
    let stats = agg.statistics();
    assert_eq!(stats.min_reading, Some((-7.25f64).to_bits()));
    assert_eq!(stats.max_reading, Some(f64::INFINITY.to_bits()));
    // Of the two equal zeros, the first one counts.
    let mut zeros = TickAggregator::new();
    zeros.ingest(Tick::new("a", readings(&[("x", 0.0), ("y", -0.0)])));
    let stats = zeros.statistics();
    assert_eq!(stats.min_reading, Some(0.0f64.to_bits()));
    assert_eq!(stats.max_reading, Some(0.0f64.to_bits()));
}

#[test]
fn only_nan_readings_have_no_extremes() {
    let mut agg = TickAggregator::new();
    agg.ingest(Tick::new("a", readings(&[("x", f64::NAN)])));
    let stats = agg.statistics();
    assert_eq!(stats.min_reading, None);
    assert_eq!(stats.max_reading, None);
    let empty = TickAggregator::new().statistics();
    assert_eq!(empty.min_reading, None);
    assert_eq!(empty.max_reading, None);
}

#[test]
fn new_tick_is_stamped_with_the_clock() {
    let before = chrono::Utc::now().timestamp_nanos_opt().unwrap();
    let tick = Tick::new("a", KeyedMap::new());
    let after = chrono::Utc::now().timestamp_nanos_opt().unwrap();
    assert!(before <= tick.timestamp && tick.timestamp <= after);
}
