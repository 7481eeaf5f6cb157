use plato_fleet_manager::{FleetMonitor, HealthStatus, KeyedMap, RoomStateSnapshot};

/// Nanoseconds per millisecond.
const MS: i64 = 1_000_000;

fn now_ns() -> i64 {
    chrono::Utc::now().timestamp_nanos_opt().unwrap()
}

fn make_state(connected: bool, alarm_count: usize, uptime: f64) -> RoomStateSnapshot {
    RoomStateSnapshot {
        connected,
        last_tick_time: if connected { Some(now_ns()) } else { None },
        alarm_count,
        uptime_percentage: uptime.to_bits(),
    }
}

fn make_stale_state() -> RoomStateSnapshot {
    RoomStateSnapshot {
        connected: true,
        last_tick_time: Some(now_ns() - 120_000 * MS),
        alarm_count: 0,
        uptime_percentage: 95.0f64.to_bits(),
    }
}

#[test]
fn healthy_fleet_is_green() {
    let monitor = FleetMonitor::new();
    let mut rooms = KeyedMap::new();
    rooms.insert("room-a".into(), make_state(true, 0, 99.0));
    rooms.insert("room-b".into(), make_state(true, 0, 98.0));

    let health = monitor.compute_health(&rooms);
    assert_eq!(health.status, HealthStatus::Green);
    assert_eq!(health.healthy_rooms, 2);
    assert_eq!(health.rooms_down, 0);
}

#[test]
fn one_room_down_is_yellow() {
    let monitor = FleetMonitor::new();
    let mut rooms = KeyedMap::new();
    rooms.insert("room-a".into(), make_state(true, 0, 99.0));
    rooms.insert("room-b".into(), make_state(false, 0, 50.0));

    let health = monitor.compute_health(&rooms);
    assert_eq!(health.status, HealthStatus::Yellow);
    assert_eq!(health.rooms_down, 1);
}

#[test]
fn critical_alarm_is_red() {
    let monitor = FleetMonitor::new().with_red_threshold(1, 2);
    let mut rooms = KeyedMap::new();
    rooms.insert("room-a".into(), make_state(false, 2, 0.0));
    rooms.insert("room-b".into(), make_state(false, 1, 0.0));

    let health = monitor.compute_health(&rooms);
    assert_eq!(health.status, HealthStatus::Red);
    assert_eq!(health.rooms_down, 2);
}

#[test]
fn detect_room_stopped_ticking() {
    let monitor = FleetMonitor::new().with_tick_timeout(30);
    let mut rooms = KeyedMap::new();
    rooms.insert("room-a".into(), make_state(true, 0, 99.0));
    rooms.insert("room-b".into(), make_stale_state());

    let stale = monitor.detect_stale_rooms(&rooms);
    assert_eq!(stale, vec!["room-b"]);
}

#[test]
fn all_rooms_down_is_red() {
    let monitor = FleetMonitor::new();
    let mut rooms = KeyedMap::new();
    rooms.insert("room-a".into(), make_state(false, 0, 0.0));

    let health = monitor.compute_health(&rooms);
    assert_eq!(health.status, HealthStatus::Red);
}

#[test]
fn empty_fleet_is_green() {
    let monitor = FleetMonitor::new();
    let rooms = KeyedMap::new();
    let health = monitor.compute_health(&rooms);
    assert_eq!(health.status, HealthStatus::Green);
}

#[test]
fn multiple_alarms_across_rooms() {
    let monitor = FleetMonitor::new();
    let mut rooms = KeyedMap::new();
    rooms.insert("room-a".into(), make_state(true, 2, 90.0));
    rooms.insert("room-b".into(), make_state(true, 1, 85.0));
    rooms.insert("room-c".into(), make_state(true, 0, 99.0));

    let health = monitor.compute_health(&rooms);
    assert_eq!(health.status, HealthStatus::Yellow);
    assert_eq!(health.rooms_with_alarms, 2);
}

fn snapshot(connected: bool, last: Option<i64>, alarms: usize) -> RoomStateSnapshot {
    RoomStateSnapshot {
        connected,
        last_tick_time: last,
        alarm_count: alarms,
        uptime_percentage: 100.0f64.to_bits(),
    }
}

#[test]
fn ticking_boundary_at_timeout() {
    let monitor = FleetMonitor::new().with_tick_timeout(30);
    let now = 1_000_000_000 * MS;
    let mut rooms = KeyedMap::new();
    // 29.999999999 s old: 29 whole seconds, still ticking.
    rooms.insert("fresh".into(), snapshot(true, Some(now - 29_999_999_999), 0));
    // 30 s old: at the timeout, no longer ticking.
    rooms.insert("old".into(), snapshot(true, Some(now - 30_000 * MS), 0));
    // A tick from the future counts by its distance.
    rooms.insert("future".into(), snapshot(true, Some(now + 29_000 * MS), 0));
    let health = monitor.compute_health_at(&rooms, now);
    assert!(health.details.get("fresh").unwrap().ticking);
    assert!(!health.details.get("old").unwrap().ticking);
    assert!(health.details.get("future").unwrap().ticking);
    assert_eq!(health.rooms_down, 1);
    assert_eq!(health.healthy_rooms, 2);
    assert_eq!(health.status, HealthStatus::Yellow);
    assert_eq!(health.last_updated, now);
    assert_eq!(monitor.detect_stale_rooms_at(&rooms, now), vec!["old"]);
}

#[test]
fn red_threshold_ratio_is_strict() {
    let now = 5_000;
    let mut rooms = KeyedMap::new();
    rooms.insert("a".into(), snapshot(true, Some(now), 0));
    rooms.insert("b".into(), snapshot(false, Some(now), 0));
    rooms.insert("c".into(), snapshot(true, Some(now), 0));
    rooms.insert("d".into(), snapshot(true, None, 0));
    // Two of four rooms are down: exactly one half is not above one half.
    let half = FleetMonitor::new();
    assert_eq!(half.compute_health_at(&rooms, now).rooms_down, 2);
    assert_eq!(half.compute_health_at(&rooms, now).status, HealthStatus::Yellow);
    // A lower threshold turns the same fleet red.
    let third = FleetMonitor::new().with_red_threshold(1, 3);
    assert_eq!(third.compute_health_at(&rooms, now).status, HealthStatus::Red);
    // An inclusive threshold of one half is met by exactly one half.
    let reach_half = FleetMonitor::new().with_inclusive_red_threshold(1, 2);
    assert_eq!(reach_half.compute_health_at(&rooms, now).status, HealthStatus::Red);
}

#[test]
fn inclusive_zero_threshold_is_always_met() {
    let now = 5_000;
    let mut rooms = KeyedMap::new();
    rooms.insert("a".into(), snapshot(true, Some(now), 0));
    let monitor = FleetMonitor::new().with_inclusive_red_threshold(0, 1);
    assert_eq!(monitor.compute_health_at(&rooms, now).rooms_down, 0);
    assert_eq!(monitor.compute_health_at(&rooms, now).status, HealthStatus::Red);
    let strict = FleetMonitor::new().with_red_threshold(0, 1);
    assert_eq!(strict.compute_health_at(&rooms, now).status, HealthStatus::Green);
}

#[test]
fn never_ticked_connected_room_is_stale() {
    let monitor = FleetMonitor::new();
    let mut rooms = KeyedMap::new();
    rooms.insert("silent".into(), snapshot(true, None, 0));
    rooms.insert("offline".into(), snapshot(false, None, 0));
    assert_eq!(monitor.detect_stale_rooms_at(&rooms, 0), vec!["silent"]);
}

#[test]
fn details_carry_room_values() {
    let monitor = FleetMonitor::new();
    let mut rooms = KeyedMap::new();
    rooms.insert("a".into(), RoomStateSnapshot {
        connected: true,
        last_tick_time: Some(10),
        alarm_count: 3,
        uptime_percentage: 87.5f64.to_bits(),
    });
    let health = monitor.compute_health_at(&rooms, 10);
    let d = health.details.get("a").unwrap();
    assert_eq!(d.alarm_count, 3);
    assert_eq!(d.last_tick, Some(10));
    assert_eq!(f64::from_bits(d.uptime_percentage), 87.5);
    assert_eq!(health.rooms_with_alarms, 1);
    assert_eq!(health.healthy_rooms, 0);
    assert_eq!(health.status, HealthStatus::Yellow);
}

#[test]
fn health_labels() {
    assert_eq!(HealthStatus::Green.label(), "🟢 GREEN");
    assert_eq!(HealthStatus::Yellow.label(), "🟡 YELLOW");
    assert_eq!(HealthStatus::Red.label(), "🔴 RED");
}

#[test]
fn huge_timeout_reads_as_negative() {
    // A timeout above i64::MAX reads as a negative number of seconds, so no
    // room counts as ticking.
    let monitor = FleetMonitor::new().with_tick_timeout(u64::MAX);
    let mut rooms = KeyedMap::new();
    rooms.insert("a".into(), snapshot(true, Some(0), 0));
    let health = monitor.compute_health_at(&rooms, 0);
    assert_eq!(health.rooms_down, 1);
    assert_eq!(health.status, HealthStatus::Red);
}
