use plato_fleet_manager::{
    ConnectionConfig, EscalationPolicy, FleetConfig, FleetManager, FleetMonitor, HealthStatus,
    KeyedMap, MockRoomConnection, Response, RoomConnection, RoomConnectionTrait,
    RoomStateSnapshot, Tick,
};

fn test_config() -> FleetConfig {
    FleetConfig {
        fleet_name: "test-fleet".into(),
        vessel: None,
        rooms: vec![],
        escalation: EscalationPolicy::default(),
    }
}

fn readings(pairs: &[(&str, f64)]) -> KeyedMap<u64> {
    let mut m = KeyedMap::new();
    for (k, v) in pairs {
        m.insert(k.to_string(), v.to_bits());
    }
    m
}

fn object(key: &str, value: &str) -> serde_json::Value {
    let mut map = serde_json::Map::new();
    map.insert(key.to_string(), serde_json::Value::String(value.to_string()));
    serde_json::Value::Object(map)
}

#[test]
fn create_fleet_manager() {
    let mgr = FleetManager::new(test_config());
    let states = mgr.get_room_states();
    assert!(states.is_empty());
}

#[test]
fn add_and_remove_room() {
    let mut mgr = FleetManager::new(test_config());
    let mock = MockRoomConnection::new("room-a");
    mgr.add_mock_room("room-a", mock);

    assert!(mgr.get_room_states().contains_key("room-a"));
    assert!(mgr.remove_room("room-a"));
    assert!(!mgr.get_room_states().contains_key("room-a"));
}

#[test]
fn broadcast_command() {
    let mut mgr = FleetManager::new(test_config());
    let mut mock_a = MockRoomConnection::new("room-a");
    let mut mock_b = MockRoomConnection::new("room-b");

    mock_a.connect().unwrap();
    mock_b.connect().unwrap();

    mgr.add_mock_room("room-a", mock_a);
    mgr.add_mock_room("room-b", mock_b);

    let results = mgr.broadcast_command("tick");
    assert_eq!(results.len(), 2);
    assert!(results.iter().all(|r| r.is_ok()));
}

#[test]
fn send_command_specific_room() {
    let mut mgr = FleetManager::new(test_config());
    let mut mock = MockRoomConnection::new("room-a");
    mock.connect().unwrap();
    mgr.add_mock_room("room-a", mock);

    let result = mgr.send_command("room-a", "history");
    assert!(result.is_ok());
    assert_eq!(result.unwrap().command, "history");

    let missing = mgr.send_command("nonexistent", "tick");
    assert!(missing.is_err());
}

#[test]
fn get_room_states_snapshot() {
    let mut mgr = FleetManager::new(test_config());
    let mut mock = MockRoomConnection::new("room-a");
    mock.connect().unwrap();
    mgr.add_mock_room("room-a", mock);

    let states = mgr.get_room_states();
    assert_eq!(states.len(), 1);
    assert!(states.get("room-a").unwrap().connected);
}

#[test]
fn health_check_across_rooms() {
    let mut mgr = FleetManager::new(test_config());

    let mut mock_a = MockRoomConnection::new("room-a");
    mock_a.connect().unwrap();
    // Give room-a a tick so it's considered ticking
    let tick = Tick::new("room-a", KeyedMap::new());
    mock_a.enqueue_tick(tick);
    mock_a.next_tick(); // consume to set last_tick

    let mut mock_b = MockRoomConnection::new("room-b");
    mock_b.connect().unwrap();
    mock_b.set_healthy(false);

    mgr.add_mock_room("room-a", mock_a);
    mgr.add_mock_room("room-b", mock_b);

    let health = mgr.get_fleet_health();
    assert_eq!(health.total_rooms, 2);
    assert_eq!(health.rooms_down, 1);
}

#[test]
fn reconnection_handling() {
    let mut mgr = FleetManager::new(test_config());
    let mut mock = MockRoomConnection::new("room-a");
    mock.set_connect_fail(true);
    mgr.add_mock_room("room-a", mock);

    let result = mgr.connect_all();
    assert!(result.is_err());

    // Now remove the failing room, add a working one
    mgr.remove_room("room-a");
    let mut mock2 = MockRoomConnection::new("room-a");
    mock2.connect().unwrap();
    mgr.add_mock_room("room-a", mock2);

    let result = mgr.connect_all();
    assert!(result.is_ok());
}

#[test]
fn fleet_statistics_avg_sensors_total_alarms() {
    let mut mgr = FleetManager::new(test_config());

    let tick = Tick::new("room-a", readings(&[("temp", 20.0)])).with_alarms(vec!["high_temp".into()]);
    mgr.ingest_tick(tick);
    mgr.ingest_tick(Tick::new("room-b", readings(&[("temp", 22.0), ("pressure", 101.0)])));

    let stats = mgr.get_statistics();
    assert_eq!(stats.total_rooms, 2);
    assert_eq!(stats.total_sensors, 3);
    assert_eq!(stats.total_alarms, 1);
}

#[test]
fn full_fleet_lifecycle() {
    let config = FleetConfig::fishing_boat_manifest();
    let mut mgr = FleetManager::new(config);

    // Add mock rooms
    let ids: Vec<String> = mgr.config().rooms.iter().map(|r| r.id.clone()).collect();
    for id in &ids {
        let mut mock = MockRoomConnection::new(id);
        mock.connect().unwrap();
        mock.subscribe().unwrap();

        // Enqueue some ticks
        let tick = Tick::new(id, readings(&[("temperature", 75.0)])).with_alarms(vec![]);
        mock.enqueue_tick(tick);

        mgr.add_mock_room(id, mock);
    }

    // Run fleet
    mgr.run().unwrap();

    // Broadcast command
    let results = mgr.broadcast_command("tick");
    assert_eq!(results.len(), 4);
    assert!(results.iter().all(|r| r.is_ok()));

    // Specific command
    let result = mgr.send_command("engine-room", "history");
    assert!(result.is_ok());

    // Ingest ticks
    let alarm_tick = Tick::new("engine-room", readings(&[("temperature", 95.0)]))
        .with_alarms(vec!["overheat".into()]);
    mgr.ingest_tick(alarm_tick);

    // Check stats
    let stats = mgr.get_statistics();
    assert_eq!(stats.total_rooms, 1);
    assert_eq!(stats.total_alarms, 1);

    // Check health
    let health = mgr.get_fleet_health();
    assert_eq!(health.total_rooms, 4);

    // Get room states
    let states = mgr.get_room_states();
    assert_eq!(states.len(), 4);

    // Remove a room
    assert!(mgr.remove_room("bilge"));
    assert_eq!(mgr.get_room_states().len(), 3);
}

#[test]
fn connect_all_reports_failed_rooms() {
    let mut mgr = FleetManager::new(test_config());
    let mut bad = MockRoomConnection::new("bad");
    bad.set_connect_fail(true);
    mgr.add_mock_room("good", MockRoomConnection::new("good"));
    mgr.add_mock_room("bad", bad);
    mgr.add_room("tcp", ConnectionConfig::new("10.0.0.1", 9090));
    assert_eq!(mgr.connect_all(), Err(vec!["bad: connection refused".to_string()]));
    let states = mgr.get_room_states();
    assert!(states.get("good").unwrap().connected);
    assert!(states.get("tcp").unwrap().connected);
    // The failing room keeps its state: a new mock is healthy but unconnected.
    assert!(states.get("bad").unwrap().connected);
}

#[test]
fn connect_all_lists_connected_rooms_in_order() {
    let mut mgr = FleetManager::new(test_config());
    mgr.add_room("engine", ConnectionConfig::new("10.0.0.1", 9090));
    mgr.add_mock_room("bilge", MockRoomConnection::new("bilge"));
    assert_eq!(mgr.connect_all(), Ok(vec!["engine".to_string(), "bilge".to_string()]));
}

#[test]
fn run_joins_failures() {
    let mut mgr = FleetManager::new(test_config());
    let mut a = MockRoomConnection::new("a");
    a.set_connect_fail(true);
    let mut b = MockRoomConnection::new("b");
    b.set_connect_fail(true);
    mgr.add_mock_room("a", a);
    mgr.add_mock_room("b", b);
    assert_eq!(mgr.run(), Err("a: connection refused, b: connection refused".to_string()));
}

#[test]
fn run_subscribes_every_room() {
    let mut mgr = FleetManager::new(test_config());
    mgr.add_room("tcp", ConnectionConfig::new("10.0.0.1", 9090));
    mgr.add_mock_room("mock", MockRoomConnection::new("mock"));
    assert_eq!(mgr.run(), Ok(()));
    let results = mgr.broadcast_command("ping");
    assert!(results.iter().all(|r| r.is_ok()));
    assert!(mgr.subscribe_all().iter().all(|r| r.is_ok()));
}

#[test]
fn send_command_errors() {
    let mut mgr = FleetManager::new(test_config());
    mgr.add_mock_room("idle", MockRoomConnection::new("idle"));
    match mgr.send_command("nowhere", "tick") {
        Err(e) => assert_eq!(e, "room 'nowhere' not found"),
        Ok(_) => panic!("expected an error"),
    }
    match mgr.send_command("idle", "tick") {
        Err(e) => assert_eq!(e, "not connected"),
        Ok(_) => panic!("expected an error"),
    }
    let results = mgr.subscribe_all();
    assert_eq!(results, vec![Err("not connected".to_string())]);
}

#[test]
fn echo_and_canned_responses() {
    let mut mock = MockRoomConnection::new("engine");
    mock.connect().unwrap();
    mock.enqueue_response("status".to_string(), Response::error("engine", "status", "sensor fault"));
    let echo = mock.send("tick").unwrap();
    assert_eq!(echo.room_id, "engine");
    assert_eq!(echo.command, "tick");
    assert_eq!(echo.status, "ok");
    assert_eq!(echo.data, object("echo", "tick"));
    let canned = mock.send("status").unwrap();
    assert_eq!(canned.status, "error");
    assert_eq!(canned.data, object("error", "sensor fault"));
}

#[test]
fn response_constructors() {
    let ok = Response::ok("r", "c", object("k", "v"));
    assert_eq!(ok.status, "ok");
    assert_eq!(ok.data, object("k", "v"));
    let err = Response::error("r", "c", "boom");
    assert_eq!(err.status, "error");
    assert_eq!(err.data, object("error", "boom"));
    assert_ne!(err.data, object("error", "bang"));
}

#[test]
fn tcp_connection_lifecycle() {
    let mut conn = RoomConnection::new("engine", "192.168.1.10", 9090);
    assert_eq!(conn.host(), "192.168.1.10");
    assert_eq!(conn.port(), 9090);
    assert!(!conn.is_healthy());
    assert_eq!(conn.send("tick").err(), Some("not connected".to_string()));
    assert_eq!(conn.subscribe(), Err("not connected".to_string()));
    assert_eq!(conn.connect(), Ok(()));
    assert!(conn.is_healthy());
    assert_eq!(conn.subscribe(), Ok(()));
    assert!(conn.is_subscribed());
    assert_eq!(conn.unsubscribe(), Ok(()));
    assert!(!conn.is_subscribed());
    assert!(conn.next_tick().is_none());
    assert!(conn.last_tick().is_none());
    assert_eq!(conn.room_id(), "engine");
    let reply = conn.send("tick").unwrap();
    assert_eq!(reply.data, object("echo", "tick"));
}

#[test]
fn mock_ticks_come_out_newest_first() {
    let mut mock = MockRoomConnection::new("a");
    mock.enqueue_tick(Tick::new("a", KeyedMap::new()).at(1));
    mock.enqueue_tick(Tick::new("a", KeyedMap::new()).at(2));
    assert_eq!(mock.next_tick().unwrap().timestamp, 2);
    assert_eq!(mock.last_tick().unwrap().timestamp, 2);
    assert_eq!(mock.next_tick().unwrap().timestamp, 1);
    assert!(mock.next_tick().is_none());
    assert_eq!(mock.last_tick().unwrap().timestamp, 1);
}

#[test]
fn health_at_fixed_time() {
    let mut mgr = FleetManager::new(test_config());
    let mut a = MockRoomConnection::new("a");
    a.enqueue_tick(Tick::new("a", KeyedMap::new()).at(1_000).with_alarms(vec!["x".into()]));
    a.next_tick();
    mgr.add_mock_room("a", a);
    let mut b = MockRoomConnection::new("b");
    b.set_healthy(false);
    mgr.add_mock_room("b", b);
    let health = mgr.get_fleet_health_at(2_000);
    assert_eq!(health.total_rooms, 2);
    assert_eq!(health.rooms_down, 1);
    assert_eq!(health.rooms_with_alarms, 1);
    assert_eq!(health.healthy_rooms, 0);
    assert_eq!(health.status, HealthStatus::Yellow);
    let a = health.details.get("a").unwrap();
    assert_eq!(f64::from_bits(a.uptime_percentage), 100.0);
    assert_eq!(a.alarm_count, 1);
    let b = health.details.get("b").unwrap();
    assert_eq!(f64::from_bits(b.uptime_percentage), 0.0);
    let states = mgr.get_room_states();
    assert_eq!(states.get("a").unwrap().alarm_count, 1);
    assert_eq!(states.get("a").unwrap().id, "a");
}

#[test]
fn re_adding_a_room_replaces_it_in_place() {
    let mut mgr = FleetManager::new(test_config());
    mgr.add_mock_room("a", MockRoomConnection::new("a"));
    mgr.add_mock_room("b", MockRoomConnection::new("b"));
    let mut fresh = MockRoomConnection::new("a");
    fresh.set_healthy(false);
    mgr.add_mock_room("a", fresh);
    let states = mgr.get_room_states();
    assert_eq!(states.len(), 2);
    assert_eq!(states.key_at(0), "a");
    assert!(!states.get("a").unwrap().connected);
    assert!(!mgr.remove_room("zzz"));
}

#[test]
fn fleet_health_matches_a_new_monitor() {
    let second: i64 = 1_000_000_000;
    let mut mgr = FleetManager::new(test_config());
    let mut a = MockRoomConnection::new("a");
    a.enqueue_tick(Tick::new("a", KeyedMap::new()).at(10 * second));
    a.next_tick();
    mgr.add_mock_room("a", a);
    let mut b = MockRoomConnection::new("b");
    b.enqueue_tick(Tick::new("b", KeyedMap::new()).at(second).with_alarms(vec!["x".into()]));
    b.next_tick();
    mgr.add_mock_room("b", b);
    let mut snaps = KeyedMap::new();
    snaps.insert("a".into(), RoomStateSnapshot {
        connected: true,
        last_tick_time: Some(10 * second),
        alarm_count: 0,
        uptime_percentage: 100.0f64.to_bits(),
    });
    snaps.insert("b".into(), RoomStateSnapshot {
        connected: true,
        last_tick_time: Some(second),
        alarm_count: 1,
        uptime_percentage: 100.0f64.to_bits(),
    });
    let now = 35 * second;
    let mine = mgr.get_fleet_health_at(now);
    let fresh = FleetMonitor::new().compute_health_at(&snaps, now);
    assert_eq!(mine.status, fresh.status);
    assert_eq!(mine.status, HealthStatus::Yellow);
    assert_eq!(mine.rooms_down, fresh.rooms_down);
    assert_eq!(mine.rooms_down, 1);
    assert_eq!(mine.healthy_rooms, fresh.healthy_rooms);
    assert_eq!(mine.rooms_with_alarms, fresh.rooms_with_alarms);
    assert_eq!(mine.details.get("b").unwrap().ticking, fresh.details.get("b").unwrap().ticking);
}

#[test]
fn removing_a_room_keeps_the_others() {
    let mut mgr = FleetManager::new(test_config());
    mgr.add_mock_room("a", MockRoomConnection::new("a"));
    let mut b = MockRoomConnection::new("b");
    b.set_healthy(false);
    mgr.add_mock_room("b", b);
    mgr.add_mock_room("c", MockRoomConnection::new("c"));
    assert!(mgr.remove_room("a"));
    assert!(!mgr.remove_room("a"));
    let states = mgr.get_room_states();
    assert_eq!(states.len(), 2);
    assert_eq!(states.key_at(0), "b");
    assert!(!states.get("b").unwrap().connected);
    assert!(states.get("c").unwrap().connected);
    assert!(states.get("a").is_none());
}
