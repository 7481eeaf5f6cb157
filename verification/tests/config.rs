use plato_fleet_manager::{ConnectionConfig, EscalationPolicy, FleetConfig, RoomManifest};

#[test]
fn parse_manifest_json() {
    let config = FleetConfig::fishing_boat_manifest();
    assert_eq!(config.fleet_name, "Fishing Vessel Northern Star");
    assert_eq!(config.rooms.len(), 4);
    assert_eq!(config.rooms[0].id, "engine-room");
    assert_eq!(config.rooms[1].connection.host, "192.168.1.20");
}

#[test]
fn validate_room_references() {
    let mut config = FleetConfig::fishing_boat_manifest();
    assert!(config.validate().is_ok());

    // Duplicate IDs should fail
    config.rooms.push(config.rooms[0].clone());
    assert!(config.validate().is_err());
}

#[test]
fn load_fishing_boat_manifest() {
    let config = FleetConfig::fishing_boat_manifest();
    assert!(config.validate().is_ok());
    assert_eq!(config.vessel, Some("MMSI-123456789".into()));
    assert_eq!(config.rooms[0].tags, vec!["critical", "engine"]);
}

#[test]
fn empty_fleet_name_fails_validation() {
    let config = FleetConfig {
        fleet_name: "".into(),
        vessel: None,
        rooms: vec![],
        escalation: EscalationPolicy::default(),
    };
    assert!(config.validate().is_err());
}

#[test]
fn get_room_by_id() {
    let config = FleetConfig::fishing_boat_manifest();
    assert!(config.get_room("bridge").is_some());
    assert!(config.get_room("nonexistent").is_none());
    assert_eq!(config.get_room("bilge").unwrap().name, "Bilge Monitoring");
}

#[test]
fn escalation_defaults() {
    let policy = EscalationPolicy::default();
    assert_eq!(policy.notify_channels, vec!["bridge"]);
    assert_eq!(policy.critical_threshold, 3);
}

#[test]
fn connection_config_defaults() {
    let cc = ConnectionConfig::new("localhost", 8080);
    assert_eq!(cc.timeout_secs, 30);
    assert_eq!(cc.reconnect_interval_secs, 5);
}

#[test]
fn duplicate_id_message_names_both_rooms() {
    let mut config = FleetConfig::fishing_boat_manifest();
    let mut copy = config.rooms[2].clone();
    copy.name = "Aft Bilge".into();
    config.rooms.push(copy);
    assert_eq!(
        config.validate(),
        Err("duplicate room id 'bilge': 'Bilge Monitoring' and 'Aft Bilge'".to_string())
    );
}

#[test]
fn first_repeated_id_is_reported() {
    let mut config = FleetConfig::fishing_boat_manifest();
    let mut bridge = config.rooms[1].clone();
    bridge.name = "Second Bridge".into();
    let mut engine = config.rooms[0].clone();
    engine.name = "Second Engine".into();
    config.rooms.push(bridge);
    config.rooms.push(engine);
    config.fleet_name = String::new();
    assert_eq!(
        config.validate(),
        Err("duplicate room id 'bridge': 'Bridge Systems' and 'Second Bridge'".to_string())
    );
}

#[test]
fn empty_fleet_name_message() {
    let config = FleetConfig {
        fleet_name: String::new(),
        vessel: None,
        rooms: vec![],
        escalation: EscalationPolicy::default(),
    };
    assert_eq!(config.validate(), Err("fleet_name cannot be empty".to_string()));
}

#[test]
fn get_room_returns_first_match() {
    let mut config = FleetConfig::fishing_boat_manifest();
    let mut copy = config.rooms[0].clone();
    copy.name = "Shadow".into();
    config.rooms.push(copy);
    assert_eq!(config.get_room("engine-room").unwrap().name, "Main Engine Room");
}

#[test]
fn fishing_boat_manifest_details() {
    let config = FleetConfig::fishing_boat_manifest();
    let cargo = config.get_room("cargo-hold").unwrap();
    assert_eq!(cargo.connection.port, 9090);
    assert_eq!(cargo.connection.timeout_secs, 30);
    assert_eq!(cargo.connection.reconnect_interval_secs, 5);
    assert_eq!(cargo.escalation.notify_channels, vec!["bridge"]);
    assert_eq!(cargo.escalation.critical_threshold, 3);
    assert_eq!(cargo.escalation.auto_acknowledge_after_secs, None);
    let bridge = config.get_room("bridge").unwrap();
    assert_eq!(bridge.escalation.notify_channels, vec!["captain"]);
    assert_eq!(bridge.escalation.critical_threshold, 1);
    assert_eq!(config.escalation.notify_channels, vec!["bridge"]);
    assert_eq!(config.escalation.critical_threshold, 3);
}

#[test]
fn empty_room_name_fails_validation() {
    let config = FleetConfig {
        fleet_name: "f".into(),
        vessel: None,
        rooms: vec![RoomManifest {
            id: "a".into(),
            name: "".into(),
            connection: ConnectionConfig::new("h", 1),
            tags: vec![],
            escalation: EscalationPolicy::default(),
        }],
        escalation: EscalationPolicy::default(),
    };
    assert_eq!(config.validate(), Err("room 'a' has an empty name".to_string()));
}

#[test]
fn connection_parameters_are_checked() {
    let mut config = FleetConfig::fishing_boat_manifest();
    config.rooms[2].connection.host = String::new();
    assert_eq!(config.validate(), Err("room 'bilge' has an empty host".to_string()));
    let mut config = FleetConfig::fishing_boat_manifest();
    config.rooms[1].connection.port = 0;
    assert_eq!(config.validate(), Err("room 'bridge' has port 0".to_string()));
    let mut config = FleetConfig::fishing_boat_manifest();
    config.rooms[3].connection.timeout_secs = 0;
    assert_eq!(config.validate(), Err("room 'cargo-hold' has a zero timeout".to_string()));
    // A zero reconnect interval means reconnecting at once, which is allowed.
    let mut config = FleetConfig::fishing_boat_manifest();
    config.rooms[0].connection.reconnect_interval_secs = 0;
    assert_eq!(config.validate(), Ok(()));
}

#[test]
fn first_room_problem_is_reported_after_fleet_checks() {
    let mut config = FleetConfig::fishing_boat_manifest();
    config.rooms[3].name = String::new();
    config.rooms[1].connection.port = 0;
    assert_eq!(config.validate(), Err("room 'bridge' has port 0".to_string()));
    config.fleet_name = String::new();
    assert_eq!(config.validate(), Err("fleet_name cannot be empty".to_string()));
}
