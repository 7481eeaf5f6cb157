//! The fleet manifest: rooms, their connection parameters and escalation
//! policies, and the manifest's validation rules.

use vstd::prelude::*;
use vstd::string::*;

verus! {

/// Connection parameters for a room.
#[derive(Debug, Clone, PartialEq)]
pub struct ConnectionConfig {
    pub host: String,
    pub port: u16,
    pub timeout_secs: u64,
    pub reconnect_interval_secs: u64,
}

/// The timeout, in seconds, of a connection whose manifest gives none.
fn default_timeout() -> (t: u64)
    ensures
        t == 30,
{
    30
}

/// The reconnect interval, in seconds, of a connection whose manifest gives none.
fn default_reconnect() -> (t: u64)
    ensures
        t == 5,
{
    5
}

impl ConnectionConfig {
    /// Connection parameters for `host:port` with the default timeout (30 s)
    /// and reconnect interval (5 s).
    pub fn new(host: &str, port: u16) -> (c: Self)
        ensures
            c.host@ == host@,
            c.port == port,
            c.timeout_secs == 30,
            c.reconnect_interval_secs == 5,
    {
        ConnectionConfig {
            host: host.to_owned(),
            port,
            timeout_secs: default_timeout(),
            reconnect_interval_secs: default_reconnect(),
        }
    }
}

/// Escalation policy for alarms.
#[derive(Debug, Clone, PartialEq)]
pub struct EscalationPolicy {
    pub notify_channels: Vec<String>,
    pub auto_acknowledge_after_secs: Option<u64>,
    pub critical_threshold: u32,
}

/// Whether `e` notifies exactly `channels`, never auto-acknowledges, and has
/// the critical threshold `threshold`.
pub open spec fn escalation_is(e: EscalationPolicy, channels: Seq<Seq<char>>, threshold: u32) -> bool {
    &&& e.notify_channels.deep_view() == channels
    &&& e.auto_acknowledge_after_secs is None
    &&& e.critical_threshold == threshold
}

impl Default for EscalationPolicy {
    /// The default policy: notify the bridge, no auto-acknowledgement,
    /// critical threshold 3.
    fn default() -> (e: Self)
        ensures
            escalation_is(e, seq!["bridge"@], 3),
    {
        let mut channels: Vec<String> = Vec::new();
        channels.push("bridge".to_owned());
        let e = EscalationPolicy {
            notify_channels: channels,
            auto_acknowledge_after_secs: None,
            critical_threshold: 3,
        };
        assert(e.notify_channels.deep_view() =~= seq!["bridge"@]);
        e
    }
}

/// Manifest for a single room in the fleet.
#[derive(Debug, Clone, PartialEq)]
pub struct RoomManifest {
    pub id: String,
    pub name: String,
    pub connection: ConnectionConfig,
    pub tags: Vec<String>,
    pub escalation: EscalationPolicy,
}

/// Fleet configuration loaded from a manifest.
#[derive(Debug, Clone, PartialEq)]
pub struct FleetConfig {
    pub fleet_name: String,
    pub vessel: Option<String>,
    pub rooms: Vec<RoomManifest>,
    pub escalation: EscalationPolicy,
}

/// Whether room `j` of `rooms` repeats the id of an earlier room.
pub open spec fn repeats_earlier_id(rooms: Seq<RoomManifest>, j: int) -> bool {
    exists|i: int| 0 <= i < j && #[trigger] rooms[i].id@ == rooms[j].id@
}

/// Whether `j` is the first room of `rooms` that repeats an earlier id.
pub open spec fn is_first_repeat(rooms: Seq<RoomManifest>, j: int) -> bool {
    &&& 0 <= j < rooms.len()
    &&& repeats_earlier_id(rooms, j)
    &&& forall|k: int| 0 <= k < j ==> !#[trigger] repeats_earlier_id(rooms, k)
}

/// The message for a room id shared by rooms named `first` and `second`.
pub open spec fn duplicate_message(id: Seq<char>, first: Seq<char>, second: Seq<char>) -> Seq<char> {
    "duplicate room id '"@ + id + "': '"@ + first + "' and '"@ + second + "'"@
}

/// What is wrong with room `r` on its own, if anything: an empty name, then
/// a connection without a host, on port 0, or with a zero timeout.
pub open spec fn room_problem(r: RoomManifest) -> Option<Seq<char>> {
    if r.name@.len() == 0 {
        Some("room '"@ + r.id@ + "' has an empty name"@)
    } else if r.connection.host@.len() == 0 {
        Some("room '"@ + r.id@ + "' has an empty host"@)
    } else if r.connection.port == 0 {
        Some("room '"@ + r.id@ + "' has port 0"@)
    } else if r.connection.timeout_secs == 0 {
        Some("room '"@ + r.id@ + "' has a zero timeout"@)
    } else {
        None
    }
}

/// Whether room `r` has a name and usable connection parameters.
pub open spec fn room_is_sound(r: RoomManifest) -> bool {
    &&& r.name@.len() > 0
    &&& r.connection.host@.len() > 0
    &&& r.connection.port != 0
    &&& r.connection.timeout_secs > 0
}

/// The problem of the first room of `rooms` that has one, if any.
pub open spec fn first_room_problem(rooms: Seq<RoomManifest>) -> Option<Seq<char>>
    decreases rooms.len(),
{
    if rooms.len() == 0 {
        None
    } else {
        match first_room_problem(rooms.drop_last()) {
            Some(e) => Some(e),
            None => room_problem(rooms.last()),
        }
    }
}

/// Why a manifest is invalid, if it is: the first room id that repeats an
/// earlier one (named with both rooms), else an empty fleet name, else the
/// first room with an empty name or unusable connection parameters.
pub open spec fn validation_error(c: FleetConfig) -> Option<Seq<char>> {
    let rooms = c.rooms@;
    if exists|j: int| is_first_repeat(rooms, j) {
        let j = choose|j: int| is_first_repeat(rooms, j);
        let i = choose|i: int| 0 <= i < j && #[trigger] rooms[i].id@ == rooms[j].id@;
        Some(duplicate_message(rooms[j].id@, rooms[i].name@, rooms[j].name@))
    } else if c.fleet_name@.len() == 0 {
        Some("fleet_name cannot be empty"@)
    } else {
        first_room_problem(rooms)
    }
}

/// Whether `r` is a room with the given id, name and host on port 9090 with
/// the default connection timings, the given tags, and an escalation policy
/// that notifies `channels` at critical threshold `threshold`.
pub open spec fn room_is(
    r: RoomManifest,
    id: Seq<char>,
    name: Seq<char>,
    host: Seq<char>,
    tags: Seq<Seq<char>>,
    channels: Seq<Seq<char>>,
    threshold: u32,
) -> bool {
    &&& r.id@ == id
    &&& r.name@ == name
    &&& r.connection.host@ == host
    &&& r.connection.port == 9090
    &&& r.connection.timeout_secs == 30
    &&& r.connection.reconnect_interval_secs == 5
    &&& r.tags.deep_view() == tags
    &&& escalation_is(r.escalation, channels, threshold)
}

/// The manifest of the fishing vessel Northern Star.
pub open spec fn is_fishing_boat_manifest(c: FleetConfig) -> bool {
    &&& c.fleet_name@ == "Fishing Vessel Northern Star"@
    &&& c.vessel is Some
    &&& c.vessel.unwrap()@ == "MMSI-123456789"@
    &&& c.rooms@.len() == 4
    &&& room_is(
        c.rooms@[0],
        "engine-room"@,
        "Main Engine Room"@,
        "192.168.1.10"@,
        seq!["critical"@, "engine"@],
        seq!["bridge"@, "engineer"@],
        2,
    )
    &&& room_is(
        c.rooms@[1],
        "bridge"@,
        "Bridge Systems"@,
        "192.168.1.20"@,
        seq!["critical"@, "navigation"@],
        seq!["captain"@],
        1,
    )
    &&& room_is(
        c.rooms@[2],
        "bilge"@,
        "Bilge Monitoring"@,
        "192.168.1.30"@,
        seq!["safety"@],
        seq!["bridge"@, "engineer"@],
        2,
    )
    &&& room_is(
        c.rooms@[3],
        "cargo-hold"@,
        "Cargo Hold"@,
        "192.168.1.40"@,
        seq!["cargo"@],
        seq!["bridge"@],
        3,
    )
    &&& escalation_is(c.escalation, seq!["bridge"@], 3)
}

/// The list holding the one string `a`.
fn one_string(a: &str) -> (v: Vec<String>)
    ensures
        v.deep_view() == seq![a@],
{
    let mut v: Vec<String> = Vec::new();
    v.push(a.to_owned());
    assert(v.deep_view() =~= seq![a@]);
    v
}

/// The list holding the strings `a` and `b`, in that order.
fn two_strings(a: &str, b: &str) -> (v: Vec<String>)
    ensures
        v.deep_view() == seq![a@, b@],
{
    let mut v: Vec<String> = Vec::new();
    v.push(a.to_owned());
    v.push(b.to_owned());
    assert(v.deep_view() =~= seq![a@, b@]);
    v
}

/// A room on port 9090 with default connection timings and a policy that
/// never auto-acknowledges.
fn vessel_room(
    id: &str,
    name: &str,
    host: &str,
    tags: Vec<String>,
    channels: Vec<String>,
    threshold: u32,
) -> (r: RoomManifest)
    ensures
        room_is(r, id@, name@, host@, tags.deep_view(), channels.deep_view(), threshold),
{
    RoomManifest {
        id: id.to_owned(),
        name: name.to_owned(),
        connection: ConnectionConfig::new(host, 9090),
        tags,
        escalation: EscalationPolicy {
            notify_channels: channels,
            auto_acknowledge_after_secs: None,
            critical_threshold: threshold,
        },
    }
}

impl FleetConfig {
    /// Checks that all room ids are unique, that the fleet has a name, and
    /// that every room has a name and usable connection parameters (a host, a
    /// port other than 0, a timeout above 0). The first room whose id repeats
    /// an earlier one is reported, naming both rooms; otherwise an empty fleet
    /// name; otherwise the first room with a problem of its own.
    pub fn validate(&self) -> (r: Result<(), String>)
        ensures
            r is Ok <==> validation_error(*self) is None,
            r matches Err(e) ==> validation_error(*self) == Some(e@),
    {
        let n = self.rooms.len();
        let ghost rooms = self.rooms@;
        let mut j: usize = 0;
        while j < n
            invariant
                n == rooms.len(),
                rooms == self.rooms@,
                j <= n,
                forall|k: int| 0 <= k < j ==> !#[trigger] repeats_earlier_id(rooms, k),
            decreases n - j,
        {
            let mut i: usize = 0;
            while i < j
                invariant
                    n == rooms.len(),
                    rooms == self.rooms@,
                    i <= j < n,
                    forall|k: int| 0 <= k < j ==> !#[trigger] repeats_earlier_id(rooms, k),
                    forall|k: int| 0 <= k < i ==> rooms[k].id@ != rooms[j as int].id@,
                decreases j - i,
            {
                if self.rooms[i].id == self.rooms[j].id {
                    let mut msg = "duplicate room id '".to_owned();
                    msg.append(self.rooms[j].id.as_str());
                    msg.append("': '");
                    msg.append(self.rooms[i].name.as_str());
                    msg.append("' and '");
                    msg.append(self.rooms[j].name.as_str());
                    msg.append("'");
                    proof {
                        assert(is_first_repeat(rooms, j as int));
                        let jj = choose|jj: int| is_first_repeat(rooms, jj);
                        if jj < j {
                            assert(repeats_earlier_id(rooms, jj));
                        } else if jj > j {
                            assert(!repeats_earlier_id(rooms, j as int));
                        }
                        let ii = choose|ii: int| 0 <= ii < j && #[trigger] rooms[ii].id@ == rooms[j as int].id@;
                        if ii > i {
                            assert(rooms[i as int].id@ == rooms[ii].id@);
                            assert(repeats_earlier_id(rooms, ii));
                        }
                        assert(msg@ =~= duplicate_message(rooms[j as int].id@, rooms[i as int].name@, rooms[j as int].name@));
                    }
                    return Err(msg);
                }
                i = i + 1;
            }
            j = j + 1;
        }
        proof {
            if exists|jj: int| is_first_repeat(rooms, jj) {
                let jj = choose|jj: int| is_first_repeat(rooms, jj);
                assert(!repeats_earlier_id(rooms, jj));
            }
        }
        if self.fleet_name.as_str().is_empty() {
            return Err("fleet_name cannot be empty".to_owned());
        }
        let mut k: usize = 0;
        while k < n
            invariant
                n == rooms.len(),
                rooms == self.rooms@,
                k <= n,
                first_room_problem(rooms.take(k as int)) is None,
                !(exists|jj: int| is_first_repeat(rooms, jj)),
                self.fleet_name@.len() > 0,
            decreases n - k,
        {
            proof {
                assert(rooms.take(k + 1).drop_last() =~= rooms.take(k as int));
            }
            let problem = Self::check_room(&self.rooms[k]);
            if let Some(e) = problem {
                proof {
                    assert(rooms.take(k + 1).last() == rooms[k as int]);
                    assert(first_room_problem(rooms.take(k + 1)) == Some(e@));
                    lemma_first_problem_prefix(rooms, k as int + 1);
                }
                return Err(e);
            }
            k = k + 1;
        }
        proof {
            assert(rooms.take(n as int) =~= rooms);
        }
        Ok(())
    }

    /// What is wrong with one room on its own, if anything.
    fn check_room(r: &RoomManifest) -> (e: Option<String>)
        ensures
            match e {
                Some(m) => room_problem(*r) == Some(m@),
                None => room_problem(*r) is None,
            },
    {
        let problem: Option<&str> = if r.name.as_str().is_empty() {
            Some("' has an empty name")
        } else if r.connection.host.as_str().is_empty() {
            Some("' has an empty host")
        } else if r.connection.port == 0 {
            Some("' has port 0")
        } else if r.connection.timeout_secs == 0 {
            Some("' has a zero timeout")
        } else {
            None
        };
        match problem {
            Some(tail) => {
                let mut msg = "room '".to_owned();
                msg.append(r.id.as_str());
                msg.append(tail);
                Some(msg)
            },
            None => None,
        }
    }

    /// The manifest of the first room with id `id`, if any.
    pub fn get_room(&self, id: &str) -> (r: Option<&RoomManifest>)
        ensures
            match r {
                Some(m) => exists|k: int|
                    0 <= k < self.rooms@.len() && *m == #[trigger] self.rooms@[k] && m.id@ == id@
                        && forall|i: int| 0 <= i < k ==> self.rooms@[i].id@ != id@,
                None => forall|i: int| 0 <= i < self.rooms@.len() ==> #[trigger] self.rooms@[i].id@ != id@,
            },
    {
        let key = id.to_owned();
        let n = self.rooms.len();
        let mut i: usize = 0;
        while i < n
            invariant
                n == self.rooms@.len(),
                i <= n,
                key@ == id@,
                forall|k: int| 0 <= k < i ==> self.rooms@[k].id@ != id@,
            decreases n - i,
        {
            if self.rooms[i].id == key {
                return Some(&self.rooms[i]);
            }
            i = i + 1;
        }
        None
    }

    /// The manifest of the fishing vessel Northern Star: four rooms (engine
    /// room, bridge, bilge, cargo hold) on port 9090.
    pub fn fishing_boat_manifest() -> (c: Self)
        ensures
            is_fishing_boat_manifest(c),
    {
        let mut rooms: Vec<RoomManifest> = Vec::new();
        rooms.push(
            vessel_room(
                "engine-room",
                "Main Engine Room",
                "192.168.1.10",
                two_strings("critical", "engine"),
                two_strings("bridge", "engineer"),
                2,
            ),
        );
        rooms.push(
            vessel_room(
                "bridge",
                "Bridge Systems",
                "192.168.1.20",
                two_strings("critical", "navigation"),
                one_string("captain"),
                1,
            ),
        );
        rooms.push(
            vessel_room(
                "bilge",
                "Bilge Monitoring",
                "192.168.1.30",
                one_string("safety"),
                two_strings("bridge", "engineer"),
                2,
            ),
        );
        rooms.push(
            vessel_room(
                "cargo-hold",
                "Cargo Hold",
                "192.168.1.40",
                one_string("cargo"),
                one_string("bridge"),
                3,
            ),
        );
        let c = FleetConfig {
            fleet_name: "Fishing Vessel Northern Star".to_owned(),
            vessel: Some("MMSI-123456789".to_owned()),
            rooms,
            escalation: EscalationPolicy::default(),
        };
        c
    }
}

/// A manifest validates exactly when its room ids are all different, its
/// fleet name is not empty, and every room has a name, a host, a port other
/// than 0 and a timeout above 0.
pub proof fn law_valid_manifest(c: FleetConfig)
    ensures
        (validation_error(c) is None) <==> ((forall|i: int, j: int|
            0 <= i < j < c.rooms@.len() ==> #[trigger] c.rooms@[i].id@ != #[trigger] c.rooms@[j].id@)
            && c.fleet_name@.len() > 0
            && forall|i: int| 0 <= i < c.rooms@.len() ==> room_is_sound(#[trigger] c.rooms@[i])),
{
    let rooms = c.rooms@;
    lemma_no_room_problem(rooms);
    if exists|i: int, j: int| 0 <= i < j < rooms.len() && #[trigger] rooms[i].id@ == #[trigger] rooms[j].id@ {
        let (i, j) = choose|i: int, j: int| 0 <= i < j < rooms.len() && #[trigger] rooms[i].id@ == #[trigger] rooms[j].id@;
        assert(repeats_earlier_id(rooms, j));
        lemma_first_repeat_exists(rooms, j);
    } else {
        if exists|j: int| is_first_repeat(rooms, j) {
            let j = choose|j: int| is_first_repeat(rooms, j);
            let i = choose|i: int| 0 <= i < j && #[trigger] rooms[i].id@ == rooms[j].id@;
            assert(rooms[i].id@ == rooms[j].id@);
        }
    }
}

/// Once a prefix of the rooms has a problem, every longer prefix reports
/// that same problem.
pub proof fn lemma_first_problem_prefix(rooms: Seq<RoomManifest>, k: int)
    requires
        0 <= k <= rooms.len(),
        first_room_problem(rooms.take(k)) is Some,
    ensures
        first_room_problem(rooms) == first_room_problem(rooms.take(k)),
    decreases rooms.len() - k,
{
    if k < rooms.len() {
        assert(rooms.take(k + 1).drop_last() =~= rooms.take(k));
        lemma_first_problem_prefix(rooms, k + 1);
    } else {
        assert(rooms.take(k) =~= rooms);
    }
}

/// No room of `rooms` has a problem exactly when every room is sound.
pub proof fn lemma_no_room_problem(rooms: Seq<RoomManifest>)
    ensures
        (first_room_problem(rooms) is None) <==> (forall|i: int|
            0 <= i < rooms.len() ==> room_is_sound(#[trigger] rooms[i])),
    decreases rooms.len(),
{
    if rooms.len() > 0 {
        let init = rooms.drop_last();
        lemma_no_room_problem(init);
        if first_room_problem(rooms) is None {
            assert forall|i: int| 0 <= i < rooms.len() implies room_is_sound(#[trigger] rooms[i]) by {
                if i < init.len() {
                    assert(init[i] == rooms[i]);
                }
            }
        } else if forall|i: int| 0 <= i < rooms.len() ==> room_is_sound(#[trigger] rooms[i]) {
            assert forall|i: int| 0 <= i < init.len() implies room_is_sound(#[trigger] init[i]) by {
                assert(init[i] == rooms[i]);
            }
            assert(room_is_sound(rooms[rooms.len() - 1]));
        }
    }
}

/// When some room repeats an earlier id, a first such room exists.
pub proof fn lemma_first_repeat_exists(rooms: Seq<RoomManifest>, j: int)
    requires
        0 <= j < rooms.len(),
        repeats_earlier_id(rooms, j),
    ensures
        exists|k: int| is_first_repeat(rooms, k),
    decreases j,
{
    if exists|k: int| 0 <= k < j && #[trigger] repeats_earlier_id(rooms, k) {
        let k = choose|k: int| 0 <= k < j && #[trigger] repeats_earlier_id(rooms, k);
        lemma_first_repeat_exists(rooms, k);
    } else {
        assert(is_first_repeat(rooms, j));
    }
}

} // verus!
