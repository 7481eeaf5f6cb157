//! Ticks, command responses and the links to single rooms.

use vstd::prelude::*;
use vstd::string::*;
use crate::clock::now_nanos;
use crate::json::{copy_json, single_string_object, string_object};
use crate::keyed_map::{Duplicate, KeyedMap, lookup, inserted};

verus! {

/// A single sensor tick from a room.
#[derive(Debug, Clone)]
pub struct Tick {
    pub room_id: String,
    /// Nanoseconds since the Unix epoch.
    pub timestamp: i64,
    /// Sensor readings by sensor name, each the binary64 encoding of the reading.
    pub sensors: KeyedMap<u64>,
    pub alarms: Vec<String>,
}

/// The abstract value of a tick.
pub struct TickView {
    pub room_id: Seq<char>,
    pub timestamp: i64,
    pub sensors: Seq<(Seq<char>, u64)>,
    pub alarms: Seq<Seq<char>>,
}

impl View for Tick {
    type V = TickView;

    open spec fn view(&self) -> TickView {
        TickView {
            room_id: self.room_id@,
            timestamp: self.timestamp,
            sensors: self.sensors@,
            alarms: self.alarms.deep_view(),
        }
    }
}

impl DeepView for Tick {
    type V = TickView;

    open spec fn deep_view(&self) -> TickView {
        self@
    }
}

/// A copy of a list of strings.
fn copy_strings(v: &Vec<String>) -> (r: Vec<String>)
    ensures
        r.deep_view() == v.deep_view(),
{
    let mut r: Vec<String> = Vec::new();
    let mut i: usize = 0;
    while i < v.len()
        invariant
            i <= v@.len(),
            r@.len() == i,
            forall|k: int| 0 <= k < i ==> (#[trigger] r@[k])@ == v@[k]@,
        decreases v@.len() - i,
    {
        r.push(v[i].clone());
        i = i + 1;
    }
    assert(r.deep_view() =~= v.deep_view());
    r
}

impl Duplicate for Tick {
    fn duplicate(&self) -> (r: Tick) {
        Tick {
            room_id: self.room_id.clone(),
            timestamp: self.timestamp,
            sensors: self.sensors.duplicate_map(),
            alarms: copy_strings(&self.alarms),
        }
    }
}

impl Tick {
    /// A tick from `room_id` with the given readings, stamped with the current
    /// time and without alarms.
    pub fn new(room_id: &str, sensors: KeyedMap<u64>) -> (t: Self)
        ensures
            t@.room_id == room_id@,
            t@.sensors == sensors@,
            t@.alarms.len() == 0,
    {
        let t = Tick {
            room_id: room_id.to_owned(),
            timestamp: now_nanos(),
            sensors,
            alarms: Vec::new(),
        };
        assert(t@.alarms =~= Seq::<Seq<char>>::empty());
        t
    }

    /// The same tick carrying `alarms`.
    pub fn with_alarms(self, alarms: Vec<String>) -> (t: Self)
        ensures
            t@ == (TickView { alarms: alarms.deep_view(), ..self@ }),
    {
        Tick { alarms, ..self }
    }

    /// The same tick stamped at `ts` (nanoseconds since the epoch).
    pub fn at(self, ts: i64) -> (t: Self)
        ensures
            t@ == (TickView { timestamp: ts, ..self@ }),
    {
        Tick { timestamp: ts, ..self }
    }
}

/// Response from a room command.
#[derive(Debug)]
pub struct Response {
    pub room_id: String,
    pub command: String,
    pub status: String,
    pub data: serde_json::Value,
}

/// The abstract value of a response.
pub struct ResponseView {
    pub room_id: Seq<char>,
    pub command: Seq<char>,
    pub status: Seq<char>,
    pub data: serde_json::Value,
}

impl View for Response {
    type V = ResponseView;

    open spec fn view(&self) -> ResponseView {
        ResponseView {
            room_id: self.room_id@,
            command: self.command@,
            status: self.status@,
            data: self.data,
        }
    }
}

impl DeepView for Response {
    type V = ResponseView;

    open spec fn deep_view(&self) -> ResponseView {
        self@
    }
}

impl Clone for Response {
    fn clone(&self) -> (r: Response)
        ensures
            r@ == self@,
    {
        self.duplicate()
    }
}

impl Duplicate for Response {
    fn duplicate(&self) -> (r: Response) {
        Response {
            room_id: self.room_id.clone(),
            command: self.command.clone(),
            status: self.status.clone(),
            data: copy_json(&self.data),
        }
    }
}

/// The successful response of `room_id` to `command`.
pub open spec fn ok_response(room_id: Seq<char>, command: Seq<char>, data: serde_json::Value) -> ResponseView {
    ResponseView { room_id, command, status: "ok"@, data }
}

/// The response of `room_id` that reports `msg` as the failure of `command`.
pub open spec fn error_response(room_id: Seq<char>, command: Seq<char>, msg: Seq<char>) -> ResponseView {
    ResponseView {
        room_id,
        command,
        status: "error"@,
        data: single_string_object("error"@, msg),
    }
}

/// The answer of a room that echoes `command`.
pub open spec fn echo_response(room_id: Seq<char>, command: Seq<char>) -> ResponseView {
    ok_response(room_id, command, single_string_object("echo"@, command))
}

impl Response {
    /// A successful response carrying `data`.
    pub fn ok(room_id: &str, command: &str, data: serde_json::Value) -> (r: Self)
        ensures
            r@ == ok_response(room_id@, command@, data),
    {
        Response {
            room_id: room_id.to_owned(),
            command: command.to_owned(),
            status: "ok".to_owned(),
            data,
        }
    }

    /// A failed response whose data is `{"error": msg}`.
    pub fn error(room_id: &str, command: &str, msg: &str) -> (r: Self)
        ensures
            r@ == error_response(room_id@, command@, msg@),
    {
        Response {
            room_id: room_id.to_owned(),
            command: command.to_owned(),
            status: "error".to_owned(),
            data: string_object("error", msg),
        }
    }
}

/// The abstract value of a `Result<Response, String>`.
pub open spec fn response_result(r: Result<Response, String>) -> Result<ResponseView, Seq<char>> {
    match r {
        Ok(resp) => Ok(resp@),
        Err(e) => Err(e@),
    }
}

/// The abstract value of a `Result<(), String>`.
pub open spec fn unit_result(r: Result<(), String>) -> Result<(), Seq<char>> {
    match r {
        Ok(()) => Ok(()),
        Err(e) => Err(e@),
    }
}

/// The abstract value of an optional tick.
pub open spec fn tick_option(t: Option<Tick>) -> Option<TickView> {
    match t {
        Some(t) => Some(t@),
        None => None,
    }
}

/// A copy of an optional tick.
fn copy_tick_option(t: &Option<Tick>) -> (r: Option<Tick>)
    ensures
        tick_option(r) == tick_option(*t),
{
    match t {
        Some(t) => Some(t.duplicate()),
        None => None,
    }
}

/// A link to a single room.
pub trait RoomConnectionTrait {
    fn connect(&mut self) -> Result<(), String>;

    fn send(&self, cmd: &str) -> Result<Response, String>;

    fn subscribe(&mut self) -> Result<(), String>;

    fn unsubscribe(&mut self) -> Result<(), String>;

    fn next_tick(&mut self) -> Option<Tick>;

    fn is_healthy(&self) -> bool;

    fn last_tick(&self) -> Option<Tick>;

    fn room_id(&self) -> &str;

    fn set_healthy(&mut self, healthy: bool);
}

/// The state of a link to a room over TCP.
pub struct RoomConnection {
    room_id: String,
    host: String,
    port: u16,
    healthy: bool,
    connected: bool,
    subscribed: bool,
    last_tick: Option<Tick>,
}

/// The abstract state of a TCP room link.
pub struct RoomConnectionView {
    pub room_id: Seq<char>,
    pub host: Seq<char>,
    pub port: u16,
    pub healthy: bool,
    pub connected: bool,
    pub subscribed: bool,
    pub last_tick: Option<TickView>,
}

impl View for RoomConnection {
    type V = RoomConnectionView;

    closed spec fn view(&self) -> RoomConnectionView {
        RoomConnectionView {
            room_id: self.room_id@,
            host: self.host@,
            port: self.port,
            healthy: self.healthy,
            connected: self.connected,
            subscribed: self.subscribed,
            last_tick: tick_option(self.last_tick),
        }
    }
}

impl DeepView for RoomConnection {
    type V = RoomConnectionView;

    open spec fn deep_view(&self) -> RoomConnectionView {
        self@
    }
}

impl RoomConnection {
    /// A link to `room_id` at `host:port`, not yet connected and not healthy.
    pub fn new(room_id: &str, host: &str, port: u16) -> (c: Self)
        ensures
            c@ == (RoomConnectionView {
                room_id: room_id@,
                host: host@,
                port,
                healthy: false,
                connected: false,
                subscribed: false,
                last_tick: None,
            }),
    {
        RoomConnection {
            room_id: room_id.to_owned(),
            host: host.to_owned(),
            port,
            healthy: false,
            connected: false,
            subscribed: false,
            last_tick: None,
        }
    }

    /// The host the link connects to.
    pub fn host(&self) -> (h: &str)
        ensures
            h@ == self@.host,
    {
        self.host.as_str()
    }

    /// The port the link connects to.
    pub fn port(&self) -> (p: u16)
        ensures
            p == self@.port,
    {
        self.port
    }

    /// Whether the link is subscribed to the room's ticks.
    pub fn is_subscribed(&self) -> (b: bool)
        ensures
            b == self@.subscribed,
    {
        self.subscribed
    }
}

impl RoomConnectionTrait for RoomConnection {
    /// Connects; the link is then connected and healthy.
    fn connect(&mut self) -> (r: Result<(), String>)
        ensures
            r is Ok,
            final(self)@ == (RoomConnectionView { connected: true, healthy: true, ..old(self)@ }),
    {
        self.connected = true;
        self.healthy = true;
        Ok(())
    }

    /// Sends `cmd`: a connected room echoes it back.
    fn send(&self, cmd: &str) -> (r: Result<Response, String>)
        ensures
            response_result(r) == if self@.connected {
                Ok(echo_response(self@.room_id, cmd@))
            } else {
                Err("not connected"@)
            },
    {
        if !self.connected {
            return Err("not connected".to_owned());
        }
        Ok(Response::ok(self.room_id.as_str(), cmd, string_object("echo", cmd)))
    }

    /// Subscribes to the room's ticks; only a connected link can.
    fn subscribe(&mut self) -> (r: Result<(), String>)
        ensures
            unit_result(r) == if old(self)@.connected {
                Ok::<(), Seq<char>>(())
            } else {
                Err("not connected"@)
            },
            final(self)@ == if old(self)@.connected {
                RoomConnectionView { subscribed: true, ..old(self)@ }
            } else {
                old(self)@
            },
    {
        if !self.connected {
            return Err("not connected".to_owned());
        }
        self.subscribed = true;
        Ok(())
    }

    /// Stops the room's ticks.
    fn unsubscribe(&mut self) -> (r: Result<(), String>)
        ensures
            r is Ok,
            final(self)@ == (RoomConnectionView { subscribed: false, ..old(self)@ }),
    {
        self.subscribed = false;
        Ok(())
    }

    /// No tick is read over this link.
    fn next_tick(&mut self) -> (r: Option<Tick>)
        ensures
            r is None,
            final(self)@ == old(self)@,
    {
        None
    }

    fn is_healthy(&self) -> (b: bool)
        ensures
            b == self@.healthy,
    {
        self.healthy
    }

    fn last_tick(&self) -> (r: Option<Tick>)
        ensures
            tick_option(r) == self@.last_tick,
    {
        copy_tick_option(&self.last_tick)
    }

    fn room_id(&self) -> (s: &str)
        ensures
            s@ == self@.room_id,
    {
        self.room_id.as_str()
    }

    fn set_healthy(&mut self, healthy: bool)
        ensures
            final(self)@ == (RoomConnectionView { healthy, ..old(self)@ }),
    {
        self.healthy = healthy;
    }
}

/// An in-memory room link: ticks and canned responses are queued on it, and a
/// switch makes its connection attempts fail.
pub struct MockRoomConnection {
    room_id: String,
    healthy: bool,
    connected: bool,
    subscribed: bool,
    last_tick: Option<Tick>,
    tick_queue: Vec<Tick>,
    responses: KeyedMap<Response>,
    connect_fail: bool,
}

/// The abstract state of an in-memory room link.
pub struct MockConnectionView {
    pub room_id: Seq<char>,
    pub healthy: bool,
    pub connected: bool,
    pub subscribed: bool,
    pub last_tick: Option<TickView>,
    pub tick_queue: Seq<TickView>,
    pub responses: Seq<(Seq<char>, ResponseView)>,
    pub connect_fail: bool,
}

impl View for MockRoomConnection {
    type V = MockConnectionView;

    closed spec fn view(&self) -> MockConnectionView {
        MockConnectionView {
            room_id: self.room_id@,
            healthy: self.healthy,
            connected: self.connected,
            subscribed: self.subscribed,
            last_tick: tick_option(self.last_tick),
            tick_queue: self.tick_queue.deep_view(),
            responses: self.responses@,
            connect_fail: self.connect_fail,
        }
    }
}

impl DeepView for MockRoomConnection {
    type V = MockConnectionView;

    open spec fn deep_view(&self) -> MockConnectionView {
        self@
    }
}

/// What an in-memory link answers to `cmd`.
pub open spec fn mock_send_result(v: MockConnectionView, cmd: Seq<char>) -> Result<ResponseView, Seq<char>> {
    if !v.connected {
        Err("not connected"@)
    } else {
        match lookup(v.responses, cmd) {
            Some(resp) => Ok(resp),
            None => Ok(echo_response(v.room_id, cmd)),
        }
    }
}

/// The outcome of a connection attempt on an in-memory link.
pub open spec fn mock_connect_result(v: MockConnectionView) -> Result<(), Seq<char>> {
    if v.connect_fail {
        Err("connection refused"@)
    } else {
        Ok(())
    }
}

/// The state of an in-memory link after a connection attempt.
pub open spec fn mock_after_connect(v: MockConnectionView) -> MockConnectionView {
    if v.connect_fail {
        v
    } else {
        MockConnectionView { connected: true, healthy: true, ..v }
    }
}

impl MockRoomConnection {
    /// A healthy, unconnected link to `room_id` with nothing queued.
    pub fn new(room_id: &str) -> (c: Self)
        ensures
            c@ == (MockConnectionView {
                room_id: room_id@,
                healthy: true,
                connected: false,
                subscribed: false,
                last_tick: None,
                tick_queue: Seq::empty(),
                responses: Seq::empty(),
                connect_fail: false,
            }),
    {
        let c = MockRoomConnection {
            room_id: room_id.to_owned(),
            healthy: true,
            connected: false,
            subscribed: false,
            last_tick: None,
            tick_queue: Vec::new(),
            responses: KeyedMap::new(),
            connect_fail: false,
        };
        assert(c.tick_queue.deep_view() =~= Seq::<TickView>::empty());
        c
    }

    /// Queues `tick`; ticks come out last-in first-out.
    pub fn enqueue_tick(&mut self, tick: Tick)
        ensures
            final(self)@ == (MockConnectionView {
                tick_queue: old(self)@.tick_queue.push(tick@),
                ..old(self)@
            }),
    {
        let ghost t = tick@;
        self.tick_queue.push(tick);
        assert(self.tick_queue.deep_view() =~= old(self)@.tick_queue.push(t));
    }

    /// Makes `response` the answer to `command`.
    pub fn enqueue_response(&mut self, command: String, response: Response)
        ensures
            final(self)@ == (MockConnectionView {
                responses: inserted(old(self)@.responses, command@, response@),
                ..old(self)@
            }),
    {
        self.responses.insert(command, response);
    }

    /// Makes connection attempts fail (or succeed again).
    pub fn set_connect_fail(&mut self, fail: bool)
        ensures
            final(self)@ == (MockConnectionView { connect_fail: fail, ..old(self)@ }),
    {
        self.connect_fail = fail;
    }

    /// Whether the link is subscribed to the room's ticks.
    pub fn is_subscribed(&self) -> (b: bool)
        ensures
            b == self@.subscribed,
    {
        self.subscribed
    }
}

impl RoomConnectionTrait for MockRoomConnection {
    /// Connects unless connection attempts are set to fail.
    fn connect(&mut self) -> (r: Result<(), String>)
        ensures
            unit_result(r) == mock_connect_result(old(self)@),
            final(self)@ == mock_after_connect(old(self)@),
    {
        if self.connect_fail {
            return Err("connection refused".to_owned());
        }
        self.connected = true;
        self.healthy = true;
        Ok(())
    }

    /// Sends `cmd`: a connected link answers with the response queued for it,
    /// or else echoes it back.
    fn send(&self, cmd: &str) -> (r: Result<Response, String>)
        ensures
            response_result(r) == mock_send_result(self@, cmd@),
    {
        if !self.connected {
            return Err("not connected".to_owned());
        }
        match self.responses.get(cmd) {
            Some(resp) => Ok(resp.duplicate()),
            None => Ok(Response::ok(self.room_id.as_str(), cmd, string_object("echo", cmd))),
        }
    }

    /// Subscribes to the room's ticks; only a connected link can.
    fn subscribe(&mut self) -> (r: Result<(), String>)
        ensures
            unit_result(r) == if old(self)@.connected {
                Ok::<(), Seq<char>>(())
            } else {
                Err("not connected"@)
            },
            final(self)@ == if old(self)@.connected {
                MockConnectionView { subscribed: true, ..old(self)@ }
            } else {
                old(self)@
            },
    {
        if !self.connected {
            return Err("not connected".to_owned());
        }
        self.subscribed = true;
        Ok(())
    }

    /// Stops the room's ticks.
    fn unsubscribe(&mut self) -> (r: Result<(), String>)
        ensures
            r is Ok,
            final(self)@ == (MockConnectionView { subscribed: false, ..old(self)@ }),
    {
        self.subscribed = false;
        Ok(())
    }

    /// Takes the most recently queued tick, which becomes the last tick.
    fn next_tick(&mut self) -> (r: Option<Tick>)
        ensures
            old(self)@.tick_queue.len() == 0 ==> r is None && final(self)@ == old(self)@,
            old(self)@.tick_queue.len() > 0 ==> {
                &&& r is Some
                &&& r.unwrap()@ == old(self)@.tick_queue.last()
                &&& final(self)@ == (MockConnectionView {
                    tick_queue: old(self)@.tick_queue.drop_last(),
                    last_tick: Some(old(self)@.tick_queue.last()),
                    ..old(self)@
                })
            },
    {
        let ghost q = self.tick_queue.deep_view();
        let tick = self.tick_queue.pop();
        proof {
            if q.len() > 0 {
                assert(self.tick_queue.deep_view() =~= q.drop_last());
            }
        }
        match tick {
            Some(t) => {
                self.last_tick = Some(t.duplicate());
                Some(t)
            },
            None => None,
        }
    }

    fn is_healthy(&self) -> (b: bool)
        ensures
            b == self@.healthy,
    {
        self.healthy
    }

    fn last_tick(&self) -> (r: Option<Tick>)
        ensures
            tick_option(r) == self@.last_tick,
    {
        copy_tick_option(&self.last_tick)
    }

    fn room_id(&self) -> (s: &str)
        ensures
            s@ == self@.room_id,
    {
        self.room_id.as_str()
    }

    fn set_healthy(&mut self, healthy: bool)
        ensures
            final(self)@ == (MockConnectionView { healthy, ..old(self)@ }),
    {
        self.healthy = healthy;
    }
}

} // verus!
