//! Per-connection session state: what was read, when the connection was last
//! active, and whether it has connected or been shut down.

use vstd::prelude::*;
use super::mqtt_handler::{MqttHandle, frame_spec, connect_panics, set_configs_spec, head_packet};

verus! {

/// Connection settings that a CONNECT packet carries.
#[derive(Debug, Clone, Copy, PartialEq, Eq, Structural)]
pub struct MQTTConfig {
    /// Keep-alive interval in seconds; a connection silent for more than one
    /// and a half times this interval is released.
    pub keep_alive: u16,
    pub clear_session: bool,
    pub will_flag: bool,
}

/// The kind of control packet at the head of a connection's buffer.
#[derive(Debug, Clone, Copy, PartialEq, Eq, Structural)]
pub enum MsgType {
    CONNECT,
    Pub,
    Sub,
    Disconnect,
    PINGREQ,
    NoMessage,
}

/// The packet kind named by a first header byte, if it is one the broker handles.
pub open spec fn msg_type_of(first: u8) -> Option<MsgType> {
    if first == 0x10 {
        Some(MsgType::CONNECT)
    } else if first == 0x82 {
        Some(MsgType::Sub)
    } else if first == 0x30 {
        Some(MsgType::Pub)
    } else if first == 0xC0 {
        Some(MsgType::PINGREQ)
    } else if first == 0xE0 {
        Some(MsgType::Disconnect)
    } else {
        None
    }
}

/// The settings a connection starts with, before its CONNECT is handled.
pub open spec fn initial_config() -> MQTTConfig {
    MQTTConfig { keep_alive: 0, clear_session: true, will_flag: false }
}

/// Nanoseconds in one and a half seconds: a connection times out when it has
/// been silent for more than this many nanoseconds per second of keep-alive.
pub const TIMEOUT_NANOS_PER_KEEP_ALIVE_SECOND: u128 = 1_500_000_000;

/// The CONNACK return code for a refused connection: "not authorized"
/// (0x05). Connections are accepted only with a user name and a password.
pub const CONNACK_REFUSED: u8 = 0x05;

/// Bytes asked of the connection in each read.
pub const READ_CHUNK: usize = 13;

/// Nanoseconds from `since` to `now`, zero when `now` is not later.
pub open spec fn elapsed(since: u128, now: u128) -> int {
    if now > since { now - since } else { 0 }
}

/// Whether a session times out: it has connected, and has been silent for
/// more than one and a half keep-alive intervals.
pub open spec fn timed_out(empty_link: bool, keep_alive: u16, last: u128, now: u128) -> bool {
    !empty_link && elapsed(last, now) > TIMEOUT_NANOS_PER_KEEP_ALIVE_SECOND * keep_alive
}

/// One connection's session. The connection itself (its socket) is kept by
/// the caller; times are nanoseconds on a monotonic clock of the caller's.
#[derive(Debug)]
pub struct MQTT {
    /// The number by which the broker knows this connection.
    pub client_id: u64,
    /// When the connection was last active.
    pub last_buff_time: u128,
    pub handles: MqttHandle,
    /// Whether the connection has been shut down.
    pub is_closed: bool,
    /// Whether no CONNECT has been accepted on the connection yet.
    pub _is_emtpy_link: bool,
}

/// The bytes of an optional two-byte reply.
pub open spec fn reply_view(r: Option<[u8; 2]>) -> Option<Seq<u8>> {
    match r {
        Some(b) => Some(b@),
        None => None,
    }
}

/// How handling the CONNECT at the head of the buffer turns the session `old`
/// into `new` and what CONNACK it answers: packet type 0x20, remaining
/// length 2, then the session-present and return-code bytes when the
/// connection is accepted, else no session and the refusal code. An
/// accepted CONNECT marks the session as connected.
pub open spec fn connect_step(old: MQTT, new: MQTT, reply: Seq<u8>) -> bool {
    let b = old.handles.buff@;
    let (c, ok, bytes) = set_configs_spec(old.handles.config, head_packet(b));
    &&& new.same_link(&old)
    &&& new.handles.buff@ == old.handles.consumed()
    &&& if frame_spec(b).0 && ok {
        &&& reply == seq![0x20u8, 0x02u8, bytes[0], bytes[1]]
        &&& new.handles.config == c
        &&& !new._is_emtpy_link
    } else {
        &&& reply == seq![0x20u8, 0x02u8, 0x00u8, CONNACK_REFUSED]
        &&& new.handles.config == (if frame_spec(b).0 { c } else { old.handles.config })
        &&& new._is_emtpy_link == old._is_emtpy_link
    }
}

/// How handling the PINGREQ at the head of the buffer at `now` turns the
/// session `old` into `new`: it is active at `now`, the packet is taken out,
/// and the PINGRESP (0xD0, 0x00) answers it when the buffer held a whole packet.
pub open spec fn heartbeat_step(old: MQTT, new: MQTT, now: u128, reply: Option<Seq<u8>>) -> bool {
    &&& new.last_buff_time == now
    &&& new.client_id == old.client_id
    &&& new.is_closed == old.is_closed
    &&& new._is_emtpy_link == old._is_emtpy_link
    &&& new.handles.buff@ == old.handles.consumed()
    &&& new.handles.config == old.handles.config
    &&& reply == (if frame_spec(old.handles.buff@).0 { Some(seq![0xD0u8, 0x00u8]) } else { None })
}

/// Recording the outcome `ok` of shutting the connection down: the session is
/// closed from then on when the shutdown succeeded.
pub open spec fn shutdown_step(old: MQTT, new: MQTT, ok: bool) -> bool {
    &&& new.is_closed == (old.is_closed || ok)
    &&& new.client_id == old.client_id
    &&& new.last_buff_time == old.last_buff_time
    &&& new.handles == old.handles
    &&& new._is_emtpy_link == old._is_emtpy_link
}

/// Taking in the bytes `received` in one round of reads at `now`: they replace
/// the buffer, and the connection is active at `now` when they hold at least a
/// packet header.
pub open spec fn read_step(old: MQTT, new: MQTT, received: Seq<u8>, now: u128) -> bool {
    &&& new.handles.buff@ == received
    &&& new.last_buff_time == (if received.len() >= 2 { now } else { old.last_buff_time })
    &&& new.handles.config == old.handles.config
    &&& new.client_id == old.client_id
    &&& new.is_closed == old.is_closed
    &&& new._is_emtpy_link == old._is_emtpy_link
}

/// Recording a write of `requested` bytes at `now` of which `written` were
/// taken: the connection is active at `now` when all were.
pub open spec fn write_step(old: MQTT, new: MQTT, requested: usize, written: Option<usize>, now: u128) -> bool {
    &&& new.last_buff_time == (if written == Some(requested) { now } else { old.last_buff_time })
    &&& new.handles == old.handles
    &&& new.client_id == old.client_id
    &&& new.is_closed == old.is_closed
    &&& new._is_emtpy_link == old._is_emtpy_link
}

/// One operation on a session, with what it was given.
pub enum SessionOp {
    /// Handling a CONNECT.
    Connect,
    /// Handling a PINGREQ at the given time.
    Heartbeat(u128),
    /// Taking in bytes read at the given time.
    Read(Seq<u8>, u128),
    /// Recording a write: bytes asked, bytes taken, time.
    Write(usize, Option<usize>, u128),
    /// Recording the outcome of a shutdown.
    Shutdown(bool),
    /// Looking at the session without changing it (timeout, packet kind,
    /// first byte, closed flag).
    Inspect,
}

/// `new` is what the operation `op` can make of `old`.
pub open spec fn op_step(old: MQTT, new: MQTT, op: SessionOp) -> bool {
    match op {
        SessionOp::Connect => exists|r: Seq<u8>| connect_step(old, new, r),
        SessionOp::Heartbeat(now) => exists|r: Option<Seq<u8>>| heartbeat_step(old, new, now, r),
        SessionOp::Read(received, now) => read_step(old, new, received, now),
        SessionOp::Write(requested, written, now) => write_step(old, new, requested, written, now),
        SessionOp::Shutdown(ok) => shutdown_step(old, new, ok),
        SessionOp::Inspect => new == old,
    }
}

impl MQTT {
    /// Everything but the buffer, the settings and the connected flag is as in `other`.
    pub open spec fn same_link(&self, other: &MQTT) -> bool {
        &&& self.client_id == other.client_id
        &&& self.last_buff_time == other.last_buff_time
        &&& self.is_closed == other.is_closed
    }

    /// A new session for the connection `client_id`, opened at `now`.
    pub fn init(client_id: u64, now: u128) -> (m: MQTT)
        ensures
            m.client_id == client_id,
            m.last_buff_time == now,
            !m.is_closed,
            m._is_emtpy_link,
            m.handles.buff@ == Seq::<u8>::empty(),
            m.handles.config == initial_config(),
    {
        let conf = MQTTConfig { keep_alive: 0, clear_session: true, will_flag: false };
        let handle = MqttHandle::new(conf);
        MQTT {
            client_id,
            last_buff_time: now,
            handles: handle,
            is_closed: false,
            _is_emtpy_link: true,
        }
    }

    pub fn client_id(&self) -> (r: u64)
        ensures
            r == self.client_id,
    {
        self.client_id
    }

    pub fn is_closed(&self) -> (r: bool)
        ensures
            r == self.is_closed,
    {
        self.is_closed
    }

    /// Records the outcome of shutting the connection down: it is closed
    /// exactly when the shutdown succeeded, which is also what is returned.
    pub fn shutdown(&mut self, stream_shut_down: bool) -> (r: bool)
        ensures
            r == stream_shut_down,
            shutdown_step(*old(self), *final(self), stream_shut_down),
    {
        if stream_shut_down {
            self.is_closed = true;
            true
        } else {
            false
        }
    }

    /// Handles the CONNECT at the head of the buffer and returns the CONNACK to
    /// send: packet type 0x20, remaining length 2, then the session-present
    /// and return-code bytes when the connection is accepted, else no session
    /// and the refusal code. An accepted CONNECT marks the session as connected.
    pub fn handle_connect(&mut self) -> (r: [u8; 4])
        requires
            !connect_panics(old(self).handles.buff@),
        ensures
            connect_step(*old(self), *final(self), r@),
    {
        if let Some(buff) = self.handles.handle_connect() {
            self._is_emtpy_link = false;
            [0x20, 0x02, buff[0], buff[1]]
        } else {
            [0x20, 0x02, 0x00, CONNACK_REFUSED]
        }
    }

    /// Whether the session has timed out at `now`.
    pub fn if_timeout(&mut self, now: u128) -> (r: bool)
        ensures
            r == timed_out(old(self)._is_emtpy_link, old(self).handles.config.keep_alive, old(self).last_buff_time, now),
            *final(self) == *old(self),
    {
        let secs: u128 = if now > self.last_buff_time { now - self.last_buff_time } else { 0 };
        if !self._is_emtpy_link && secs > TIMEOUT_NANOS_PER_KEEP_ALIVE_SECOND * self.handles.config.keep_alive as u128 {
            true
        } else {
            false
        }
    }

    /// The kind of packet at the head of the buffer, when it holds at least
    /// two bytes and the kind is one the broker handles.
    pub fn handle_loop_work(&mut self) -> (r: Option<MsgType>)
        ensures
            r == (if old(self).handles.buff@.len() >= 2 { msg_type_of(old(self).handles.buff@[0]) } else { None }),
            *final(self) == *old(self),
    {
        if self.handles.buff.len() >= 2 {
            let msg_type = self.handles.buff[0];
            match msg_type {
                0x10 => Some(MsgType::CONNECT),
                0x82 => Some(MsgType::Sub),
                0x30 => Some(MsgType::Pub),
                0xC0 => Some(MsgType::PINGREQ),
                0xE0 => Some(MsgType::Disconnect),
                _ => None,
            }
        } else {
            None
        }
    }

    /// Whether a read that returned `size` bytes filled the whole chunk, so
    /// that more may be waiting.
    pub fn read_more(size: usize) -> (r: bool)
        ensures
            r == (size >= READ_CHUNK),
    {
        size >= READ_CHUNK
    }

    /// Replaces the buffer with the bytes received in one round of reads, and
    /// returns whether they hold at least a packet header; only then is the
    /// connection counted as active at `now`.
    pub fn read_buff(&mut self, received: &[u8], now: u128) -> (r: bool)
        ensures
            r == (received@.len() >= 2),
            read_step(*old(self), *final(self), received@, now),
    {
        self.handles.buff.clear();
        let mut k: usize = 0;
        while k < received.len()
            invariant
                k <= received@.len(),
                self.handles.buff@ == received@.subrange(0, k as int),
                self.handles.config == old(self).handles.config,
                self.client_id == old(self).client_id,
                self.last_buff_time == old(self).last_buff_time,
                self.is_closed == old(self).is_closed,
                self._is_emtpy_link == old(self)._is_emtpy_link,
            decreases received@.len() - k,
        {
            self.handles.buff.push(received[k]);
            k = k + 1;
        }
        assert(received@.subrange(0, received@.len() as int) == received@);
        if self.handles.buff.len() >= 2 {
            self.last_buff_time = now;
            true
        } else {
            false
        }
    }

    /// The first byte of the buffer, or 0 when it is empty.
    pub fn get_first_buff(&mut self) -> (r: u8)
        ensures
            r == (if old(self).handles.buff@.len() > 0 { old(self).handles.buff@[0] } else { 0 }),
            *final(self) == *old(self),
    {
        if self.handles.buff.len() > 0 {
            self.handles.buff[0]
        } else {
            0
        }
    }

    /// Records the outcome of writing `requested` bytes at `now`, `written`
    /// being how many the connection took (`None` when the write failed): it
    /// succeeded when all were taken, and only then is the connection active at `now`.
    pub fn write(&mut self, requested: usize, written: Option<usize>, now: u128) -> (r: bool)
        ensures
            r == (written == Some(requested)),
            write_step(*old(self), *final(self), requested, written, now),
    {
        if let Some(n) = written {
            if n == requested {
                self.last_buff_time = now;
                true
            } else {
                false
            }
        } else {
            false
        }
    }

    /// Handles the PINGREQ at the head of the buffer at `now`: the connection
    /// is active at `now`, and the PINGRESP is returned when the buffer holds
    /// a whole packet.
    pub fn handle_heartbeat(&mut self, now: u128) -> (r: Option<[u8; 2]>)
        ensures
            heartbeat_step(*old(self), *final(self), now, reply_view(r)),
    {
        self.last_buff_time = now;
        self.handles.handle_heartbeat()
    }
}


/// When connections time out. A connection that has not connected never
/// does; one that was active at `now` has not at `now`; and once it has timed
/// out it stays so as time goes on.
pub proof fn law_timeout(empty_link: bool, keep_alive: u16, last: u128, now: u128, later: u128)
    ensures
        !timed_out(true, keep_alive, last, now),
        !timed_out(empty_link, keep_alive, now, now),
        timed_out(empty_link, keep_alive, last, now) && now <= later ==> timed_out(empty_link, keep_alive, last, later),
{
}

/// The timeout threshold, in terms of the clock: a session that has
/// connected with keep-alive `k` seconds (the whole 16-bit value) is timed
/// out exactly when more than 1.5 x `k` seconds, that is 1_500_000_000 x `k`
/// nanoseconds, have passed since it was last active; one that has not
/// connected never is.
pub proof fn law_timeout_threshold(k: u16, last: u128, now: u128)
    ensures
        timed_out(false, k, last, now) <==> (now > last && now - last > 1_500_000_000 * (k as int)),
        !timed_out(true, k, last, now),
{
}

/// Each packet kind the broker handles is named by exactly one first byte:
/// 0x10 CONNECT, 0x82 SUBSCRIBE, 0x30 PUBLISH, 0xC0 PINGREQ, 0xE0 DISCONNECT;
/// every other first byte names none.
pub proof fn law_packet_kinds(first: u8)
    ensures
        msg_type_of(first) == Some(MsgType::CONNECT) <==> first == 0x10,
        msg_type_of(first) == Some(MsgType::Sub) <==> first == 0x82,
        msg_type_of(first) == Some(MsgType::Pub) <==> first == 0x30,
        msg_type_of(first) == Some(MsgType::PINGREQ) <==> first == 0xC0,
        msg_type_of(first) == Some(MsgType::Disconnect) <==> first == 0xE0,
        msg_type_of(first) != Some(MsgType::NoMessage),
        msg_type_of(first) is None <==> (first != 0x10 && first != 0x82 && first != 0x30 && first != 0xC0 && first != 0xE0),
{
}

/// A PINGREQ keeps its connection alive: right after it is handled at `now`,
/// the session has not timed out at `now`.
pub proof fn law_heartbeat_keeps_alive(old: MQTT, new: MQTT, now: u128, reply: Option<Seq<u8>>)
    requires
        heartbeat_step(old, new, now, reply),
    ensures
        !timed_out(new._is_emtpy_link, new.handles.config.keep_alive, new.last_buff_time, now),
{
}

/// The CONNECT at the head of the session's buffer is whole and accepted.
pub open spec fn set_configs_accepts(m: MQTT) -> bool {
    let b = m.handles.buff@;
    frame_spec(b).0 && set_configs_spec(m.handles.config, head_packet(b)).1
}

/// The CONNACK answers a CONNECT: its return code is 0 ("accepted") exactly
/// when the CONNECT was accepted and the refusal code otherwise, and its
/// session-present byte is 1 exactly when the CONNECT was accepted with the
/// clean-session flag off.
pub proof fn law_connack(old: MQTT, new: MQTT, reply: Seq<u8>)
    requires
        connect_step(old, new, reply),
    ensures
        reply.len() == 4,
        reply[0] == 0x20 && reply[1] == 0x02,
        reply[3] == (if set_configs_accepts(old) { 0u8 } else { CONNACK_REFUSED }),
        (reply[2] == 1) == (set_configs_accepts(old) && !new.handles.config.clear_session),
        reply[2] == 0 || reply[2] == 1,
{
}

/// Only a successful shutdown closes a session: along any run of
/// operations from an open session, the session ends closed exactly when one
/// of the operations was a shutdown that succeeded.
pub proof fn law_closed_only_by_shutdown(ms: Seq<MQTT>, ops: Seq<SessionOp>)
    requires
        ms.len() == ops.len() + 1,
        !ms[0].is_closed,
        forall|k: int| 0 <= k < ops.len() ==> op_step(ms[k], ms[k + 1], #[trigger] ops[k]),
    ensures
        ms.last().is_closed == exists|k: int| 0 <= k < ops.len() && #[trigger] ops[k] == SessionOp::Shutdown(true),
    decreases ops.len(),
{
    if ops.len() > 0 {
        let n = ops.len() - 1;
        let ms0 = ms.drop_last();
        let ops0 = ops.drop_last();
        assert forall|k: int| 0 <= k < ops0.len() implies op_step(ms0[k], ms0[k + 1], #[trigger] ops0[k]) by {
            assert(ops0[k] == ops[k]);
            assert(op_step(ms[k], ms[k + 1], ops[k]));
        }
        law_closed_only_by_shutdown(ms0, ops0);
        assert(op_step(ms[n], ms[n + 1], ops[n]));
        assert(ms0.last() == ms[n]);
        if exists|k: int| 0 <= k < ops0.len() && #[trigger] ops0[k] == SessionOp::Shutdown(true) {
            let k = choose|k: int| 0 <= k < ops0.len() && #[trigger] ops0[k] == SessionOp::Shutdown(true);
            assert(ops[k] == ops0[k]);
        }
        if exists|k: int| 0 <= k < ops.len() && #[trigger] ops[k] == SessionOp::Shutdown(true) {
            let k = choose|k: int| 0 <= k < ops.len() && #[trigger] ops[k] == SessionOp::Shutdown(true);
            if k < n {
                assert(ops0[k] == ops[k]);
            }
        }
    } else {
        assert(ms.last() == ms[0]);
    }
}

} // verus!
