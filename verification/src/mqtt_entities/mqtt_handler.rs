//! Framing and parsing of the control packets held in a connection's buffer.

use vstd::prelude::*;
use vstd::utf8::{valid_utf8, decode_utf8};
use super::mqtt::MQTTConfig;
use crate::topic::{split_on, string_views, string_from_utf8, split_levels, copy_range};

verus! {

/// The bytes received on one connection and the settings it connected with.
#[derive(Debug)]
pub struct MqttHandle {
    pub buff: Vec<u8>,
    pub config: MQTTConfig,
}

/// Whether the buffer starts with a whole packet, and the packet's remaining
/// length (its second byte; 0 when there is no second byte).
pub open spec fn frame_spec(b: Seq<u8>) -> (bool, usize) {
    if b.len() < 2 {
        (false, 0)
    } else if b.len() < b[1] + 2 {
        (false, b[1] as usize)
    } else {
        (true, b[1] as usize)
    }
}

/// Length of the packet at the head of the buffer: two header bytes and the
/// remaining length.
pub open spec fn frame_len(b: Seq<u8>) -> int {
    b[1] + 2
}

/// The packet at the head of a buffer that holds a whole packet.
pub open spec fn head_packet(b: Seq<u8>) -> Seq<u8> {
    b.subrange(0, frame_len(b))
}

/// What follows the packet at the head of the buffer.
pub open spec fn after_packet(b: Seq<u8>) -> Seq<u8> {
    b.subrange(frame_len(b), b.len() as int)
}

/// Length of the protocol name in a CONNECT packet: bytes 2 and 3, most
/// significant first.
pub open spec fn protocol_length(p: Seq<u8>) -> int {
    p[2] * 256 + p[3]
}

/// The connect flags byte of a CONNECT packet.
pub open spec fn connect_flags(p: Seq<u8>) -> u8 {
    p[5 + protocol_length(p)]
}

/// The settings and the reply that a CONNECT packet `p` yields: the new
/// settings, whether the connection is accepted, and the two variable bytes of
/// the CONNACK (session present, return code).
pub open spec fn set_configs_spec(c: MQTTConfig, p: Seq<u8>) -> (MQTTConfig, bool, Seq<u8>) {
    if p.len() < 4 {
        (c, false, seq![0u8, 0u8])
    } else if p.len() < 7 + protocol_length(p) {
        (c, false, seq![0u8, 0u8])
    } else {
        let f = connect_flags(p);
        if 0b10000000u8 & f != 0b10000000u8 {
            (c, false, seq![0u8, 0u8])
        } else if 0b01000000u8 & f != 0b01000000u8 {
            (c, false, seq![0u8, 0u8])
        } else {
            let c2 = MQTTConfig {
                clear_session: 0b00000010u8 & f == 0b00000010u8,
                will_flag: 0b00000100u8 & f == 0b00000100u8,
                ..c
            };
            if f & 0b00000001u8 != 0 {
                (c2, false, seq![0u8, 0u8])
            } else {
                let pl = protocol_length(p);
                let c3 = MQTTConfig { keep_alive: (p[7 + pl] + 256 * p[6 + pl]) as u16, ..c2 };
                (c3, true, if c3.clear_session { seq![0u8, 0u8] } else { seq![1u8, 0u8] })
            }
        }
    }
}

/// What a CONNECT packet `p` does to the settings, read off its bytes. With
/// `pl` the protocol name's length (bytes 2 and 3) the connect flags are byte
/// `5 + pl` and the keep-alive bytes `6 + pl` and `7 + pl`, most significant
/// first. The packet is accepted exactly when it reaches the keep-alive, has
/// the user name (bit 7) and password (bit 6) flags and the reserved bit 0
/// clear. Then the clean-session setting is bit 1 and the will flag bit 2,
/// whatever the other bits; the keep-alive is the whole 16-bit value; the
/// CONNACK's session-present byte is 1 exactly when bit 1 is clear, and its
/// return code 0. A refused packet leaves the keep-alive as it was.
pub proof fn law_connect_settings(c: MQTTConfig, p: Seq<u8>)
    requires
        p.len() >= 4,
    ensures
        ({
            let pl = p[2] * 256 + p[3];
            let f = p[5 + pl];
            let r = set_configs_spec(c, p);
            &&& r.1 <==> (p.len() >= 7 + pl && f >= 0x80 && f % 0x80 >= 0x40 && f % 2 == 0)
            &&& r.1 ==> {
                &&& r.0.clear_session == (f % 4 >= 2)
                &&& r.0.will_flag == (f % 8 >= 4)
                &&& (p.len() >= 8 + pl ==> r.0.keep_alive == p[6 + pl] * 256 + p[7 + pl])
                &&& r.2 == seq![if f % 4 >= 2 { 0u8 } else { 1u8 }, 0u8]
            }
            &&& !r.1 ==> r.0.keep_alive == c.keep_alive
        }),
{
    let pl = p[2] * 256 + p[3];
    if p.len() >= 7 + pl {
        let f = connect_flags(p);
        assert(f == p[5 + pl]);
        assert((0b10000000u8 & f == 0b10000000u8) == (f >= 0x80)) by (bit_vector);
        assert((0b01000000u8 & f == 0b01000000u8) == (f % 0x80 >= 0x40)) by (bit_vector);
        assert((f & 0b00000001u8 != 0) == (f % 2 != 0)) by (bit_vector);
        assert((0b00000010u8 & f == 0b00000010u8) == (f % 4 >= 2)) by (bit_vector);
        assert((0b00000100u8 & f == 0b00000100u8) == (f % 8 >= 4)) by (bit_vector);
        if set_configs_spec(c, p).1 && p.len() >= 8 + pl {
            let k = p[6 + pl] * 256 + p[7 + pl];
            assert(0 <= k < 65536) by (nonlinear_arith)
                requires 0 <= p[6 + pl] < 256, 0 <= p[7 + pl] < 256, k == p[6 + pl] * 256 + p[7 + pl];
            assert((p[7 + pl] + 256 * p[6 + pl]) as u16 == k);
        }
    }
}

/// A CONNECT packet whose flags are accepted but that ends right before the
/// second keep-alive byte: reading it indexes past the packet.
pub open spec fn connect_overruns(p: Seq<u8>) -> bool {
    &&& p.len() >= 4
    &&& p.len() == 7 + protocol_length(p)
    &&& 0b10000000u8 & connect_flags(p) == 0b10000000u8
    &&& 0b01000000u8 & connect_flags(p) == 0b01000000u8
    &&& connect_flags(p) & 0b00000001u8 == 0
}

/// Handling a CONNECT at the head of `b` would read past the packet.
pub open spec fn connect_panics(b: Seq<u8>) -> bool {
    frame_spec(b).0 && connect_overruns(head_packet(b))
}

/// Handling a PUBLISH at the head of `b` would read past the packet: it has
/// no topic length byte, or the topic runs past its end.
pub open spec fn publish_panics(b: Seq<u8>) -> bool {
    frame_spec(b).0 && (b[1] < 2 || b[3] + 4 > frame_len(b))
}

/// The topic bytes of a PUBLISH packet: byte 3 gives their count, and they
/// start at byte 4.
pub open spec fn publish_topic(b: Seq<u8>) -> Seq<u8> {
    b.subrange(4, 4 + b[3])
}

/// What handling a PUBLISH at the head of `b` returns: the topic and the whole
/// packet, when the topic is well-formed UTF-8.
pub open spec fn publish_spec(b: Seq<u8>) -> Option<(Seq<char>, Seq<u8>)> {
    if !frame_spec(b).0 {
        None
    } else if valid_utf8(publish_topic(b)) {
        Some((decode_utf8(publish_topic(b)), head_packet(b)))
    } else {
        None
    }
}

/// The topic filters that a SUBSCRIBE body `p` (the packet without its two
/// header bytes) lists from offset `last` on, each split into levels; `None`
/// where a filter runs past the body. Each filter is a two-byte length (its
/// low byte, at `last + 1`, gives the count), that many bytes of topic, and a
/// requested-QoS byte; the next filter follows the QoS byte. The scan goes on
/// while a length field remains, and stops at the first filter that is not
/// UTF-8.
pub open spec fn subscribe_scan(p: Seq<u8>, last: int) -> Option<Seq<Seq<Seq<char>>>>
    decreases p.len() + 1 - last,
{
    if 0 <= last && last + 1 < p.len() {
        let start = last + 2;
        let end = start + p[last + 1];
        if end > p.len() {
            None
        } else if valid_utf8(p.subrange(start, end)) {
            match subscribe_scan(p, end + 1) {
                Some(rest) => Some(seq![split_on(decode_utf8(p.subrange(start, end)), '/')] + rest),
                None => None,
            }
        } else {
            Some(Seq::empty())
        }
    } else {
        Some(Seq::empty())
    }
}

/// Whether `j` is the position of the requested-QoS byte of one of the
/// filters read from `last` on: each filter takes a length field of two
/// bytes, whose low byte counts its topic bytes, and the topic; the QoS byte
/// is the one right after the topic.
pub open spec fn qos_position(p: Seq<u8>, last: int, j: int) -> bool
    decreases p.len() + 1 - last,
{
    if 0 <= last && last + 1 < p.len() {
        let end = last + 2 + p[last + 1];
        &&& end <= p.len()
        &&& valid_utf8(p.subrange(last + 2, end))
        &&& (j == end || qos_position(p, end + 1, j))
    } else {
        false
    }
}

proof fn lemma_qos_position_after(p: Seq<u8>, last: int, j: int)
    requires
        qos_position(p, last, j),
    ensures
        j >= last + 2 + p[last + 1],
        0 <= last,
        last + 1 < p.len(),
    decreases p.len() + 1 - last,
{
    let end = last + 2 + p[last + 1];
    if j != end {
        lemma_qos_position_after(p, end + 1, j);
    }
}

/// The filters read from `last` on depend only on the bytes from `last` on.
proof fn lemma_scan_reads_from(p: Seq<u8>, q: Seq<u8>, last: int)
    requires
        p.len() == q.len(),
        0 <= last,
        forall|i: int| last <= i < p.len() ==> p[i] == q[i],
    ensures
        subscribe_scan(p, last) == subscribe_scan(q, last),
    decreases p.len() + 1 - last,
{
    if last + 1 < p.len() {
        let start = last + 2;
        let end = start + p[last + 1];
        assert(q[last + 1] == p[last + 1]);
        if end <= p.len() {
            assert(p.subrange(start, end) =~= q.subrange(start, end));
            lemma_scan_reads_from(p, q, end + 1);
        }
    }
}

/// The filters a SUBSCRIBE lists do not depend on the QoS bytes it asks for:
/// changing the requested-QoS byte of any filter, to any value, leaves the
/// list of filters as it was.
pub proof fn law_subscribe_ignores_qos(p: Seq<u8>, last: int, j: int, x: u8)
    requires
        0 <= j < p.len(),
        qos_position(p, last, j),
    ensures
        subscribe_scan(p.update(j, x), last) == subscribe_scan(p, last),
    decreases p.len() + 1 - last,
{
    lemma_qos_position_after(p, last, j);
    let q = p.update(j, x);
    let start = last + 2;
    let end = start + p[last + 1];
    assert(q[last + 1] == p[last + 1]);
    assert(q.subrange(start, end) =~= p.subrange(start, end));
    if j == end {
        lemma_scan_reads_from(q, p, end + 1);
    } else {
        law_subscribe_ignores_qos(p, end + 1, j, x);
    }
}

/// A SUBSCRIBE body holding one filter, whose topic `t` is UTF-8 of fewer
/// than 256 bytes, lists exactly that filter split into its levels, whatever
/// its packet identifier (`a`, `b`) and its requested QoS `qos`.
pub proof fn law_subscribe_single_filter(a: u8, b: u8, t: Seq<u8>, qos: u8)
    requires
        valid_utf8(t),
        t.len() < 256,
    ensures
        subscribe_scan(seq![a, b, 0u8, t.len() as u8] + t + seq![qos], 2)
            == Some(seq![split_on(decode_utf8(t), '/')]),
{
    let p = seq![a, b, 0u8, t.len() as u8] + t + seq![qos];
    assert(p[3] == t.len() as u8);
    assert(p.subrange(4, 4 + t.len() as int) =~= t);
    assert(subscribe_scan(p, 5 + t.len() as int) == Some(Seq::<Seq<Seq<char>>>::empty()));
    assert(seq![split_on(decode_utf8(t), '/')] + Seq::<Seq<Seq<char>>>::empty() =~= seq![split_on(decode_utf8(t), '/')]);
}

/// Every filter a SUBSCRIBE lists has at least one level.
pub proof fn lemma_subscribe_levels(p: Seq<u8>, last: int)
    ensures
        subscribe_scan(p, last) matches Some(rs) ==> forall|k: int| 0 <= k < rs.len() ==> #[trigger] rs[k].len() >= 1,
    decreases p.len() + 1 - last,
{
    if 0 <= last && last + 1 < p.len() {
        let start = last + 2;
        let end = start + p[last + 1];
        if end <= p.len() && valid_utf8(p.subrange(start, end)) {
            lemma_subscribe_levels(p, end + 1);
            crate::topic::lemma_split_nonempty(decode_utf8(p.subrange(start, end)), '/');
            if let Some(rs) = subscribe_scan(p, last) {
                let rest = subscribe_scan(p, end + 1).unwrap();
                assert forall|k: int| 0 <= k < rs.len() implies #[trigger] rs[k].len() >= 1 by {
                    if k > 0 {
                        assert(rs[k] == rest[k - 1]);
                    }
                }
            }
        }
    }
}

/// The body of the SUBSCRIBE at the head of `b`: the packet without its two
/// header bytes.
pub open spec fn subscribe_body(b: Seq<u8>) -> Seq<u8> {
    b.subrange(2, frame_len(b))
}

/// Handling a SUBSCRIBE at the head of `b` would read past the packet.
pub open spec fn subscribe_panics(b: Seq<u8>) -> bool {
    frame_spec(b).0 && subscribe_scan(subscribe_body(b), 2) is None
}

/// The topic filters, split into levels, that handling a SUBSCRIBE at the head
/// of `b` returns.
pub open spec fn subscribe_spec(b: Seq<u8>) -> Option<Seq<Seq<Seq<char>>>> {
    if !frame_spec(b).0 {
        None
    } else {
        subscribe_scan(subscribe_body(b), 2)
    }
}

/// The views of a list of lists of strings.
pub open spec fn route_views(v: Seq<Vec<String>>) -> Seq<Seq<Seq<char>>> {
    v.map_values(|r: Vec<String>| string_views(r@))
}

impl MqttHandle {
    /// The buffer after the packet at its head is taken out, when it holds a
    /// whole packet; else unchanged.
    pub open spec fn consumed(self) -> Seq<u8> {
        if frame_spec(self.buff@).0 { after_packet(self.buff@) } else { self.buff@ }
    }

    pub fn new(conf: MQTTConfig) -> (h: MqttHandle)
        ensures
            h.buff@ == Seq::<u8>::empty(),
            h.config == conf,
    {
        MqttHandle { buff: Vec::new(), config: conf }
    }

    /// Whether the buffer holds a whole packet, and its remaining length.
    pub fn judge_if_buff_legal(&mut self) -> (r: (bool, usize))
        ensures
            r == frame_spec(old(self).buff@),
            *final(self) == *old(self),
    {
        if self.buff.len() < 2 {
            return (false, 0);
        }
        let remaining_length: usize = self.buff[1] as usize;
        if self.buff.len() < remaining_length + 2 {
            return (false, remaining_length);
        }
        (true, remaining_length)
    }

    /// Takes the first `n` bytes out of the buffer and returns them.
    fn take_front(&mut self, n: usize) -> (front: Vec<u8>)
        requires
            n <= old(self).buff.len(),
        ensures
            front@ == old(self).buff@.subrange(0, n as int),
            final(self).buff@ == old(self).buff@.subrange(n as int, old(self).buff@.len() as int),
            final(self).config == old(self).config,
    {
        let mut rest = self.buff.split_off(n);
        std::mem::swap(&mut self.buff, &mut rest);
        rest
    }

    /// Applies the settings of the CONNECT packet `buff` and returns whether it
    /// is accepted, with the session-present and return-code bytes of the reply.
    fn set_configs(&mut self, buff: Vec<u8>) -> (r: (bool, [u8; 2]))
        requires
            !connect_overruns(buff@),
        ensures
            ({
                let (c, ok, bytes) = set_configs_spec(old(self).config, buff@);
                &&& final(self).config == c
                &&& r.0 == ok
                &&& r.1@ == bytes
            }),
            final(self).buff == old(self).buff,
    {
        if buff.len() < 4 {
            return (false, [0x00, 0x00]);
        }
        let protocol_length: usize = buff[2] as usize * 256 + buff[3] as usize;
        if buff.len() < 7 + protocol_length {
            return (false, [0x00, 0x00]);
        }
        let protocol_flag: u8 = buff[5 + protocol_length];
        let has_usname = 0b10000000u8 & protocol_flag == 0b10000000u8;
        if !has_usname {
            return (false, [0x00, 0x00]);
        }
        let has_password = 0b01000000u8 & protocol_flag == 0b01000000u8;
        if !has_password {
            return (false, [0x00, 0x00]);
        }
        self.config.clear_session = 0b00000010u8 & protocol_flag == 0b00000010u8;
        self.config.will_flag = 0b00000100u8 & protocol_flag == 0b00000100u8;
        if protocol_flag & 0b00000001u8 != 0 {
            return (false, [0x00, 0x00]);
        }
        self.config.keep_alive = buff[7 + protocol_length] as u16 + 256 * buff[6 + protocol_length] as u16;
        (true, if self.config.clear_session { [0x00, 0x00] } else { [0x01, 0x00] })
    }

    /// Handles a CONNECT at the head of the buffer: takes the packet out and
    /// applies its settings; returns the CONNACK's variable bytes when it is
    /// accepted.
    pub fn handle_connect(&mut self) -> (r: Option<[u8; 2]>)
        requires
            !connect_panics(old(self).buff@),
        ensures
            final(self).buff@ == old(self).consumed(),
            !frame_spec(old(self).buff@).0 ==> r is None && final(self).config == old(self).config,
            frame_spec(old(self).buff@).0 ==> ({
                let (c, ok, bytes) = set_configs_spec(old(self).config, head_packet(old(self).buff@));
                &&& final(self).config == c
                &&& (r is Some <==> ok)
                &&& (r matches Some(b) ==> b@ == bytes)
            }),
    {
        let (goon, remaining_length) = self.judge_if_buff_legal();
        if !goon {
            return None;
        }
        let play_load = self.take_front(remaining_length + 2);
        let (go_on, res) = self.set_configs(play_load);
        if !go_on {
            None
        } else {
            Some(res)
        }
    }

    /// Handles a PUBLISH at the head of the buffer: takes the packet out and
    /// returns its topic and the whole packet, when the topic is UTF-8.
    pub fn handle_publish(&mut self) -> (r: Option<(String, Vec<u8>)>)
        requires
            !publish_panics(old(self).buff@),
        ensures
            final(self).buff@ == old(self).consumed(),
            final(self).config == old(self).config,
            match publish_spec(old(self).buff@) {
                Some((topic, packet)) => r matches Some((t, p)) && t@ == topic && p@ == packet,
                None => r is None,
            },
    {
        let (goon, remaining_length) = self.judge_if_buff_legal();
        if !goon {
            return None;
        }
        let topic_length: usize = self.buff[3] as usize;
        let topic = copy_range(&self.buff, 4, topic_length + 4);
        let mut res: Option<(String, Vec<u8>)> = None;
        if let Some(topic_name) = string_from_utf8(topic) {
            res = Some((topic_name, copy_range(&self.buff, 0, remaining_length + 2)));
        }
        let _ = self.take_front(remaining_length + 2);
        res
    }

    /// Handles a PINGREQ at the head of the buffer: takes the packet out and
    /// returns the PINGRESP.
    pub fn handle_heartbeat(&mut self) -> (r: Option<[u8; 2]>)
        ensures
            final(self).buff@ == old(self).consumed(),
            final(self).config == old(self).config,
            frame_spec(old(self).buff@).0 ==> (r matches Some(b) && b@ == seq![0xD0u8, 0x00u8]),
            !frame_spec(old(self).buff@).0 ==> r is None,
    {
        let (goon, remaining_length) = self.judge_if_buff_legal();
        if !goon {
            return None;
        }
        let _ = self.take_front(remaining_length + 2);
        Some([0xD0, 0x00])
    }

    /// Handles a SUBSCRIBE at the head of the buffer: takes the packet out and
    /// returns its topic filters, each split into levels.
    pub fn handle_subscribe(&mut self) -> (r: Option<Vec<Vec<String>>>)
        requires
            !subscribe_panics(old(self).buff@),
        ensures
            final(self).buff@ == old(self).consumed(),
            final(self).config == old(self).config,
            match subscribe_spec(old(self).buff@) {
                Some(rs) => r matches Some(v) && route_views(v@) == rs,
                None => r is None,
            },
    {
        let (goon, remaining_length) = self.judge_if_buff_legal();
        if !goon {
            return None;
        }
        let ghost b = self.buff@;
        let mut last_length: usize = 2;
        let mut play_load = self.take_front(remaining_length + 2);
        play_load.remove(0);
        play_load.remove(0);
        let ghost p = play_load@;
        assert(p == subscribe_body(b));
        let mut res: Vec<Vec<String>> = Vec::new();
        loop
            invariant_except_break
                2 <= last_length <= p.len() + 2,
                subscribe_scan(p, last_length as int) is Some,
                subscribe_scan(p, 2) matches Some(all)
                    && all == route_views(res@) + subscribe_scan(p, last_length as int).unwrap(),
            invariant
                play_load@ == p,
                p.len() <= 255,
            ensures
                subscribe_scan(p, 2) == Some(route_views(res@)),
            decreases p.len() + 2 - last_length,
        {
            let ghost res0 = res@;
            let ghost at = last_length as int;
            if last_length + 1 < play_load.len() {
                let lg: usize = play_load[last_length + 1] as usize;
                let start: usize = last_length + 2;
                let bytes = copy_range(&play_load, start, start + lg);
                if let Some(msg) = string_from_utf8(bytes) {
                    let rs = split_levels(msg.as_str());
                    res.push(rs);
                    last_length = start + lg + 1;
                    assert(route_views(res@) == route_views(res0).push(string_views(rs@)));
                } else {
                    assert(subscribe_scan(p, at) == Some(Seq::<Seq<Seq<char>>>::empty()));
                    assert(route_views(res@) + Seq::<Seq<Seq<char>>>::empty() == route_views(res@));
                    break;
                }
            } else {
                assert(route_views(res@) + Seq::<Seq<Seq<char>>>::empty() == route_views(res@));
                break;
            }
        }
        Some(res)
    }

    /// A copy of this handle.
    pub fn duplicate(&self) -> (r: MqttHandle)
        ensures
            r.buff@ == self.buff@,
            r.config == self.config,
    {
        MqttHandle { buff: copy_range(&self.buff, 0, self.buff.len()), config: self.config }
    }

    /// Whether handling a CONNECT now would read past the packet.
    pub fn connect_would_panic(&self) -> (r: bool)
        ensures
            r == connect_panics(self.buff@),
    {
        let b = &self.buff;
        if b.len() < 2 || b.len() < b[1] as usize + 2 {
            return false;
        }
        let n: usize = b[1] as usize + 2;
        if n < 4 {
            return false;
        }
        let protocol_length: usize = b[2] as usize * 256 + b[3] as usize;
        if n != 7 + protocol_length {
            return false;
        }
        let f: u8 = b[5 + protocol_length];
        0b10000000u8 & f == 0b10000000u8 && 0b01000000u8 & f == 0b01000000u8 && f & 0b00000001u8 == 0
    }

    /// Whether handling a PUBLISH now would read past the packet.
    pub fn publish_would_panic(&self) -> (r: bool)
        ensures
            r == publish_panics(self.buff@),
    {
        let b = &self.buff;
        if b.len() < 2 || b.len() < b[1] as usize + 2 {
            return false;
        }
        b[1] < 2 || b[3] as usize + 4 > b[1] as usize + 2
    }

    /// Whether handling a SUBSCRIBE now would read past the packet.
    pub fn subscribe_would_panic(&self) -> (r: bool)
        ensures
            r == subscribe_panics(self.buff@),
    {
        let b = &self.buff;
        if b.len() < 2 || b.len() < b[1] as usize + 2 {
            return false;
        }
        let p = copy_range(b, 2, b[1] as usize + 2);
        assert(p@ == subscribe_body(b@));
        let mut last: usize = 2;
        loop
            invariant_except_break
                2 <= last <= p.len() + 2,
                subscribe_scan(p@, last as int) is Some <==> subscribe_scan(p@, 2) is Some,
            invariant
                p.len() <= 255,
                p@ == subscribe_body(self.buff@),
                frame_spec(self.buff@).0,
            ensures
                subscribe_scan(p@, 2) is Some,
            decreases p.len() + 2 - last,
        {
            if last + 1 < p.len() {
                let end: usize = last + 2 + p[last + 1] as usize;
                if end > p.len() {
                    return true;
                }
                if string_from_utf8(copy_range(&p, last + 2, end)).is_none() {
                    break;
                }
                last = end + 1;
            } else {
                break;
            }
        }
        false
    }
}

} // verus!
