//! The broker: the sessions it serves, its subscription tree, and the
//! decisions it takes for each packet a connection sends. Reading from and
//! writing to the connections is left to the caller, which reports back what
//! came of it.

use vstd::prelude::*;
use crate::mqtt_entities::mqtt::{
    MQTT, MsgType, msg_type_of, timed_out, connect_step, heartbeat_step, reply_view, read_step,
};
use crate::mqtt_entities::mqtt_handler::{
    connect_panics, publish_panics, publish_spec, subscribe_panics, subscribe_spec,
    route_views, lemma_subscribe_levels, subscribe_body, frame_spec, frame_len, after_packet,
};
use crate::mqtt_routes::route_entity::{
    RouteEntity, RouteNode, copy_ids, contains_id, push_client, all_levels_named, lemma_add_route_balanced,
    lemma_balanced_wf, lemma_wf_walk_safe, lemma_wf_add_safe,
    lemma_add_route_target, lemma_add_route_other, lemma_recipients_list, lemma_walk_target,
};
use crate::topic::{split_on, string_views};

verus! {

/// What the caller does after one step of handling a connection's packets.
#[derive(Debug)]
pub enum LoopAction {
    /// Nothing more to handle on this connection in this round.
    Stop,
    /// Handle the next packet.
    Continue,
    /// Send these bytes back on the same connection, then go on.
    Reply(Vec<u8>),
    /// Send the packet to each of these connections, then go on.
    Deliver(Vec<u64>, Vec<u8>),
}

/// What comes after a session's bytes are read.
#[derive(Debug, Clone, Copy, PartialEq, Eq, Structural)]
pub enum ReadOutcome {
    /// Nothing to handle in this round.
    Idle,
    /// Handle the session's packets.
    Dispatch,
    /// The session has timed out: shut its connection down, record the
    /// outcome, and remove it at the end of the round.
    Expired,
}

/// The kind of packet a session handles next: only a session that has not
/// connected yet, or that connected with a keep-alive interval, looks at its
/// buffer.
pub open spec fn next_msg(m: MQTT) -> MsgType {
    if m.handles.config.keep_alive > 0 || m._is_emtpy_link {
        let b = m.handles.buff@;
        match (if b.len() >= 2 { msg_type_of(b[0]) } else { None }) {
            Some(t) => t,
            None => MsgType::NoMessage,
        }
    } else {
        MsgType::NoMessage
    }
}

/// The numbers of the sessions in `tasks` that have been shut down, in order.
pub open spec fn closed_task_ids(tasks: Seq<MQTT>) -> Seq<u64>
    decreases tasks.len(),
{
    if tasks.len() == 0 {
        Seq::empty()
    } else {
        closed_task_ids(tasks.drop_last()) + (if tasks.last().is_closed { seq![tasks.last().client_id] } else { Seq::empty() })
    }
}

/// The tree after `client` subscribes to each topic of `rs` in turn.
pub open spec fn add_routes_spec(node: RouteNode, rs: Seq<Seq<Seq<char>>>, client: u64, closed: Seq<u64>) -> RouteNode
    decreases rs.len(),
{
    if rs.len() == 0 {
        node
    } else {
        add_routes_spec(node.add_route_spec(rs[0], client, closed), rs.drop_first(), client, closed)
    }
}

/// Subscribing `client` to the topics `rs` in turn meets, at the end of one
/// of them, a subscriber list that already names `client`: each listed
/// connection is then locked while `client`'s own lock is held, and the
/// handling never returns.
pub open spec fn add_routes_blocks(node: RouteNode, rs: Seq<Seq<Seq<char>>>, client: u64, closed: Seq<u64>) -> bool
    decreases rs.len(),
{
    rs.len() > 0 && (
        (node.target_list(rs[0]) matches Some(Some(v)) && v.contains(client))
        || add_routes_blocks(node.add_route_spec(rs[0], client, closed), rs.drop_first(), client, closed)
    )
}

/// The subscribers a message on `topic` goes to: those at the end of the
/// topic's path when the lookup finds it.
pub open spec fn publish_targets(routes: RouteNode, topic: Seq<char>) -> Option<Seq<u64>> {
    let (hit, cl) = routes.walk(split_on(topic, '/').push(Seq::empty()), None);
    if hit { cl } else { None }
}

/// `new` is `old` with the packet at the head of its buffer taken out.
pub open spec fn consumed_step(old: MQTT, new: MQTT) -> bool {
    &&& new.same_link(&old)
    &&& new._is_emtpy_link == old._is_emtpy_link
    &&& new.handles.config == old.handles.config
    &&& new.handles.buff@ == old.handles.consumed()
}

/// Only the session at `i` may differ.
pub open spec fn others_same(old: Seq<MQTT>, new: Seq<MQTT>, i: int) -> bool {
    &&& new.len() == old.len()
    &&& forall|j: int| 0 <= j < old.len() && j != i ==> #[trigger] new[j] == old[j]
}

/// The sessions after removing the positions `idxs` one after another.
pub open spec fn remove_all(tasks: Seq<MQTT>, idxs: Seq<usize>) -> Seq<MQTT>
    decreases idxs.len(),
{
    if idxs.len() == 0 {
        tasks
    } else {
        remove_all(tasks.remove(idxs[0] as int), idxs.drop_first())
    }
}

/// The numbers of the shut-down sessions that removing `idxs` one after
/// another takes out, in order.
pub open spec fn retired_by(tasks: Seq<MQTT>, idxs: Seq<usize>) -> Seq<u64>
    decreases idxs.len(),
{
    if idxs.len() == 0 {
        Seq::empty()
    } else {
        let m = tasks[idxs[0] as int];
        (if m.is_closed { seq![m.client_id] } else { Seq::empty() }) + retired_by(tasks.remove(idxs[0] as int), idxs.drop_first())
    }
}

/// Each position is within the sessions left after the removals before it.
pub open spec fn removal_fits(len: int, idxs: Seq<usize>) -> bool {
    forall|j: int| 0 <= j < idxs.len() ==> #[trigger] idxs[j] < len - j
}

/// The position of the first session numbered `id`.
pub open spec fn first_task(tasks: Seq<MQTT>, id: u64) -> Option<int>
    decreases tasks.len(),
{
    if tasks.len() == 0 {
        None
    } else if tasks[0].client_id == id {
        Some(0)
    } else {
        match first_task(tasks.drop_first(), id) {
            Some(k) => Some(k + 1),
            None => None,
        }
    }
}

/// The views of an optional delivery.
pub open spec fn pub_view(r: Option<(Vec<u64>, Vec<u8>)>) -> Option<(Seq<u64>, Seq<u8>)> {
    match r {
        Some((ids, p)) => Some((ids@, p@)),
        None => None,
    }
}

/// The broker's state.
#[derive(Debug)]
pub struct MqttServerEntity {
    _routes: RouteEntity,
    _tasks: Vec<MQTT>,
    _heart_beat_running: bool,
    _closed_clients: Vec<u64>,
    _next_client: u64,
}

impl MqttServerEntity {
    /// The subscription tree.
    pub closed spec fn routes(&self) -> RouteNode {
        self._routes.node()
    }

    /// The sessions being served, in the order they connected.
    pub closed spec fn tasks(&self) -> Seq<MQTT> {
        self._tasks@
    }

    /// Whether the loop over the sessions is marked as running.
    pub closed spec fn running(&self) -> bool {
        self._heart_beat_running
    }

    /// The numbers of shut-down sessions no longer served.
    pub closed spec fn retired(&self) -> Seq<u64> {
        self._closed_clients@
    }

    /// The number the next connection gets.
    pub closed spec fn next_id(&self) -> u64 {
        self._next_client
    }

    /// The subscription tree has exactly one child per name at each level,
    /// and no two children of a level share a name.
    pub closed spec fn wf(&self) -> bool {
        self._routes.node().balanced() && self._routes.node().distinct()
    }

    /// The numbers of all shut-down sessions: those no longer served, then
    /// those still served.
    pub open spec fn closed_ids(&self) -> Seq<u64> {
        self.retired() + closed_task_ids(self.tasks())
    }

    /// Handling a PUBLISH from session `i` would read past the packet, or
    /// would send the message back to `i` itself, whose lock is held then.
    pub open spec fn pub_blocks(&self, i: int) -> bool {
        let m = self.tasks()[i];
        &&& !m._is_emtpy_link
        &&& publish_panics(m.handles.buff@)
            || (publish_spec(m.handles.buff@) matches Some((topic, _))
                && publish_targets(self.routes(), topic) matches Some(v) && v.contains(m.client_id))
    }

    /// Handling a SUBSCRIBE from session `i` would read past the packet, or
    /// would meet `i` itself in a subscriber list.
    pub open spec fn sub_blocks(&self, i: int) -> bool {
        let m = self.tasks()[i];
        &&& !m._is_emtpy_link
        &&& subscribe_panics(m.handles.buff@)
            || (subscribe_spec(m.handles.buff@) matches Some(rs)
                && add_routes_blocks(self.routes(), rs, m.client_id, self.closed_ids()))
    }

    /// Handling the next packet of session `i` would not return.
    pub open spec fn step_blocks(&self, i: int) -> bool {
        let m = self.tasks()[i];
        match next_msg(m) {
            MsgType::CONNECT => connect_panics(m.handles.buff@),
            MsgType::Pub => self.pub_blocks(i),
            MsgType::Sub => self.sub_blocks(i),
            _ => false,
        }
    }

    /// Everything but the sessions and the subscription tree is as in `old`.
    pub open spec fn rest_same(&self, old: &Self) -> bool {
        &&& self.running() == old.running()
        &&& self.retired() == old.retired()
        &&& self.next_id() == old.next_id()
    }

    /// `new` holds the same sessions, tree and marks as `old`.
    pub open spec fn same_state(old: &Self, new: &Self) -> bool {
        &&& new.tasks() == old.tasks()
        &&& new.routes() == old.routes()
        &&& new.wf() == old.wf()
        &&& new.rest_same(old)
    }

    /// Handling the CONNECT of session `i` turns `old` into `new`, answering `reply`.
    pub open spec fn connect_effect(old: &Self, new: &Self, i: int, reply: Seq<u8>) -> bool {
        &&& connect_step(old.tasks()[i], new.tasks()[i], reply)
        &&& others_same(old.tasks(), new.tasks(), i)
        &&& new.routes() == old.routes()
        &&& new.wf() == old.wf()
        &&& new.rest_same(old)
    }

    /// Handling the PINGREQ of session `i` at `now` turns `old` into `new`,
    /// answering `reply`; a session that has not connected is left alone.
    pub open spec fn heartbeat_effect(old: &Self, new: &Self, i: int, now: u128, reply: Option<Seq<u8>>) -> bool {
        &&& if old.tasks()[i]._is_emtpy_link {
            reply is None && new.tasks() == old.tasks()
        } else {
            heartbeat_step(old.tasks()[i], new.tasks()[i], now, reply)
        }
        &&& others_same(old.tasks(), new.tasks(), i)
        &&& new.routes() == old.routes()
        &&& new.wf() == old.wf()
        &&& new.rest_same(old)
    }

    /// Handling the PUBLISH of session `i` turns `old` into `new` and returns
    /// `r`: the subscribers the message goes to and the packet to send them.
    pub open spec fn pub_effect(old: &Self, new: &Self, i: int, r: Option<(Seq<u64>, Seq<u8>)>) -> bool {
        let m = old.tasks()[i];
        &&& if m._is_emtpy_link {
            r is None && new.tasks() == old.tasks()
        } else {
            &&& consumed_step(m, new.tasks()[i])
            &&& r == match publish_spec(m.handles.buff@) {
                Some((topic, packet)) => match publish_targets(old.routes(), topic) {
                    Some(v) => Some((v, packet)),
                    None => None,
                },
                None => None,
            }
        }
        &&& others_same(old.tasks(), new.tasks(), i)
        &&& new.routes() == old.routes()
        &&& new.wf()
        &&& new.rest_same(old)
    }

    /// Handling the SUBSCRIBE of session `i` turns `old` into `new`.
    pub open spec fn sub_effect(old: &Self, new: &Self, i: int) -> bool {
        let m = old.tasks()[i];
        &&& if m._is_emtpy_link {
            new.tasks() == old.tasks() && new.routes() == old.routes()
        } else {
            &&& consumed_step(m, new.tasks()[i])
            &&& new.routes() == match subscribe_spec(m.handles.buff@) {
                Some(rs) => add_routes_spec(old.routes(), rs, m.client_id, old.closed_ids()),
                None => old.routes(),
            }
        }
        &&& others_same(old.tasks(), new.tasks(), i)
        &&& new.wf()
        &&& new.rest_same(old)
    }

    /// One step on session `i` at `now` turns `old` into `new` and returns
    /// `r`, by the kind of packet at the head of its buffer.
    pub open spec fn step_effect(old: &Self, new: &Self, i: int, now: u128, r: LoopAction) -> bool {
        match next_msg(old.tasks()[i]) {
            MsgType::CONNECT => r matches LoopAction::Reply(b)
                && Self::connect_effect(old, new, i, b@),
            MsgType::Pub => match r {
                LoopAction::Deliver(ids, p) => Self::pub_effect(old, new, i, Some((ids@, p@))),
                LoopAction::Continue => Self::pub_effect(old, new, i, None),
                _ => false,
            },
            MsgType::Sub => r is Continue && Self::sub_effect(old, new, i),
            MsgType::PINGREQ => match r {
                LoopAction::Reply(b) => Self::heartbeat_effect(old, new, i, now, Some(b@)),
                LoopAction::Continue => Self::heartbeat_effect(old, new, i, now, None),
                _ => false,
            },
            MsgType::Disconnect => r is Continue && Self::same_state(old, new),
            MsgType::NoMessage => r is Stop && Self::same_state(old, new),
        }
    }

    /// A broker with no sessions and no subscriptions.
    pub fn init() -> (r: MqttServerEntity)
        ensures
            r.wf(),
            r.tasks() == Seq::<MQTT>::empty(),
            r.routes() == (RouteNode { names: Seq::empty(), children: Seq::empty(), client: None }),
            !r.running(),
            r.retired() == Seq::<u64>::empty(),
            r.next_id() == 0,
    {
        let r = MqttServerEntity {
            _routes: RouteEntity::init(Vec::new(), Vec::new(), None),
            _tasks: Vec::new(),
            _heart_beat_running: false,
            _closed_clients: Vec::new(),
            _next_client: 0,
        };
        proof {
            assert(string_views(Seq::<String>::empty()) == Seq::<Seq<char>>::empty());
            assert(r.routes().names =~= Seq::<Seq<char>>::empty());
            assert(r.routes().children =~= Seq::<RouteNode>::empty());
        }
        r
    }

    /// How many sessions are served.
    pub fn task_count(&self) -> (r: usize)
        ensures
            r == self.tasks().len(),
    {
        self._tasks.len()
    }

    /// The number of session `i`.
    pub fn task_id(&self, i: usize) -> (r: u64)
        requires
            i < self.tasks().len(),
        ensures
            r == self.tasks()[i as int].client_id,
    {
        self._tasks[i].client_id
    }

    /// Whether the loop over the sessions is marked as running.
    pub fn heart_beat_running(&self) -> (r: bool)
        ensures
            r == self.running(),
    {
        self._heart_beat_running
    }

    /// The numbers of all shut-down sessions.
    pub fn closed_client_ids(&self) -> (r: Vec<u64>)
        ensures
            r@ == self.closed_ids(),
    {
        let mut r = copy_ids(&self._closed_clients);
        let mut k: usize = 0;
        while k < self._tasks.len()
            invariant
                k <= self._tasks.len(),
                r@ == self.retired() + closed_task_ids(self._tasks@.subrange(0, k as int)),
            decreases self._tasks.len() - k,
        {
            proof {
                assert(self._tasks@.subrange(0, k + 1).drop_last() == self._tasks@.subrange(0, k as int));
                assert(self._tasks@.subrange(0, k + 1).last() == self._tasks@[k as int]);
            }
            if self._tasks[k].is_closed {
                r.push(self._tasks[k].client_id);
                proof {
                    assert(r@ == self.retired() + closed_task_ids(self._tasks@.subrange(0, k as int)) + seq![self._tasks@[k as int].client_id]);
                }
            } else {
                proof {
                    assert(closed_task_ids(self._tasks@.subrange(0, k as int)) + Seq::<u64>::empty() == closed_task_ids(self._tasks@.subrange(0, k as int)));
                }
            }
            k = k + 1;
        }
        proof {
            assert(self._tasks@.subrange(0, self._tasks@.len() as int) == self._tasks@);
        }
        r
    }

    /// Handles the CONNECT at the head of session `i`'s buffer and returns the
    /// CONNACK to send back to it.
    pub fn handle_connect(&mut self, i: usize) -> (r: [u8; 4])
        requires
            i < old(self).tasks().len(),
            !connect_panics(old(self).tasks()[i as int].handles.buff@),
        ensures
            Self::connect_effect(old(self), final(self), i as int, r@),
    {
        self._tasks[i].handle_connect()
    }

    /// Handles the PINGREQ at the head of session `i`'s buffer at `now`, for a
    /// session that has connected; returns the PINGRESP to send back.
    pub fn handle_heartbeat(&mut self, i: usize, now: u128) -> (r: Option<[u8; 2]>)
        requires
            i < old(self).tasks().len(),
        ensures
            Self::heartbeat_effect(old(self), final(self), i as int, now, reply_view(r)),
    {
        if !self._tasks[i]._is_emtpy_link {
            self._tasks[i].handle_heartbeat(now)
        } else {
            None
        }
    }

    /// Handles the PUBLISH at the head of session `i`'s buffer, for a session
    /// that has connected: the packet is taken out, and when its topic is
    /// found in the tree with a subscriber list, the list and the whole packet
    /// are returned, to be sent to each of them.
    pub fn handle_pub(&mut self, i: usize) -> (r: Option<(Vec<u64>, Vec<u8>)>)
        requires
            old(self).wf(),
            i < old(self).tasks().len(),
            !old(self).pub_blocks(i as int),
        ensures
            Self::pub_effect(old(self), final(self), i as int, pub_view(r)),
    {
        if self._tasks[i]._is_emtpy_link {
            return None;
        }
        let ghost m = self._tasks@[i as int];
        assert(!publish_panics(m.handles.buff@));
        let res = self._tasks[i].handles.handle_publish();
        proof {
            lemma_balanced_wf(self._routes.node());
        }
        if let Some((route, value)) = res {
            proof {
                lemma_wf_walk_safe(self._routes.node(), split_on(route@, '/').push(Seq::empty()));
            }
            let none: Option<Vec<u64>> = None;
            let (if_hit, cp) = self._routes.deep_find_children(route, &none);
            if if_hit {
                if let Some(cts) = cp {
                    return Some((copy_ids(cts), value));
                }
            }
        }
        None
    }

    /// Handles the SUBSCRIBE at the head of session `i`'s buffer, for a
    /// session that has connected: the packet is taken out, and the session
    /// subscribes to each topic filter it lists, in order.
    pub fn handle_sub(&mut self, i: usize)
        requires
            old(self).wf(),
            i < old(self).tasks().len(),
            !old(self).sub_blocks(i as int),
        ensures
            Self::sub_effect(old(self), final(self), i as int),
    {
        if self._tasks[i]._is_emtpy_link {
            return;
        }
        let closed = self.closed_client_ids();
        let id = self._tasks[i].client_id;
        let ghost m = self._tasks@[i as int];
        assert(!subscribe_panics(m.handles.buff@));
        let res = self._tasks[i].handles.handle_subscribe();
        if let Some(mut routes) = res {
            let ghost all = route_views(routes@);
            let ghost start = self._routes.node();
            proof {
                lemma_balanced_wf(self._routes.node());
            }
            let ghost tasks_after = self._tasks@;
            proof {
                lemma_subscribe_levels(subscribe_body(m.handles.buff@), 2);
                assert forall|k: int| 0 <= k < routes@.len() implies (#[trigger] routes@[k]).len() >= 1 by {
                    assert(all[k] == string_views(routes@[k]@));
                    assert(all[k].len() >= 1);
                }
            }
            while routes.len() > 0
                invariant
                    self._routes.wf(),
                    self._routes.node().balanced(),
                    self._routes.node().distinct(),
                    self._tasks@ == tasks_after,
                    self._heart_beat_running == old(self)._heart_beat_running,
                    self._closed_clients@ == old(self)._closed_clients@,
                    self._next_client == old(self)._next_client,
                    forall|k: int| 0 <= k < routes@.len() ==> (#[trigger] routes@[k]).len() >= 1,
                    add_routes_spec(self._routes.node(), route_views(routes@), id, closed@)
                        == add_routes_spec(start, all, id, closed@),
                decreases routes.len(),
            {
                let ghost before = routes@;
                let route = routes.remove(0);
                proof {
                    assert(route_views(routes@) == route_views(before).drop_first());
                    assert(route_views(before)[0] == string_views(route@));
                    assert forall|k: int| 0 <= k < routes@.len() implies (#[trigger] routes@[k]).len() >= 1 by {
                        assert(routes@[k] == before[k + 1]);
                    }
                    lemma_wf_add_safe(self._routes.node(), string_views(route@));
                }
                self._routes.add_route(route, id, &closed);
                proof {
                    lemma_balanced_wf(self._routes.node());
                }
            }
            assert(route_views(routes@) =~= Seq::<Seq<Seq<char>>>::empty());
        }
    }

    /// The kind of packet session `i` handles next.
    pub fn next_message(&mut self, i: usize) -> (r: MsgType)
        requires
            i < old(self).tasks().len(),
        ensures
            r == next_msg(old(self).tasks()[i as int]),
            Self::same_state(old(self), final(self)),
    {
        if self._tasks[i].handles.config.keep_alive > 0 || self._tasks[i]._is_emtpy_link {
            let ghost before = self._tasks@;
            let mt = self._tasks[i].handle_loop_work();
            assert(self._tasks@ =~= before);
            match mt {
                Some(t) => t,
                None => MsgType::NoMessage,
            }
        } else {
            MsgType::NoMessage
        }
    }

    /// Handles the next packet of session `i` at `now` and says what the
    /// caller does next: a CONNECT is answered with its CONNACK, a PINGREQ
    /// from a connected session with its PINGRESP, a PUBLISH is delivered to
    /// the subscribers of its topic, a SUBSCRIBE is recorded; a DISCONNECT
    /// changes nothing; with no packet to handle, the round ends for `i`.
    pub fn step(&mut self, i: usize, now: u128) -> (r: LoopAction)
        requires
            old(self).wf(),
            i < old(self).tasks().len(),
            !old(self).step_blocks(i as int),
        ensures
            final(self).wf(),
            Self::step_effect(old(self), final(self), i as int, now, r),
    {
        let msg_type = self.next_message(i);
        match msg_type {
            MsgType::CONNECT => {
                let res = self.handle_connect(i);
                let mut v: Vec<u8> = Vec::new();
                v.push(res[0]);
                v.push(res[1]);
                v.push(res[2]);
                v.push(res[3]);
                assert(v@ == res@);
                LoopAction::Reply(v)
            },
            MsgType::Pub => {
                match self.handle_pub(i) {
                    Some((ids, p)) => LoopAction::Deliver(ids, p),
                    None => LoopAction::Continue,
                }
            },
            MsgType::Sub => {
                self.handle_sub(i);
                LoopAction::Continue
            },
            MsgType::Disconnect => LoopAction::Continue,
            MsgType::PINGREQ => {
                match self.handle_heartbeat(i, now) {
                    Some(res) => {
                        let mut v: Vec<u8> = Vec::new();
                        v.push(res[0]);
                        v.push(res[1]);
                        assert(v@ == res@);
                        LoopAction::Reply(v)
                    },
                    None => LoopAction::Continue,
                }
            },
            MsgType::NoMessage => LoopAction::Stop,
        }
    }

    /// Replaces session `i`'s buffer with the bytes `received` at `now`, and
    /// returns whether they hold at least a packet header.
    pub fn read_task(&mut self, i: usize, received: &[u8], now: u128) -> (r: bool)
        requires
            i < old(self).tasks().len(),
        ensures
            r == (received@.len() >= 2),
            read_step(old(self).tasks()[i as int], final(self).tasks()[i as int], received@, now),
            others_same(old(self).tasks(), final(self).tasks(), i as int),
            final(self).routes() == old(self).routes(),
            final(self).wf() == old(self).wf(),
            final(self).rest_same(old(self)),
    {
        self._tasks[i].read_buff(received, now)
    }

    /// Takes in the bytes `received` by session `i` at `now` and decides what
    /// comes next: a session that has timed out is to be shut down, get no
    /// packet handled, and be removed at the end of the round; otherwise its
    /// packets are handled when the bytes hold at least a packet header.
    pub fn read_and_check(&mut self, i: usize, received: &[u8], now: u128) -> (r: ReadOutcome)
        requires
            i < old(self).tasks().len(),
        ensures
            read_step(old(self).tasks()[i as int], final(self).tasks()[i as int], received@, now),
            r == (if timed_out(
                final(self).tasks()[i as int]._is_emtpy_link,
                final(self).tasks()[i as int].handles.config.keep_alive,
                final(self).tasks()[i as int].last_buff_time,
                now,
            ) {
                ReadOutcome::Expired
            } else if received@.len() >= 2 {
                ReadOutcome::Dispatch
            } else {
                ReadOutcome::Idle
            }),
            others_same(old(self).tasks(), final(self).tasks(), i as int),
            final(self).routes() == old(self).routes(),
            final(self).wf() == old(self).wf(),
            final(self).rest_same(old(self)),
    {
        let go_loop = self.read_task(i, received, now);
        if self.check_timeout(i, now) {
            ReadOutcome::Expired
        } else if go_loop {
            ReadOutcome::Dispatch
        } else {
            ReadOutcome::Idle
        }
    }

    /// Whether session `i` has timed out at `now`.
    pub fn check_timeout(&mut self, i: usize, now: u128) -> (r: bool)
        requires
            i < old(self).tasks().len(),
        ensures
            r == timed_out(
                old(self).tasks()[i as int]._is_emtpy_link,
                old(self).tasks()[i as int].handles.config.keep_alive,
                old(self).tasks()[i as int].last_buff_time,
                now,
            ),
            Self::same_state(old(self), final(self)),
    {
        let ghost before = self._tasks@;
        let r = self._tasks[i].if_timeout(now);
        assert(self._tasks@ =~= before);
        r
    }

    /// Records the outcome of shutting session `i`'s connection down.
    pub fn shutdown_task(&mut self, i: usize, stream_shut_down: bool) -> (r: bool)
        requires
            i < old(self).tasks().len(),
        ensures
            r == stream_shut_down,
            ({
                let m = old(self).tasks()[i as int];
                let n = final(self).tasks()[i as int];
                &&& n.is_closed == (m.is_closed || stream_shut_down)
                &&& n.client_id == m.client_id
                &&& n.last_buff_time == m.last_buff_time
                &&& n.handles == m.handles
                &&& n._is_emtpy_link == m._is_emtpy_link
            }),
            others_same(old(self).tasks(), final(self).tasks(), i as int),
            final(self).routes() == old(self).routes(),
            final(self).wf() == old(self).wf(),
            final(self).rest_same(old(self)),
    {
        self._tasks[i].shutdown(stream_shut_down)
    }

    /// Records the outcome of writing `requested` bytes to connection `id` at
    /// `now` (`written` being how many it took, `None` when the write failed):
    /// the first session with that number is active at `now` when all were
    /// taken. Returns whether they were.
    pub fn record_write(&mut self, id: u64, requested: usize, written: Option<usize>, now: u128) -> (r: bool)
        ensures
            r == (written == Some(requested)),
            match first_task(old(self).tasks(), id) {
                Some(k) => {
                    &&& final(self).tasks()[k].last_buff_time == (if r { now } else { old(self).tasks()[k].last_buff_time })
                    &&& final(self).tasks()[k].handles == old(self).tasks()[k].handles
                    &&& final(self).tasks()[k].client_id == old(self).tasks()[k].client_id
                    &&& final(self).tasks()[k].is_closed == old(self).tasks()[k].is_closed
                    &&& final(self).tasks()[k]._is_emtpy_link == old(self).tasks()[k]._is_emtpy_link
                    &&& others_same(old(self).tasks(), final(self).tasks(), k)
                },
                None => final(self).tasks() == old(self).tasks(),
            },
            final(self).routes() == old(self).routes(),
            final(self).wf() == old(self).wf(),
            final(self).rest_same(old(self)),
    {
        let mut k: usize = 0;
        while k < self._tasks.len()
            invariant
                k <= self._tasks.len(),
                self._tasks@ == old(self)._tasks@,
                self._routes == old(self)._routes,
                self._heart_beat_running == old(self)._heart_beat_running,
                self._closed_clients@ == old(self)._closed_clients@,
                self._next_client == old(self)._next_client,
                forall|j: int| 0 <= j < k ==> self._tasks@[j].client_id != id,
            decreases self._tasks.len() - k,
        {
            if self._tasks[k].client_id == id {
                proof {
                    lemma_first_task(self._tasks@, id, k as int);
                }
                return self._tasks[k].write(requested, written, now);
            }
            k = k + 1;
        }
        proof {
            lemma_first_task(self._tasks@, id, k as int);
        }
        if let Some(n) = written {
            n == requested
        } else {
            false
        }
    }

    /// Takes the sessions at the positions `idxs` out one after another,
    /// keeping the numbers of those that were shut down.
    pub fn remove_timed_out(&mut self, idxs: &Vec<usize>)
        requires
            removal_fits(old(self).tasks().len() as int, idxs@),
        ensures
            final(self).tasks() == remove_all(old(self).tasks(), idxs@),
            final(self).retired() == old(self).retired() + retired_by(old(self).tasks(), idxs@),
            final(self).routes() == old(self).routes(),
            final(self).wf() == old(self).wf(),
            final(self).running() == old(self).running(),
            final(self).next_id() == old(self).next_id(),
    {
        let mut k: usize = 0;
        assert(idxs@.subrange(0, idxs@.len() as int) == idxs@);
        while k < idxs.len()
            invariant
                k <= idxs.len(),
                removal_fits(self._tasks@.len() as int, idxs@.subrange(k as int, idxs@.len() as int)),
                remove_all(self._tasks@, idxs@.subrange(k as int, idxs@.len() as int))
                    == remove_all(old(self)._tasks@, idxs@),
                self._closed_clients@ + retired_by(self._tasks@, idxs@.subrange(k as int, idxs@.len() as int))
                    == old(self)._closed_clients@ + retired_by(old(self)._tasks@, idxs@),
                self._routes == old(self)._routes,
                self._heart_beat_running == old(self)._heart_beat_running,
                self._next_client == old(self)._next_client,
            decreases idxs.len() - k,
        {
            let ghost rest = idxs@.subrange(k as int, idxs@.len() as int);
            let ghost before = self._tasks@;
            let ghost retired_before = self._closed_clients@;
            proof {
                assert(rest[0] == idxs@[k as int]);
                assert(rest.drop_first() == idxs@.subrange(k + 1, idxs@.len() as int));
                assert(idxs@[k as int] < self._tasks@.len()) by {
                    assert(rest[0] < before.len() - 0);
                }
                assert forall|j: int| 0 <= j < rest.drop_first().len() implies #[trigger] rest.drop_first()[j] < before.len() - 1 - j by {
                    assert(rest.drop_first()[j] == rest[j + 1]);
                }
            }
            let removed = self._tasks.remove(idxs[k]);
            if removed.is_closed {
                self._closed_clients.push(removed.client_id);
                proof {
                    assert(self._closed_clients@ == retired_before + seq![removed.client_id]);
                    assert(retired_by(before, rest) == seq![removed.client_id] + retired_by(self._tasks@, rest.drop_first()));
                }
            } else {
                proof {
                    assert(retired_by(before, rest) == Seq::<u64>::empty() + retired_by(self._tasks@, rest.drop_first()));
                    assert(Seq::<u64>::empty() + retired_by(self._tasks@, rest.drop_first()) == retired_by(self._tasks@, rest.drop_first()));
                }
            }
            k = k + 1;
        }
        proof {
            let e = idxs@.subrange(idxs@.len() as int, idxs@.len() as int);
            assert(e.len() == 0);
            assert(self._closed_clients@ + Seq::<u64>::empty() == self._closed_clients@);
        }
    }

    /// Marks the loop over the sessions as stopped.
    pub fn finish_loop(&mut self)
        ensures
            !final(self).running(),
            final(self).tasks() == old(self).tasks(),
            final(self).routes() == old(self).routes(),
            final(self).wf() == old(self).wf(),
            final(self).retired() == old(self).retired(),
            final(self).next_id() == old(self).next_id(),
    {
        self._heart_beat_running = false;
    }

    /// Takes on a new connection at `now`: a fresh session with the next
    /// number is served last. Returns its number and whether the loop over
    /// the sessions has to be woken (it is not marked as running).
    pub fn handle_incoming(&mut self, now: u128) -> (r: (u64, bool))
        ensures
            r.0 == old(self).next_id(),
            r.1 == !old(self).running(),
            final(self).tasks().len() == old(self).tasks().len() + 1,
            final(self).tasks().drop_last() == old(self).tasks(),
            ({
                let m = final(self).tasks().last();
                &&& m.client_id == r.0
                &&& m.last_buff_time == now
                &&& !m.is_closed
                &&& m._is_emtpy_link
                &&& m.handles.buff@ == Seq::<u8>::empty()
                &&& m.handles.config == crate::mqtt_entities::mqtt::initial_config()
            }),
            final(self).next_id() == (if old(self).next_id() == u64::MAX { 0 } else { old(self).next_id() + 1 }),
            final(self).routes() == old(self).routes(),
            final(self).wf() == old(self).wf(),
            final(self).running() == old(self).running(),
            final(self).retired() == old(self).retired(),
    {
        let id = self._next_client;
        self._next_client = self._next_client.wrapping_add(1);
        self._tasks.push(MQTT::init(id, now));
        proof {
            assert(self._tasks@.drop_last() == old(self)._tasks@);
        }
        (id, !self._heart_beat_running)
    }

    /// Whether handling a PUBLISH from session `i` now would not return.
    pub fn pub_would_block(&self, i: usize) -> (r: bool)
        requires
            self.wf(),
            i < self.tasks().len(),
        ensures
            r == self.pub_blocks(i as int),
    {
        let m = &self._tasks[i];
        if m._is_emtpy_link {
            return false;
        }
        if m.handles.publish_would_panic() {
            return true;
        }
        let mut h = m.handles.duplicate();
        proof {
            lemma_balanced_wf(self._routes.node());
        }
        match h.handle_publish() {
            None => false,
            Some((topic, _packet)) => {
                proof {
                    lemma_wf_walk_safe(self._routes.node(), split_on(topic@, '/').push(Seq::empty()));
                }
                let none: Option<Vec<u64>> = None;
                let (hit, cp) = self._routes.deep_find_children(topic, &none);
                if hit {
                    match cp {
                        Some(v) => contains_id(v, m.client_id),
                        None => false,
                    }
                } else {
                    false
                }
            },
        }
    }

    /// Whether handling a SUBSCRIBE from session `i` now would not return.
    pub fn sub_would_block(&self, i: usize) -> (r: bool)
        requires
            self.wf(),
            i < self.tasks().len(),
        ensures
            r == self.sub_blocks(i as int),
    {
        let m = &self._tasks[i];
        if m._is_emtpy_link {
            return false;
        }
        if m.handles.subscribe_would_panic() {
            return true;
        }
        let id = m.client_id;
        let mut h = m.handles.duplicate();
        match h.handle_subscribe() {
            None => false,
            Some(mut routes) => {
                let closed = self.closed_client_ids();
                let mut tree = self._routes.duplicate();
                proof {
                    lemma_balanced_wf(self._routes.node());
                }
                let ghost all = route_views(routes@);
                proof {
                    lemma_subscribe_levels(subscribe_body(m.handles.buff@), 2);
                    assert forall|k: int| 0 <= k < routes@.len() implies (#[trigger] routes@[k]).len() >= 1 by {
                        assert(all[k] == string_views(routes@[k]@));
                        assert(all[k].len() >= 1);
                    }
                }
                while routes.len() > 0
                    invariant
                        tree.wf(),
                        forall|k: int| 0 <= k < routes@.len() ==> (#[trigger] routes@[k]).len() >= 1,
                        add_routes_blocks(tree.node(), route_views(routes@), id, closed@)
                            == add_routes_blocks(self.routes(), all, id, self.closed_ids()),
                        closed@ == self.closed_ids(),
                        !self.tasks()[i as int]._is_emtpy_link,
                        !subscribe_panics(self.tasks()[i as int].handles.buff@),
                        subscribe_spec(self.tasks()[i as int].handles.buff@) == Some(all),
                        self.tasks()[i as int].client_id == id,
                    decreases routes.len(),
                {
                    let ghost before = routes@;
                    let route = routes.remove(0);
                    proof {
                        assert(route_views(routes@) == route_views(before).drop_first());
                        assert(route_views(before)[0] == string_views(route@));
                        assert forall|k: int| 0 <= k < routes@.len() implies (#[trigger] routes@[k]).len() >= 1 by {
                            assert(routes@[k] == before[k + 1]);
                        }
                    }
                    if tree.list_contains(&route, id) {
                        assert(add_routes_blocks(tree.node(), route_views(before), id, closed@));
                        return true;
                    }
                    proof {
                        lemma_wf_add_safe(tree.node(), string_views(route@));
                    }
                    tree.add_route(route, id, &closed);
                }
                assert(route_views(routes@) =~= Seq::<Seq<Seq<char>>>::empty());
                false
            },
        }
    }

    /// Whether handling the next packet of session `i` now would not return.
    pub fn step_would_block(&self, i: usize) -> (r: bool)
        requires
            self.wf(),
            i < self.tasks().len(),
        ensures
            r == self.step_blocks(i as int),
    {
        let m = &self._tasks[i];
        let b = &m.handles.buff;
        let kind = if (m.handles.config.keep_alive > 0 || m._is_emtpy_link) && b.len() >= 2 { b[0] } else { 0 };
        match kind {
            0x10 => m.handles.connect_would_panic(),
            0x30 => self.pub_would_block(i),
            0x82 => self.sub_would_block(i),
            _ => false,
        }
    }

    /// Whether removing the positions `idxs` one after another stays within
    /// the sessions.
    pub fn removal_in_bounds(&self, idxs: &Vec<usize>) -> (r: bool)
        ensures
            r == removal_fits(self.tasks().len() as int, idxs@),
    {
        let n = self._tasks.len();
        let mut k: usize = 0;
        while k < idxs.len()
            invariant
                k <= idxs.len(),
                n == self.tasks().len(),
                forall|j: int| 0 <= j < k ==> #[trigger] idxs@[j] < n - j,
            decreases idxs.len() - k,
        {
            if k >= n || idxs[k] >= n - k {
                return false;
            }
            k = k + 1;
        }
        true
    }
}

/// The first session numbered `id` is at `k` when none before it is.
pub proof fn lemma_first_task(tasks: Seq<MQTT>, id: u64, k: int)
    requires
        0 <= k <= tasks.len(),
        forall|j: int| 0 <= j < k ==> tasks[j].client_id != id,
    ensures
        k < tasks.len() && tasks[k].client_id == id ==> first_task(tasks, id) == Some(k),
        k == tasks.len() ==> first_task(tasks, id) is None,
    decreases k,
{
    if k > 0 {
        lemma_first_task(tasks.drop_first(), id, k - 1);
    }
}


/// Another subscription by `c` keeps `c` in a path's list.
proof fn lemma_add_route_keeps(node: RouteNode, r: Seq<Seq<char>>, route: Seq<Seq<char>>, c: u64, closed: Seq<u64>)
    requires
        node.balanced(),
        route.len() >= 1,
        node.list_at(r) matches Some(v) && v.contains(c),
    ensures
        node.add_route_spec(route, c, closed).list_at(r) matches Some(v) && v.contains(c),
{
    if route == r {
        lemma_add_route_target(node, route, c, closed);
        let w = push_client(node.list_at(r), c, closed).unwrap();
        assert(w[w.len() - 1] == c);
    } else {
        lemma_add_route_other(node, route, r, c, closed);
    }
}

/// Subscribing `c` to `rs` in turn keeps the tree well formed and keeps `c`
/// in every list that named it.
proof fn lemma_add_routes_keeps(node: RouteNode, rs: Seq<Seq<Seq<char>>>, r: Seq<Seq<char>>, c: u64, closed: Seq<u64>)
    requires
        node.balanced(),
        forall|k: int| 0 <= k < rs.len() ==> (#[trigger] rs[k]).len() >= 1,
    ensures
        add_routes_spec(node, rs, c, closed).balanced(),
        (node.list_at(r) matches Some(v) && v.contains(c))
            ==> (add_routes_spec(node, rs, c, closed).list_at(r) matches Some(v) && v.contains(c)),
    decreases rs.len(),
{
    if rs.len() > 0 {
        assert(rs[0].len() >= 1);
        lemma_add_route_balanced(node, rs[0], c, closed);
        if node.list_at(r) matches Some(v) && v.contains(c) {
            lemma_add_route_keeps(node, r, rs[0], c, closed);
        }
        assert forall|k: int| 0 <= k < rs.drop_first().len() implies (#[trigger] rs.drop_first()[k]).len() >= 1 by {
            assert(rs.drop_first()[k] == rs[k + 1]);
        }
        lemma_add_routes_keeps(node.add_route_spec(rs[0], c, closed), rs.drop_first(), r, c, closed);
    }
}

/// After `c` subscribes to the topics `rs` in turn, each of them ends at a
/// list that names `c`.
pub proof fn lemma_add_routes_lists(node: RouteNode, rs: Seq<Seq<Seq<char>>>, k: int, c: u64, closed: Seq<u64>)
    requires
        node.balanced(),
        forall|j: int| 0 <= j < rs.len() ==> (#[trigger] rs[j]).len() >= 1,
        0 <= k < rs.len(),
    ensures
        add_routes_spec(node, rs, c, closed).list_at(rs[k]) matches Some(v) && v.contains(c),
    decreases rs.len(),
{
    let n1 = node.add_route_spec(rs[0], c, closed);
    assert(rs[0].len() >= 1);
    lemma_add_route_balanced(node, rs[0], c, closed);
    assert forall|j: int| 0 <= j < rs.drop_first().len() implies (#[trigger] rs.drop_first()[j]).len() >= 1 by {
        assert(rs.drop_first()[j] == rs[j + 1]);
    }
    if k == 0 {
        lemma_add_route_target(node, rs[0], c, closed);
        let w = push_client(node.list_at(rs[0]), c, closed).unwrap();
        assert(w[w.len() - 1] == c);
        lemma_add_routes_keeps(n1, rs.drop_first(), rs[0], c, closed);
    } else {
        assert(rs[k] == rs.drop_first()[k - 1]);
        lemma_add_routes_lists(n1, rs.drop_first(), k - 1, c, closed);
    }
}

/// What the broker promises of a subscription: once session `i` has
/// connected and its SUBSCRIBE listing the filter `rs[k]` has been handled,
/// a PUBLISH on a topic whose levels are that filter's (all of them named) is
/// delivered to `i`, whatever the tree held before, as long as no node of
/// the tree after it has 32768 children or more (past that, the lookup's
/// 16-bit position check makes it miss).
pub proof fn law_subscription_receives(old: MqttServerEntity, new: MqttServerEntity, i: int, k: int, topic: Seq<char>)
    requires
        old.wf(),
        0 <= i < old.tasks().len(),
        MqttServerEntity::sub_effect(&old, &new, i),
        !old.tasks()[i]._is_emtpy_link,
        subscribe_spec(old.tasks()[i].handles.buff@) matches Some(rs)
            && 0 <= k < rs.len() && rs[k] == split_on(topic, '/'),
        all_levels_named(split_on(topic, '/')),
        new.routes().fanout_below(32768),
    ensures
        publish_targets(new.routes(), topic) matches Some(v) && v.contains(old.tasks()[i].client_id),
{
    let m = old.tasks()[i];
    let rs = subscribe_spec(m.handles.buff@).unwrap();
    let b = m.handles.buff@;
    lemma_subscribe_levels(subscribe_body(b), 2);
    assert(rs == crate::mqtt_entities::mqtt_handler::subscribe_scan(subscribe_body(b), 2).unwrap());
    lemma_add_routes_lists(old.routes(), rs, k, m.client_id, old.closed_ids());
    let levels = split_on(topic, '/');
    lemma_recipients_list(new.routes(), levels);
    let v = new.routes().list_at(levels).unwrap();
    assert(new.routes().recipients(levels) == v);
}

/// Each step on a session either takes one whole packet, of two bytes or
/// more, off the front of its buffer, or leaves the buffer as it was; a step
/// that stops the round leaves it as it was. (A step that leaves it as it was
/// and does not stop, as on a DISCONNECT, an incomplete packet or a packet
/// before CONNECT, is repeated on the same bytes.)
pub proof fn law_step_progress(old: MqttServerEntity, new: MqttServerEntity, i: int, now: u128, r: LoopAction)
    requires
        old.wf(),
        0 <= i < old.tasks().len(),
        MqttServerEntity::step_effect(&old, &new, i, now, r),
    ensures
        new.tasks().len() == old.tasks().len(),
        ({
            let b = old.tasks()[i].handles.buff@;
            let nb = new.tasks()[i].handles.buff@;
            ||| nb == b
            ||| (nb.len() + 2 <= b.len() && nb == b.subrange(b.len() - nb.len(), b.len() as int))
        }),
        r is Stop ==> new.tasks()[i].handles.buff@ == old.tasks()[i].handles.buff@,
{
    let b = old.tasks()[i].handles.buff@;
    if frame_spec(b).0 {
        assert(frame_len(b) >= 2);
        assert(after_packet(b).len() == b.len() - frame_len(b));
    }
}

/// Where a PUBLISH goes, in terms of the tree: for a topic whose levels are
/// all named, in a balanced tree whose nodes have fewer than 32768 children,
/// the message reaches exactly the list kept at the end of the topic's path,
/// and nobody when the path is not in the tree or keeps no list; the list
/// carried along a lookup that misses a level is never delivered.
pub proof fn law_publish_reaches_path_list(routes: RouteNode, topic: Seq<char>)
    requires
        routes.balanced(),
        routes.fanout_below(32768),
        all_levels_named(split_on(topic, '/')),
    ensures
        publish_targets(routes, topic) == routes.list_at(split_on(topic, '/')),
        routes.target_list(split_on(topic, '/')) is None ==> publish_targets(routes, topic) is None,
{
    lemma_walk_target(routes, split_on(topic, '/'), None);
}

/// The kind of packet a session handles next, read off its buffer: a session
/// that has not connected, or connected with a keep-alive, handles the kind
/// named by the first byte of a buffer of two bytes or more (0x10 CONNECT,
/// 0x82 SUBSCRIBE, 0x30 PUBLISH, 0xC0 PINGREQ, 0xE0 DISCONNECT); any other
/// first byte, a shorter buffer, or a session connected without keep-alive
/// gives nothing to handle.
pub proof fn law_next_packet_kind(m: MQTT)
    ensures
        ({
            let b = m.handles.buff@;
            let live = (m.handles.config.keep_alive > 0 || m._is_emtpy_link) && b.len() >= 2;
            &&& next_msg(m) == MsgType::CONNECT <==> live && b[0] == 0x10
            &&& next_msg(m) == MsgType::Sub <==> live && b[0] == 0x82
            &&& next_msg(m) == MsgType::Pub <==> live && b[0] == 0x30
            &&& next_msg(m) == MsgType::PINGREQ <==> live && b[0] == 0xC0
            &&& next_msg(m) == MsgType::Disconnect <==> live && b[0] == 0xE0
        }),
{
}

} // verus!
