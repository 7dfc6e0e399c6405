//! The subscription tree: one node per topic level, each holding the
//! connections subscribed to the topic that ends there.

use vstd::prelude::*;
use crate::topic::{split_on, string_views, split_levels};

verus! {

/// A subscription tree as a value: the names of a node's children, the
/// children in the same order, and the connections subscribed at the node.
pub struct RouteNode {
    pub names: Seq<Seq<char>>,
    pub children: Seq<RouteNode>,
    pub client: Option<Seq<u64>>,
}

/// The position of the first occurrence of `x` in `s`.
pub open spec fn first_position(s: Seq<Seq<char>>, x: Seq<char>) -> Option<int>
    decreases s.len(),
{
    if s.len() == 0 {
        None
    } else if s[0] == x {
        Some(0)
    } else {
        match first_position(s.drop_first(), x) {
            Some(i) => Some(i + 1),
            None => None,
        }
    }
}

pub open spec fn client_view(c: Option<Vec<u64>>) -> Option<Seq<u64>> {
    match c {
        Some(v) => Some(v@),
        None => None,
    }
}

/// Holds of the connections not listed in `closed`.
pub open spec fn open_ids(closed: Seq<u64>) -> spec_fn(u64) -> bool {
    |x: u64| !closed.contains(x)
}

/// The subscriber list after `client` subscribes: connections listed in
/// `closed` are dropped, the others keep their order, and `client` is added last.
pub open spec fn push_client(c: Option<Seq<u64>>, client: u64, closed: Seq<u64>) -> Option<Seq<u64>> {
    match c {
        Some(v) => Some(v.filter(open_ids(closed)).push(client)),
        None => Some(seq![client]),
    }
}

/// A fresh branch for the levels `routes`, with `client` subscribed at its end.
pub open spec fn chain(routes: Seq<Seq<char>>, client: u64) -> RouteNode
    decreases routes.len(),
{
    if routes.len() == 0 {
        RouteNode { names: Seq::empty(), children: Seq::empty(), client: Some(seq![client]) }
    } else {
        RouteNode {
            names: seq![routes[0]],
            children: seq![chain(routes.drop_first(), client)],
            client: None,
        }
    }
}

/// Whether a child's position passes the lookup's check that it is not
/// negative as a 16-bit signed number: positions whose low 16 bits are
/// 32768 or more fail it, and the lookup then misses.
pub open spec fn index_fits(i: int) -> bool {
    i % 65536 < 32768
}

/// Every level of the topic is non-empty.
pub open spec fn all_levels_named(routes: Seq<Seq<char>>) -> bool {
    forall|k: int| 0 <= k < routes.len() ==> #[trigger] routes[k].len() > 0
}

impl RouteNode {
    /// Each name of each node has a child at its position.
    pub open spec fn wf(self) -> bool
        decreases self,
    {
        &&& self.names.len() <= self.children.len()
        &&& forall|i: int| 0 <= i < self.children.len() ==> (#[trigger] self.children[i]).wf()
    }

    /// No two children of a node have the same name.
    pub open spec fn distinct(self) -> bool
        decreases self,
    {
        &&& forall|i: int, j: int| 0 <= i < j < self.names.len() ==> self.names[i] != self.names[j]
        &&& forall|i: int| 0 <= i < self.children.len() ==> (#[trigger] self.children[i]).distinct()
    }

    /// Each node has exactly one child per name.
    pub open spec fn balanced(self) -> bool
        decreases self,
    {
        &&& self.names.len() == self.children.len()
        &&& forall|i: int| 0 <= i < self.children.len() ==> (#[trigger] self.children[i]).balanced()
    }

    /// The tree after `client` subscribes to the topic with levels `routes`:
    /// the path is followed through existing children; where it leaves the
    /// tree, a fresh branch is added as the last child; at its end the
    /// subscriber list is updated as `push_client` says.
    pub open spec fn add_route_spec(self, routes: Seq<Seq<char>>, client: u64, closed: Seq<u64>) -> RouteNode
        decreases routes.len(),
    {
        if routes.len() == 0 {
            self
        } else {
            match first_position(self.names, routes[0]) {
                Some(idx) => if routes.len() > 1 {
                    RouteNode {
                        children: self.children.update(
                            idx,
                            self.children[idx].add_route_spec(routes.drop_first(), client, closed),
                        ),
                        ..self
                    }
                } else {
                    RouteNode {
                        children: self.children.update(
                            idx,
                            RouteNode { client: push_client(self.children[idx].client, client, closed), ..self.children[idx] },
                        ),
                        ..self
                    }
                },
                None => RouteNode {
                    names: self.names.push(routes[0]),
                    children: self.children.push(chain(routes.drop_first(), client)),
                    ..self
                },
            }
        }
    }

    /// The lookup of a topic's levels `segs`, starting from the list `cp`:
    /// each named level moves to the child of that name, taking the current
    /// node's list along; an empty level ends the walk at the current node's
    /// list. The walk misses (false) at a level with no child of that name,
    /// and the list it carried then is returned.
    pub open spec fn walk(self, segs: Seq<Seq<char>>, cp: Option<Seq<u64>>) -> (bool, Option<Seq<u64>>)
        decreases segs.len(),
    {
        if segs.len() == 0 {
            (true, cp)
        } else if segs[0].len() == 0 {
            (true, self.client)
        } else {
            match first_position(self.names, segs[0]) {
                None => (false, cp),
                Some(i) => if index_fits(i) {
                    self.children[i].walk(segs.drop_first(), self.client)
                } else {
                    (false, cp)
                },
            }
        }
    }

    /// Each child the walk over `segs` steps into is there.
    pub open spec fn walk_safe(self, segs: Seq<Seq<char>>) -> bool
        decreases segs.len(),
    {
        if segs.len() == 0 || segs[0].len() == 0 {
            true
        } else {
            match first_position(self.names, segs[0]) {
                None => true,
                Some(i) => index_fits(i) ==> i < self.children.len() && self.children[i].walk_safe(segs.drop_first()),
            }
        }
    }

    /// Each child that subscribing along `routes` steps into is there.
    pub open spec fn add_safe(self, routes: Seq<Seq<char>>) -> bool
        decreases routes.len(),
    {
        routes.len() > 0 ==> match first_position(self.names, routes[0]) {
            None => true,
            Some(i) => i < self.children.len() && (routes.len() > 1 ==> self.children[i].add_safe(routes.drop_first())),
        }
    }

    /// No node has more than `n` names.
    pub open spec fn fanout_below(self, n: int) -> bool
        decreases self,
    {
        &&& self.names.len() <= n
        &&& forall|i: int| 0 <= i < self.children.len() ==> (#[trigger] self.children[i]).fanout_below(n)
    }

    /// The connections a message on the topic with levels `routes` reaches.
    pub open spec fn recipients(self, routes: Seq<Seq<char>>) -> Seq<u64> {
        match self.walk(routes.push(Seq::empty()), None) {
            (true, Some(v)) => v,
            _ => Seq::empty(),
        }
    }

    /// The subscriber list at the end of the path `routes`, if the whole path
    /// is in the tree.
    pub open spec fn target_list(self, routes: Seq<Seq<char>>) -> Option<Option<Seq<u64>>>
        decreases routes.len(),
    {
        if routes.len() == 0 {
            Some(self.client)
        } else {
            match first_position(self.names, routes[0]) {
                None => None,
                Some(i) => self.children[i].target_list(routes.drop_first()),
            }
        }
    }
}

pub proof fn lemma_first_position(s: Seq<Seq<char>>, x: Seq<char>, i: int)
    requires
        0 <= i <= s.len(),
        forall|j: int| 0 <= j < i ==> s[j] != x,
    ensures
        i < s.len() && s[i] == x ==> first_position(s, x) == Some(i),
        i == s.len() ==> first_position(s, x) is None,
    decreases i,
{
    if i > 0 {
        lemma_first_position(s.drop_first(), x, i - 1);
    }
}

pub proof fn lemma_first_position_bounds(s: Seq<Seq<char>>, x: Seq<char>)
    ensures
        first_position(s, x) matches Some(i) ==> 0 <= i < s.len() && s[i] == x
            && forall|j: int| 0 <= j < i ==> s[j] != x,
        first_position(s, x) is None ==> !s.contains(x),
    decreases s.len(),
{
    if s.len() > 0 {
        lemma_first_position_bounds(s.drop_first(), x);
        if s[0] != x && first_position(s, x) is Some {
            let i = first_position(s, x).unwrap();
            assert forall|j: int| 0 <= j < i implies s[j] != x by {
                if j > 0 {
                    assert(s[j] == s.drop_first()[j - 1]);
                }
            }
        }
        if first_position(s, x) is None {
            assert forall|j: int| 0 <= j < s.len() implies s[j] != x by {
                if j > 0 {
                    assert(s[j] == s.drop_first()[j - 1]);
                }
            }
        }
    }
}

pub proof fn lemma_chain_wf(routes: Seq<Seq<char>>, client: u64)
    ensures
        chain(routes, client).wf(),
    decreases routes.len(),
{
    if routes.len() > 0 {
        lemma_chain_wf(routes.drop_first(), client);
        let c = chain(routes, client);
        assert(c.children[0] == chain(routes.drop_first(), client));
    }
}

/// Subscribing keeps a tree well formed.
pub proof fn lemma_add_route_wf(node: RouteNode, routes: Seq<Seq<char>>, client: u64, closed: Seq<u64>)
    requires
        node.wf(),
    ensures
        node.add_route_spec(routes, client, closed).wf(),
    decreases routes.len(),
{
    if routes.len() > 0 {
        lemma_first_position_bounds(node.names, routes[0]);
        let r = node.add_route_spec(routes, client, closed);
        match first_position(node.names, routes[0]) {
            Some(idx) => {
                assert(0 <= idx < node.names.len());
                assert(node.names.len() <= node.children.len());
                assert(node.children[idx].wf());
                if routes.len() > 1 {
                    lemma_add_route_wf(node.children[idx], routes.drop_first(), client, closed);
                }
                assert forall|i: int| 0 <= i < r.children.len() implies (#[trigger] r.children[i]).wf() by {
                    if i != idx {
                        assert(r.children[i] == node.children[i]);
                    }
                }
            },
            None => {
                lemma_chain_wf(routes.drop_first(), client);
                assert forall|i: int| 0 <= i < r.children.len() implies (#[trigger] r.children[i]).wf() by {
                    if i < node.children.len() {
                        assert(r.children[i] == node.children[i]);
                    }
                }
            },
        }
    }
}

/// In a well-formed tree every child a lookup steps into is there.
pub proof fn lemma_wf_walk_safe(node: RouteNode, segs: Seq<Seq<char>>)
    requires
        node.wf(),
    ensures
        node.walk_safe(segs),
    decreases segs.len(),
{
    if segs.len() > 0 && segs[0].len() > 0 {
        lemma_first_position_bounds(node.names, segs[0]);
        if let Some(i) = first_position(node.names, segs[0]) {
            assert(node.children[i].wf());
            lemma_wf_walk_safe(node.children[i], segs.drop_first());
        }
    }
}

/// In a well-formed tree every child a subscription steps into is there.
pub proof fn lemma_wf_add_safe(node: RouteNode, routes: Seq<Seq<char>>)
    requires
        node.wf(),
    ensures
        node.add_safe(routes),
    decreases routes.len(),
{
    if routes.len() > 0 {
        lemma_first_position_bounds(node.names, routes[0]);
        if let Some(i) = first_position(node.names, routes[0]) {
            assert(node.children[i].wf());
            lemma_wf_add_safe(node.children[i], routes.drop_first());
        }
    }
}

/// A balanced tree is well formed.
pub proof fn lemma_balanced_wf(node: RouteNode)
    requires
        node.balanced(),
    ensures
        node.wf(),
    decreases node,
{
    assert forall|i: int| 0 <= i < node.children.len() implies (#[trigger] node.children[i]).wf() by {
        assert(node.children[i].balanced());
        lemma_balanced_wf(node.children[i]);
    }
}

proof fn lemma_chain_balanced(routes: Seq<Seq<char>>, client: u64)
    ensures
        chain(routes, client).balanced(),
    decreases routes.len(),
{
    if routes.len() > 0 {
        lemma_chain_balanced(routes.drop_first(), client);
        let c = chain(routes, client);
        assert(c.children[0] == chain(routes.drop_first(), client));
        assert forall|i: int| 0 <= i < c.children.len() implies (#[trigger] c.children[i]).balanced() by {
            assert(c.children[i] == chain(routes.drop_first(), client));
        }
    }
}

/// Subscribing keeps a tree balanced.
pub proof fn lemma_add_route_balanced(node: RouteNode, routes: Seq<Seq<char>>, client: u64, closed: Seq<u64>)
    requires
        node.balanced(),
    ensures
        node.add_route_spec(routes, client, closed).balanced(),
    decreases routes.len(),
{
    if routes.len() > 0 {
        lemma_first_position_bounds(node.names, routes[0]);
        let r = node.add_route_spec(routes, client, closed);
        match first_position(node.names, routes[0]) {
            Some(idx) => {
                assert(node.children[idx].balanced());
                if routes.len() > 1 {
                    lemma_add_route_balanced(node.children[idx], routes.drop_first(), client, closed);
                }
                assert forall|i: int| 0 <= i < r.children.len() implies (#[trigger] r.children[i]).balanced() by {
                    if i != idx {
                        assert(r.children[i] == node.children[i]);
                    }
                }
            },
            None => {
                lemma_chain_balanced(routes.drop_first(), client);
                assert forall|i: int| 0 <= i < r.children.len() implies (#[trigger] r.children[i]).balanced() by {
                    if i < node.children.len() {
                        assert(r.children[i] == node.children[i]);
                    }
                }
            },
        }
    }
}

/// A bound on the number of names per node holds of every larger bound.
pub proof fn lemma_fanout_mono(node: RouteNode, n: int, m: int)
    requires
        node.fanout_below(n),
        n <= m,
    ensures
        node.fanout_below(m),
    decreases node,
{
    assert forall|i: int| 0 <= i < node.children.len() implies (#[trigger] node.children[i]).fanout_below(m) by {
        assert(node.children[i].fanout_below(n));
        lemma_fanout_mono(node.children[i], n, m);
    }
}

proof fn lemma_chain_fanout(routes: Seq<Seq<char>>, client: u64)
    ensures
        chain(routes, client).fanout_below(1),
    decreases routes.len(),
{
    if routes.len() > 0 {
        lemma_chain_fanout(routes.drop_first(), client);
        let c = chain(routes, client);
        assert forall|i: int| 0 <= i < c.children.len() implies (#[trigger] c.children[i]).fanout_below(1) by {
            assert(c.children[i] == chain(routes.drop_first(), client));
        }
    }
}

/// Subscribing adds at most one name to any node.
pub proof fn lemma_add_route_fanout(node: RouteNode, routes: Seq<Seq<char>>, client: u64, closed: Seq<u64>, n: int)
    requires
        node.wf(),
        node.fanout_below(n),
        n >= 0,
    ensures
        node.add_route_spec(routes, client, closed).fanout_below(n + 1),
    decreases routes.len(),
{
    lemma_fanout_mono(node, n, n + 1);
    if routes.len() > 0 {
        lemma_first_position_bounds(node.names, routes[0]);
        let r = node.add_route_spec(routes, client, closed);
        match first_position(node.names, routes[0]) {
            Some(idx) => {
                assert(node.children[idx].wf());
                assert(node.children[idx].fanout_below(n));
                if routes.len() > 1 {
                    lemma_add_route_fanout(node.children[idx], routes.drop_first(), client, closed, n);
                } else {
                    lemma_fanout_mono(node.children[idx], n, n + 1);
                }
                assert forall|i: int| 0 <= i < r.children.len() implies (#[trigger] r.children[i]).fanout_below(n + 1) by {
                    if i != idx {
                        assert(r.children[i] == node.children[i]);
                    }
                }
            },
            None => {
                lemma_chain_fanout(routes.drop_first(), client);
                lemma_fanout_mono(chain(routes.drop_first(), client), 1, n + 1);
                assert forall|i: int| 0 <= i < r.children.len() implies (#[trigger] r.children[i]).fanout_below(n + 1) by {
                    if i < node.children.len() {
                        assert(r.children[i] == node.children[i]);
                    }
                }
            },
        }
    }
}

proof fn lemma_chain_distinct(routes: Seq<Seq<char>>, client: u64)
    ensures
        chain(routes, client).distinct(),
    decreases routes.len(),
{
    if routes.len() > 0 {
        lemma_chain_distinct(routes.drop_first(), client);
        let c = chain(routes, client);
        assert forall|i: int| 0 <= i < c.children.len() implies (#[trigger] c.children[i]).distinct() by {
            assert(c.children[i] == chain(routes.drop_first(), client));
        }
    }
}

/// Subscribing keeps the names of each node's children distinct: a name is
/// added only where no child has it yet.
pub proof fn lemma_add_route_distinct(node: RouteNode, routes: Seq<Seq<char>>, client: u64, closed: Seq<u64>)
    requires
        node.wf(),
        node.distinct(),
    ensures
        node.add_route_spec(routes, client, closed).distinct(),
    decreases routes.len(),
{
    if routes.len() > 0 {
        lemma_first_position_bounds(node.names, routes[0]);
        let r = node.add_route_spec(routes, client, closed);
        match first_position(node.names, routes[0]) {
            Some(idx) => {
                assert(node.children[idx].distinct());
                assert(node.children[idx].wf());
                if routes.len() > 1 {
                    lemma_add_route_distinct(node.children[idx], routes.drop_first(), client, closed);
                }
                assert forall|i: int| 0 <= i < r.children.len() implies (#[trigger] r.children[i]).distinct() by {
                    if i != idx {
                        assert(r.children[i] == node.children[i]);
                    }
                }
            },
            None => {
                lemma_chain_distinct(routes.drop_first(), client);
                assert forall|i: int, j: int| 0 <= i < j < r.names.len() implies r.names[i] != r.names[j] by {
                    if j == node.names.len() {
                        assert(r.names[j] == routes[0]);
                        assert(r.names[i] == node.names[i]);
                        assert(!node.names.contains(routes[0]));
                    } else {
                        assert(r.names[i] == node.names[i]);
                        assert(r.names[j] == node.names[j]);
                    }
                }
                assert forall|i: int| 0 <= i < r.children.len() implies (#[trigger] r.children[i]).distinct() by {
                    if i < node.children.len() {
                        assert(r.children[i] == node.children[i]);
                    }
                }
            },
        }
    }
}

/// One level of the subscription tree, as the broker keeps it.
#[derive(Debug)]
pub struct RouteEntity {
    pub children_name: Vec<String>,
    pub children_entity: Vec<RouteEntity>,
    pub client: Option<Vec<u64>>,
}

/// Whether `x` occurs in `v`.
pub fn contains_id(v: &Vec<u64>, x: u64) -> (r: bool)
    ensures
        r == v@.contains(x),
{
    let mut k: usize = 0;
    while k < v.len()
        invariant
            k <= v.len(),
            forall|j: int| 0 <= j < k ==> v@[j] != x,
        decreases v.len() - k,
    {
        if v[k] == x {
            return true;
        }
        k = k + 1;
    }
    false
}

/// A copy of `v`.
pub fn copy_ids(v: &Vec<u64>) -> (r: Vec<u64>)
    ensures
        r@ == v@,
{
    let mut r: Vec<u64> = Vec::new();
    let mut k: usize = 0;
    while k < v.len()
        invariant
            k <= v.len(),
            r@ == v@.subrange(0, k as int),
        decreases v.len() - k,
    {
        r.push(v[k]);
        k = k + 1;
    }
    r
}

/// The entries of `v` not listed in `closed`, in order.
fn prune_closed(v: &Vec<u64>, closed: &Vec<u64>) -> (r: Vec<u64>)
    ensures
        r@ == v@.filter(open_ids(closed@)),
{
    let ghost pred = open_ids(closed@);
    let mut r: Vec<u64> = Vec::new();
    let mut k: usize = 0;
    while k < v.len()
        invariant
            k <= v.len(),
            pred == open_ids(closed@),
            r@ == v@.subrange(0, k as int).filter(pred),
        decreases v.len() - k,
    {
        assert(v@.subrange(0, k + 1).drop_last() == v@.subrange(0, k as int));
        assert(v@.subrange(0, k + 1).last() == v@[k as int]);
        let ghost r0 = r@;
        let c = contains_id(closed, v[k]);
        assert(pred(v@[k as int]) == !c);
        if !c {
            r.push(v[k]);
        }
        assert(v@.subrange(0, k + 1).filter(pred) == (if pred(v@[k as int]) { r0.push(v@[k as int]) } else { r0 })) by {
            reveal_with_fuel(Seq::filter, 1);
        }
        k = k + 1;
    }
    assert(v@.subrange(0, v@.len() as int) == v@);
    r
}

impl RouteEntity {
    pub open spec fn node(self) -> RouteNode
        decreases self, 1nat,
    {
        RouteNode {
            names: string_views(self.children_name@),
            children: Self::nodes(self.children_entity@),
            client: client_view(self.client),
        }
    }

    pub open spec fn nodes(s: Seq<RouteEntity>) -> Seq<RouteNode>
        decreases s, 0nat,
    {
        if s.len() == 0 {
            Seq::empty()
        } else {
            Self::nodes(s.drop_last()).push(s.last().node())
        }
    }

    /// Each level has a child for each name.
    pub open spec fn wf(&self) -> bool {
        self.node().wf()
    }

    proof fn lemma_nodes(s: Seq<RouteEntity>)
        ensures
            Self::nodes(s).len() == s.len(),
            forall|i: int| 0 <= i < s.len() ==> #[trigger] Self::nodes(s)[i] == s[i].node(),
        decreases s.len(),
    {
        if s.len() > 0 {
            Self::lemma_nodes(s.drop_last());
        }
    }

    proof fn lemma_node_fields(&self)
        ensures
            self.node().names == string_views(self.children_name@),
            self.node().children.len() == self.children_entity@.len(),
            forall|i: int| 0 <= i < self.children_entity@.len()
                ==> #[trigger] self.node().children[i] == self.children_entity@[i].node(),
            self.node().client == client_view(self.client),
    {
        Self::lemma_nodes(self.children_entity@);
    }

    proof fn lemma_push_child(old: RouteEntity, name: String, child: RouteEntity)
        ensures
            forall|fs: RouteEntity, fc: RouteEntity|
                fs.children_name@ == old.children_name@.push(name)
                && fs.children_entity@ == old.children_entity@.push(child).update(old.children_entity@.len() as int, fc)
                && fs.client == old.client
                ==> {
                    &&& #[trigger] fs.node() == (RouteNode {
                        names: old.node().names.push(name@),
                        children: old.node().children.push(#[trigger] fc.node()),
                        client: old.node().client,
                    })
                    &&& (old.wf() && fc.wf() ==> fs.wf())
                },
    {
        old.lemma_node_fields();
        assert forall|fs: RouteEntity, fc: RouteEntity|
            fs.children_name@ == old.children_name@.push(name)
            && fs.children_entity@ == old.children_entity@.push(child).update(old.children_entity@.len() as int, fc)
            && fs.client == old.client
            implies {
                &&& #[trigger] fs.node() == (RouteNode {
                    names: old.node().names.push(name@),
                    children: old.node().children.push(#[trigger] fc.node()),
                    client: old.node().client,
                })
                &&& (old.wf() && fc.wf() ==> fs.wf())
            } by {
            fs.lemma_node_fields();
            assert(fs.children_entity@ == old.children_entity@.push(fc));
            assert(fs.node().names == old.node().names.push(name@));
            assert(fs.node().children == old.node().children.push(fc.node()));
            if old.wf() && fc.wf() {
                assert forall|i: int| 0 <= i < fs.node().children.len() implies (#[trigger] fs.node().children[i]).wf() by {
                    if i < old.node().children.len() {
                        assert(fs.node().children[i] == old.node().children[i]);
                    }
                }
            }
        }
    }

    pub fn init_empty() -> (r: RouteEntity)
        ensures
            r.node() == (RouteNode { names: Seq::empty(), children: Seq::empty(), client: None }),
            r.wf(),
            r.node().balanced(),
            r.node().distinct(),
    {
        let r = RouteEntity { children_name: Vec::new(), children_entity: Vec::new(), client: None };
        proof {
            r.lemma_node_fields();
            assert(r.node().names =~= Seq::<Seq<char>>::empty());
            assert(r.node().children =~= Seq::<RouteNode>::empty());
        }
        r
    }

    pub fn init(children_name: Vec<String>, children_entity: Vec<RouteEntity>, client: Option<Vec<u64>>) -> (r: RouteEntity)
        ensures
            r.node().names == string_views(children_name@),
            r.node().children.len() == children_entity.len(),
            forall|i: int| 0 <= i < children_entity.len() ==> #[trigger] r.node().children[i] == children_entity@[i].node(),
            r.node().client == client_view(client),
            r.wf() == (children_name.len() <= children_entity.len()
                && forall|i: int| 0 <= i < children_entity.len() ==> #[trigger] children_entity@[i].wf()),
            children_name.len() == children_entity.len()
                && (forall|i: int| 0 <= i < children_entity.len() ==> #[trigger] children_entity@[i].node().balanced())
                ==> r.node().balanced(),
    {
        let r = RouteEntity { children_name, children_entity, client };
        proof {
            r.lemma_node_fields();
            if r.children_name@.len() <= r.children_entity@.len()
                && forall|i: int| 0 <= i < r.children_entity@.len() ==> #[trigger] r.children_entity@[i].wf() {
                assert forall|i: int| 0 <= i < r.node().children.len() implies (#[trigger] r.node().children[i]).wf() by {
                    assert(r.node().children[i] == r.children_entity@[i].node());
                    assert(r.children_entity@[i].wf());
                }
            }
            if r.node().wf() {
                assert forall|i: int| 0 <= i < r.children_entity@.len() implies #[trigger] r.children_entity@[i].wf() by {
                    assert(r.node().children[i] == r.children_entity@[i].node());
                    assert(r.node().children[i].wf());
                }
            }
            if r.children_name@.len() == r.children_entity@.len()
                && (forall|i: int| 0 <= i < r.children_entity@.len() ==> #[trigger] r.children_entity@[i].node().balanced()) {
                assert forall|i: int| 0 <= i < r.node().children.len() implies (#[trigger] r.node().children[i]).balanced() by {
                    assert(r.node().children[i] == r.children_entity@[i].node());
                    assert(r.children_entity@[i].node().balanced());
                }
            }
        }
        r
    }

    /// Position of the first child named `name`.
    fn position(&self, name: &String) -> (r: Option<usize>)
        ensures
            r matches Some(k) ==> first_position(self.node().names, name@) == Some(k as int),
            r is None ==> first_position(self.node().names, name@) is None,
    {
        proof {
            self.lemma_node_fields();
        }
        let ghost names = self.node().names;
        let mut k: usize = 0;
        while k < self.children_name.len()
            invariant
                names == string_views(self.children_name@),
                k <= self.children_name.len(),
                forall|j: int| 0 <= j < k ==> names[j] != name@,
            decreases self.children_name.len() - k,
        {
            if self.children_name[k] == *name {
                proof {
                    lemma_first_position(names, name@, k as int);
                }
                return Some(k);
            }
            k = k + 1;
        }
        proof {
            lemma_first_position(names, name@, k as int);
        }
        None
    }

    /// The child named `child_route` (none for an empty name) together with
    /// this level's subscriber list; nothing when no child has that name.
    pub fn find_child(&self, child_route: &str) -> (r: Option<(Option<&RouteEntity>, &Option<Vec<u64>>)>)
        requires
            child_route@.len() != 0 ==> (first_position(self.node().names, child_route@) matches Some(i)
                ==> (index_fits(i) ==> i < self.node().children.len())),
        ensures
            child_route@.len() == 0 ==> (r matches Some((None, cl)) && client_view(*cl) == self.node().client),
            child_route@.len() != 0 ==> match first_position(self.node().names, child_route@) {
                Some(i) => if index_fits(i) {
                    r matches Some((Some(c), cl)) && client_view(*cl) == self.node().client
                        && c.node() == self.node().children[i] && (self.wf() ==> c.wf())
                } else {
                    r is None
                },
                None => r is None,
            },
    {
        proof {
            self.lemma_node_fields();
        }
        let children_entity = &self.children_entity;
        let client = &self.client;
        let route_string = child_route.to_owned();
        assert(route_string@ == child_route@);
        if !child_route.is_empty() {
            if let Some(idx) = self.position(&route_string) {
                proof {
                    lemma_first_position_bounds(self.node().names, child_route@);
                    assert(first_position(self.node().names, child_route@) == Some(idx as int));
                    assert(((idx as i16) >= 0) == (idx % 65536 < 32768)) by (bit_vector);
                }
                if (idx as i16) >= 0 {
                    proof {
                        assert(children_entity@[idx as int].node() == self.node().children[idx as int]);
                        if self.wf() {
                            assert(self.node().children[idx as int].wf());
                        }
                    }
                    return Some((Some(&children_entity[idx]), client));
                }
            }
        } else {
            return Some((None, client));
        }
        None
    }

    /// This level's subscriber list, to read or replace.
    pub fn get_client(&mut self) -> (r: &mut Option<Vec<u64>>)
        ensures
            client_view(*r) == old(self).node().client,
            final(self).node() == (RouteNode { client: client_view(*final(r)), ..old(self).node() }),
            final(self).wf() == old(self).wf(),
    {
        proof {
            old(self).lemma_node_fields();
        }
        &mut self.client
    }

    /// Looks up the topic `route` level by level, as `RouteNode::walk` says,
    /// with an empty level added at its end; `_client_point` is the list
    /// returned when the first level is missing.
    pub fn deep_find_children<'a>(&'a self, route: String, _client_point: &'a Option<Vec<u64>>) -> (r: (bool, &'a Option<Vec<u64>>))
        requires
            self.node().walk_safe(split_on(route@, '/').push(Seq::empty())),
        ensures
            ({
                let (hit, cl) = self.node().walk(split_on(route@, '/').push(Seq::empty()), client_view(*_client_point));
                r.0 == hit && client_view(*r.1) == cl
            }),
    {
        let mut route_names = split_levels(route.as_str());
        route_names.push(String::new());
        let ghost segs = split_on(route@, '/').push(Seq::empty());
        assert(string_views(route_names@) == segs);
        let mut entity = self;
        let mut client_point = _client_point;
        let mut hit = true;
        let mut k: usize = 0;
        let ghost goal = self.node().walk(segs, client_view(*_client_point));
        assert(segs.subrange(0, segs.len() as int) == segs);
        while k < route_names.len()
            invariant_except_break
                k <= route_names.len(),
                entity.node().walk_safe(segs.subrange(k as int, segs.len() as int)),
                hit,
                entity.node().walk(segs.subrange(k as int, segs.len() as int), client_view(*client_point)) == goal,
            invariant
                string_views(route_names@) == segs,
            ensures
                hit == goal.0 && client_view(*client_point) == goal.1,
            decreases route_names.len() - k,
        {
            let ghost rest = segs.subrange(k as int, segs.len() as int);
            assert(rest[0] == route_names@[k as int]@);
            assert(rest.drop_first() == segs.subrange(k + 1, segs.len() as int));
            match entity.find_child(route_names[k].as_str()) {
                Some((r, ct)) => {
                    client_point = ct;
                    match r {
                        Some(_r) => entity = _r,
                        None => {
                            break;
                        },
                    };
                },
                None => {
                    hit = false;
                    break;
                },
            }
            k = k + 1;
        }
        (hit, client_point)
    }

    /// Adds the child `child_entity` named `child_name` after the others and
    /// returns it.
    pub fn push_child(&mut self, child_name: String, child_entity: RouteEntity) -> (r: &mut RouteEntity)
        ensures
            *r == child_entity,
            final(self).node() == (RouteNode {
                names: old(self).node().names.push(child_name@),
                children: old(self).node().children.push(final(r).node()),
                client: old(self).node().client,
            }),
            old(self).wf() && final(r).wf() ==> final(self).wf(),
    {
        proof {
            Self::lemma_push_child(*old(self), child_name, child_entity);
        }
        self.children_name.push(child_name);
        self.children_entity.push(child_entity);
        let idx = self.children_entity.len() - 1;
        &mut self.children_entity[idx]
    }

    /// Subscribes `client` at the child `idx`: its list drops the connections
    /// listed in `closed` and gains `client` at the end.
    fn check_and_push(&mut self, idx: usize, client: u64, closed: &Vec<u64>)
        requires
            idx < old(self).node().children.len(),
        ensures
            final(self).node() == (RouteNode {
                children: old(self).node().children.update(
                    idx as int,
                    RouteNode {
                        client: push_client(old(self).node().children[idx as int].client, client, closed@),
                        ..old(self).node().children[idx as int]
                    },
                ),
                ..old(self).node()
            }),
            old(self).wf() ==> final(self).wf(),
    {
        proof {
            self.lemma_node_fields();
        }
        let ghost old_children = self.children_entity@;
        let mut child = self.children_entity.remove(idx);
        let ghost old_child = child;
        let new_client = match &child.client {
            Some(vec) => {
                let mut v = prune_closed(vec, closed);
                v.push(client);
                Some(v)
            },
            None => Some(vec![client]),
        };
        child.client = new_client;
        self.children_entity.insert(idx, child);
        proof {
            old_child.lemma_node_fields();
            child.lemma_node_fields();
            assert(child.node().names == old_child.node().names);
            assert(child.node().children == old_child.node().children);
            assert(client_view(new_client) == push_client(old_child.node().client, client, closed@));
            assert(self.children_entity@ == old_children.update(idx as int, child));
            self.lemma_node_fields();
            assert(self.node().children == old(self).node().children.update(idx as int, child.node()));
            if old(self).wf() {
                assert(old_child.node().wf());
                assert(child.node().wf()) by {
                    assert forall|i: int| 0 <= i < child.node().children.len() implies (#[trigger] child.node().children[i]).wf() by {
                        assert(child.node().children[i] == old_child.node().children[i]);
                    }
                }
                assert forall|i: int| 0 <= i < self.node().children.len() implies (#[trigger] self.node().children[i]).wf() by {
                    if i != idx {
                        assert(self.node().children[i] == old(self).node().children[i]);
                    }
                }
            }
        }
    }

    /// Subscribes `client` to the topic with levels `routes`, as
    /// `RouteNode::add_route_spec` says; `closed` lists the connections that
    /// have been shut down.
    pub fn add_route(&mut self, mut routes: Vec<String>, client: u64, closed: &Vec<u64>)
        requires
            old(self).node().add_safe(string_views(routes@)),
            routes.len() >= 1,
        ensures
            final(self).node() == old(self).node().add_route_spec(string_views(routes@), client, closed@),
            old(self).wf() ==> final(self).wf(),
            old(self).node().balanced() ==> final(self).node().balanced(),
            old(self).wf() && old(self).node().distinct() ==> final(self).node().distinct(),
        decreases routes.len(),
    {
        proof {
            if old(self).node().balanced() {
                lemma_add_route_balanced(old(self).node(), string_views(routes@), client, closed@);
            }
            if old(self).wf() && old(self).node().distinct() {
                lemma_add_route_distinct(old(self).node(), string_views(routes@), client, closed@);
            }
        }
        proof {
            self.lemma_node_fields();
        }
        let ghost views = string_views(routes@);
        let name = routes[0].clone();
        assert(views[0] == name@);
        if let Some(idx) = self.position(&name) {
            proof {
                lemma_first_position_bounds(self.node().names, name@);
            }
            if routes.len() > 1 {
                routes.remove(0);
                assert(string_views(routes@) == views.drop_first());
                let ghost old_children = self.children_entity@;
                let mut child = self.children_entity.remove(idx);
                let ghost old_child = child;
                assert(old_child.node() == old(self).node().children[idx as int]);
                child.add_route(routes, client, closed);
                self.children_entity.insert(idx, child);
                proof {
                    assert(self.children_entity@ == old_children.update(idx as int, child));
                    self.lemma_node_fields();
                    assert(self.node().children == old(self).node().children.update(idx as int, child.node()));
                    if old(self).wf() {
                        assert(old(self).node().children[idx as int].wf());
                        assert forall|i: int| 0 <= i < self.node().children.len() implies (#[trigger] self.node().children[i]).wf() by {
                            if i != idx {
                                assert(self.node().children[i] == old(self).node().children[i]);
                            }
                        }
                    }
                }
            } else {
                self.check_and_push(idx, client, closed);
            }
        } else {
            let n = routes.len();
            let mut node = RouteEntity { children_name: Vec::new(), children_entity: Vec::new(), client: Some(vec![client]) };
            proof {
                node.lemma_node_fields();
                assert(node.node().names =~= Seq::<Seq<char>>::empty());
                assert(node.node().children =~= Seq::<RouteNode>::empty());
                assert(node.node().client == Some(seq![client]));
                assert(views.subrange(n as int, n as int).len() == 0);
                assert(node.node() == chain(views.subrange(n as int, n as int), client));
            }
            let mut k: usize = n;
            while k > 1
                invariant
                    1 <= k <= n,
                    n == routes.len(),
                    views == string_views(routes@),
                    node.wf(),
                    node.node() == chain(views.subrange(k as int, n as int), client),
                decreases k,
            {
                k = k - 1;
                let nm = routes[k].clone();
                let ghost below = node;
                let mut names: Vec<String> = Vec::new();
                names.push(nm);
                let mut kids: Vec<RouteEntity> = Vec::new();
                kids.push(node);
                node = RouteEntity { children_name: names, children_entity: kids, client: None };
                proof {
                    node.lemma_node_fields();
                    let sub = views.subrange(k as int, n as int);
                    assert(sub.drop_first() == views.subrange(k + 1, n as int));
                    assert(sub[0] == nm@);
                    assert(node.node().names == seq![sub[0]]);
                    assert(node.node().children == seq![below.node()]);
                    assert forall|i: int| 0 <= i < node.node().children.len() implies (#[trigger] node.node().children[i]).wf() by {
                        assert(node.node().children[i] == below.node());
                    }
                }
            }
            assert(views.subrange(1, n as int) == views.drop_first());
            let _ = self.push_child(name, node);
        }
    }

    /// A copy of this tree.
    pub fn duplicate(&self) -> (r: RouteEntity)
        ensures
            r.node() == self.node(),
        decreases self,
    {
        proof {
            self.lemma_node_fields();
        }
        let mut names: Vec<String> = Vec::new();
        let mut k: usize = 0;
        while k < self.children_name.len()
            invariant
                k <= self.children_name.len(),
                names@ == self.children_name@.subrange(0, k as int),
            decreases self.children_name.len() - k,
        {
            names.push(self.children_name[k].clone());
            k = k + 1;
        }
        let mut kids: Vec<RouteEntity> = Vec::new();
        let mut j: usize = 0;
        while j < self.children_entity.len()
            invariant
                j <= self.children_entity.len(),
                kids.len() == j,
                forall|i: int| 0 <= i < j ==> #[trigger] kids@[i].node() == self.children_entity@[i].node(),
            decreases self.children_entity.len() - j,
        {
            let c = self.children_entity[j].duplicate();
            kids.push(c);
            j = j + 1;
        }
        let client = match &self.client {
            Some(v) => Some(copy_ids(v)),
            None => None,
        };
        let r = RouteEntity { children_name: names, children_entity: kids, client };
        proof {
            r.lemma_node_fields();
            assert(names@ == self.children_name@);
            assert(r.node().children == self.node().children);
        }
        r
    }

    /// Whether the whole path `routes` is in the tree with a subscriber list
    /// at its end that lists `client`.
    pub fn list_contains(&self, routes: &Vec<String>, client: u64) -> (r: bool)
        requires
            self.wf(),
        ensures
            r == (self.node().target_list(string_views(routes@)) matches Some(Some(v)) && v.contains(client)),
    {
        let ghost segs = string_views(routes@);
        let mut entity = self;
        let mut k: usize = 0;
        assert(segs.subrange(0, segs.len() as int) == segs);
        while k < routes.len()
            invariant
                k <= routes.len(),
                segs == string_views(routes@),
                entity.wf(),
                entity.node().target_list(segs.subrange(k as int, segs.len() as int))
                    == self.node().target_list(segs),
            decreases routes.len() - k,
        {
            proof {
                entity.lemma_node_fields();
                let rest = segs.subrange(k as int, segs.len() as int);
                assert(rest[0] == routes@[k as int]@);
                assert(rest.drop_first() == segs.subrange(k + 1, segs.len() as int));
                lemma_first_position_bounds(entity.node().names, rest[0]);
            }
            match entity.position(&routes[k]) {
                Some(idx) => {
                    proof {
                        assert(entity.node().children[idx as int].wf());
                    }
                    entity = &entity.children_entity[idx];
                },
                None => {
                    return false;
                },
            }
            k = k + 1;
        }
        proof {
            entity.lemma_node_fields();
            assert(segs.subrange(k as int, segs.len() as int).len() == 0);
        }
        match &entity.client {
            Some(v) => contains_id(v, client),
            None => false,
        }
    }
}

impl Clone for RouteEntity {
    fn clone(&self) -> (r: Self)
        ensures
            r.node() == self.node(),
    {
        self.duplicate()
    }
}

impl RouteNode {
    /// The subscriber list at the end of the path `routes`; none when the
    /// path is not in the tree or no list is kept there.
    pub open spec fn list_at(self, routes: Seq<Seq<char>>) -> Option<Seq<u64>> {
        match self.target_list(routes) {
            Some(c) => c,
            None => None,
        }
    }
}

proof fn lemma_first_position_push(s: Seq<Seq<char>>, x: Seq<char>, y: Seq<char>)
    ensures
        first_position(s.push(x), y) == (match first_position(s, y) {
            Some(i) => Some(i),
            None => if y == x { Some(s.len() as int) } else { None },
        }),
    decreases s.len(),
{
    if s.len() > 0 {
        assert(s.push(x)[0] == s[0]);
        assert(s.push(x).drop_first() == s.drop_first().push(x));
        lemma_first_position_push(s.drop_first(), x, y);
    } else {
        assert(s.push(x)[0] == x);
        assert(s.push(x).drop_first() == Seq::<Seq<char>>::empty());
        assert(first_position(Seq::<Seq<char>>::empty(), y) is None);
    }
}

pub proof fn lemma_walk_target(node: RouteNode, routes: Seq<Seq<char>>, cp: Option<Seq<u64>>)
    requires
        all_levels_named(routes),
        node.balanced(),
        node.fanout_below(32768),
    ensures
        node.walk(routes.push(Seq::empty()), cp).0 == (node.target_list(routes) is Some),
        node.target_list(routes) matches Some(c) ==> node.walk(routes.push(Seq::empty()), cp).1 == c,
    decreases routes.len(),
{
    let segs = routes.push(Seq::<char>::empty());
    if routes.len() > 0 {
        assert(segs[0] == routes[0]);
        assert(segs.drop_first() == routes.drop_first().push(Seq::empty()));
        assert(all_levels_named(routes.drop_first())) by {
            assert forall|k: int| 0 <= k < routes.drop_first().len() implies #[trigger] routes.drop_first()[k].len() > 0 by {
                assert(routes.drop_first()[k] == routes[k + 1]);
            }
        }
        lemma_first_position_bounds(node.names, routes[0]);
        match first_position(node.names, routes[0]) {
            Some(i) => {
                assert(i % 65536 == i) by (nonlinear_arith)
                    requires 0 <= i < 32768;
                assert(node.children[i].balanced());
                assert(node.children[i].fanout_below(32768));
                lemma_walk_target(node.children[i], routes.drop_first(), node.client);
            },
            None => {},
        }
    }
}

/// For paths made of named levels, the recipients are the list at the path's end.
pub proof fn lemma_recipients_list(node: RouteNode, routes: Seq<Seq<char>>)
    requires
        all_levels_named(routes),
        node.balanced(),
        node.fanout_below(32768),
    ensures
        node.recipients(routes) == (match node.list_at(routes) {
            Some(v) => v,
            None => Seq::empty(),
        }),
{
    lemma_walk_target(node, routes, None);
}

proof fn lemma_chain_target(routes: Seq<Seq<char>>, other: Seq<Seq<char>>, client: u64)
    ensures
        chain(routes, client).target_list(routes) == Some(Some(seq![client])),
        other != routes ==> chain(routes, client).list_at(other) is None,
    decreases routes.len(),
{
    let c = chain(routes, client);
    if routes.len() > 0 {
        assert(first_position(c.names, routes[0]) == Some(0int));
        lemma_chain_target(routes.drop_first(), Seq::empty(), client);
        assert(c.client is None);
        if other.len() > 0 {
            if other[0] == routes[0] {
                assert(first_position(c.names, other[0]) == Some(0int));
                assert(c.children[0] == chain(routes.drop_first(), client));
                if other.drop_first() == routes.drop_first() {
                    assert(other == routes) by {
                        assert forall|k: int| 0 <= k < other.len() implies other[k] == routes[k] by {
                            if k > 0 {
                                assert(other[k] == other.drop_first()[k - 1]);
                                assert(routes[k] == routes.drop_first()[k - 1]);
                            }
                        }
                        assert(other =~= routes);
                    }
                }
                lemma_chain_target(routes.drop_first(), other.drop_first(), client);
            } else {
                assert(c.names[0] == routes[0]);
                assert(c.names.drop_first() == Seq::<Seq<char>>::empty());
                assert(first_position(c.names.drop_first(), other[0]) is None);
                assert(first_position(c.names, other[0]) is None);
            }
        }
    } else {
        assert(c.names.len() == 0);
        if other.len() > 0 {
            assert(first_position(c.names, other[0]) is None);
        } else {
            assert(other =~= routes);
        }
    }
}

/// A path's list does not depend on the list kept at its first node.
proof fn lemma_target_ignores_root_client(n: RouteNode, c: Option<Seq<u64>>, routes: Seq<Seq<char>>)
    requires
        routes.len() > 0,
    ensures
        (RouteNode { client: c, ..n }).target_list(routes) == n.target_list(routes),
{
}

/// Subscribing to a path gives it the subscriber list that `push_client`
/// says: the old list without the closed connections, then the new subscriber.
pub proof fn lemma_add_route_target(node: RouteNode, routes: Seq<Seq<char>>, client: u64, closed: Seq<u64>)
    requires
        node.balanced(),
        routes.len() >= 1,
    ensures
        node.add_route_spec(routes, client, closed).target_list(routes)
            == Some(push_client(node.list_at(routes), client, closed)),
    decreases routes.len(),
{
    let a = node.add_route_spec(routes, client, closed);
    lemma_first_position_bounds(node.names, routes[0]);
    match first_position(node.names, routes[0]) {
        Some(idx) => {
            assert(a.names == node.names);
            assert(node.target_list(routes) == node.children[idx].target_list(routes.drop_first()));
            assert(a.target_list(routes) == a.children[idx].target_list(routes.drop_first()));
            if routes.len() > 1 {
                assert(node.children[idx].balanced());
                assert(a.children[idx] == node.children[idx].add_route_spec(routes.drop_first(), client, closed));
                lemma_add_route_target(node.children[idx], routes.drop_first(), client, closed);
            } else {
                assert(routes.drop_first().len() == 0);
                assert(a.children[idx].client == push_client(node.children[idx].client, client, closed));
            }
        },
        None => {
            lemma_first_position_push(node.names, routes[0], routes[0]);
            lemma_chain_target(routes.drop_first(), routes.drop_first(), client);
            assert(a.children[node.names.len() as int] == chain(routes.drop_first(), client));
            assert(first_position(a.names, routes[0]) == Some(node.names.len() as int));
            assert(node.target_list(routes) is None);
        },
    }
}

/// Subscribing to one path leaves the list of every other path as it was.
pub proof fn lemma_add_route_other(node: RouteNode, routes: Seq<Seq<char>>, other: Seq<Seq<char>>, client: u64, closed: Seq<u64>)
    requires
        node.balanced(),
        routes.len() >= 1,
        other != routes,
    ensures
        node.add_route_spec(routes, client, closed).list_at(other) == node.list_at(other),
    decreases routes.len(),
{
    let a = node.add_route_spec(routes, client, closed);
    lemma_first_position_bounds(node.names, routes[0]);
    if other.len() == 0 {
        return;
    }
    lemma_first_position_bounds(node.names, other[0]);
    match first_position(node.names, routes[0]) {
        Some(idx) => {
            assert(a.names == node.names);
            if other[0] != routes[0] {
                match first_position(node.names, other[0]) {
                    Some(j) => {
                        assert(j != idx);
                        assert(a.children[j] == node.children[j]);
                    },
                    None => {},
                }
            } else {
                assert(first_position(node.names, other[0]) == Some(idx));
                let child = node.children[idx];
                assert(child.balanced());
                if other.drop_first() == routes.drop_first() {
                    assert(other =~= routes) by {
                        assert forall|k: int| 0 <= k < other.len() implies other[k] == routes[k] by {
                            if k > 0 {
                                assert(other[k] == other.drop_first()[k - 1]);
                                assert(routes[k] == routes.drop_first()[k - 1]);
                            }
                        }
                    }
                }
                if routes.len() > 1 {
                    lemma_add_route_other(child, routes.drop_first(), other.drop_first(), client, closed);
                } else {
                    if other.len() == 1 {
                        assert(other.drop_first() =~= routes.drop_first());
                    }
                    assert(other.drop_first().len() > 0);
                    lemma_target_ignores_root_client(child, push_client(child.client, client, closed), other.drop_first());
                }
            }
        },
        None => {
            lemma_first_position_push(node.names, routes[0], other[0]);
            if other[0] == routes[0] {
                let oi = node.names.len() as int;
                assert(a.children[oi] == chain(routes.drop_first(), client));
                if other.drop_first() == routes.drop_first() {
                    assert(other =~= routes) by {
                        assert forall|k: int| 0 <= k < other.len() implies other[k] == routes[k] by {
                            if k > 0 {
                                assert(other[k] == other.drop_first()[k - 1]);
                                assert(routes[k] == routes.drop_first()[k - 1]);
                            }
                        }
                    }
                }
                lemma_chain_target(routes.drop_first(), other.drop_first(), client);
            } else {
                match first_position(node.names, other[0]) {
                    Some(j) => {
                        assert(a.children[j] == node.children[j]);
                    },
                    None => {},
                }
            }
        },
    }
}

/// What a subscription does to delivery. Once `client` has subscribed to a
/// topic made of named levels, a message on that topic reaches the
/// connections it reached before, less those shut down, and then `client`;
/// a message on any other such topic reaches exactly whom it reached before.
/// Stated for trees whose nodes have fewer than 32767 children, so that the
/// lookup's 16-bit position check passes on every child it steps into.
pub proof fn law_subscribe_then_publish(
    node: RouteNode,
    routes: Seq<Seq<char>>,
    other: Seq<Seq<char>>,
    client: u64,
    closed: Seq<u64>,
)
    requires
        node.balanced(),
        node.fanout_below(32767),
        routes.len() >= 1,
        all_levels_named(routes),
        all_levels_named(other),
    ensures
        node.add_route_spec(routes, client, closed).recipients(routes)
            == node.recipients(routes).filter(open_ids(closed)).push(client),
        other != routes ==> node.add_route_spec(routes, client, closed).recipients(other) == node.recipients(other),
{
    let a = node.add_route_spec(routes, client, closed);
    lemma_balanced_wf(node);
    lemma_add_route_balanced(node, routes, client, closed);
    lemma_add_route_fanout(node, routes, client, closed, 32767);
    lemma_fanout_mono(node, 32767, 32768);
    lemma_add_route_target(node, routes, client, closed);
    lemma_recipients_list(a, routes);
    lemma_recipients_list(node, routes);
    if node.list_at(routes) is None {
        assert(Seq::<u64>::empty().filter(open_ids(closed)) == Seq::<u64>::empty()) by {
            reveal_with_fuel(Seq::filter, 1);
        }
    }
    if other != routes {
        lemma_add_route_other(node, routes, other, client, closed);
        lemma_recipients_list(a, other);
        lemma_recipients_list(node, other);
    }
}

} // verus!
