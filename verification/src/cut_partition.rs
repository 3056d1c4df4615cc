//! Minimum cuts between two nodes (by augmenting paths in a unit-capacity flow
//! network) and partitions of a graph into parts.
use std::collections::{HashMap, VecDeque};

use vstd::prelude::*;

use crate::error::SqliteGraphError;
use crate::graph::Graph;
use crate::reach::{
    is_path, lemma_bounded_set, lemma_closed_holds_reachable, lemma_path_node_reached, lemma_within_step,
    reaches, within,
};
use crate::hashing::{
    id_set_contains, id_set_insert, id_set_len, id_set_new, id_set_to_vec, id_set_view,
};
use crate::progress::ProgressCallback;
use crate::text::usize_text;

verus! {

broadcast use vstd::std_specs::hash::group_hash_axioms;

/// An edge of a flow network: its target, its capacity and the flow it carries.
#[derive(Clone, Copy)]
struct FlowEdge {
    to: i64,
    capacity: usize,
    flow: usize,
}

/// The edge has positive capacity and carries as much flow as it can.
spec fn is_full(e: FlowEdge) -> bool {
    e.capacity > 0 && e.flow == e.capacity
}

impl FlowEdge {
    /// An edge to `to` with the given capacity and no flow.
    fn new(to: i64, capacity: usize) -> (e: FlowEdge)
        ensures
            e == (FlowEdge { to, capacity, flow: 0 }),
    {
        FlowEdge { to, capacity, flow: 0 }
    }

    /// The flow that the edge can still take.
    fn residual(&self) -> (r: usize)
        requires
            self.flow <= self.capacity,
        ensures
            r == self.capacity - self.flow,
    {
        self.capacity - self.flow
    }

    /// Adds as much of `amount` as the edge can take, and returns the rest.
    fn add_flow(&mut self, amount: usize) -> (excess: usize)
        requires
            old(self).flow <= old(self).capacity,
        ensures
            final(self).to == old(self).to,
            final(self).capacity == old(self).capacity,
            final(self).flow <= final(self).capacity,
            final(self).flow - old(self).flow + excess == amount,
            excess > 0 ==> final(self).flow == final(self).capacity,
    {
        let r = self.residual();
        let can_add = if r < amount {
            r
        } else {
            amount
        };
        self.flow = self.flow + can_add;
        amount - can_add
    }
}

/// `b` holds every node and every edge (at the same place) that `a` holds.
spec fn keeps_edges(a: &FlowNetwork, b: &FlowNetwork) -> bool {
    &&& forall|w: i64| #[trigger] a.has_node(w) ==> b.has_node(w)
    &&& forall|w: i64| #[trigger] b.out(w).len() >= a.out(w).len()
    &&& forall|w: i64, i: int|
        #![trigger b.out(w)[i]]
        #![trigger a.out(w)[i]]
        (0 <= i && i < a.out(w).len()) ==> (b.out(w)[i] == a.out(w)[i])
}

/// What holding more says of one edge.
proof fn lemma_keeps_at(a: &FlowNetwork, b: &FlowNetwork, w: i64, i: int)
    requires
        keeps_edges(a, b),
        0 <= i < a.out(w).len(),
    ensures
        i < b.out(w).len(),
        b.out(w)[i] == a.out(w)[i],
{
}

/// Holding more is transitive.
proof fn lemma_extends_trans(a: &FlowNetwork, b: &FlowNetwork, c: &FlowNetwork)
    requires
        keeps_edges(a, b),
        keeps_edges(b, c),
    ensures
        keeps_edges(a, c),
{
    assert forall|w: i64, i: int| 0 <= i < a.out(w).len() implies i < c.out(w).len() && #[trigger] c.out(w)[i]
        == a.out(w)[i] by {
        lemma_keeps_at(a, b, w, i);
        lemma_keeps_at(b, c, w, i);
    }
    assert forall|w: i64| #[trigger] a.has_node(w) implies c.has_node(w) by {
        assert(b.has_node(w));
    }
}

/// A flow network: for each node, its outgoing edges, each paired with a reverse edge
/// of capacity zero in the list of its target.
struct FlowNetwork {
    adjacency: HashMap<i64, Vec<FlowEdge>>,
    node_list: Vec<i64>,
}

impl FlowNetwork {
    /// The edges that leave `u`, in the order of their insertion.
    spec fn out(&self, u: i64) -> Seq<FlowEdge> {
        if self.adjacency@.contains_key(u) {
            self.adjacency@[u]@
        } else {
            Seq::empty()
        }
    }

    /// `u` is a node of the network.
    spec fn has_node(&self, u: i64) -> bool {
        self.adjacency@.contains_key(u)
    }

    /// Some edge from `u` to `v` can take more flow.
    spec fn res_edge(&self, u: i64, v: i64) -> bool {
        exists|i: int|
            0 <= i < self.out(u).len() && (#[trigger] self.out(u)[i]).to == v && self.out(u)[i].flow
                < self.out(u)[i].capacity
    }

    /// The node list lists the nodes once each, and no edge carries more than its capacity.
    spec fn wf(&self) -> bool {
        &&& self.node_list@.no_duplicates()
        &&& forall|u: i64, i: int|
            0 <= i < self.out(u).len() ==> self.has_node((#[trigger] self.out(u)[i]).to)
        &&& forall|u: i64| #[trigger] self.node_list@.contains(u) <==> self.adjacency@.contains_key(u)
        &&& forall|u: i64, i: int|
            0 <= i < self.out(u).len() ==> (#[trigger] self.out(u)[i]).flow <= self.out(u)[i].capacity
    }

    /// An empty network.
    fn new() -> (net: FlowNetwork)
        ensures
            net.wf(),
            forall|u: i64| !(#[trigger] net.has_node(u)),
    {
        FlowNetwork { adjacency: HashMap::new(), node_list: Vec::new() }
    }

    /// Takes the edge list of `u` out of the map (empty when `u` has none).
    fn take_list(&mut self, u: i64) -> (list: Vec<FlowEdge>)
        requires
            old(self).wf(),
        ensures
            list@ == old(self).out(u),
            final(self).adjacency@ == old(self).adjacency@.remove(u),
            final(self).node_list == old(self).node_list,
    {
        match self.adjacency.remove(&u) {
            Some(list) => list,
            None => {
                assert(self.adjacency@ =~= old(self).adjacency@.remove(u));
                Vec::new()
            },
        }
    }

    /// Puts `list` back as the edge list of `u`, recording `u` as a node if it is new.
    fn put_list(&mut self, u: i64, list: Vec<FlowEdge>, Ghost(before): Ghost<FlowNetwork>)
        requires
            before.wf(),
            old(self).adjacency@ == before.adjacency@.remove(u),
            old(self).node_list == before.node_list,
            forall|i: int| 0 <= i < list@.len() ==> (#[trigger] list@[i]).flow <= list@[i].capacity,
            forall|i: int| 0 <= i < list@.len() ==> before.has_node((#[trigger] list@[i]).to) || list@[i].to == u,
        ensures
            final(self).wf(),
            final(self).adjacency@ == before.adjacency@.insert(u, list),
            before.adjacency@.contains_key(u) ==> final(self).node_list == before.node_list,
            forall|w: i64| #[trigger] final(self).out(w) == if w == u {
                list@
            } else {
                before.out(w)
            },
    {
        let ghost fresh = !before.adjacency@.contains_key(u);
        proof {
            assert(fresh == !self.node_list@.contains(u));
        }
        if !vec_contains(&self.node_list, u) {
            self.node_list.push(u);
        }
        self.adjacency.insert(u, list);
        proof {
            let nl = self.node_list@;
            assert forall|w: i64| #[trigger] nl.contains(w) <==> self.adjacency@.contains_key(w) by {
                if nl.contains(w) && w != u {
                    let a = choose|a: int| 0 <= a < nl.len() && nl[a] == w;
                    assert(before.node_list@.contains(w)) by {
                        assert(before.node_list@[a] == w);
                    }
                }
                if before.node_list@.contains(w) {
                    let a = choose|a: int| 0 <= a < before.node_list@.len() && before.node_list@[a] == w;
                    assert(nl[a] == w);
                }
                if w == u && fresh {
                    assert(nl[nl.len() - 1] == u);
                }
            }
            assert forall|a: int, b: int| 0 <= a < b < nl.len() implies nl[a] != nl[b] by {
                if fresh && b == nl.len() - 1 {
                    assert(before.node_list@.contains(nl[a]));
                }
            }
            assert forall|w: i64, i: int| 0 <= i < self.out(w).len() implies (#[trigger] self.out(w)[i]).flow
                <= self.out(w)[i].capacity && self.has_node(self.out(w)[i].to) by {
                if w != u {
                    assert(self.out(w) == before.out(w));
                }
            }
        }
    }

    /// Makes `u` a node (with no edges) if it is not one yet.
    fn ensure_node(&mut self, u: i64)
        requires
            old(self).wf(),
        ensures
            final(self).wf(),
            forall|w: i64| #[trigger] final(self).out(w) == old(self).out(w),
            forall|w: i64| #[trigger] final(self).has_node(w) <==> old(self).has_node(w) || w == u,
    {
        if !self.adjacency.contains_key(&u) {
            let ghost s0 = *self;
            proof {
                assert(self.adjacency@ =~= s0.adjacency@.remove(u));
            }
            self.put_list(u, Vec::new(), Ghost(s0));
            proof {
                assert forall|w: i64| #[trigger] self.out(w) == s0.out(w) by {
                    if w == u {
                        assert(self.out(w) =~= Seq::<FlowEdge>::empty());
                    }
                }
            }
        }
    }

    /// Adds an edge from `from` to `to` with the given capacity, and its reverse edge of
    /// capacity zero; a loop from a node to itself is left out.
    fn add_edge(&mut self, from: i64, to: i64, capacity: usize)
        requires
            old(self).wf(),
        ensures
            final(self).wf(),
            from == to ==> *final(self) == *old(self),
            from != to ==> forall|w: i64| #[trigger] final(self).out(w) == if w == from {
                old(self).out(from).push(FlowEdge { to, capacity, flow: 0 })
            } else if w == to {
                old(self).out(to).push(FlowEdge { to: from, capacity: 0, flow: 0 })
            } else {
                old(self).out(w)
            },
            from != to ==> forall|w: i64| #[trigger] final(self).has_node(w) <==> old(self).has_node(w) || w == from
                || w == to,
            keeps_edges(old(self), final(self)),
            capacity <= 1 && unit_capacities(old(self)) ==> unit_capacities(final(self)),
    {
        if from == to {
            return;
        }
        self.ensure_node(from);
        self.ensure_node(to);
        let ghost s0 = *self;
        let mut forward = self.take_list(from);
        forward.push(FlowEdge::new(to, capacity));
        let ghost s1 = *self;
        self.put_list(from, forward, Ghost(s0));
        let ghost s2 = *self;
        let mut reverse = self.take_list(to);
        reverse.push(FlowEdge::new(from, 0));
        self.put_list(to, reverse, Ghost(s2));
        proof {
            assert forall|w: i64| #[trigger] self.has_node(w) <==> s0.has_node(w) || w == from || w == to by {}
            let o = *old(self);
            assert forall|w: i64, i: int| 0 <= i < o.out(w).len() implies i < self.out(w).len()
                && #[trigger] self.out(w)[i] == o.out(w)[i] by {
                assert(s0.out(w) == o.out(w));
            }
            if capacity <= 1 && unit_capacities(&o) {
                assert forall|w: i64, i: int| 0 <= i < self.out(w).len() implies (#[trigger] self.out(w)[i]).capacity
                    <= 1 by {
                    assert(s0.out(w) == o.out(w));
                    if i < o.out(w).len() {
                        assert(self.out(w)[i] == o.out(w)[i]);
                    }
                }
            }
        }
    }

    /// A copy of the edges that leave `node` (none when it is not a node).
    fn neighbors(&self, node: i64) -> (r: Vec<FlowEdge>)
        ensures
            r@ == self.out(node),
    {
        match self.adjacency.get(&node) {
            Some(list) => {
                let mut r: Vec<FlowEdge> = Vec::new();
                let mut i: usize = 0;
                while i < list.len()
                    invariant
                        i <= list@.len(),
                        r@ == list@.subrange(0, i as int),
                    decreases list.len() - i,
                {
                    r.push(list[i]);
                    i = i + 1;
                }
                assert(r@ =~= list@);
                r
            },
            None => Vec::new(),
        }
    }

    /// The set of nodes of the network.
    fn nodes(&self) -> (s: ahash::AHashSet<i64>)
        requires
            self.wf(),
        ensures
            forall|u: i64| #[trigger] id_set_view(s).contains(u) <==> self.has_node(u),
    {
        let mut s = id_set_new();
        let mut i: usize = 0;
        while i < self.node_list.len()
            invariant
                self.wf(),
                i <= self.node_list@.len(),
                forall|u: i64| #[trigger]
                    id_set_view(s).contains(u) <==> self.node_list@.subrange(0, i as int).contains(u),
            decreases self.node_list.len() - i,
        {
            let ghost before = id_set_view(s);
            id_set_insert(&mut s, self.node_list[i]);
            proof {
                let p0 = self.node_list@.subrange(0, i as int);
                let p1 = self.node_list@.subrange(0, i + 1);
                assert(p1 =~= p0.push(self.node_list@[i as int]));
                assert forall|u: i64| #[trigger] id_set_view(s).contains(u) <==> p1.contains(u) by {
                    if p0.contains(u) {
                        let a = choose|a: int| 0 <= a < p0.len() && p0[a] == u;
                        assert(p1[a] == u);
                    }
                    if p1.contains(u) {
                        let a = choose|a: int| 0 <= a < p1.len() && p1[a] == u;
                        if a < p0.len() {
                            assert(p0[a] == u);
                        }
                    }
                    if u == self.node_list@[i as int] {
                        assert(p1[i as int] == u);
                    }
                }
            }
            i = i + 1;
        }
        proof {
            assert(self.node_list@.subrange(0, self.node_list@.len() as int) =~= self.node_list@);
        }
        s
    }
}

/// Whether `v` holds `x`.
fn vec_contains(v: &Vec<i64>, x: i64) -> (b: bool)
    ensures
        b == v@.contains(x),
{
    let mut i: usize = 0;
    while i < v.len()
        invariant
            i <= v@.len(),
            forall|j: int| 0 <= j < i ==> v@[j] != x,
        decreases v.len() - i,
    {
        if v[i] == x {
            return true;
        }
        i = i + 1;
    }
    false
}

/// `v` can be reached from `s` over at most `k` edges that can take more flow.
spec fn res_within(net: &FlowNetwork, s: i64, v: i64, k: nat) -> bool
    decreases k,
{
    v == s || (k > 0 && exists|u: i64| #[trigger] net.res_edge(u, v) && res_within(net, s, u, (k - 1) as nat))
}

/// `v` can be reached from `s` over edges that can take more flow.
spec fn res_reaches(net: &FlowNetwork, s: i64, v: i64) -> bool {
    exists|k: nat| #[trigger] res_within(net, s, v, k)
}

/// The nodes of an augmenting path can be reached from its start, each over as many
/// edges as its position.
proof fn lemma_augmenting_prefix(net: &FlowNetwork, p: Seq<i64>, s: i64, t: i64, j: int)
    requires
        is_augmenting_path(net, p, s, t),
        0 <= j < p.len(),
    ensures
        res_within(net, s, p[j], j as nat),
    decreases j,
{
    if j > 0 {
        lemma_augmenting_prefix(net, p, s, t, j - 1);
        assert(net.res_edge(p[j - 1], p[j]));
        lemma_res_step(net, s, p[j - 1], p[j], (j - 1) as nat);
    }
}

/// The end of an augmenting path can be reached from its start.
proof fn lemma_augmenting_reaches(net: &FlowNetwork, p: Seq<i64>, s: i64, t: i64)
    requires
        is_augmenting_path(net, p, s, t),
    ensures
        res_reaches(net, s, t),
{
    lemma_augmenting_prefix(net, p, s, t, p.len() - 1);
}

/// One more edge that can take flow extends a path.
proof fn lemma_res_step(net: &FlowNetwork, s: i64, u: i64, v: i64, k: nat)
    requires
        res_within(net, s, u, k),
        net.res_edge(u, v),
    ensures
        res_within(net, s, v, k + 1),
{
    assert(net.res_edge(u, v) && res_within(net, s, u, ((k + 1) - 1) as nat));
}

/// A set that holds `s` and is closed under the edges that can take flow holds every
/// node reachable from `s` over them.
proof fn lemma_res_closed(net: &FlowNetwork, s: i64, set: Set<i64>, v: i64, k: nat)
    requires
        set.contains(s),
        forall|x: i64, y: i64| set.contains(x) && #[trigger] net.res_edge(x, y) ==> set.contains(y),
        res_within(net, s, v, k),
    ensures
        set.contains(v),
    decreases k,
{
    if v != s {
        let u = choose|u: i64| #[trigger] net.res_edge(u, v) && res_within(net, s, u, (k - 1) as nat);
        lemma_res_closed(net, s, set, u, (k - 1) as nat);
    }
}

/// A set of ids within the network's nodes and one more id is finite and bounded.
proof fn lemma_net_bounded(net: &FlowNetwork, s: i64, set: Set<i64>)
    requires
        net.wf(),
        forall|x: i64| #[trigger] set.contains(x) ==> net.has_node(x) || x == s,
    ensures
        set.finite(),
        set.len() <= net.node_list@.len() + 1,
{
    let all = net.node_list@.push(s);
    all.lemma_cardinality_of_set();
    assert forall|x: i64| #[trigger] set.contains(x) implies all.to_set().contains(x) by {
        if x == s {
            assert(all[all.len() - 1] == s);
        } else {
            assert(net.node_list@.contains(x));
            let a = choose|a: int| 0 <= a < net.node_list@.len() && net.node_list@[a] == x;
            assert(all[a] == x);
        }
    }
    assert(set.subset_of(all.to_set()));
    vstd::set_lib::lemma_len_subset(set, all.to_set());
}

impl FlowNetwork {
    /// The nodes reachable from `source` over edges that can take more flow (`source`
    /// itself included).
    fn reachable_residual(&self, source: i64) -> (visited: ahash::AHashSet<i64>)
        requires
            self.wf(),
        ensures
            id_set_view(visited).contains(source),
            forall|x: i64, y: i64|
                id_set_view(visited).contains(x) && #[trigger] self.res_edge(x, y) ==> id_set_view(
                    visited,
                ).contains(y),
            forall|x: i64| #[trigger] id_set_view(visited).contains(x) ==> res_reaches(self, source, x),
            forall|x: i64| #[trigger] id_set_view(visited).contains(x) ==> self.has_node(x) || x == source,
    {
        let mut visited = id_set_new();
        let mut queue: VecDeque<i64> = VecDeque::new();
        id_set_insert(&mut visited, source);
        queue.push_back(source);
        proof {
            assert(res_within(self, source, source, 0));
            assert(queue@[0] == source);
        }
        while queue.len() > 0
            invariant
                self.wf(),
                id_set_view(visited).contains(source),
                queue@.no_duplicates(),
                forall|x: i64| #[trigger] queue@.contains(x) ==> id_set_view(visited).contains(x),
                forall|x: i64, y: i64|
                    id_set_view(visited).contains(x) && !queue@.contains(x) && #[trigger] self.res_edge(x, y)
                        ==> id_set_view(visited).contains(y),
                forall|x: i64| #[trigger] id_set_view(visited).contains(x) ==> res_reaches(self, source, x),
                forall|x: i64| #[trigger] id_set_view(visited).contains(x) ==> self.has_node(x) || x == source,
            decreases self.node_list@.len() + 1 - id_set_view(visited).len() + queue@.len(),
        {
            proof {
                lemma_net_bounded(self, source, id_set_view(visited));
            }
            let ghost q0 = queue@;
            let ghost vis0 = id_set_view(visited);
            let node = queue.pop_front().unwrap();
            let ghost q1 = queue@;
            proof {
                assert(q0[0] == node);
                assert(q0.contains(node));
                assert forall|x: i64| #[trigger] q1.contains(x) <==> q0.contains(x) && x != node by {
                    if q1.contains(x) {
                        let a = choose|a: int| 0 <= a < q1.len() && q1[a] == x;
                        assert(q0[a + 1] == q1[a]);
                    }
                    if q0.contains(x) && x != node {
                        let a = choose|a: int| 0 <= a < q0.len() && q0[a] == x;
                        assert(a != 0);
                        assert(q1[a - 1] == q0[a]);
                    }
                }
            }
            let edges = self.neighbors(node);
            let ghost k0 = choose|k: nat| #[trigger] res_within(self, source, node, k);
            let mut j: usize = 0;
            while j < edges.len()
                invariant
                    self.wf(),
                    edges@ == self.out(node),
                    j <= edges@.len(),
                    vis0.contains(node),
                    !q1.contains(node),
                    res_within(self, source, node, k0),
                    vis0.subset_of(id_set_view(visited)),
                    id_set_view(visited).contains(source),
                    queue@.no_duplicates(),
                    forall|x: i64| #[trigger] queue@.contains(x) ==> id_set_view(visited).contains(x),
                    forall|x: i64| #[trigger] q1.contains(x) ==> queue@.contains(x),
                    forall|x: i64| #[trigger] queue@.contains(x) && !q1.contains(x) ==> !vis0.contains(x),
                    forall|x: i64, y: i64|
                        vis0.contains(x) && !q1.contains(x) && x != node && #[trigger] self.res_edge(x, y)
                            ==> id_set_view(visited).contains(y),
                    forall|i: int|
                        0 <= i < j && edges@[i].flow < edges@[i].capacity ==> id_set_view(visited).contains(
                            #[trigger] edges@[i].to,
                        ),
                    forall|x: i64| #[trigger] id_set_view(visited).contains(x) ==> res_reaches(self, source, x),
                    forall|x: i64| #[trigger] id_set_view(visited).contains(x) ==> self.has_node(x) || x == source,
                    forall|x: i64| #[trigger]
                        id_set_view(visited).contains(x) && !vis0.contains(x) ==> queue@.contains(x),
                    id_set_view(visited).len() + q1.len() == vis0.len() + queue@.len(),
                    vis0.finite(),
                decreases edges.len() - j,
            {
                let edge = edges[j];
                proof {
                    assert(self.out(node)[j as int] == edge);
                    lemma_net_bounded(self, source, id_set_view(visited));
                }
                let ghost v1 = id_set_view(visited);
                let ghost qb = queue@;
                if edge.residual() > 0 && id_set_insert(&mut visited, edge.to) {
                    queue.push_back(edge.to);
                    proof {
                        assert(self.res_edge(node, edge.to));
                        lemma_res_step(self, source, node, edge.to, k0);
                        assert(res_within(self, source, edge.to, k0 + 1));
                        assert(!v1.contains(edge.to));
                        assert(id_set_view(visited).len() == v1.len() + 1);
                        assert forall|x: i64| #[trigger] queue@.contains(x) implies id_set_view(visited).contains(x) by {
                            if x != edge.to {
                                let a = choose|a: int| 0 <= a < queue@.len() && queue@[a] == x;
                                assert(qb[a] == x);
                                assert(qb.contains(x));
                            }
                        }
                        assert forall|x: i64| #[trigger] q1.contains(x) implies queue@.contains(x) by {
                            let a = choose|a: int| 0 <= a < qb.len() && qb[a] == x;
                            assert(queue@[a] == x);
                        }
                        assert forall|x: i64| #[trigger] queue@.contains(x) && !q1.contains(x) implies !vis0.contains(x) by {
                            if x != edge.to {
                                let a = choose|a: int| 0 <= a < queue@.len() && queue@[a] == x;
                                assert(qb[a] == x);
                                assert(qb.contains(x));
                            }
                        }
                        assert forall|x: i64| #[trigger]
                            id_set_view(visited).contains(x) && !vis0.contains(x) implies queue@.contains(x) by {
                            if x == edge.to {
                                assert(queue@[queue@.len() - 1] == x);
                            } else {
                                let a = choose|a: int| 0 <= a < qb.len() && qb[a] == x;
                                assert(queue@[a] == x);
                            }
                        }
                        assert forall|a: int, b: int| 0 <= a < b < queue@.len() implies queue@[a] != queue@[b] by {
                            assert(queue@[a] == qb[a]);
                            if b == queue@.len() - 1 {
                                assert(qb.contains(qb[a]));
                            } else {
                                assert(queue@[b] == qb[b]);
                            }
                        }
                    }
                }
                j = j + 1;
            }
            proof {
                assert forall|x: i64, y: i64|
                    id_set_view(visited).contains(x) && !queue@.contains(x) && #[trigger] self.res_edge(x, y)
                        implies id_set_view(visited).contains(y) by {
                    if x == node {
                        let i = choose|i: int|
                            0 <= i < self.out(node).len() && (#[trigger] self.out(node)[i]).to == y
                                && self.out(node)[i].flow < self.out(node)[i].capacity;
                        assert(edges@[i] == self.out(node)[i]);
                    }
                }
                lemma_net_bounded(self, source, id_set_view(visited));
            }
        }
        visited
    }

    /// The edges of positive capacity that leave `source_side` for a node outside it and
    /// can take no more flow.
    fn find_cut_edges(&self, source_side: &ahash::AHashSet<i64>) -> (cut: Vec<(i64, i64)>)
        requires
            self.wf(),
        ensures
            forall|k: int|
                0 <= k < cut@.len() ==> id_set_view(*source_side).contains((#[trigger] cut@[k]).0)
                    && !id_set_view(*source_side).contains(cut@[k].1) && exists|i: int|
                    0 <= i < self.out(cut@[k].0).len() && (#[trigger] self.out(cut@[k].0)[i]).to == cut@[k].1
                        && is_full(self.out(cut@[k].0)[i]),
            forall|u: i64, i: int|
                id_set_view(*source_side).contains(u) && 0 <= i < self.out(u).len() && !id_set_view(
                    *source_side,
                ).contains((#[trigger] self.out(u)[i]).to) && is_full(self.out(u)[i])
                    ==> cut@.contains((u, self.out(u)[i].to)),
    {
        let mut cut: Vec<(i64, i64)> = Vec::new();
        let members = id_set_to_vec(source_side);
        let ghost side = id_set_view(*source_side);
        let mut a: usize = 0;
        while a < members.len()
            invariant
                self.wf(),
                side == id_set_view(*source_side),
                members@.to_set() == side,
                a <= members@.len(),
                forall|k: int|
                    0 <= k < cut@.len() ==> side.contains((#[trigger] cut@[k]).0) && !side.contains(cut@[k].1)
                        && exists|i: int|
                        0 <= i < self.out(cut@[k].0).len() && (#[trigger] self.out(cut@[k].0)[i]).to
                            == cut@[k].1 && is_full(self.out(cut@[k].0)[i]),
                forall|b: int, i: int|
                    0 <= b < a && 0 <= i < self.out(members@[b]).len() && !side.contains(
                        (#[trigger] self.out(members@[b])[i]).to,
                    ) && is_full(self.out(members@[b])[i]) ==> cut@.contains(
                        (members@[b], self.out(members@[b])[i].to),
                    ),
            decreases members.len() - a,
        {
            let from = members[a];
            proof {
                assert(members@.to_set().contains(from));
            }
            let edges = self.neighbors(from);
            let ghost c0 = cut@;
            let mut j: usize = 0;
            while j < edges.len()
                invariant
                    self.wf(),
                    side == id_set_view(*source_side),
                    side.contains(from),
                    from == members@[a as int],
                    edges@ == self.out(from),
                    j <= edges@.len(),
                    c0.len() <= cut@.len(),
                    forall|k: int| 0 <= k < c0.len() ==> #[trigger] cut@[k] == c0[k],
                    forall|k: int|
                        0 <= k < cut@.len() ==> side.contains((#[trigger] cut@[k]).0) && !side.contains(cut@[k].1)
                            && exists|i: int|
                            0 <= i < self.out(cut@[k].0).len() && (#[trigger] self.out(cut@[k].0)[i]).to
                                == cut@[k].1 && is_full(self.out(cut@[k].0)[i]),
                    forall|i: int|
                        0 <= i < j && !side.contains((#[trigger] edges@[i]).to) && is_full(edges@[i]) ==> cut@.contains((from, edges@[i].to)),
                decreases edges.len() - j,
            {
                let edge = edges[j];
                proof {
                    assert(self.out(from)[j as int] == edge);
                }
                let ghost cb = cut@;
                if !id_set_contains(source_side, edge.to) && edge.capacity > 0 && edge.residual() == 0 {
                    cut.push((from, edge.to));
                    proof {
                        assert(cut@[cut@.len() - 1] == (from, edge.to));
                        assert(self.out(from)[j as int].to == edge.to && is_full(self.out(from)[j as int]));
                        assert forall|k: int|
                            0 <= k < cut@.len() implies side.contains((#[trigger] cut@[k]).0) && !side.contains(
                                cut@[k].1,
                            ) && exists|i: int|
                                0 <= i < self.out(cut@[k].0).len() && (#[trigger] self.out(cut@[k].0)[i]).to
                                    == cut@[k].1 && is_full(self.out(cut@[k].0)[i]) by {
                            if k < cb.len() {
                                assert(cut@[k] == cb[k]);
                            } else {
                                assert(cut@[k] == (from, edge.to));
                                assert(self.out(cut@[k].0)[j as int].to == cut@[k].1);
                            }
                        }
                        assert forall|i: int|
                            0 <= i < j + 1 && !side.contains((#[trigger] edges@[i]).to) && is_full(edges@[i]) implies cut@.contains((from, edges@[i].to)) by {
                            if i < j {
                                let k = choose|k: int| 0 <= k < cb.len() && cb[k] == (from, edges@[i].to);
                                assert(cut@[k] == cb[k]);
                            }
                        }
                    }
                }
                j = j + 1;
            }
            proof {
                assert forall|b: int, i: int|
                    0 <= b < a + 1 && 0 <= i < self.out(members@[b]).len() && !side.contains(
                        (#[trigger] self.out(members@[b])[i]).to,
                    ) && is_full(self.out(members@[b])[i]) implies cut@.contains(
                        (members@[b], self.out(members@[b])[i].to),
                    ) by {
                    if b < a {
                        let k = choose|k: int|
                            0 <= k < c0.len() && c0[k] == (members@[b], self.out(members@[b])[i].to);
                        assert(cut@[k] == c0[k]);
                    } else {
                        assert(edges@[i] == self.out(from)[i]);
                    }
                }
            }
            a = a + 1;
        }
        proof {
            assert forall|u: i64, i: int|
                side.contains(u) && 0 <= i < self.out(u).len() && !side.contains((#[trigger] self.out(u)[i]).to)
                    && is_full(self.out(u)[i]) implies cut@.contains(
                    (u, self.out(u)[i].to),
                ) by {
                assert(members@.to_set().contains(u));
                let b = choose|b: int| 0 <= b < members@.len() && members@[b] == u;
            }
        }
        cut
    }
}

/// `p` is a path from `s` to `t` over edges that can take more flow, visiting no node
/// twice.
spec fn is_augmenting_path(net: &FlowNetwork, p: Seq<i64>, s: i64, t: i64) -> bool {
    &&& p.len() > 0
    &&& p[0] == s
    &&& p[p.len() - 1] == t
    &&& p.no_duplicates()
    &&& forall|i: int, j: int|
        0 <= i && j == i + 1 && j < p.len() ==> net.res_edge(#[trigger] p[i], #[trigger] p[j])
}

/// `ix` picks, step by step, edges that can take more flow and lead along `q` from `s` to
/// `t`: edge `ix[i]` of `q[i]` runs to `q[i + 1]`.
spec fn index_path(net: &FlowNetwork, q: Seq<i64>, ix: Seq<int>, s: i64, t: i64) -> bool {
    &&& q.len() == ix.len() + 1
    &&& q[0] == s
    &&& q[q.len() - 1] == t
    &&& forall|i: int|
        0 <= i < ix.len() ==> 0 <= #[trigger] ix[i] < net.out(q[i]).len() && net.out(q[i])[ix[i]].to == q[i + 1]
            && net.out(q[i])[ix[i]].flow < net.out(q[i])[ix[i]].capacity
}

/// `a` comes before `b`: it is shorter, or as long and smaller at the first place where
/// they differ.
spec fn sl_before(a: Seq<int>, b: Seq<int>) -> bool {
    a.len() < b.len() || (a.len() == b.len() && exists|i: int|
        0 <= i < a.len() && #[trigger] a.take(i) == b.take(i) && a[i] < b[i])
}

/// `a` is `b` or comes before it.
spec fn sl_not_after(a: Seq<int>, b: Seq<int>) -> bool {
    a == b || sl_before(a, b)
}

/// Equal prefixes have equal shorter prefixes.
proof fn lemma_take_take(a: Seq<int>, b: Seq<int>, i: int, j: int)
    requires
        0 <= j <= i <= a.len(),
        i <= b.len(),
        a.take(i) == b.take(i),
    ensures
        a.take(j) == b.take(j),
{
    assert forall|k: int| 0 <= k < j implies a.take(j)[k] == b.take(j)[k] by {
        assert(a.take(i)[k] == b.take(i)[k]);
    }
    assert(a.take(j) =~= b.take(j));
}

/// Coming before is transitive.
proof fn lemma_sl_trans(a: Seq<int>, b: Seq<int>, c: Seq<int>)
    requires
        sl_not_after(a, b),
        sl_not_after(b, c),
    ensures
        sl_not_after(a, c),
        sl_before(a, b) || sl_before(b, c) ==> sl_before(a, c),
{
    if a == b || b == c {
    } else if a.len() < b.len() || b.len() < c.len() {
    } else {
        let i = choose|i: int| 0 <= i < a.len() && #[trigger] a.take(i) == b.take(i) && a[i] < b[i];
        let j = choose|j: int| 0 <= j < b.len() && #[trigger] b.take(j) == c.take(j) && b[j] < c[j];
        if i < j {
            lemma_take_take(b, c, j, i);
            assert(b[i] == c[i]) by {
                assert(b.take(j)[i] == c.take(j)[i]);
            }
            assert(a.take(i) == c.take(i));
        } else if j < i {
            lemma_take_take(a, b, i, j);
            assert(a[j] == b[j]) by {
                assert(a.take(i)[j] == b.take(i)[j]);
            }
            assert(a.take(j) == c.take(j));
        } else {
            assert(a.take(i) == c.take(i));
        }
    }
}

/// Appending to two sequences keeps the first before the second.
proof fn lemma_sl_push(a: Seq<int>, b: Seq<int>, x: int, y: int)
    requires
        sl_before(a, b) || (a == b && x < y),
    ensures
        sl_before(a.push(x), b.push(y)),
{
    if a == b {
        assert(a.push(x).take(a.len() as int) =~= b.push(y).take(a.len() as int));
    } else if a.len() == b.len() {
        let i = choose|i: int| 0 <= i < a.len() && #[trigger] a.take(i) == b.take(i) && a[i] < b[i];
        assert(a.push(x).take(i) =~= a.take(i));
        assert(b.push(y).take(i) =~= b.take(i));
    }
}

/// A sequence that comes, or ends up being, no later than a prefix of `ix` shorter than
/// `ix`, extended by one step, still comes no later than `ix`; strictly before unless it
/// was that prefix, one short of `ix`, and the step is no more than the last of `ix`.
proof fn lemma_sl_prefix_push(k: Seq<int>, ix: Seq<int>, j: int, a: int)
    requires
        0 <= j < ix.len(),
        sl_not_after(k, ix.take(j)),
        k == ix.take(j) && j + 1 == ix.len() ==> a <= ix[j],
    ensures
        sl_not_after(k.push(a), ix),
{
    let p = ix.take(j);
    if k.len() + 1 < ix.len() {
    } else if k == p {
        assert(j + 1 == ix.len());
        if a < ix[j] {
            assert(k.push(a).take(j) =~= ix.take(j));
        } else {
            assert(k.push(a) =~= ix);
        }
    } else {
        assert(k.len() == j);
        let i = choose|i: int| 0 <= i < k.len() && #[trigger] k.take(i) == p.take(i) && k[i] < p[i];
        assert(ix.take(j) =~= p.take(j));
        lemma_take_take(ix, p, j, i);
        assert(k.push(a).take(i) =~= k.take(i));
        assert(p[i] == ix[i]);
    }
}

/// A prefix of an index path is an index path to the node where it stops.
proof fn lemma_index_path_prefix(net: &FlowNetwork, q: Seq<i64>, ix: Seq<int>, s: i64, t: i64, j: int)
    requires
        index_path(net, q, ix, s, t),
        0 <= j < q.len(),
    ensures
        index_path(net, q.take(j + 1), ix.take(j), s, q[j]),
{
    let q2 = q.take(j + 1);
    let ix2 = ix.take(j);
    assert forall|i: int| 0 <= i < ix2.len() implies 0 <= #[trigger] ix2[i] < net.out(q2[i]).len() && net.out(
        q2[i],
    )[ix2[i]].to == q2[i + 1] && net.out(q2[i])[ix2[i]].flow < net.out(q2[i])[ix2[i]].capacity by {
        assert(ix2[i] == ix[i] && q2[i] == q[i] && q2[i + 1] == q[i + 1]);
    }
}

/// Some node of `q` lies outside `f` while every node before it lies in `f`, when the
/// last node of `q` lies outside `f`.
proof fn lemma_first_outside(q: Seq<i64>, f: Set<i64>, i: int) -> (j: int)
    requires
        0 <= i < q.len(),
        forall|k: int| 0 <= k < i ==> f.contains(#[trigger] q[k]),
        !f.contains(q[q.len() - 1]),
    ensures
        i <= j < q.len(),
        !f.contains(q[j]),
        forall|k: int| 0 <= k < j ==> f.contains(#[trigger] q[k]),
    decreases q.len() - i,
{
    if !f.contains(q[i]) {
        i
    } else {
        lemma_first_outside(q, f, i + 1)
    }
}

/// Along a path of recorded parents from `source`, each node's order key extends the one
/// before it, so the key of the last node spells out the edges of the path.
proof fn lemma_keys_along(
    net: &FlowNetwork,
    par: Map<i64, (i64, usize)>,
    key: Map<i64, Seq<int>>,
    p: Seq<i64>,
    source: i64,
    sink: i64,
)
    requires
        p.len() > 0,
        p[0] == source,
        p[p.len() - 1] == sink,
        p.no_duplicates(),
        key.contains_key(source) && key[source] == Seq::<int>::empty(),
        forall|i: int| 0 <= i < p.len() ==> par.contains_key(#[trigger] p[i]),
        forall|i: int| 0 < i < p.len() ==> par[#[trigger] p[i]].0 == p[i - 1],
        forall|x: i64| #[trigger] par.contains_key(x) <==> key.contains_key(x),
        forall|x: i64|
            #[trigger] par.contains_key(x) && x != source ==> key[x] == key[par[x].0].push(par[x].1 as int)
                && par[x].1 < net.out(par[x].0).len() && net.out(par[x].0)[par[x].1 as int].to == x
                && net.out(par[x].0)[par[x].1 as int].flow < net.out(par[x].0)[par[x].1 as int].capacity,
    ensures
        index_path(net, p, key[sink], source, sink),
{
    assert forall|i: int| 0 <= i < p.len() implies (#[trigger] key[p[i]]).len() == i by {
        lemma_key_len(net, par, key, p, source, i);
    }
    let ix = key[sink];
    assert forall|i: int| 0 <= i < p.len() implies #[trigger] key[p[i]] == ix.take(i) by {
        lemma_key_take(net, par, key, p, source, sink, i);
    }
    assert forall|i: int|
        0 <= i < ix.len() implies 0 <= #[trigger] ix[i] < net.out(p[i]).len() && net.out(p[i])[ix[i]].to == p[i + 1]
            && net.out(p[i])[ix[i]].flow < net.out(p[i])[ix[i]].capacity by {
        let x = p[i + 1];
        assert(x != source) by {
            assert(p[0] != p[i + 1]);
        }
        assert(key[x] == ix.take(i + 1));
        assert(key[x] == key[p[i]].push(par[x].1 as int));
        assert(ix.take(i + 1)[i] == ix[i]);
    }
}

proof fn lemma_key_len(
    net: &FlowNetwork,
    par: Map<i64, (i64, usize)>,
    key: Map<i64, Seq<int>>,
    p: Seq<i64>,
    source: i64,
    i: int,
)
    requires
        0 <= i < p.len(),
        p[0] == source,
        p.no_duplicates(),
        key.contains_key(source) && key[source] == Seq::<int>::empty(),
        forall|k: int| 0 <= k < p.len() ==> par.contains_key(#[trigger] p[k]),
        forall|k: int| 0 < k < p.len() ==> par[#[trigger] p[k]].0 == p[k - 1],
        forall|x: i64|
            #[trigger] par.contains_key(x) && x != source ==> key[x] == key[par[x].0].push(par[x].1 as int),
    ensures
        key[p[i]].len() == i,
    decreases i,
{
    if i > 0 {
        lemma_key_len(net, par, key, p, source, i - 1);
        assert(p[i] != source) by {
            assert(p[0] != p[i]);
        }
        assert(par.contains_key(p[i]));
    }
}

proof fn lemma_key_take(
    net: &FlowNetwork,
    par: Map<i64, (i64, usize)>,
    key: Map<i64, Seq<int>>,
    p: Seq<i64>,
    source: i64,
    sink: i64,
    i: int,
)
    requires
        0 <= i < p.len(),
        p[0] == source,
        p[p.len() - 1] == sink,
        p.no_duplicates(),
        forall|k: int| 0 <= k < p.len() ==> (#[trigger] key[p[k]]).len() == k,
        forall|k: int| 0 <= k < p.len() ==> par.contains_key(#[trigger] p[k]),
        forall|k: int| 0 < k < p.len() ==> par[#[trigger] p[k]].0 == p[k - 1],
        forall|x: i64|
            #[trigger] par.contains_key(x) && x != source ==> key[x] == key[par[x].0].push(par[x].1 as int),
    ensures
        key[p[i]] == key[sink].take(i),
    decreases p.len() - i,
{
    if i == p.len() - 1 {
        assert(key[sink].take(i) =~= key[sink]);
    } else {
        lemma_key_take(net, par, key, p, source, sink, i + 1);
        let x = p[i + 1];
        assert(x != source) by {
            assert(p[0] != p[i + 1]);
        }
        assert(par.contains_key(x));
        assert(key[x] == key[p[i]].push(par[x].1 as int));
        assert(key[p[i]] =~= key[x].drop_last());
        assert(key[sink].take(i + 1).drop_last() =~= key[sink].take(i));
    }
}

/// The edges that lead from `source` to `sink` by the path that comes first in the
/// order of `sl_before` are one list only: two paths that each come no later than every
/// path between the two nodes are the same path, over the same edges.
proof fn lemma_first_path_unique(
    net: &FlowNetwork,
    q1: Seq<i64>,
    ix1: Seq<int>,
    q2: Seq<i64>,
    ix2: Seq<int>,
    source: i64,
    sink: i64,
)
    requires
        index_path(net, q1, ix1, source, sink),
        index_path(net, q2, ix2, source, sink),
        sl_not_after(ix1, ix2),
        sl_not_after(ix2, ix1),
    ensures
        ix1 == ix2,
        q1 == q2,
{
    if ix1 != ix2 {
        lemma_sl_trans(ix1, ix2, ix1);
        assert(sl_before(ix1, ix1));
        if ix1.len() == ix1.len() {
            let i = choose|i: int| 0 <= i < ix1.len() && #[trigger] ix1.take(i) == ix1.take(i) && ix1[i] < ix1[i];
        }
    }
    assert forall|i: int| 0 <= i < q1.len() implies q1[i] == q2[i] by {
        lemma_same_steps(net, q1, ix1, q2, ix2, source, sink, i);
    }
    assert(q1 =~= q2);
}

proof fn lemma_same_steps(
    net: &FlowNetwork,
    q1: Seq<i64>,
    ix1: Seq<int>,
    q2: Seq<i64>,
    ix2: Seq<int>,
    source: i64,
    sink: i64,
    i: int,
)
    requires
        index_path(net, q1, ix1, source, sink),
        index_path(net, q2, ix2, source, sink),
        ix1 == ix2,
        0 <= i < q1.len(),
    ensures
        q1[i] == q2[i],
    decreases i,
{
    if i > 0 {
        lemma_same_steps(net, q1, ix1, q2, ix2, source, sink, i - 1);
        assert(ix1[i - 1] == ix2[i - 1]);
    }
}

/// `p` is the path from `s` to `t` over edges that can take more flow that comes first:
/// its edges, named by their places in the edge lists, come no later (see `sl_before`)
/// than those of any such path; so it is a shortest one, and among the shortest it takes
/// at each step the earliest edge that still allows the rest.
spec fn first_path(net: &FlowNetwork, p: Seq<i64>, s: i64, t: i64) -> bool {
    exists|ix: Seq<int>|
        #[trigger] index_path(net, p, ix, s, t) && forall|q: Seq<i64>, ix2: Seq<int>|
            #[trigger] index_path(net, q, ix2, s, t) ==> sl_not_after(ix, ix2)
}

/// Nothing comes before itself.
proof fn lemma_sl_irreflexive(a: Seq<int>)
    ensures
        !sl_before(a, a),
{
    if sl_before(a, a) {
        let i = choose|i: int| 0 <= i < a.len() && #[trigger] a.take(i) == a.take(i) && a[i] < a[i];
    }
}

/// The search keeps its order when the node it expands finds a new node `x` over its
/// edge `a`: the queue stays sorted by key, and the key of `x` comes no later than any
/// path to `x` over edges that can take more flow.
proof fn lemma_bfs_discovery(
    net: &FlowNetwork,
    source: i64,
    node: i64,
    x: i64,
    a: int,
    dom0: Set<i64>,
    q1: Seq<i64>,
    pb: Map<i64, (i64, usize)>,
    pa: Map<i64, (i64, usize)>,
    qb: Seq<i64>,
    qa: Seq<i64>,
    kb: Map<i64, Seq<int>>,
    ka: Map<i64, Seq<int>>,
    edges: Seq<FlowEdge>,
)
    requires
        edges == net.out(node),
        0 <= a < edges.len(),
        a <= usize::MAX,
        edges[a].to == x,
        edges[a].flow < edges[a].capacity,
        !pb.contains_key(x),
        pb.contains_key(source),
        pa == pb.insert(x, (node, a as usize)),
        qa == qb.push(x),
        ka == kb.insert(x, kb[node].push(a)),
        dom0.contains(node),
        dom0.subset_of(pb.dom()),
        !q1.contains(node),
        forall|y: i64| #[trigger] pb.contains_key(y) <==> kb.contains_key(y),
        kb[source] == Seq::<int>::empty(),
        forall|y: i64|
            #[trigger] pb.contains_key(y) && y != source ==> kb[y] == kb[pb[y].0].push(pb[y].1 as int)
                && pb[y].1 < net.out(pb[y].0).len() && net.out(pb[y].0)[pb[y].1 as int].to == y
                && net.out(pb[y].0)[pb[y].1 as int].flow < net.out(pb[y].0)[pb[y].1 as int].capacity,
        forall|i: int, j: int| 0 <= i < j < qb.len() ==> sl_before(kb[#[trigger] qb[i]], kb[#[trigger] qb[j]]),
        !qb.contains(source),
        forall|z: i64| #[trigger] qb.contains(z) ==> sl_before(kb[node], kb[z]),
        forall|z: i64|
            #[trigger] qb.contains(z) ==> (pb[z].0 == node && pb[z].1 < a) || sl_before(kb[pb[z].0], kb[node]),
        forall|w: i64| dom0.contains(w) && !q1.contains(w) && w != node ==> sl_before(#[trigger] kb[w], kb[node]),
        forall|y: i64, q: Seq<i64>, ix: Seq<int>|
            pb.contains_key(y) && #[trigger] index_path(net, q, ix, source, y) ==> sl_not_after(kb[y], ix),
        forall|w: i64, y: i64|
            dom0.contains(w) && !q1.contains(w) && w != node && #[trigger] net.res_edge(w, y) ==> pb.contains_key(y),
        forall|i: int| 0 <= i < a && edges[i].flow < edges[i].capacity ==> pb.contains_key(#[trigger] edges[i].to),
        forall|y: i64| #[trigger] pb.contains_key(y) && !dom0.contains(y) ==> qb.contains(y),
        forall|y: i64| #[trigger] q1.contains(y) ==> qb.contains(y),
        forall|y: i64| #[trigger] qb.contains(y) ==> pb.contains_key(y),
        forall|y: i64| #[trigger] pb.contains_key(y) && y != source ==> pb.contains_key(pb[y].0),
    ensures
        forall|y: i64| #[trigger] pa.contains_key(y) <==> ka.contains_key(y),
        ka[source] == Seq::<int>::empty(),
        forall|y: i64|
            #[trigger] pa.contains_key(y) && y != source ==> ka[y] == ka[pa[y].0].push(pa[y].1 as int)
                && pa[y].1 < net.out(pa[y].0).len() && net.out(pa[y].0)[pa[y].1 as int].to == y
                && net.out(pa[y].0)[pa[y].1 as int].flow < net.out(pa[y].0)[pa[y].1 as int].capacity,
        forall|i: int, j: int| 0 <= i < j < qa.len() ==> sl_before(ka[#[trigger] qa[i]], ka[#[trigger] qa[j]]),
        !qa.contains(source),
        forall|z: i64| #[trigger] qa.contains(z) ==> sl_before(ka[node], ka[z]),
        forall|z: i64|
            #[trigger] qa.contains(z) ==> (pa[z].0 == node && pa[z].1 < a + 1) || sl_before(ka[pa[z].0], ka[node]),
        forall|w: i64| dom0.contains(w) && !q1.contains(w) && w != node ==> sl_before(#[trigger] ka[w], ka[node]),
        forall|y: i64, q: Seq<i64>, ix: Seq<int>|
            pa.contains_key(y) && #[trigger] index_path(net, q, ix, source, y) ==> sl_not_after(ka[y], ix),
{
    let kx = kb[node].push(a);
    assert(x != source);
    assert(pb.contains_key(node));
    assert(ka[node] == kb[node]);
    assert forall|y: i64| #[trigger] pb.contains_key(y) implies ka[y] == kb[y] by {}
    // Every queued key comes before the new one.
    assert forall|z: i64| #[trigger] qb.contains(z) implies sl_before(kb[z], kx) by {
        assert(z != source);
        assert(pb.contains_key(z));
        assert(kb[z] == kb[pb[z].0].push(pb[z].1 as int));
        if pb[z].0 == node && pb[z].1 < a {
            lemma_sl_push(kb[node], kb[node], pb[z].1 as int, a);
        } else {
            lemma_sl_push(kb[pb[z].0], kb[node], pb[z].1 as int, a);
        }
    }
    assert forall|i: int, j: int| 0 <= i < j < qa.len() implies sl_before(ka[#[trigger] qa[i]], ka[#[trigger] qa[j]]) by {
        assert(qa[i] == qb[i]);
        assert(qb.contains(qb[i]));
        if j < qb.len() {
            assert(qa[j] == qb[j]);
            assert(qb.contains(qb[j]));
        }
    }
    assert forall|y: i64|
        #[trigger] pa.contains_key(y) && y != source implies ka[y] == ka[pa[y].0].push(pa[y].1 as int)
            && pa[y].1 < net.out(pa[y].0).len() && net.out(pa[y].0)[pa[y].1 as int].to == y
            && net.out(pa[y].0)[pa[y].1 as int].flow < net.out(pa[y].0)[pa[y].1 as int].capacity by {
        if y != x {
            assert(pb.contains_key(y));
            assert(pb.contains_key(pb[y].0));
            assert(pa[y] == pb[y]);
            assert(ka[pb[y].0] == kb[pb[y].0]);
        } else {
            assert(pa[y] == (node, a as usize));
            assert(ka[y] == kb[node].push(a));
            assert(ka[node] == kb[node]);
        }
    }
    assert(!qa.contains(source)) by {
        if qa.contains(source) {
            let i = choose|i: int| 0 <= i < qa.len() && qa[i] == source;
            if i < qb.len() {
                assert(qb[i] == source);
            }
        }
    }
    assert(kb.contains_key(node));
    assert forall|z: i64| #[trigger] qa.contains(z) implies sl_before(ka[node], ka[z]) by {
        let i = choose|i: int| 0 <= i < qa.len() && qa[i] == z;
        if i < qb.len() {
            assert(qb[i] == z);
            assert(qb.contains(z));
        }
    }
    assert forall|z: i64|
        #[trigger] qa.contains(z) implies (pa[z].0 == node && pa[z].1 < a + 1) || sl_before(ka[pa[z].0], ka[node]) by {
        let i = choose|i: int| 0 <= i < qa.len() && qa[i] == z;
        if i < qb.len() {
            assert(qb[i] == z);
            assert(qb.contains(z));
            assert(z != source);
            if !(pb[z].0 == node && pb[z].1 < a) {
                assert(pb.contains_key(pb[z].0)) by {
                    if pb[z].0 != source {
                        assert(kb.contains_key(pb[z].0));
                    }
                }
            }
        }
    }
    assert forall|w: i64| dom0.contains(w) && !q1.contains(w) && w != node implies sl_before(#[trigger] ka[w], ka[node]) by {
        assert(pb.contains_key(w));
    }
    // A path to `x` leaves the fully expanded nodes at the node being expanded or at a
    // queued node, whose keys come no earlier than that of the node being expanded.
    let f = Set::new(|w: i64| dom0.contains(w) && !q1.contains(w) && w != node);
    assert forall|q: Seq<i64>, ix: Seq<int>| #[trigger] index_path(net, q, ix, source, x) implies sl_not_after(kx, ix) by {
        assert(!f.contains(q[q.len() - 1]));
        let j = lemma_first_outside(q, f, 0);
        assert(pb.contains_key(q[j])) by {
            if j > 0 {
                assert(f.contains(q[j - 1]));
                let b = ix[j - 1];
                assert(net.out(q[j - 1])[b].to == q[j]);
                assert(net.res_edge(q[j - 1], q[j]));
            }
        }
        assert(q[j] != x);
        assert(j < ix.len());
        lemma_index_path_prefix(net, q, ix, source, x, j);
        assert(sl_not_after(kb[q[j]], ix.take(j)));
        if q[j] == node {
            if kb[node] == ix.take(j) && j + 1 == ix.len() {
                let b = ix[j];
                assert(q[j + 1] == x);
                if b < a {
                    assert(edges[b].to == x);
                    assert(pb.contains_key(edges[b].to));
                }
            }
            lemma_sl_prefix_push(kb[node], ix, j, a);
        } else {
            assert(qb.contains(q[j]));
            lemma_sl_trans(kb[node], kb[q[j]], ix.take(j));
            lemma_sl_irreflexive(ix.take(j));
            lemma_sl_prefix_push(kb[node], ix, j, a);
        }
    }
    assert forall|y: i64, q: Seq<i64>, ix: Seq<int>|
        pa.contains_key(y) && #[trigger] index_path(net, q, ix, source, y) implies sl_not_after(ka[y], ix) by {
        if y != x {
            assert(pb.contains_key(y));
        }
    }
}

/// A shortest path from `source` to `sink` over edges that can take more flow, found by
/// breadth-first search; `None` when there is none.
#[verifier::spinoff_prover]
#[verifier::rlimit(50)]
fn bfs_augmenting_path(network: &FlowNetwork, source: i64, sink: i64) -> (r: Option<Vec<i64>>)
    requires
        network.wf(),
    ensures
        match r {
            Some(p) => is_augmenting_path(network, p@, source, sink) && first_path(network, p@, source, sink),
            None => !res_reaches(network, source, sink),
        },
{
    let mut parent: HashMap<i64, (i64, usize)> = HashMap::new();
    let mut queue: VecDeque<i64> = VecDeque::new();
    let ghost mut depth: Map<i64, nat> = Map::empty().insert(source, 0nat);
    let ghost mut key: Map<i64, Seq<int>> = Map::empty().insert(source, Seq::<int>::empty());
    queue.push_back(source);
    parent.insert(source, (source, 0));
    proof {
        assert(queue@[0] == source);
        assert(queue@ =~= seq![source]);
        assert forall|x: i64, q: Seq<i64>, ix: Seq<int>|
            parent@.contains_key(x) && #[trigger] index_path(network, q, ix, source, x) implies sl_not_after(
            key[x],
            ix,
        ) by {
            if ix.len() == 0 {
                assert(ix =~= Seq::<int>::empty());
            }
        }
    }
    while queue.len() > 0
        invariant
            network.wf(),
            parent@.contains_key(source),
            depth.contains_key(source) && depth[source] == 0,
            forall|x: i64| #[trigger] parent@.contains_key(x) <==> depth.contains_key(x),
            forall|x: i64| #[trigger] parent@.contains_key(x) ==> network.has_node(x) || x == source,
            forall|x: i64| #[trigger]
                parent@.contains_key(x) && x != source ==> parent@.contains_key(parent@[x].0)
                    && network.res_edge(parent@[x].0, x) && depth[x] == depth[parent@[x].0] + 1,
            queue@.no_duplicates(),
            forall|x: i64| #[trigger] queue@.contains(x) ==> parent@.contains_key(x),
            forall|x: i64, y: i64|
                parent@.contains_key(x) && !queue@.contains(x) && #[trigger] network.res_edge(x, y)
                    ==> parent@.contains_key(y),
            forall|x: i64| #[trigger] parent@.contains_key(x) && !queue@.contains(x) ==> x != sink,
            forall|x: i64| #[trigger] parent@.contains_key(x) <==> key.contains_key(x),
            key[source] == Seq::<int>::empty(),
            forall|x: i64|
                #[trigger] parent@.contains_key(x) && x != source ==> key[x] == key[parent@[x].0].push(
                    parent@[x].1 as int,
                ) && parent@[x].1 < network.out(parent@[x].0).len() && network.out(parent@[x].0)[parent@[x].1 as int].to
                    == x && network.out(parent@[x].0)[parent@[x].1 as int].flow < network.out(
                    parent@[x].0,
                )[parent@[x].1 as int].capacity,
            forall|a: int, b: int|
                0 <= a < b < queue@.len() ==> sl_before(key[#[trigger] queue@[a]], key[#[trigger] queue@[b]]),
            forall|w: i64, z: i64|
                #[trigger] parent@.contains_key(w) && !queue@.contains(w) && #[trigger] queue@.contains(z)
                    ==> sl_before(key[w], key[z]),
            forall|z: i64|
                #[trigger] queue@.contains(z) && z != source ==> parent@.contains_key(parent@[z].0)
                    && !queue@.contains(parent@[z].0),
            queue@.contains(source) ==> queue@ == seq![source],
            forall|x: i64, q: Seq<i64>, ix: Seq<int>|
                parent@.contains_key(x) && #[trigger] index_path(network, q, ix, source, x) ==> sl_not_after(
                    key[x],
                    ix,
                ),
        decreases network.node_list@.len() + 1 - parent@.dom().len() + queue@.len(),
    {
        proof {
            lemma_net_bounded(network, source, parent@.dom());
        }
        let ghost q0 = queue@;
        let ghost dom0 = parent@.dom();
        let node = queue.pop_front().unwrap();
        let ghost q1 = queue@;
        proof {
            assert(q0[0] == node);
            assert(q0.contains(node));
            assert forall|x: i64| #[trigger] q1.contains(x) <==> q0.contains(x) && x != node by {
                if q1.contains(x) {
                    let a = choose|a: int| 0 <= a < q1.len() && q1[a] == x;
                    assert(q0[a + 1] == q1[a]);
                }
                if q0.contains(x) && x != node {
                    let a = choose|a: int| 0 <= a < q0.len() && q0[a] == x;
                    assert(a != 0);
                    assert(q1[a - 1] == q0[a]);
                }
            }
        }
        proof {
            assert(!q1.contains(source)) by {
                if q1.contains(source) {
                    assert(q0.contains(source));
                    assert(q0 == seq![source]);
                    let a = choose|a: int| 0 <= a < q1.len() && q1[a] == source;
                    assert(q0[a + 1] == source);
                }
            }
            assert forall|a: int, b: int| 0 <= a < b < q1.len() implies sl_before(
                key[#[trigger] q1[a]],
                key[#[trigger] q1[b]],
            ) by {
                assert(q1[a] == q0[a + 1] && q1[b] == q0[b + 1]);
            }
            assert forall|z: i64| #[trigger] q1.contains(z) implies sl_before(key[node], key[z]) by {
                let b = choose|b: int| 0 <= b < q1.len() && q1[b] == z;
                assert(q0[b + 1] == z);
                assert(sl_before(key[q0[0]], key[q0[b + 1]]));
            }
            assert forall|z: i64| #[trigger] q1.contains(z) implies sl_before(key[parent@[z].0], key[node]) by {
                assert(q0.contains(z));
                assert(z != source);
                assert(parent@.contains_key(parent@[z].0) && !q0.contains(parent@[z].0));
            }
            assert forall|w: i64| dom0.contains(w) && !q1.contains(w) && w != node implies sl_before(
                #[trigger] key[w],
                key[node],
            ) by {
                assert(!q0.contains(w));
                assert(parent@.contains_key(w));
            }
        }
        if node == sink {
            let path = trace_parents(network, &parent, source, sink, Ghost(depth));
            proof {
                assert(parent@.contains_key(sink));
                lemma_keys_along(network, parent@, key, path@, source, sink);
                assert(index_path(network, path@, key[sink], source, sink));
                assert forall|q: Seq<i64>, ix2: Seq<int>| #[trigger] index_path(network, q, ix2, source, sink) implies sl_not_after(
                    key[sink],
                    ix2,
                ) by {}
                assert(is_augmenting_path(network, path@, source, sink));
                assert(first_path(network, path@, source, sink));
            }
            return Some(path);
        }
        let edges = network.neighbors(node);
        let mut edge_idx: usize = 0;
        while edge_idx < edges.len()
            invariant
                network.wf(),
                edges@ == network.out(node),
                edge_idx <= edges@.len(),
                node != sink,
                dom0.contains(node),
                dom0.subset_of(parent@.dom()),
                !q1.contains(node),
                parent@.contains_key(source),
                depth.contains_key(source) && depth[source] == 0,
                forall|x: i64| #[trigger] parent@.contains_key(x) <==> depth.contains_key(x),
                forall|x: i64| #[trigger] parent@.contains_key(x) ==> network.has_node(x) || x == source,
                forall|x: i64| #[trigger]
                    parent@.contains_key(x) && x != source ==> parent@.contains_key(parent@[x].0)
                        && network.res_edge(parent@[x].0, x) && depth[x] == depth[parent@[x].0] + 1,
                queue@.no_duplicates(),
                forall|x: i64| #[trigger] queue@.contains(x) ==> parent@.contains_key(x),
                forall|x: i64| #[trigger] q1.contains(x) ==> queue@.contains(x),
                forall|x: i64| #[trigger] queue@.contains(x) && !q1.contains(x) ==> !dom0.contains(x),
                forall|x: i64, y: i64|
                    dom0.contains(x) && !q1.contains(x) && x != node && #[trigger] network.res_edge(x, y)
                        ==> parent@.contains_key(y),
                forall|i: int|
                    0 <= i < edge_idx && edges@[i].flow < edges@[i].capacity ==> parent@.contains_key(
                        #[trigger] edges@[i].to,
                    ),
                forall|x: i64| #[trigger]
                    parent@.contains_key(x) && !dom0.contains(x) ==> queue@.contains(x),
                forall|x: i64| #[trigger] dom0.contains(x) && !q1.contains(x) && x != node ==> x != sink,
                parent@.dom().len() + q1.len() == dom0.len() + queue@.len(),
                dom0.finite(),
                forall|x: i64| #[trigger] parent@.contains_key(x) <==> key.contains_key(x),
                key[source] == Seq::<int>::empty(),
                forall|x: i64|
                    #[trigger] parent@.contains_key(x) && x != source ==> key[x] == key[parent@[x].0].push(
                        parent@[x].1 as int,
                    ) && parent@[x].1 < network.out(parent@[x].0).len() && network.out(parent@[x].0)[parent@[x].1 as int].to
                        == x && network.out(parent@[x].0)[parent@[x].1 as int].flow < network.out(
                        parent@[x].0,
                    )[parent@[x].1 as int].capacity,
                forall|a: int, b: int|
                    0 <= a < b < queue@.len() ==> sl_before(key[#[trigger] queue@[a]], key[#[trigger] queue@[b]]),
                !queue@.contains(source),
                forall|z: i64| #[trigger] queue@.contains(z) ==> sl_before(key[node], key[z]),
                forall|z: i64|
                    #[trigger] queue@.contains(z) ==> (parent@[z].0 == node && parent@[z].1 < edge_idx) || sl_before(
                        key[parent@[z].0],
                        key[node],
                    ),
                forall|w: i64| dom0.contains(w) && !q1.contains(w) && w != node ==> sl_before(#[trigger] key[w], key[node]),
                forall|x: i64, q: Seq<i64>, ix: Seq<int>|
                    parent@.contains_key(x) && #[trigger] index_path(network, q, ix, source, x) ==> sl_not_after(
                        key[x],
                        ix,
                    ),
            decreases edges.len() - edge_idx,
        {
            let edge = edges[edge_idx];
            proof {
                assert(network.out(node)[edge_idx as int] == edge);
                lemma_net_bounded(network, source, parent@.dom());
            }
            let ghost kq = key;
            let ghost qb = queue@;
            let ghost pb = parent@;
            if edge.residual() > 0 && !parent.contains_key(&edge.to) {
                parent.insert(edge.to, (node, edge_idx));
                queue.push_back(edge.to);
                proof {
                    assert(network.res_edge(node, edge.to));
                    depth = depth.insert(edge.to, depth[node] + 1);
                    let kb = key;
                    let x = edge.to;
                    let a = edge_idx as int;
                    key = kb.insert(x, kb[node].push(a));
                    lemma_bfs_discovery(network, source, node, x, a, dom0, q1, pb, parent@, qb, queue@, kb, key, edges@);
                    assert(parent@.dom() =~= pb.dom().insert(edge.to));
                    assert(parent@.dom().len() == pb.dom().len() + 1);
                    assert forall|x: i64| #[trigger]
                        parent@.contains_key(x) && x != source implies parent@.contains_key(parent@[x].0)
                            && network.res_edge(parent@[x].0, x) && depth[x] == depth[parent@[x].0] + 1 by {
                        if x != edge.to {
                            assert(pb.contains_key(x));
                        }
                    }
                    assert forall|x: i64| #[trigger] queue@.contains(x) implies parent@.contains_key(x) by {
                        if x != edge.to {
                            let a = choose|a: int| 0 <= a < queue@.len() && queue@[a] == x;
                            assert(qb[a] == x);
                            assert(qb.contains(x));
                        }
                    }
                    assert forall|x: i64| #[trigger] q1.contains(x) implies queue@.contains(x) by {
                        let a = choose|a: int| 0 <= a < qb.len() && qb[a] == x;
                        assert(queue@[a] == x);
                    }
                    assert forall|x: i64| #[trigger] queue@.contains(x) && !q1.contains(x) implies !dom0.contains(x) by {
                        if x != edge.to {
                            let a = choose|a: int| 0 <= a < queue@.len() && queue@[a] == x;
                            assert(qb[a] == x);
                            assert(qb.contains(x));
                        }
                    }
                    assert forall|x: i64| #[trigger] parent@.contains_key(x) && !dom0.contains(x) implies queue@.contains(x) by {
                        if x == edge.to {
                            assert(queue@[queue@.len() - 1] == x);
                        } else {
                            let a = choose|a: int| 0 <= a < qb.len() && qb[a] == x;
                            assert(queue@[a] == x);
                        }
                    }
                    assert forall|a: int, b: int| 0 <= a < b < queue@.len() implies queue@[a] != queue@[b] by {
                        assert(queue@[a] == qb[a]);
                        if b == queue@.len() - 1 {
                            assert(qb.contains(qb[a]));
                        } else {
                            assert(queue@[b] == qb[b]);
                        }
                    }
                }
            }
            edge_idx = edge_idx + 1;
        }
        proof {
            assert forall|x: i64, y: i64|
                parent@.contains_key(x) && !queue@.contains(x) && #[trigger] network.res_edge(x, y)
                    implies parent@.contains_key(y) by {
                if x == node {
                    let i = choose|i: int|
                        0 <= i < network.out(node).len() && (#[trigger] network.out(node)[i]).to == y
                            && network.out(node)[i].flow < network.out(node)[i].capacity;
                    assert(edges@[i] == network.out(node)[i]);
                }
            }
            lemma_net_bounded(network, source, parent@.dom());
        }
        proof {
            assert(!queue@.contains(node)) by {
                if queue@.contains(node) {
                    assert(!q1.contains(node));
                }
            }
            assert forall|w: i64, z: i64|
                #[trigger] parent@.contains_key(w) && !queue@.contains(w) && #[trigger] queue@.contains(z) implies sl_before(
                key[w],
                key[z],
            ) by {
                assert(dom0.contains(w)) by {
                    if !dom0.contains(w) {
                        assert(queue@.contains(w));
                    }
                }
                assert(!q1.contains(w));
                if w != node {
                    assert(sl_before(key[w], key[node]));
                    lemma_sl_trans(key[w], key[node], key[z]);
                }
            }
            assert forall|z: i64| #[trigger] queue@.contains(z) && z != source implies parent@.contains_key(parent@[z].0)
                && !queue@.contains(parent@[z].0) by {
                assert(parent@.contains_key(z));
                if parent@[z].0 != node && queue@.contains(parent@[z].0) {
                    assert(sl_before(key[parent@[z].0], key[node]));
                    assert(sl_before(key[node], key[parent@[z].0]));
                    lemma_sl_trans(key[node], key[parent@[z].0], key[node]);
                    lemma_sl_irreflexive(key[node]);
                }
            }
        }
    }
    proof {
        if res_reaches(network, source, sink) {
            let k = choose|k: nat| #[trigger] res_within(network, source, sink, k);
            lemma_res_closed(network, source, parent@.dom(), sink, k);
        }
    }
    None
}

/// Follows the recorded parents back from `sink` to `source` and returns the path so
/// found, from `source` to `sink`.
#[verifier::spinoff_prover]
#[verifier::rlimit(80)]
fn trace_parents(
    network: &FlowNetwork,
    parent: &HashMap<i64, (i64, usize)>,
    source: i64,
    sink: i64,
    Ghost(depth): Ghost<Map<i64, nat>>,
) -> (p: Vec<i64>)
    requires
        parent@.contains_key(sink),
        depth.contains_key(source) && depth[source] == 0,
        forall|x: i64| #[trigger] parent@.contains_key(x) <==> depth.contains_key(x),
        forall|x: i64| #[trigger]
            parent@.contains_key(x) && x != source ==> parent@.contains_key(parent@[x].0) && network.res_edge(
                parent@[x].0,
                x,
            ) && depth[x] == depth[parent@[x].0] + 1,
    ensures
        is_augmenting_path(network, p@, source, sink),
        forall|i: int| 0 <= i < p@.len() ==> parent@.contains_key(#[trigger] p@[i]),
        forall|i: int| 0 < i < p@.len() ==> parent@[#[trigger] p@[i]].0 == p@[i - 1],
{
    let mut back: Vec<i64> = Vec::new();
    back.push(sink);
    let mut current = sink;
    let ghost pm = parent@;
    proof {
        assert(depth.contains_key(sink));
    }
    while current != source
        invariant
            pm == parent@,
            depth.contains_key(source) && depth[source] == 0,
            forall|x: i64| #[trigger] pm.contains_key(x) <==> depth.contains_key(x),
            forall|x: i64| #[trigger]
                pm.contains_key(x) && x != source ==> pm.contains_key(pm[x].0) && network.res_edge(pm[x].0, x)
                    && depth[x] == depth[pm[x].0] + 1,
            pm.contains_key(current),
            back@.len() > 0,
            back@[0] == sink,
            back@[back@.len() - 1] == current,
            forall|i: int| 0 <= i < back@.len() ==> pm.contains_key(#[trigger] back@[i]),
            forall|i: int| 0 <= i < back@.len() - 1 ==> pm[#[trigger] back@[i]].0 == back@[i + 1],
            forall|i: int|
                0 <= i < back@.len() ==> depth[#[trigger] back@[i]] == depth[current] + (back@.len() - 1 - i),
            forall|i: int, j: int|
                0 <= i && j == i + 1 && j < back@.len() ==> network.res_edge(#[trigger] back@[j], #[trigger] back@[i]),
        decreases depth[current],
    {
        let prev = match parent.get(&current) {
            Some(pr) => pr.0,
            None => {
                proof {
                    assert(false);
                }
                current
            },
        };
        let ghost b0 = back@;
        back.push(prev);
        proof {
            assert forall|i: int, j: int|
                0 <= i && j == i + 1 && j < back@.len() implies network.res_edge(
                    #[trigger] back@[j],
                    #[trigger] back@[i],
                ) by {
                if j < b0.len() {
                    assert(back@[j] == b0[j]);
                    assert(back@[i] == b0[i]);
                } else {
                    assert(back@[i] == current);
                }
            }
            assert forall|i: int|
                0 <= i < back@.len() implies depth[#[trigger] back@[i]] == depth[prev] + (back@.len() - 1 - i) by {
                if i < b0.len() {
                    assert(back@[i] == b0[i]);
                }
            }
            assert forall|i: int| 0 <= i < back@.len() - 1 implies pm[#[trigger] back@[i]].0 == back@[i + 1] by {
                if i < b0.len() - 1 {
                    assert(back@[i] == b0[i] && back@[i + 1] == b0[i + 1]);
                } else {
                    assert(back@[i] == current);
                }
            }
            assert forall|i: int| 0 <= i < back@.len() implies pm.contains_key(#[trigger] back@[i]) by {
                if i < b0.len() {
                    assert(back@[i] == b0[i]);
                }
            }
        }
        current = prev;
    }
    let ghost bl = back@.len();
    let mut path: Vec<i64> = Vec::new();
    let mut i: usize = back.len();
    while i > 0
        invariant
            i <= back@.len(),
            bl == back@.len(),
            path@.len() == bl - i,
            forall|a: int| 0 <= a < path@.len() ==> #[trigger] path@[a] == back@[bl - 1 - a],
        decreases i,
    {
        i = i - 1;
        path.push(back[i]);
    }
    proof {
        assert(path@[0] == back@[bl - 1]);
        assert(path@[path@.len() - 1] == back@[0]);
        assert forall|i: int, j: int|
            0 <= i && j == i + 1 && j < path@.len() implies network.res_edge(#[trigger] path@[i], #[trigger] path@[j]) by {
            let bi = bl - 1 - j;
            let bj = bl - 1 - i;
            assert(path@[i] == back@[bj]);
            assert(path@[j] == back@[bi]);
        }
        assert forall|i: int| 0 <= i < path@.len() implies parent@.contains_key(#[trigger] path@[i]) by {
            assert(path@[i] == back@[bl - 1 - i]);
        }
        assert forall|i: int| 0 < i < path@.len() implies parent@[#[trigger] path@[i]].0 == path@[i - 1] by {
            assert(path@[i] == back@[bl - 1 - i]);
            assert(path@[i - 1] == back@[bl - 1 - i + 1]);
        }
        assert forall|a: int, b: int| 0 <= a < b < path@.len() implies path@[a] != path@[b] by {
            assert(path@[a] == back@[bl - 1 - a]);
            assert(path@[b] == back@[bl - 1 - b]);
            assert(depth[back@[bl - 1 - a]] == depth[source] + a);
            assert(depth[back@[bl - 1 - b]] == depth[source] + b);
        }
    }
    path
}

/// The flow that the edges of `es` can still take, in all.
spec fn residual_sum(es: Seq<FlowEdge>) -> int
    decreases es.len(),
{
    if es.len() == 0 {
        0
    } else {
        residual_sum(es.drop_last()) + (es.last().capacity - es.last().flow)
    }
}

/// Changing one edge changes the sum by the change of its residual.
proof fn lemma_residual_sum_update(es: Seq<FlowEdge>, i: int, e: FlowEdge)
    requires
        0 <= i < es.len(),
    ensures
        residual_sum(es.update(i, e)) == residual_sum(es) - (es[i].capacity - es[i].flow) + (e.capacity
            - e.flow),
    decreases es.len(),
{
    let u = es.update(i, e);
    if i < es.len() - 1 {
        assert(u.drop_last() =~= es.drop_last().update(i, e));
        lemma_residual_sum_update(es.drop_last(), i, e);
    } else {
        assert(u.drop_last() =~= es.drop_last());
    }
}

/// With every flow within capacity and every capacity at most one, the sum lies
/// between zero and the number of edges.
proof fn lemma_residual_sum_bound(es: Seq<FlowEdge>)
    requires
        forall|i: int| 0 <= i < es.len() ==> (#[trigger] es[i]).flow <= es[i].capacity <= 1,
    ensures
        0 <= residual_sum(es) <= es.len(),
    decreases es.len(),
{
    if es.len() > 0 {
        let pre = es.drop_last();
        assert forall|i: int| 0 <= i < pre.len() implies (#[trigger] pre[i]).flow <= pre[i].capacity <= 1 by {
            assert(pre[i] == es[i]);
        }
        lemma_residual_sum_bound(pre);
        assert(es[es.len() - 1] == es.last());
    }
}

/// The two networks have the same nodes, and the same edges with the same capacities;
/// only the flows may differ.
spec fn same_shape(a: &FlowNetwork, b: &FlowNetwork) -> bool {
    &&& a.node_list == b.node_list
    &&& forall|w: i64| #[trigger] a.has_node(w) <==> b.has_node(w)
    &&& forall|w: i64| #[trigger] a.out(w).len() == b.out(w).len()
    &&& forall|w: i64, i: int|
        0 <= i < a.out(w).len() ==> (#[trigger] a.out(w)[i]).to == b.out(w)[i].to && a.out(w)[i].capacity
            == b.out(w)[i].capacity
}

/// No edge of the network carries flow.
spec fn no_flow(net: &FlowNetwork) -> bool {
    forall|w: i64, i: int| 0 <= i < net.out(w).len() ==> (#[trigger] net.out(w)[i]).flow == 0
}

/// Every edge of the network has capacity at most one.
spec fn unit_capacities(net: &FlowNetwork) -> bool {
    forall|w: i64, i: int| 0 <= i < net.out(w).len() ==> (#[trigger] net.out(w)[i]).capacity <= 1
}

/// For each step of the path, the first edge to the next node that can take more flow,
/// and the least flow that those edges can still take.
fn find_bottleneck(network: &FlowNetwork, path: &Vec<i64>) -> (r: (usize, Vec<usize>))
    requires
        network.wf(),
        path@.len() >= 2,
        is_augmenting_path(network, path@, path@[0], path@[path@.len() - 1]),
    ensures
        r.1@.len() == path@.len() - 1,
        r.0 >= 1,
        forall|i: int|
            0 <= i < r.1@.len() ==> {
                &&& (#[trigger] r.1@[i]) < network.out(path@[i]).len()
                &&& network.out(path@[i])[r.1@[i] as int].to == path@[i + 1]
                &&& r.0 <= network.out(path@[i])[r.1@[i] as int].capacity - network.out(
                    path@[i],
                )[r.1@[i] as int].flow
                &&& forall|m: int|
                    0 <= m < r.1@[i] ==> !((#[trigger] network.out(path@[i])[m]).to == path@[i + 1]
                        && network.out(path@[i])[m].flow < network.out(path@[i])[m].capacity)
            },
        exists|q: int| 0 <= q < r.1@.len() && r.0 == #[trigger] network.out(path@[q])[r.1@[q] as int].capacity
            - network.out(path@[q])[r.1@[q] as int].flow,
{
    let mut bottleneck: usize = usize::MAX;
    let mut chosen: Vec<usize> = Vec::new();
    let mut i: usize = 0;
    while i < path.len() - 1
        invariant
            network.wf(),
            path@.len() >= 2,
            is_augmenting_path(network, path@, path@[0], path@[path@.len() - 1]),
            i + 1 <= path@.len(),
            chosen@.len() == i,
            bottleneck >= 1,
            i == 0 ==> bottleneck == usize::MAX,
            i > 0 ==> exists|q: int| 0 <= q < i && bottleneck == #[trigger] network.out(path@[q])[chosen@[q] as int].capacity
                - network.out(path@[q])[chosen@[q] as int].flow,
            forall|q: int, m: int|
                0 <= q < i && 0 <= m < chosen@[q] ==> !((#[trigger] network.out(path@[q])[m]).to == path@[q + 1]
                    && network.out(path@[q])[m].flow < network.out(path@[q])[m].capacity),
            forall|q: int|
                0 <= q < chosen@.len() ==> {
                    &&& (#[trigger] chosen@[q]) < network.out(path@[q]).len()
                    &&& network.out(path@[q])[chosen@[q] as int].to == path@[q + 1]
                    &&& bottleneck <= network.out(path@[q])[chosen@[q] as int].capacity - network.out(
                        path@[q],
                    )[chosen@[q] as int].flow
                },
        decreases path.len() - i,
    {
        let from = path[i];
        let to = path[i + 1];
        proof {
            assert(network.res_edge(path@[i as int], path@[i + 1]));
        }
        let edges = network.neighbors(from);
        let mut k: usize = 0;
        let mut found = false;
        while k < edges.len() && !found
            invariant
                network.wf(),
                edges@ == network.out(from),
                from == path@[i as int],
                to == path@[i + 1],
                network.res_edge(from, to),
                k <= edges@.len(),
                chosen@.len() == i + (if found {
                    1int
                } else {
                    0int
                }),
                bottleneck >= 1,
                !found && i == 0 ==> bottleneck == usize::MAX,
                !found && i > 0 ==> exists|q: int| 0 <= q < i && bottleneck == #[trigger] network.out(path@[q])[chosen@[q] as int].capacity
                    - network.out(path@[q])[chosen@[q] as int].flow,
                found ==> exists|q: int| 0 <= q <= i && bottleneck == #[trigger] network.out(path@[q])[chosen@[q] as int].capacity
                    - network.out(path@[q])[chosen@[q] as int].flow,
                found ==> forall|m: int|
                    0 <= m < chosen@[i as int] ==> !((#[trigger] edges@[m]).to == to && edges@[m].flow < edges@[m].capacity),
                forall|q: int, m: int|
                    0 <= q < i && 0 <= m < chosen@[q] ==> !((#[trigger] network.out(path@[q])[m]).to == path@[q + 1]
                        && network.out(path@[q])[m].flow < network.out(path@[q])[m].capacity),
                !found ==> forall|q: int|
                    0 <= q < k ==> !((#[trigger] edges@[q]).to == to && edges@[q].flow < edges@[q].capacity),
                found ==> chosen@[i as int] < edges@.len() && edges@[chosen@[i as int] as int].to == to
                    && bottleneck <= edges@[chosen@[i as int] as int].capacity
                    - edges@[chosen@[i as int] as int].flow,
                forall|q: int|
                    0 <= q < i ==> {
                        &&& (#[trigger] chosen@[q]) < network.out(path@[q]).len()
                        &&& network.out(path@[q])[chosen@[q] as int].to == path@[q + 1]
                        &&& bottleneck <= network.out(path@[q])[chosen@[q] as int].capacity - network.out(
                            path@[q],
                        )[chosen@[q] as int].flow
                    },
            decreases edges.len() - k,
        {
            let edge = edges[k];
            proof {
                assert(network.out(from)[k as int] == edge);
            }
            if edge.to == to && edge.residual() > 0 {
                let res = edge.residual();
                let ghost cb = chosen@;
                let ghost bb = bottleneck;
                if res < bottleneck {
                    bottleneck = res;
                }
                chosen.push(k);
                found = true;
                proof {
                    assert(chosen@[i as int] == k);
                    assert forall|q: int| 0 <= q < i implies #[trigger] chosen@[q] == cb[q] by {}
                    assert(network.out(path@[i as int])[chosen@[i as int] as int] == edge);
                    if bottleneck == res {
                        assert(bottleneck == network.out(path@[i as int])[chosen@[i as int] as int].capacity
                            - network.out(path@[i as int])[chosen@[i as int] as int].flow);
                    } else if i > 0 {
                        let q = choose|q: int| 0 <= q < i && bb == #[trigger] network.out(path@[q])[cb[q] as int].capacity
                            - network.out(path@[q])[cb[q] as int].flow;
                        assert(chosen@[q] == cb[q]);
                        assert(bottleneck == network.out(path@[q])[chosen@[q] as int].capacity
                            - network.out(path@[q])[chosen@[q] as int].flow);
                    }
                    assert forall|q: int, m: int|
                        0 <= q < i && 0 <= m < chosen@[q] implies !((#[trigger] network.out(path@[q])[m]).to == path@[q + 1]
                            && network.out(path@[q])[m].flow < network.out(path@[q])[m].capacity) by {
                        assert(chosen@[q] == cb[q]);
                    }
                }
            }
            k = k + 1;
        }
        proof {
            if !found {
                let q = choose|q: int|
                    0 <= q < network.out(from).len() && (#[trigger] network.out(from)[q]).to == to
                        && network.out(from)[q].flow < network.out(from)[q].capacity;
                assert(edges@[q] == network.out(from)[q]);
            }
        }
        proof {
            assert forall|m: int| 0 <= m < chosen@[i as int] implies !((#[trigger] network.out(path@[i as int])[m]).to
                == path@[i + 1] && network.out(path@[i as int])[m].flow < network.out(path@[i as int])[m].capacity) by {
                assert(edges@[m] == network.out(from)[m]);
            }
        }
        i = i + 1;
    }
    (bottleneck, chosen)
}

/// `e` carrying `amount` more flow.
spec fn bumped(e: FlowEdge, amount: usize) -> FlowEdge {
    FlowEdge { to: e.to, capacity: e.capacity, flow: (e.flow + amount) as usize }
}

/// `e` carrying `amount` less flow, but not less than none.
spec fn lowered(e: FlowEdge, amount: usize) -> FlowEdge {
    FlowEdge {
        to: e.to,
        capacity: e.capacity,
        flow: if e.flow >= amount {
            (e.flow - amount) as usize
        } else {
            0usize
        },
    }
}

/// `k` is the first place in `es` of an edge to `v`.
spec fn first_to(es: Seq<FlowEdge>, v: i64, k: int) -> bool {
    0 <= k < es.len() && es[k].to == v && forall|m: int| 0 <= m < k ==> (#[trigger] es[m]).to != v
}

/// `es` with the first edge to `v`, if any, carrying `amount` less flow (not below none).
spec fn lower_first(es: Seq<FlowEdge>, v: i64, amount: usize) -> Seq<FlowEdge> {
    if exists|k: int| first_to(es, v, k) {
        let k = choose|k: int| first_to(es, v, k);
        es.update(k, lowered(es[k], amount))
    } else {
        es
    }
}

/// The edges of `p[j]` once `amount` more flow went along the path `p` through the
/// chosen edges `c`: the chosen edge out of `p[j]` (for all but the last node) carries
/// `amount` more, and the first edge from `p[j]` back to `p[j - 1]` (for all but the
/// first node) carries `amount` less, not below none.
spec fn augmented(es: Seq<FlowEdge>, p: Seq<i64>, c: Seq<usize>, amount: usize, j: int) -> Seq<FlowEdge> {
    let fwd = if j < c.len() {
        es.update(c[j] as int, bumped(es[c[j] as int], amount))
    } else {
        es
    };
    if j >= 1 {
        lower_first(fwd, p[j - 1], amount)
    } else {
        fwd
    }
}

/// There is one first place of an edge to `v`.
proof fn lemma_first_to_unique(es: Seq<FlowEdge>, v: i64, k1: int, k2: int)
    requires
        first_to(es, v, k1),
        first_to(es, v, k2),
    ensures
        k1 == k2,
{
    if k1 < k2 {
        assert(es[k1].to != v);
    } else if k2 < k1 {
        assert(es[k2].to != v);
    }
}

/// Changing the flow of an edge to another node commutes with lowering the first edge to `v`.
proof fn lemma_lower_first_update(es: Seq<FlowEdge>, v: i64, idx: int, e: FlowEdge, amount: usize)
    requires
        0 <= idx < es.len(),
        es[idx].to != v,
        e.to == es[idx].to,
    ensures
        lower_first(es, v, amount).update(idx, e) == lower_first(es.update(idx, e), v, amount),
{
    let es2 = es.update(idx, e);
    assert forall|k: int| first_to(es, v, k) <==> first_to(es2, v, k) by {
        if 0 <= k < es.len() {
            assert forall|m: int| 0 <= m < k implies (#[trigger] es[m]).to == es2[m].to by {}
            if first_to(es, v, k) {
                assert forall|m: int| 0 <= m < k implies (#[trigger] es2[m]).to != v by {
                    assert(es[m].to != v);
                }
            }
            if first_to(es2, v, k) {
                assert forall|m: int| 0 <= m < k implies (#[trigger] es[m]).to != v by {
                    assert(es2[m].to != v);
                }
            }
        }
    }
    if exists|k: int| first_to(es, v, k) {
        let k = choose|k: int| first_to(es, v, k);
        let k2 = choose|k: int| first_to(es2, v, k);
        lemma_first_to_unique(es2, v, k, k2);
        assert(k != idx);
        assert(es2[k] == es[k]);
        assert(lower_first(es, v, amount).update(idx, e) =~= lower_first(es2, v, amount));
    } else {
        assert(!exists|k: int| first_to(es2, v, k));
    }
}

/// Sends `amount` more flow along the path: through the chosen edge of each step, and
/// back through the first edge of the next node that returns to the node before it
/// (whose flow is lowered, not below zero).
fn augment_flow(network: &mut FlowNetwork, path: &Vec<i64>, amount: usize, chosen: &Vec<usize>)
    requires
        old(network).wf(),
        path@.len() >= 2,
        path@.no_duplicates(),
        chosen@.len() == path@.len() - 1,
        forall|i: int|
            0 <= i < chosen@.len() ==> {
                &&& (#[trigger] chosen@[i]) < old(network).out(path@[i]).len()
                &&& old(network).out(path@[i])[chosen@[i] as int].to == path@[i + 1]
                &&& amount <= old(network).out(path@[i])[chosen@[i] as int].capacity - old(network).out(
                    path@[i],
                )[chosen@[i] as int].flow
            },
    ensures
        final(network).wf(),
        same_shape(old(network), final(network)),
        residual_sum(final(network).out(path@[0])) == residual_sum(old(network).out(path@[0])) - amount,
        forall|w: i64| !path@.contains(w) ==> #[trigger] final(network).out(w) == old(network).out(w),
        forall|j: int|
            0 <= j < path@.len() ==> #[trigger] final(network).out(path@[j]) == augmented(
                old(network).out(path@[j]),
                path@,
                chosen@,
                amount,
                j,
            ),
{
    let ghost n0 = *network;
    let ghost p = path@;
    let ghost c = chosen@;
    let ghost e0 = n0.out(p[0])[c[0] as int];
    let mut i: usize = 0;
    while i < path.len() - 1
        invariant
            network.wf(),
            same_shape(&n0, network),
            p == path@,
            c == chosen@,
            p.len() >= 2,
            p.no_duplicates(),
            c.len() == p.len() - 1,
            i <= p.len() - 1,
            e0 == n0.out(p[0])[c[0] as int],
            c[0] < n0.out(p[0]).len(),
            forall|q: int|
                0 <= q < c.len() ==> {
                    &&& (#[trigger] c[q]) < n0.out(p[q]).len()
                    &&& n0.out(p[q])[c[q] as int].to == p[q + 1]
                    &&& amount <= n0.out(p[q])[c[q] as int].capacity - n0.out(p[q])[c[q] as int].flow
                },
            forall|w: i64|
                !(exists|j: int| 0 <= j <= i && j < p.len() && #[trigger] p[j] == w) ==> #[trigger] network.out(w)
                    == n0.out(w),
            forall|q: int| i <= q < c.len() ==> #[trigger] network.out(p[q])[c[q] as int] == n0.out(p[q])[c[q] as int],
            i == 0 ==> *network == n0,
            forall|j: int| 0 <= j < i ==> #[trigger] network.out(p[j]) == augmented(n0.out(p[j]), p, c, amount, j),
            1 <= i < p.len() ==> network.out(p[i as int]) == lower_first(n0.out(p[i as int]), p[i - 1], amount),
            i >= 1 ==> network.out(p[0]) == n0.out(p[0]).update(
                c[0] as int,
                FlowEdge { to: e0.to, capacity: e0.capacity, flow: (e0.flow + amount) as usize },
            ),
        decreases path.len() - 1 - i,
    {
        let from = path[i];
        let to = path[i + 1];
        let idx = chosen[i];
        let ghost s0 = *network;
        proof {
            assert(network.out(p[i as int])[c[i as int] as int] == n0.out(p[i as int])[c[i as int] as int]);
            assert(s0.has_node(from));
            assert(s0.has_node(to)) by {
                assert(s0.out(from)[idx as int].to == to);
            }
        }
        // The forward edge takes `amount` more flow.
        let mut forward = network.take_list(from);
        let mut fe = forward[idx];
        fe.flow = fe.flow + amount;
        forward.set(idx, fe);
        proof {
            assert forall|k: int| 0 <= k < forward@.len() implies s0.has_node((#[trigger] forward@[k]).to)
                || forward@[k].to == from by {
                if k != idx {
                    assert(forward@[k] == s0.out(from)[k]);
                }
            }
        }
        network.put_list(from, forward, Ghost(s0));
        let ghost s1 = *network;
        // The first edge back from `to` to `from` gives flow back.
        let mut reverse = network.take_list(to);
        let ghost rl = reverse@;
        let mut k: usize = 0;
        let mut done = false;
        while k < reverse.len() && !done
            invariant
                k <= reverse@.len(),
                reverse@.len() == rl.len(),
                !done ==> reverse@ == rl,
                !done ==> forall|m: int| 0 <= m < k ==> (#[trigger] rl[m]).to != from,
                done ==> reverse@ == lower_first(rl, from, amount),
                done ==> exists|q: int|
                    0 <= q < rl.len() && rl[q].to == from && reverse@ == rl.update(
                        q,
                        FlowEdge {
                            to: rl[q].to,
                            capacity: rl[q].capacity,
                            flow: if rl[q].flow >= amount {
                                (rl[q].flow - amount) as usize
                            } else {
                                0usize
                            },
                        },
                    ),
            decreases reverse.len() - k,
        {
            if reverse[k].to == from {
                proof {
                    assert(first_to(rl, from, k as int));
                    let kk = choose|kk: int| first_to(rl, from, kk);
                    lemma_first_to_unique(rl, from, k as int, kk);
                    assert(lower_first(rl, from, amount) == rl.update(k as int, lowered(rl[k as int], amount)));
                }
                let mut re = reverse[k];
                re.flow = if re.flow >= amount {
                    re.flow - amount
                } else {
                    0
                };
                reverse.set(k, re);
                done = true;
            }
            k = k + 1;
        }
        proof {
            if !done {
                assert forall|kk: int| !first_to(rl, from, kk) by {
                    if first_to(rl, from, kk) {
                        assert(rl[kk].to != from);
                    }
                }
            }
            assert(reverse@ == lower_first(rl, from, amount));
        }
        proof {
            assert forall|q: int| 0 <= q < reverse@.len() implies (#[trigger] reverse@[q]).flow
                <= reverse@[q].capacity && (s1.has_node(reverse@[q].to) || reverse@[q].to == to) by {
                assert(rl == s1.out(to));
                if done {
                    let qq = choose|qq: int|
                        0 <= qq < rl.len() && rl[qq].to == from && reverse@ == rl.update(
                            qq,
                            FlowEdge {
                                to: rl[qq].to,
                                capacity: rl[qq].capacity,
                                flow: if rl[qq].flow >= amount {
                                    (rl[qq].flow - amount) as usize
                                } else {
                                    0usize
                                },
                            },
                        );
                }
            }
        }
        network.put_list(to, reverse, Ghost(s1));
        proof {
            let fi = p[i as int];
            let ti = p[i + 1];
            assert(fi != ti);
            let ii = i as int;
            let e0i = n0.out(fi)[c[ii] as int];
            assert(s0.out(fi)[c[ii] as int] == e0i);
            assert(fe == bumped(e0i, amount));
            assert(network.out(fi) == s0.out(fi).update(c[ii] as int, bumped(e0i, amount)));
            assert(e0i.to == ti);
            if ii >= 1 {
                assert(p[ii - 1] != ti);
                lemma_lower_first_update(n0.out(fi), p[ii - 1], c[ii] as int, bumped(e0i, amount), amount);
            } else {
                assert(s0 == n0);
            }
            assert(network.out(fi) == augmented(n0.out(fi), p, c, amount, ii));
            assert(rl == n0.out(ti)) by {
                assert(s1.out(ti) == s0.out(ti));
                if exists|j: int| 0 <= j <= i && j < p.len() && #[trigger] p[j] == ti {
                    let j = choose|j: int| 0 <= j <= i && j < p.len() && #[trigger] p[j] == ti;
                    assert(p[j] == p[ii + 1]);
                }
            }
            assert(network.out(ti) == lower_first(n0.out(ti), fi, amount));
            assert forall|j: int| 0 <= j < i + 1 implies #[trigger] network.out(p[j]) == augmented(
                n0.out(p[j]),
                p,
                c,
                amount,
                j,
            ) by {
                if j < ii {
                    assert(p[j] != fi && p[j] != ti);
                    assert(network.out(p[j]) == s0.out(p[j]));
                }
            }
            assert forall|w: i64| #[trigger] network.has_node(w) <==> n0.has_node(w) by {
                assert(network.has_node(w) <==> s0.has_node(w));
            }
            assert forall|w: i64| #[trigger] network.out(w).len() == n0.out(w).len() by {
                assert(s0.out(w).len() == n0.out(w).len());
                if w == ti && done {
                }
            }
            assert forall|w: i64, q: int| 0 <= q < network.out(w).len() implies (#[trigger] network.out(
                w,
            )[q]).to == n0.out(w)[q].to && network.out(w)[q].capacity == n0.out(w)[q].capacity by {
                assert(s0.out(w).len() == n0.out(w).len());
                assert(s0.out(w)[q].to == n0.out(w)[q].to);
                if w == ti && done {
                    let qq = choose|qq: int|
                        0 <= qq < rl.len() && rl[qq].to == from && reverse@ == rl.update(
                            qq,
                            FlowEdge {
                                to: rl[qq].to,
                                capacity: rl[qq].capacity,
                                flow: if rl[qq].flow >= amount {
                                    (rl[qq].flow - amount) as usize
                                } else {
                                    0usize
                                },
                            },
                        );
                }
            }
            assert forall|w: i64|
                !(exists|j: int| 0 <= j <= i + 1 && j < p.len() && #[trigger] p[j] == w) implies #[trigger] network.out(
                w,
            ) == n0.out(w) by {
                assert(w != fi) by {
                    assert(p[i as int] == fi);
                }
                assert(w != ti) by {
                    assert(p[i + 1] == ti);
                }
                if exists|j: int| 0 <= j <= i && j < p.len() && #[trigger] p[j] == w {
                    let j = choose|j: int| 0 <= j <= i && j < p.len() && #[trigger] p[j] == w;
                    assert(false);
                }
            }
            assert forall|q: int| i + 1 <= q < c.len() implies #[trigger] network.out(p[q])[c[q] as int] == n0.out(
                p[q],
            )[c[q] as int] by {
                assert(p[q] != fi);
                if p[q] == ti {
                    assert(q == i + 1);
                    assert(n0.out(p[q])[c[q] as int].to == p[q + 1]);
                    assert(p[q + 1] != fi);
                    if done {
                        let qq = choose|qq: int|
                            0 <= qq < rl.len() && rl[qq].to == from && reverse@ == rl.update(
                                qq,
                                FlowEdge {
                                    to: rl[qq].to,
                                    capacity: rl[qq].capacity,
                                    flow: if rl[qq].flow >= amount {
                                        (rl[qq].flow - amount) as usize
                                    } else {
                                        0usize
                                    },
                                },
                            );
                        assert(qq != c[q]);
                    }
                }
            }
            if i == 0 {
                assert(ti != p[0]);
                assert(network.out(p[0]) =~= n0.out(p[0]).update(
                    c[0] as int,
                    FlowEdge { to: e0.to, capacity: e0.capacity, flow: (e0.flow + amount) as usize },
                ));
            } else {
                assert(fi != p[0]);
                assert(ti != p[0]);
            }
        }
        i = i + 1;
    }
    proof {
        let l = p.len() - 1;
        assert(network.out(p[l]) == augmented(n0.out(p[l]), p, c, amount, l));
        assert forall|w: i64| !p.contains(w) implies #[trigger] network.out(w) == n0.out(w) by {
            if exists|j: int| 0 <= j <= i && j < p.len() && #[trigger] p[j] == w {
                let j = choose|j: int| 0 <= j <= i && j < p.len() && #[trigger] p[j] == w;
                assert(p.contains(w));
            }
        }
        assert forall|j: int| 0 <= j < p.len() implies #[trigger] network.out(p[j]) == augmented(
            n0.out(p[j]),
            p,
            c,
            amount,
            j,
        ) by {
            if j == l {
            }
        }
    }
    proof {
        lemma_residual_sum_update(
            n0.out(p[0]),
            c[0] as int,
            FlowEdge { to: e0.to, capacity: e0.capacity, flow: (e0.flow + amount) as usize },
        );
    }
}

/// Augments flow from `source` to `sink` along shortest paths that can take more flow
/// until none is left; returns the flow sent and the network with its flows.
fn edmonds_karp(network: FlowNetwork, source: i64, sink: i64) -> (r: (usize, FlowNetwork))
    requires
        network.wf(),
        unit_capacities(&network),
        source != sink,
    ensures
        r.1.wf(),
        same_shape(&network, &r.1),
        !res_reaches(&r.1, source, sink),
        r.0 == 0 ==> r.1 == network,
        r.0 > 0 ==> res_reaches(&network, source, sink),
{
    let ghost n0 = network;
    let mut network = network;
    let mut max_flow: usize = 0;
    proof {
        lemma_residual_sum_bound(n0.out(source));
        assert(n0.out(source).len() <= usize::MAX) by {
            if n0.adjacency@.contains_key(source) {
                assert(n0.adjacency@[source]@.len() == n0.adjacency@[source].len());
            }
        }
    }
    loop
        invariant
            network.wf(),
            same_shape(&n0, &network),
            unit_capacities(&n0),
            source != sink,
            0 <= residual_sum(network.out(source)),
            max_flow + residual_sum(network.out(source)) == residual_sum(n0.out(source)),
            residual_sum(n0.out(source)) <= usize::MAX,
            max_flow == 0 ==> network == n0,
            max_flow > 0 ==> res_reaches(&n0, source, sink),
        ensures
            network.wf(),
            same_shape(&n0, &network),
            !res_reaches(&network, source, sink),
            max_flow == 0 ==> network == n0,
            max_flow > 0 ==> res_reaches(&n0, source, sink),
        decreases residual_sum(network.out(source)),
    {
        match bfs_augmenting_path(&network, source, sink) {
            None => {
                break;
            },
            Some(path) => {
                proof {
                    assert(path@.len() >= 2) by {
                        if path@.len() == 1 {
                            assert(path@[0] == path@[path@.len() - 1]);
                        }
                    }
                }
                proof {
                    if max_flow == 0 {
                        lemma_augmenting_reaches(&network, path@, source, sink);
                    }
                }
                let (bottleneck, chosen) = find_bottleneck(&network, &path);
                let ghost before = network;
                augment_flow(&mut network, &path, bottleneck, &chosen);
                proof {
                    assert forall|w: i64, i: int| 0 <= i < network.out(w).len() implies (#[trigger] network.out(
                        w,
                    )[i]).capacity <= 1 by {
                        assert(network.out(w)[i].capacity == n0.out(w)[i].capacity);
                    }
                    lemma_residual_sum_bound(network.out(source));
                }
                max_flow = max_flow + bottleneck;
            },
        }
    }
    (max_flow, network)
}

/// The unit-capacity flow network of the part of `graph` reachable from `source`: every
/// edge between two such nodes, except a loop, with capacity one.
fn build_flow_network(graph: &Graph, source: i64, _sink: i64) -> (net: FlowNetwork)
    requires
        graph.wf(),
    ensures
        net.wf(),
        unit_capacities(&net),
        no_flow(&net),
        forall|u: i64| #[trigger] net.has_node(u) ==> reaches(graph, source, u),
        forall|u: i64, v: i64|
            reaches(graph, source, u) && #[trigger] graph.has_edge(u, v) && u != v ==> exists|i: int|
                0 <= i < net.out(u).len() && (#[trigger] net.out(u)[i]).to == v && net.out(u)[i].capacity == 1,
        forall|u: i64, i: int|
            0 <= i < net.out(u).len() && (#[trigger] net.out(u)[i]).capacity > 0 ==> graph.has_edge(u, net.out(u)[i].to),
{
    let mut network = FlowNetwork::new();
    let mut nodes_to_visit: Vec<i64> = Vec::new();
    nodes_to_visit.push(source);
    let mut visited = id_set_new();
    id_set_insert(&mut visited, source);
    proof {
        graph.lemma_wf();
        assert(within(graph, source, source, 0));
        assert(nodes_to_visit@[0] == source);
    }
    while nodes_to_visit.len() > 0
        invariant
            graph.wf(),
            network.wf(),
            unit_capacities(&network),
            no_flow(&network),
            id_set_view(visited).contains(source),
            nodes_to_visit@.no_duplicates(),
            forall|x: i64| #[trigger] nodes_to_visit@.contains(x) ==> id_set_view(visited).contains(x),
            forall|x: i64| #[trigger] id_set_view(visited).contains(x) ==> reaches(graph, source, x),
            forall|x: i64| #[trigger] id_set_view(visited).contains(x) ==> graph.is_node(x) || x == source,
            forall|u: i64| #[trigger] network.has_node(u) ==> id_set_view(visited).contains(u),
            forall|u: i64, i: int|
                0 <= i < network.out(u).len() && (#[trigger] network.out(u)[i]).capacity > 0 ==> graph.has_edge(
                    u,
                    network.out(u)[i].to,
                ),
            forall|u: i64, v: i64|
                id_set_view(visited).contains(u) && !nodes_to_visit@.contains(u) && #[trigger] graph.has_edge(u, v)
                    ==> id_set_view(visited).contains(v),
            forall|u: i64, v: i64|
                id_set_view(visited).contains(u) && !nodes_to_visit@.contains(u) && #[trigger] graph.has_edge(u, v)
                    && u != v ==> exists|i: int|
                    0 <= i < network.out(u).len() && (#[trigger] network.out(u)[i]).to == v
                        && network.out(u)[i].capacity == 1,
        decreases graph.node_count() + 1 - id_set_view(visited).len() + nodes_to_visit@.len(),
    {
        proof {
            lemma_bounded_set(graph, source, id_set_view(visited));
        }
        let ghost s0 = nodes_to_visit@;
        let ghost vis0 = id_set_view(visited);
        let node = nodes_to_visit.pop().unwrap();
        let ghost s1 = nodes_to_visit@;
        proof {
            assert(s0[s0.len() - 1] == node);
            assert(s0.contains(node));
            assert forall|x: i64| #[trigger] s1.contains(x) <==> s0.contains(x) && x != node by {
                if s1.contains(x) {
                    let a = choose|a: int| 0 <= a < s1.len() && s1[a] == x;
                    assert(s0[a] == x);
                }
                if s0.contains(x) && x != node {
                    let a = choose|a: int| 0 <= a < s0.len() && s0[a] == x;
                    assert(a != s0.len() - 1);
                    assert(s1[a] == x);
                }
            }
        }
        if let Ok(neighbors) = graph.fetch_outgoing(node) {
            let ghost k0 = choose|k: nat| #[trigger] within(graph, source, node, k);
            let mut j: usize = 0;
            while j < neighbors.len()
                invariant
                    graph.wf(),
                    network.wf(),
                    unit_capacities(&network),
                    no_flow(&network),
                    neighbors@ == graph.succs(node),
                    j <= neighbors@.len(),
                    vis0.contains(node),
                    !s1.contains(node),
                    within(graph, source, node, k0),
                    vis0.subset_of(id_set_view(visited)),
                    id_set_view(visited).contains(source),
                    nodes_to_visit@.no_duplicates(),
                    forall|x: i64| #[trigger] nodes_to_visit@.contains(x) ==> id_set_view(visited).contains(x),
                    forall|x: i64| #[trigger] s1.contains(x) ==> nodes_to_visit@.contains(x),
                    forall|x: i64| #[trigger] nodes_to_visit@.contains(x) && !s1.contains(x) ==> !vis0.contains(x),
                    forall|x: i64| #[trigger] id_set_view(visited).contains(x) ==> reaches(graph, source, x),
                    forall|x: i64| #[trigger] id_set_view(visited).contains(x) ==> graph.is_node(x) || x == source,
                    forall|x: i64| #[trigger]
                        id_set_view(visited).contains(x) && !vis0.contains(x) ==> nodes_to_visit@.contains(x),
                    forall|u: i64| #[trigger] network.has_node(u) ==> id_set_view(visited).contains(u),
                    forall|u: i64, i: int|
                        0 <= i < network.out(u).len() && (#[trigger] network.out(u)[i]).capacity > 0
                            ==> graph.has_edge(u, network.out(u)[i].to),
                    forall|u: i64, v: i64|
                        vis0.contains(u) && !s1.contains(u) && u != node && #[trigger] graph.has_edge(u, v)
                            ==> id_set_view(visited).contains(v),
                    forall|u: i64, v: i64|
                        vis0.contains(u) && !s1.contains(u) && u != node && #[trigger] graph.has_edge(u, v) && u
                            != v ==> exists|i: int|
                            0 <= i < network.out(u).len() && (#[trigger] network.out(u)[i]).to == v
                                && network.out(u)[i].capacity == 1,
                    forall|q: int| 0 <= q < j ==> id_set_view(visited).contains(#[trigger] neighbors@[q]),
                    forall|q: int|
                        0 <= q < j && #[trigger] neighbors@[q] != node ==> exists|i: int|
                            0 <= i < network.out(node).len() && (#[trigger] network.out(node)[i]).to
                                == neighbors@[q] && network.out(node)[i].capacity == 1,
                    id_set_view(visited).len() + s1.len() == vis0.len() + nodes_to_visit@.len(),
                    vis0.finite(),
                decreases neighbors.len() - j,
            {
                let neighbor = neighbors[j];
                proof {
                    graph.lemma_wf();
                    assert(graph.succs(node).contains(neighbor));
                    lemma_bounded_set(graph, source, id_set_view(visited));
                }
                let ghost nb = network;
                network.add_edge(node, neighbor, 1);
                proof {
                    assert forall|w: i64, i: int| 0 <= i < network.out(w).len() implies (#[trigger] network.out(
                        w,
                    )[i]).flow == 0 by {
                        if node != neighbor && (w == node || w == neighbor) && i < nb.out(w).len() {
                            assert(network.out(w)[i] == nb.out(w)[i]);
                        }
                    }
                    assert forall|u: i64, i: int|
                        0 <= i < network.out(u).len() && (#[trigger] network.out(u)[i]).capacity > 0 implies graph.has_edge(
                            u,
                            network.out(u)[i].to,
                        ) by {
                        if node != neighbor && (u == node || u == neighbor) && i < nb.out(u).len() {
                            assert(network.out(u)[i] == nb.out(u)[i]);
                        }
                    }
                    assert forall|w: i64, i: int| 0 <= i < network.out(w).len() implies (#[trigger] network.out(
                        w,
                    )[i]).capacity <= 1 by {
                        if node != neighbor && (w == node || w == neighbor) && i < nb.out(w).len() {
                            assert(network.out(w)[i] == nb.out(w)[i]);
                        }
                    }
                    assert forall|u: i64, v: i64|
                        vis0.contains(u) && !s1.contains(u) && u != node && #[trigger] graph.has_edge(u, v) && u
                            != v implies exists|i: int|
                            0 <= i < network.out(u).len() && (#[trigger] network.out(u)[i]).to == v
                                && network.out(u)[i].capacity == 1 by {
                        let i = choose|i: int|
                            0 <= i < nb.out(u).len() && (#[trigger] nb.out(u)[i]).to == v && nb.out(u)[i].capacity == 1;
                        if node != neighbor {
                            assert(network.out(u)[i] == nb.out(u)[i]);
                        }
                    }
                    assert forall|q: int|
                        0 <= q < j + 1 && #[trigger] neighbors@[q] != node implies exists|i: int|
                            0 <= i < network.out(node).len() && (#[trigger] network.out(node)[i]).to
                                == neighbors@[q] && network.out(node)[i].capacity == 1 by {
                        if q < j {
                            let i = choose|i: int|
                                0 <= i < nb.out(node).len() && (#[trigger] nb.out(node)[i]).to == neighbors@[q]
                                    && nb.out(node)[i].capacity == 1;
                            assert(network.out(node)[i] == nb.out(node)[i]);
                        } else {
                            assert(network.out(node)[nb.out(node).len() as int].to == neighbor);
                        }
                    }
                }
                let ghost v1 = id_set_view(visited);
                let ghost qb = nodes_to_visit@;
                if id_set_insert(&mut visited, neighbor) {
                    nodes_to_visit.push(neighbor);
                    proof {
                        lemma_within_step(graph, source, node, neighbor, k0);
                        assert(within(graph, source, neighbor, k0 + 1));
                        assert(id_set_view(visited).len() == v1.len() + 1);
                        assert forall|x: i64| #[trigger] nodes_to_visit@.contains(x) implies id_set_view(visited).contains(x) by {
                            if x != neighbor {
                                let a = choose|a: int| 0 <= a < nodes_to_visit@.len() && nodes_to_visit@[a] == x;
                                assert(qb[a] == x);
                                assert(qb.contains(x));
                            }
                        }
                        assert forall|x: i64| #[trigger] s1.contains(x) implies nodes_to_visit@.contains(x) by {
                            let a = choose|a: int| 0 <= a < qb.len() && qb[a] == x;
                            assert(nodes_to_visit@[a] == x);
                        }
                        assert forall|x: i64| #[trigger] nodes_to_visit@.contains(x) && !s1.contains(x) implies !vis0.contains(x) by {
                            if x != neighbor {
                                let a = choose|a: int| 0 <= a < nodes_to_visit@.len() && nodes_to_visit@[a] == x;
                                assert(qb[a] == x);
                                assert(qb.contains(x));
                            }
                        }
                        assert forall|x: i64| #[trigger]
                            id_set_view(visited).contains(x) && !vis0.contains(x) implies nodes_to_visit@.contains(x) by {
                            if x == neighbor {
                                assert(nodes_to_visit@[nodes_to_visit@.len() - 1] == x);
                            } else {
                                let a = choose|a: int| 0 <= a < qb.len() && qb[a] == x;
                                assert(nodes_to_visit@[a] == x);
                            }
                        }
                        assert forall|a: int, b: int| 0 <= a < b < nodes_to_visit@.len() implies nodes_to_visit@[a]
                            != nodes_to_visit@[b] by {
                            assert(nodes_to_visit@[a] == qb[a]);
                            if b == nodes_to_visit@.len() - 1 {
                                assert(qb.contains(qb[a]));
                            } else {
                                assert(nodes_to_visit@[b] == qb[b]);
                            }
                        }
                    }
                }
                j = j + 1;
            }
            proof {
                assert forall|u: i64, v: i64|
                    id_set_view(visited).contains(u) && !nodes_to_visit@.contains(u) && #[trigger] graph.has_edge(u, v)
                        implies id_set_view(visited).contains(v) by {
                    if u == node {
                        assert(neighbors@.contains(v));
                    }
                }
                assert forall|u: i64, v: i64|
                    id_set_view(visited).contains(u) && !nodes_to_visit@.contains(u) && #[trigger] graph.has_edge(u, v)
                        && u != v implies exists|i: int|
                        0 <= i < network.out(u).len() && (#[trigger] network.out(u)[i]).to == v
                            && network.out(u)[i].capacity == 1 by {
                    if u == node {
                        assert(neighbors@.contains(v));
                        let q = choose|q: int| 0 <= q < neighbors@.len() && neighbors@[q] == v;
                    }
                }
                lemma_bounded_set(graph, source, id_set_view(visited));
            }
        }
    }
    proof {
        assert forall|u: i64, v: i64|
            reaches(graph, source, u) && #[trigger] graph.has_edge(u, v) && u != v implies exists|i: int|
                0 <= i < network.out(u).len() && (#[trigger] network.out(u)[i]).to == v
                    && network.out(u)[i].capacity == 1 by {
            let k = choose|k: nat| #[trigger] within(graph, source, u, k);
            lemma_closed_holds_reachable(graph, source, id_set_view(visited), u, k);
        }
    }
    network
}

/// A path that starts inside a set and ends outside it leaves the set at some step.
proof fn lemma_first_exit(p: Seq<i64>, set: Set<i64>) -> (i: int)
    requires
        p.len() > 0,
        set.contains(p[0]),
        !set.contains(p[p.len() - 1]),
    ensures
        0 <= i < p.len() - 1,
        set.contains(p[i]),
        !set.contains(p[i + 1]),
    decreases p.len(),
{
    if !set.contains(p[1]) {
        0
    } else {
        let rest = p.subrange(1, p.len() as int);
        assert(rest[0] == p[1]);
        assert(rest[rest.len() - 1] == p[p.len() - 1]);
        let j = lemma_first_exit(rest, set);
        assert(rest[j] == p[j + 1]);
        assert(rest[j + 1] == p[j + 2]);
        j + 1
    }
}

/// The outcome of a minimum edge cut between two nodes.
#[derive(Debug)]
pub struct MinCutResult {
    /// The nodes that the source still reaches once the flow is maximal.
    pub source_side: ahash::AHashSet<i64>,
    /// The other nodes of the flow network.
    pub sink_side: ahash::AHashSet<i64>,
    /// The saturated edges from the source side to the sink side.
    pub cut_edges: Vec<(i64, i64)>,
    /// The flow that was sent from the source to the sink.
    pub cut_size: usize,
}

/// What a cut between `source` and `sink` guarantees: with `source == sink` the trivial
/// cut; otherwise the source side holds the source and not the sink, both sides hold
/// nodes that the source reaches, every cut edge is an edge of the graph that leaves the
/// source side, every path from the source to the sink passes through a cut edge, and the
/// cut size is positive exactly when the source reaches the sink.
pub open spec fn is_st_cut(graph: &Graph, source: i64, sink: i64, res: MinCutResult) -> bool {
    let side = id_set_view(res.source_side);
    let other = id_set_view(res.sink_side);
    &&& source == sink ==> {
        &&& side == Set::<i64>::empty().insert(source)
        &&& other == Set::<i64>::empty()
        &&& res.cut_edges@.len() == 0
        &&& res.cut_size == 0
    }
    &&& source != sink ==> {
        &&& side.contains(source)
        &&& !side.contains(sink)
        &&& forall|x: i64| #[trigger] side.contains(x) ==> reaches(graph, source, x)
        &&& forall|x: i64| #[trigger] other.contains(x) ==> !side.contains(x) && reaches(graph, source, x)
        &&& reaches(graph, source, sink) ==> other.contains(sink)
        &&& res.cut_size > 0 <==> reaches(graph, source, sink)
        &&& forall|k: int|
            0 <= k < res.cut_edges@.len() ==> side.contains((#[trigger] res.cut_edges@[k]).0) && !side.contains(
                res.cut_edges@[k].1,
            ) && graph.has_edge(res.cut_edges@[k].0, res.cut_edges@[k].1)
        &&& forall|p: Seq<i64>|
            #[trigger] is_path(graph, p, source, sink) ==> exists|i: int|
                0 <= i < p.len() - 1 && #[trigger] res.cut_edges@.contains((p[i], p[i + 1]))
    }
}

/// The network holds, with capacity one, every edge (except a loop) that leaves a node
/// reachable from `source`, and each of its edges of positive capacity is an edge of the
/// graph.
spec fn models_reachable_part(graph: &Graph, net: &FlowNetwork, source: i64) -> bool {
    &&& forall|u: i64| #[trigger] net.has_node(u) ==> reaches(graph, source, u)
    &&& forall|u: i64, i: int|
        0 <= i < net.out(u).len() && (#[trigger] net.out(u)[i]).capacity > 0 ==> graph.has_edge(u, net.out(u)[i].to)
    &&& forall|u: i64, v: i64|
        reaches(graph, source, u) && #[trigger] graph.has_edge(u, v) && u != v ==> exists|i: int|
            0 <= i < net.out(u).len() && (#[trigger] net.out(u)[i]).to == v && net.out(u)[i].capacity == 1
}

/// A network of the same shape models the same part of the graph.
proof fn lemma_models_same_shape(graph: &Graph, a: &FlowNetwork, b: &FlowNetwork, source: i64)
    requires
        models_reachable_part(graph, a, source),
        same_shape(a, b),
    ensures
        models_reachable_part(graph, b, source),
{
    assert forall|u: i64, v: i64|
        reaches(graph, source, u) && #[trigger] graph.has_edge(u, v) && u != v implies exists|i: int|
            0 <= i < b.out(u).len() && (#[trigger] b.out(u)[i]).to == v && b.out(u)[i].capacity == 1 by {
        let i = choose|i: int| 0 <= i < a.out(u).len() && (#[trigger] a.out(u)[i]).to == v && a.out(u)[i].capacity == 1;
        assert(a.out(u).len() == b.out(u).len());
        assert(b.out(u)[i].to == v);
    }
    assert forall|u: i64| #[trigger] b.has_node(u) implies reaches(graph, source, u) by {
        assert(a.has_node(u));
    }
    assert forall|u: i64, i: int|
        0 <= i < b.out(u).len() && (#[trigger] b.out(u)[i]).capacity > 0 implies graph.has_edge(u, b.out(u)[i].to) by {
        assert(a.out(u)[i].to == b.out(u)[i].to);
    }
}

/// When the source reaches the sink, the sink is a node of a network that models the
/// reachable part of the graph.
proof fn lemma_sink_in_network(graph: &Graph, net: &FlowNetwork, source: i64, sink: i64)
    requires
        graph.wf(),
        net.wf(),
        models_reachable_part(graph, net, source),
        reaches(graph, source, sink),
        source != sink,
    ensures
        net.has_node(sink),
{
    let k = choose|k: nat| #[trigger] within(graph, source, sink, k);
    lemma_sink_in_network_k(graph, net, source, sink, k);
}

proof fn lemma_sink_in_network_k(graph: &Graph, net: &FlowNetwork, source: i64, v: i64, k: nat)
    requires
        graph.wf(),
        net.wf(),
        models_reachable_part(graph, net, source),
        within(graph, source, v, k),
        source != v,
    ensures
        net.has_node(v),
    decreases k,
{
    let u = choose|u: i64| #[trigger] graph.has_edge(u, v) && within(graph, source, u, (k - 1) as nat);
    assert(reaches(graph, source, u));
    if u != v {
        let i = choose|i: int| 0 <= i < net.out(u).len() && (#[trigger] net.out(u)[i]).to == v && net.out(u)[i].capacity == 1;
    } else {
        lemma_sink_in_network_k(graph, net, source, v, (k - 1) as nat);
    }
}

/// Reads the cut off a network in which no more flow can reach the sink.
fn extract_st_cut(graph: &Graph, net: &FlowNetwork, source: i64, sink: i64, flow: usize) -> (res: MinCutResult)
    requires
        graph.wf(),
        net.wf(),
        source != sink,
        !res_reaches(net, source, sink),
        models_reachable_part(graph, net, source),
        flow > 0 <==> reaches(graph, source, sink),
    ensures
        is_st_cut(graph, source, sink, res),
        res.cut_size == flow,
{
    let source_side = net.reachable_residual(source);
    let ghost side = id_set_view(source_side);
    let mut sink_side = id_set_new();
    let mut i: usize = 0;
    while i < net.node_list.len()
        invariant
            net.wf(),
            side == id_set_view(source_side),
            i <= net.node_list@.len(),
            forall|x: i64| #[trigger]
                id_set_view(sink_side).contains(x) <==> net.node_list@.subrange(0, i as int).contains(x)
                    && !side.contains(x),
        decreases net.node_list.len() - i,
    {
        let x = net.node_list[i];
        let ghost before = id_set_view(sink_side);
        if !id_set_contains(&source_side, x) {
            id_set_insert(&mut sink_side, x);
        }
        proof {
            let p0 = net.node_list@.subrange(0, i as int);
            let p1 = net.node_list@.subrange(0, i + 1);
            assert(p1 =~= p0.push(x));
            assert forall|y: i64| #[trigger]
                id_set_view(sink_side).contains(y) <==> p1.contains(y) && !side.contains(y) by {
                if p0.contains(y) {
                    let a = choose|a: int| 0 <= a < p0.len() && p0[a] == y;
                    assert(p1[a] == y);
                }
                if p1.contains(y) {
                    let a = choose|a: int| 0 <= a < p1.len() && p1[a] == y;
                    if a < p0.len() {
                        assert(p0[a] == y);
                    }
                }
                if y == x {
                    assert(p1[i as int] == x);
                }
            }
        }
        i = i + 1;
    }
    let cut_edges = net.find_cut_edges(&source_side);
    let res = MinCutResult { source_side, sink_side, cut_edges, cut_size: flow };
    proof {
        assert(net.node_list@.subrange(0, net.node_list@.len() as int) =~= net.node_list@);
        assert(!side.contains(sink)) by {
            if side.contains(sink) {
                assert(res_reaches(net, source, sink));
            }
        }
        assert forall|x: i64| #[trigger] side.contains(x) implies reaches(graph, source, x) by {
            if x == source {
                assert(within(graph, source, source, 0));
            } else {
                assert(net.has_node(x));
            }
        }
        assert forall|x: i64| #[trigger] id_set_view(res.sink_side).contains(x) implies !side.contains(x) && reaches(
            graph,
            source,
            x,
        ) by {
            assert(net.node_list@.contains(x));
            assert(net.has_node(x));
        }
        if reaches(graph, source, sink) {
            lemma_sink_in_network(graph, net, source, sink);
            assert(net.node_list@.contains(sink));
        }
        assert forall|k: int| 0 <= k < res.cut_edges@.len() implies graph.has_edge(
            (#[trigger] res.cut_edges@[k]).0,
            res.cut_edges@[k].1,
        ) by {
            let u = res.cut_edges@[k].0;
            let q = choose|q: int|
                0 <= q < net.out(u).len() && (#[trigger] net.out(u)[q]).to == res.cut_edges@[k].1 && is_full(
                    net.out(u)[q],
                );
            assert(net.out(u)[q].capacity > 0);
        }
        assert forall|p: Seq<i64>| #[trigger] is_path(graph, p, source, sink) implies exists|i: int|
            0 <= i < p.len() - 1 && #[trigger] res.cut_edges@.contains((p[i], p[i + 1])) by {
            let i = lemma_first_exit(p, side);
            let u = p[i];
            let v = p[i + 1];
            assert(graph.has_edge(p[i], p[i + 1]));
            assert(reaches(graph, source, u));
            let q = choose|q: int| 0 <= q < net.out(u).len() && (#[trigger] net.out(u)[q]).to == v && net.out(u)[q].capacity == 1;
            if net.out(u)[q].flow < net.out(u)[q].capacity {
                assert(net.res_edge(u, v));
            }
            assert(res.cut_edges@.contains((u, v)));
        }
    }
    res
}

/// A cut between `source` and `sink`: the edges that the augmenting-path method
/// saturates on the sink side of what the source still reaches. Every path from the
/// source to the sink passes through one of them.
pub fn min_st_cut(graph: &Graph, source: i64, sink: i64) -> (r: Result<MinCutResult, SqliteGraphError>)
    requires
        graph.wf(),
    ensures
        match r {
            Ok(res) => is_st_cut(graph, source, sink, res),
            Err(_) => false,
        },
{
    if source == sink {
        let mut side = id_set_new();
        id_set_insert(&mut side, source);
        return Ok(MinCutResult { source_side: side, sink_side: id_set_new(), cut_edges: Vec::new(), cut_size: 0 });
    }
    let network = build_flow_network(graph, source, sink);
    let nodes = network.nodes();
    if id_set_contains(&nodes, source) && !id_set_contains(&nodes, sink) {
        let res = MinCutResult {
            source_side: network.nodes(),
            sink_side: id_set_new(),
            cut_edges: Vec::new(),
            cut_size: 0,
        };
        proof {
            lemma_no_path_to_outside(graph, &network, source, sink);
        }
        return Ok(res);
    }
    let (max_flow, residual) = edmonds_karp(network, source, sink);
    proof {
        lemma_models_same_shape(graph, &network, &residual, source);
        lemma_flow_positive(graph, &network, &residual, source, sink, max_flow);
    }
    Ok(extract_st_cut(graph, &residual, source, sink, max_flow))
}

/// A node reached over edges that can take more flow is reached in the graph over as
/// many edges.
proof fn lemma_res_within_graph(graph: &Graph, net: &FlowNetwork, source: i64, s: i64, v: i64, k: nat)
    requires
        models_reachable_part(graph, net, source),
        res_within(net, s, v, k),
    ensures
        within(graph, s, v, k),
    decreases k,
{
    if v != s {
        let u = choose|u: i64| #[trigger] net.res_edge(u, v) && res_within(net, s, u, (k - 1) as nat);
        let i = choose|i: int|
            0 <= i < net.out(u).len() && (#[trigger] net.out(u)[i]).to == v && net.out(u)[i].flow
                < net.out(u)[i].capacity;
        assert(graph.has_edge(u, v));
        lemma_res_within_graph(graph, net, source, s, u, (k - 1) as nat);
    }
}

/// Reaching over at most `k` edges is reaching over at most `k + 1`.
proof fn lemma_res_within_more(net: &FlowNetwork, s: i64, v: i64, k: nat)
    requires
        res_within(net, s, v, k),
    ensures
        res_within(net, s, v, k + 1),
    decreases k,
{
    if v != s {
        let u = choose|u: i64| #[trigger] net.res_edge(u, v) && res_within(net, s, u, (k - 1) as nat);
        lemma_res_within_more(net, s, u, (k - 1) as nat);
        lemma_res_step(net, s, u, v, k);
    }
}

/// In a network without flow that models the reachable part of the graph, what the
/// source reaches in the graph it reaches over edges that can take flow.
proof fn lemma_graph_within_res(graph: &Graph, net: &FlowNetwork, source: i64, v: i64, k: nat)
    requires
        models_reachable_part(graph, net, source),
        no_flow(net),
        unit_capacities(net),
        within(graph, source, v, k),
    ensures
        res_within(net, source, v, k),
    decreases k,
{
    if v != source {
        let u = choose|u: i64| #[trigger] graph.has_edge(u, v) && within(graph, source, u, (k - 1) as nat);
        lemma_graph_within_res(graph, net, source, u, (k - 1) as nat);
        if u == v {
            lemma_res_within_more(net, source, v, (k - 1) as nat);
        } else {
            assert(reaches(graph, source, u));
            let i = choose|i: int|
                0 <= i < net.out(u).len() && (#[trigger] net.out(u)[i]).to == v && net.out(u)[i].capacity == 1;
            assert(net.res_edge(u, v));
            lemma_res_step(net, source, u, v, (k - 1) as nat);
        }
    }
}

/// The flow that the augmenting-path method sends through a network built without flow
/// is positive exactly when the source reaches the sink in the graph.
proof fn lemma_flow_positive(graph: &Graph, n0: &FlowNetwork, n1: &FlowNetwork, source: i64, sink: i64, flow: usize)
    requires
        models_reachable_part(graph, n0, source),
        no_flow(n0),
        unit_capacities(n0),
        !res_reaches(n1, source, sink),
        flow == 0 ==> *n1 == *n0,
        flow > 0 ==> res_reaches(n0, source, sink),
    ensures
        flow > 0 <==> reaches(graph, source, sink),
{
    if flow > 0 {
        let k = choose|k: nat| #[trigger] res_within(n0, source, sink, k);
        lemma_res_within_graph(graph, n0, source, source, sink, k);
    } else if reaches(graph, source, sink) {
        let k = choose|k: nat| #[trigger] within(graph, source, sink, k);
        lemma_graph_within_res(graph, n0, source, sink, k);
    }
}

/// When the sink is not a node of a network that models the reachable part of the
/// graph, no path leads from the source to the sink.
proof fn lemma_no_path_to_outside(graph: &Graph, net: &FlowNetwork, source: i64, sink: i64)
    requires
        graph.wf(),
        net.wf(),
        models_reachable_part(graph, net, source),
        net.has_node(source),
        !net.has_node(sink),
        source != sink,
    ensures
        !reaches(graph, source, sink),
        forall|p: Seq<i64>| !(#[trigger] is_path(graph, p, source, sink)),
{
    if reaches(graph, source, sink) {
        lemma_sink_in_network(graph, net, source, sink);
    }
    assert forall|p: Seq<i64>| !(#[trigger] is_path(graph, p, source, sink)) by {
        if is_path(graph, p, source, sink) {
            crate::reach::lemma_path_reaches(graph, p, source, sink);
        }
    }
}

/// `edmonds_karp`, reporting after each augmenting path the iteration and the flow so
/// far, in messages that begin with `label`.
fn edmonds_karp_with_progress<F: ProgressCallback>(
    network: FlowNetwork,
    source: i64,
    sink: i64,
    progress: &F,
    label: &str,
) -> (r: (usize, FlowNetwork))
    requires
        network.wf(),
        unit_capacities(&network),
        source != sink,
    ensures
        r.1.wf(),
        same_shape(&network, &r.1),
        !res_reaches(&r.1, source, sink),
        r.0 == 0 ==> r.1 == network,
        r.0 > 0 ==> res_reaches(&network, source, sink),
{
    let ghost n0 = network;
    let mut network = network;
    let mut max_flow: usize = 0;
    let mut iteration: usize = 0;
    proof {
        lemma_residual_sum_bound(n0.out(source));
        assert(n0.out(source).len() <= usize::MAX) by {
            if n0.adjacency@.contains_key(source) {
                assert(n0.adjacency@[source]@.len() == n0.adjacency@[source].len());
            }
        }
    }
    loop
        invariant
            network.wf(),
            same_shape(&n0, &network),
            unit_capacities(&n0),
            source != sink,
            0 <= residual_sum(network.out(source)),
            max_flow + residual_sum(network.out(source)) == residual_sum(n0.out(source)),
            residual_sum(n0.out(source)) <= usize::MAX,
            max_flow == 0 ==> network == n0,
            max_flow > 0 ==> res_reaches(&n0, source, sink),
            iteration <= max_flow,
        ensures
            network.wf(),
            same_shape(&n0, &network),
            !res_reaches(&network, source, sink),
            max_flow == 0 ==> network == n0,
            max_flow > 0 ==> res_reaches(&n0, source, sink),
        decreases residual_sum(network.out(source)),
    {
        match bfs_augmenting_path(&network, source, sink) {
            None => {
                break;
            },
            Some(path) => {
                proof {
                    assert(path@.len() >= 2) by {
                        if path@.len() == 1 {
                            assert(path@[0] == path@[path@.len() - 1]);
                        }
                    }
                }
                proof {
                    if max_flow == 0 {
                        lemma_augmenting_reaches(&network, path@, source, sink);
                    }
                }
                let (bottleneck, chosen) = find_bottleneck(&network, &path);
                augment_flow(&mut network, &path, bottleneck, &chosen);
                proof {
                    assert forall|w: i64, i: int| 0 <= i < network.out(w).len() implies (#[trigger] network.out(
                        w,
                    )[i]).capacity <= 1 by {
                        assert(network.out(w)[i].capacity == n0.out(w)[i].capacity);
                    }
                    lemma_residual_sum_bound(network.out(source));
                }
                max_flow = max_flow + bottleneck;
                iteration = iteration + 1;
                let mut msg = String::from_str(label);
                msg.append(": iteration ");
                msg.append(usize_text(iteration).as_str());
                msg.append(", flow so far: ");
                msg.append(usize_text(max_flow).as_str());
                progress.on_progress(iteration, None, msg.as_str());
            },
        }
    }
    progress.on_complete();
    (max_flow, network)
}

/// `min_st_cut`, reporting the progress of the flow computation to `progress`.
pub fn min_st_cut_with_progress<F: ProgressCallback>(
    graph: &Graph,
    source: i64,
    sink: i64,
    progress: &F,
) -> (r: Result<MinCutResult, SqliteGraphError>)
    requires
        graph.wf(),
    ensures
        match r {
            Ok(res) => is_st_cut(graph, source, sink, res),
            Err(_) => false,
        },
{
    if source == sink {
        let mut side = id_set_new();
        id_set_insert(&mut side, source);
        return Ok(MinCutResult { source_side: side, sink_side: id_set_new(), cut_edges: Vec::new(), cut_size: 0 });
    }
    let network = build_flow_network(graph, source, sink);
    let nodes = network.nodes();
    if id_set_contains(&nodes, source) && !id_set_contains(&nodes, sink) {
        let res = MinCutResult {
            source_side: network.nodes(),
            sink_side: id_set_new(),
            cut_edges: Vec::new(),
            cut_size: 0,
        };
        proof {
            lemma_no_path_to_outside(graph, &network, source, sink);
        }
        return Ok(res);
    }
    let (max_flow, residual) = edmonds_karp_with_progress(network, source, sink, progress, "Min cut");
    proof {
        lemma_models_same_shape(graph, &network, &residual, source);
        lemma_flow_positive(graph, &network, &residual, source, sink, max_flow);
    }
    Ok(extract_st_cut(graph, &residual, source, sink, max_flow))
}

/// The largest node id that the vertex splitting can encode (as `2 * x` and `2 * x + 1`).
pub const SPLIT_LIMIT: i64 = 4611686018427387903;

/// The encoding of a graph in which each node `x` becomes an entry node `2 * x` and an
/// exit node `2 * x + 1`; for each node other than the source and the sink an edge leads
/// from its entry to its exit.
struct VertexSplitTransform {
    source: i64,
    sink: i64,
}

impl VertexSplitTransform {
    /// The encoding for the given source and sink.
    fn new(source: i64, sink: i64) -> (t: Self)
        ensures
            t.source == source,
            t.sink == sink,
    {
        VertexSplitTransform { source, sink }
    }

    /// `x` is encodable: an id that splitting keeps in range.
    spec fn encodable(&self, x: i64) -> bool {
        0 <= x <= SPLIT_LIMIT
    }

    /// The entry node of `x`.
    spec fn spec_in(&self, x: i64) -> i64 {
        (2 * x) as i64
    }

    /// The exit node of `x`.
    spec fn spec_out(&self, x: i64) -> i64 {
        (2 * x + 1) as i64
    }

    /// The entry node of `x`.
    fn node_in(&self, x: i64) -> (r: i64)
        requires
            self.encodable(x),
        ensures
            r == self.spec_in(x),
            r == 2 * x,
    {
        x * 2
    }

    /// The exit node of `x`.
    fn node_out(&self, x: i64) -> (r: i64)
        requires
            self.encodable(x),
        ensures
            r == self.spec_out(x),
            r == 2 * x + 1,
    {
        x * 2 + 1
    }

    /// Whether `node_id` is one of the nodes that encode `original`.
    fn is_original_node(&self, node_id: i64, original: i64) -> (b: bool)
        requires
            self.encodable(original),
        ensures
            b == (node_id == self.spec_in(original) || node_id == self.spec_out(original)),
    {
        node_id == original * 2 || node_id == original * 2 + 1
    }

    /// The node that an encoded node stands for.
    fn to_original(&self, node_id: i64) -> (r: i64)
        ensures
            node_id >= 0 ==> r == node_id / 2,
    {
        if node_id % 2 == 0 {
            node_id / 2
        } else {
            (node_id - 1) / 2
        }
    }

    /// The node whose split edge (entry to exit, or back) runs from `from` to `to`, if
    /// that edge is one.
    fn is_internal_edge(&self, from: i64, to: i64) -> (r: Option<i64>)
        ensures
            r matches Some(x) ==> x != self.source && x != self.sink && (from == 2 * x || from == 2 * x + 1),
            from >= 1 && from % 2 == 1 && to == from - 1 && (from - 1) / 2 != self.source && (from - 1) / 2
                != self.sink ==> r == Some(((from - 1) / 2) as i64),
    {
        if from % 2 == 0 && from < i64::MAX && to == from + 1 {
            let original = from / 2;
            if original != self.source && original != self.sink {
                return Some(original);
            }
        }
        if from % 2 == 1 && to == from - 1 {
            let original = (from - 1) / 2;
            if original != self.source && original != self.sink {
                return Some(original);
            }
        }
        None
    }
}

/// `z` is an id that the split network of `g` from `s` can hold: the entry or the exit
/// id of a node that `s` reaches.
pub open spec fn split_id(g: &Graph, s: i64, z: int) -> bool {
    exists|y: i64| #[trigger] reaches(g, s, y) && (z == 2 * y || z == 2 * y + 1)
}

/// The separator holds only nodes that the source reaches, and it is empty when the
/// source does not reach the target.
pub open spec fn separator_bounded(g: &Graph, s: i64, t: i64, res: MinVertexCutResult) -> bool {
    let sep = id_set_view(res.separator);
    &&& forall|x: i64| #[trigger] sep.contains(x) ==> reaches(g, s, x)
    &&& !reaches(g, s, t) ==> sep == Set::<i64>::empty()
}

/// The exit node `2 * v + 1` of `v`.
spec fn exit_of(v: i64) -> i64 {
    (2 * v + 1) as i64
}

/// The entry node `2 * v` of `v`.
spec fn entry_of(v: i64) -> i64 {
    (2 * v) as i64
}

/// The network holds the edge back from the exit of `v` to its entry, of capacity zero.
spec fn has_split_back_edge(net: &FlowNetwork, v: i64) -> bool {
    exists|i: int|
        0 <= i < net.out(exit_of(v)).len() && (#[trigger] net.out(exit_of(v))[i]).to == entry_of(v)
            && net.out(exit_of(v))[i].capacity == 0
}

/// Appending edges keeps the edges already present.
proof fn lemma_back_edge_kept(a: &FlowNetwork, b: &FlowNetwork, v: i64)
    requires
        has_split_back_edge(a, v),
        keeps_edges(a, b),
    ensures
        has_split_back_edge(b, v),
{
    let i = choose|i: int|
        0 <= i < a.out(exit_of(v)).len() && (#[trigger] a.out(exit_of(v))[i]).to == entry_of(v)
            && a.out(exit_of(v))[i].capacity == 0;
    assert(b.out(exit_of(v))[i] == a.out(exit_of(v))[i]);
}

/// The vertex-split flow network of the part of `graph` reachable from `source`: each
/// edge `(u, v)` becomes an edge from the exit of `u` to the entry of `v`, and each node
/// met other than the source and the sink gets an edge from its entry to its exit, all of
/// capacity one.
fn build_vertex_split_network(graph: &Graph, source: i64, sink: i64) -> (r: (FlowNetwork, VertexSplitTransform))
    requires
        graph.wf(),
        graph.node_count() <= SPLIT_LIMIT,
        source != sink,
        0 <= source <= SPLIT_LIMIT,
        0 <= sink <= SPLIT_LIMIT,
    ensures
        r.0.wf(),
        unit_capacities(&r.0),
        r.1.source == source,
        r.1.sink == sink,
        forall|u: i64, v: i64|
            reaches(graph, source, u) && #[trigger] graph.has_edge(u, v) && v != source && v != sink
                ==> has_split_back_edge(&r.0, v),
        forall|u: i64|
            reaches(graph, source, u) && #[trigger] graph.has_edge(u, sink) && u != sink ==> r.0.has_node(entry_of(sink)),
        forall|z: i64| #[trigger] r.0.has_node(z) ==> split_id(graph, source, z as int),
{
    let transform = VertexSplitTransform::new(source, sink);
    let mut network = FlowNetwork::new();
    let mut nodes_to_visit: Vec<i64> = Vec::new();
    nodes_to_visit.push(source);
    let mut visited = id_set_new();
    id_set_insert(&mut visited, source);
    proof {
        graph.lemma_wf();
        assert(within(graph, source, source, 0));
        assert(nodes_to_visit@[0] == source);
    }
    while nodes_to_visit.len() > 0
        invariant
            graph.wf(),
            graph.node_count() <= SPLIT_LIMIT,
            transform.source == source,
            transform.sink == sink,
            source != sink,
            0 <= source <= SPLIT_LIMIT,
            0 <= sink <= SPLIT_LIMIT,
            network.wf(),
            unit_capacities(&network),
            id_set_view(visited).contains(source),
            nodes_to_visit@.no_duplicates(),
            forall|x: i64| #[trigger] nodes_to_visit@.contains(x) ==> id_set_view(visited).contains(x),
            forall|x: i64| #[trigger] id_set_view(visited).contains(x) ==> reaches(graph, source, x),
            forall|x: i64| #[trigger] id_set_view(visited).contains(x) ==> graph.is_node(x) || x == source,
            forall|u: i64, v: i64|
                id_set_view(visited).contains(u) && !nodes_to_visit@.contains(u) && #[trigger] graph.has_edge(u, v)
                    ==> id_set_view(visited).contains(v),
            forall|u: i64, v: i64|
                id_set_view(visited).contains(u) && !nodes_to_visit@.contains(u) && #[trigger] graph.has_edge(u, v)
                    && v != source && v != sink ==> has_split_back_edge(&network, v),
            forall|u: i64|
                id_set_view(visited).contains(u) && !nodes_to_visit@.contains(u) && #[trigger] graph.has_edge(u, sink)
                    && u != sink ==> network.has_node(entry_of(sink)),
            forall|z: i64| #[trigger] network.has_node(z) ==> split_id(graph, source, z as int),
        decreases graph.node_count() + 1 - id_set_view(visited).len() + nodes_to_visit@.len(),
    {
        proof {
            lemma_bounded_set(graph, source, id_set_view(visited));
        }
        let ghost s0 = nodes_to_visit@;
        let ghost vis0 = id_set_view(visited);
        let node = nodes_to_visit.pop().unwrap();
        let ghost s1 = nodes_to_visit@;
        proof {
            assert(s0[s0.len() - 1] == node);
            assert(s0.contains(node));
            assert forall|x: i64| #[trigger] s1.contains(x) <==> s0.contains(x) && x != node by {
                if s1.contains(x) {
                    let a = choose|a: int| 0 <= a < s1.len() && s1[a] == x;
                    assert(s0[a] == x);
                }
                if s0.contains(x) && x != node {
                    let a = choose|a: int| 0 <= a < s0.len() && s0[a] == x;
                    assert(a != s0.len() - 1);
                    assert(s1[a] == x);
                }
            }
        }
        if let Ok(neighbors) = graph.fetch_outgoing(node) {
            let ghost k0 = choose|k: nat| #[trigger] within(graph, source, node, k);
            let mut j: usize = 0;
            while j < neighbors.len()
                invariant
                    graph.wf(),
                    graph.node_count() <= SPLIT_LIMIT,
                    transform.source == source,
                    transform.sink == sink,
                    source != sink,
                    0 <= source <= SPLIT_LIMIT,
                    0 <= sink <= SPLIT_LIMIT,
                    network.wf(),
                    unit_capacities(&network),
                    neighbors@ == graph.succs(node),
                    j <= neighbors@.len(),
                    vis0.contains(node),
                    graph.is_node(node) || node == source,
                    !s1.contains(node),
                    within(graph, source, node, k0),
                    vis0.subset_of(id_set_view(visited)),
                    id_set_view(visited).contains(source),
                    nodes_to_visit@.no_duplicates(),
                    forall|x: i64| #[trigger] nodes_to_visit@.contains(x) ==> id_set_view(visited).contains(x),
                    forall|x: i64| #[trigger] s1.contains(x) ==> nodes_to_visit@.contains(x),
                    forall|x: i64| #[trigger] nodes_to_visit@.contains(x) && !s1.contains(x) ==> !vis0.contains(x),
                    forall|x: i64| #[trigger] id_set_view(visited).contains(x) ==> reaches(graph, source, x),
                    forall|x: i64| #[trigger] id_set_view(visited).contains(x) ==> graph.is_node(x) || x == source,
                    forall|x: i64| #[trigger]
                        id_set_view(visited).contains(x) && !vis0.contains(x) ==> nodes_to_visit@.contains(x),
                    forall|u: i64, v: i64|
                        vis0.contains(u) && !s1.contains(u) && u != node && #[trigger] graph.has_edge(u, v)
                            ==> id_set_view(visited).contains(v),
                    forall|u: i64, v: i64|
                        vis0.contains(u) && !s1.contains(u) && u != node && #[trigger] graph.has_edge(u, v) && v
                            != source && v != sink ==> has_split_back_edge(&network, v),
                    forall|u: i64|
                        vis0.contains(u) && !s1.contains(u) && u != node && #[trigger] graph.has_edge(u, sink) && u
                            != sink ==> network.has_node(entry_of(sink)),
                    forall|q: int| 0 <= q < j ==> id_set_view(visited).contains(#[trigger] neighbors@[q]),
                    forall|q: int|
                        0 <= q < j && #[trigger] neighbors@[q] != source && neighbors@[q] != sink
                            ==> has_split_back_edge(&network, neighbors@[q]),
                    forall|q: int| 0 <= q < j && #[trigger] neighbors@[q] == sink && node != sink ==> network.has_node(entry_of(sink)),
                    forall|z: i64| #[trigger] network.has_node(z) ==> split_id(graph, source, z as int),
                    id_set_view(visited).len() + s1.len() == vis0.len() + nodes_to_visit@.len(),
                    vis0.finite(),
                decreases neighbors.len() - j,
            {
                let neighbor = neighbors[j];
                proof {
                    graph.lemma_wf();
                    assert(graph.succs(node).contains(neighbor));
                    lemma_bounded_set(graph, source, id_set_view(visited));
                }
                let node_out = transform.node_out(node);
                let neighbor_in = transform.node_in(neighbor);
                let ghost n0 = network;
                network.add_edge(node_out, neighbor_in, 1);
                let ghost n1 = network;
                let neighbor_out = transform.node_out(neighbor);
                if neighbor != source && neighbor != sink {
                    network.add_edge(neighbor_in, neighbor_out, 1);
                }
                let ghost n2 = network;
                let node_in = transform.node_in(node);
                if node != source && node != sink {
                    network.add_edge(node_in, node_out, 1);
                }
                proof {
                    assert(reaches(graph, source, node));
                    assert(reaches(graph, source, neighbor)) by {
                        lemma_within_step(graph, source, node, neighbor, k0);
                    }
                    assert(split_id(graph, source, node_out as int));
                    assert(split_id(graph, source, neighbor_in as int));
                    assert(split_id(graph, source, neighbor_out as int));
                    assert(split_id(graph, source, node_in as int));
                    assert forall|z: i64| #[trigger] network.has_node(z) implies split_id(graph, source, z as int) by {
                        if !n2.has_node(z) {
                            assert(z == node_in || z == node_out);
                        } else if !n1.has_node(z) {
                            assert(z == neighbor_in || z == neighbor_out);
                        } else if !n0.has_node(z) {
                            assert(z == node_out || z == neighbor_in);
                        }
                    }
                    lemma_extends_trans(&n0, &n1, &n2);
                    lemma_extends_trans(&n0, &n2, &network);
                    if neighbor != source && neighbor != sink {
                        let w = exit_of(neighbor);
                        assert(neighbor_out == w);
                        assert(neighbor_in == entry_of(neighbor));
                        let at = n1.out(w).len() as int;
                        assert(n2.out(w)[at] == FlowEdge { to: entry_of(neighbor), capacity: 0, flow: 0 });
                        assert(has_split_back_edge(&n2, neighbor));
                        lemma_back_edge_kept(&n2, &network, neighbor);
                    }
                    if neighbor == sink && node != sink {
                        assert(n1.has_node(neighbor_in));
                        assert(network.has_node(entry_of(sink)));
                    }
                    assert forall|u: i64, v: i64|
                        vis0.contains(u) && !s1.contains(u) && u != node && #[trigger] graph.has_edge(u, v) && v
                            != source && v != sink implies has_split_back_edge(&network, v) by {
                        lemma_back_edge_kept(&n0, &network, v);
                    }
                    assert forall|q: int|
                        0 <= q < j + 1 && #[trigger] neighbors@[q] != source && neighbors@[q] != sink
                            implies has_split_back_edge(&network, neighbors@[q]) by {
                        if q < j {
                            lemma_back_edge_kept(&n0, &network, neighbors@[q]);
                        }
                    }
                }
                let ghost v1 = id_set_view(visited);
                let ghost qb = nodes_to_visit@;
                if id_set_insert(&mut visited, neighbor) {
                    nodes_to_visit.push(neighbor);
                    proof {
                        lemma_within_step(graph, source, node, neighbor, k0);
                        assert(within(graph, source, neighbor, k0 + 1));
                        assert(id_set_view(visited).len() == v1.len() + 1);
                        assert forall|x: i64| #[trigger] nodes_to_visit@.contains(x) implies id_set_view(visited).contains(x) by {
                            if x != neighbor {
                                let a = choose|a: int| 0 <= a < nodes_to_visit@.len() && nodes_to_visit@[a] == x;
                                assert(qb[a] == x);
                                assert(qb.contains(x));
                            }
                        }
                        assert forall|x: i64| #[trigger] s1.contains(x) implies nodes_to_visit@.contains(x) by {
                            let a = choose|a: int| 0 <= a < qb.len() && qb[a] == x;
                            assert(nodes_to_visit@[a] == x);
                        }
                        assert forall|x: i64| #[trigger] nodes_to_visit@.contains(x) && !s1.contains(x) implies !vis0.contains(x) by {
                            if x != neighbor {
                                let a = choose|a: int| 0 <= a < nodes_to_visit@.len() && nodes_to_visit@[a] == x;
                                assert(qb[a] == x);
                                assert(qb.contains(x));
                            }
                        }
                        assert forall|x: i64| #[trigger]
                            id_set_view(visited).contains(x) && !vis0.contains(x) implies nodes_to_visit@.contains(x) by {
                            if x == neighbor {
                                assert(nodes_to_visit@[nodes_to_visit@.len() - 1] == x);
                            } else {
                                let a = choose|a: int| 0 <= a < qb.len() && qb[a] == x;
                                assert(nodes_to_visit@[a] == x);
                            }
                        }
                        assert forall|a: int, b: int| 0 <= a < b < nodes_to_visit@.len() implies nodes_to_visit@[a]
                            != nodes_to_visit@[b] by {
                            assert(nodes_to_visit@[a] == qb[a]);
                            if b == nodes_to_visit@.len() - 1 {
                                assert(qb.contains(qb[a]));
                            } else {
                                assert(nodes_to_visit@[b] == qb[b]);
                            }
                        }
                    }
                }
                j = j + 1;
            }
            proof {
                assert forall|u: i64, v: i64|
                    id_set_view(visited).contains(u) && !nodes_to_visit@.contains(u) && #[trigger] graph.has_edge(u, v)
                        implies id_set_view(visited).contains(v) by {
                    if u == node {
                        assert(neighbors@.contains(v));
                    }
                }
                assert forall|u: i64, v: i64|
                    id_set_view(visited).contains(u) && !nodes_to_visit@.contains(u) && #[trigger] graph.has_edge(u, v)
                        && v != source && v != sink implies has_split_back_edge(&network, v) by {
                    if u == node {
                        assert(neighbors@.contains(v));
                        let q = choose|q: int| 0 <= q < neighbors@.len() && neighbors@[q] == v;
                    }
                }
                assert forall|u: i64|
                    id_set_view(visited).contains(u) && !nodes_to_visit@.contains(u) && #[trigger] graph.has_edge(u, sink)
                        && u != sink implies network.has_node(entry_of(sink)) by {
                    if u == node {
                        assert(neighbors@.contains(sink));
                        let q = choose|q: int| 0 <= q < neighbors@.len() && neighbors@[q] == sink;
                    }
                }
                lemma_bounded_set(graph, source, id_set_view(visited));
            }
        }
    }
    proof {
        assert forall|u: i64, v: i64|
            reaches(graph, source, u) && #[trigger] graph.has_edge(u, v) && v != source && v != sink
                implies has_split_back_edge(&network, v) by {
            let k = choose|k: nat| #[trigger] within(graph, source, u, k);
            lemma_closed_holds_reachable(graph, source, id_set_view(visited), u, k);
        }
        assert forall|u: i64|
            reaches(graph, source, u) && #[trigger] graph.has_edge(u, sink) && u != sink implies network.has_node(entry_of(sink)) by {
            let k = choose|k: nat| #[trigger] within(graph, source, u, k);
            lemma_closed_holds_reachable(graph, source, id_set_view(visited), u, k);
        }
    }
    (network, transform)
}

/// When `s` reaches `t != s`, some node other than `t` that `s` reaches has an edge
/// into `t`.
proof fn lemma_last_step(g: &Graph, s: i64, t: i64, k: nat) -> (u: i64)
    requires
        within(g, s, t, k),
        s != t,
    ensures
        u != t,
        reaches(g, s, u),
        g.has_edge(u, t),
    decreases k,
{
    let u = choose|u: i64| #[trigger] g.has_edge(u, t) && within(g, s, u, (k - 1) as nat);
    if u == t {
        lemma_last_step(g, s, t, (k - 1) as nat)
    } else {
        u
    }
}

/// The outcome of a minimum vertex cut between two nodes.
#[derive(Debug)]
pub struct MinVertexCutResult {
    /// The nodes whose removal separates the source from the target.
    pub separator: ahash::AHashSet<i64>,
    /// The nodes that the source still reaches once the flow is maximal.
    pub source_side: ahash::AHashSet<i64>,
    /// The other nodes of the flow network.
    pub sink_side: ahash::AHashSet<i64>,
    /// The size of the cut.
    pub cut_size: usize,
}

/// What a vertex cut between `source` and `target` guarantees: with `source == target` the
/// empty cut; otherwise the separator holds neither end, the source side holds the
/// source, the sides do not meet, and every node other than the two ends on a path from
/// the source to the target lies in the separator.
pub open spec fn is_vertex_cut(graph: &Graph, source: i64, target: i64, res: MinVertexCutResult) -> bool {
    let sep = id_set_view(res.separator);
    let side = id_set_view(res.source_side);
    let other = id_set_view(res.sink_side);
    &&& source == target ==> {
        &&& sep == Set::<i64>::empty()
        &&& side == Set::<i64>::empty().insert(source)
        &&& other == Set::<i64>::empty()
        &&& res.cut_size == 0
    }
    &&& source != target ==> {
        &&& forall|x: i64| #[trigger] sep.contains(x) ==> x != source && x != target
        &&& side.contains(source)
        &&& forall|x: i64| #[trigger] other.contains(x) ==> !side.contains(x)
        &&& forall|p: Seq<i64>, i: int|
            #[trigger] is_path(graph, p, source, target) && 0 < i < p.len() - 1 && p[i] != source && p[i]
                != target ==> sep.contains(#[trigger] p[i])
    }
}

/// The trivial vertex cut of a node from itself.
fn trivial_vertex_cut(source: i64) -> (res: MinVertexCutResult)
    ensures
        id_set_view(res.separator) == Set::<i64>::empty(),
        id_set_view(res.source_side) == Set::<i64>::empty().insert(source),
        id_set_view(res.sink_side) == Set::<i64>::empty(),
        res.cut_size == 0,
{
    let mut side = id_set_new();
    id_set_insert(&mut side, source);
    MinVertexCutResult { separator: id_set_new(), source_side: side, sink_side: id_set_new(), cut_size: 0 }
}

/// Reads the vertex cut off a split network after the flow computation: the nodes whose
/// split edge (either way) is saturated form the separator.
fn extract_vertex_cut(
    graph: &Graph,
    net: &FlowNetwork,
    transform: &VertexSplitTransform,
    source: i64,
    target: i64,
) -> (res: MinVertexCutResult)
    requires
        graph.wf(),
        graph.node_count() <= SPLIT_LIMIT,
        net.wf(),
        source != target,
        0 <= source <= SPLIT_LIMIT,
        transform.source == source,
        transform.sink == target,
        forall|u: i64, v: i64|
            reaches(graph, source, u) && #[trigger] graph.has_edge(u, v) && v != source && v != target
                ==> has_split_back_edge(net, v),
        forall|z: i64| #[trigger] net.has_node(z) ==> split_id(graph, source, z as int),
    ensures
        is_vertex_cut(graph, source, target, res),
        res.cut_size == id_set_view(res.separator).len(),
        forall|x: i64| #[trigger]
            id_set_view(res.separator).contains(x) ==> split_id(graph, source, 2 * x) || split_id(
                graph,
                source,
                2 * x + 1,
            ),
{
    let mut separator = id_set_new();
    let mut a: usize = 0;
    while a < net.node_list.len()
        invariant
            net.wf(),
            transform.source == source,
            transform.sink == target,
            a <= net.node_list@.len(),
            forall|x: i64| #[trigger] id_set_view(separator).contains(x) ==> x != source && x != target,
            forall|z: i64| #[trigger] net.has_node(z) ==> split_id(graph, source, z as int),
            forall|x: i64| #[trigger]
                id_set_view(separator).contains(x) ==> split_id(graph, source, 2 * x) || split_id(
                    graph,
                    source,
                    2 * x + 1,
                ),
            forall|b: int, k: int|
                0 <= b < a && 0 <= k < net.out(net.node_list@[b]).len() && net.node_list@[b] >= 1
                    && net.node_list@[b] % 2 == 1 && (#[trigger] net.out(net.node_list@[b])[k]).to == net.node_list@[b]
                    - 1 && net.out(net.node_list@[b])[k].flow == net.out(net.node_list@[b])[k].capacity && (
                net.node_list@[b] - 1) / 2 != source && (net.node_list@[b] - 1) / 2 != target ==> id_set_view(
                    separator,
                ).contains(((net.node_list@[b] - 1) / 2) as i64),
        decreases net.node_list.len() - a,
    {
        let node = net.node_list[a];
        let edges = net.neighbors(node);
        let ghost sep0 = id_set_view(separator);
        let mut k: usize = 0;
        while k < edges.len()
            invariant
                net.wf(),
                transform.source == source,
                transform.sink == target,
                edges@ == net.out(node),
                k <= edges@.len(),
                sep0.subset_of(id_set_view(separator)),
                forall|x: i64| #[trigger] id_set_view(separator).contains(x) ==> x != source && x != target,
                net.node_list@.contains(node),
                forall|z: i64| #[trigger] net.has_node(z) ==> split_id(graph, source, z as int),
                forall|x: i64| #[trigger]
                    id_set_view(separator).contains(x) ==> split_id(graph, source, 2 * x) || split_id(
                        graph,
                        source,
                        2 * x + 1,
                    ),
                forall|q: int|
                    0 <= q < k && node >= 1 && node % 2 == 1 && (#[trigger] edges@[q]).to == node - 1
                        && edges@[q].flow == edges@[q].capacity && (node - 1) / 2 != source && (node - 1) / 2
                        != target ==> id_set_view(separator).contains(((node - 1) / 2) as i64),
            decreases edges.len() - k,
        {
            let edge = edges[k];
            proof {
                assert(net.out(node)[k as int] == edge);
            }
            match transform.is_internal_edge(node, edge.to) {
                Some(original) => {
                    if edge.residual() == 0 {
                        id_set_insert(&mut separator, original);
                        proof {
                            assert(net.has_node(node));
                            assert(split_id(graph, source, node as int));
                        }
                    }
                },
                None => {},
            }
            k = k + 1;
        }
        proof {
            assert forall|b: int, q: int|
                0 <= b < a + 1 && 0 <= q < net.out(net.node_list@[b]).len() && net.node_list@[b] >= 1
                    && net.node_list@[b] % 2 == 1 && (#[trigger] net.out(net.node_list@[b])[q]).to
                    == net.node_list@[b] - 1 && net.out(net.node_list@[b])[q].flow == net.out(
                    net.node_list@[b],
                )[q].capacity && (net.node_list@[b] - 1) / 2 != source && (net.node_list@[b] - 1) / 2
                    != target implies id_set_view(separator).contains(((net.node_list@[b] - 1) / 2) as i64) by {
                if b == a {
                    assert(edges@[q] == net.out(node)[q]);
                }
            }
        }
        a = a + 1;
    }
    let source_out = transform.node_out(source);
    let side_t = net.reachable_residual(source_out);
    let members = id_set_to_vec(&side_t);
    let mut source_side = id_set_new();
    let mut m: usize = 0;
    while m < members.len()
        invariant
            transform.source == source,
            transform.sink == target,
            m <= members@.len(),
            source_out == 2 * source + 1,
            0 <= source <= SPLIT_LIMIT,
            members@.to_set() == id_set_view(side_t),
            id_set_view(side_t).contains(source_out),
            forall|q: int|
                0 <= q < m && #[trigger] members@[q] == source_out ==> id_set_view(source_side).contains(source),
        decreases members.len() - m,
    {
        let orig = transform.to_original(members[m]);
        id_set_insert(&mut source_side, orig);
        m = m + 1;
    }
    proof {
        assert(members@.to_set().contains(source_out));
        let q = choose|q: int| 0 <= q < members@.len() && members@[q] == source_out;
    }
    let mut sink_side = id_set_new();
    let mut b: usize = 0;
    while b < net.node_list.len()
        invariant
            b <= net.node_list@.len(),
            forall|x: i64| #[trigger] id_set_view(sink_side).contains(x) ==> !id_set_view(source_side).contains(x),
        decreases net.node_list.len() - b,
    {
        let original = transform.to_original(net.node_list[b]);
        if !id_set_contains(&source_side, original) {
            id_set_insert(&mut sink_side, original);
        }
        b = b + 1;
    }
    let cut_size = id_set_len(&separator);
    let res = MinVertexCutResult { separator, source_side, sink_side, cut_size };
    proof {
        assert forall|p: Seq<i64>, i: int|
            #[trigger] is_path(graph, p, source, target) && 0 < i < p.len() - 1 && p[i] != source && p[i]
                != target implies id_set_view(res.separator).contains(#[trigger] p[i]) by {
            let x = p[i];
            lemma_path_node_reached(graph, p, source, target, i - 1);
            assert(graph.has_edge(p[i - 1], p[i]));
            graph.lemma_wf();
            assert(graph.is_node(x));
            assert(has_split_back_edge(net, x));
            let w = exit_of(x);
            let q = choose|q: int|
                0 <= q < net.out(exit_of(x)).len() && (#[trigger] net.out(exit_of(x))[q]).to == entry_of(x)
                    && net.out(exit_of(x))[q].capacity == 0;
            assert(net.adjacency@.contains_key(w));
            assert(net.node_list@.contains(w));
            let b = choose|b: int| 0 <= b < net.node_list@.len() && net.node_list@[b] == w;
            assert(w == 2 * x + 1);
            assert(w % 2 == 1);
            assert((w - 1) / 2 == x);
        }
    }
    res
}

/// An id of the split network at the entry or the exit of `x` means that `s` reaches `x`.
proof fn lemma_split_id_reached(g: &Graph, s: i64, x: i64)
    requires
        split_id(g, s, 2 * x) || split_id(g, s, 2 * x + 1),
    ensures
        reaches(g, s, x),
{
    if split_id(g, s, 2 * x) {
        let y = choose|y: i64| #[trigger] reaches(g, s, y) && (2 * x == 2 * y || 2 * x == 2 * y + 1);
        assert(y == x);
    } else {
        let y = choose|y: i64| #[trigger] reaches(g, s, y) && (2 * x + 1 == 2 * y || 2 * x + 1 == 2 * y + 1);
        assert(y == x);
    }
}

/// A node reached from `s` over at least one edge means that `s` is a node.
proof fn lemma_source_is_node(g: &Graph, s: i64, v: i64, k: nat)
    requires
        g.wf(),
        within(g, s, v, k),
        v != s,
    ensures
        g.is_node(s),
    decreases k,
{
    g.lemma_wf();
    let u = choose|u: i64| #[trigger] g.has_edge(u, v) && within(g, s, u, (k - 1) as nat);
    if u != s {
        lemma_source_is_node(g, s, u, (k - 1) as nat);
    }
}

/// An end outside the range of ids that splitting encodes is no node, so no path joins
/// the two ends.
proof fn lemma_unencodable_end(graph: &Graph, source: i64, target: i64)
    requires
        graph.wf(),
        graph.node_count() <= SPLIT_LIMIT,
        source != target,
        !(0 <= source <= SPLIT_LIMIT && 0 <= target <= SPLIT_LIMIT),
    ensures
        !reaches(graph, source, target),
        forall|p: Seq<i64>| !(#[trigger] is_path(graph, p, source, target)),
{
    graph.lemma_wf();
    if reaches(graph, source, target) {
        let k = choose|k: nat| #[trigger] within(graph, source, target, k);
        crate::reach::lemma_within_is_node(graph, source, target, k);
        lemma_source_is_node(graph, source, target, k);
    }
    assert forall|p: Seq<i64>| !(#[trigger] is_path(graph, p, source, target)) by {
        if is_path(graph, p, source, target) {
            crate::reach::lemma_path_reaches(graph, p, source, target);
        }
    }
}

/// A vertex cut between `source` and `target`, found by splitting each node into an
/// entry and an exit (joined by an edge for each node other than the two ends) and
/// running the augmenting-path method: every node other than the two ends on a path from
/// the source to the target lies in it, it holds only nodes that the source reaches, and
/// it is empty when the source does not reach the target.
pub fn min_vertex_cut(graph: &Graph, source: i64, target: i64) -> (r: Result<MinVertexCutResult, SqliteGraphError>)
    requires
        graph.wf(),
        graph.node_count() <= SPLIT_LIMIT,
    ensures
        match r {
            Ok(res) => is_vertex_cut(graph, source, target, res) && res.cut_size == id_set_view(res.separator).len()
                && separator_bounded(graph, source, target, res),
            Err(_) => false,
        },
{
    if source == target {
        return Ok(trivial_vertex_cut(source));
    }
    if source < 0 || source > SPLIT_LIMIT || target < 0 || target > SPLIT_LIMIT {
        let res = trivial_vertex_cut(source);
        proof {
            lemma_unencodable_end(graph, source, target);
        }
        return Ok(res);
    }
    let (network, transform) = build_vertex_split_network(graph, source, target);
    let source_out = transform.node_out(source);
    let target_in = transform.node_in(target);
    let nodes = network.nodes();
    if !id_set_contains(&nodes, target_in) {
        let res = trivial_vertex_cut(source);
        proof {
            lemma_no_path_to_target(graph, &network, source, target);
        }
        return Ok(res);
    }
    let (_max_flow, residual) = edmonds_karp(network, source_out, target_in);
    proof {
        lemma_back_edges_same_shape(graph, &network, &residual, source, target);
        assert forall|z: i64| #[trigger] residual.has_node(z) implies split_id(graph, source, z as int) by {
            assert(network.has_node(z));
        }
        assert(network.has_node(target_in));
        assert(split_id(graph, source, 2 * target));
        lemma_split_id_reached(graph, source, target);
    }
    let res = extract_vertex_cut(graph, &residual, &transform, source, target);
    proof {
        assert forall|x: i64| #[trigger] id_set_view(res.separator).contains(x) implies reaches(graph, source, x) by {
            lemma_split_id_reached(graph, source, x);
        }
    }
    Ok(res)
}

/// `min_vertex_cut`, reporting the progress of the flow computation to `progress`: the
/// same cut, with the size of the separator as its cut size.
pub fn min_vertex_cut_with_progress<F: ProgressCallback>(
    graph: &Graph,
    source: i64,
    target: i64,
    progress: &F,
) -> (r: Result<MinVertexCutResult, SqliteGraphError>)
    requires
        graph.wf(),
        graph.node_count() <= SPLIT_LIMIT,
    ensures
        match r {
            Ok(res) => is_vertex_cut(graph, source, target, res) && res.cut_size == id_set_view(res.separator).len()
                && separator_bounded(graph, source, target, res),
            Err(_) => false,
        },
{
    if source == target {
        return Ok(trivial_vertex_cut(source));
    }
    if source < 0 || source > SPLIT_LIMIT || target < 0 || target > SPLIT_LIMIT {
        let res = trivial_vertex_cut(source);
        proof {
            lemma_unencodable_end(graph, source, target);
        }
        return Ok(res);
    }
    let (network, transform) = build_vertex_split_network(graph, source, target);
    let source_out = transform.node_out(source);
    let target_in = transform.node_in(target);
    let nodes = network.nodes();
    if !id_set_contains(&nodes, target_in) {
        let res = trivial_vertex_cut(source);
        proof {
            lemma_no_path_to_target(graph, &network, source, target);
        }
        return Ok(res);
    }
    let (_max_flow, residual) = edmonds_karp_with_progress(network, source_out, target_in, progress, "Vertex cut");
    proof {
        lemma_back_edges_same_shape(graph, &network, &residual, source, target);
        assert forall|z: i64| #[trigger] residual.has_node(z) implies split_id(graph, source, z as int) by {
            assert(network.has_node(z));
        }
        assert(network.has_node(target_in));
        assert(split_id(graph, source, 2 * target));
        lemma_split_id_reached(graph, source, target);
    }
    let res = extract_vertex_cut(graph, &residual, &transform, source, target);
    proof {
        assert forall|x: i64| #[trigger] id_set_view(res.separator).contains(x) implies reaches(graph, source, x) by {
            lemma_split_id_reached(graph, source, x);
        }
    }
    Ok(res)
}

/// A network of the same shape has the same split edges back.
proof fn lemma_back_edges_same_shape(graph: &Graph, a: &FlowNetwork, b: &FlowNetwork, source: i64, target: i64)
    requires
        same_shape(a, b),
        forall|u: i64, v: i64|
            reaches(graph, source, u) && #[trigger] graph.has_edge(u, v) && v != source && v != target
                ==> has_split_back_edge(a, v),
    ensures
        forall|u: i64, v: i64|
            reaches(graph, source, u) && #[trigger] graph.has_edge(u, v) && v != source && v != target
                ==> has_split_back_edge(b, v),
{
    assert forall|u: i64, v: i64|
        reaches(graph, source, u) && #[trigger] graph.has_edge(u, v) && v != source && v != target
            implies has_split_back_edge(b, v) by {
        assert(has_split_back_edge(a, v));
        let i = choose|i: int|
            0 <= i < a.out(exit_of(v)).len() && (#[trigger] a.out(exit_of(v))[i]).to == entry_of(v)
                && a.out(exit_of(v))[i].capacity == 0;
        assert(a.out(exit_of(v)).len() == b.out(exit_of(v)).len());
        assert(b.out(exit_of(v))[i].to == entry_of(v));
    }
}

/// When the target is not a node of the split network, no path leads from the source to
/// the target.
proof fn lemma_no_path_to_target(graph: &Graph, net: &FlowNetwork, source: i64, target: i64)
    requires
        graph.wf(),
        source != target,
        !net.has_node(entry_of(target)),
        forall|u: i64|
            reaches(graph, source, u) && #[trigger] graph.has_edge(u, target) && u != target ==> net.has_node(
                entry_of(target),
            ),
    ensures
        forall|p: Seq<i64>| !(#[trigger] is_path(graph, p, source, target)),
{
    assert forall|p: Seq<i64>| !(#[trigger] is_path(graph, p, source, target)) by {
        if is_path(graph, p, source, target) {
            crate::reach::lemma_path_reaches(graph, p, source, target);
            let k = choose|k: nat| #[trigger] within(graph, source, target, k);
            let u = lemma_last_step(graph, source, target, k);
        }
    }
}

} // verus!
