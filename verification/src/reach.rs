//! Paths, reachability and distances in a graph, and the facts about them that the
//! traversals rest on.
use vstd::prelude::*;

use crate::graph::{Graph, node_ids};

verus! {

broadcast use vstd::seq_lib::seq_to_set_is_finite;

/// `v` can be reached from `s` over at most `k` edges.
pub open spec fn within(g: &Graph, s: i64, v: i64, k: nat) -> bool
    decreases k,
{
    v == s || (k > 0 && exists|u: i64| #[trigger] g.has_edge(u, v) && within(g, s, u, (k - 1) as nat))
}

/// `v` can be reached from `s` over some path (of no edge when `v == s`).
pub open spec fn reaches(g: &Graph, s: i64, v: i64) -> bool {
    exists|k: nat| #[trigger] within(g, s, v, k)
}

/// The shortest path from `s` to `v` has exactly `d` edges.
pub open spec fn dist_is(g: &Graph, s: i64, v: i64, d: nat) -> bool {
    within(g, s, v, d) && (d == 0 || !within(g, s, v, (d - 1) as nat))
}

/// Each item of `order` is entered by an edge from `s` or from an item before it: the
/// order in which a search from `s` can discover nodes.
pub open spec fn discovery_order(g: &Graph, s: i64, order: Seq<i64>) -> bool {
    forall|i: int|
        0 <= i < order.len() ==> g.has_edge(s, #[trigger] order[i]) || exists|j: int|
            0 <= j < i && g.has_edge(order[j], order[i])
}

/// The nodes of the graph together with `s`.
pub open spec fn universe(g: &Graph, s: i64) -> Set<i64> {
    node_ids(g.node_count()).push(s).to_set()
}

/// Reaching within fewer edges is reaching within more.
pub proof fn lemma_within_mono(g: &Graph, s: i64, v: i64, k1: nat, k2: nat)
    requires
        within(g, s, v, k1),
        k1 <= k2,
    ensures
        within(g, s, v, k2),
    decreases k1,
{
    if v != s {
        let u = choose|u: i64| #[trigger] g.has_edge(u, v) && within(g, s, u, (k1 - 1) as nat);
        lemma_within_mono(g, s, u, (k1 - 1) as nat, (k2 - 1) as nat);
        assert(g.has_edge(u, v) && within(g, s, u, (k2 - 1) as nat));
    }
}

/// One more edge extends a path.
pub proof fn lemma_within_step(g: &Graph, s: i64, u: i64, v: i64, k: nat)
    requires
        within(g, s, u, k),
        g.has_edge(u, v),
    ensures
        within(g, s, v, k + 1),
{
    assert(g.has_edge(u, v) && within(g, s, u, ((k + 1) - 1) as nat));
}

/// Every node that `s` reaches over at least one edge is a node of the graph.
pub proof fn lemma_within_is_node(g: &Graph, s: i64, v: i64, k: nat)
    requires
        g.wf(),
        within(g, s, v, k),
        v != s,
    ensures
        g.is_node(v),
{
    g.lemma_wf();
    let u = choose|u: i64| #[trigger] g.has_edge(u, v) && within(g, s, u, (k - 1) as nat);
}

/// The universe is finite and holds at most one more id than the graph has nodes.
pub proof fn lemma_universe(g: &Graph, s: i64)
    requires
        g.wf(),
    ensures
        universe(g, s).finite(),
        universe(g, s).len() <= g.node_count() + 1,
        forall|v: i64| #[trigger] universe(g, s).contains(v) <==> g.is_node(v) || v == s,
{
    let ids = node_ids(g.node_count()).push(s);
    ids.lemma_cardinality_of_set();
    g.lemma_wf();
    assert forall|v: i64| #[trigger] universe(g, s).contains(v) <==> g.is_node(v) || v == s by {
        if g.is_node(v) {
            assert(node_ids(g.node_count())[v - 1] == v);
            assert(ids[v - 1] == v);
        }
        if v == s {
            assert(ids[ids.len() - 1] == v);
        }
        if universe(g, s).contains(v) {
            let i = choose|i: int| 0 <= i < ids.len() && ids[i] == v;
            if i < ids.len() - 1 {
                assert(ids[i] == node_ids(g.node_count())[i]);
            }
        }
    }
}

/// A set of ids inside the universe is finite and no larger than it.
pub proof fn lemma_bounded_set(g: &Graph, s: i64, vis: Set<i64>)
    requires
        g.wf(),
        forall|v: i64| #[trigger] vis.contains(v) ==> g.is_node(v) || v == s,
    ensures
        vis.finite(),
        vis.len() <= g.node_count() + 1,
{
    lemma_universe(g, s);
    assert(vis.subset_of(universe(g, s)));
    vstd::set_lib::lemma_len_subset(vis, universe(g, s));
}

/// A set that holds `s` and is closed under the edges holds everything that `s` reaches.
pub proof fn lemma_closed_holds_reachable(g: &Graph, s: i64, vis: Set<i64>, v: i64, k: nat)
    requires
        vis.contains(s),
        forall|x: i64, y: i64| vis.contains(x) && #[trigger] g.has_edge(x, y) ==> vis.contains(y),
        within(g, s, v, k),
    ensures
        vis.contains(v),
    decreases k,
{
    if v != s {
        let u = choose|u: i64| #[trigger] g.has_edge(u, v) && within(g, s, u, (k - 1) as nat);
        lemma_closed_holds_reachable(g, s, vis, u, (k - 1) as nat);
    }
}

/// An edge into the start of a path extends it at the front.
pub proof fn lemma_within_prepend(g: &Graph, p: i64, x: i64, w: i64, k: nat)
    requires
        within(g, x, w, k),
        g.has_edge(p, x),
    ensures
        within(g, p, w, k + 1),
    decreases k,
{
    if w == x {
        assert(within(g, p, p, 0));
        lemma_within_step(g, p, p, x, 0);
        lemma_within_mono(g, p, w, 1, k + 1);
    } else {
        let u = choose|u: i64| #[trigger] g.has_edge(u, w) && within(g, x, u, (k - 1) as nat);
        lemma_within_prepend(g, p, x, u, (k - 1) as nat);
        lemma_within_step(g, p, u, w, k);
    }
}

/// Reaching is transitive.
pub proof fn lemma_reaches_trans(g: &Graph, a: i64, b: i64, c: i64)
    requires
        reaches(g, a, b),
        reaches(g, b, c),
    ensures
        reaches(g, a, c),
{
    let k1 = choose|k: nat| #[trigger] within(g, a, b, k);
    let k2 = choose|k: nat| #[trigger] within(g, b, c, k);
    lemma_within_concat(g, a, b, c, k1, k2);
}

/// A path from `a` to `b` followed by one from `b` to `c` is a path from `a` to `c`.
proof fn lemma_within_concat(g: &Graph, a: i64, b: i64, c: i64, k1: nat, k2: nat)
    requires
        within(g, a, b, k1),
        within(g, b, c, k2),
    ensures
        within(g, a, c, k1 + k2),
    decreases k2,
{
    if c == b {
        lemma_within_mono(g, a, c, k1, k1 + k2);
    } else {
        let u = choose|u: i64| #[trigger] g.has_edge(u, c) && within(g, b, u, (k2 - 1) as nat);
        lemma_within_concat(g, a, b, u, k1, (k2 - 1) as nat);
        lemma_within_step(g, a, u, c, (k1 + k2 - 1) as nat);
    }
}

/// An edge extends what is reached.
pub proof fn lemma_reaches_step(g: &Graph, a: i64, b: i64, c: i64)
    requires
        reaches(g, a, b),
        g.has_edge(b, c),
    ensures
        reaches(g, a, c),
{
    let k = choose|k: nat| #[trigger] within(g, a, b, k);
    lemma_within_step(g, a, b, c, k);
}

/// An edge in front of a path extends what is reached.
pub proof fn lemma_reaches_prepend(g: &Graph, a: i64, b: i64, c: i64)
    requires
        g.has_edge(a, b),
        reaches(g, b, c),
    ensures
        reaches(g, a, c),
{
    let k = choose|k: nat| #[trigger] within(g, b, c, k);
    lemma_within_prepend(g, a, b, c, k);
}

/// Every node reaches itself.
pub proof fn lemma_reaches_refl(g: &Graph, a: i64)
    ensures
        reaches(g, a, a),
{
    assert(within(g, a, a, 0));
}

/// A shortest distance is at most the length of any path.
pub proof fn lemma_dist_le(g: &Graph, s: i64, v: i64, d: nat, j: nat)
    requires
        dist_is(g, s, v, d),
        within(g, s, v, j),
    ensures
        d <= j,
{
    if j < d {
        lemma_within_mono(g, s, v, j, (d - 1) as nat);
    }
}

/// The shortest distance is unique.
pub proof fn lemma_dist_unique(g: &Graph, s: i64, v: i64, d1: nat, d2: nat)
    requires
        dist_is(g, s, v, d1),
        dist_is(g, s, v, d2),
    ensures
        d1 == d2,
{
    lemma_dist_le(g, s, v, d1, d2);
    lemma_dist_le(g, s, v, d2, d1);
}

/// A set that holds `s`, whose members have known shortest distances, and that holds
/// every successor of each member nearer than `k`, holds everything within `k` of `s`.
pub proof fn lemma_level_closed(
    g: &Graph,
    s: i64,
    k: nat,
    set: Set<i64>,
    depth: Map<i64, nat>,
    x: i64,
    j: nat,
)
    requires
        set.contains(s),
        forall|y: i64| #[trigger]
            set.contains(y) ==> depth.contains_key(y) && dist_is(g, s, y, depth[y]),
        forall|y: i64, z: i64|
            set.contains(y) && depth[y] < k && #[trigger] g.has_edge(y, z) ==> set.contains(z),
        within(g, s, x, j),
        j <= k,
    ensures
        set.contains(x),
    decreases j,
{
    if x != s {
        let u = choose|u: i64| #[trigger] g.has_edge(u, x) && within(g, s, u, (j - 1) as nat);
        lemma_level_closed(g, s, k, set, depth, u, (j - 1) as nat);
        lemma_dist_le(g, s, u, depth[u], (j - 1) as nat);
    }
}

/// `p` is a walk from `s` to `t`: it starts at `s`, ends at `t`, and each node of it is
/// joined to the next by an edge.
pub open spec fn is_path(g: &Graph, p: Seq<i64>, s: i64, t: i64) -> bool {
    &&& p.len() > 0
    &&& p[0] == s
    &&& p[p.len() - 1] == t
    &&& forall|i: int, j: int|
        0 <= i && j == i + 1 && j < p.len() ==> g.has_edge(#[trigger] p[i], #[trigger] p[j])
}

/// A sequence of distinct node ids is no longer than the graph has nodes, and it is
/// exactly that long only when it holds every node.
pub proof fn lemma_distinct_nodes(g: &Graph, s: Seq<i64>)
    requires
        g.wf(),
        s.no_duplicates(),
        forall|x: i64| #[trigger] s.contains(x) ==> g.is_node(x),
    ensures
        s.len() <= g.node_count(),
        s.len() == g.node_count() <==> forall|x: i64| g.is_node(x) ==> #[trigger] s.contains(x),
{
    let ids = node_ids(g.node_count());
    let all = ids.to_set();
    g.lemma_wf();
    assert forall|i: int, j: int| 0 <= i < ids.len() && 0 <= j < ids.len() && i != j implies ids[i]
        != ids[j] by {}
    assert(ids.no_duplicates());
    ids.unique_seq_to_set();
    s.unique_seq_to_set();
    assert forall|x: i64| #[trigger] all.contains(x) <==> g.is_node(x) by {
        if g.is_node(x) {
            assert(ids[x - 1] == x);
        }
        if all.contains(x) {
            let i = choose|i: int| 0 <= i < ids.len() && ids[i] == x;
            assert(ids[i] == i + 1);
        }
    }
    assert(s.to_set().subset_of(all));
    vstd::set_lib::lemma_len_subset(s.to_set(), all);
    if forall|x: i64| g.is_node(x) ==> #[trigger] s.contains(x) {
        assert(all.subset_of(s.to_set()));
        vstd::set_lib::lemma_len_subset(all, s.to_set());
    }
    if s.len() == g.node_count() {
        assert forall|x: i64| g.is_node(x) implies #[trigger] s.contains(x) by {
            if !s.contains(x) {
                assert(s.to_set().subset_of(all.remove(x)));
                vstd::set_lib::lemma_len_subset(s.to_set(), all.remove(x));
            }
        }
    }
}

/// The end of a path is reached from its start.
pub proof fn lemma_path_reaches(g: &Graph, p: Seq<i64>, s: i64, t: i64)
    requires
        is_path(g, p, s, t),
    ensures
        within(g, s, t, (p.len() - 1) as nat),
        reaches(g, s, t),
    decreases p.len(),
{
    if p.len() == 1 {
        assert(within(g, s, t, 0));
    } else {
        let q = p.drop_last();
        assert(q[q.len() - 1] == p[p.len() - 2]);
        assert forall|i: int, j: int| 0 <= i && j == i + 1 && j < q.len() implies g.has_edge(
            #[trigger] q[i],
            #[trigger] q[j],
        ) by {
            assert(q[i] == p[i]);
            assert(q[j] == p[j]);
        }
        lemma_path_reaches(g, q, s, p[p.len() - 2]);
        assert(g.has_edge(p[p.len() - 2], p[p.len() - 1]));
        lemma_within_step(g, s, p[p.len() - 2], t, (q.len() - 1) as nat);
    }
}

/// Every node of a path is reached from its start.
pub proof fn lemma_path_node_reached(g: &Graph, p: Seq<i64>, s: i64, t: i64, i: int)
    requires
        is_path(g, p, s, t),
        0 <= i < p.len(),
    ensures
        reaches(g, s, p[i]),
{
    let q = p.subrange(0, i + 1);
    assert(q[0] == s);
    assert(q[q.len() - 1] == p[i]);
    assert forall|a: int, b: int| 0 <= a && b == a + 1 && b < q.len() implies g.has_edge(
        #[trigger] q[a],
        #[trigger] q[b],
    ) by {
        assert(q[a] == p[a]);
        assert(q[b] == p[b]);
    }
    lemma_path_reaches(g, q, s, p[i]);
}

} // verus!
