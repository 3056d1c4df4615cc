//! Natural loops of a control flow graph: each back edge, an edge to a node that
//! dominates its source, gives a loop whose header is that node; the loop's body holds
//! the nodes that reach the edge's source without passing through the header.
use vstd::prelude::*;

use crate::dominators::{dominators_ok, DominatorResult};
use crate::error::SqliteGraphError;
use crate::graph::{lemma_out_of_len, lemma_source_count_bound, lemma_source_count_split, node_ids, source_count, Graph};
use crate::hashing::{id_set_clone, id_set_contains, id_set_insert, id_set_len, id_set_new, id_set_to_vec, id_set_view, set_map_get, set_map_view};
use crate::progress::{NoProgress, ProgressCallback};
use crate::reach::lemma_bounded_set;
use crate::text::{decimal, usize_text};

verus! {

/// `v` reaches `s` over at most `k` edges by a walk that never meets `h`.
pub open spec fn avoid_within(g: &Graph, s: i64, v: i64, h: i64, k: nat) -> bool
    decreases k,
{
    v != h && (v == s || (k > 0 && exists|u: i64| #[trigger] g.has_edge(v, u) && avoid_within(g, s, u, h, (k - 1) as nat)))
}

/// `v` reaches `s` by a walk that never meets `h`.
pub open spec fn reaches_avoiding(g: &Graph, s: i64, v: i64, h: i64) -> bool {
    exists|k: nat| #[trigger] avoid_within(g, s, v, h, k)
}

/// A walk that avoids `h` extends backwards by an edge out of a node other than `h`.
proof fn lemma_avoid_step(g: &Graph, s: i64, u: i64, v: i64, h: i64)
    requires
        reaches_avoiding(g, s, u, h),
        g.has_edge(v, u),
        v != h,
    ensures
        reaches_avoiding(g, s, v, h),
{
    let k = choose|k: nat| #[trigger] avoid_within(g, s, u, h, k);
    assert(avoid_within(g, s, v, h, k + 1));
}

/// A set that holds `s` and every source, other than `h`, of an edge into its members
/// holds every node that reaches `s` while avoiding `h`.
proof fn lemma_avoid_closed(g: &Graph, s: i64, h: i64, vis: Set<i64>, v: i64, k: nat)
    requires
        vis.contains(s),
        forall|x: i64, y: i64| vis.contains(x) && #[trigger] g.has_edge(y, x) && y != h ==> vis.contains(y),
        avoid_within(g, s, v, h, k),
    ensures
        vis.contains(v),
    decreases k,
{
    if v != s {
        let u = choose|u: i64| #[trigger] g.has_edge(v, u) && avoid_within(g, s, u, h, (k - 1) as nat);
        lemma_avoid_closed(g, s, h, vis, u, (k - 1) as nat);
    }
}

/// The nodes that reach `tail` without passing through `header` (`header` itself left
/// out), found by breadth-first search over incoming edges.
fn compute_loop_body(graph: &Graph, header: i64, tail: i64) -> (body: ahash::AHashSet<i64>)
    requires
        graph.wf(),
        graph.is_node(tail),
    ensures
        forall|v: i64| #[trigger] id_set_view(body).contains(v) <==> reaches_avoiding(graph, tail, v, header),
{
    let mut body = id_set_new();
    let mut visited = id_set_new();
    let mut queue: std::collections::VecDeque<i64> = std::collections::VecDeque::new();
    queue.push_back(tail);
    id_set_insert(&mut visited, tail);
    proof {
        graph.lemma_wf();
        assert(queue@[0] == tail);
        if tail != header {
            assert(avoid_within(graph, tail, tail, header, 0));
        }
    }
    while queue.len() > 0
        invariant
            graph.wf(),
            graph.is_node(tail),
            forall|x: i64| #[trigger] id_set_view(visited).contains(x) ==> graph.is_node(x),
            forall|x: i64| #[trigger] id_set_view(visited).contains(x) ==> x == header || reaches_avoiding(graph, tail, x, header),
            forall|x: i64| #[trigger] queue@.contains(x) ==> id_set_view(visited).contains(x),
            queue@.no_duplicates(),
            forall|x: i64| #[trigger] id_set_view(body).contains(x) <==> id_set_view(visited).contains(x) && x != header && !queue@.contains(x),
            forall|x: i64, y: i64| id_set_view(body).contains(x) && #[trigger] graph.has_edge(y, x) ==> id_set_view(visited).contains(y),
            id_set_view(visited).contains(tail),
        decreases graph.node_count() + 1 - id_set_view(visited).len(), queue@.len(),
    {
        proof {
            lemma_bounded_set(graph, tail, id_set_view(visited));
        }
        let ghost q0 = queue@;
        let node = queue.pop_front().unwrap();
        let ghost q1 = queue@;
        proof {
            assert(q0[0] == node);
            assert(q0.contains(node));
            assert forall|x: i64| #[trigger] q1.contains(x) <==> q0.contains(x) && x != node by {
                if q1.contains(x) {
                    let i = choose|i: int| 0 <= i < q1.len() && q1[i] == x;
                    assert(q0[i + 1] == x);
                    assert(q0[0] != q0[i + 1]);
                }
                if q0.contains(x) && x != node {
                    let i = choose|i: int| 0 <= i < q0.len() && q0[i] == x;
                    assert(i != 0);
                    assert(q1[i - 1] == x);
                }
            }
        }
        if node == header {
            proof {
                assert forall|x: i64| #[trigger] id_set_view(body).contains(x) <==> id_set_view(visited).contains(x) && x != header && !queue@.contains(x) by {}
            }
        } else {
            id_set_insert(&mut body, node);
            let row = graph.fetch_incoming(node).unwrap();
            let ghost vis_start = id_set_view(visited);
            let ghost qlen_start = queue@.len();
            let mut j: usize = 0;
            while j < row.len()
                invariant
                    graph.wf(),
                    graph.is_node(tail),
                    row@ == graph.preds(node),
                    j <= row@.len(),
                    node != header,
                    reaches_avoiding(graph, tail, node, header),
                    id_set_view(visited).contains(node),
                    !queue@.contains(node),
                    forall|x: i64| #[trigger] id_set_view(visited).contains(x) ==> graph.is_node(x),
                    forall|x: i64| #[trigger] id_set_view(visited).contains(x) ==> x == header || reaches_avoiding(graph, tail, x, header),
                    forall|x: i64| #[trigger] queue@.contains(x) ==> id_set_view(visited).contains(x),
                    queue@.no_duplicates(),
                    forall|x: i64| #[trigger] id_set_view(body).contains(x) <==> id_set_view(visited).contains(x) && x != header && !queue@.contains(x),
                    forall|x: i64, y: i64| id_set_view(body).contains(x) && x != node && #[trigger] graph.has_edge(y, x) ==> id_set_view(visited).contains(y),
                    forall|y: i64| #[trigger] row@.take(j as int).contains(y) ==> id_set_view(visited).contains(y),
                    id_set_view(visited).contains(tail),
                    vis_start.subset_of(id_set_view(visited)),
                    id_set_view(visited).len() + qlen_start == vis_start.len() + queue@.len(),
                    id_set_view(visited).finite(),
                decreases row.len() - j,
            {
                let succ = row[j];
                let ghost qb = queue@;
                let ghost vb = id_set_view(visited);
                proof {
                    graph.lemma_wf();
                    assert(graph.preds(node).contains(succ));
                    assert(graph.succs(succ).contains(node));
                    assert(graph.is_node(succ));
                    let t1 = row@.take(j + 1);
                    let t0 = row@.take(j as int);
                    assert(t1 =~= t0.push(succ));
                    assert forall|y: i64| #[trigger] t1.contains(y) <==> t0.contains(y) || y == succ by {
                        if t1.contains(y) {
                            let i = choose|i: int| 0 <= i < t1.len() && t1[i] == y;
                            if i < t0.len() {
                                assert(t0[i] == y);
                            }
                        }
                        if t0.contains(y) {
                            let i = choose|i: int| 0 <= i < t0.len() && t0[i] == y;
                            assert(t1[i] == y);
                        }
                        if y == succ {
                            assert(t1[j as int] == y);
                        }
                    }
                }
                if !id_set_contains(&visited, succ) {
                    id_set_insert(&mut visited, succ);
                    queue.push_back(succ);
                    proof {
                        if succ != header {
                            lemma_avoid_step(graph, tail, node, succ, header);
                        }
                        assert forall|x: i64| #[trigger] queue@.contains(x) <==> qb.contains(x) || x == succ by {
                            if queue@.contains(x) {
                                let i = choose|i: int| 0 <= i < queue@.len() && queue@[i] == x;
                                if i < qb.len() {
                                    assert(qb[i] == x);
                                }
                            }
                            if qb.contains(x) {
                                let i = choose|i: int| 0 <= i < qb.len() && qb[i] == x;
                                assert(queue@[i] == x);
                            }
                            if x == succ {
                                assert(queue@[qb.len() as int] == x);
                            }
                        }
                        assert forall|a: int, b: int| 0 <= a < b < queue@.len() implies queue@[a] != queue@[b] by {
                            if b == queue@.len() - 1 {
                                assert(qb.contains(qb[a]));
                            }
                        }
                        lemma_bounded_set(graph, tail, vb);
                    }
                }
                j = j + 1;
            }
            proof {
                assert(row@.take(row@.len() as int) =~= row@);
                assert forall|x: i64, y: i64| id_set_view(body).contains(x) && #[trigger] graph.has_edge(y, x) implies id_set_view(visited).contains(y) by {
                    if x == node {
                        graph.lemma_wf();
                        assert(graph.preds(node).contains(y));
                        assert(row@.contains(y));
                    }
                }
                lemma_bounded_set(graph, tail, id_set_view(visited));
                vstd::set_lib::lemma_len_subset(vis_start, id_set_view(visited));
                assert(qlen_start == q0.len() - 1);
                assert(id_set_view(visited).len() > vis_start.len() || (id_set_view(visited).len() == vis_start.len()
                    && queue@.len() < q0.len()));
            }
        }
    }
    proof {
        assert forall|v: i64| #[trigger] id_set_view(body).contains(v) <==> reaches_avoiding(graph, tail, v, header) by {
            if reaches_avoiding(graph, tail, v, header) {
                let k = choose|k: nat| #[trigger] avoid_within(graph, tail, v, header, k);
                assert(avoid_within(graph, tail, tail, header, 0) || tail == header);
                if tail != header {
                    assert(id_set_view(body).contains(tail));
                    lemma_avoid_closed(graph, tail, header, id_set_view(body), v, k);
                } else {
                    lemma_avoid_from_header(graph, tail, v, header, k);
                }
            }
            if id_set_view(body).contains(v) {
                assert(v != header);
            }
        }
    }
    body
}

/// Nothing reaches `h` while avoiding `h`.
proof fn lemma_avoid_from_header(g: &Graph, s: i64, v: i64, h: i64, k: nat)
    requires
        s == h,
    ensures
        !avoid_within(g, s, v, h, k),
    decreases k,
{
    if k > 0 && v != h && v != s {
        assert forall|u: i64| #[trigger] g.has_edge(v, u) implies !avoid_within(g, s, u, h, (k - 1) as nat) by {
            lemma_avoid_from_header(g, s, u, h, (k - 1) as nat);
        }
    }
}

/// A loop: its header, its back edges, and its body (the header left out).
#[derive(Debug)]
pub struct NaturalLoop {
    /// The loop's header, which its back edges enter.
    pub header: i64,
    /// The back edges `(tail, header)`, in the order in which they were found.
    pub back_edges: Vec<(i64, i64)>,
    /// The nodes of the loop other than the header.
    pub body: ahash::AHashSet<i64>,
}

/// A map from loop headers to loops.
pub type LoopMap = ahash::AHashMap<i64, NaturalLoop>;

/// The loops that an `AHashMap<i64, NaturalLoop>` holds, by header.
pub uninterp spec fn loop_map_view(m: LoopMap) -> Map<i64, NaturalLoop>;

/// `AHashMap::new`: an empty map.
#[verifier::external_body]
fn loop_map_new() -> (m: LoopMap)
    ensures
        loop_map_view(m).dom() == Set::<i64>::empty(),
{
    ahash::AHashMap::new()
}

/// `AHashMap::insert`: maps `k` to `v`; the previous loop is dropped.
#[verifier::external_body]
fn loop_map_insert(m: &mut LoopMap, k: i64, v: NaturalLoop)
    ensures
        loop_map_view(*final(m)) == loop_map_view(*old(m)).insert(k, v),
{
    m.insert(k, v);
}

/// `AHashMap::remove`: takes the loop under `k` out, if any.
#[verifier::external_body]
fn loop_map_remove(m: &mut LoopMap, k: i64) -> (r: Option<NaturalLoop>)
    ensures
        loop_map_view(*final(m)) == loop_map_view(*old(m)).remove(k),
        r == (if loop_map_view(*old(m)).contains_key(k) {
            Some(loop_map_view(*old(m))[k])
        } else {
            None
        }),
{
    m.remove(&k)
}

/// `HashMap::get` through `Deref`: the loop under `k`, if any.
#[verifier::external_body]
fn loop_map_get(m: &LoopMap, k: i64) -> (r: Option<&NaturalLoop>)
    ensures
        r == (if loop_map_view(*m).contains_key(k) {
            Some(&loop_map_view(*m)[k])
        } else {
            None
        }),
{
    m.get(&k)
}

/// `HashMap::keys` through `Deref`, each key copied into a vector: every key once, in
/// the map's own order, which is left open.
#[verifier::external_body]
fn loop_map_keys(m: &LoopMap) -> (v: Vec<i64>)
    ensures
        v@.no_duplicates(),
        v@.to_set() == loop_map_view(*m).dom(),
{
    m.keys().copied().collect()
}

/// `HashMap::len` through `Deref`: the number of loops.
#[verifier::external_body]
fn loop_map_len(m: &LoopMap) -> (n: usize)
    ensures
        n == loop_map_view(*m).dom().len(),
{
    m.len()
}

/// `(u, h)` is a back edge under the dominator sets `dm`: an edge from `u` to another
/// node `h` that lies in the dominator set of `u`.
pub open spec fn is_back_edge(g: &Graph, dm: Map<i64, ahash::AHashSet<i64>>, u: i64, h: i64) -> bool {
    &&& g.has_edge(u, h)
    &&& u != h
    &&& dm.contains_key(u)
    &&& id_set_view(dm[u]).contains(h)
}

/// The back edges from `u` into `h` among the edges to `targets`, one per edge.
pub open spec fn back_row(dm: Map<i64, ahash::AHashSet<i64>>, u: i64, h: i64, targets: Seq<i64>) -> Seq<(i64, i64)>
    decreases targets.len(),
{
    if targets.len() == 0 {
        Seq::empty()
    } else {
        back_row(dm, u, h, targets.drop_last()) + if targets.last() == h && u != h && dm.contains_key(u) && id_set_view(
            dm[u],
        ).contains(h) {
            seq![(u, h)]
        } else {
            Seq::empty()
        }
    }
}

/// The back edges into `h` from the nodes `1..=n`, node by node and, for each node, in
/// the order of its edges.
pub open spec fn back_list(g: &Graph, dm: Map<i64, ahash::AHashSet<i64>>, h: i64, n: nat) -> Seq<(i64, i64)>
    decreases n,
{
    if n == 0 {
        Seq::empty()
    } else {
        back_list(g, dm, h, (n - 1) as nat) + back_row(dm, n as i64, h, g.succs(n as i64))
    }
}

/// The body of the loop of `h`: the nodes that reach the source of some back edge into
/// `h` without passing through `h`.
pub open spec fn loop_body(g: &Graph, dm: Map<i64, ahash::AHashSet<i64>>, h: i64) -> Set<i64> {
    Set::new(|v: i64| exists|u: i64| #[trigger] is_back_edge(g, dm, u, h) && reaches_avoiding(g, u, v, h))
}

/// The loops found from the dominator sets `dm`: one per node that a back edge enters,
/// with that header, its back edges in order, and its body.
pub open spec fn loops_ok(g: &Graph, dm: Map<i64, ahash::AHashSet<i64>>, lm: Map<i64, NaturalLoop>) -> bool {
    &&& forall|h: i64| #[trigger] lm.contains_key(h) <==> exists|u: i64| #[trigger] is_back_edge(g, dm, u, h)
    &&& forall|h: i64|
        #[trigger] lm.contains_key(h) ==> {
            &&& lm[h].header == h
            &&& lm[h].back_edges@ == back_list(g, dm, h, g.node_count())
            &&& id_set_view(lm[h].body) == loop_body(g, dm, h)
        }
}

/// The loop search has one outcome: two loop maps that both meet `loops_ok` for the same
/// graph and dominator sets have the same headers, back edges and bodies. So
/// `natural_loops` and `natural_loops_with_progress` find the same loops.
pub proof fn lemma_loops_unique(
    g: &Graph,
    dm: Map<i64, ahash::AHashSet<i64>>,
    a: Map<i64, NaturalLoop>,
    b: Map<i64, NaturalLoop>,
)
    requires
        loops_ok(g, dm, a),
        loops_ok(g, dm, b),
    ensures
        a.dom() == b.dom(),
        forall|h: i64|
            #[trigger] a.contains_key(h) ==> a[h].header == b[h].header && a[h].back_edges@ == b[h].back_edges@
                && id_set_view(a[h].body) == id_set_view(b[h].body),
{
    assert(a.dom() =~= b.dom());
}

/// The result of the loop search: the loops by header.
#[derive(Debug)]
pub struct NaturalLoopsResult {
    /// The loops, by header.
    pub loops: LoopMap,
}


/// The back edges into `h` found once the nodes before `u` and the targets `prefix`
/// of `u` have been looked at.
pub open spec fn found_edges(g: &Graph, dm: Map<i64, ahash::AHashSet<i64>>, h: i64, u: nat, prefix: Seq<i64>) -> Seq<
    (i64, i64),
> {
    back_list(g, dm, h, (u - 1) as nat) + back_row(dm, u as i64, h, prefix)
}

/// The nodes that reach, without passing through `h`, the source of some edge of `es`
/// into `h`.
pub open spec fn body_of(g: &Graph, h: i64, es: Seq<(i64, i64)>) -> Set<i64> {
    Set::new(|v: i64| exists|u: i64| #[trigger] es.contains((u, h)) && reaches_avoiding(g, u, v, h))
}

/// The loops found so far: one per header with a back edge found, holding those edges
/// in order and the union of their bodies.
pub open spec fn loops_so_far(
    g: &Graph,
    dm: Map<i64, ahash::AHashSet<i64>>,
    lm: Map<i64, NaturalLoop>,
    u: nat,
    prefix: Seq<i64>,
) -> bool {
    &&& forall|h: i64| #[trigger] lm.contains_key(h) <==> found_edges(g, dm, h, u, prefix).len() > 0
    &&& forall|h: i64|
        #[trigger] lm.contains_key(h) ==> {
            &&& lm[h].header == h
            &&& lm[h].back_edges@ == found_edges(g, dm, h, u, prefix)
            &&& id_set_view(lm[h].body) == body_of(g, h, found_edges(g, dm, h, u, prefix))
        }
}

/// What `back_row` holds: the pair `(u, h)` once per edge to `h`, when that is a back
/// edge, and nothing else.
proof fn lemma_back_row_contains(dm: Map<i64, ahash::AHashSet<i64>>, u: i64, h: i64, targets: Seq<i64>, x: (i64, i64))
    ensures
        back_row(dm, u, h, targets).contains(x) <==> (x == (u, h) && targets.contains(h) && u != h && dm.contains_key(u)
            && id_set_view(dm[u]).contains(h)),
    decreases targets.len(),
{
    if targets.len() > 0 {
        let pre = targets.drop_last();
        lemma_back_row_contains(dm, u, h, pre, x);
        let a = back_row(dm, u, h, pre);
        let b = if targets.last() == h && u != h && dm.contains_key(u) && id_set_view(dm[u]).contains(h) {
            seq![(u, h)]
        } else {
            Seq::empty()
        };
        assert(back_row(dm, u, h, targets) == a + b);
        assert((a + b).contains(x) <==> a.contains(x) || b.contains(x)) by {
            if (a + b).contains(x) {
                let i = choose|i: int| 0 <= i < (a + b).len() && (a + b)[i] == x;
                if i < a.len() {
                    assert(a[i] == x);
                } else {
                    assert(b[i - a.len()] == x);
                }
            }
            if a.contains(x) {
                let i = choose|i: int| 0 <= i < a.len() && a[i] == x;
                assert((a + b)[i] == x);
            }
            if b.contains(x) {
                let i = choose|i: int| 0 <= i < b.len() && b[i] == x;
                assert((a + b)[a.len() + i] == x);
            }
        }
        assert(targets.contains(h) <==> pre.contains(h) || targets.last() == h) by {
            if targets.contains(h) {
                let i = choose|i: int| 0 <= i < targets.len() && targets[i] == h;
                if i < pre.len() {
                    assert(pre[i] == h);
                }
            }
            if pre.contains(h) {
                let i = choose|i: int| 0 <= i < pre.len() && pre[i] == h;
                assert(targets[i] == h);
            }
            if targets.last() == h {
                assert(targets[targets.len() - 1] == h);
            }
        }
        if b.contains(x) {
            assert(b.len() == 1);
            assert(b[0] == x);
        }
        if x == (u, h) && targets.last() == h && u != h && dm.contains_key(u) && id_set_view(dm[u]).contains(h) {
            assert(b[0] == x);
            assert(b.contains(x));
        }
    } else {
        assert(!targets.contains(h));
        assert(back_row(dm, u, h, targets) =~= Seq::<(i64, i64)>::empty());
    }
}

/// What `back_list` holds: each back edge into `h` from the nodes `1..=n`, and nothing
/// else.
proof fn lemma_back_list_contains(g: &Graph, dm: Map<i64, ahash::AHashSet<i64>>, h: i64, n: nat, x: (i64, i64))
    requires
        n < i64::MAX,
    ensures
        back_list(g, dm, h, n).contains(x) <==> (x.1 == h && 1 <= x.0 <= n && is_back_edge(g, dm, x.0, h)),
    decreases n,
{
    if n > 0 {
        lemma_back_list_contains(g, dm, h, (n - 1) as nat, x);
        let a = back_list(g, dm, h, (n - 1) as nat);
        let b = back_row(dm, n as i64, h, g.succs(n as i64));
        lemma_back_row_contains(dm, n as i64, h, g.succs(n as i64), x);
        assert((a + b).contains(x) <==> a.contains(x) || b.contains(x)) by {
            if (a + b).contains(x) {
                let i = choose|i: int| 0 <= i < (a + b).len() && (a + b)[i] == x;
                if i < a.len() {
                    assert(a[i] == x);
                } else {
                    assert(b[i - a.len()] == x);
                }
            }
            if a.contains(x) {
                let i = choose|i: int| 0 <= i < a.len() && a[i] == x;
                assert((a + b)[i] == x);
            }
            if b.contains(x) {
                let i = choose|i: int| 0 <= i < b.len() && b[i] == x;
                assert((a + b)[a.len() + i] == x);
            }
        }
    }
}

/// Nothing is found before the first node.
proof fn lemma_loops_start(g: &Graph, dm: Map<i64, ahash::AHashSet<i64>>)
    ensures
        loops_so_far(g, dm, Map::<i64, NaturalLoop>::empty(), 1, Seq::empty()),
{
    assert forall|h: i64| found_edges(g, dm, h, 1, Seq::empty()).len() == 0 by {
        assert(found_edges(g, dm, h, 1, Seq::empty()) =~= Seq::<(i64, i64)>::empty());
    }
}

/// Looking at one more target `t` of `u` appends `(u, t)` to the edges found for `t`
/// when that is a back edge, and nothing otherwise.
proof fn lemma_found_step(g: &Graph, dm: Map<i64, ahash::AHashSet<i64>>, h: i64, u: nat, prefix: Seq<i64>, t: i64)
    ensures
        found_edges(g, dm, h, u, prefix.push(t)) == (if t == h && u as i64 != h && dm.contains_key(u as i64)
            && id_set_view(dm[u as i64]).contains(h) {
            found_edges(g, dm, h, u, prefix).push((u as i64, h))
        } else {
            found_edges(g, dm, h, u, prefix)
        }),
{
    let p2 = prefix.push(t);
    assert(p2.drop_last() =~= prefix);
    assert(p2.last() == t);
    let a = back_list(g, dm, h, (u - 1) as nat);
    let b = back_row(dm, u as i64, h, prefix);
    if t == h && u as i64 != h && dm.contains_key(u as i64) && id_set_view(dm[u as i64]).contains(h) {
        assert(back_row(dm, u as i64, h, p2) == b + seq![(u as i64, h)]);
        assert(a + (b + seq![(u as i64, h)]) =~= (a + b).push((u as i64, h)));
    } else {
        assert(back_row(dm, u as i64, h, p2) == b + Seq::<(i64, i64)>::empty());
        assert(b + Seq::<(i64, i64)>::empty() =~= b);
    }
}

/// Once every target of `u` has been looked at, the search moves on to `u + 1`.
proof fn lemma_found_next(g: &Graph, dm: Map<i64, ahash::AHashSet<i64>>, h: i64, u: nat)
    requires
        u >= 1,
    ensures
        found_edges(g, dm, h, u + 1, Seq::empty()) == found_edges(g, dm, h, u, g.succs(u as i64)),
{
    assert(back_row(dm, (u + 1) as i64, h, Seq::empty()) == Seq::<(i64, i64)>::empty());
    assert(back_list(g, dm, h, u) == back_list(g, dm, h, (u - 1) as nat) + back_row(dm, u as i64, h, g.succs(u as i64)));
    assert(found_edges(g, dm, h, u + 1, Seq::empty()) =~= back_list(g, dm, h, u));
}

/// The bodies after appending `(u, h)`: the earlier bodies and what reaches `u`.
proof fn lemma_body_push(g: &Graph, h: i64, es: Seq<(i64, i64)>, u: i64)
    ensures
        body_of(g, h, es.push((u, h))) == body_of(g, h, es).union(Set::new(|v: i64| reaches_avoiding(g, u, v, h))),
{
    let e2 = es.push((u, h));
    assert forall|w: i64, x: i64| #[trigger] e2.contains((w, x)) <==> es.contains((w, x)) || (w, x) == (u, h) by {
        if e2.contains((w, x)) {
            let i = choose|i: int| 0 <= i < e2.len() && e2[i] == (w, x);
            if i < es.len() {
                assert(es[i] == (w, x));
            }
        }
        if es.contains((w, x)) {
            let i = choose|i: int| 0 <= i < es.len() && es[i] == (w, x);
            assert(e2[i] == (w, x));
        }
        if (w, x) == (u, h) {
            assert(e2[es.len() as int] == (w, x));
        }
    }
    assert forall|v: i64| #[trigger] body_of(g, h, e2).contains(v) <==> body_of(g, h, es).contains(v) || reaches_avoiding(
        g,
        u,
        v,
        h,
    ) by {
        if body_of(g, h, e2).contains(v) {
            let w = choose|w: i64| #[trigger] e2.contains((w, h)) && reaches_avoiding(g, w, v, h);
            assert(e2.contains((w, h)));
            if es.contains((w, h)) {
                assert(body_of(g, h, es).contains(v));
            }
        }
        if body_of(g, h, es).contains(v) {
            let w = choose|w: i64| #[trigger] es.contains((w, h)) && reaches_avoiding(g, w, v, h);
            assert(e2.contains((w, h)));
        }
        if reaches_avoiding(g, u, v, h) {
            assert(e2.contains((u, h)));
        }
    }
    assert(body_of(g, h, e2) =~= body_of(g, h, es).union(Set::new(|v: i64| reaches_avoiding(g, u, v, h))));
}

/// When every node has been looked at, the loops found are those that `loops_ok` names.
proof fn lemma_loops_done(g: &Graph, dm: Map<i64, ahash::AHashSet<i64>>, lm: Map<i64, NaturalLoop>)
    requires
        g.wf(),
        loops_so_far(g, dm, lm, g.node_count() + 1, Seq::empty()),
    ensures
        loops_ok(g, dm, lm),
{
    g.lemma_wf();
    let n = g.node_count();
    assert forall|h: i64| found_edges(g, dm, h, n + 1, Seq::empty()) == back_list(g, dm, h, n) by {
        assert(back_row(dm, (n + 1) as i64, h, Seq::empty()) == Seq::<(i64, i64)>::empty());
        assert(found_edges(g, dm, h, n + 1, Seq::empty()) =~= back_list(g, dm, h, n));
    }
    assert forall|h: i64| #[trigger] lm.contains_key(h) <==> exists|u: i64| #[trigger] is_back_edge(g, dm, u, h) by {
        let es = back_list(g, dm, h, n);
        if lm.contains_key(h) {
            assert(es.len() > 0);
            let x = es[0];
            assert(es.contains(x));
            lemma_back_list_contains(g, dm, h, n, x);
            assert(is_back_edge(g, dm, x.0, h));
        }
        if exists|u: i64| #[trigger] is_back_edge(g, dm, u, h) {
            let u = choose|u: i64| #[trigger] is_back_edge(g, dm, u, h);
            assert(g.succs(u).contains(h));
            lemma_back_list_contains(g, dm, h, n, (u, h));
            assert(es.contains((u, h)));
        }
    }
    assert forall|h: i64| #[trigger] lm.contains_key(h) implies id_set_view(lm[h].body) == loop_body(g, dm, h) by {
        let es = back_list(g, dm, h, n);
        assert forall|v: i64| #[trigger] body_of(g, h, es).contains(v) <==> loop_body(g, dm, h).contains(v) by {
            if body_of(g, h, es).contains(v) {
                let w = choose|w: i64| #[trigger] es.contains((w, h)) && reaches_avoiding(g, w, v, h);
                lemma_back_list_contains(g, dm, h, n, (w, h));
                assert(is_back_edge(g, dm, w, h));
            }
            if loop_body(g, dm, h).contains(v) {
                let w = choose|w: i64| #[trigger] is_back_edge(g, dm, w, h) && reaches_avoiding(g, w, v, h);
                assert(g.succs(w).contains(h));
                lemma_back_list_contains(g, dm, h, n, (w, h));
                assert(es.contains((w, h)));
            }
        }
        assert(body_of(g, h, es) =~= loop_body(g, dm, h));
    }
}

/// Adds every id of `other` to `s`.
fn id_set_extend(s: &mut ahash::AHashSet<i64>, other: &ahash::AHashSet<i64>)
    ensures
        id_set_view(*final(s)) == id_set_view(*old(s)).union(id_set_view(*other)),
{
    let items = id_set_to_vec(other);
    let ghost start = id_set_view(*s);
    let mut i: usize = 0;
    while i < items.len()
        invariant
            i <= items@.len(),
            id_set_view(*s) == start.union(items@.take(i as int).to_set()),
        decreases items.len() - i,
    {
        let x = items[i];
        id_set_insert(s, x);
        proof {
            assert(items@.take(i + 1) =~= items@.take(i as int).push(x));
            assert(items@.take(i as int).push(x).to_set() =~= items@.take(i as int).to_set().insert(x)) by {
                vstd::seq_lib::lemma_seq_contains_after_push(items@.take(i as int), x, x);
                assert forall|y: i64| #[trigger] items@.take(i as int).push(x).contains(y) <==> items@.take(i as int).contains(y) || y == x by {
                    let t0 = items@.take(i as int);
                    let t1 = t0.push(x);
                    if t1.contains(y) {
                        let k = choose|k: int| 0 <= k < t1.len() && t1[k] == y;
                        if k < t0.len() {
                            assert(t0[k] == y);
                        }
                    }
                    if t0.contains(y) {
                        let k = choose|k: int| 0 <= k < t0.len() && t0[k] == y;
                        assert(t1[k] == y);
                    }
                    if y == x {
                        assert(t1[t0.len() as int] == y);
                    }
                }
            }
            assert(start.union(items@.take(i as int).to_set()).insert(x) =~= start.union(items@.take(i + 1).to_set()));
        }
        i = i + 1;
    }
    proof {
        assert(items@.take(items@.len() as int) =~= items@);
    }
}

/// The progress message after `checked` of `total` edges.
fn loop_message(checked: usize, total: usize) -> (s: String)
    ensures
        s@ == "Finding natural loops: "@ + decimal(checked as int) + "/"@ + decimal(total as int) + " edges checked"@,
{
    let mut msg = String::from_str("Finding natural loops: ");
    msg.append(usize_text(checked).as_str());
    msg.append("/");
    msg.append(usize_text(total).as_str());
    msg.append(" edges checked");
    msg
}

/// The natural loops of `graph` under the dominator sets of `dom_result`, as
/// `natural_loops` finds them, reporting the edges checked: once before the first edge,
/// then after every hundredth edge and after the last (an edge that is a back edge onto
/// its own source is counted without a report). An empty graph gives no loops and no
/// report.
pub fn natural_loops_with_progress<F: ProgressCallback>(graph: &Graph, dom_result: &DominatorResult, progress: &F) -> (r:
    Result<NaturalLoopsResult, SqliteGraphError>)
    requires
        graph.wf(),
    ensures
        r matches Ok(res) && loops_ok(graph, set_map_view(dom_result.dom), loop_map_view(res.loops)),
{
    let ghost dm = set_map_view(dom_result.dom);
    let all_nodes = graph.all_entity_ids()?;
    proof {
        graph.lemma_wf();
    }
    let n = all_nodes.len();
    if n == 0 {
        let loops = loop_map_new();
        proof {
            assert forall|u: i64, h: i64| !#[trigger] is_back_edge(graph, dm, u, h) by {
                if is_back_edge(graph, dm, u, h) {
                    assert(graph.succs(u).contains(h));
                }
            }
            assert(loop_map_view(loops).dom() =~= Set::<i64>::empty());
        }
        return Ok(NaturalLoopsResult { loops });
    }
    let ghost edges = graph.edge_list();
    proof {
        lemma_source_count_split(edges, 1, 1, 1);
    }
    let mut total_edges: usize = 0;
    let mut i: usize = 0;
    while i < n
        invariant
            graph.wf(),
            edges == graph.edge_list(),
            all_nodes@ == node_ids(graph.node_count()),
            n == all_nodes@.len(),
            i <= n,
            total_edges == source_count(edges, 1, i + 1),
        decreases n - i,
    {
        let row = graph.fetch_outgoing(all_nodes[i]).unwrap();
        proof {
            graph.lemma_wf();
            lemma_out_of_len(edges, (i + 1) as i64);
            lemma_source_count_split(edges, 1, i + 1, i + 2);
            lemma_source_count_bound(edges, 1, i + 2);
        }
        total_edges = total_edges + row.len();
        i = i + 1;
    }
    progress.on_progress(0, Some(total_edges), loop_message(0, total_edges).as_str());
    let mut loops = loop_map_new();
    let mut edges_checked: usize = 0;
    proof {
        lemma_loops_start(graph, dm);
        assert(loop_map_view(loops) =~= Map::<i64, NaturalLoop>::empty());
    }
    let mut i: usize = 0;
    while i < n
        invariant
            graph.wf(),
            dm == set_map_view(dom_result.dom),
            edges == graph.edge_list(),
            all_nodes@ == node_ids(graph.node_count()),
            n == all_nodes@.len(),
            i <= n,
            total_edges == source_count(edges, 1, n + 1),
            edges_checked == source_count(edges, 1, i + 1),
            loops_so_far(graph, dm, loop_map_view(loops), (i + 1) as nat, Seq::empty()),
        decreases n - i,
    {
        let node = all_nodes[i];
        let row = graph.fetch_outgoing(node).unwrap();
        proof {
            graph.lemma_wf();
            lemma_out_of_len(edges, node);
            lemma_source_count_split(edges, 1, i + 1, i + 2);
            lemma_source_count_split(edges, 1, i + 2, n + 1);
            assert(row@.take(0) =~= Seq::<i64>::empty());
        }
        let mut j: usize = 0;
        while j < row.len()
            invariant
                graph.wf(),
                dm == set_map_view(dom_result.dom),
                node == i + 1,
                i < n,
                n == graph.node_count(),
                row@ == graph.succs(node),
                j <= row@.len(),
                edges_checked == source_count(edges, 1, i + 1) + j,
                source_count(edges, 1, i + 1) + row@.len() <= total_edges,
                total_edges <= usize::MAX,
                loops_so_far(graph, dm, loop_map_view(loops), (i + 1) as nat, row@.take(j as int)),
            decreases row.len() - j,
        {
            let target = row[j];
            proof {
                assert(row@.take(j + 1) =~= row@.take(j as int).push(target));
                assert forall|h: i64| #![trigger found_edges(graph, dm, h, (i + 1) as nat, row@.take(j + 1))]
                    found_edges(graph, dm, h, (i + 1) as nat, row@.take(j + 1)) == (if target == h && node != h
                    && dm.contains_key(node) && id_set_view(dm[node]).contains(h) {
                    found_edges(graph, dm, h, (i + 1) as nat, row@.take(j as int)).push((node, h))
                } else {
                    found_edges(graph, dm, h, (i + 1) as nat, row@.take(j as int))
                }) by {
                    lemma_found_step(graph, dm, h, (i + 1) as nat, row@.take(j as int), target);
                }
            }
            if dom_result.dominates(target, node) {
                if node == target {
                    edges_checked = edges_checked + 1;
                    j = j + 1;
                    continue;
                }
                let ghost lm0 = loop_map_view(loops);
                let existing = loop_map_remove(&mut loops, target);
                let mut lp = match existing {
                    Some(l) => l,
                    None => NaturalLoop { header: target, back_edges: Vec::new(), body: id_set_new() },
                };
                proof {
                    if !lm0.contains_key(target) {
                        assert(found_edges(graph, dm, target, (i + 1) as nat, row@.take(j as int)) =~= Seq::<(i64, i64)>::empty());
                        assert(body_of(graph, target, Seq::<(i64, i64)>::empty()) =~= Set::<i64>::empty());
                    }
                }
                let ghost es0 = found_edges(graph, dm, target, (i + 1) as nat, row@.take(j as int));
                lp.back_edges.push((node, target));
                let body = compute_loop_body(graph, target, node);
                id_set_extend(&mut lp.body, &body);
                proof {
                    lemma_body_push(graph, target, es0, node);
                    assert(id_set_view(body) =~= Set::new(|v: i64| reaches_avoiding(graph, node, v, target)));
                }
                loop_map_insert(&mut loops, target, lp);
            }
            edges_checked = edges_checked + 1;
            if edges_checked % 100 == 0 || edges_checked == total_edges {
                progress.on_progress(edges_checked, Some(total_edges), loop_message(edges_checked, total_edges).as_str());
            }
            j = j + 1;
        }
        proof {
            assert(row@.take(row@.len() as int) =~= row@);
            assert forall|h: i64| #![trigger found_edges(graph, dm, h, (i + 2) as nat, Seq::empty())]
                found_edges(graph, dm, h, (i + 2) as nat, Seq::empty()) == found_edges(graph, dm, h, (i + 1) as nat, row@) by {
                lemma_found_next(graph, dm, h, (i + 1) as nat);
            }
        }
        i = i + 1;
    }
    progress.on_complete();
    proof {
        lemma_loops_done(graph, dm, loop_map_view(loops));
    }
    Ok(NaturalLoopsResult { loops })
}

/// The natural loops of `graph` under the dominator sets of `dom_result`: every edge
/// `(u, h)` with `h` in the dominator set of `u` and `h != u` is a back edge; the back
/// edges into one header make one loop, whose body is every node that reaches the
/// source of one of them without passing through the header.
pub fn natural_loops(graph: &Graph, dom_result: &DominatorResult) -> (r: Result<NaturalLoopsResult, SqliteGraphError>)
    requires
        graph.wf(),
    ensures
        r matches Ok(res) && loops_ok(graph, set_map_view(dom_result.dom), loop_map_view(res.loops)),
{
    natural_loops_with_progress(graph, dom_result, &NoProgress)
}

/// The nodes `1..=k` that no edge enters, in increasing order.
pub open spec fn entry_list(g: &Graph, k: nat) -> Seq<i64>
    decreases k,
{
    if k == 0 {
        Seq::empty()
    } else if g.preds(k as i64).len() == 0 {
        entry_list(g, (k - 1) as nat).push(k as i64)
    } else {
        entry_list(g, (k - 1) as nat)
    }
}

/// The entries of `entry_list` are nodes without incoming edges.
proof fn lemma_entry_list(g: &Graph, k: nat)
    requires
        g.wf(),
        k <= g.node_count(),
    ensures
        forall|i: int| 0 <= i < entry_list(g, k).len() ==> g.is_node(#[trigger] entry_list(g, k)[i]) && g.preds(
            entry_list(g, k)[i],
        ).len() == 0,
    decreases k,
{
    if k > 0 {
        g.lemma_wf();
        lemma_entry_list(g, (k - 1) as nat);
        let pre = entry_list(g, (k - 1) as nat);
        assert forall|i: int| 0 <= i < entry_list(g, k).len() implies g.is_node(#[trigger] entry_list(g, k)[i]) && g.preds(
            entry_list(g, k)[i],
        ).len() == 0 by {
            if i < pre.len() {
                assert(entry_list(g, k)[i] == pre[i]);
            }
        }
    }
}

/// The natural loops of `graph` from its one entry node, the node that no edge enters:
/// no loops for an empty graph; a `Query` error when no node or more than one node has
/// no incoming edge; otherwise the loops under the dominators from that entry (and a
/// `Query` error when those cannot be computed, which a graph of at most 1000 nodes
/// never meets).
pub fn natural_loops_from_exit(graph: &Graph) -> (r: Result<NaturalLoopsResult, SqliteGraphError>)
    requires
        graph.wf(),
    ensures
        graph.node_count() == 0 ==> (r matches Ok(res) && loop_map_view(res.loops).dom() == Set::<i64>::empty()),
        graph.node_count() > 0 && entry_list(graph, graph.node_count()).len() != 1 ==> (r matches Err(e) && e is Query),
        entry_list(graph, graph.node_count()).len() == 1 && graph.node_count() <= 1000
            ==> r is Ok,
        r matches Err(e) ==> e is Query && graph.node_count() > 0,
        r matches Ok(res) ==> (graph.node_count() > 0 ==> entry_list(graph, graph.node_count()).len() == 1 && exists|
            dr: DominatorResult,
        |
            dominators_ok(graph, entry_list(graph, graph.node_count())[0], dr) && #[trigger] loops_ok(
                graph,
                set_map_view(dr.dom),
                loop_map_view(res.loops),
            )),
{
    let all_nodes = graph.all_entity_ids()?;
    proof {
        graph.lemma_wf();
    }
    let n = all_nodes.len();
    if n == 0 {
        let loops = loop_map_new();
        proof {
            assert(loop_map_view(loops).dom() =~= Set::<i64>::empty());
        }
        return Ok(NaturalLoopsResult { loops });
    }
    let mut entries: Vec<i64> = Vec::new();
    let mut i: usize = 0;
    while i < n
        invariant
            graph.wf(),
            all_nodes@ == node_ids(graph.node_count()),
            n == all_nodes@.len(),
            i <= n,
            entries@ == entry_list(graph, i as nat),
        decreases n - i,
    {
        let node = all_nodes[i];
        let incoming = graph.fetch_incoming(node).unwrap();
        if incoming.len() == 0 {
            entries.push(node);
        }
        i = i + 1;
    }
    if entries.len() == 0 {
        return Err(
            SqliteGraphError::Query(
                String::from_str("Cannot compute natural loops: graph has no entry nodes (all nodes have incoming edges)"),
            ),
        );
    }
    if entries.len() > 1 {
        let mut msg = String::from_str("Cannot compute natural loops: graph has ");
        msg.append(usize_text(entries.len()).as_str());
        msg.append(" entry nodes (expected 1)");
        return Err(SqliteGraphError::Query(msg));
    }
    let entry = entries[0];
    proof {
        lemma_entry_list(graph, graph.node_count());
        assert(graph.is_node(entry_list(graph, graph.node_count())[0]));
    }
    let dom_result = crate::dominators::dominators(graph, entry)?;
    natural_loops(graph, &dom_result)
}

/// `node` is the loop's header or lies in its body.
pub open spec fn loop_has(l: NaturalLoop, node: i64) -> bool {
    l.header == node || id_set_view(l.body).contains(node)
}

impl NaturalLoop {
    /// `node` is the header or a body node of this loop.
    pub fn contains(&self, node: i64) -> (b: bool)
        ensures
            b == loop_has(*self, node),
    {
        self.header == node || id_set_contains(&self.body, node)
    }

    /// The header together with the body.
    pub fn all_nodes(&self) -> (nodes: ahash::AHashSet<i64>)
        ensures
            id_set_view(nodes) == id_set_view(self.body).insert(self.header),
    {
        let mut nodes = id_set_clone(&self.body);
        id_set_insert(&mut nodes, self.header);
        nodes
    }

    /// This loop's header lies in `parent` (its header or body).
    pub fn is_nested_in(&self, parent: &NaturalLoop) -> (b: bool)
        ensures
            b == loop_has(*parent, self.header),
    {
        parent.contains(self.header)
    }

    /// 1 when this loop's header lies in `parent`, 0 otherwise.
    pub fn nesting_depth_in(&self, parent: &NaturalLoop) -> (d: usize)
        ensures
            d == (if loop_has(*parent, self.header) {
                1usize
            } else {
                0usize
            }),
    {
        if !parent.contains(self.header) {
            return 0;
        }
        1
    }

    /// The number of back edges into the header.
    pub fn back_edge_count(&self) -> (n: usize)
        ensures
            n == self.back_edges@.len(),
    {
        self.back_edges.len()
    }

    /// The number of body nodes (the header left out).
    pub fn body_size(&self) -> (n: usize)
        ensures
            n == id_set_view(self.body).len(),
    {
        id_set_len(&self.body)
    }

    /// The number of nodes of the loop: its body and its header.
    pub fn size(&self) -> (n: usize)
        requires
            id_set_view(self.body).len() < usize::MAX,
        ensures
            n == id_set_view(self.body).len() + 1,
    {
        id_set_len(&self.body) + 1
    }
}

/// A map from parent loop headers to the headers of the loops directly inside them.
pub type NestingTree = ahash::AHashMap<i64, Vec<i64>>;

/// The lists of child headers that an `AHashMap<i64, Vec<i64>>` holds, by parent.
pub uninterp spec fn tree_view(m: NestingTree) -> Map<i64, Seq<i64>>;

/// `AHashMap::new`: an empty map.
#[verifier::external_body]
fn tree_new() -> (m: NestingTree)
    ensures
        tree_view(m).dom() == Set::<i64>::empty(),
{
    ahash::AHashMap::new()
}

/// `AHashMap::insert`: maps `k` to `v`; the previous list is dropped.
#[verifier::external_body]
fn tree_insert(m: &mut NestingTree, k: i64, v: Vec<i64>)
    ensures
        tree_view(*final(m)) == tree_view(*old(m)).insert(k, v@),
{
    m.insert(k, v);
}

/// `AHashMap::remove`: takes the list under `k` out, if any.
#[verifier::external_body]
fn tree_remove(m: &mut NestingTree, k: i64) -> (r: Option<Vec<i64>>)
    ensures
        tree_view(*final(m)) == tree_view(*old(m)).remove(k),
        r is Some <==> tree_view(*old(m)).contains_key(k),
        r matches Some(v) ==> v@ == tree_view(*old(m))[k],
{
    m.remove(&k)
}

/// The number of loops of `lm` that hold `node`.
pub open spec fn depth_of(lm: Map<i64, NaturalLoop>, node: i64) -> nat {
    Set::new(|h: i64| lm.contains_key(h) && loop_has(lm[h], node)).len()
}

/// `l` is the loop of some header of `lm` whose header lies in exactly `depth` loops.
pub open spec fn loop_at_depth(lm: Map<i64, NaturalLoop>, depth: nat, l: NaturalLoop) -> bool {
    exists|h: i64| #[trigger] lm.contains_key(h) && l == lm[h] && depth_of(lm, lm[h].header) == depth
}

/// The loop of `c` lies directly inside the loop of `p`: `p` holds `c`, and no third
/// loop lies between them.
pub open spec fn direct_child(lm: Map<i64, NaturalLoop>, p: i64, c: i64) -> bool {
    &&& lm.contains_key(p)
    &&& lm.contains_key(c)
    &&& c != p
    &&& loop_has(lm[p], c)
    &&& !exists|o: i64|
        #[trigger] lm.contains_key(o) && lm[o].header != p && lm[o].header != c && loop_has(lm[p], lm[o].header)
            && loop_has(lm[o], c)
}

impl NaturalLoopsResult {
    /// The loop whose header is `header`, if any.
    pub fn loop_with_header(&self, header: i64) -> (r: Option<&NaturalLoop>)
        ensures
            r == (if loop_map_view(self.loops).contains_key(header) {
                Some(&loop_map_view(self.loops)[header])
            } else {
                None
            }),
    {
        loop_map_get(&self.loops, header)
    }

    /// `node` is the header of a loop.
    pub fn is_loop_header(&self, node: i64) -> (b: bool)
        ensures
            b == loop_map_view(self.loops).contains_key(node),
    {
        loop_map_get(&self.loops, node).is_some()
    }

    /// The number of loops that hold `node` (0 when it lies in none).
    pub fn nesting_depth(&self, node: i64) -> (d: usize)
        ensures
            d == depth_of(loop_map_view(self.loops), node),
    {
        let ghost lm = loop_map_view(self.loops);
        let keys = loop_map_keys(&self.loops);
        let mut count: usize = 0;
        let ghost mut acc: Set<i64> = Set::empty();
        let mut i: usize = 0;
        while i < keys.len()
            invariant
                lm == loop_map_view(self.loops),
                keys@.no_duplicates(),
                keys@.to_set() == lm.dom(),
                i <= keys@.len(),
                acc == Set::new(|h: i64| keys@.take(i as int).contains(h) && loop_has(lm[h], node)),
                acc.finite(),
                count == acc.len(),
                count <= i,
            decreases keys.len() - i,
        {
            let h = keys[i];
            proof {
                assert(keys@.to_set().contains(h));
                assert(keys@.take(i + 1) =~= keys@.take(i as int).push(h));
                assert(!keys@.take(i as int).contains(h)) by {
                    if keys@.take(i as int).contains(h) {
                        let k = choose|k: int| 0 <= k < i && keys@.take(i as int)[k] == h;
                        assert(keys@[k] == keys@[i as int]);
                    }
                }
                assert forall|y: i64| #[trigger] keys@.take(i + 1).contains(y) <==> keys@.take(i as int).contains(y) || y == h by {
                    let t0 = keys@.take(i as int);
                    let t1 = keys@.take(i + 1);
                    if t1.contains(y) {
                        let k = choose|k: int| 0 <= k < t1.len() && t1[k] == y;
                        if k < t0.len() {
                            assert(t0[k] == y);
                        }
                    }
                    if t0.contains(y) {
                        let k = choose|k: int| 0 <= k < t0.len() && t0[k] == y;
                        assert(t1[k] == y);
                    }
                    if y == h {
                        assert(t1[i as int] == y);
                    }
                }
            }
            let l = loop_map_get(&self.loops, h).unwrap();
            if l.contains(node) {
                count = count + 1;
                proof {
                    assert(!acc.contains(h));
                    acc = acc.insert(h);
                }
            }
            proof {
                assert(acc =~= Set::new(|x: i64| keys@.take(i + 1).contains(x) && loop_has(lm[x], node)));
            }
            i = i + 1;
        }
        proof {
            assert(keys@.take(keys@.len() as int) =~= keys@);
            assert forall|x: i64| keys@.contains(x) <==> #[trigger] lm.contains_key(x) by {
                assert(keys@.to_set().contains(x) <==> keys@.contains(x));
            }
            assert(acc =~= Set::new(|x: i64| lm.contains_key(x) && loop_has(lm[x], node)));
        }
        count
    }

    /// The loops whose header lies in exactly `depth` loops, each once, in the map's
    /// own order.
    pub fn loops_at_depth(&self, depth: usize) -> (v: Vec<&NaturalLoop>)
        ensures
            forall|k: int| 0 <= k < v@.len() ==> #[trigger] loop_at_depth(loop_map_view(self.loops), depth as nat, *v@[k]),
            forall|h: i64|
                #[trigger] loop_map_view(self.loops).contains_key(h) && depth_of(
                    loop_map_view(self.loops),
                    loop_map_view(self.loops)[h].header,
                ) == depth ==> exists|k: int| 0 <= k < v@.len() && v@[k] == loop_map_view(self.loops)[h],
            v@.len() == Set::new(
                |h: i64|
                    loop_map_view(self.loops).contains_key(h) && depth_of(
                        loop_map_view(self.loops),
                        loop_map_view(self.loops)[h].header,
                    ) == depth,
            ).len(),
    {
        let ghost lm = loop_map_view(self.loops);
        let ghost want = Set::new(|h: i64| lm.contains_key(h) && depth_of(lm, lm[h].header) == depth);
        let keys = loop_map_keys(&self.loops);
        let mut v: Vec<&NaturalLoop> = Vec::new();
        let ghost mut picked: Seq<i64> = Seq::empty();
        let mut i: usize = 0;
        while i < keys.len()
            invariant
                lm == loop_map_view(self.loops),
                want == Set::new(|h: i64| lm.contains_key(h) && depth_of(lm, lm[h].header) == depth),
                keys@.no_duplicates(),
                keys@.to_set() == lm.dom(),
                i <= keys@.len(),
                picked.len() == v@.len(),
                picked.no_duplicates(),
                forall|k: int| 0 <= k < picked.len() ==> #[trigger] lm.contains_key(picked[k]) && v@[k] == lm[picked[k]]
                    && depth_of(lm, lm[picked[k]].header) == depth,
                forall|h: i64| #[trigger] picked.contains(h) <==> keys@.take(i as int).contains(h) && want.contains(h),
            decreases keys.len() - i,
        {
            let h = keys[i];
            proof {
                assert(keys@.to_set().contains(h));
                assert(keys@.take(i + 1) =~= keys@.take(i as int).push(h));
                assert(!keys@.take(i as int).contains(h)) by {
                    if keys@.take(i as int).contains(h) {
                        let k = choose|k: int| 0 <= k < i && keys@.take(i as int)[k] == h;
                        assert(keys@[k] == keys@[i as int]);
                    }
                }
                assert forall|y: i64| #[trigger] keys@.take(i + 1).contains(y) <==> keys@.take(i as int).contains(y) || y == h by {
                    let t0 = keys@.take(i as int);
                    let t1 = keys@.take(i + 1);
                    if t1.contains(y) {
                        let k = choose|k: int| 0 <= k < t1.len() && t1[k] == y;
                        if k < t0.len() {
                            assert(t0[k] == y);
                        }
                    }
                    if t0.contains(y) {
                        let k = choose|k: int| 0 <= k < t0.len() && t0[k] == y;
                        assert(t1[k] == y);
                    }
                    if y == h {
                        assert(t1[i as int] == y);
                    }
                }
            }
            let l = loop_map_get(&self.loops, h).unwrap();
            let d = self.nesting_depth(l.header);
            if d == depth {
                let ghost p0 = picked;
                v.push(l);
                proof {
                    picked = picked.push(h);
                    assert(!p0.contains(h));
                    assert forall|y: i64| #[trigger] picked.contains(y) <==> p0.contains(y) || y == h by {
                        if picked.contains(y) {
                            let k = choose|k: int| 0 <= k < picked.len() && picked[k] == y;
                            if k < p0.len() {
                                assert(p0[k] == y);
                            }
                        }
                        if p0.contains(y) {
                            let k = choose|k: int| 0 <= k < p0.len() && p0[k] == y;
                            assert(picked[k] == y);
                        }
                        if y == h {
                            assert(picked[p0.len() as int] == y);
                        }
                    }
                    assert forall|a: int, b: int| 0 <= a < b < picked.len() implies picked[a] != picked[b] by {
                        if b == p0.len() {
                            assert(p0.contains(p0[a]));
                        }
                    }
                }
            }
            i = i + 1;
        }
        proof {
            assert(keys@.take(keys@.len() as int) =~= keys@);
            assert forall|x: i64| #[trigger] picked.contains(x) <==> want.contains(x) by {
                assert(keys@.to_set().contains(x) <==> keys@.contains(x));
            }
            assert(picked.to_set() =~= want);
            picked.unique_seq_to_set();
            assert forall|h: i64|
                #[trigger] lm.contains_key(h) && depth_of(lm, lm[h].header) == depth implies exists|k: int|
                    0 <= k < v@.len() && v@[k] == lm[h] by {
                assert(want.contains(h));
                assert(picked.contains(h));
                let k = choose|k: int| 0 <= k < picked.len() && picked[k] == h;
                assert(v@[k] == lm[h]);
            }
            assert forall|k: int| 0 <= k < v@.len() implies #[trigger] loop_at_depth(lm, depth as nat, *v@[k]) by {
                let h = picked[k];
                assert(lm.contains_key(h) && v@[k] == lm[h] && depth_of(lm, lm[h].header) == depth);
            }
        }
        v
    }

    /// The direct nesting of the loops: for each loop that holds another loop directly,
    /// the headers of the loops directly inside it, each once, in the map's own order.
    pub fn nesting_tree(&self) -> (tree: NestingTree)
        ensures
            forall|p: i64|
                #[trigger] tree_view(tree).contains_key(p) <==> exists|c: i64| #[trigger] direct_child(
                    loop_map_view(self.loops),
                    p,
                    c,
                ),
            forall|p: i64|
                #[trigger] tree_view(tree).contains_key(p) ==> tree_view(tree)[p].no_duplicates() && forall|c: i64|
                    #[trigger] tree_view(tree)[p].contains(c) <==> direct_child(loop_map_view(self.loops), p, c),
    {
        let ghost lm = loop_map_view(self.loops);
        let keys = loop_map_keys(&self.loops);
        let mut tree = tree_new();
        let mut i: usize = 0;
        while i < keys.len()
            invariant
                lm == loop_map_view(self.loops),
                keys@.no_duplicates(),
                keys@.to_set() == lm.dom(),
                i <= keys@.len(),
                forall|p: i64|
                    #[trigger] tree_view(tree).contains_key(p) <==> exists|c: i64|
                        #[trigger] keys@.take(i as int).contains(c) && direct_child(lm, p, c),
                forall|p: i64|
                    #[trigger] tree_view(tree).contains_key(p) ==> tree_view(tree)[p].no_duplicates() && forall|c: i64|
                        #[trigger] tree_view(tree)[p].contains(c) <==> keys@.take(i as int).contains(c) && direct_child(
                            lm,
                            p,
                            c,
                        ),
            decreases keys.len() - i,
        {
            let header = keys[i];
            proof {
                assert(keys@.to_set().contains(header));
                assert(keys@.take(i + 1) =~= keys@.take(i as int).push(header));
                assert(!keys@.take(i as int).contains(header)) by {
                    if keys@.take(i as int).contains(header) {
                        let k = choose|k: int| 0 <= k < i && keys@.take(i as int)[k] == header;
                        assert(keys@[k] == keys@[i as int]);
                    }
                }
                assert forall|y: i64| #[trigger] keys@.take(i + 1).contains(y) <==> keys@.take(i as int).contains(y) || y == header by {
                    let t0 = keys@.take(i as int);
                    let t1 = keys@.take(i + 1);
                    if t1.contains(y) {
                        let k = choose|k: int| 0 <= k < t1.len() && t1[k] == y;
                        if k < t0.len() {
                            assert(t0[k] == y);
                        }
                    }
                    if t0.contains(y) {
                        let k = choose|k: int| 0 <= k < t0.len() && t0[k] == y;
                        assert(t1[k] == y);
                    }
                    if y == header {
                        assert(t1[i as int] == y);
                    }
                }
            }
            let ghost t0 = tree_view(tree);
            let mut j: usize = 0;
            while j < keys.len()
                invariant
                    lm == loop_map_view(self.loops),
                    keys@.no_duplicates(),
                    keys@.to_set() == lm.dom(),
                    i < keys@.len(),
                    header == keys@[i as int],
                    lm.contains_key(header),
                    !keys@.take(i as int).contains(header),
                    j <= keys@.len(),
                    forall|p: i64|
                        #[trigger] tree_view(tree).contains_key(p) <==> t0.contains_key(p) || (keys@.take(j as int).contains(p)
                            && direct_child(lm, p, header)),
                    forall|p: i64|
                        #[trigger] tree_view(tree).contains_key(p) ==> tree_view(tree)[p] == (if keys@.take(j as int).contains(p)
                            && direct_child(lm, p, header) {
                            (if t0.contains_key(p) {
                                t0[p]
                            } else {
                                Seq::empty()
                            }).push(header)
                        } else {
                            t0[p]
                        }),
                decreases keys.len() - j,
            {
                let parent = keys[j];
                proof {
                    assert(keys@.to_set().contains(parent));
                    assert(keys@.take(j + 1) =~= keys@.take(j as int).push(parent));
                    assert(!keys@.take(j as int).contains(parent)) by {
                        if keys@.take(j as int).contains(parent) {
                            let k = choose|k: int| 0 <= k < j && keys@.take(j as int)[k] == parent;
                            assert(keys@[k] == keys@[j as int]);
                        }
                    }
                    assert forall|y: i64| #[trigger] keys@.take(j + 1).contains(y) <==> keys@.take(j as int).contains(y) || y == parent by {
                        let u0 = keys@.take(j as int);
                        let u1 = keys@.take(j + 1);
                        if u1.contains(y) {
                            let k = choose|k: int| 0 <= k < u1.len() && u1[k] == y;
                            if k < u0.len() {
                                assert(u0[k] == y);
                            }
                        }
                        if u0.contains(y) {
                            let k = choose|k: int| 0 <= k < u0.len() && u0[k] == y;
                            assert(u1[k] == y);
                        }
                        if y == parent {
                            assert(u1[j as int] == y);
                        }
                    }
                }
                if header != parent {
                    let parent_loop = loop_map_get(&self.loops, parent).unwrap();
                    if parent_loop.contains(header) {
                        let between = self.has_loop_between(parent, header);
                        if !between {
                            let ghost tb = tree_view(tree);
                            let existing = tree_remove(&mut tree, parent);
                            let mut children = match existing {
                                Some(c) => c,
                                None => Vec::new(),
                            };
                            children.push(header);
                            tree_insert(&mut tree, parent, children);
                            proof {
                                assert(!tb.contains_key(parent) ==> !t0.contains_key(parent));
                            }
                        }
                    }
                }
                j = j + 1;
            }
            proof {
                assert(keys@.take(keys@.len() as int) =~= keys@);
                assert forall|p: i64| #[trigger] direct_child(lm, p, header) implies keys@.contains(p) by {
                    assert(keys@.to_set().contains(p) <==> keys@.contains(p));
                }
                assert forall|p: i64|
                    #[trigger] tree_view(tree).contains_key(p) <==> exists|c: i64|
                        #[trigger] keys@.take(i + 1).contains(c) && direct_child(lm, p, c) by {
                    if tree_view(tree).contains_key(p) {
                        if t0.contains_key(p) {
                            let c = choose|c: i64| #[trigger] keys@.take(i as int).contains(c) && direct_child(lm, p, c);
                            assert(keys@.take(i + 1).contains(c));
                        } else {
                            assert(keys@.take(i + 1).contains(header));
                        }
                    }
                    if exists|c: i64| #[trigger] keys@.take(i + 1).contains(c) && direct_child(lm, p, c) {
                        let c = choose|c: i64| #[trigger] keys@.take(i + 1).contains(c) && direct_child(lm, p, c);
                        if c != header {
                            assert(keys@.take(i as int).contains(c));
                        } else {
                            assert(keys@.contains(p));
                        }
                    }
                }
                assert forall|p: i64| #[trigger] tree_view(tree).contains_key(p) implies tree_view(tree)[p].no_duplicates()
                    && forall|c: i64| #[trigger] tree_view(tree)[p].contains(c) <==> keys@.take(i + 1).contains(c)
                    && direct_child(lm, p, c) by {
                    if keys@.contains(p) && direct_child(lm, p, header) {
                        let old_list = if t0.contains_key(p) {
                            t0[p]
                        } else {
                            Seq::empty()
                        };
                        let nl = old_list.push(header);
                        assert(tree_view(tree)[p] == nl);
                        assert forall|c: i64| #[trigger] nl.contains(c) <==> old_list.contains(c) || c == header by {
                            if nl.contains(c) {
                                let k = choose|k: int| 0 <= k < nl.len() && nl[k] == c;
                                if k < old_list.len() {
                                    assert(old_list[k] == c);
                                }
                            }
                            if old_list.contains(c) {
                                let k = choose|k: int| 0 <= k < old_list.len() && old_list[k] == c;
                                assert(nl[k] == c);
                            }
                            if c == header {
                                assert(nl[old_list.len() as int] == c);
                            }
                        }
                        assert(!old_list.contains(header));
                        assert forall|a: int, b: int| 0 <= a < b < nl.len() implies nl[a] != nl[b] by {
                            if b == old_list.len() {
                                assert(old_list.contains(old_list[a]));
                            }
                        }
                    } else {
                        assert(t0.contains_key(p));
                        assert(tree_view(tree)[p] == t0[p]);
                    }
                }
            }
            i = i + 1;
        }
        proof {
            assert(keys@.take(keys@.len() as int) =~= keys@);
            assert forall|c: i64| #[trigger] lm.contains_key(c) ==> keys@.contains(c) by {
                assert(keys@.to_set().contains(c) <==> keys@.contains(c));
            }
        }
        tree
    }

    /// Some loop other than those of `p` and `c` lies in the loop of `p` and holds `c`.
    fn has_loop_between(&self, p: i64, c: i64) -> (b: bool)
        requires
            loop_map_view(self.loops).contains_key(p),
        ensures
            b == exists|o: i64|
                #[trigger] loop_map_view(self.loops).contains_key(o) && loop_map_view(self.loops)[o].header != p
                    && loop_map_view(self.loops)[o].header != c && loop_has(loop_map_view(self.loops)[p], loop_map_view(
                    self.loops,
                )[o].header) && loop_has(loop_map_view(self.loops)[o], c),
    {
        let ghost lm = loop_map_view(self.loops);
        let parent_loop = loop_map_get(&self.loops, p).unwrap();
        let keys = loop_map_keys(&self.loops);
        let mut k: usize = 0;
        while k < keys.len()
            invariant
                lm == loop_map_view(self.loops),
                lm.contains_key(p),
                *parent_loop == lm[p],
                keys@.to_set() == lm.dom(),
                k <= keys@.len(),
                forall|m: int|
                    0 <= m < k ==> !(lm[#[trigger] keys@[m]].header != p && lm[keys@[m]].header != c && loop_has(
                        lm[p],
                        lm[keys@[m]].header,
                    ) && loop_has(lm[keys@[m]], c)),
            decreases keys.len() - k,
        {
            let o = keys[k];
            proof {
                assert(keys@.to_set().contains(o));
            }
            let other = loop_map_get(&self.loops, o).unwrap();
            if other.header != p && other.header != c && parent_loop.contains(other.header) && other.contains(c) {
                return true;
            }
            k = k + 1;
        }
        proof {
            assert forall|o: i64| #[trigger] lm.contains_key(o) implies !(lm[o].header != p && lm[o].header != c
                && loop_has(lm[p], lm[o].header) && loop_has(lm[o], c)) by {
                assert(keys@.to_set().contains(o));
                let m = choose|m: int| 0 <= m < keys@.len() && keys@[m] == o;
                assert(lm[keys@[m]] == lm[o]);
            }
        }
        false
    }

    /// The number of loops.
    pub fn count(&self) -> (n: usize)
        ensures
            n == loop_map_view(self.loops).dom().len(),
    {
        loop_map_len(&self.loops)
    }

    /// The loop headers, each once, in the map's own order.
    pub fn headers(&self) -> (v: Vec<i64>)
        ensures
            v@.no_duplicates(),
            v@.to_set() == loop_map_view(self.loops).dom(),
    {
        loop_map_keys(&self.loops)
    }

    /// Each loop with its header, each once, in the map's own order.
    pub fn iter(&self) -> (v: Vec<(i64, &NaturalLoop)>)
        ensures
            v@.len() == loop_map_view(self.loops).dom().len(),
            forall|k: int|
                0 <= k < v@.len() ==> #[trigger] loop_map_view(self.loops).contains_key(v@[k].0) && v@[k].1
                    == loop_map_view(self.loops)[v@[k].0],
            forall|a: int, b: int| 0 <= a < b < v@.len() ==> #[trigger] v@[a].0 != #[trigger] v@[b].0,
    {
        let ghost lm = loop_map_view(self.loops);
        let keys = loop_map_keys(&self.loops);
        let mut v: Vec<(i64, &NaturalLoop)> = Vec::new();
        let mut i: usize = 0;
        while i < keys.len()
            invariant
                lm == loop_map_view(self.loops),
                keys@.no_duplicates(),
                keys@.to_set() == lm.dom(),
                i <= keys@.len(),
                v@.len() == i,
                forall|k: int| 0 <= k < i ==> #[trigger] v@[k].0 == keys@[k] && lm.contains_key(keys@[k]) && v@[k].1 == lm[keys@[k]],
            decreases keys.len() - i,
        {
            let h = keys[i];
            proof {
                assert(keys@.to_set().contains(h));
            }
            let l = loop_map_get(&self.loops, h).unwrap();
            v.push((h, l));
            i = i + 1;
        }
        proof {
            keys@.unique_seq_to_set();
        }
        v
    }
}

/// The shape of every loop found: its header lies outside its body, and each of its
/// back edges is a back edge into the header whose source lies in the body.
pub proof fn lemma_loop_shape(g: &Graph, dm: Map<i64, ahash::AHashSet<i64>>, lm: Map<i64, NaturalLoop>, h: i64)
    requires
        g.wf(),
        loops_ok(g, dm, lm),
        lm.contains_key(h),
    ensures
        !id_set_view(lm[h].body).contains(h),
        forall|k: int|
            0 <= k < lm[h].back_edges@.len() ==> (#[trigger] lm[h].back_edges@[k]).1 == h && is_back_edge(
                g,
                dm,
                lm[h].back_edges@[k].0,
                h,
            ) && id_set_view(lm[h].body).contains(lm[h].back_edges@[k].0),
{
    g.lemma_wf();
    if id_set_view(lm[h].body).contains(h) {
        let u = choose|u: i64| #[trigger] is_back_edge(g, dm, u, h) && reaches_avoiding(g, u, h, h);
        let k = choose|k: nat| #[trigger] avoid_within(g, u, h, h, k);
        assert(!avoid_within(g, u, h, h, k));
    }
    assert forall|k: int| 0 <= k < lm[h].back_edges@.len() implies (#[trigger] lm[h].back_edges@[k]).1 == h
        && is_back_edge(g, dm, lm[h].back_edges@[k].0, h) && id_set_view(lm[h].body).contains(lm[h].back_edges@[k].0) by {
        let x = lm[h].back_edges@[k];
        assert(back_list(g, dm, h, g.node_count()).contains(x));
        lemma_back_list_contains(g, dm, h, g.node_count(), x);
        assert(avoid_within(g, x.0, x.0, h, 0));
        assert(reaches_avoiding(g, x.0, x.0, h));
        assert(loop_body(g, dm, h).contains(x.0));
    }
}

} // verus!
