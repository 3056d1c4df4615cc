//! Traversals from a start node: breadth-first, depth-first, and within k hops.
use std::collections::{HashSet, VecDeque};

use vstd::prelude::*;

use crate::error::SqliteGraphError;
use crate::graph::Graph;
use crate::reach::{
    discovery_order, dist_is, lemma_bounded_set, lemma_closed_holds_reachable, lemma_dist_le,
    lemma_dist_unique, lemma_level_closed, lemma_within_mono, lemma_within_step, reaches, within,
};

verus! {

broadcast use vstd::std_specs::hash::group_hash_axioms;

/// The nodes that `start` reaches over at least one edge, each once, in breadth-first
/// order: no node comes before one that is nearer to `start` (the start node itself is
/// left out).
pub fn bfs_traversal(graph: &Graph, start: i64) -> (r: Result<Vec<i64>, SqliteGraphError>)
    requires
        graph.wf(),
    ensures
        match r {
            Ok(v) => {
                &&& v@.no_duplicates()
                &&& forall|x: i64| v@.contains(x) <==> x != start && reaches(graph, start, x)
                &&& forall|a: int, b: int, da: nat, db: nat|
                    0 <= a < b < v@.len() && #[trigger] dist_is(graph, start, v@[a], da)
                        && #[trigger] dist_is(graph, start, v@[b], db) ==> da <= db
                &&& discovery_order(graph, start, v@)
                &&& exists|c: Seq<int>| #[trigger] bfs_run(graph, start, v@, c)
            },
            Err(_) => false,
        },
{
    let mut visited: HashSet<i64> = HashSet::new();
    let mut result: Vec<i64> = Vec::new();
    let mut queue: VecDeque<i64> = VecDeque::new();
    visited.insert(start);
    queue.push_back(start);
    // `seen` is the start node followed by every node found so far, in the order found;
    // the queue is the part of it from position `p` on, and `depth` gives each seen
    // node's distance from `start`.
    let ghost mut seen: Seq<i64> = seq![start];
    let ghost mut p: int = 0;
    let ghost mut depth: Map<i64, nat> = map![start => 0nat];
    let ghost mut c: Seq<int> = seq![1int];
    proof {
        graph.lemma_wf();
        assert(queue@ =~= seen.skip(0));
        assert(result@ =~= seen.drop_first());
        assert(dist_is(graph, start, start, 0));
        assert(seen[0] == start);
        assert forall|x: i64| #[trigger] visited@.contains(x) <==> seen.contains(x) by {
            if x == start {
                assert(seen[0] == x);
            }
        }
    }
    while queue.len() > 0
        invariant
            graph.wf(),
            seen.len() >= 1,
            seen[0] == start,
            result@ == seen.drop_first(),
            0 <= p <= seen.len(),
            queue@ == seen.skip(p),
            seen.no_duplicates(),
            forall|x: i64| #[trigger] visited@.contains(x) <==> seen.contains(x),
            visited@.len() == seen.len(),
            forall|x: i64| #[trigger] seen.contains(x) ==> graph.is_node(x) || x == start,
            forall|x: i64| #[trigger]
                seen.contains(x) ==> depth.contains_key(x) && dist_is(graph, start, x, depth[x]),
            forall|a: int, b: int|
                0 <= a < b < seen.len() ==> depth[#[trigger] seen[a]] <= depth[#[trigger] seen[b]],
            p < seen.len() ==> forall|a: int|
                0 <= a < seen.len() ==> depth[#[trigger] seen[a]] <= depth[seen[p]] + 1,
            p < seen.len() && depth[seen[p]] > 0 ==> forall|u: i64| #[trigger]
                within(graph, start, u, (depth[seen[p]] - 1) as nat) ==> seen.take(p).contains(u),
            forall|a: int, y: i64|
                0 <= a < p && #[trigger] graph.has_edge(seen[a], y) ==> visited@.contains(y),
            discovery_order(graph, start, result@),
            c.len() == p + 1,
            c[0] == 1,
            c[p] == seen.len(),
            forall|k: int| 0 <= k < c.len() ==> 1 <= #[trigger] c[k] <= seen.len(),
            forall|k: int| 0 <= k < p ==> k < #[trigger] c[k],
            forall|k: int| 0 <= k < p ==> c[k] <= #[trigger] c[k + 1],
            forall|k: int|
                0 <= k < p ==> seen.subrange(c[k], c[k + 1]) == fresh(graph.succs(#[trigger] seen[k]), seen.take(c[k])),
        decreases graph.node_count() + 1 - p,
    {
        proof {
            lemma_bounded_set(graph, start, visited@);
        }
        let ghost q0 = queue@;
        let node = queue.pop_front().unwrap();
        let ghost p0 = p;
        let ghost seen0 = seen;
        let ghost d: nat = depth[node];
        proof {
            assert(q0[0] == seen[p]);
            p = p + 1;
            assert(queue@ =~= seen.skip(p));
            assert(seen.contains(node));
            assert(dist_is(graph, start, node, d));
        }
        let neighbors = graph.fetch_outgoing(node)?;
        proof {
            assert(neighbors@.take(0) =~= Seq::<i64>::empty());
            assert(seen =~= seen0 + fresh(neighbors@.take(0), seen0));
        }
        let mut j: usize = 0;
        while j < neighbors.len()
            invariant
                graph.wf(),
                neighbors@ == graph.succs(node),
                j <= neighbors@.len(),
                p == p0 + 1,
                0 <= p0 < seen0.len(),
                seen0[p0] == node,
                seen.len() >= seen0.len(),
                forall|a: int| 0 <= a < seen0.len() ==> #[trigger] seen[a] == seen0[a],
                seen[0] == start,
                result@ == seen.drop_first(),
                queue@ == seen.skip(p),
                seen.no_duplicates(),
                forall|x: i64| #[trigger] visited@.contains(x) <==> seen.contains(x),
                visited@.len() == seen.len(),
                forall|x: i64| #[trigger] seen.contains(x) ==> graph.is_node(x) || x == start,
                forall|x: i64| #[trigger]
                    seen.contains(x) ==> depth.contains_key(x) && dist_is(graph, start, x, depth[x]),
                depth[node] == d,
                dist_is(graph, start, node, d),
                forall|a: int, b: int|
                    0 <= a < b < seen.len() ==> depth[#[trigger] seen[a]] <= depth[#[trigger] seen[b]],
                forall|a: int| 0 <= a < seen.len() ==> depth[#[trigger] seen[a]] <= d + 1,
                forall|a: int| seen0.len() <= a < seen.len() ==> depth[#[trigger] seen[a]] == d + 1,
                d > 0 ==> forall|u: i64| #[trigger]
                    within(graph, start, u, (d - 1) as nat) ==> seen0.take(p0).contains(u),
                forall|a: int, y: i64|
                    0 <= a < p0 && #[trigger] graph.has_edge(seen[a], y) ==> visited@.contains(y),
                forall|y: i64| #[trigger]
                    neighbors@.subrange(0, j as int).contains(y) ==> visited@.contains(y),
                discovery_order(graph, start, result@),
                seen == seen0 + fresh(neighbors@.take(j as int), seen0),
                c.len() == p0 + 1,
                c[0] == 1,
                c[p0] == seen0.len(),
            decreases neighbors.len() - j,
        {
            let neighbor = neighbors[j];
            proof {
                graph.lemma_wf();
                assert(graph.succs(node).contains(neighbor));
                lemma_bounded_set(graph, start, visited@);
            }
            let ghost s1 = seen;
            let ghost r0 = result@;
            let ghost v1 = visited@;
            if visited.insert(neighbor) {
                proof {
                    // The neighbor is exactly one edge further than `node`.
                    assert(!s1.contains(neighbor));
                    lemma_within_step(graph, start, node, neighbor, d);
                    if within(graph, start, neighbor, d) {
                        if d == 0 {
                            assert(neighbor == start);
                            assert(s1[0] == neighbor);
                        } else {
                            assert(neighbor != start) by {
                                assert(s1[0] == start);
                            }
                            let u = choose|u: i64| #[trigger]
                                graph.has_edge(u, neighbor) && within(graph, start, u, (d - 1) as nat);
                            assert(seen0.take(p0).contains(u));
                            let a = choose|a: int| 0 <= a < p0 && seen0.take(p0)[a] == u;
                            assert(s1[a] == u);
                            assert(graph.has_edge(s1[a], neighbor));
                            assert(v1.contains(neighbor));
                        }
                    }
                    assert(dist_is(graph, start, neighbor, d + 1));
                    assert(graph.is_node(neighbor));
                }
                result.push(neighbor);
                queue.push_back(neighbor);
                proof {
                    seen = s1.push(neighbor);
                    depth = depth.insert(neighbor, d + 1);
                    assert(result@ =~= seen.drop_first());
                    assert(queue@ =~= seen.skip(p));
                    assert(seen[seen.len() - 1] == neighbor);
                    assert forall|x: i64| #[trigger] seen.contains(x) <==> s1.contains(x) || x == neighbor by {
                        if seen.contains(x) && x != neighbor {
                            let i = choose|i: int| 0 <= i < seen.len() && seen[i] == x;
                            assert(s1[i] == x);
                        }
                        if s1.contains(x) {
                            let i = choose|i: int| 0 <= i < s1.len() && s1[i] == x;
                            assert(seen[i] == x);
                        }
                    }
                    assert forall|a: int, b: int| 0 <= a < b < seen.len() implies seen[a] != seen[b] by {
                        if b == seen.len() - 1 {
                            assert(s1.contains(s1[a]));
                        } else {
                            assert(s1[a] != s1[b]);
                        }
                    }
                    assert(visited@.len() == v1.len() + 1);
                    assert forall|x: i64| #[trigger]
                        seen.contains(x) implies depth.contains_key(x) && dist_is(graph, start, x, depth[x]) by {
                        if x != neighbor {
                            assert(s1.contains(x));
                        }
                    }
                    assert forall|a: int| 0 <= a < seen.len() implies depth[#[trigger] seen[a]]
                        <= d + 1 by {
                        if a < s1.len() {
                            assert(seen[a] == s1[a]);
                            assert(s1.contains(s1[a]));
                        }
                    }
                    assert forall|a: int| seen0.len() <= a < seen.len() implies depth[#[trigger] seen[a]]
                        == d + 1 by {
                        if a < s1.len() {
                            assert(seen[a] == s1[a]);
                            assert(s1.contains(s1[a]));
                        }
                    }
                    assert forall|a: int, b: int| 0 <= a < b < seen.len() implies depth[#[trigger] seen[a]]
                        <= depth[#[trigger] seen[b]] by {
                        assert(seen[a] == s1[a]);
                        assert(s1.contains(s1[a]));
                        if b < s1.len() {
                            assert(seen[b] == s1[b]);
                            assert(s1.contains(s1[b]));
                        }
                    }
                    assert forall|a: int| 0 <= a < seen0.len() implies #[trigger] seen[a] == seen0[a] by {
                        assert(s1[a] == seen0[a]);
                    }
                    assert forall|a: int, y: i64|
                        0 <= a < p0 && #[trigger] graph.has_edge(seen[a], y) implies visited@.contains(y) by {
                        assert(seen[a] == s1[a]);
                    }
                    assert(discovery_order(graph, start, result@)) by {
                        assert forall|i: int| 0 <= i < result@.len() implies graph.has_edge(
                            start,
                            #[trigger] result@[i],
                        ) || exists|jj: int| 0 <= jj < i && graph.has_edge(result@[jj], result@[i]) by {
                            if i < result@.len() - 1 {
                                assert(r0[i] == result@[i]);
                                if !graph.has_edge(start, r0[i]) {
                                    let jj = choose|jj: int| 0 <= jj < i && graph.has_edge(r0[jj], r0[i]);
                                    assert(result@[jj] == r0[jj]);
                                }
                            } else if p0 > 0 {
                                assert(s1[p0] == node);
                                assert(result@[p0 - 1] == node);
                            } else {
                                assert(node == start);
                            }
                        }
                    }
                }
            }
            proof {
                let t1 = neighbors@.take(j + 1);
                assert(t1.drop_last() =~= neighbors@.take(j as int));
                assert(t1.last() == neighbor);
                let fprev = fresh(neighbors@.take(j as int), seen0);
                assert(s1 == seen0 + fprev);
                assert(v1.contains(neighbor) <==> seen0.contains(neighbor) || fprev.contains(neighbor)) by {
                    if s1.contains(neighbor) {
                        let i = choose|i: int| 0 <= i < s1.len() && s1[i] == neighbor;
                        if i < seen0.len() {
                            assert(seen0[i] == neighbor);
                        } else {
                            assert(fprev[i - seen0.len()] == neighbor);
                        }
                    }
                    if seen0.contains(neighbor) {
                        let i = choose|i: int| 0 <= i < seen0.len() && seen0[i] == neighbor;
                        assert(s1[i] == neighbor);
                    }
                    if fprev.contains(neighbor) {
                        let i = choose|i: int| 0 <= i < fprev.len() && fprev[i] == neighbor;
                        assert(s1[seen0.len() + i] == neighbor);
                    }
                }
                if v1.contains(neighbor) {
                    assert(seen == s1);
                    assert(fresh(t1, seen0) == fprev);
                } else {
                    assert(seen == s1.push(neighbor));
                    assert(fresh(t1, seen0) == fprev.push(neighbor));
                    assert(seen =~= seen0 + fresh(t1, seen0));
                }
            }
            proof {
                let sj = neighbors@.subrange(0, j as int);
                let sj1 = neighbors@.subrange(0, j + 1);
                assert(sj1 =~= sj.push(neighbor));
                assert forall|y: i64| #[trigger] sj1.contains(y) implies visited@.contains(y) by {
                    let i = choose|i: int| 0 <= i < sj1.len() && sj1[i] == y;
                    if i < j {
                        assert(sj[i] == y);
                        assert(sj.contains(y));
                        assert(v1.contains(y));
                    }
                }
            }
            j = j + 1;
        }
        proof {
            let cb = c;
            c = cb.push(seen.len() as int);
            assert(c[0] == cb[0]);
            assert(neighbors@.take(neighbors@.len() as int) =~= neighbors@);
            let blk = fresh(graph.succs(node), seen0);
            assert(seen == seen0 + blk);
            assert forall|n: int| 0 <= n <= seen0.len() implies #[trigger] seen.take(n) == seen0.take(n) by {
                assert(seen.take(n) =~= seen0.take(n));
            }
            assert(seen0.take(seen0.len() as int) =~= seen0);
            assert forall|k: int| 0 <= k < c.len() implies 1 <= #[trigger] c[k] <= seen.len() by {
                if k < cb.len() {
                    assert(c[k] == cb[k]);
                }
            }
            assert(seen.len() >= seen0.len());
            assert forall|k: int| 0 <= k < p implies k < #[trigger] c[k] by {
                assert(c[k] == cb[k]);
            }
            assert forall|k: int| 0 <= k < p implies c[k] <= #[trigger] c[k + 1] by {
                if k < p0 {
                    assert(c[k] == cb[k] && c[k + 1] == cb[k + 1]);
                } else {
                    assert(c[k] == cb[k]);
                }
            }
            assert forall|k: int|
                0 <= k < p implies seen.subrange(c[k], c[k + 1]) == fresh(graph.succs(#[trigger] seen[k]), seen.take(c[k])) by {
                assert(c[k] == cb[k]);
                assert(1 <= cb[k] <= seen0.len());
                assert(seen[k] == seen0[k]);
                if k < p0 {
                    assert(c[k + 1] == cb[k + 1]);
                    assert(cb[k] <= cb[k + 1] <= seen0.len());
                    assert(seen.subrange(c[k], c[k + 1]) =~= seen0.subrange(c[k], c[k + 1]));
                    assert(seen.take(c[k]) == seen0.take(c[k]));
                } else {
                    assert(seen[k] == node);
                    assert(seen.subrange(c[k], c[k + 1]) =~= blk);
                }
            }
            assert(neighbors@.subrange(0, neighbors@.len() as int) =~= neighbors@);
            assert forall|a: int, y: i64|
                0 <= a < p && #[trigger] graph.has_edge(seen[a], y) implies visited@.contains(y) by {
                if a == p0 {
                    assert(seen[a] == node);
                    assert(neighbors@.contains(y));
                }
            }
            if p < seen.len() {
                let h = depth[seen[p]];
                assert(d <= h <= d + 1) by {
                    assert(seen[p0] == node);
                }
                if h > 0 {
                    assert forall|u: i64| #[trigger]
                        within(graph, start, u, (h - 1) as nat) implies seen.take(p).contains(u) by {
                        if d > 0 && within(graph, start, u, (d - 1) as nat) {
                            assert(seen0.take(p0).contains(u));
                            let a = choose|a: int| 0 <= a < p0 && seen0.take(p0)[a] == u;
                            assert(seen[a] == u);
                            assert(seen.take(p)[a] == u);
                        } else if u == start {
                            assert(seen.take(p)[0] == u);
                        } else {
                            // `u` is exactly `d` edges away, so it was found, before position `p`.
                            assert(h == d + 1);
                            assert(d > 0) by {
                                if d == 0 {
                                    assert(within(graph, start, u, 0));
                                }
                            }
                            let w = choose|w: i64| #[trigger]
                                graph.has_edge(w, u) && within(graph, start, w, (d - 1) as nat);
                            assert(seen0.take(p0).contains(w));
                            let a = choose|a: int| 0 <= a < p0 && seen0.take(p0)[a] == w;
                            assert(seen[a] == w);
                            assert(graph.has_edge(seen[a], u));
                            assert(seen.contains(u));
                            let b = choose|b: int| 0 <= b < seen.len() && seen[b] == u;
                            lemma_dist_le(graph, start, u, depth[u], d);
                            if b >= p {
                                if b > p {
                                    assert(depth[seen[p]] <= depth[seen[b]]);
                                }
                                assert(false);
                            }
                            assert(seen.take(p)[b] == u);
                        }
                    }
                }
            }
            lemma_bounded_set(graph, start, visited@);
        }
    }
    proof {
        assert(p == seen.len());
        assert forall|x: i64, y: i64|
            visited@.contains(x) && #[trigger] graph.has_edge(x, y) implies visited@.contains(y) by {
            let a = choose|a: int| 0 <= a < seen.len() && seen[a] == x;
            assert(graph.has_edge(seen[a], y));
        }
        assert forall|a: int, b: int| 0 <= a < b < result@.len() implies result@[a] != result@[b] by {
            assert(result@[a] == seen[a + 1]);
            assert(result@[b] == seen[b + 1]);
        }
        assert forall|x: i64| result@.contains(x) <==> x != start && reaches(graph, start, x) by {
            if result@.contains(x) {
                let i = choose|i: int| 0 <= i < result@.len() && result@[i] == x;
                assert(seen[i + 1] == x);
                assert(seen[0] != seen[i + 1]);
                assert(seen.contains(x));
            }
            if x != start && reaches(graph, start, x) {
                let k = choose|k: nat| #[trigger] within(graph, start, x, k);
                lemma_closed_holds_reachable(graph, start, visited@, x, k);
                let i = choose|i: int| 0 <= i < seen.len() && seen[i] == x;
                assert(i != 0);
                assert(result@[i - 1] == x);
            }
        }
        assert forall|a: int, b: int, da: nat, db: nat|
            0 <= a < b < result@.len() && #[trigger] dist_is(graph, start, result@[a], da)
                && #[trigger] dist_is(graph, start, result@[b], db) implies da <= db by {
            assert(result@[a] == seen[a + 1]);
            assert(result@[b] == seen[b + 1]);
            assert(seen.contains(seen[a + 1]));
            assert(seen.contains(seen[b + 1]));
            lemma_dist_unique(graph, start, seen[a + 1], da, depth[seen[a + 1]]);
            lemma_dist_unique(graph, start, seen[b + 1], db, depth[seen[b + 1]]);
        }
    }
    proof {
        assert(seen =~= seq![start] + result@);
        assert(p == seen.len()) by {
            if p < seen.len() {
                assert(seen.skip(p).len() > 0);
            }
        }
        assert(bfs_run(graph, start, result@, c));
    }
    Ok(result)
}

/// The items of `s` that `seen` does not hold, each once, in the order of their first
/// occurrence in `s`.
pub open spec fn fresh(s: Seq<i64>, seen: Seq<i64>) -> Seq<i64>
    decreases s.len(),
{
    if s.len() == 0 {
        Seq::empty()
    } else {
        let f = fresh(s.drop_last(), seen);
        if seen.contains(s.last()) || f.contains(s.last()) {
            f
        } else {
            f.push(s.last())
        }
    }
}

/// `x` is the node found last in `found` among those that `done` does not hold.
pub open spec fn latest_unexpanded(found: Seq<i64>, done: Seq<i64>, x: i64) -> bool {
    exists|m: int|
        0 <= m < found.len() && found[m] == x && !done.contains(x) && forall|m2: int|
            m < m2 < found.len() ==> done.contains(#[trigger] found[m2])
}

/// `r` is what a depth-first search from `start` finds, in the order found, when `e` is
/// the order in which it expands nodes and `c[k]` is how many nodes (`start` first) had
/// been found when the `k`-th expansion began: the search expands `start` first, and
/// then always the node found most recently among those not yet expanded; expanding a
/// node finds, in the order of its outgoing edges, each target not found before; and it
/// stops once every node found is expanded.
pub open spec fn dfs_run(g: &Graph, start: i64, r: Seq<i64>, e: Seq<i64>, c: Seq<int>) -> bool {
    let d = seq![start] + r;
    &&& c.len() == e.len() + 1
    &&& e.len() > 0
    &&& e[0] == start
    &&& c[0] == 1
    &&& c[e.len() as int] == d.len()
    &&& forall|k: int| 0 <= k < c.len() ==> 1 <= #[trigger] c[k] <= d.len()
    &&& forall|k: int| 0 <= k < e.len() ==> c[k] <= #[trigger] c[k + 1] <= d.len()
    &&& forall|k: int| 1 <= k < e.len() ==> latest_unexpanded(d.take(c[k]), e.take(k), #[trigger] e[k])
    &&& forall|k: int|
        0 <= k < e.len() ==> d.subrange(c[k], c[k + 1]) == fresh(g.succs(#[trigger] e[k]), d.take(c[k]))
    &&& forall|m: int| 0 <= m < d.len() ==> e.contains(#[trigger] d[m])
}

/// `r` is what a breadth-first search from `start` finds, in the order found, when `c[k]`
/// is how many nodes (`start` first) had been found when the search expanded the `k`-th
/// of them: the search expands the nodes in the order found, and expanding a node finds,
/// in the order of its outgoing edges, each target not found before.
pub open spec fn bfs_run(g: &Graph, start: i64, r: Seq<i64>, c: Seq<int>) -> bool {
    let d = seq![start] + r;
    &&& c.len() == d.len() + 1
    &&& c[0] == 1
    &&& c[d.len() as int] == d.len()
    &&& forall|k: int| 0 <= k < c.len() ==> 1 <= #[trigger] c[k] <= d.len()
    &&& forall|k: int| 0 <= k < d.len() ==> k < #[trigger] c[k]
    &&& forall|k: int| 0 <= k < d.len() ==> c[k] <= #[trigger] c[k + 1]
    &&& forall|k: int|
        0 <= k < d.len() ==> d.subrange(c[k], c[k + 1]) == fresh(g.succs(#[trigger] d[k]), d.take(c[k]))
}

/// A breadth-first search from `start` finds one list only: two runs from the same node
/// of the same graph find the same nodes in the same order.
pub proof fn lemma_bfs_run_unique(g: &Graph, start: i64, r1: Seq<i64>, c1: Seq<int>, r2: Seq<i64>, c2: Seq<int>)
    requires
        bfs_run(g, start, r1, c1),
        bfs_run(g, start, r2, c2),
    ensures
        r1 == r2,
{
    let d1 = seq![start] + r1;
    let d2 = seq![start] + r2;
    let n = if d1.len() < d2.len() { d1.len() } else { d2.len() };
    lemma_bfs_run_prefix(g, start, r1, c1, r2, c2, n as int);
    if d1.len() < d2.len() {
        assert(d1.take(c1[n as int]) =~= d1);
        assert(c2[n as int] == d1.len());
        assert(n < c2[n as int]);
    } else if d2.len() < d1.len() {
        assert(d2.take(c2[n as int]) =~= d2);
        assert(c1[n as int] == d2.len());
        assert(n < c1[n as int]);
    } else {
        assert(d1.take(c1[n as int]) =~= d1);
        assert(d2.take(c2[n as int]) =~= d2);
        assert(r1 =~= d1.drop_first());
        assert(r2 =~= d2.drop_first());
    }
}

/// Two breadth-first searches from the same node agree on what they had found before
/// each of their first `k` expansions.
proof fn lemma_bfs_run_prefix(g: &Graph, start: i64, r1: Seq<i64>, c1: Seq<int>, r2: Seq<i64>, c2: Seq<int>, k: int)
    requires
        bfs_run(g, start, r1, c1),
        bfs_run(g, start, r2, c2),
        0 <= k <= (seq![start] + r1).len(),
        k <= (seq![start] + r2).len(),
    ensures
        c1[k] == c2[k],
        (seq![start] + r1).take(c1[k]) == (seq![start] + r2).take(c2[k]),
    decreases k,
{
    let d1 = seq![start] + r1;
    let d2 = seq![start] + r2;
    if k == 0 {
        assert(d1.take(1) =~= d2.take(1));
    } else {
        let j = k - 1;
        lemma_bfs_run_prefix(g, start, r1, c1, r2, c2, j);
        assert(1 <= c1[j] && 1 <= c2[j]);
        assert(j < c1[j] && c1[j] <= c1[j + 1] <= d1.len());
        assert(j < c2[j] && c2[j] <= c2[j + 1] <= d2.len());
        assert(d1[j] == d2[j]) by {
            assert(d1.take(c1[j])[j] == d2.take(c2[j])[j]);
        }
        let blk = fresh(g.succs(d1[j]), d1.take(c1[j]));
        assert(d1.subrange(c1[j], c1[j + 1]) == blk);
        assert(d2.subrange(c2[j], c2[j + 1]) == blk);
        assert(d1.subrange(c1[j], c1[j + 1]).len() == c1[j + 1] - c1[j]);
        assert(d2.subrange(c2[j], c2[j + 1]).len() == c2[j + 1] - c2[j]);
        assert(c1[k] == c2[k]);
        assert(d1.take(c1[k]) =~= d1.take(c1[j]) + blk);
        assert(d2.take(c2[k]) =~= d2.take(c2[j]) + blk);
    }
}

/// Only one node is the latest found among those not yet expanded.
proof fn lemma_latest_unique(found: Seq<i64>, done: Seq<i64>, x: i64, y: i64)
    requires
        latest_unexpanded(found, done, x),
        latest_unexpanded(found, done, y),
    ensures
        x == y,
{
    let mx = choose|m: int|
        0 <= m < found.len() && found[m] == x && !done.contains(x) && forall|m2: int|
            m < m2 < found.len() ==> done.contains(#[trigger] found[m2]);
    let my = choose|m: int|
        0 <= m < found.len() && found[m] == y && !done.contains(y) && forall|m2: int|
            m < m2 < found.len() ==> done.contains(#[trigger] found[m2]);
    if mx < my {
        assert(done.contains(found[my]));
    } else if my < mx {
        assert(done.contains(found[mx]));
    }
}

/// Two depth-first searches from the same node agree on their first `k` expansions and
/// on what they had found before the `k`-th.
proof fn lemma_dfs_run_prefix(
    g: &Graph,
    start: i64,
    r1: Seq<i64>,
    e1: Seq<i64>,
    c1: Seq<int>,
    r2: Seq<i64>,
    e2: Seq<i64>,
    c2: Seq<int>,
    k: int,
)
    requires
        dfs_run(g, start, r1, e1, c1),
        dfs_run(g, start, r2, e2, c2),
        0 <= k <= e1.len(),
        k <= e2.len(),
    ensures
        e1.take(k) == e2.take(k),
        c1[k] == c2[k],
        (seq![start] + r1).take(c1[k]) == (seq![start] + r2).take(c2[k]),
    decreases k,
{
    let d1 = seq![start] + r1;
    let d2 = seq![start] + r2;
    if k == 0 {
        assert(e1.take(0) =~= e2.take(0));
        assert(d1.take(1) =~= d2.take(1));
    } else {
        let j = k - 1;
        lemma_dfs_run_prefix(g, start, r1, e1, c1, r2, e2, c2, j);
        assert(e1[j] == e2[j]) by {
            if j >= 1 {
                lemma_latest_unique(d1.take(c1[j]), e1.take(j), e1[j], e2[j]);
            }
        }
        let x = e1[j];
        assert(1 <= c1[j] && 1 <= c2[j]);
        assert(c1[j] <= c1[j + 1] <= d1.len());
        assert(c2[j] <= c2[j + 1] <= d2.len());
        let blk = fresh(g.succs(x), d1.take(c1[j]));
        assert(d1.subrange(c1[j], c1[j + 1]) == blk);
        assert(d2.subrange(c2[j], c2[j + 1]) == fresh(g.succs(e2[j]), d2.take(c2[j])));
        assert(d2.subrange(c2[j], c2[j + 1]) == blk);
        assert(d1.subrange(c1[j], c1[j + 1]).len() == c1[j + 1] - c1[j]);
        assert(d2.subrange(c2[j], c2[j + 1]).len() == c2[j + 1] - c2[j]);
        assert(c1[k] == c2[k]);
        assert(d1.take(c1[k]) =~= d1.take(c1[j]) + blk);
        assert(d2.take(c2[k]) =~= d2.take(c2[j]) + blk);
        assert(e1.take(k) =~= e1.take(j).push(x));
        assert(e2.take(k) =~= e2.take(j).push(x));
    }
}

/// A depth-first search from `start` finds one list only: two runs from the same node of
/// the same graph find the same nodes in the same order.
pub proof fn lemma_dfs_run_unique(
    g: &Graph,
    start: i64,
    r1: Seq<i64>,
    e1: Seq<i64>,
    c1: Seq<int>,
    r2: Seq<i64>,
    e2: Seq<i64>,
    c2: Seq<int>,
)
    requires
        dfs_run(g, start, r1, e1, c1),
        dfs_run(g, start, r2, e2, c2),
    ensures
        r1 == r2,
{
    let d1 = seq![start] + r1;
    let d2 = seq![start] + r2;
    if e1.len() < e2.len() {
        let l = e1.len() as int;
        lemma_dfs_run_prefix(g, start, r1, e1, c1, r2, e2, c2, l);
        assert(d1.take(c1[l]) =~= d1);
        let x = e2[l];
        assert(latest_unexpanded(d2.take(c2[l]), e2.take(l), x));
        let m = choose|m: int| 0 <= m < d2.take(c2[l]).len() && d2.take(c2[l])[m] == x && !e2.take(l).contains(x);
        assert(d1[m] == x);
        assert(e1.contains(d1[m]));
        assert(e1 =~= e1.take(l));
    } else if e2.len() < e1.len() {
        let l = e2.len() as int;
        lemma_dfs_run_prefix(g, start, r1, e1, c1, r2, e2, c2, l);
        assert(d2.take(c2[l]) =~= d2);
        let x = e1[l];
        assert(latest_unexpanded(d1.take(c1[l]), e1.take(l), x));
        let m = choose|m: int| 0 <= m < d1.take(c1[l]).len() && d1.take(c1[l])[m] == x && !e1.take(l).contains(x);
        assert(d2[m] == x);
        assert(e2.contains(d2[m]));
        assert(e2 =~= e2.take(l));
    } else {
        let l = e1.len() as int;
        lemma_dfs_run_prefix(g, start, r1, e1, c1, r2, e2, c2, l);
        assert(d1.take(c1[l]) =~= d1);
        assert(d2.take(c2[l]) =~= d2);
        assert(r1 =~= d1.drop_first());
        assert(r2 =~= d2.drop_first());
    }
}

/// The depth-first order: after `start`, each node that the search expands is the node
/// found most recently among those not yet expanded, so a node found while expanding
/// another is expanded before any node found earlier that still waits.
pub proof fn lemma_dfs_expands_latest(g: &Graph, start: i64, r: Seq<i64>, e: Seq<i64>, c: Seq<int>, k: int, m: int)
    requires
        dfs_run(g, start, r, e, c),
        1 <= k < e.len(),
        0 <= m < c[k],
        !e.take(k).contains((seq![start] + r)[m]),
    ensures
        (seq![start] + r)[m] == e[k] || exists|m2: int| m < m2 < c[k] && (seq![start] + r)[m2] == e[k],
{
    let d = seq![start] + r;
    assert(1 <= c[k] <= d.len());
    let f = d.take(c[k]);
    let mk = choose|mk: int|
        0 <= mk < f.len() && f[mk] == e[k] && !e.take(k).contains(e[k]) && forall|m2: int|
            mk < m2 < f.len() ==> e.take(k).contains(#[trigger] f[m2]);
    if mk < m {
        assert(e.take(k).contains(f[m]));
    } else if m < mk {
        assert(d[mk] == e[k]);
    }
}

/// The nodes that `start` reaches over at least one edge, each once, in the order in
/// which a depth-first search that marks nodes when it pushes them discovers them (the
/// start node itself is left out).
pub fn dfs_traversal(graph: &Graph, start: i64) -> (r: Result<Vec<i64>, SqliteGraphError>)
    requires
        graph.wf(),
    ensures
        match r {
            Ok(v) => {
                &&& v@.no_duplicates()
                &&& forall|x: i64| v@.contains(x) <==> x != start && reaches(graph, start, x)
                &&& discovery_order(graph, start, v@)
                &&& exists|e: Seq<i64>, c: Seq<int>| #[trigger] dfs_run(graph, start, v@, e, c)
            },
            Err(_) => false,
        },
{
    let mut visited: HashSet<i64> = HashSet::new();
    let mut result: Vec<i64> = Vec::new();
    let mut queue: Vec<i64> = Vec::new();
    visited.insert(start);
    queue.push(start);
    proof {
        graph.lemma_wf();
        assert(within(graph, start, start, 0));
        assert(queue@[0] == start);
        assert(queue@.contains(start));
    }
    let ghost mut e: Seq<i64> = Seq::empty();
    let ghost mut c: Seq<int> = seq![1int];
    let ghost mut qi: Seq<int> = seq![0int];
    proof {
        assert(seq![start] + result@ =~= seq![start]);
        assert(qi[0] == 0);
        assert(qi.contains(0));
    }
    while queue.len() > 0
        invariant
            graph.wf(),
            forall|x: i64| #[trigger]
                visited@.contains(x) <==> x == start || result@.contains(x),
            !result@.contains(start),
            result@.no_duplicates(),
            queue@.no_duplicates(),
            forall|x: i64| #[trigger] queue@.contains(x) ==> visited@.contains(x),
            forall|x: i64, y: i64|
                visited@.contains(x) && !queue@.contains(x) && #[trigger] graph.has_edge(x, y)
                    ==> visited@.contains(y),
            forall|x: i64| #[trigger] visited@.contains(x) ==> reaches(graph, start, x),
            forall|x: i64| #[trigger] visited@.contains(x) ==> graph.is_node(x) || x == start,
            discovery_order(graph, start, result@),
            c.len() == e.len() + 1,
            c[0] == 1,
            forall|k: int| 0 <= k < c.len() ==> 1 <= #[trigger] c[k] <= (seq![start] + result@).len(),
            c[e.len() as int] == (seq![start] + result@).len(),
            forall|k: int| 0 <= k < e.len() ==> c[k] <= #[trigger] c[k + 1] <= (seq![start] + result@).len(),
            e.len() > 0 ==> e[0] == start,
            e.len() == 0 ==> result@.len() == 0 && qi == seq![0int],
            forall|k: int|
                1 <= k < e.len() ==> latest_unexpanded((seq![start] + result@).take(c[k]), e.take(k), #[trigger] e[k]),
            forall|k: int|
                0 <= k < e.len() ==> (seq![start] + result@).subrange(c[k], c[k + 1]) == fresh(
                    graph.succs(#[trigger] e[k]),
                    (seq![start] + result@).take(c[k]),
                ),
            queue@.len() == qi.len(),
            forall|a: int|
                0 <= a < qi.len() ==> 0 <= #[trigger] qi[a] < (seq![start] + result@).len() && queue@[a] == (seq![
                    start,
                ] + result@)[qi[a]],
            forall|a: int, b: int| 0 <= a < b < qi.len() ==> #[trigger] qi[a] < #[trigger] qi[b],
            forall|mm: int|
                0 <= mm < (seq![start] + result@).len() && !e.contains(#[trigger] (seq![start] + result@)[mm])
                    ==> qi.contains(mm),
            forall|a: int| 0 <= a < queue@.len() ==> !e.contains(#[trigger] queue@[a]),
            forall|x: i64| #[trigger] e.contains(x) ==> visited@.contains(x),
        decreases graph.node_count() + 1 - visited@.len() + queue@.len(),
    {
        proof {
            lemma_bounded_set(graph, start, visited@);
        }
        let ghost q0 = queue@;
        let node = queue.pop().unwrap();
        let ghost vis0 = visited@;
        let ghost q1 = queue@;
        proof {
            assert(q0[q0.len() - 1] == node);
            assert(q0.contains(node));
            if q1.contains(node) {
                let i = choose|i: int| 0 <= i < q1.len() && q1[i] == node;
                assert(q0[i] == node);
            }
            assert forall|x: i64| #[trigger] q1.contains(x) implies q0.contains(x) by {
                let i = choose|i: int| 0 <= i < q1.len() && q1[i] == x;
                assert(q0[i] == x);
            }
            assert forall|x: i64| #[trigger] q0.contains(x) && x != node implies q1.contains(x) by {
                let i = choose|i: int| 0 <= i < q0.len() && q0[i] == x;
                assert(i != q0.len() - 1);
                assert(q1[i] == x);
            }
        }
        let ghost r0 = result@;
        let ghost f0 = seq![start] + r0;
        let ghost e0 = e;
        let ghost qi0 = qi;
        proof {
            let la = qi0.len() - 1;
            assert(q0[la] == node);
            let m = qi0[la];
            assert(f0[m] == node);
            assert(!e0.contains(node));
            assert(f0.take(c[e0.len() as int]) =~= f0);
            assert forall|m2: int| m < m2 < f0.len() implies e0.contains(#[trigger] f0[m2]) by {
                if !e0.contains(f0[m2]) {
                    assert(qi0.contains(m2));
                    let a = choose|a: int| 0 <= a < qi0.len() && qi0[a] == m2;
                    if a < la {
                        assert(qi0[a] < qi0[la]);
                    }
                }
            }
            assert(latest_unexpanded(f0.take(c[e0.len() as int]), e0, node));
            e = e0.push(node);
            qi = qi0.drop_last();
            assert(e.take(e0.len() as int) =~= e0);
            assert(e[e0.len() as int] == node);
            assert(e.contains(node));
            assert(visited@.contains(node));
            assert forall|x: i64| #[trigger] e.contains(x) implies visited@.contains(x) by {
                if x != node {
                    let i = choose|i: int| 0 <= i < e.len() && e[i] == x;
                    assert(i < e0.len());
                    assert(e0[i] == x);
                    assert(e0.contains(x));
                }
            }
            assert forall|k: int| 1 <= k < e.len() implies latest_unexpanded(f0.take(c[k]), e.take(k), #[trigger] e[k]) by {
                if k < e0.len() {
                    assert(e.take(k) =~= e0.take(k));
                    assert(e[k] == e0[k]);
                }
            }
            assert forall|mm: int| 0 <= mm < f0.len() && !e.contains(#[trigger] f0[mm]) implies qi.contains(mm) by {
                assert(!e0.contains(f0[mm]));
                assert(qi0.contains(mm));
                let a = choose|a: int| 0 <= a < qi0.len() && qi0[a] == mm;
                if a == la {
                    assert(e.contains(node));
                } else {
                    assert(qi[a] == mm);
                }
            }
            assert forall|a: int| 0 <= a < queue@.len() implies !e.contains(#[trigger] queue@[a]) by {
                assert(queue@[a] == q0[a]);
                assert(!e0.contains(q0[a]));
                assert(q0[a] != q0[la]);
            }
        }
        let neighbors = graph.fetch_outgoing(node)?;
        let ghost k0 = choose|k: nat| #[trigger] within(graph, start, node, k);
        let mut j: usize = 0;
        while j < neighbors.len()
            invariant
                graph.wf(),
                neighbors@ == graph.succs(node),
                j <= neighbors@.len(),
                vis0.contains(node),
                !q1.contains(node),
                within(graph, start, node, k0),
                vis0.subset_of(visited@),
                forall|x: i64| #[trigger]
                    visited@.contains(x) <==> x == start || result@.contains(x),
                !result@.contains(start),
                result@.no_duplicates(),
                queue@.no_duplicates(),
                forall|x: i64| #[trigger] queue@.contains(x) ==> visited@.contains(x),
                forall|x: i64| #[trigger] q1.contains(x) ==> queue@.contains(x),
                forall|x: i64| #[trigger]
                    queue@.contains(x) && !q1.contains(x) ==> !vis0.contains(x),
                forall|x: i64, y: i64|
                    vis0.contains(x) && !q1.contains(x) && x != node && #[trigger] graph.has_edge(x, y)
                        ==> visited@.contains(y),
                forall|y: i64| #[trigger]
                    neighbors@.subrange(0, j as int).contains(y) ==> visited@.contains(y),
                forall|x: i64| #[trigger] visited@.contains(x) ==> reaches(graph, start, x),
                forall|x: i64| #[trigger] visited@.contains(x) ==> graph.is_node(x) || x == start,
                forall|x: i64| #[trigger]
                    visited@.contains(x) && !vis0.contains(x) ==> queue@.contains(x),
                visited@.len() + q1.len() == vis0.len() + queue@.len(),
                vis0.finite(),
                discovery_order(graph, start, result@),
                forall|x: i64| #[trigger]
                    visited@.contains(x) && !vis0.contains(x) ==> graph.has_edge(node, x),
                f0 == seq![start] + r0,
                result@ == r0 + fresh(neighbors@.take(j as int), f0),
                e.len() == e0.len() + 1,
                e == e0.push(node),
                c.len() == e.len(),
                c[0] == 1,
                forall|k: int| 0 <= k < c.len() ==> 1 <= #[trigger] c[k] <= f0.len(),
                c[e0.len() as int] == f0.len(),
                forall|k: int| 0 <= k < e0.len() ==> c[k] <= #[trigger] c[k + 1] <= f0.len(),
                e[0] == start,
                forall|k: int| 1 <= k < e.len() ==> latest_unexpanded(f0.take(c[k]), e.take(k), #[trigger] e[k]),
                forall|k: int|
                    0 <= k < e0.len() ==> f0.subrange(c[k], c[k + 1]) == fresh(
                        graph.succs(#[trigger] e[k]),
                        f0.take(c[k]),
                    ),
                queue@.len() == qi.len(),
                forall|a: int|
                    0 <= a < qi.len() ==> 0 <= #[trigger] qi[a] < (seq![start] + result@).len() && queue@[a]
                        == (seq![start] + result@)[qi[a]],
                forall|a: int, b: int| 0 <= a < b < qi.len() ==> #[trigger] qi[a] < #[trigger] qi[b],
                forall|mm: int|
                    0 <= mm < (seq![start] + result@).len() && !e.contains(#[trigger] (seq![start] + result@)[mm])
                        ==> qi.contains(mm),
                forall|a: int| 0 <= a < queue@.len() ==> !e.contains(#[trigger] queue@[a]),
                forall|x: i64| #[trigger] e.contains(x) ==> visited@.contains(x),
            decreases neighbors.len() - j,
        {
            let neighbor = neighbors[j];
            proof {
                graph.lemma_wf();
                assert(graph.succs(node).contains(neighbor));
            }
            let ghost rb = result@;
            let ghost v1 = visited@;
            let ghost qb = queue@;
            proof {
                lemma_bounded_set(graph, start, visited@);
            }
            if visited.insert(neighbor) {
                result.push(neighbor);
                queue.push(neighbor);
                proof {
                    let fb = seq![start] + rb;
                    let fa = seq![start] + result@;
                    assert(fa =~= fb.push(neighbor));
                    let qib = qi;
                    qi = qib.push(fb.len() as int);
                    assert(!fb.contains(neighbor)) by {
                        if fb.contains(neighbor) {
                            let i = choose|i: int| 0 <= i < fb.len() && fb[i] == neighbor;
                            if i > 0 {
                                assert(rb[i - 1] == neighbor);
                            }
                        }
                    }
                    assert(!e.contains(neighbor));
                    assert forall|a: int|
                        0 <= a < qi.len() implies 0 <= #[trigger] qi[a] < fa.len() && queue@[a] == fa[qi[a]] by {
                        if a < qib.len() {
                            assert(qi[a] == qib[a]);
                            assert(queue@[a] == qb[a]);
                        }
                    }
                    assert forall|a: int, b: int| 0 <= a < b < qi.len() implies #[trigger] qi[a] < #[trigger] qi[b] by {
                        if b == qib.len() {
                            assert(qi[a] == qib[a]);
                        } else {
                            assert(qi[a] == qib[a] && qi[b] == qib[b]);
                        }
                    }
                    assert forall|mm: int| 0 <= mm < fa.len() && !e.contains(#[trigger] fa[mm]) implies qi.contains(mm) by {
                        if mm < fb.len() {
                            assert(fa[mm] == fb[mm]);
                            assert(qib.contains(mm));
                            let a = choose|a: int| 0 <= a < qib.len() && qib[a] == mm;
                            assert(qi[a] == mm);
                        } else {
                            assert(qi[qib.len() as int] == mm);
                        }
                    }
                    assert forall|a: int| 0 <= a < queue@.len() implies !e.contains(#[trigger] queue@[a]) by {
                        if a < qb.len() {
                            assert(queue@[a] == qb[a]);
                        }
                    }
                }
                proof {
                    lemma_within_step(graph, start, node, neighbor, k0);
                    assert(within(graph, start, neighbor, k0 + 1));
                    assert forall|x: i64| #[trigger]
                        visited@.contains(x) <==> x == start || result@.contains(x) by {
                        if result@.contains(x) && x != neighbor {
                            let i = choose|i: int| 0 <= i < result@.len() && result@[i] == x;
                            assert(rb[i] == x);
                        }
                        if x == neighbor {
                            assert(result@[result@.len() - 1] == x);
                        }
                        if rb.contains(x) {
                            let i = choose|i: int| 0 <= i < rb.len() && rb[i] == x;
                            assert(result@[i] == x);
                        }
                    }
                    assert forall|a: int, b: int| 0 <= a < b < result@.len() implies result@[a]
                        != result@[b] by {
                        if b == result@.len() - 1 {
                            assert(rb.contains(rb[a]));
                        }
                    }
                    assert(discovery_order(graph, start, result@)) by {
                        assert forall|i: int| 0 <= i < result@.len() implies graph.has_edge(
                            start,
                            #[trigger] result@[i],
                        ) || exists|jj: int| 0 <= jj < i && graph.has_edge(result@[jj], result@[i]) by {
                            if i < result@.len() - 1 {
                                assert(rb[i] == result@[i]);
                                if !graph.has_edge(start, rb[i]) {
                                    let jj = choose|jj: int| 0 <= jj < i && graph.has_edge(rb[jj], rb[i]);
                                    assert(result@[jj] == rb[jj]);
                                }
                            } else if node != start {
                                assert(rb.contains(node));
                                let jj = choose|jj: int| 0 <= jj < rb.len() && rb[jj] == node;
                                assert(result@[jj] == node);
                            }
                        }
                    }
                    assert(!v1.contains(neighbor));
                    assert(visited@.len() == v1.len() + 1);
                    assert forall|x: i64| #[trigger] queue@.contains(x) implies visited@.contains(x) by {
                        if x != neighbor {
                            let i = choose|i: int| 0 <= i < queue@.len() && queue@[i] == x;
                            assert(qb[i] == x);
                            assert(qb.contains(x));
                            assert(v1.contains(x));
                        }
                    }
                    assert forall|x: i64| #[trigger] q1.contains(x) implies queue@.contains(x) by {
                        let i = choose|i: int| 0 <= i < qb.len() && qb[i] == x;
                        assert(queue@[i] == x);
                    }
                    assert forall|x: i64| #[trigger]
                        queue@.contains(x) && !q1.contains(x) implies !vis0.contains(x) by {
                        if x != neighbor {
                            let i = choose|i: int| 0 <= i < queue@.len() && queue@[i] == x;
                            assert(qb[i] == x);
                            assert(qb.contains(x));
                        } else {
                            assert(!v1.contains(x));
                        }
                    }
                    assert forall|x: i64| #[trigger]
                        visited@.contains(x) && !vis0.contains(x) implies queue@.contains(x) by {
                        if x == neighbor {
                            assert(queue@[queue@.len() - 1] == x);
                        } else {
                            let i = choose|i: int| 0 <= i < qb.len() && qb[i] == x;
                            assert(queue@[i] == x);
                        }
                    }
                    assert forall|a: int, b: int| 0 <= a < b < queue@.len() implies queue@[a]
                        != queue@[b] by {
                        assert(queue@[a] == qb[a]);
                        if b == queue@.len() - 1 {
                            assert(qb.contains(qb[a]));
                            assert(v1.contains(qb[a]));
                        } else {
                            assert(queue@[b] == qb[b]);
                        }
                    }
                }
            }
            proof {
                let s1 = neighbors@.take(j + 1);
                assert(s1.drop_last() =~= neighbors@.take(j as int));
                assert(s1.last() == neighbor);
                let fprev = fresh(neighbors@.take(j as int), f0);
                assert(rb == r0 + fprev);
                assert(v1.contains(neighbor) <==> f0.contains(neighbor) || fprev.contains(neighbor)) by {
                    if v1.contains(neighbor) && neighbor != start {
                        assert(rb.contains(neighbor));
                        let i = choose|i: int| 0 <= i < rb.len() && rb[i] == neighbor;
                        if i < r0.len() {
                            assert(f0[i + 1] == neighbor);
                        } else {
                            assert(fprev[i - r0.len()] == neighbor);
                        }
                    }
                    if v1.contains(neighbor) && neighbor == start {
                        assert(f0[0] == neighbor);
                    }
                    if f0.contains(neighbor) {
                        let i = choose|i: int| 0 <= i < f0.len() && f0[i] == neighbor;
                        if i > 0 {
                            assert(rb[i - 1] == neighbor);
                        }
                    }
                    if fprev.contains(neighbor) {
                        let i = choose|i: int| 0 <= i < fprev.len() && fprev[i] == neighbor;
                        assert(rb[r0.len() + i] == neighbor);
                    }
                }
                if v1.contains(neighbor) {
                    assert(result@ == rb);
                    assert(fresh(s1, f0) == fprev);
                } else {
                    assert(result@ == rb.push(neighbor));
                    assert(fresh(s1, f0) == fprev.push(neighbor));
                    assert(result@ =~= r0 + fresh(s1, f0));
                }
            }
            proof {
                let sj = neighbors@.subrange(0, j as int);
                let sj1 = neighbors@.subrange(0, j + 1);
                assert(sj1 =~= sj.push(neighbor));
                assert forall|y: i64| #[trigger] sj1.contains(y) implies visited@.contains(y) by {
                    let i = choose|i: int| 0 <= i < sj1.len() && sj1[i] == y;
                    if i < j {
                        assert(sj[i] == y);
                        assert(sj.contains(y));
                        assert(v1.contains(y));
                    }
                }
            }
            j = j + 1;
        }
        proof {
            let fa = seq![start] + result@;
            let blk = fresh(graph.succs(node), f0);
            assert(neighbors@.take(neighbors@.len() as int) =~= neighbors@);
            assert(result@ == r0 + blk);
            assert(fa =~= f0 + blk);
            let cb = c;
            c = cb.push(fa.len() as int);
            assert forall|n: int| 0 <= n <= f0.len() implies #[trigger] fa.take(n) == f0.take(n) by {
                assert(fa.take(n) =~= f0.take(n));
            }
            assert(f0.take(f0.len() as int) =~= f0);
            assert forall|k: int| 0 <= k < e.len() implies c[k] <= #[trigger] c[k + 1] <= fa.len() by {
                if k + 1 < e.len() {
                    assert(c[k] == cb[k] && c[k + 1] == cb[k + 1]);
                }
            }
            assert forall|k: int| 0 <= k < c.len() implies 1 <= #[trigger] c[k] <= fa.len() by {
                if k < cb.len() {
                    assert(c[k] == cb[k]);
                }
            }
            assert forall|k: int| 1 <= k < e.len() implies latest_unexpanded(fa.take(c[k]), e.take(k), #[trigger] e[k]) by {
                assert(c[k] == cb[k]);
                assert(1 <= cb[k]);
                assert(c[k] <= f0.len()) by {
                    if k < e0.len() {
                        assert(cb[k] <= cb[k + 1]);
                    }
                }
                assert(fa.take(c[k]) == f0.take(c[k]));
            }
            assert forall|k: int|
                0 <= k < e.len() implies fa.subrange(c[k], c[k + 1]) == fresh(graph.succs(#[trigger] e[k]), fa.take(c[k])) by {
                assert(c[k] == cb[k]);
                assert(1 <= cb[k]);
                if k < e0.len() {
                    assert(c[k + 1] == cb[k + 1]);
                    assert(cb[k] <= cb[k + 1] <= f0.len());
                    assert(fa.subrange(c[k], c[k + 1]) =~= f0.subrange(c[k], c[k + 1]));
                    assert(fa.take(c[k]) == f0.take(c[k]));
                } else {
                    assert(e[k] == node);
                    assert(c[k] == f0.len());
                    assert(fa.subrange(c[k], c[k + 1]) =~= blk);
                }
            }
            assert(neighbors@.subrange(0, neighbors@.len() as int) =~= neighbors@);
            assert forall|x: i64, y: i64|
                visited@.contains(x) && !queue@.contains(x) && #[trigger] graph.has_edge(x, y)
                    implies visited@.contains(y) by {
                if x == node {
                    assert(neighbors@.contains(y));
                } else if !vis0.contains(x) {
                } else {
                }
            }
            lemma_bounded_set(graph, start, visited@);
        }
    }
    proof {
        let fa = seq![start] + result@;
        assert(e.len() > 0);
        assert forall|mm: int| 0 <= mm < fa.len() implies e.contains(#[trigger] fa[mm]) by {
            if !e.contains(fa[mm]) {
                assert(qi.contains(mm));
            }
        }
        assert(dfs_run(graph, start, result@, e, c));
    }
    proof {
        assert forall|x: i64| x != start && reaches(graph, start, x) implies result@.contains(x) by {
            let k = choose|k: nat| #[trigger] within(graph, start, x, k);
            lemma_closed_holds_reachable(graph, start, visited@, x, k);
        }
    }
    Ok(result)
}

/// Some entry of `q` is for node `x`.
pub open spec fn listed(q: Seq<(i64, usize)>, x: i64) -> bool {
    exists|a: int| 0 <= a < q.len() && (#[trigger] q[a]).0 == x
}

/// A search from `start` that expands only the nodes nearer than `k` expands `x`.
pub open spec fn expands_within(g: &Graph, start: i64, x: i64, k: nat) -> bool {
    k > 0 && within(g, start, x, (k - 1) as nat)
}

/// `r` is what a breadth-first search from `start` that expands only the nodes nearer
/// than `k` finds, in the order found, when `c[i]` is how many nodes (`start` first) had
/// been found when the search took the `i`-th of them from its queue: it takes the nodes
/// in the order found, and taking a node nearer than `k` finds, in the order of its
/// outgoing edges, each target not found before.
pub open spec fn bfs_run_within(g: &Graph, start: i64, k: nat, r: Seq<i64>, c: Seq<int>) -> bool {
    let d = seq![start] + r;
    &&& c.len() == d.len() + 1
    &&& c[0] == 1
    &&& c[d.len() as int] == d.len()
    &&& forall|i: int| 0 <= i < c.len() ==> 1 <= #[trigger] c[i] <= d.len()
    &&& forall|i: int| 0 <= i < d.len() ==> i < #[trigger] c[i]
    &&& forall|i: int| 0 <= i < d.len() ==> c[i] <= #[trigger] c[i + 1]
    &&& forall|i: int|
        0 <= i < d.len() ==> d.subrange(c[i], c[i + 1]) == if expands_within(g, start, #[trigger] d[i], k) {
            fresh(g.succs(d[i]), d.take(c[i]))
        } else {
            Seq::<i64>::empty()
        }
}

/// A depth-limited breadth-first search from `start` finds one list only: two runs with
/// the same limit from the same node of the same graph find the same nodes in the same
/// order.
pub proof fn lemma_bfs_run_within_unique(
    g: &Graph,
    start: i64,
    k: nat,
    r1: Seq<i64>,
    c1: Seq<int>,
    r2: Seq<i64>,
    c2: Seq<int>,
)
    requires
        bfs_run_within(g, start, k, r1, c1),
        bfs_run_within(g, start, k, r2, c2),
    ensures
        r1 == r2,
{
    let d1 = seq![start] + r1;
    let d2 = seq![start] + r2;
    let n = if d1.len() < d2.len() { d1.len() } else { d2.len() };
    lemma_bfs_run_within_prefix(g, start, k, r1, c1, r2, c2, n as int);
    if d1.len() < d2.len() {
        assert(c2[n as int] == d1.len());
        assert(n < c2[n as int]);
    } else if d2.len() < d1.len() {
        assert(c1[n as int] == d2.len());
        assert(n < c1[n as int]);
    } else {
        assert(d1.take(c1[n as int]) =~= d1);
        assert(d2.take(c2[n as int]) =~= d2);
        assert(r1 =~= d1.drop_first());
        assert(r2 =~= d2.drop_first());
    }
}

proof fn lemma_bfs_run_within_prefix(
    g: &Graph,
    start: i64,
    k: nat,
    r1: Seq<i64>,
    c1: Seq<int>,
    r2: Seq<i64>,
    c2: Seq<int>,
    n: int,
)
    requires
        bfs_run_within(g, start, k, r1, c1),
        bfs_run_within(g, start, k, r2, c2),
        0 <= n <= (seq![start] + r1).len(),
        n <= (seq![start] + r2).len(),
    ensures
        c1[n] == c2[n],
        (seq![start] + r1).take(c1[n]) == (seq![start] + r2).take(c2[n]),
    decreases n,
{
    let d1 = seq![start] + r1;
    let d2 = seq![start] + r2;
    if n == 0 {
        assert(d1.take(1) =~= d2.take(1));
    } else {
        let j = n - 1;
        lemma_bfs_run_within_prefix(g, start, k, r1, c1, r2, c2, j);
        assert(1 <= c1[j] && 1 <= c2[j]);
        assert(j < c1[j] && c1[j] <= c1[j + 1] <= d1.len());
        assert(j < c2[j] && c2[j] <= c2[j + 1] <= d2.len());
        assert(d1[j] == d2[j]) by {
            assert(d1.take(c1[j])[j] == d2.take(c2[j])[j]);
        }
        let blk = if expands_within(g, start, d1[j], k) {
            fresh(g.succs(d1[j]), d1.take(c1[j]))
        } else {
            Seq::<i64>::empty()
        };
        assert(d1.subrange(c1[j], c1[j + 1]) == blk);
        assert(d2.subrange(c2[j], c2[j + 1]) == blk);
        assert(d1.subrange(c1[j], c1[j + 1]).len() == c1[j + 1] - c1[j]);
        assert(d2.subrange(c2[j], c2[j + 1]).len() == c2[j + 1] - c2[j]);
        assert(c1[n] == c2[n]);
        assert(d1.take(c1[n]) =~= d1.take(c1[j]) + blk);
        assert(d2.take(c2[n]) =~= d2.take(c2[j]) + blk);
    }
}

/// The nodes of a list of nodes with their distances.
pub open spec fn level_nodes(q: Seq<(i64, usize)>) -> Seq<i64> {
    q.map_values(|p: (i64, usize)| p.0)
}

/// The nodes within `k` edges of `start`, each once with its shortest distance, in the
/// order in which a breadth-first search that expands only nodes nearer than `k` takes
/// them from its queue: `start` first, distances never decreasing.
pub fn bfs_levels(graph: &Graph, start: i64, k: usize) -> (order: Vec<(i64, usize)>)
    requires
        graph.wf(),
    ensures
        order@.len() > 0,
        order@[0] == (start, 0usize),
        forall|a: int, b: int|
            0 <= a < b < order@.len() ==> order@[a].0 != order@[b].0 && order@[a].1 <= order@[b].1,
        forall|a: int|
            0 <= a < order@.len() ==> dist_is(graph, start, (#[trigger] order@[a]).0, order@[a].1 as nat)
                && order@[a].1 <= k,
        forall|x: i64| listed(order@, x) <==> within(graph, start, x, k as nat),
        exists|c: Seq<int>| #[trigger] bfs_run_within(graph, start, k as nat, level_nodes(order@).drop_first(), c),
{
    let mut visited: HashSet<i64> = HashSet::new();
    let mut queue: VecDeque<(i64, usize)> = VecDeque::new();
    let mut order: Vec<(i64, usize)> = Vec::new();
    let ghost mut depth: Map<i64, nat> = Map::empty().insert(start, 0nat);
    let ghost mut found: Seq<i64> = seq![start];
    let ghost mut c: Seq<int> = seq![1int];
    visited.insert(start);
    queue.push_back((start, 0));
    proof {
        assert forall|x: i64| #[trigger] visited@.contains(x) <==> found.contains(x) by {
            if x == start {
                assert(found[0] == x);
            }
        }
        graph.lemma_wf();
        assert(queue@[0] == (start, 0usize));
        assert(listed(queue@, start));
        assert(dist_is(graph, start, start, 0));
    }
    while queue.len() > 0
        invariant
            graph.wf(),
            visited@.contains(start),
            forall|x: i64| #[trigger] visited@.contains(x) ==> graph.is_node(x) || x == start,
            forall|x: i64| #[trigger]
                visited@.contains(x) <==> listed(order@, x) || listed(queue@, x),
            forall|a: int|
                0 <= a < queue@.len() ==> !listed(order@, (#[trigger] queue@[a]).0)
                    && depth.contains_key(queue@[a].0) && depth[queue@[a].0] == queue@[a].1,
            forall|a: int, b: int|
                0 <= a < b < queue@.len() ==> queue@[a].0 != queue@[b].0 && queue@[a].1 <= queue@[b].1,
            forall|a: int| 0 <= a < queue@.len() ==> (#[trigger] queue@[a]).1 <= queue@[0].1 + 1,
            forall|x: i64| #[trigger]
                visited@.contains(x) ==> depth.contains_key(x) && dist_is(graph, start, x, depth[x])
                    && depth[x] <= k,
            forall|a: int, b: int|
                0 <= a < b < order@.len() ==> order@[a].0 != order@[b].0 && order@[a].1 <= order@[b].1,
            forall|a: int|
                0 <= a < order@.len() ==> depth.contains_key((#[trigger] order@[a]).0) && depth[order@[a].0]
                    == order@[a].1,
            queue@.len() > 0 && order@.len() > 0 ==> order@[order@.len() - 1].1 <= queue@[0].1,
            forall|x: i64, y: i64|
                listed(order@, x) && depth[x] < k && #[trigger] graph.has_edge(x, y)
                    ==> visited@.contains(y),
            queue@.len() > 0 && queue@[0].1 > 0 ==> forall|u: i64| #[trigger]
                within(graph, start, u, (queue@[0].1 - 1) as nat) ==> listed(order@, u),
            order@.len() == 0 ==> queue@ == seq![(start, 0usize)],
            order@.len() > 0 ==> order@[0] == (start, 0usize),
            found.len() == order@.len() + queue@.len(),
            forall|a: int| 0 <= a < order@.len() ==> found[a] == (#[trigger] order@[a]).0,
            forall|a: int| 0 <= a < queue@.len() ==> found[order@.len() + a] == (#[trigger] queue@[a]).0,
            forall|x: i64| #[trigger] visited@.contains(x) <==> found.contains(x),
            c.len() == order@.len() + 1,
            c[0] == 1,
            c[order@.len() as int] == found.len(),
            forall|i: int| 0 <= i < c.len() ==> 1 <= #[trigger] c[i] <= found.len(),
            forall|i: int| 0 <= i < order@.len() ==> i < #[trigger] c[i],
            forall|i: int| 0 <= i < order@.len() ==> c[i] <= #[trigger] c[i + 1],
            forall|i: int|
                0 <= i < order@.len() ==> found.subrange(c[i], c[i + 1]) == if expands_within(
                    graph,
                    start,
                    #[trigger] found[i],
                    k as nat,
                ) {
                    fresh(graph.succs(found[i]), found.take(c[i]))
                } else {
                    Seq::<i64>::empty()
                },
        decreases graph.node_count() + 1 - visited@.len() + queue@.len(),
    {
        proof {
            lemma_bounded_set(graph, start, visited@);
        }
        let ghost q0 = queue@;
        let ghost o0 = order@;
        let ghost vis0 = visited@;
        let (node, d) = queue.pop_front().unwrap();
        let ghost q1 = queue@;
        proof {
            assert(q0[0] == (node, d));
            assert(listed(q0, node));
            assert(!listed(o0, node));
            assert(vis0.contains(node));
            assert(depth[node] == d as nat);
            assert(dist_is(graph, start, node, d as nat));
            assert forall|x: i64| #[trigger] listed(q1, x) <==> listed(q0, x) && x != node by {
                if listed(q1, x) {
                    let a = choose|a: int| 0 <= a < q1.len() && (#[trigger] q1[a]).0 == x;
                    assert(q0[a + 1] == q1[a]);
                }
                if listed(q0, x) && x != node {
                    let a = choose|a: int| 0 <= a < q0.len() && (#[trigger] q0[a]).0 == x;
                    assert(a != 0);
                    assert(q1[a - 1] == q0[a]);
                }
            }
        }
        order.push((node, d));
        proof {
            assert forall|x: i64| #[trigger] listed(order@, x) <==> listed(o0, x) || x == node by {
                if listed(order@, x) {
                    let a = choose|a: int| 0 <= a < order@.len() && (#[trigger] order@[a]).0 == x;
                    if a < o0.len() {
                        assert(o0[a] == order@[a]);
                    }
                }
                if listed(o0, x) {
                    let a = choose|a: int| 0 <= a < o0.len() && (#[trigger] o0[a]).0 == x;
                    assert(order@[a] == o0[a]);
                }
                if x == node {
                    assert(order@[order@.len() - 1] == (node, d));
                }
            }
        }
        let ghost found0 = found;
        let ghost c0 = c;
        proof {
            assert forall|a: int| 0 <= a < order@.len() implies found[a] == (#[trigger] order@[a]).0 by {
                if a < o0.len() {
                    assert(order@[a] == o0[a]);
                } else {
                    assert(q0[0] == (node, d));
                }
            }
            assert forall|a: int| 0 <= a < queue@.len() implies found[order@.len() + a] == (#[trigger] queue@[a]).0 by {
                assert(queue@[a] == q0[a + 1]);
            }
            assert(found[o0.len() as int] == node);
        }
        if d < k {
            let neighbors = graph.fetch_outgoing(node).unwrap();
            proof {
                assert(neighbors@.take(0) =~= Seq::<i64>::empty());
                assert(found =~= found0 + fresh(neighbors@.take(0), found0));
            }
            let mut j: usize = 0;
            while j < neighbors.len()
                invariant
                    graph.wf(),
                    neighbors@ == graph.succs(node),
                    j <= neighbors@.len(),
                    d < k,
                    q0.len() > 0,
                    q0[0] == (node, d),
                    vis0.contains(node),
                    depth.contains_key(node) && depth[node] == d,
                    dist_is(graph, start, node, d as nat),
                    forall|x: i64| #[trigger] listed(order@, x) <==> listed(o0, x) || x == node,
                    order@ == o0.push((node, d)),
                    q1.len() <= queue@.len(),
                    forall|a: int| 0 <= a < q1.len() ==> #[trigger] queue@[a] == q1[a],
                    forall|x: i64| #[trigger] vis0.contains(x) ==> visited@.contains(x),
                    visited@.contains(start),
                    forall|x: i64| #[trigger] visited@.contains(x) ==> graph.is_node(x) || x == start,
                    forall|x: i64| #[trigger]
                        visited@.contains(x) <==> listed(order@, x) || listed(queue@, x),
                    forall|a: int|
                        0 <= a < queue@.len() ==> !listed(order@, (#[trigger] queue@[a]).0)
                            && depth.contains_key(queue@[a].0) && depth[queue@[a].0] == queue@[a].1,
                    forall|a: int, b: int|
                        0 <= a < b < queue@.len() ==> queue@[a].0 != queue@[b].0 && queue@[a].1
                            <= queue@[b].1,
                    forall|a: int| 0 <= a < queue@.len() ==> d <= (#[trigger] queue@[a]).1 <= d + 1,
                    forall|x: i64| #[trigger]
                        visited@.contains(x) ==> depth.contains_key(x) && dist_is(graph, start, x, depth[x])
                            && depth[x] <= k,
                    forall|a: int, b: int|
                        0 <= a < b < order@.len() ==> order@[a].0 != order@[b].0 && order@[a].1
                            <= order@[b].1,
                    forall|a: int|
                        0 <= a < order@.len() ==> depth.contains_key((#[trigger] order@[a]).0)
                            && depth[order@[a].0] == order@[a].1,
                    order@.len() > 0 && order@[order@.len() - 1].1 == d,
                    forall|x: i64, y: i64|
                        listed(o0, x) && depth[x] < k && #[trigger] graph.has_edge(x, y)
                            ==> vis0.contains(y),
                    d > 0 ==> forall|u: i64| #[trigger]
                        within(graph, start, u, (d - 1) as nat) ==> listed(o0, u),
                    forall|y: i64| #[trigger]
                        neighbors@.subrange(0, j as int).contains(y) ==> visited@.contains(y),
                    order@[0] == (start, 0usize),
                    visited@.len() + q1.len() == vis0.len() + queue@.len(),
                    vis0.finite(),
                    forall|x: i64| #[trigger] depth.contains_key(x) && vis0.contains(x) ==> depth[x]
                        == depth[x],
                    found == found0 + fresh(neighbors@.take(j as int), found0),
                    found.len() == order@.len() + queue@.len(),
                    forall|a: int| 0 <= a < order@.len() ==> found[a] == (#[trigger] order@[a]).0,
                    forall|a: int| 0 <= a < queue@.len() ==> found[order@.len() + a] == (#[trigger] queue@[a]).0,
                    forall|x: i64| #[trigger] visited@.contains(x) <==> found.contains(x),
                    c == c0,
                decreases neighbors.len() - j,
            {
                let neighbor = neighbors[j];
                proof {
                    graph.lemma_wf();
                    assert(graph.succs(node).contains(neighbor));
                    lemma_bounded_set(graph, start, visited@);
                }
                let ghost v1 = visited@;
                let ghost qb = queue@;
                if visited.insert(neighbor) {
                    proof {
                        // The neighbor is exactly one step further than `node`.
                        lemma_within_step(graph, start, node, neighbor, d as nat);
                        if within(graph, start, neighbor, d as nat) {
                            if d == 0 {
                                assert(neighbor == start);
                            } else {
                                assert(neighbor != start);
                                let u = choose|u: i64| #[trigger]
                                    graph.has_edge(u, neighbor) && within(graph, start, u, (d - 1) as nat);
                                assert(listed(o0, u));
                                let a = choose|a: int| 0 <= a < o0.len() && (#[trigger] o0[a]).0 == u;
                                assert(order@[a] == o0[a]);
                                assert(visited@.contains(u));
                                lemma_dist_le(graph, start, u, depth[u], (d - 1) as nat);
                                assert(vis0.contains(neighbor));
                            }
                        }
                        assert(dist_is(graph, start, neighbor, (d + 1) as nat));
                    }
                    queue.push_back((neighbor, d + 1));
                    proof {
                        let fb = found;
                        found = fb.push(neighbor);
                        assert forall|a: int| 0 <= a < order@.len() implies found[a] == (#[trigger] order@[a]).0 by {
                            assert(fb[a] == order@[a].0);
                        }
                        assert forall|a: int| 0 <= a < queue@.len() implies found[order@.len() + a] == (#[trigger] queue@[a]).0 by {
                            if a < qb.len() {
                                assert(queue@[a] == qb[a]);
                                assert(fb[order@.len() + a] == qb[a].0);
                            }
                        }
                        assert forall|x: i64| #[trigger] visited@.contains(x) <==> found.contains(x) by {
                            if x == neighbor {
                                assert(found[found.len() - 1] == x);
                            } else {
                                if found.contains(x) {
                                    let i = choose|i: int| 0 <= i < found.len() && found[i] == x;
                                    assert(fb[i] == x);
                                }
                                if fb.contains(x) {
                                    let i = choose|i: int| 0 <= i < fb.len() && fb[i] == x;
                                    assert(found[i] == x);
                                }
                            }
                        }
                        depth = depth.insert(neighbor, (d + 1) as nat);
                        assert(!v1.contains(neighbor));
                        assert(!listed(order@, neighbor));
                        assert(!listed(qb, neighbor));
                        assert forall|x: i64| #[trigger] listed(queue@, x) <==> listed(qb, x) || x == neighbor by {
                            if listed(queue@, x) {
                                let a = choose|a: int| 0 <= a < queue@.len() && (#[trigger] queue@[a]).0 == x;
                                if a < qb.len() {
                                    assert(qb[a] == queue@[a]);
                                }
                            }
                            if listed(qb, x) {
                                let a = choose|a: int| 0 <= a < qb.len() && (#[trigger] qb[a]).0 == x;
                                assert(queue@[a] == qb[a]);
                            }
                            if x == neighbor {
                                assert(queue@[queue@.len() - 1] == (neighbor, (d + 1) as usize));
                            }
                        }
                        assert forall|a: int, b: int|
                            0 <= a < b < queue@.len() implies queue@[a].0 != queue@[b].0 && queue@[a].1
                                <= queue@[b].1 by {
                            assert(queue@[a] == qb[a]);
                            if b < qb.len() {
                                assert(queue@[b] == qb[b]);
                            } else {
                                assert(listed(qb, qb[a].0));
                            }
                        }
                        assert forall|a: int| 0 <= a < queue@.len() implies d <= (#[trigger] queue@[a]).1
                            <= d + 1 by {
                            if a < qb.len() {
                                assert(queue@[a] == qb[a]);
                            }
                        }
                        assert forall|a: int|
                            0 <= a < queue@.len() implies !listed(order@, (#[trigger] queue@[a]).0)
                                && depth.contains_key(queue@[a].0) && depth[queue@[a].0] == queue@[a].1 by {
                            if a < qb.len() {
                                assert(queue@[a] == qb[a]);
                                assert(listed(qb, qb[a].0));
                                assert(v1.contains(qb[a].0));
                            }
                        }
                        assert forall|a: int|
                            0 <= a < order@.len() implies depth.contains_key((#[trigger] order@[a]).0)
                                && depth[order@[a].0] == order@[a].1 by {
                            assert(listed(order@, order@[a].0));
                            assert(v1.contains(order@[a].0));
                        }
                        assert forall|x: i64| #[trigger]
                            visited@.contains(x) implies depth.contains_key(x) && dist_is(
                                graph,
                                start,
                                x,
                                depth[x],
                            ) && depth[x] <= k by {
                            if x != neighbor {
                                assert(v1.contains(x));
                            }
                        }
                        assert(visited@.len() == v1.len() + 1);
                    }
                }
                proof {
                    let t1 = neighbors@.take(j + 1);
                    assert(t1.drop_last() =~= neighbors@.take(j as int));
                    assert(t1.last() == neighbor);
                    let fprev = fresh(neighbors@.take(j as int), found0);
                    let fb = found0 + fprev;
                    assert(v1.contains(neighbor) <==> found0.contains(neighbor) || fprev.contains(neighbor)) by {
                        assert(v1.contains(neighbor) <==> fb.contains(neighbor));
                        if fb.contains(neighbor) {
                            let i = choose|i: int| 0 <= i < fb.len() && fb[i] == neighbor;
                            if i < found0.len() {
                                assert(found0[i] == neighbor);
                            } else {
                                assert(fprev[i - found0.len()] == neighbor);
                            }
                        }
                        if found0.contains(neighbor) {
                            let i = choose|i: int| 0 <= i < found0.len() && found0[i] == neighbor;
                            assert(fb[i] == neighbor);
                        }
                        if fprev.contains(neighbor) {
                            let i = choose|i: int| 0 <= i < fprev.len() && fprev[i] == neighbor;
                            assert(fb[found0.len() + i] == neighbor);
                        }
                    }
                    if v1.contains(neighbor) {
                        assert(fresh(t1, found0) == fprev);
                    } else {
                        assert(fresh(t1, found0) == fprev.push(neighbor));
                        assert(found =~= found0 + fresh(t1, found0));
                    }
                }
                proof {
                    let sj = neighbors@.subrange(0, j as int);
                    let sj1 = neighbors@.subrange(0, j + 1);
                    assert(sj1 =~= sj.push(neighbor));
                    assert forall|y: i64| #[trigger] sj1.contains(y) implies visited@.contains(y) by {
                        let i = choose|i: int| 0 <= i < sj1.len() && sj1[i] == y;
                        if i < j {
                            assert(sj[i] == y);
                            assert(sj.contains(y));
                            assert(v1.contains(y));
                        }
                    }
                }
                j = j + 1;
            }
            proof {
                assert(neighbors@.subrange(0, neighbors@.len() as int) =~= neighbors@);
            }
        }
        proof {
            let ol = o0.len() as int;
            let blk = if expands_within(graph, start, node, k as nat) {
                fresh(graph.succs(node), found0)
            } else {
                Seq::<i64>::empty()
            };
            if d < k {
                lemma_within_mono(graph, start, node, d as nat, (k - 1) as nat);
                assert(expands_within(graph, start, node, k as nat));
                assert(found == found0 + blk);
            } else {
                if k > 0 && within(graph, start, node, (k - 1) as nat) {
                    lemma_within_mono(graph, start, node, (k - 1) as nat, (d - 1) as nat);
                }
                assert(!expands_within(graph, start, node, k as nat));
                assert(found =~= found0 + blk);
            }
            c = c0.push(found.len() as int);
            assert(c[0] == c0[0]);
            assert(found0.take(found0.len() as int) =~= found0);
            assert forall|n: int| 0 <= n <= found0.len() implies #[trigger] found.take(n) == found0.take(n) by {
                assert(found.take(n) =~= found0.take(n));
            }
            assert forall|i: int| 0 <= i < c.len() implies 1 <= #[trigger] c[i] <= found.len() by {
                if i < c0.len() {
                    assert(c[i] == c0[i]);
                }
            }
            assert forall|i: int| 0 <= i < order@.len() implies i < #[trigger] c[i] by {
                assert(c[i] == c0[i]);
                if i == ol {
                    assert(found0.len() == o0.len() + q0.len());
                }
            }
            assert forall|i: int| 0 <= i < order@.len() implies c[i] <= #[trigger] c[i + 1] by {
                assert(c[i] == c0[i]);
                if i < ol {
                    assert(c[i + 1] == c0[i + 1]);
                }
            }
            assert forall|i: int|
                0 <= i < order@.len() implies found.subrange(c[i], c[i + 1]) == if expands_within(
                    graph,
                    start,
                    #[trigger] found[i],
                    k as nat,
                ) {
                    fresh(graph.succs(found[i]), found.take(c[i]))
                } else {
                    Seq::<i64>::empty()
                } by {
                assert(c[i] == c0[i]);
                assert(1 <= c0[i] <= found0.len());
                assert(found[i] == found0[i]);
                if i < ol {
                    assert(c[i + 1] == c0[i + 1]);
                    assert(c0[i] <= c0[i + 1] <= found0.len());
                    assert(found.subrange(c[i], c[i + 1]) =~= found0.subrange(c[i], c[i + 1]));
                    assert(found.take(c[i]) == found0.take(c[i]));
                } else {
                    assert(found[i] == node);
                    assert(found.subrange(c[i], c[i + 1]) =~= blk);
                }
            }
            lemma_bounded_set(graph, start, visited@);
            // Every listed node now has all successors visited when nearer than `k`.
            assert forall|x: i64, y: i64|
                listed(order@, x) && depth[x] < k && #[trigger] graph.has_edge(x, y)
                    implies visited@.contains(y) by {
                if x == node {
                    assert(graph.succs(node).contains(y));
                } else {
                    assert(listed(o0, x));
                }
            }
            // The head of the queue bounds what has been taken.
            if queue@.len() > 0 {
                let h = queue@[0].1;
                assert(d <= h <= d + 1) by {
                    if q1.len() > 0 {
                        assert(queue@[0] == q1[0]);
                        assert(q1[0] == q0[1]);
                    }
                }
                if h > 0 {
                    assert forall|u: i64| #[trigger]
                        within(graph, start, u, (h - 1) as nat) implies listed(order@, u) by {
                        if h == d {
                            assert(listed(o0, u));
                        } else {
                            if d > 0 && within(graph, start, u, (d - 1) as nat) {
                                assert(listed(o0, u));
                            } else {
                                // `u` is exactly `d` away, so it was visited, and it is not queued.
                                assert(dist_is(graph, start, u, d as nat));
                                if u == start {
                                    assert(listed(order@, start)) by {
                                        assert(order@[0] == (start, 0usize));
                                    }
                                } else {
                                    assert(d > 0) by {
                                        if d == 0 {
                                            assert(within(graph, start, u, 0));
                                        }
                                    }
                                    let p = choose|p: i64| #[trigger]
                                        graph.has_edge(p, u) && within(graph, start, p, (d - 1) as nat);
                                    assert(listed(o0, p));
                                    let a = choose|a: int| 0 <= a < o0.len() && (#[trigger] o0[a]).0 == p;
                                    assert(order@[a] == o0[a]);
                                    assert(listed(order@, p));
                                    assert(visited@.contains(p));
                                    lemma_dist_le(graph, start, p, depth[p], (d - 1) as nat);
                                    assert(listed(queue@, queue@[0].0));
                                    assert(visited@.contains(queue@[0].0));
                                    assert(h <= k);
                                    assert(depth[p] < k);
                                    assert(visited@.contains(u));
                                    lemma_dist_unique(graph, start, u, depth[u], d as nat);
                                    if listed(queue@, u) {
                                        let a = choose|a: int| 0 <= a < queue@.len() && (#[trigger] queue@[a]).0 == u;
                                        assert(queue@[a].1 >= queue@[0].1) by {
                                            if a > 0 {
                                            }
                                        }
                                    }
                                }
                            }
                        }
                    }
                }
            }
        }
    }
    proof {
        assert forall|x: i64| listed(order@, x) <==> within(graph, start, x, k as nat) by {
            if listed(order@, x) {
                let a = choose|a: int| 0 <= a < order@.len() && (#[trigger] order@[a]).0 == x;
                assert(visited@.contains(x));
                lemma_within_mono(graph, start, x, depth[x], k as nat);
            }
            if within(graph, start, x, k as nat) {
                let set = Set::new(|y: i64| listed(order@, y));
                assert(set.contains(start)) by {
                    assert(order@[0] == (start, 0usize));
                }
                assert forall|y: i64| #[trigger]
                    set.contains(y) implies depth.contains_key(y) && dist_is(graph, start, y, depth[y]) by {
                    assert(visited@.contains(y));
                }
                lemma_level_closed(graph, start, k as nat, set, depth, x, k as nat);
            }
        }
        assert forall|a: int|
            0 <= a < order@.len() implies dist_is(graph, start, (#[trigger] order@[a]).0, order@[a].1 as nat)
                && order@[a].1 <= k by {
            assert(listed(order@, order@[a].0));
            assert(visited@.contains(order@[a].0));
        }
    }
    proof {
        assert(found =~= level_nodes(order@));
        assert(seq![start] + level_nodes(order@).drop_first() =~= found);
        assert(bfs_run_within(graph, start, k as nat, level_nodes(order@).drop_first(), c));
    }
    order
}

/// The nodes within `k` edges of `start` (the start node itself left out), each once,
/// in breadth-first order: no node comes before one that is nearer to `start`, and the
/// order is that in which a breadth-first search expanding the nodes nearer than `k`
/// finds them (see `bfs_run_within`).
pub fn k_hop_neighbors(graph: &Graph, start: i64, k: usize) -> (r: Result<Vec<i64>, SqliteGraphError>)
    requires
        graph.wf(),
    ensures
        match r {
            Ok(v) => {
                &&& v@.no_duplicates()
                &&& forall|x: i64| v@.contains(x) <==> x != start && within(graph, start, x, k as nat)
                &&& forall|a: int, b: int, da: nat, db: nat|
                    0 <= a < b < v@.len() && #[trigger] dist_is(graph, start, v@[a], da)
                        && #[trigger] dist_is(graph, start, v@[b], db) ==> da <= db
                &&& exists|c: Seq<int>| #[trigger] bfs_run_within(graph, start, k as nat, v@, c)
            },
            Err(_) => false,
        },
{
    let levels = bfs_levels(graph, start, k);
    let mut result: Vec<i64> = Vec::new();
    let mut i: usize = 1;
    while i < levels.len()
        invariant
            1 <= i <= levels@.len(),
            result@.len() == i - 1,
            forall|a: int| 0 <= a < result@.len() ==> #[trigger] result@[a] == levels@[a + 1].0,
        decreases levels.len() - i,
    {
        result.push(levels[i].0);
        i = i + 1;
    }
    proof {
        assert forall|a: int, b: int| 0 <= a < b < result@.len() implies result@[a] != result@[b] by {
            assert(result@[a] == levels@[a + 1].0);
            assert(result@[b] == levels@[b + 1].0);
        }
        assert forall|x: i64| result@.contains(x) <==> x != start && within(graph, start, x, k as nat) by {
            if result@.contains(x) {
                let a = choose|a: int| 0 <= a < result@.len() && result@[a] == x;
                assert(levels@[a + 1].0 == x);
                assert(listed(levels@, x));
                assert(levels@[0].0 != levels@[a + 1].0);
            }
            if x != start && within(graph, start, x, k as nat) {
                assert(listed(levels@, x));
                let a = choose|a: int| 0 <= a < levels@.len() && (#[trigger] levels@[a]).0 == x;
                assert(a != 0);
                assert(result@[a - 1] == x);
            }
        }
        assert forall|a: int, b: int, da: nat, db: nat|
            0 <= a < b < result@.len() && #[trigger] dist_is(graph, start, result@[a], da)
                && #[trigger] dist_is(graph, start, result@[b], db) implies da <= db by {
            assert(result@[a] == levels@[a + 1].0);
            assert(result@[b] == levels@[b + 1].0);
            assert(dist_is(graph, start, levels@[a + 1].0, levels@[a + 1].1 as nat));
            assert(dist_is(graph, start, levels@[b + 1].0, levels@[b + 1].1 as nat));
            lemma_dist_unique(graph, start, result@[a], da, levels@[a + 1].1 as nat);
            lemma_dist_unique(graph, start, result@[b], db, levels@[b + 1].1 as nat);
        }
    }
    proof {
        assert(result@ =~= level_nodes(levels@).drop_first());
    }
    Ok(result)
}

} // verus!
