//! Whole-graph operations: nodes at an exact depth, shortest paths, topological order
//! and strongly connected components.
use std::collections::{HashSet, VecDeque};

use vstd::prelude::*;

use crate::error::SqliteGraphError;
use crate::graph::{node_ids, Graph};
use crate::hashing::{
    count_map_get, count_map_insert, count_map_new, count_map_view, id_map_get, id_map_insert,
    id_map_new, id_map_view, CountMap, IdMap,
};
use crate::reach::{
    dist_is, is_path, lemma_bounded_set, lemma_closed_holds_reachable, lemma_dist_le,
    lemma_dist_unique, lemma_distinct_nodes, lemma_reaches_prepend, lemma_reaches_refl, lemma_reaches_step, lemma_reaches_trans,
    lemma_within_mono, lemma_within_step, reaches, within,
};
use crate::traversal::{bfs_levels, listed};

verus! {

broadcast use vstd::std_specs::hash::group_hash_axioms;

/// The nodes whose shortest distance from `start` is exactly `depth` edges, each once,
/// in breadth-first order (the start node itself is left out).
pub fn bfs(graph: &Graph, start: i64, depth: u32) -> (r: Result<Vec<i64>, SqliteGraphError>)
    requires
        graph.wf(),
    ensures
        match r {
            Ok(v) => {
                &&& v@.no_duplicates()
                &&& forall|x: i64| v@.contains(x) <==> x != start && dist_is(graph, start, x, depth as nat)
            },
            Err(_) => false,
        },
{
    let k = depth as usize;
    let levels = bfs_levels(graph, start, k);
    let mut result: Vec<i64> = Vec::new();
    let ghost mut src: Seq<int> = Seq::empty();
    let mut i: usize = 0;
    while i < levels.len()
        invariant
            i <= levels@.len(),
            k == depth,
            forall|a: int, b: int| 0 <= a < b < levels@.len() ==> levels@[a].0 != levels@[b].0,
            src.len() == result@.len(),
            forall|a: int|
                0 <= a < result@.len() ==> 0 <= #[trigger] src[a] < i && levels@[src[a]].0 == result@[a]
                    && levels@[src[a]].1 == k && result@[a] != start,
            forall|b: int|
                0 <= b < i && (#[trigger] levels@[b]).1 == k && levels@[b].0 != start
                    ==> result@.contains(levels@[b].0),
            result@.no_duplicates(),
        decreases levels.len() - i,
    {
        let (x, d) = levels[i];
        let ghost r0 = result@;
        let ghost s0 = src;
        if d == k && x != start {
            result.push(x);
            proof {
                src = src.push(i as int);
                assert forall|a: int, b: int| 0 <= a < b < result@.len() implies result@[a]
                    != result@[b] by {
                    if b == result@.len() - 1 {
                        assert(r0[a] == result@[a]);
                        assert(levels@[s0[a]].0 != levels@[i as int].0);
                    }
                }
                assert forall|b: int|
                    0 <= b < i + 1 && (#[trigger] levels@[b]).1 == k && levels@[b].0 != start
                        implies result@.contains(levels@[b].0) by {
                    if b < i {
                        let c = choose|c: int| 0 <= c < r0.len() && r0[c] == levels@[b].0;
                        assert(result@[c] == r0[c]);
                    } else {
                        assert(result@[result@.len() - 1] == x);
                    }
                }
            }
        }
        i = i + 1;
    }
    proof {
        assert forall|x: i64| result@.contains(x) <==> x != start && dist_is(graph, start, x, depth as nat) by {
            if result@.contains(x) {
                let a = choose|a: int| 0 <= a < result@.len() && result@[a] == x;
                let b = src[a];
                assert(dist_is(graph, start, levels@[b].0, levels@[b].1 as nat));
            }
            if x != start && dist_is(graph, start, x, depth as nat) {
                assert(listed(levels@, x));
                let b = choose|b: int| 0 <= b < levels@.len() && (#[trigger] levels@[b]).0 == x;
                assert(dist_is(graph, start, levels@[b].0, levels@[b].1 as nat));
                lemma_dist_unique(graph, start, x, levels@[b].1 as nat, depth as nat);
            }
        }
    }
    Ok(result)
}

/// Follows the recorded predecessors back from `end` until a node without one (which
/// must be `start`), and returns the walk so found from `start` to `end`.
fn trace_path(graph: &Graph, preds: &IdMap, start: i64, end: i64, Ghost(depth): Ghost<Map<i64, nat>>) -> (p: Vec<i64>)
    requires
        depth.contains_key(end),
        depth.contains_key(start) && depth[start] == 0,
        forall|x: i64| #[trigger]
            id_map_view(*preds).contains_key(x) ==> depth.contains_key(x) && depth.contains_key(
                id_map_view(*preds)[x],
            ) && depth[x] == depth[id_map_view(*preds)[x]] + 1 && graph.has_edge(
                id_map_view(*preds)[x],
                x,
            ),
        forall|x: i64| #[trigger] depth.contains_key(x) && !id_map_view(*preds).contains_key(x) ==> x == start,
    ensures
        is_path(graph, p@, start, end),
        p@.len() == depth[end] + 1,
{
    let ghost pm = id_map_view(*preds);
    let mut back: Vec<i64> = Vec::new();
    back.push(end);
    let mut current = end;
    loop
        invariant
            pm == id_map_view(*preds),
            depth.contains_key(end),
            depth.contains_key(start) && depth[start] == 0,
            forall|x: i64| #[trigger] depth.contains_key(x) && !pm.contains_key(x) ==> x == start,
            forall|x: i64| #[trigger]
                pm.contains_key(x) ==> depth.contains_key(x) && depth.contains_key(pm[x]) && depth[x]
                    == depth[pm[x]] + 1 && graph.has_edge(pm[x], x),
            back@.len() > 0,
            back@[0] == end,
            back@[back@.len() - 1] == current,
            depth.contains_key(current),
            back@.len() + depth[current] == depth[end] + 1,
            forall|i: int, j: int|
                0 <= i && j == i + 1 && j < back@.len() ==> graph.has_edge(#[trigger] back@[j], #[trigger] back@[i]),
        ensures
            back@.len() > 0,
            back@[0] == end,
            back@[back@.len() - 1] == current,
            depth.contains_key(current),
            !pm.contains_key(current),
            back@.len() + depth[current] == depth[end] + 1,
            forall|i: int, j: int|
                0 <= i && j == i + 1 && j < back@.len() ==> graph.has_edge(#[trigger] back@[j], #[trigger] back@[i]),
        decreases depth[current],
    {
        match id_map_get(preds, current) {
            Some(p) => {
                let ghost b0 = back@;
                back.push(p);
                proof {
                    assert forall|i: int, j: int|
                        0 <= i && j == i + 1 && j < back@.len() implies graph.has_edge(
                            #[trigger] back@[j],
                            #[trigger] back@[i],
                        ) by {
                        if j < b0.len() {
                            assert(back@[j] == b0[j]);
                            assert(back@[i] == b0[i]);
                        } else {
                            assert(back@[i] == current);
                        }
                    }
                }
                current = p;
            },
            None => {
                break;
            },
        }
    }
    let ghost bl = back@.len();
    let mut path: Vec<i64> = Vec::new();
    let mut i: usize = back.len();
    while i > 0
        invariant
            i <= back@.len(),
            bl == back@.len(),
            path@.len() == bl - i,
            forall|a: int| 0 <= a < path@.len() ==> #[trigger] path@[a] == back@[bl - 1 - a],
        decreases i,
    {
        i = i - 1;
        path.push(back[i]);
    }
    proof {
        assert(current == start);
        assert(path@[0] == back@[bl - 1]);
        assert(path@[path@.len() - 1] == back@[0]);
        assert forall|i: int, j: int|
            0 <= i && j == i + 1 && j < path@.len() implies graph.has_edge(#[trigger] path@[i], #[trigger] path@[j]) by {
            let bi = bl - 1 - j;
            let bj = bl - 1 - i;
            assert(path@[i] == back@[bj]);
            assert(path@[j] == back@[bi]);
            assert(graph.has_edge(back@[bj], back@[bi]));
        }
    }
    path
}

/// A shortest path from `start` to `end`, both included, found by breadth-first
/// search; `None` when `end` cannot be reached.
pub fn shortest_path(graph: &Graph, start: i64, end: i64) -> (r: Result<Option<Vec<i64>>, SqliteGraphError>)
    requires
        graph.wf(),
    ensures
        match r {
            Ok(Some(p)) => is_path(graph, p@, start, end) && dist_is(graph, start, end, (p@.len() - 1) as nat),
            Ok(None) => !reaches(graph, start, end),
            Err(_) => false,
        },
{
    if start == end {
        let mut p: Vec<i64> = Vec::new();
        p.push(start);
        proof {
            assert(within(graph, start, start, 0));
        }
        return Ok(Some(p));
    }
    let mut visited: HashSet<i64> = HashSet::new();
    let mut predecessors: IdMap = id_map_new();
    let mut queue: VecDeque<i64> = VecDeque::new();
    let ghost mut depth: Map<i64, nat> = Map::empty().insert(start, 0nat);
    let ghost mut order: Seq<i64> = Seq::empty();
    visited.insert(start);
    queue.push_back(start);
    proof {
        graph.lemma_wf();
        assert(queue@[0] == start);
        assert(queue@.contains(start));
        assert(dist_is(graph, start, start, 0));
        assert(queue@ =~= seq![start]);
    }
    while queue.len() > 0
        invariant
            graph.wf(),
            start != end,
            visited@.contains(start),
            !visited@.contains(end),
            depth.contains_key(start) && depth[start] == 0,
            forall|x: i64| #[trigger] visited@.contains(x) ==> graph.is_node(x) || x == start,
            forall|x: i64| #[trigger] depth.contains_key(x) ==> visited@.contains(x),
            forall|x: i64| #[trigger] visited@.contains(x) <==> order.contains(x) || queue@.contains(x),
            forall|a: int|
                0 <= a < queue@.len() ==> !order.contains(#[trigger] queue@[a]) && depth.contains_key(queue@[a]),
            forall|a: int, b: int|
                0 <= a < b < queue@.len() ==> queue@[a] != queue@[b] && depth[queue@[a]] <= depth[queue@[b]],
            forall|a: int| 0 <= a < queue@.len() ==> depth[#[trigger] queue@[a]] <= depth[queue@[0]] + 1,
            forall|x: i64| #[trigger]
                visited@.contains(x) ==> depth.contains_key(x) && dist_is(graph, start, x, depth[x]),
            forall|x: i64, y: i64| order.contains(x) && #[trigger] graph.has_edge(x, y) ==> visited@.contains(y),
            queue@.len() > 0 && depth[queue@[0]] > 0 ==> forall|u: i64| #[trigger]
                within(graph, start, u, (depth[queue@[0]] - 1) as nat) ==> order.contains(u),
            order.len() == 0 ==> queue@ == seq![start],
            order.len() > 0 ==> order[0] == start,
            forall|x: i64| #[trigger]
                id_map_view(predecessors).contains_key(x) <==> visited@.contains(x) && x != start,
            forall|x: i64| #[trigger]
                id_map_view(predecessors).contains_key(x) ==> visited@.contains(id_map_view(predecessors)[x])
                    && graph.has_edge(id_map_view(predecessors)[x], x) && depth[x] == depth[id_map_view(
                    predecessors,
                )[x]] + 1,
        decreases graph.node_count() + 1 - visited@.len() + queue@.len(),
    {
        proof {
            lemma_bounded_set(graph, start, visited@);
        }
        let ghost q0 = queue@;
        let ghost o0 = order;
        let ghost vis0 = visited@;
        let node = queue.pop_front().unwrap();
        let ghost q1 = queue@;
        let ghost d: nat = depth[node];
        proof {
            assert(q0[0] == node);
            assert(q0.contains(node));
            assert(!o0.contains(node));
            assert(vis0.contains(node));
            assert(dist_is(graph, start, node, d));
            assert forall|x: i64| #[trigger] q1.contains(x) <==> q0.contains(x) && x != node by {
                if q1.contains(x) {
                    let a = choose|a: int| 0 <= a < q1.len() && q1[a] == x;
                    assert(q0[a + 1] == q1[a]);
                }
                if q0.contains(x) && x != node {
                    let a = choose|a: int| 0 <= a < q0.len() && q0[a] == x;
                    assert(a != 0);
                    assert(q1[a - 1] == q0[a]);
                }
            }
            order = order.push(node);
            assert forall|x: i64| #[trigger] order.contains(x) <==> o0.contains(x) || x == node by {
                if order.contains(x) {
                    let a = choose|a: int| 0 <= a < order.len() && order[a] == x;
                    if a < o0.len() {
                        assert(o0[a] == order[a]);
                    }
                }
                if o0.contains(x) {
                    let a = choose|a: int| 0 <= a < o0.len() && o0[a] == x;
                    assert(order[a] == o0[a]);
                }
                if x == node {
                    assert(order[order.len() - 1] == node);
                }
            }
        }
        let neighbors = graph.fetch_outgoing(node)?;
        let mut j: usize = 0;
        while j < neighbors.len()
            invariant
                graph.wf(),
                start != end,
                neighbors@ == graph.succs(node),
                j <= neighbors@.len(),
                q0.len() > 0,
                q0[0] == node,
                vis0.contains(node),
                depth.contains_key(node) && depth[node] == d,
                dist_is(graph, start, node, d),
                order == o0.push(node),
                forall|x: i64| #[trigger] order.contains(x) <==> o0.contains(x) || x == node,
                q1.len() <= queue@.len(),
                forall|a: int| 0 <= a < q1.len() ==> #[trigger] queue@[a] == q1[a],
                forall|x: i64| #[trigger] vis0.contains(x) ==> visited@.contains(x),
                visited@.contains(start),
                !visited@.contains(end),
                depth.contains_key(start) && depth[start] == 0,
                forall|x: i64| #[trigger] visited@.contains(x) ==> graph.is_node(x) || x == start,
                forall|x: i64| #[trigger] depth.contains_key(x) ==> visited@.contains(x),
                forall|x: i64| #[trigger] visited@.contains(x) <==> order.contains(x) || queue@.contains(x),
                forall|a: int|
                    0 <= a < queue@.len() ==> !order.contains(#[trigger] queue@[a]) && depth.contains_key(
                        queue@[a],
                    ),
                forall|a: int, b: int|
                    0 <= a < b < queue@.len() ==> queue@[a] != queue@[b] && depth[queue@[a]] <= depth[queue@[b]],
                forall|a: int| 0 <= a < queue@.len() ==> d <= depth[#[trigger] queue@[a]] <= d + 1,
                forall|x: i64| #[trigger]
                    visited@.contains(x) ==> depth.contains_key(x) && dist_is(graph, start, x, depth[x]),
                forall|x: i64, y: i64| o0.contains(x) && #[trigger] graph.has_edge(x, y) ==> vis0.contains(y),
                d > 0 ==> forall|u: i64| #[trigger] within(graph, start, u, (d - 1) as nat) ==> o0.contains(u),
                forall|y: i64| #[trigger] neighbors@.subrange(0, j as int).contains(y) ==> visited@.contains(y),
                order.len() > 0 && order[0] == start,
                visited@.len() + q1.len() == vis0.len() + queue@.len(),
                vis0.finite(),
                forall|x: i64| #[trigger]
                    id_map_view(predecessors).contains_key(x) <==> visited@.contains(x) && x != start,
                forall|x: i64| #[trigger]
                    id_map_view(predecessors).contains_key(x) ==> visited@.contains(id_map_view(predecessors)[x])
                        && graph.has_edge(id_map_view(predecessors)[x], x) && depth[x] == depth[id_map_view(
                        predecessors,
                    )[x]] + 1,
            decreases neighbors.len() - j,
        {
            let neighbor = neighbors[j];
            proof {
                graph.lemma_wf();
                assert(graph.succs(node).contains(neighbor));
                lemma_bounded_set(graph, start, visited@);
            }
            let ghost v1 = visited@;
            let ghost qb = queue@;
            let ghost pm0 = id_map_view(predecessors);
            if visited.insert(neighbor) {
                proof {
                    // The neighbor is exactly one step further than `node`.
                    lemma_within_step(graph, start, node, neighbor, d);
                    if within(graph, start, neighbor, d) {
                        if d == 0 {
                            assert(neighbor == start);
                        } else {
                            assert(neighbor != start);
                            let u = choose|u: i64| #[trigger]
                                graph.has_edge(u, neighbor) && within(graph, start, u, (d - 1) as nat);
                            assert(o0.contains(u));
                            assert(vis0.contains(neighbor));
                        }
                    }
                    assert(dist_is(graph, start, neighbor, d + 1));
                }
                id_map_insert(&mut predecessors, neighbor, node);
                proof {
                    depth = depth.insert(neighbor, d + 1);
                    assert(!v1.contains(neighbor));
                    assert forall|x: i64| #[trigger]
                        id_map_view(predecessors).contains_key(x) implies depth.contains_key(x)
                            && depth.contains_key(id_map_view(predecessors)[x]) && depth[x]
                            == depth[id_map_view(predecessors)[x]] + 1 && graph.has_edge(
                            id_map_view(predecessors)[x],
                            x,
                        ) by {
                        if x != neighbor {
                            assert(pm0.contains_key(x));
                            assert(v1.contains(x));
                            assert(v1.contains(pm0[x]));
                        }
                    }
                    assert forall|x: i64| #[trigger]
                        depth.contains_key(x) && !id_map_view(predecessors).contains_key(x) implies x == start by {
                        if x != start && x != neighbor {
                            if !v1.contains(x) {
                                // Only visited nodes have depths that matter here.
                            }
                        }
                    }
                }
                if neighbor == end {
                    let path = trace_path(graph, &predecessors, start, end, Ghost(depth));
                    return Ok(Some(path));
                }
                queue.push_back(neighbor);
                proof {
                    assert forall|x: i64| #[trigger] queue@.contains(x) <==> qb.contains(x) || x == neighbor by {
                        if queue@.contains(x) {
                            let a = choose|a: int| 0 <= a < queue@.len() && queue@[a] == x;
                            if a < qb.len() {
                                assert(qb[a] == queue@[a]);
                            }
                        }
                        if qb.contains(x) {
                            let a = choose|a: int| 0 <= a < qb.len() && qb[a] == x;
                            assert(queue@[a] == qb[a]);
                        }
                        if x == neighbor {
                            assert(queue@[queue@.len() - 1] == neighbor);
                        }
                    }
                    assert(!order.contains(neighbor));
                    assert forall|a: int, b: int|
                        0 <= a < b < queue@.len() implies queue@[a] != queue@[b] && depth[queue@[a]]
                            <= depth[queue@[b]] by {
                        assert(queue@[a] == qb[a]);
                        if b < qb.len() {
                            assert(queue@[b] == qb[b]);
                        } else {
                            assert(qb.contains(qb[a]));
                        }
                    }
                    assert forall|a: int| 0 <= a < queue@.len() implies d <= depth[#[trigger] queue@[a]]
                        <= d + 1 by {
                        if a < qb.len() {
                            assert(queue@[a] == qb[a]);
                        }
                    }
                    assert forall|a: int|
                        0 <= a < queue@.len() implies !order.contains(#[trigger] queue@[a])
                            && depth.contains_key(queue@[a]) by {
                        if a < qb.len() {
                            assert(queue@[a] == qb[a]);
                            assert(qb.contains(qb[a]));
                            assert(v1.contains(qb[a]));
                        }
                    }
                    assert forall|x: i64| #[trigger]
                        visited@.contains(x) implies depth.contains_key(x) && dist_is(graph, start, x, depth[x]) by {
                        if x != neighbor {
                            assert(v1.contains(x));
                        }
                    }
                    assert forall|x: i64| #[trigger]
                        id_map_view(predecessors).contains_key(x) implies visited@.contains(
                            id_map_view(predecessors)[x],
                        ) && graph.has_edge(id_map_view(predecessors)[x], x) && depth[x]
                            == depth[id_map_view(predecessors)[x]] + 1 by {
                        if x != neighbor {
                            assert(pm0.contains_key(x));
                            assert(v1.contains(x));
                        }
                    }
                    assert(visited@.len() == v1.len() + 1);
                }
            }
            proof {
                let sj = neighbors@.subrange(0, j as int);
                let sj1 = neighbors@.subrange(0, j + 1);
                assert(sj1 =~= sj.push(neighbor));
                assert forall|y: i64| #[trigger] sj1.contains(y) implies visited@.contains(y) by {
                    let i = choose|i: int| 0 <= i < sj1.len() && sj1[i] == y;
                    if i < j {
                        assert(sj[i] == y);
                        assert(sj.contains(y));
                        assert(v1.contains(y));
                    }
                }
            }
            j = j + 1;
        }
        proof {
            assert(neighbors@.subrange(0, neighbors@.len() as int) =~= neighbors@);
            lemma_bounded_set(graph, start, visited@);
            assert forall|x: i64, y: i64|
                order.contains(x) && #[trigger] graph.has_edge(x, y) implies visited@.contains(y) by {
                if x == node {
                    assert(graph.succs(node).contains(y));
                } else {
                    assert(o0.contains(x));
                }
            }
            if queue@.len() > 0 {
                let h = depth[queue@[0]];
                assert(d <= h <= d + 1);
                if h > 0 {
                    assert forall|u: i64| #[trigger]
                        within(graph, start, u, (h - 1) as nat) implies order.contains(u) by {
                        if h == d {
                            assert(o0.contains(u));
                        } else if d > 0 && within(graph, start, u, (d - 1) as nat) {
                            assert(o0.contains(u));
                        } else if u == start {
                            assert(order[0] == start);
                        } else {
                            assert(d > 0) by {
                                if d == 0 {
                                    assert(within(graph, start, u, 0));
                                }
                            }
                            assert(dist_is(graph, start, u, d));
                            let p = choose|p: i64| #[trigger]
                                graph.has_edge(p, u) && within(graph, start, p, (d - 1) as nat);
                            assert(o0.contains(p));
                            assert(order.contains(p));
                            assert(visited@.contains(u));
                            lemma_dist_unique(graph, start, u, depth[u], d);
                            if queue@.contains(u) {
                                let a = choose|a: int| 0 <= a < queue@.len() && queue@[a] == u;
                                assert(depth[queue@[a]] >= depth[queue@[0]]) by {
                                    if a > 0 {
                                    }
                                }
                            }
                        }
                    }
                }
            }
        }
    }
    proof {
        assert forall|x: i64, y: i64| visited@.contains(x) && #[trigger] graph.has_edge(x, y) implies visited@.contains(y) by {
            assert(order.contains(x));
        }
        if reaches(graph, start, end) {
            let k = choose|k: nat| #[trigger] within(graph, start, end, k);
            lemma_closed_holds_reachable(graph, start, visited@, end, k);
        }
    }
    Ok(None)
}

/// `order` lists every node of the graph once, and every edge goes from a node to one
/// that comes later in `order`.
pub open spec fn is_topological_order(g: &Graph, order: Seq<i64>) -> bool {
    &&& order.no_duplicates()
    &&& forall|x: i64| #[trigger] order.contains(x) <==> g.is_node(x)
    &&& forall|a: int, b: int|
        0 <= a < order.len() && 0 <= b < order.len() && g.has_edge(#[trigger] order[a], #[trigger] order[b])
            ==> a < b
}

/// The number of edges in `edges` that enter `v` from a node outside `done`.
pub open spec fn pending_in(edges: Seq<(i64, i64)>, v: i64, done: Set<i64>) -> nat
    decreases edges.len(),
{
    if edges.len() == 0 {
        0
    } else {
        pending_in(edges.drop_last(), v, done) + (if edges.last().1 == v && !done.contains(
            edges.last().0,
        ) {
            1nat
        } else {
            0nat
        })
    }
}

/// The number of times `v` occurs in `s`.
pub open spec fn occurrences(s: Seq<i64>, v: i64) -> nat
    decreases s.len(),
{
    if s.len() == 0 {
        0
    } else {
        occurrences(s.drop_last(), v) + (if s.last() == v {
            1nat
        } else {
            0nat
        })
    }
}

/// With nothing done, every edge that enters `v` is pending.
proof fn lemma_pending_none(edges: Seq<(i64, i64)>, v: i64)
    ensures
        pending_in(edges, v, Set::empty()) == crate::graph::in_of(edges, v).len(),
    decreases edges.len(),
{
    if edges.len() > 0 {
        lemma_pending_none(edges.drop_last(), v);
    }
}

/// Marking `u` done settles exactly the edges that leave `u`.
proof fn lemma_pending_done(edges: Seq<(i64, i64)>, v: i64, done: Set<i64>, u: i64)
    requires
        !done.contains(u),
    ensures
        pending_in(edges, v, done.insert(u)) + occurrences(crate::graph::out_of(edges, u), v)
            == pending_in(edges, v, done),
    decreases edges.len(),
{
    if edges.len() > 0 {
        let pre = edges.drop_last();
        lemma_pending_done(pre, v, done, u);
        let o = crate::graph::out_of(edges, u);
        if edges.last().0 == u {
            assert(o.drop_last() =~= crate::graph::out_of(pre, u));
        }
    }
}

/// Counting one more item of a sequence.
proof fn lemma_occurrences_step(s: Seq<i64>, j: int, v: i64)
    requires
        0 <= j < s.len(),
    ensures
        occurrences(s.subrange(0, j + 1), v) == occurrences(s.subrange(0, j), v) + (if s[j] == v {
            1nat
        } else {
            0nat
        }),
{
    assert(s.subrange(0, j + 1).drop_last() =~= s.subrange(0, j));
}

/// A prefix holds no more occurrences than the whole sequence.
proof fn lemma_occurrences_prefix(s: Seq<i64>, j: int, v: i64)
    requires
        0 <= j <= s.len(),
    ensures
        occurrences(s.subrange(0, j), v) <= occurrences(s, v),
    decreases s.len() - j,
{
    if j == s.len() {
        assert(s.subrange(0, j) =~= s);
    } else {
        lemma_occurrences_step(s, j, v);
        lemma_occurrences_prefix(s, j + 1, v);
    }
}

/// A pending edge into `v` comes from a node outside `done`.
proof fn lemma_pending_source(edges: Seq<(i64, i64)>, v: i64, done: Set<i64>)
    requires
        pending_in(edges, v, done) > 0,
    ensures
        exists|k: int| 0 <= k < edges.len() && (#[trigger] edges[k]).1 == v && !done.contains(edges[k].0),
    decreases edges.len(),
{
    let pre = edges.drop_last();
    if pending_in(pre, v, done) > 0 {
        lemma_pending_source(pre, v, done);
        let k = choose|k: int| 0 <= k < pre.len() && (#[trigger] pre[k]).1 == v && !done.contains(pre[k].0);
        assert(edges[k] == pre[k]);
    } else {
        assert(edges[edges.len() - 1] == edges.last());
    }
}

/// With no edge pending into `v`, every edge that enters `v` leaves a node in `done`.
proof fn lemma_pending_zero(edges: Seq<(i64, i64)>, v: i64, done: Set<i64>, w: i64)
    requires
        pending_in(edges, v, done) == 0,
        crate::graph::out_of(edges, w).contains(v),
    ensures
        done.contains(w),
{
    crate::graph::lemma_out_of_contains(edges, w, v);
    let k = choose|k: int| 0 <= k < edges.len() && edges[k] == (w, v);
    lemma_pending_zero_at(edges, v, done, k);
}

proof fn lemma_pending_zero_at(edges: Seq<(i64, i64)>, v: i64, done: Set<i64>, k: int)
    requires
        pending_in(edges, v, done) == 0,
        0 <= k < edges.len(),
        edges[k].1 == v,
    ensures
        done.contains(edges[k].0),
    decreases edges.len(),
{
    if k < edges.len() - 1 {
        let pre = edges.drop_last();
        assert(pre[k] == edges[k]);
        lemma_pending_zero_at(pre, v, done, k);
    }
}

/// No topological order exists when some set of nodes gives each of its members an
/// edge from another member.
proof fn lemma_no_topological_order(g: &Graph, o: Seq<i64>, rest: Set<i64>, a: int)
    requires
        0 <= a < o.len(),
        rest.contains(o[a]),
        forall|v: i64| #[trigger] rest.contains(v) ==> exists|w: i64| rest.contains(w) && #[trigger] g.has_edge(w, v),
        g.wf(),
    ensures
        !is_topological_order(g, o),
    decreases a,
{
    if is_topological_order(g, o) {
        let v = o[a];
        let w = choose|w: i64| rest.contains(w) && #[trigger] g.has_edge(w, v);
        g.lemma_wf();
        assert(g.is_node(w));
        assert(o.contains(w));
        let b = choose|b: int| 0 <= b < o.len() && o[b] == w;
        assert(g.has_edge(o[b], o[a]));
        lemma_no_topological_order(g, o, rest, b);
    }
}

/// The value that the map records for a node, or zero where it records none.
fn stored_value(m: &CountMap, v: i64) -> (d: usize)
    ensures
        count_map_view(*m).contains_key(v) ==> d == count_map_view(*m)[v],
{
    match count_map_get(m, v) {
        Some(d) => d,
        None => 0,
    }
}

/// The targets in `s` (among its first `j`) at which the edges of `s` met so far into a
/// node number all its incoming edges from nodes outside `done`: each such node once, at
/// the last of those edges, in the order of `s`.
pub open spec fn kahn_block(edges: Seq<(i64, i64)>, s: Seq<i64>, done: Set<i64>, j: int) -> Seq<i64>
    decreases j,
{
    if j <= 0 {
        Seq::empty()
    } else {
        let b = kahn_block(edges, s, done, j - 1);
        if occurrences(s.subrange(0, j), s[j - 1]) == pending_in(edges, s[j - 1], done) {
            b.push(s[j - 1])
        } else {
            b
        }
    }
}

/// The nodes among the ids `1..=j` that no edge enters, in increasing order.
pub open spec fn kahn_sources(edges: Seq<(i64, i64)>, j: int) -> Seq<i64>
    decreases j,
{
    if j <= 0 {
        Seq::empty()
    } else {
        let b = kahn_sources(edges, j - 1);
        if pending_in(edges, j as i64, Set::empty()) == 0 {
            b.push(j as i64)
        } else {
            b
        }
    }
}

/// `r` is the order of Kahn's algorithm on `g`, when `c[k]` is how many nodes had become
/// ready when the `k`-th was taken: first the nodes that no edge enters, by increasing
/// id; then, as each node of `r` is taken in turn, the targets of its edges that have no
/// other incoming edge left from nodes not yet taken, in the order of its edges; nodes
/// are taken in the order they became ready.
pub open spec fn kahn_run(g: &Graph, r: Seq<i64>, c: Seq<int>) -> bool {
    let edges = g.edge_list();
    let srcs = kahn_sources(edges, g.node_count() as int);
    &&& c.len() == r.len() + 1
    &&& c[0] == srcs.len()
    &&& c[0] <= r.len()
    &&& r.take(c[0]) == srcs
    &&& c[r.len() as int] == r.len()
    &&& forall|i: int| 0 <= i < c.len() ==> c[0] <= #[trigger] c[i] <= r.len()
    &&& forall|k: int| 0 <= k < r.len() ==> k < #[trigger] c[k]
    &&& forall|k: int| 0 <= k < r.len() ==> c[k] <= #[trigger] c[k + 1]
    &&& forall|k: int|
        0 <= k < r.len() ==> r.subrange(c[k], c[k + 1]) == kahn_block(
            edges,
            g.succs(#[trigger] r[k]),
            r.take(k).to_set(),
            g.succs(r[k]).len() as int,
        )
}

/// Kahn's algorithm gives one order only: two runs on the same graph take the same nodes
/// in the same order.
pub proof fn lemma_kahn_run_unique(g: &Graph, r1: Seq<i64>, c1: Seq<int>, r2: Seq<i64>, c2: Seq<int>)
    requires
        kahn_run(g, r1, c1),
        kahn_run(g, r2, c2),
    ensures
        r1 == r2,
{
    let n = if r1.len() < r2.len() { r1.len() } else { r2.len() };
    lemma_kahn_run_prefix(g, r1, c1, r2, c2, n as int);
    if r1.len() < r2.len() {
        assert(c2[n as int] == r1.len());
        assert(n < c2[n as int]);
    } else if r2.len() < r1.len() {
        assert(c1[n as int] == r2.len());
        assert(n < c1[n as int]);
    } else {
        assert(r1.take(c1[n as int]) =~= r1);
        assert(r2.take(c2[n as int]) =~= r2);
    }
}

proof fn lemma_kahn_run_prefix(g: &Graph, r1: Seq<i64>, c1: Seq<int>, r2: Seq<i64>, c2: Seq<int>, k: int)
    requires
        kahn_run(g, r1, c1),
        kahn_run(g, r2, c2),
        0 <= k <= r1.len(),
        k <= r2.len(),
    ensures
        c1[k] == c2[k],
        r1.take(c1[k]) == r2.take(c2[k]),
    decreases k,
{
    if k > 0 {
        let j = k - 1;
        lemma_kahn_run_prefix(g, r1, c1, r2, c2, j);
        assert(c1[0] <= c1[j] && c2[0] <= c2[j]);
        assert(j < c1[j] && c1[j] <= c1[j + 1] <= r1.len());
        assert(j < c2[j] && c2[j] <= c2[j + 1] <= r2.len());
        assert(r1[j] == r2[j]) by {
            assert(r1.take(c1[j])[j] == r2.take(c2[j])[j]);
        }
        assert(r1.take(j) == r2.take(j)) by {
            assert(r1.take(j) =~= r1.take(c1[j]).take(j));
            assert(r2.take(j) =~= r2.take(c2[j]).take(j));
        }
        let blk = kahn_block(g.edge_list(), g.succs(r1[j]), r1.take(j).to_set(), g.succs(r1[j]).len() as int);
        assert(r1.subrange(c1[j], c1[j + 1]) == blk);
        assert(r2.subrange(c2[j], c2[j + 1]) == blk);
        assert(r1.subrange(c1[j], c1[j + 1]).len() == c1[j + 1] - c1[j]);
        assert(r2.subrange(c2[j], c2[j + 1]).len() == c2[j + 1] - c2[j]);
        assert(c1[k] == c2[k]);
        assert(r1.take(c1[k]) =~= r1.take(c1[j]) + blk);
        assert(r2.take(c2[k]) =~= r2.take(c2[j]) + blk);
    }
}

/// Kahn's algorithm part way: `r` holds the nodes taken so far, `h` the nodes taken or
/// ready, in the order they became ready, and `c[k]` how many had become ready when the
/// `k`-th node was taken (the last entry: how many have so far).
spec fn kahn_trace(g: &Graph, h: Seq<i64>, r: Seq<i64>, c: Seq<int>) -> bool {
    let edges = g.edge_list();
    let srcs = kahn_sources(edges, g.node_count() as int);
    &&& c.len() == r.len() + 1
    &&& c[0] == srcs.len()
    &&& c[0] <= h.len()
    &&& h.take(c[0]) == srcs
    &&& c[r.len() as int] == h.len()
    &&& forall|i: int| 0 <= i < c.len() ==> c[0] <= #[trigger] c[i] <= h.len()
    &&& forall|k: int| 0 <= k < r.len() ==> k < #[trigger] c[k]
    &&& forall|k: int| 0 <= k < r.len() ==> c[k] <= #[trigger] c[k + 1]
    &&& forall|k: int|
        0 <= k < r.len() ==> h.subrange(c[k], c[k + 1]) == kahn_block(
            edges,
            g.succs(#[trigger] r[k]),
            r.take(k).to_set(),
            g.succs(r[k]).len() as int,
        )
}

/// Taking one more node and readying the targets that its edges free keeps the trace.
proof fn lemma_kahn_trace_step(g: &Graph, h: Seq<i64>, r: Seq<i64>, c: Seq<int>, node: i64, h2: Seq<i64>)
    requires
        kahn_trace(g, h, r, c),
        r.len() < h.len(),
        h2 == h + kahn_block(g.edge_list(), g.succs(node), r.to_set(), g.succs(node).len() as int),
    ensures
        kahn_trace(g, h2, r.push(node), c.push(h2.len() as int)),
{
    let r2 = r.push(node);
    let c2 = c.push(h2.len() as int);
    let edges = g.edge_list();
    assert(h2.take(c[0]) =~= h.take(c[0]));
    assert forall|i: int| 0 <= i < c2.len() implies c2[0] <= #[trigger] c2[i] <= h2.len() by {
        if i < c.len() {
            assert(c2[i] == c[i]);
        }
    }
    assert forall|k: int| 0 <= k < r2.len() implies k < #[trigger] c2[k] by {
        assert(c2[k] == c[k]);
    }
    assert forall|k: int| 0 <= k < r2.len() implies c2[k] <= #[trigger] c2[k + 1] by {
        assert(c2[k] == c[k]);
        if k + 1 < c.len() {
            assert(c2[k + 1] == c[k + 1]);
        }
    }
    assert forall|k: int|
        0 <= k < r2.len() implies h2.subrange(c2[k], c2[k + 1]) == kahn_block(
            edges,
            g.succs(#[trigger] r2[k]),
            r2.take(k).to_set(),
            g.succs(r2[k]).len() as int,
        ) by {
        if k < r.len() {
            assert(r2[k] == r[k]);
            assert(r2.take(k) =~= r.take(k));
            assert(c2[k] == c[k] && c2[k + 1] == c[k + 1]);
            assert(c[0] <= c[k + 1] <= h.len());
            assert(h2.subrange(c[k], c[k + 1]) =~= h.subrange(c[k], c[k + 1]));
        } else {
            assert(r2.take(k) =~= r);
            assert(c2[k] == h.len());
            assert(h2.subrange(c2[k], c2[k + 1]) =~= h2.subrange(h.len() as int, h2.len() as int));
        }
    }
}

/// A trace whose ready nodes have all been taken is a whole run.
proof fn lemma_kahn_trace_done(g: &Graph, r: Seq<i64>, c: Seq<int>)
    requires
        kahn_trace(g, r, r, c),
    ensures
        kahn_run(g, r, c),
{
}

/// Every node once, each edge going from an earlier node to a later one, in the order
/// that Kahn's algorithm takes them (first-in first-out, sources by increasing id);
/// fails with a validation error exactly when no such order exists, that is when the
/// graph has a cycle.
pub fn topological_sort(graph: &Graph) -> (r: Result<Vec<i64>, SqliteGraphError>)
    requires
        graph.wf(),
    ensures
        match r {
            Ok(v) => is_topological_order(graph, v@) && exists|c: Seq<int>| kahn_run(graph, v@, c),
            Err(e) => (e matches SqliteGraphError::Validation(msg) && msg@
                == "Graph contains cycles, topological sort not possible"@) && forall|o: Seq<i64>|
                !is_topological_order(graph, o),
        },
{
    let all_ids = graph.all_entity_ids()?;
    proof {
        graph.lemma_wf();
    }
    if all_ids.len() == 0 {
        let empty: Vec<i64> = Vec::new();
        proof {
            assert forall|x: i64| #[trigger] empty@.contains(x) <==> graph.is_node(x) by {}
            assert(kahn_sources(graph.edge_list(), graph.node_count() as int) =~= Seq::<i64>::empty());
            let c0 = seq![0int];
            assert(empty@.take(0) =~= Seq::<i64>::empty());
            assert(c0[0] == 0);
            assert(kahn_run(graph, empty@, c0));
        }
        return Ok(empty);
    }
    let ghost edges = graph.edge_list();
    let ghost n = graph.node_count();
    let mut in_degree: CountMap = count_map_new();
    let mut i: usize = 0;
    while i < all_ids.len()
        invariant
            graph.wf(),
            edges == graph.edge_list(),
            n == graph.node_count(),
            all_ids@ == node_ids(n),
            i <= all_ids@.len(),
            forall|v: i64| #[trigger] count_map_view(in_degree).contains_key(v) <==> 1 <= v <= i,
            forall|v: i64| #[trigger]
                count_map_view(in_degree).contains_key(v) ==> count_map_view(in_degree)[v] == pending_in(
                    edges,
                    v,
                    Set::empty(),
                ),
        decreases all_ids.len() - i,
    {
        let node = all_ids[i];
        proof {
            graph.lemma_wf();
            assert(node == i + 1);
        }
        let incoming = graph.fetch_incoming(node)?;
        proof {
            lemma_pending_none(edges, node);
        }
        count_map_insert(&mut in_degree, node, incoming.len());
        i = i + 1;
    }
    let mut queue: VecDeque<i64> = VecDeque::new();
    let mut i: usize = 0;
    while i < all_ids.len()
        invariant
            graph.wf(),
            n == graph.node_count(),
            all_ids@ == node_ids(n),
            i <= all_ids@.len(),
            forall|v: i64| #[trigger] count_map_view(in_degree).contains_key(v) <==> graph.is_node(v),
            forall|v: i64| #[trigger]
                count_map_view(in_degree).contains_key(v) ==> count_map_view(in_degree)[v] == pending_in(
                    edges,
                    v,
                    Set::empty(),
                ),
            queue@.no_duplicates(),
            forall|v: i64| #[trigger]
                queue@.contains(v) <==> 1 <= v <= i && count_map_view(in_degree)[v] == 0,
            edges == graph.edge_list(),
            queue@ == kahn_sources(edges, i as int),
        decreases all_ids.len() - i,
    {
        let node = all_ids[i];
        let ghost q0 = queue@;
        proof {
            graph.lemma_wf();
            assert(node == i + 1);
            assert(count_map_view(in_degree).contains_key(node));
        }
        if stored_value(&in_degree, node) == 0 {
            queue.push_back(node);
            proof {
                assert forall|a: int, b: int| 0 <= a < b < queue@.len() implies queue@[a] != queue@[b] by {
                    if b == queue@.len() - 1 {
                        assert(q0.contains(q0[a]));
                    }
                }
                assert forall|v: i64| #[trigger] queue@.contains(v) <==> 1 <= v <= i + 1
                    && count_map_view(in_degree)[v] == 0 by {
                    if queue@.contains(v) && v != node {
                        let a = choose|a: int| 0 <= a < queue@.len() && queue@[a] == v;
                        assert(q0[a] == v);
                    }
                    if q0.contains(v) {
                        let a = choose|a: int| 0 <= a < q0.len() && q0[a] == v;
                        assert(queue@[a] == v);
                    }
                    if v == node {
                        assert(queue@[queue@.len() - 1] == v);
                    }
                }
            }
        }
        proof {
            assert(queue@ == kahn_sources(edges, i + 1));
        }
        i = i + 1;
    }
    let mut result: Vec<i64> = Vec::new();
    let ghost mut done: Set<i64> = Set::empty();
    let ghost mut c: Seq<int> = seq![queue@.len() as int];
    proof {
        assert(result@ + queue@ =~= queue@);
        assert(queue@.take(queue@.len() as int) =~= queue@);
    }
    while queue.len() > 0
        invariant
            graph.wf(),
            edges == graph.edge_list(),
            n == graph.node_count(),
            all_ids@.len() == n,
            forall|v: i64| #[trigger] count_map_view(in_degree).contains_key(v) <==> graph.is_node(v),
            forall|v: i64| #[trigger]
                count_map_view(in_degree).contains_key(v) ==> count_map_view(in_degree)[v] == pending_in(
                    edges,
                    v,
                    done,
                ),
            forall|v: i64| #[trigger] done.contains(v) <==> result@.contains(v),
            forall|v: i64| #[trigger]
                count_map_view(in_degree).contains_key(v) ==> ((result@.contains(v) || queue@.contains(v))
                    <==> count_map_view(in_degree)[v] == 0),
            forall|v: i64| #[trigger] queue@.contains(v) ==> graph.is_node(v),
            forall|v: i64| #[trigger] result@.contains(v) ==> graph.is_node(v),
            result@.no_duplicates(),
            queue@.no_duplicates(),
            forall|v: i64| #[trigger] result@.contains(v) ==> !queue@.contains(v),
            forall|a: int, b: int|
                0 <= a < result@.len() && 0 <= b < result@.len() && graph.has_edge(
                    #[trigger] result@[a],
                    #[trigger] result@[b],
                ) ==> a < b,
            result@.len() <= n,
            kahn_trace(graph, result@ + queue@, result@, c),
        decreases n - result@.len(),
    {
        let ghost q0 = queue@;
        let ghost r0 = result@;
        let ghost done0 = done;
        let ghost cm0 = count_map_view(in_degree);
        let node = queue.pop_front().unwrap();
        let ghost q1 = queue@;
        result.push(node);
        proof {
            done = done.insert(node);
            assert(q0[0] == node);
            assert(q0.contains(node));
            assert(!r0.contains(node));
            assert(cm0.contains_key(node));
            assert(cm0[node] == 0);
            assert forall|x: i64| #[trigger] q1.contains(x) <==> q0.contains(x) && x != node by {
                if q1.contains(x) {
                    let a = choose|a: int| 0 <= a < q1.len() && q1[a] == x;
                    assert(q0[a + 1] == q1[a]);
                }
                if q0.contains(x) && x != node {
                    let a = choose|a: int| 0 <= a < q0.len() && q0[a] == x;
                    assert(a != 0);
                    assert(q1[a - 1] == q0[a]);
                }
            }
            assert forall|x: i64| #[trigger] result@.contains(x) <==> r0.contains(x) || x == node by {
                if result@.contains(x) {
                    let a = choose|a: int| 0 <= a < result@.len() && result@[a] == x;
                    if a < r0.len() {
                        assert(r0[a] == result@[a]);
                    }
                }
                if r0.contains(x) {
                    let a = choose|a: int| 0 <= a < r0.len() && r0[a] == x;
                    assert(result@[a] == r0[a]);
                }
                if x == node {
                    assert(result@[result@.len() - 1] == node);
                }
            }
            assert forall|a: int, b: int| 0 <= a < b < result@.len() implies result@[a] != result@[b] by {
                if b == result@.len() - 1 {
                    assert(r0.contains(r0[a]));
                }
            }
            assert forall|a: int, b: int|
                0 <= a < result@.len() && 0 <= b < result@.len() && graph.has_edge(
                    #[trigger] result@[a],
                    #[trigger] result@[b],
                ) implies a < b by {
                let last = result@.len() - 1;
                if a == last {
                    let w = result@[b];
                    if b < last {
                        assert(r0[b] == w);
                        assert(r0.contains(w));
                        assert(cm0.contains_key(w));
                        lemma_pending_zero(edges, w, done0, node);
                    } else {
                        lemma_pending_zero(edges, node, done0, node);
                    }
                } else if b < last {
                    assert(r0[a] == result@[a]);
                    assert(r0[b] == result@[b]);
                }
            }
            assert forall|v: i64| pending_in(edges, v, done) + occurrences(graph.succs(node), v)
                == pending_in(edges, v, done0) by {
                lemma_pending_done(edges, v, done0, node);
            }
            lemma_distinct_nodes(graph, result@);
            assert(result@ + q1 =~= r0 + q0);
            assert(done0 =~= r0.to_set());
        }
        let ghost h0 = result@ + queue@;
        assert(kahn_trace(graph, h0, r0, c));
        let neighbors = graph.fetch_outgoing(node)?;
        let mut j: usize = 0;
        while j < neighbors.len()
            invariant
                graph.wf(),
                edges == graph.edge_list(),
                n == graph.node_count(),
                all_ids@.len() == n,
                neighbors@ == graph.succs(node),
                j <= neighbors@.len(),
                done == done0.insert(node),
                forall|v: i64| #[trigger] count_map_view(in_degree).contains_key(v) <==> graph.is_node(v),
                forall|v: i64| #[trigger]
                    count_map_view(in_degree).contains_key(v) ==> count_map_view(in_degree)[v]
                        + occurrences(neighbors@.subrange(0, j as int), v) == pending_in(edges, v, done0),
                forall|v: i64| #[trigger]
                    pending_in(edges, v, done) + occurrences(neighbors@, v) == pending_in(edges, v, done0),
                forall|v: i64| #[trigger] done.contains(v) <==> result@.contains(v),
                forall|v: i64| #[trigger]
                    count_map_view(in_degree).contains_key(v) ==> ((result@.contains(v) || queue@.contains(v))
                        <==> count_map_view(in_degree)[v] == 0),
                forall|v: i64| #[trigger] queue@.contains(v) ==> graph.is_node(v),
                forall|v: i64| #[trigger] result@.contains(v) ==> graph.is_node(v),
                result@.no_duplicates(),
                queue@.no_duplicates(),
                forall|v: i64| #[trigger] result@.contains(v) ==> !queue@.contains(v),
                forall|a: int, b: int|
                    0 <= a < result@.len() && 0 <= b < result@.len() && graph.has_edge(
                        #[trigger] result@[a],
                        #[trigger] result@[b],
                    ) ==> a < b,
                result@.len() <= n,
                result@ + queue@ == h0 + kahn_block(edges, neighbors@, done0, j as int),
            decreases neighbors.len() - j,
        {
            let neighbor = neighbors[j];
            proof {
                graph.lemma_wf();
                assert(graph.succs(node).contains(neighbor));
                assert(count_map_view(in_degree).contains_key(neighbor));
                lemma_occurrences_step(neighbors@, j as int, neighbor);
                lemma_occurrences_prefix(neighbors@, j + 1, neighbor);
                assert(pending_in(edges, neighbor, done) + occurrences(neighbors@, neighbor) == pending_in(
                    edges,
                    neighbor,
                    done0,
                ));
            }
            let deg = stored_value(&in_degree, neighbor);
            let new_degree = deg - 1;
            let ghost cmb = count_map_view(in_degree);
            let ghost qb = queue@;
            count_map_insert(&mut in_degree, neighbor, new_degree);
            if new_degree == 0 {
                queue.push_back(neighbor);
                proof {
                    assert(!qb.contains(neighbor));
                    assert(!result@.contains(neighbor));
                    assert forall|a: int, b: int| 0 <= a < b < queue@.len() implies queue@[a] != queue@[b] by {
                        if b == queue@.len() - 1 {
                            assert(qb.contains(qb[a]));
                        }
                    }
                }
            }
            proof {
                assert forall|x: i64| #[trigger] queue@.contains(x) <==> qb.contains(x) || (x == neighbor
                    && new_degree == 0) by {
                    if queue@.contains(x) {
                        let a = choose|a: int| 0 <= a < queue@.len() && queue@[a] == x;
                        if a < qb.len() {
                            assert(qb[a] == x);
                        }
                    }
                    if qb.contains(x) {
                        let a = choose|a: int| 0 <= a < qb.len() && qb[a] == x;
                        assert(queue@[a] == x);
                    }
                    if x == neighbor && new_degree == 0 {
                        assert(queue@[queue@.len() - 1] == x);
                    }
                }
                assert(neighbors@[j as int] == neighbor);
                let blk = kahn_block(edges, neighbors@, done0, j as int);
                assert(result@ + qb == h0 + blk);
                assert(deg == cmb[neighbor]);
                assert((occurrences(neighbors@.subrange(0, j + 1), neighbor) == pending_in(edges, neighbor, done0))
                    == (new_degree == 0));
                if new_degree == 0 {
                    assert(kahn_block(edges, neighbors@, done0, j + 1) == blk.push(neighbor));
                    assert(queue@ =~= qb.push(neighbor));
                    assert(result@ + qb.push(neighbor) =~= (result@ + qb).push(neighbor));
                    assert(h0 + blk.push(neighbor) =~= (h0 + blk).push(neighbor));
                } else {
                    assert(kahn_block(edges, neighbors@, done0, j + 1) == blk);
                    assert(queue@ =~= qb);
                }
                assert(result@ + queue@ =~= h0 + kahn_block(edges, neighbors@, done0, j + 1));
                assert forall|v: i64| #[trigger]
                    count_map_view(in_degree).contains_key(v) implies count_map_view(in_degree)[v]
                        + occurrences(neighbors@.subrange(0, j + 1), v) == pending_in(edges, v, done0) by {
                    lemma_occurrences_step(neighbors@, j as int, v);
                    assert(cmb.contains_key(v));
                }
                assert forall|v: i64| #[trigger]
                    count_map_view(in_degree).contains_key(v) implies ((result@.contains(v) || queue@.contains(
                        v,
                    )) <==> count_map_view(in_degree)[v] == 0) by {
                    assert(cmb.contains_key(v));
                }
            }
            j = j + 1;
        }
        proof {
            assert(neighbors@.subrange(0, neighbors@.len() as int) =~= neighbors@);
            assert forall|v: i64| #[trigger]
                count_map_view(in_degree).contains_key(v) implies count_map_view(in_degree)[v] == pending_in(
                    edges,
                    v,
                    done,
                ) by {
                assert(pending_in(edges, v, done) + occurrences(neighbors@, v) == pending_in(edges, v, done0));
            }
            lemma_kahn_trace_step(graph, h0, r0, c, node, result@ + queue@);
            c = c.push((result@ + queue@).len() as int);
        }
    }
    if result.len() != all_ids.len() {
        proof {
            lemma_distinct_nodes(graph, result@);
            let rest = Set::new(|v: i64| graph.is_node(v) && !result@.contains(v));
            let x = choose|x: i64| graph.is_node(x) && !result@.contains(x);
            assert(rest.contains(x));
            assert forall|v: i64| #[trigger] rest.contains(v) implies exists|w: i64|
                rest.contains(w) && #[trigger] graph.has_edge(w, v) by {
                assert(count_map_view(in_degree).contains_key(v));
                assert(!queue@.contains(v));
                lemma_pending_source(edges, v, done);
                let k = choose|k: int| 0 <= k < edges.len() && (#[trigger] edges[k]).1 == v && !done.contains(edges[k].0);
                let w = edges[k].0;
                assert(edges[k] == (w, v));
                crate::graph::lemma_out_of_contains(edges, w, v);
                assert(graph.has_edge(w, v));
                assert(graph.is_node(w));
                assert(rest.contains(w));
            }
            assert forall|o: Seq<i64>| !is_topological_order(graph, o) by {
                if is_topological_order(graph, o) {
                    assert(o.contains(x));
                    let a = choose|a: int| 0 <= a < o.len() && o[a] == x;
                    lemma_no_topological_order(graph, o, rest, a);
                }
            }
        }
        return Err(
            SqliteGraphError::validation(
                String::from_str("Graph contains cycles, topological sort not possible"),
            ),
        );
    }
    proof {
        lemma_distinct_nodes(graph, result@);
        assert forall|x: i64| #[trigger] result@.contains(x) <==> graph.is_node(x) by {}
        assert(result@ + queue@ =~= result@);
        lemma_kahn_trace_done(graph, result@, c);
    }
    Ok(result)
}

/// The strongly connected components of a graph, and the component of each node.
pub struct SccResult {
    /// The components, each a list of node ids.
    pub components: Vec<Vec<i64>>,
    /// The index in `components` of the component of each node.
    pub node_to_component: CountMap,
}

/// The components split the nodes of the graph: each is non-empty and lists its
/// nodes once, each node lies in exactly one of them, and the map gives, for each node
/// and for nothing else, the index of its component.
pub open spec fn is_node_partition(g: &Graph, comps: Seq<Vec<i64>>, ntc: Map<i64, usize>) -> bool {
    &&& forall|x: i64| #[trigger] ntc.contains_key(x) <==> g.is_node(x)
    &&& forall|x: i64| #[trigger] ntc.contains_key(x) ==> ntc[x] < comps.len()
    &&& forall|i: int, x: i64|
        0 <= i < comps.len() ==> (#[trigger] comps[i]@.contains(x) <==> ntc.contains_key(x) && ntc[x] == i)
    &&& forall|i: int| 0 <= i < comps.len() ==> (#[trigger] comps[i]@).len() > 0 && comps[i]@.no_duplicates()
}

/// The state of Tarjan's search.
struct Tarjan {
    index: usize,
    stack: Vec<i64>,
    on_stack: HashSet<i64>,
    indices: CountMap,
    lowlinks: CountMap,
    components: Vec<Vec<i64>>,
    node_to_component: CountMap,
}

/// What holds of the search between its steps: the numbered nodes, the stack with its
/// numbers rising, the low links no higher than the numbers, and the components found
/// so far splitting the numbered nodes that have left the stack.
spec fn tarjan_inv(g: &Graph, st: &Tarjan) -> bool {
    let idx = count_map_view(st.indices);
    let low = count_map_view(st.lowlinks);
    let ntc = count_map_view(st.node_to_component);
    let stack = st.stack@;
    let comps = st.components@;
    &&& idx.dom().finite()
    &&& st.index == idx.dom().len()
    &&& forall|x: i64| #[trigger] idx.contains_key(x) ==> g.is_node(x) && idx[x] < st.index
    &&& forall|x: i64| #[trigger] low.contains_key(x) <==> idx.contains_key(x)
    &&& forall|x: i64| #[trigger] idx.contains_key(x) ==> low[x] <= idx[x]
    &&& stack.no_duplicates()
    &&& forall|x: i64| #[trigger] st.on_stack@.contains(x) <==> stack.contains(x)
    &&& forall|x: i64| #[trigger] stack.contains(x) ==> idx.contains_key(x)
    &&& forall|a: int, b: int| 0 <= a < b < stack.len() ==> idx[#[trigger] stack[a]] < idx[#[trigger] stack[b]]
    &&& forall|x: i64| #[trigger] ntc.contains_key(x) <==> idx.contains_key(x) && !stack.contains(x)
    &&& forall|x: i64| #[trigger] ntc.contains_key(x) ==> ntc[x] < comps.len()
    &&& forall|i: int, x: i64|
        0 <= i < comps.len() ==> (#[trigger] comps[i]@.contains(x) <==> ntc.contains_key(x) && ntc[x] == i)
    &&& forall|i: int| 0 <= i < comps.len() ==> (#[trigger] comps[i]@).len() > 0 && comps[i]@.no_duplicates()
}

/// `x` and `y` reach each other.
pub open spec fn mutual(g: &Graph, x: i64, y: i64) -> bool {
    reaches(g, x, y) && reaches(g, y, x)
}

/// `x` reaches a node of `act` numbered no later than `x`.
#[verifier::opaque]
spec fn active_witness(g: &Graph, idx: Map<i64, usize>, act: Seq<i64>, x: i64) -> bool {
    exists|y: i64| #[trigger] act.contains(y) && reaches(g, x, y) && idx[y] <= idx[x]
}

/// `x` reaches a node on the stack whose number is the low link of `x`.
#[verifier::opaque]
spec fn low_witness(g: &Graph, stack: Seq<i64>, idx: Map<i64, usize>, low: Map<i64, usize>, x: i64) -> bool {
    exists|u: i64| #[trigger] stack.contains(u) && reaches(g, x, u) && idx[u] == low[x]
}

/// A node of `act` that `x` reaches, numbered no later than `x`.
proof fn lemma_active_witness_get(g: &Graph, idx: Map<i64, usize>, act: Seq<i64>, x: i64) -> (y: i64)
    requires
        active_witness(g, idx, act, x),
    ensures
        act.contains(y),
        reaches(g, x, y),
        idx[y] <= idx[x],
{
    reveal(active_witness);
    choose|y: i64| #[trigger] act.contains(y) && reaches(g, x, y) && idx[y] <= idx[x]
}

/// A node of `act` that `x` reaches, numbered no later than `x`, is a witness.
proof fn lemma_active_witness_make(g: &Graph, idx: Map<i64, usize>, act: Seq<i64>, x: i64, y: i64)
    requires
        act.contains(y),
        reaches(g, x, y),
        idx[y] <= idx[x],
    ensures
        active_witness(g, idx, act, x),
{
    reveal(active_witness);
}

/// A stack node that `x` reaches, numbered by the low link of `x`.
proof fn lemma_low_witness_get(g: &Graph, stack: Seq<i64>, idx: Map<i64, usize>, low: Map<i64, usize>, x: i64) -> (u: i64)
    requires
        low_witness(g, stack, idx, low, x),
    ensures
        stack.contains(u),
        reaches(g, x, u),
        idx[u] == low[x],
{
    reveal(low_witness);
    choose|u: i64| #[trigger] stack.contains(u) && reaches(g, x, u) && idx[u] == low[x]
}

/// A stack node that `x` reaches, numbered by the low link of `x`, is a witness.
proof fn lemma_low_witness_make(
    g: &Graph,
    stack: Seq<i64>,
    idx: Map<i64, usize>,
    low: Map<i64, usize>,
    x: i64,
    u: i64,
)
    requires
        stack.contains(u),
        reaches(g, x, u),
        idx[u] == low[x],
    ensures
        low_witness(g, stack, idx, low, x),
{
    reveal(low_witness);
}

/// What the search keeps about reachability, with `act` the nodes whose search is under
/// way: they are on the stack; every stack node reaches one of them numbered no later,
/// and reaches a stack node numbered by its low link; every other numbered node has
/// all its successors numbered, with its low link at most the number of each one on
/// the stack; and the components found are closed under the edges, their members reach
/// each other, and each holds every node that reaches a member both ways.
spec fn scc_inv(g: &Graph, st: &Tarjan, act: Seq<i64>) -> bool {
    let idx = count_map_view(st.indices);
    let low = count_map_view(st.lowlinks);
    let ntc = count_map_view(st.node_to_component);
    let stack = st.stack@;
    &&& forall|y: i64| #[trigger] act.contains(y) ==> stack.contains(y)
    &&& forall|x: i64| #[trigger] stack.contains(x) ==> active_witness(g, idx, act, x)
    &&& forall|x: i64| #[trigger] stack.contains(x) ==> low_witness(g, stack, idx, low, x)
    &&& forall|x: i64, z: i64|
        idx.contains_key(x) && !act.contains(x) && #[trigger] g.has_edge(x, z) ==> idx.contains_key(z) && (stack.contains(z)
            ==> low[x] <= idx[z])
    &&& forall|x: i64, z: i64| ntc.contains_key(x) && #[trigger] g.has_edge(x, z) ==> ntc.contains_key(z)
    &&& forall|x: i64, y: i64|
        #![trigger ntc[x], ntc[y]]
        ntc.contains_key(x) && ntc.contains_key(y) && ntc[x] == ntc[y] ==> mutual(g, x, y)
    &&& forall|x: i64, y: i64| ntc.contains_key(x) && #[trigger] mutual(g, x, y) ==> ntc.contains_key(y) && ntc[y] == ntc[x]
}

/// Popping the nodes numbered from `v` on off the stack, when `v` is a root (its low link
/// is its own number), makes them a new component `k` and keeps `scc_inv`: they are
/// exactly the nodes that reach `v` both ways.
proof fn lemma_root_pop(g: &Graph, stb: &Tarjan, st: &Tarjan, act: Seq<i64>, v: i64, k: nat)
    requires
        g.wf(),
        tarjan_inv(g, stb),
        scc_inv(g, stb, act.push(v)),
        stb.stack@.contains(v),
        !act.contains(v),
        forall|y: i64| #[trigger] act.contains(y) ==> count_map_view(stb.indices)[y] < count_map_view(stb.indices)[v],
        forall|z: i64|
            #[trigger] g.has_edge(v, z) ==> count_map_view(stb.indices).contains_key(z) && (stb.stack@.contains(z)
                ==> count_map_view(stb.lowlinks)[v] <= count_map_view(stb.indices)[z]),
        count_map_view(stb.lowlinks)[v] == count_map_view(stb.indices)[v],
        forall|z: i64|
            #[trigger] stb.stack@.contains(z) && count_map_view(stb.indices)[z] >= count_map_view(stb.indices)[v]
                ==> reaches(g, v, z) && count_map_view(stb.lowlinks)[v] <= count_map_view(stb.lowlinks)[z],
        count_map_view(st.indices) == count_map_view(stb.indices),
        count_map_view(st.lowlinks) == count_map_view(stb.lowlinks),
        forall|x: i64|
            #[trigger] st.stack@.contains(x) <==> stb.stack@.contains(x) && count_map_view(stb.indices)[x]
                < count_map_view(stb.indices)[v],
        forall|x: i64|
            #[trigger] count_map_view(st.node_to_component).contains_key(x) <==> count_map_view(
                stb.node_to_component,
            ).contains_key(x) || (stb.stack@.contains(x) && count_map_view(stb.indices)[x] >= count_map_view(
                stb.indices,
            )[v]),
        forall|x: i64|
            #[trigger] count_map_view(stb.node_to_component).contains_key(x) ==> count_map_view(st.node_to_component)[x]
                == count_map_view(stb.node_to_component)[x] && count_map_view(stb.node_to_component)[x] < k,
        forall|x: i64|
            #[trigger] stb.stack@.contains(x) && count_map_view(stb.indices)[x] >= count_map_view(stb.indices)[v]
                ==> count_map_view(st.node_to_component)[x] == k,
    ensures
        scc_inv(g, st, act),
{
    let idx = count_map_view(stb.indices);
    let low = count_map_view(stb.lowlinks);
    let nb = count_map_view(stb.node_to_component);
    let na = count_map_view(st.node_to_component);
    let sb = stb.stack@;
    let av = act.push(v);
    let top = Set::new(|x: i64| sb.contains(x) && idx[x] >= idx[v]);
    let vis = top.union(nb.dom());
    assert forall|y: i64| #[trigger] av.contains(y) <==> act.contains(y) || y == v by {
        if av.contains(y) {
            let i = choose|i: int| 0 <= i < av.len() && av[i] == y;
            if i < act.len() {
                assert(act[i] == y);
            }
        }
        if act.contains(y) {
            let i = choose|i: int| 0 <= i < act.len() && act[i] == y;
            assert(av[i] == y);
        }
        if y == v {
            assert(av[act.len() as int] == y);
        }
    }
    // The top of the stack together with the earlier components is closed under edges.
    assert forall|x: i64, z: i64| vis.contains(x) && #[trigger] g.has_edge(x, z) implies vis.contains(z) by {
        if nb.contains_key(x) {
            assert(nb.contains_key(z));
        } else {
            assert(top.contains(x));
            assert(!av.contains(x) || x == v);
            if x == v {
                assert(idx.contains_key(z));
            } else {
                assert(!act.contains(x));
                assert(idx.contains_key(x));
                assert(idx.contains_key(z) && (sb.contains(z) ==> low[x] <= idx[z]));
                assert(low[v] <= low[x]);
            }
            if !sb.contains(z) {
                assert(nb.contains_key(z));
            }
        }
    }
    assert forall|m: i64| #[trigger] reaches(g, v, m) implies vis.contains(m) by {
        let kk = choose|kk: nat| #[trigger] within(g, v, m, kk);
        assert(top.contains(v));
        lemma_closed_holds_reachable(g, v, vis, m, kk);
    }
    // Every node of the top reaches `v`.
    assert forall|x: i64| #[trigger] top.contains(x) implies mutual(g, x, v) by {
        assert(sb.contains(x));
        assert(active_witness(g, idx, av, x));
        let y = lemma_active_witness_get(g, idx, av, x);
        if y != v {
            assert(act.contains(y));
            assert(sb.contains(y));
            lemma_reaches_trans(g, v, x, y);
            assert(vis.contains(y));
            assert(!top.contains(y));
            assert(!nb.contains_key(y));
        }
    }
    // Every node that reaches `v` both ways is in the top.
    assert forall|m: i64| #[trigger] mutual(g, v, m) implies top.contains(m) by {
        assert(vis.contains(m));
        if nb.contains_key(m) {
            assert(mutual(g, m, v));
            assert(nb.contains_key(v));
        }
    }
    assert forall|x: i64| #[trigger] st.stack@.contains(x) implies active_witness(g, idx, act, x) by {
        assert(sb.contains(x));
        assert(active_witness(g, idx, av, x));
        let y = lemma_active_witness_get(g, idx, av, x);
        assert(act.contains(y));
        lemma_active_witness_make(g, idx, act, x, y);
    }
    assert forall|x: i64| #[trigger] st.stack@.contains(x) implies low_witness(g, st.stack@, idx, low, x) by {
        assert(sb.contains(x));
        assert(low_witness(g, sb, idx, low, x));
        let u = lemma_low_witness_get(g, sb, idx, low, x);
        assert(idx.contains_key(x));
        assert(low[x] <= idx[x]);
        assert(st.stack@.contains(u));
        lemma_low_witness_make(g, st.stack@, idx, low, x, u);
    }
    assert forall|y: i64| #[trigger] act.contains(y) implies st.stack@.contains(y) by {
        assert(av.contains(y));
    }
    assert forall|x: i64, z: i64|
        idx.contains_key(x) && !act.contains(x) && #[trigger] g.has_edge(x, z) implies idx.contains_key(z) && (
        st.stack@.contains(z) ==> low[x] <= idx[z]) by {
        if x != v {
            assert(!av.contains(x));
        }
    }
    assert forall|x: i64, z: i64| na.contains_key(x) && #[trigger] g.has_edge(x, z) implies na.contains_key(z) by {
        assert(vis.contains(x));
        assert(vis.contains(z));
    }
    assert forall|x: i64, y: i64|
        #![trigger na[x], na[y]]
        na.contains_key(x) && na.contains_key(y) && na[x] == na[y] implies mutual(g, x, y) by {
        if nb.contains_key(x) && nb.contains_key(y) {
            assert(nb[x] == nb[y]);
        } else if top.contains(x) && top.contains(y) {
            assert(mutual(g, x, v));
            assert(mutual(g, y, v));
            lemma_reaches_trans(g, x, v, y);
            lemma_reaches_trans(g, y, v, x);
        } else if nb.contains_key(x) {
            assert(top.contains(y));
            assert(nb[x] < k);
        } else {
            assert(top.contains(x));
            assert(nb.contains_key(y));
            assert(nb[y] < k);
        }
    }
    assert forall|x: i64, y: i64| na.contains_key(x) && #[trigger] mutual(g, x, y) implies na.contains_key(y)
        && na[y] == na[x] by {
        if nb.contains_key(x) {
            assert(nb.contains_key(y) && nb[y] == nb[x]);
        } else {
            assert(top.contains(x));
            assert(mutual(g, x, v));
            lemma_reaches_trans(g, v, x, y);
            lemma_reaches_trans(g, y, x, v);
            assert(mutual(g, v, y));
            assert(top.contains(y));
        }
    }
}

/// The members of `s.push(v)`: those of `s` and `v`.
proof fn lemma_push_contains(s: Seq<i64>, v: i64)
    ensures
        forall|y: i64| #[trigger] s.push(v).contains(y) <==> s.contains(y) || y == v,
{
    assert forall|y: i64| #[trigger] s.push(v).contains(y) <==> s.contains(y) || y == v by {
        let t = s.push(v);
        if t.contains(y) {
            let i = choose|i: int| 0 <= i < t.len() && t[i] == y;
            if i < s.len() {
                assert(s[i] == y);
            }
        }
        if s.contains(y) {
            let i = choose|i: int| 0 <= i < s.len() && s[i] == y;
            assert(t[i] == y);
        }
        if y == v {
            assert(t[s.len() as int] == y);
        }
    }
}

/// Numbering `v` and pushing it, as the search does when it starts on `v`, keeps
/// `scc_inv` with `v` under way.
proof fn lemma_scc_push(g: &Graph, st0: &Tarjan, st: &Tarjan, act: Seq<i64>, v: i64)
    requires
        scc_inv(g, st0, act),
        !count_map_view(st0.indices).contains_key(v),
        forall|x: i64| #[trigger] st0.stack@.contains(x) ==> count_map_view(st0.indices).contains_key(x),
        count_map_view(st.indices) == count_map_view(st0.indices).insert(v, count_map_view(st.indices)[v]),
        count_map_view(st.lowlinks) == count_map_view(st0.lowlinks).insert(v, count_map_view(st.indices)[v]),
        st.stack@ == st0.stack@.push(v),
        count_map_view(st.node_to_component) == count_map_view(st0.node_to_component),
    ensures
        scc_inv(g, st, act.push(v)),
{
    let idx0 = count_map_view(st0.indices);
    let idx = count_map_view(st.indices);
    let low0 = count_map_view(st0.lowlinks);
    let low = count_map_view(st.lowlinks);
    let s0 = st0.stack@;
    let s = st.stack@;
    let av = act.push(v);
    lemma_push_contains(act, v);
    lemma_push_contains(s0, v);
    assert forall|y: i64| #[trigger] av.contains(y) implies s.contains(y) by {
        if act.contains(y) {
            assert(s0.contains(y));
        }
    }
    assert forall|x: i64| #[trigger] s.contains(x) implies active_witness(g, idx, av, x) by {
        if x == v {
            lemma_reaches_refl(g, v);
            lemma_active_witness_make(g, idx, av, x, v);
        } else {
            assert(s0.contains(x));
            assert(active_witness(g, idx0, act, x));
            let y = lemma_active_witness_get(g, idx0, act, x);
            assert(s0.contains(y));
            lemma_active_witness_make(g, idx, av, x, y);
        }
    }
    assert forall|x: i64| #[trigger] s.contains(x) implies low_witness(g, s, idx, low, x) by {
        if x == v {
            lemma_reaches_refl(g, v);
            lemma_low_witness_make(g, s, idx, low, x, v);
        } else {
            assert(s0.contains(x));
            assert(low_witness(g, s0, idx0, low0, x));
            let u = lemma_low_witness_get(g, s0, idx0, low0, x);
            lemma_low_witness_make(g, s, idx, low, x, u);
        }
    }
    assert forall|x: i64, z: i64|
        idx.contains_key(x) && !av.contains(x) && #[trigger] g.has_edge(x, z) implies idx.contains_key(z) && (s.contains(z)
            ==> low[x] <= idx[z]) by {
        assert(idx0.contains_key(x) && !act.contains(x));
        assert(idx0.contains_key(z));
        if s.contains(z) {
            assert(s0.contains(z));
        }
    }
}

/// Lowering the low link of `v` (under way) to the number of a stack node that `v`
/// reaches keeps `scc_inv`.
proof fn lemma_scc_lower(g: &Graph, st0: &Tarjan, st: &Tarjan, act: Seq<i64>, v: i64, u: i64)
    requires
        scc_inv(g, st0, act),
        act.contains(v),
        st0.stack@.contains(u),
        reaches(g, v, u),
        count_map_view(st.indices) == count_map_view(st0.indices),
        count_map_view(st.lowlinks) == count_map_view(st0.lowlinks).insert(v, count_map_view(st0.indices)[u]),
        st.stack@ == st0.stack@,
        count_map_view(st.node_to_component) == count_map_view(st0.node_to_component),
    ensures
        scc_inv(g, st, act),
{
    let idx = count_map_view(st.indices);
    let low0 = count_map_view(st0.lowlinks);
    let low = count_map_view(st.lowlinks);
    let s = st.stack@;
    assert forall|x: i64| #[trigger] s.contains(x) implies low_witness(g, s, idx, low, x) by {
        if x == v {
            lemma_low_witness_make(g, s, idx, low, x, u);
        } else {
            assert(low_witness(g, s, idx, low0, x));
            let w = lemma_low_witness_get(g, s, idx, low0, x);
            lemma_low_witness_make(g, s, idx, low, x, w);
        }
    }
    assert forall|x: i64, z: i64|
        idx.contains_key(x) && !act.contains(x) && #[trigger] g.has_edge(x, z) implies idx.contains_key(z) && (s.contains(z)
            ==> low[x] <= idx[z]) by {
        assert(x != v);
    }
}

/// A node whose low link is below its number reaches a node under way, other than
/// itself, numbered below it.
proof fn lemma_nonroot_target(g: &Graph, st: &Tarjan, act: Seq<i64>, v: i64) -> (y0: i64)
    requires
        scc_inv(g, st, act.push(v)),
        !act.contains(v),
        st.stack@.contains(v),
        count_map_view(st.lowlinks)[v] < count_map_view(st.indices)[v],
    ensures
        act.contains(y0),
        reaches(g, v, y0),
        count_map_view(st.indices)[y0] < count_map_view(st.indices)[v],
{
    let idx = count_map_view(st.indices);
    let low = count_map_view(st.lowlinks);
    let s = st.stack@;
    let av = act.push(v);
    lemma_push_contains(act, v);
    assert(low_witness(g, s, idx, low, v));
    let u = lemma_low_witness_get(g, s, idx, low, v);
    assert(active_witness(g, idx, av, u));
    let y0 = lemma_active_witness_get(g, idx, av, u);
    lemma_reaches_trans(g, v, u, y0);
    y0
}

/// When the search of `v` ends without `v` being a root (its low link is below its
/// number), `v` stays on the stack and `scc_inv` holds without `v` under way.
proof fn lemma_scc_nonroot(g: &Graph, st: &Tarjan, act: Seq<i64>, v: i64)
    requires
        scc_inv(g, st, act.push(v)),
        !act.contains(v),
        st.stack@.contains(v),
        count_map_view(st.lowlinks)[v] < count_map_view(st.indices)[v],
        forall|z: i64|
            #[trigger] g.has_edge(v, z) ==> count_map_view(st.indices).contains_key(z) && (st.stack@.contains(z)
                ==> count_map_view(st.lowlinks)[v] <= count_map_view(st.indices)[z]),
    ensures
        scc_inv(g, st, act),
{
    let idx = count_map_view(st.indices);
    let low = count_map_view(st.lowlinks);
    let s = st.stack@;
    let av = act.push(v);
    lemma_push_contains(act, v);
    // `v` reaches a node under way other than itself, numbered below it.
    let y0 = lemma_nonroot_target(g, st, act, v);
    assert forall|y: i64| #[trigger] act.contains(y) implies s.contains(y) by {
        assert(av.contains(y));
    }
    assert forall|x: i64| #[trigger] s.contains(x) implies active_witness(g, idx, act, x) by {
        assert(active_witness(g, idx, av, x));
        let y = lemma_active_witness_get(g, idx, av, x);
        if y == v {
            lemma_reaches_trans(g, x, v, y0);
            lemma_active_witness_make(g, idx, act, x, y0);
        } else {
            lemma_active_witness_make(g, idx, act, x, y);
        }
    }
    assert forall|x: i64, z: i64|
        idx.contains_key(x) && !act.contains(x) && #[trigger] g.has_edge(x, z) implies idx.contains_key(z) && (s.contains(z)
            ==> low[x] <= idx[z]) by {
        if x != v {
            assert(!av.contains(x));
        }
    }
}

/// `scc_inv` depends on the state's views alone.
proof fn lemma_scc_same_views(g: &Graph, st0: &Tarjan, st: &Tarjan, act: Seq<i64>)
    requires
        scc_inv(g, st0, act),
        count_map_view(st.indices) == count_map_view(st0.indices),
        count_map_view(st.lowlinks) == count_map_view(st0.lowlinks),
        st.stack@ == st0.stack@,
        count_map_view(st.node_to_component) == count_map_view(st0.node_to_component),
    ensures
        scc_inv(g, st, act),
{
}

/// What the search of `v` keeps while it goes through the successors `nb` of `v`, the
/// first `j` of them done: `scc_inv` with `v` under way; each successor done is numbered,
/// and bounds the low link of `v` when on the stack; `v` reaches every stack node
/// numbered from `i0` (its own number) on, and its low link is at most theirs; and every
/// stack node was on the stack `s0` before or is numbered from `i0` on.
spec fn search_facts(g: &Graph, st: &Tarjan, act: Seq<i64>, v: i64, i0: nat, s0: Seq<i64>, j: int, nb: Seq<i64>) -> bool {
    let idx = count_map_view(st.indices);
    let low = count_map_view(st.lowlinks);
    let stack = st.stack@;
    &&& scc_inv(g, st, act.push(v))
    &&& forall|k: int|
        0 <= k < j ==> idx.contains_key(#[trigger] nb[k]) && (stack.contains(nb[k]) ==> low[v] <= idx[nb[k]])
    &&& forall|z: i64| #[trigger] stack.contains(z) && idx[z] >= i0 ==> reaches(g, v, z) && low[v] <= low[z]
    &&& forall|z: i64| #[trigger] stack.contains(z) ==> s0.contains(z) || idx[z] >= i0
}

/// After the search of the successor `w = nb[j]` returns and the low link of `v` takes
/// the lower of its own and that of `w`, the facts hold for the first `j + 1`
/// successors.
proof fn lemma_scc_after_child(
    g: &Graph,
    st1: &Tarjan,
    st2: &Tarjan,
    st: &Tarjan,
    act: Seq<i64>,
    v: i64,
    w: i64,
    i0: nat,
    s0: Seq<i64>,
    j: int,
    nb: Seq<i64>,
)
    requires
        tarjan_inv(g, st1),
        tarjan_inv(g, st2),
        search_facts(g, st1, act, v, i0, s0, j, nb),
        0 <= j < nb.len(),
        nb[j] == w,
        g.has_edge(v, w),
        count_map_view(st1.indices).contains_key(v),
        count_map_view(st1.indices)[v] == i0,
        st1.index >= i0 + 1,
        !count_map_view(st1.indices).contains_key(w),
        scc_inv(g, st2, act.push(v)),
        count_map_view(st2.indices).contains_key(w),
        count_map_view(st2.indices)[w] == st1.index,
        forall|z: i64|
            #[trigger] st2.stack@.contains(z) && count_map_view(st2.indices)[z] >= count_map_view(st2.indices)[w]
                ==> reaches(g, w, z) && count_map_view(st2.lowlinks)[w] <= count_map_view(st2.lowlinks)[z],
        !st2.stack@.contains(w) ==> count_map_view(st2.lowlinks)[w] == count_map_view(st2.indices)[w],
        forall|z: i64|
            #[trigger] st2.stack@.contains(z) ==> st1.stack@.contains(z) || count_map_view(st2.indices)[z] >= st1.index,
        forall|x: i64|
            #[trigger] count_map_view(st1.indices).contains_key(x) ==> count_map_view(st2.indices).contains_key(x)
                && count_map_view(st2.indices)[x] == count_map_view(st1.indices)[x] && count_map_view(st2.lowlinks)[x]
                == count_map_view(st1.lowlinks)[x],
        count_map_view(st.indices) == count_map_view(st2.indices),
        count_map_view(st.lowlinks) == count_map_view(st2.lowlinks).insert(
            v,
            if count_map_view(st2.lowlinks)[v] < count_map_view(st2.lowlinks)[w] {
                count_map_view(st2.lowlinks)[v]
            } else {
                count_map_view(st2.lowlinks)[w]
            },
        ),
        st.stack@ == st2.stack@,
        count_map_view(st.node_to_component) == count_map_view(st2.node_to_component),
    ensures
        search_facts(g, st, act, v, i0, s0, j + 1, nb),
{
    let idx1 = count_map_view(st1.indices);
    let low1 = count_map_view(st1.lowlinks);
    let idx2 = count_map_view(st2.indices);
    let low2 = count_map_view(st2.lowlinks);
    let idx = count_map_view(st.indices);
    let low = count_map_view(st.lowlinks);
    let av = act.push(v);
    lemma_push_contains(act, v);
    let m = low[v];
    assert(low2[v] == low1[v]);
    if low2[v] < low2[w] {
        assert(low =~= low2);
        lemma_scc_same_views(g, st2, st, av);
    } else {
        assert(st2.stack@.contains(w)) by {
            if !st2.stack@.contains(w) {
                assert(low2[v] <= idx2[v]);
            }
        }
        assert(low_witness(g, st2.stack@, idx2, low2, w));
        let u = lemma_low_witness_get(g, st2.stack@, idx2, low2, w);
        lemma_reaches_prepend(g, v, w, u);
        lemma_scc_lower(g, st2, st, av, v, u);
    }
    assert forall|k: int| 0 <= k < j + 1 implies idx.contains_key(#[trigger] nb[k]) && (st.stack@.contains(nb[k]) ==> low[v]
        <= idx[nb[k]]) by {
        if k < j {
            assert(idx1.contains_key(nb[k]));
            if st.stack@.contains(nb[k]) {
                assert(idx1[nb[k]] < st1.index);
                assert(st1.stack@.contains(nb[k]));
            }
        } else {
            assert(low2[w] <= idx2[w]);
        }
    }
    assert forall|z: i64| #[trigger] st.stack@.contains(z) && idx[z] >= i0 implies reaches(g, v, z) && low[v]
        <= low[z] by {
        if z == v {
            lemma_reaches_refl(g, v);
        } else if st1.stack@.contains(z) {
            assert(idx1.contains_key(z));
            assert(idx1[z] >= i0);
        } else {
            assert(idx2[z] >= st1.index);
            lemma_reaches_prepend(g, v, w, z);
        }
    }
    assert forall|z: i64| #[trigger] st.stack@.contains(z) implies s0.contains(z) || idx[z] >= i0 by {
        if st1.stack@.contains(z) {
            assert(idx1.contains_key(z));
        }
    }
}

/// After an edge from `v` to the stack node `w = nb[j]` lowers the low link of `v` to at
/// most the number of `w`, the facts hold for the first `j + 1` successors.
proof fn lemma_scc_after_back_edge(
    g: &Graph,
    st1: &Tarjan,
    st: &Tarjan,
    act: Seq<i64>,
    v: i64,
    w: i64,
    i0: nat,
    s0: Seq<i64>,
    j: int,
    nb: Seq<i64>,
)
    requires
        search_facts(g, st1, act, v, i0, s0, j, nb),
        0 <= j < nb.len(),
        nb[j] == w,
        g.has_edge(v, w),
        st1.stack@.contains(w),
        count_map_view(st1.indices).contains_key(w),
        count_map_view(st1.lowlinks).contains_key(v),
        count_map_view(st.indices) == count_map_view(st1.indices),
        count_map_view(st.lowlinks) == count_map_view(st1.lowlinks).insert(
            v,
            if count_map_view(st1.lowlinks)[v] < count_map_view(st1.indices)[w] {
                count_map_view(st1.lowlinks)[v]
            } else {
                count_map_view(st1.indices)[w]
            },
        ),
        st.stack@ == st1.stack@,
        count_map_view(st.node_to_component) == count_map_view(st1.node_to_component),
    ensures
        search_facts(g, st, act, v, i0, s0, j + 1, nb),
{
    let idx1 = count_map_view(st1.indices);
    let low1 = count_map_view(st1.lowlinks);
    let idx = count_map_view(st.indices);
    let low = count_map_view(st.lowlinks);
    let av = act.push(v);
    lemma_push_contains(act, v);
    if low1[v] < idx1[w] {
        assert(low =~= low1);
        lemma_scc_same_views(g, st1, st, av);
    } else {
        lemma_reaches_refl(g, w);
        lemma_reaches_prepend(g, v, w, w);
        lemma_scc_lower(g, st1, st, av, v, w);
    }
    assert forall|k: int| 0 <= k < j + 1 implies idx.contains_key(#[trigger] nb[k]) && (st.stack@.contains(nb[k]) ==> low[v]
        <= idx[nb[k]]) by {
    }
    assert forall|z: i64| #[trigger] st.stack@.contains(z) && idx[z] >= i0 implies reaches(g, v, z) && low[v]
        <= low[z] by {
        if z == v {
            lemma_reaches_refl(g, v);
        }
    }
}

/// Every node on the stack, and every low link of a node numbered from `base` on, is at
/// least `base`.
spec fn tarjan_above(st: &Tarjan, base: nat) -> bool {
    let idx = count_map_view(st.indices);
    let low = count_map_view(st.lowlinks);
    &&& forall|x: i64| #[trigger] st.stack@.contains(x) ==> idx[x] >= base
    &&& forall|x: i64| #[trigger] idx.contains_key(x) && idx[x] >= base ==> low[x] >= base
}

/// The numbered nodes are at most the nodes of the graph, and fewer while `v` is not
/// numbered.
proof fn lemma_numbered_bound(g: &Graph, st: &Tarjan, v: i64)
    requires
        g.wf(),
        tarjan_inv(g, st),
        g.is_node(v),
        !count_map_view(st.indices).contains_key(v),
    ensures
        st.index < g.node_count(),
{
    let idx = count_map_view(st.indices);
    let nodes = Set::new(|x: i64| g.is_node(x));
    let ids = crate::graph::node_ids(g.node_count());
    g.lemma_wf();
    assert forall|i: int, j: int| 0 <= i < ids.len() && 0 <= j < ids.len() && i != j implies ids[i]
        != ids[j] by {}
    ids.unique_seq_to_set();
    assert(nodes =~= ids.to_set()) by {
        assert forall|x: i64| nodes.contains(x) <==> ids.to_set().contains(x) by {
            if g.is_node(x) {
                assert(ids[x - 1] == x);
            }
            if ids.to_set().contains(x) {
                let i = choose|i: int| 0 <= i < ids.len() && ids[i] == x;
                assert(ids[i] == i + 1);
            }
        }
    }
    assert(idx.dom().subset_of(nodes.remove(v)));
    vstd::set_lib::lemma_len_subset(idx.dom(), nodes.remove(v));
}

/// Tarjan's step for the node `v`: numbers it, searches its successors, and when `v`
/// turns out to be the root of a component, takes that component off the stack.
fn strongconnect(graph: &Graph, st: &mut Tarjan, v: i64, Ghost(base): Ghost<nat>, Ghost(act): Ghost<Seq<i64>>) -> (r:
    Result<(), SqliteGraphError>)
    requires
        graph.wf(),
        tarjan_inv(graph, old(st)),
        tarjan_above(old(st), base),
        scc_inv(graph, old(st), act),
        graph.is_node(v),
        !count_map_view(old(st).indices).contains_key(v),
        base <= old(st).index,
    ensures
        scc_inv(graph, final(st), act),
        count_map_view(final(st).indices)[v] == old(st).index,
        forall|z: i64|
            #[trigger] final(st).stack@.contains(z) && count_map_view(final(st).indices)[z] >= count_map_view(
                final(st).indices,
            )[v] ==> reaches(graph, v, z) && count_map_view(final(st).lowlinks)[v] <= count_map_view(
                final(st).lowlinks,
            )[z],
        !final(st).stack@.contains(v) ==> count_map_view(final(st).lowlinks)[v] == count_map_view(
            final(st).indices,
        )[v] && final(st).stack@ == old(st).stack@,
        forall|z: i64|
            #[trigger] final(st).stack@.contains(z) ==> old(st).stack@.contains(z) || count_map_view(
                final(st).indices,
            )[z] >= old(st).index,
        r is Ok,
        tarjan_inv(graph, final(st)),
        tarjan_above(final(st), base),
        count_map_view(final(st).indices).contains_key(v),
        final(st).index >= old(st).index,
        forall|x: i64| #[trigger]
            count_map_view(old(st).indices).contains_key(x) ==> count_map_view(final(st).indices).contains_key(x)
                && count_map_view(final(st).indices)[x] == count_map_view(old(st).indices)[x]
                && count_map_view(final(st).lowlinks)[x] == count_map_view(old(st).lowlinks)[x],
        forall|x: i64| #[trigger]
            count_map_view(final(st).indices).contains_key(x) && !count_map_view(old(st).indices).contains_key(x)
                ==> count_map_view(final(st).indices)[x] >= old(st).index,
        old(st).stack@.len() <= final(st).stack@.len(),
        forall|a: int| 0 <= a < old(st).stack@.len() ==> #[trigger] final(st).stack@[a] == old(st).stack@[a],
        old(st).stack@.len() == 0 && base == old(st).index ==> final(st).stack@.len() == 0,
    decreases graph.node_count() - old(st).index,
{
    proof {
        graph.lemma_wf();
        lemma_numbered_bound(graph, st, v);
    }
    let ghost st0 = *st;
    let ghost p = st.stack@.len();
    let ghost i0 = st.index;
    count_map_insert(&mut st.indices, v, st.index);
    count_map_insert(&mut st.lowlinks, v, st.index);
    st.index = st.index + 1;
    st.stack.push(v);
    st.on_stack.insert(v);
    proof {
        let idx0 = count_map_view(st0.indices);
        let idx = count_map_view(st.indices);
        let low = count_map_view(st.lowlinks);
        let stack = st.stack@;
        assert(!st0.stack@.contains(v));
        assert(idx.dom() =~= idx0.dom().insert(v));
        assert forall|x: i64| #[trigger] stack.contains(x) <==> st0.stack@.contains(x) || x == v by {
            if stack.contains(x) {
                let a = choose|a: int| 0 <= a < stack.len() && stack[a] == x;
                if a < p {
                    assert(st0.stack@[a] == x);
                }
            }
            if st0.stack@.contains(x) {
                let a = choose|a: int| 0 <= a < st0.stack@.len() && st0.stack@[a] == x;
                assert(stack[a] == x);
            }
            if x == v {
                assert(stack[p as int] == v);
            }
        }
        assert forall|a: int, b: int| 0 <= a < b < stack.len() implies stack[a] != stack[b] by {
            if b == p {
                assert(st0.stack@.contains(stack[a]));
            }
        }
        assert forall|a: int, b: int| 0 <= a < b < stack.len() implies idx[#[trigger] stack[a]]
            < idx[#[trigger] stack[b]] by {
            assert(st0.stack@.contains(stack[a]));
            if b < p {
                assert(st0.stack@[a] == stack[a]);
                assert(st0.stack@[b] == stack[b]);
            }
        }
        assert forall|i: int, x: i64|
            0 <= i < st.components@.len() implies (#[trigger] st.components@[i]@.contains(x)
                <==> count_map_view(st.node_to_component).contains_key(x) && count_map_view(
                st.node_to_component,
            )[x] == i) by {
            assert(st0.components@[i]@.contains(x) <==> count_map_view(st0.node_to_component).contains_key(x)
                && count_map_view(st0.node_to_component)[x] == i);
        }
    }
    proof {
        assert(count_map_view(st.indices) =~= count_map_view(st0.indices).insert(v, count_map_view(st.indices)[v]));
        assert(count_map_view(st.lowlinks) =~= count_map_view(st0.lowlinks).insert(v, count_map_view(st.indices)[v]));
        lemma_scc_push(graph, &st0, &*st, act, v);
        lemma_push_contains(act, v);
        lemma_push_contains(st0.stack@, v);
        lemma_reaches_refl(graph, v);
        assert forall|y: i64| #[trigger] act.contains(y) implies count_map_view(st.indices)[y] < i0 by {
            assert(st0.stack@.contains(y));
        }
        assert(!act.contains(v)) by {
            if act.contains(v) {
                assert(st0.stack@.contains(v));
            }
        }
    }
    let neighbors = graph.fetch_outgoing(v)?;
    let mut j: usize = 0;
    while j < neighbors.len()
        invariant
            graph.wf(),
            neighbors@ == graph.succs(v),
            j <= neighbors@.len(),
            tarjan_inv(graph, st),
            tarjan_above(st, base),
            !act.contains(v),
            forall|y: i64| #[trigger] act.contains(y) ==> count_map_view(st.indices)[y] < i0,
            search_facts(graph, st, act, v, i0 as nat, st0.stack@, j as int, neighbors@),
            base <= i0,
            i0 == st0.index,
            i0 == old(st).index,
            !count_map_view(st0.indices).contains_key(v),
            count_map_view(st.indices).contains_key(v),
            count_map_view(st.indices)[v] == i0,
            st.index >= i0 + 1,
            p == st0.stack@.len(),
            p < st.stack@.len(),
            st.stack@[p as int] == v,
            forall|a: int| 0 <= a < p ==> #[trigger] st.stack@[a] == st0.stack@[a],
            forall|x: i64| #[trigger]
                count_map_view(st0.indices).contains_key(x) ==> count_map_view(st.indices).contains_key(x)
                    && count_map_view(st.indices)[x] == count_map_view(st0.indices)[x]
                    && count_map_view(st.lowlinks)[x] == count_map_view(st0.lowlinks)[x],
            forall|x: i64| #[trigger]
                count_map_view(st.indices).contains_key(x) && !count_map_view(st0.indices).contains_key(x)
                    ==> count_map_view(st.indices)[x] >= i0,
        decreases neighbors.len() - j,
    {
        let w = neighbors[j];
        proof {
            graph.lemma_wf();
            assert(graph.succs(v).contains(w));
        }
        match count_map_get(&st.indices, w) {
            None => {
                let ghost st1 = *st;
                proof {
                    lemma_numbered_bound(graph, st, w);
                }
                strongconnect(graph, st, w, Ghost(base), Ghost(act.push(v)))?;
                let ghost st2 = *st;
                let v_low = stored_value(&st.lowlinks, v);
                let w_low = stored_value(&st.lowlinks, w);
                let m = if v_low < w_low {
                    v_low
                } else {
                    w_low
                };
                proof {
                    assert(count_map_view(st1.indices).contains_key(v));
                    assert(count_map_view(st.indices)[w] >= base);
                }
                count_map_insert(&mut st.lowlinks, v, m);
                proof {
                    lemma_scc_after_child(graph, &st1, &st2, &*st, act, v, w, i0 as nat, st0.stack@, j as int, neighbors@);
                    lemma_push_contains(act, v);
                    assert forall|y: i64| #[trigger] act.contains(y) implies count_map_view(st.indices)[y] < i0 by {
                        assert(act.push(v).contains(y));
                        assert(st1.stack@.contains(y));
                        assert(count_map_view(st1.indices).contains_key(y));
                    }
                }
                proof {
                    let idx = count_map_view(st.indices);
                    let low = count_map_view(st.lowlinks);
                    assert forall|x: i64| #[trigger] low.contains_key(x) <==> idx.contains_key(x) by {}
                    assert forall|x: i64| #[trigger] idx.contains_key(x) implies low[x] <= idx[x] by {}
                    assert forall|x: i64| #[trigger] idx.contains_key(x) && idx[x] >= base implies low[x]
                        >= base by {}
                    assert forall|x: i64| #[trigger]
                        count_map_view(st0.indices).contains_key(x) implies count_map_view(st.indices).contains_key(x)
                            && count_map_view(st.indices)[x] == count_map_view(st0.indices)[x]
                            && count_map_view(st.lowlinks)[x] == count_map_view(st0.lowlinks)[x] by {
                        assert(count_map_view(st1.indices).contains_key(x));
                    }
                    assert forall|x: i64| #[trigger]
                        count_map_view(st.indices).contains_key(x) && !count_map_view(st0.indices).contains_key(x)
                            implies count_map_view(st.indices)[x] >= i0 by {
                        if count_map_view(st1.indices).contains_key(x) {
                        }
                    }
                }
            },
            Some(_) => {
                if st.on_stack.contains(&w) {
                    let v_low = stored_value(&st.lowlinks, v);
                    let w_idx = stored_value(&st.indices, w);
                    let m = if v_low < w_idx {
                        v_low
                    } else {
                        w_idx
                    };
                    proof {
                        assert(st.stack@.contains(w));
                    }
                    let ghost st1 = *st;
                    count_map_insert(&mut st.lowlinks, v, m);
                    proof {
                        lemma_scc_after_back_edge(graph, &st1, &*st, act, v, w, i0 as nat, st0.stack@, j as int, neighbors@);
                    }
                    proof {
                        let idx = count_map_view(st.indices);
                        let low = count_map_view(st.lowlinks);
                        assert forall|x: i64| #[trigger] low.contains_key(x) <==> idx.contains_key(x) by {}
                        assert forall|x: i64| #[trigger] idx.contains_key(x) implies low[x] <= idx[x] by {}
                        assert forall|x: i64| #[trigger] idx.contains_key(x) && idx[x] >= base implies low[x]
                            >= base by {}
                    }
                } else {
                    proof {
                        assert(!st.stack@.contains(w));
                        let idx = count_map_view(st.indices);
                        let low = count_map_view(st.lowlinks);
                        assert forall|k: int| 0 <= k < j + 1 implies idx.contains_key(#[trigger] neighbors@[k]) && (
                        st.stack@.contains(neighbors@[k]) ==> low[v] <= idx[neighbors@[k]]) by {}
                    }
                }
            },
        }
        j = j + 1;
    }
    let v_low = stored_value(&st.lowlinks, v);
    let v_idx = stored_value(&st.indices, v);
    proof {
        let idx = count_map_view(st.indices);
        let low = count_map_view(st.lowlinks);
        assert forall|z: i64| #[trigger] graph.has_edge(v, z) implies idx.contains_key(z) && (st.stack@.contains(z) ==> low[v]
            <= idx[z]) by {
            assert(neighbors@.contains(z));
            let k = choose|k: int| 0 <= k < neighbors@.len() && neighbors@[k] == z;
            assert(idx.contains_key(neighbors@[k]));
        }
    }
    if v_low == v_idx {
        let ghost sb = st.stack@;
        let ghost ntc_b = count_map_view(st.node_to_component);
        let ghost comps_b = st.components@;
        let ghost stb = *st;
        let mut component: Vec<i64> = Vec::new();
        let mut done = false;
        while !done
            invariant
                count_map_view(st.indices) == count_map_view(stb.indices),
                count_map_view(st.lowlinks) == count_map_view(stb.lowlinks),
                st.index == stb.index,
                st.components@ == comps_b,
                sb == stb.stack@,
                ntc_b == count_map_view(stb.node_to_component),
                sb.no_duplicates(),
                p < sb.len(),
                sb[p as int] == v,
                st.stack@.len() <= sb.len(),
                forall|a: int| 0 <= a < st.stack@.len() ==> #[trigger] st.stack@[a] == sb[a],
                !done ==> st.stack@.len() > p,
                done ==> st.stack@.len() == p,
                component@.len() + st.stack@.len() == sb.len(),
                forall|c: int| 0 <= c < component@.len() ==> #[trigger] component@[c] == sb[sb.len() - 1 - c],
                forall|x: i64| #[trigger] st.on_stack@.contains(x) <==> st.stack@.contains(x),
                forall|x: i64| #[trigger]
                    count_map_view(st.node_to_component).contains_key(x) <==> ntc_b.contains_key(x)
                        || component@.contains(x),
                forall|x: i64| #[trigger]
                    ntc_b.contains_key(x) ==> count_map_view(st.node_to_component)[x] == ntc_b[x],
                forall|x: i64| #[trigger]
                    component@.contains(x) ==> count_map_view(st.node_to_component)[x] == comps_b.len(),
                component@.no_duplicates(),
                forall|x: i64| #[trigger] component@.contains(x) ==> !ntc_b.contains_key(x),
                forall|x: i64| #[trigger] sb.contains(x) ==> !ntc_b.contains_key(x),
            decreases st.stack@.len(),
        {
            let ghost s0 = st.stack@;
            let ghost c0 = component@;
            let ghost n0 = count_map_view(st.node_to_component);
            let w = st.stack.pop().unwrap();
            st.on_stack.remove(&w);
            count_map_insert(&mut st.node_to_component, w, st.components.len());
            component.push(w);
            proof {
                assert(w == sb[s0.len() - 1]);
                assert(sb.contains(w));
                assert forall|x: i64| #[trigger] st.stack@.contains(x) <==> s0.contains(x) && x != w by {
                    if st.stack@.contains(x) {
                        let a = choose|a: int| 0 <= a < st.stack@.len() && st.stack@[a] == x;
                        assert(s0[a] == x);
                        assert(sb[a] == x);
                    }
                    if s0.contains(x) && x != w {
                        let a = choose|a: int| 0 <= a < s0.len() && s0[a] == x;
                        assert(a != s0.len() - 1);
                        assert(st.stack@[a] == x);
                    }
                }
                assert forall|x: i64| #[trigger] component@.contains(x) <==> c0.contains(x) || x == w by {
                    if component@.contains(x) {
                        let c = choose|c: int| 0 <= c < component@.len() && component@[c] == x;
                        if c < c0.len() {
                            assert(c0[c] == x);
                        }
                    }
                    if c0.contains(x) {
                        let c = choose|c: int| 0 <= c < c0.len() && c0[c] == x;
                        assert(component@[c] == x);
                    }
                    if x == w {
                        assert(component@[component@.len() - 1] == w);
                    }
                }
                assert forall|a: int, b: int| 0 <= a < b < component@.len() implies component@[a]
                    != component@[b] by {
                    if b == component@.len() - 1 {
                        assert(component@[a] == sb[sb.len() - 1 - a]);
                    }
                }
                assert forall|c: int| 0 <= c < component@.len() implies #[trigger] component@[c]
                    == sb[sb.len() - 1 - c] by {
                    if c < c0.len() {
                        assert(c0[c] == component@[c]);
                    }
                }
            }
            if w == v {
                done = true;
            }
            proof {
                if !done {
                    assert(s0.len() - 1 != p) by {
                        if s0.len() - 1 == p {
                            assert(sb[p as int] == v);
                        }
                    }
                }
            }
        }
        let ghost cfinal = component@;
        st.components.push(component);
        proof {
            let stack = st.stack@;
            let ntc = count_map_view(st.node_to_component);
            let idx = count_map_view(st.indices);
            let comps = st.components@;
            let k = comps_b.len();
            assert forall|x: i64| #[trigger] cfinal.contains(x) <==> sb.contains(x) && !stack.contains(x) by {
                if cfinal.contains(x) {
                    let c = choose|c: int| 0 <= c < cfinal.len() && cfinal[c] == x;
                    assert(sb[sb.len() - 1 - c] == x);
                    if stack.contains(x) {
                        let a = choose|a: int| 0 <= a < stack.len() && stack[a] == x;
                        assert(sb[a] == x);
                    }
                }
                if sb.contains(x) && !stack.contains(x) {
                    let a = choose|a: int| 0 <= a < sb.len() && sb[a] == x;
                    if a < p {
                        assert(stack[a] == x);
                    } else {
                        assert(cfinal[sb.len() - 1 - a] == x);
                    }
                }
            }
            assert forall|x: i64| #[trigger] stack.contains(x) ==> sb.contains(x) by {
                if stack.contains(x) {
                    let a = choose|a: int| 0 <= a < stack.len() && stack[a] == x;
                    assert(sb[a] == x);
                }
            }
            assert forall|x: i64| #[trigger] ntc.contains_key(x) <==> idx.contains_key(x) && !stack.contains(x) by {
                if idx.contains_key(x) && !stack.contains(x) && !sb.contains(x) {
                    assert(ntc_b.contains_key(x));
                }
            }
            assert forall|i: int, x: i64|
                0 <= i < comps.len() implies (#[trigger] comps[i]@.contains(x) <==> ntc.contains_key(x)
                    && ntc[x] == i) by {
                if i < k {
                    assert(comps[i] == comps_b[i]);
                    assert(comps_b[i]@.contains(x) <==> ntc_b.contains_key(x) && ntc_b[x] == i);
                } else {
                    assert(comps[i]@ == cfinal);
                }
            }
            assert forall|i: int| 0 <= i < comps.len() implies (#[trigger] comps[i]@).len() > 0
                && comps[i]@.no_duplicates() by {
                if i < k {
                    assert(comps[i] == comps_b[i]);
                }
            }
            assert forall|x: i64| #[trigger] ntc.contains_key(x) implies ntc[x] < comps.len() by {}
            assert forall|a: int, b: int| 0 <= a < b < stack.len() implies stack[a] != stack[b] by {
                assert(stack[a] == sb[a]);
                assert(stack[b] == sb[b]);
            }
            assert forall|a: int, b: int| 0 <= a < b < stack.len() implies idx[#[trigger] stack[a]]
                < idx[#[trigger] stack[b]] by {
                assert(stack[a] == sb[a]);
                assert(stack[b] == sb[b]);
            }
        }
        proof {
            let stack = st.stack@;
            let idx = count_map_view(stb.indices);
            let ntc = count_map_view(st.node_to_component);
            let k = comps_b.len();
            assert(stack.len() == p);
            assert forall|x: i64| #[trigger] stack.contains(x) <==> sb.contains(x) && idx[x] < idx[v] by {
                if stack.contains(x) {
                    let a = choose|a: int| 0 <= a < stack.len() && stack[a] == x;
                    assert(sb[a] == x);
                    assert(idx[sb[a]] < idx[sb[p as int]]);
                }
                if sb.contains(x) && idx[x] < idx[v] {
                    let a = choose|a: int| 0 <= a < sb.len() && sb[a] == x;
                    if a > p {
                        assert(idx[sb[p as int]] < idx[sb[a]]);
                    }
                    assert(a < p);
                    assert(stack[a] == x);
                }
            }
            assert forall|x: i64| #[trigger] ntc.contains_key(x) <==> ntc_b.contains_key(x) || (sb.contains(x) && idx[x]
                >= idx[v]) by {
                assert(cfinal.contains(x) <==> sb.contains(x) && !stack.contains(x));
            }
            assert forall|x: i64| #[trigger] ntc_b.contains_key(x) implies ntc[x] == ntc_b[x] && ntc_b[x] < k by {}
            assert forall|x: i64| #[trigger] sb.contains(x) && idx[x] >= idx[v] implies ntc[x] == k by {
                assert(cfinal.contains(x));
            }
            lemma_root_pop(graph, &stb, &*st, act, v, k as nat);
            assert(stack =~= st0.stack@);
        }
    } else {
        proof {
            lemma_scc_nonroot(graph, &*st, act, v);
        }
    }
    proof {
        assert forall|a: int| 0 <= a < st0.stack@.len() implies #[trigger] st.stack@[a] == st0.stack@[a] by {}
    }
    Ok(())
}

/// The strongly connected components of the graph, found by Tarjan's algorithm: they
/// split the nodes, two nodes share a component exactly when each reaches the other,
/// and the result maps each node to the index of its component.
pub fn strongly_connected_components(graph: &Graph) -> (r: Result<SccResult, SqliteGraphError>)
    requires
        graph.wf(),
    ensures
        match r {
            Ok(res) => {
                &&& is_node_partition(graph, res.components@, count_map_view(res.node_to_component))
                &&& forall|x: i64, y: i64|
                    graph.is_node(x) && graph.is_node(y) ==> (#[trigger] count_map_view(res.node_to_component)[x]
                        == #[trigger] count_map_view(res.node_to_component)[y] <==> mutual(graph, x, y))
            },
            Err(_) => false,
        },
{
    let all_ids = graph.all_entity_ids()?;
    proof {
        graph.lemma_wf();
    }
    if all_ids.len() == 0 {
        let res = SccResult { components: Vec::new(), node_to_component: count_map_new() };
        proof {
            assert forall|x: i64| #[trigger] count_map_view(res.node_to_component).contains_key(x)
                <==> graph.is_node(x) by {}
        }
        return Ok(res);
    }
    let mut st = Tarjan {
        index: 0,
        stack: Vec::new(),
        on_stack: HashSet::new(),
        indices: count_map_new(),
        lowlinks: count_map_new(),
        components: Vec::new(),
        node_to_component: count_map_new(),
    };
    proof {
        assert(count_map_view(st.indices).dom() =~= Set::<i64>::empty());
        assert(scc_inv(graph, &st, Seq::<i64>::empty()));
    }
    let mut i: usize = 0;
    while i < all_ids.len()
        invariant
            graph.wf(),
            all_ids@ == node_ids(graph.node_count()),
            i <= all_ids@.len(),
            tarjan_inv(graph, &st),
            scc_inv(graph, &st, Seq::<i64>::empty()),
            st.stack@.len() == 0,
            forall|x: i64| 1 <= x <= i ==> #[trigger] count_map_view(st.indices).contains_key(x),
        decreases all_ids.len() - i,
    {
        let v = all_ids[i];
        proof {
            graph.lemma_wf();
            assert(v == i + 1);
        }
        match count_map_get(&st.indices, v) {
            None => {
                let ghost base: nat = st.index as nat;
                let ghost sb = st;
                proof {
                    assert(tarjan_above(&st, base));
                }
                strongconnect(graph, &mut st, v, Ghost(base), Ghost(Seq::<i64>::empty()))?;
                proof {
                    assert forall|x: i64| 1 <= x <= i + 1 implies #[trigger] count_map_view(
                        st.indices,
                    ).contains_key(x) by {
                        if x <= i {
                            assert(count_map_view(sb.indices).contains_key(x));
                        }
                    }
                }
            },
            Some(_) => {},
        }
        i = i + 1;
    }
    proof {
        let ntc = count_map_view(st.node_to_component);
        assert forall|x: i64| #[trigger] ntc.contains_key(x) <==> graph.is_node(x) by {
            if graph.is_node(x) {
                assert(count_map_view(st.indices).contains_key(x));
            }
        }
        assert forall|x: i64, y: i64| graph.is_node(x) && graph.is_node(y) implies (#[trigger] ntc[x] == #[trigger] ntc[y]
            <==> mutual(graph, x, y)) by {
            assert(ntc.contains_key(x) && ntc.contains_key(y));
        }
    }
    Ok(SccResult { components: st.components, node_to_component: st.node_to_component })
}

} // verus!
