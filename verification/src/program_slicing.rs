//! Program slices: the nodes that a node depends on (backward) or that depend on it
//! (forward), by control dependence and by data flow along the graph's edges.
use std::collections::VecDeque;

use vstd::prelude::*;

use crate::control_dependence::{cd_path, controls_in, ControlDependenceResult};
use crate::error::SqliteGraphError;
use crate::graph::Graph;
use crate::hashing::{id_set_contains, id_set_insert, id_set_len, id_set_new, id_set_to_vec, id_set_view, set_map_get, set_map_keys, set_map_view, SetMap};
use crate::progress::{NoProgress, ProgressCallback};
use crate::reach::{lemma_bounded_set, lemma_within_prepend, reaches, within};
use crate::text::{decimal, usize_text};

verus! {

/// `b` is reached from `a` over the edges of the dependence map `m`.
pub open spec fn map_reaches(m: Map<i64, ahash::AHashSet<i64>>, a: i64, b: i64) -> bool {
    exists|k: nat| #[trigger] cd_path(m, a, b, k)
}

/// Every node that `start` reaches over at least one edge of `m`.
pub open spec fn closure_less_start(m: Map<i64, ahash::AHashSet<i64>>, start: i64) -> Set<i64> {
    Set::new(|v: i64| v != start && map_reaches(m, start, v))
}

/// A set that holds `a` and is closed under the edges of `m` holds every node that `a`
/// reaches.
proof fn lemma_map_closed(m: Map<i64, ahash::AHashSet<i64>>, vis: Set<i64>, a: i64, b: i64, k: nat)
    requires
        vis.contains(a),
        forall|x: i64, y: i64| vis.contains(x) && #[trigger] controls_in(m, x, y) ==> vis.contains(y),
        cd_path(m, a, b, k),
    ensures
        vis.contains(b),
    decreases k,
{
    if k > 0 {
        let c = choose|c: i64| cd_path(m, a, c, (k - 1) as nat) && #[trigger] controls_in(m, c, b);
        lemma_map_closed(m, vis, a, c, (k - 1) as nat);
    }
}

/// The progress message after `visited` nodes, with `control` control nodes.
fn slice_message(label: &str, visited: usize, control: usize) -> (s: String)
    ensures
        s@ == label@ + ": visited "@ + decimal(visited as int) + " nodes, "@ + decimal(control as int)
            + " control, 0 data"@,
{
    let mut msg = String::from_str(label);
    msg.append(": visited ");
    msg.append(usize_text(visited).as_str());
    msg.append(" nodes, ");
    msg.append(usize_text(control).as_str());
    msg.append(" control, 0 data");
    msg
}

/// The nodes that `start` reaches over at least one edge of `m`, by breadth-first
/// search, reporting after every tenth node taken from the queue.
fn control_closure<F: ProgressCallback>(m: &SetMap, start: i64, progress: &F, label: &str) -> (control: ahash::AHashSet<i64>)
    ensures
        id_set_view(control) == closure_less_start(set_map_view(*m), start),
{
    let ghost mv = set_map_view(*m);
    let mut control_nodes = id_set_new();
    let mut visited = id_set_new();
    let mut queue: VecDeque<i64> = VecDeque::new();
    let mut nodes_processed: usize = 0;
    queue.push_back(start);
    id_set_insert(&mut visited, start);
    let keys = set_map_keys(m);
    proof {
        assert(mv.dom() == keys@.to_set());
        assert(queue@[0] == start);
        assert(cd_path(mv, start, start, 0));
    }
    while queue.len() > 0
        invariant
            mv == set_map_view(*m),
            mv.dom().finite(),
            id_set_view(visited).contains(start),
            forall|x: i64| #[trigger] id_set_view(visited).contains(x) ==> map_reaches(mv, start, x),
            forall|x: i64| #[trigger] id_set_view(control_nodes).contains(x) <==> id_set_view(visited).contains(x) && x != start,
            forall|x: i64| #[trigger] queue@.contains(x) ==> id_set_view(visited).contains(x),
            queue@.no_duplicates(),
            forall|x: i64, y: i64|
                id_set_view(visited).contains(x) && !queue@.contains(x) && #[trigger] controls_in(mv, x, y) ==> id_set_view(visited).contains(y),
            nodes_processed == id_set_view(visited).len() - queue@.len(),
            id_set_view(visited).finite(),
        decreases mv.dom().difference(id_set_view(visited).difference(queue@.to_set())).len(), queue@.len(),
    {
        let ghost q0 = queue@;
        let ghost p0 = id_set_view(visited).difference(q0.to_set());
        let node = queue.pop_front().unwrap();
        let ghost q1 = queue@;
        proof {
            assert(q0[0] == node);
            assert(q0.contains(node));
            assert forall|x: i64| #[trigger] q1.contains(x) <==> q0.contains(x) && x != node by {
                if q1.contains(x) {
                    let i = choose|i: int| 0 <= i < q1.len() && q1[i] == x;
                    assert(q0[i + 1] == x);
                    assert(q0[0] != q0[i + 1]);
                }
                if q0.contains(x) && x != node {
                    let i = choose|i: int| 0 <= i < q0.len() && q0[i] == x;
                    assert(i != 0);
                    assert(q1[i - 1] == x);
                }
            }
        }
        let vlen = id_set_len(&visited);
        nodes_processed = nodes_processed + 1;
        if nodes_processed % 10 == 0 {
            let msg = slice_message(label, nodes_processed, id_set_len(&control_nodes));
            progress.on_progress(nodes_processed, None, msg.as_str());
        }
        let ghost vis_start = id_set_view(visited);
        match set_map_get(m, node) {
            Some(deps) => {
                let items = id_set_to_vec(deps);
                let mut j: usize = 0;
                while j < items.len()
                    invariant
                        mv == set_map_view(*m),
                        mv.contains_key(node),
                        items@.to_set() == id_set_view(mv[node]),
                        j <= items@.len(),
                        map_reaches(mv, start, node),
                        id_set_view(visited).contains(node),
                        !queue@.contains(node),
                        id_set_view(visited).contains(start),
                        forall|x: i64| #[trigger] id_set_view(visited).contains(x) ==> map_reaches(mv, start, x),
                        forall|x: i64| #[trigger] id_set_view(control_nodes).contains(x) <==> id_set_view(visited).contains(x) && x != start,
                        forall|x: i64| #[trigger] queue@.contains(x) ==> id_set_view(visited).contains(x),
                        queue@.no_duplicates(),
                        forall|x: i64, y: i64|
                            id_set_view(visited).contains(x) && !queue@.contains(x) && x != node && #[trigger] controls_in(mv, x, y) ==> id_set_view(visited).contains(y),
                        forall|k: int| 0 <= k < j ==> id_set_view(visited).contains(#[trigger] items@[k]),
                        vis_start.subset_of(id_set_view(visited)),
                        forall|x: i64| #[trigger] id_set_view(visited).contains(x) && !vis_start.contains(x) ==> queue@.contains(x),
                        forall|x: i64| #[trigger] q1.contains(x) ==> queue@.contains(x),
                        forall|x: i64| #[trigger] queue@.contains(x) && !q1.contains(x) ==> !vis_start.contains(x),
                        id_set_view(visited).len() + q1.len() == vis_start.len() + queue@.len(),
                        id_set_view(visited).finite(),
                    decreases items.len() - j,
                {
                    let dep = items[j];
                    proof {
                        assert(items@.to_set().contains(dep));
                        assert(controls_in(mv, node, dep));
                    }
                    let ghost qb = queue@;
                    let ghost vb = id_set_view(visited);
                    if id_set_insert(&mut visited, dep) {
                        id_set_insert(&mut control_nodes, dep);
                        queue.push_back(dep);
                        proof {
                            let k = choose|k: nat| #[trigger] cd_path(mv, start, node, k);
                            assert(cd_path(mv, start, dep, k + 1));
                            assert(dep != start);
                            assert forall|x: i64| #[trigger] queue@.contains(x) <==> qb.contains(x) || x == dep by {
                                if queue@.contains(x) {
                                    let i = choose|i: int| 0 <= i < queue@.len() && queue@[i] == x;
                                    if i < qb.len() {
                                        assert(qb[i] == x);
                                    }
                                }
                                if qb.contains(x) {
                                    let i = choose|i: int| 0 <= i < qb.len() && qb[i] == x;
                                    assert(queue@[i] == x);
                                }
                                if x == dep {
                                    assert(queue@[qb.len() as int] == x);
                                }
                            }
                            assert forall|a: int, b: int| 0 <= a < b < queue@.len() implies queue@[a] != queue@[b] by {
                                if b == queue@.len() - 1 {
                                    assert(qb.contains(qb[a]));
                                }
                            }
                        }
                    }
                    j = j + 1;
                }
                proof {
                    assert forall|x: i64, y: i64|
                        id_set_view(visited).contains(x) && !queue@.contains(x) && #[trigger] controls_in(mv, x, y) implies id_set_view(visited).contains(y) by {
                        if x == node {
                            assert(items@.to_set().contains(y));
                            let k = choose|k: int| 0 <= k < items@.len() && items@[k] == y;
                            assert(id_set_view(visited).contains(items@[k]));
                        }
                    }
                }
            },
            None => {
                proof {
                    assert(queue@ == q1);
                    assert(id_set_view(visited) == vis_start);
                    assert forall|x: i64, y: i64|
                        id_set_view(visited).contains(x) && !queue@.contains(x) && #[trigger] controls_in(mv, x, y) implies id_set_view(visited).contains(y) by {}
                }
            },
        }
        proof {
            let p1 = id_set_view(visited).difference(queue@.to_set());
            assert(p1 =~= p0.insert(node)) by {
                assert forall|x: i64| #[trigger] p1.contains(x) <==> p0.contains(x) || x == node by {
                    assert(queue@.to_set().contains(x) <==> queue@.contains(x));
                    assert(q0.to_set().contains(x) <==> q0.contains(x));
                    if id_set_view(visited).contains(x) && !vis_start.contains(x) {
                        assert(queue@.contains(x));
                    }
                    if q1.contains(x) {
                        assert(queue@.contains(x));
                    }
                    if queue@.contains(x) && vis_start.contains(x) {
                        assert(q1.contains(x));
                    }
                }
            }
            assert(!p0.contains(node)) by {
                assert(q0.to_set().contains(node));
            }
            if mv.contains_key(node) {
                let d0 = mv.dom().difference(p0);
                assert(mv.dom().difference(p1) =~= d0.remove(node));
                assert(d0.contains(node));
            } else {
                assert(mv.dom().difference(p1) =~= mv.dom().difference(p0));
                assert(queue@.len() == q1.len());
            }
            vstd::seq_lib::seq_to_set_is_finite(queue@);
            assert(queue@.to_set().subset_of(id_set_view(visited)));
            queue@.unique_seq_to_set();
            assert(p1.len() == id_set_view(visited).len() - queue@.len()) by {
                vstd::set_lib::lemma_set_intersect_union_lens(id_set_view(visited), queue@.to_set());
                assert(id_set_view(visited).intersect(queue@.to_set()) =~= queue@.to_set());
                assert(id_set_view(visited).difference(queue@.to_set()) =~= p1);
                vstd::set_lib::lemma_set_difference_len(id_set_view(visited), queue@.to_set());
            }
        }
    }
    proof {
        assert forall|v: i64| #[trigger] id_set_view(control_nodes).contains(v) <==> closure_less_start(mv, start).contains(v) by {
            if v != start && map_reaches(mv, start, v) {
                let k = choose|k: nat| #[trigger] cd_path(mv, start, v, k);
                lemma_map_closed(mv, id_set_view(visited), start, v, k);
            }
        }
        assert(id_set_view(control_nodes) =~= closure_less_start(mv, start));
    }
    control_nodes
}

/// A set that holds `w` and every source of an edge into one of its members holds
/// every node that reaches `w`.
proof fn lemma_back_closed(g: &Graph, vis: Set<i64>, w: i64, v: i64, k: nat)
    requires
        vis.contains(w),
        forall|x: i64, p: i64| vis.contains(x) && #[trigger] g.has_edge(p, x) ==> vis.contains(p),
        within(g, v, w, k),
    ensures
        vis.contains(v),
    decreases k,
{
    if w != v {
        let u = choose|u: i64| #[trigger] g.has_edge(u, w) && within(g, v, u, (k - 1) as nat);
        lemma_back_closed(g, vis, u, v, (k - 1) as nat);
    }
}

/// Every node that reaches `target` along the graph's edges, `target` included.
pub fn reverse_reachable_from(graph: &Graph, target: i64) -> (r: Result<ahash::AHashSet<i64>, SqliteGraphError>)
    requires
        graph.wf(),
    ensures
        r matches Ok(s) && id_set_view(s) == Set::new(|v: i64| reaches(graph, v, target)),
{
    let mut visited = id_set_new();
    let mut stack: Vec<i64> = Vec::new();
    id_set_insert(&mut visited, target);
    stack.push(target);
    proof {
        graph.lemma_wf();
        assert(within(graph, target, target, 0));
        assert(stack@[0] == target);
    }
    while stack.len() > 0
        invariant
            graph.wf(),
            id_set_view(visited).contains(target),
            forall|x: i64| #[trigger] id_set_view(visited).contains(x) ==> reaches(graph, x, target),
            forall|x: i64| #[trigger] id_set_view(visited).contains(x) ==> graph.is_node(x) || x == target,
            forall|x: i64| #[trigger] stack@.contains(x) ==> id_set_view(visited).contains(x),
            stack@.no_duplicates(),
            forall|x: i64, p: i64|
                id_set_view(visited).contains(x) && !stack@.contains(x) && #[trigger] graph.has_edge(p, x) ==> id_set_view(visited).contains(p),
        decreases graph.node_count() + 1 - id_set_view(visited).len(), stack@.len(),
    {
        proof {
            lemma_bounded_set(graph, target, id_set_view(visited));
        }
        let ghost s0 = stack@;
        let node = stack.pop().unwrap();
        let ghost s1 = stack@;
        proof {
            assert(s0 =~= s1.push(node));
            assert forall|x: i64| #[trigger] s1.contains(x) <==> s0.contains(x) && x != node by {
                if s1.contains(x) {
                    let i = choose|i: int| 0 <= i < s1.len() && s1[i] == x;
                    assert(s0[i] == x);
                    assert(s0[i] != s0[s0.len() - 1]);
                }
                if s0.contains(x) && x != node {
                    let i = choose|i: int| 0 <= i < s0.len() && s0[i] == x;
                    assert(i != s0.len() - 1);
                    assert(s1[i] == x);
                }
            }
            assert(s0.contains(node)) by {
                assert(s0[s0.len() - 1] == node);
            }
        }
        let preds = graph.fetch_incoming(node).unwrap();
        let ghost vis_start = id_set_view(visited);
        let ghost node_k = choose|k: nat| #[trigger] within(graph, node, target, k);
        let mut j: usize = 0;
        while j < preds.len()
            invariant
                graph.wf(),
                preds@ == graph.preds(node),
                j <= preds@.len(),
                within(graph, node, target, node_k),
                id_set_view(visited).contains(node),
                !stack@.contains(node),
                id_set_view(visited).contains(target),
                forall|x: i64| #[trigger] id_set_view(visited).contains(x) ==> reaches(graph, x, target),
                forall|x: i64| #[trigger] id_set_view(visited).contains(x) ==> graph.is_node(x) || x == target,
                forall|x: i64| #[trigger] stack@.contains(x) ==> id_set_view(visited).contains(x),
                stack@.no_duplicates(),
                forall|x: i64, p: i64|
                    id_set_view(visited).contains(x) && !stack@.contains(x) && x != node && #[trigger] graph.has_edge(p, x) ==> id_set_view(visited).contains(p),
                forall|k: int| 0 <= k < j ==> id_set_view(visited).contains(#[trigger] preds@[k]),
                vis_start.subset_of(id_set_view(visited)),
                id_set_view(visited).finite(),
                id_set_view(visited).len() + s1.len() == vis_start.len() + stack@.len(),
            decreases preds.len() - j,
        {
            let p = preds[j];
            proof {
                graph.lemma_wf();
                assert(graph.preds(node).contains(p));
                assert(graph.has_edge(p, node));
            }
            let ghost sb = stack@;
            let ghost vb = id_set_view(visited);
            if !id_set_contains(&visited, p) {
                id_set_insert(&mut visited, p);
                stack.push(p);
                proof {
                    lemma_within_prepend(graph, p, node, target, node_k);
                    assert forall|x: i64| #[trigger] stack@.contains(x) <==> sb.contains(x) || x == p by {
                        if stack@.contains(x) {
                            let i = choose|i: int| 0 <= i < stack@.len() && stack@[i] == x;
                            if i < sb.len() {
                                assert(sb[i] == x);
                            }
                        }
                        if sb.contains(x) {
                            let i = choose|i: int| 0 <= i < sb.len() && sb[i] == x;
                            assert(stack@[i] == x);
                        }
                        if x == p {
                            assert(stack@[sb.len() as int] == x);
                        }
                    }
                    assert forall|a: int, b: int| 0 <= a < b < stack@.len() implies stack@[a] != stack@[b] by {
                        if b == stack@.len() - 1 {
                            assert(sb.contains(sb[a]));
                        }
                    }
                    lemma_bounded_set(graph, target, vb);
                }
            }
            j = j + 1;
        }
        proof {
            assert forall|x: i64, q: i64|
                id_set_view(visited).contains(x) && !stack@.contains(x) && #[trigger] graph.has_edge(q, x) implies id_set_view(visited).contains(q) by {
                if x == node {
                    graph.lemma_wf();
                    assert(graph.preds(node).contains(q));
                    let k = choose|k: int| 0 <= k < preds@.len() && preds@[k] == q;
                    assert(id_set_view(visited).contains(preds@[k]));
                }
            }
            lemma_bounded_set(graph, target, id_set_view(visited));
            vstd::set_lib::lemma_len_subset(vis_start, id_set_view(visited));
        }
    }
    proof {
        assert forall|v: i64| #[trigger] id_set_view(visited).contains(v) <==> reaches(graph, v, target) by {
            if reaches(graph, v, target) {
                let k = choose|k: nat| #[trigger] within(graph, v, target, k);
                lemma_back_closed(graph, id_set_view(visited), target, v, k);
            }
        }
        assert(id_set_view(visited) =~= Set::new(|v: i64| reaches(graph, v, target)));
    }
    Ok(visited)
}

/// Every node that `start` reaches along the graph's edges, `start` included.
pub fn reachable_from(graph: &Graph, start: i64) -> (r: Result<ahash::AHashSet<i64>, SqliteGraphError>)
    requires
        graph.wf(),
    ensures
        r matches Ok(s) && id_set_view(s) == Set::new(|v: i64| reaches(graph, start, v)),
{
    let order = crate::traversal::bfs_traversal(graph, start)?;
    let mut set = id_set_new();
    id_set_insert(&mut set, start);
    let mut i: usize = 0;
    while i < order.len()
        invariant
            i <= order@.len(),
            forall|v: i64| #[trigger] id_set_view(set).contains(v) <==> v == start || order@.take(i as int).contains(v),
        decreases order.len() - i,
    {
        let v = order[i];
        id_set_insert(&mut set, v);
        proof {
            let t0 = order@.take(i as int);
            let t1 = order@.take(i + 1);
            assert(t1 =~= t0.push(v));
            assert forall|y: i64| #[trigger] t1.contains(y) <==> t0.contains(y) || y == v by {
                if t1.contains(y) {
                    let k = choose|k: int| 0 <= k < t1.len() && t1[k] == y;
                    if k < t0.len() {
                        assert(t0[k] == y);
                    }
                }
                if t0.contains(y) {
                    let k = choose|k: int| 0 <= k < t0.len() && t0[k] == y;
                    assert(t1[k] == y);
                }
                if y == v {
                    assert(t1[i as int] == y);
                }
            }
        }
        i = i + 1;
    }
    proof {
        assert(order@.take(order@.len() as int) =~= order@);
        assert(within(graph, start, start, 0));
        assert(id_set_view(set) =~= Set::new(|v: i64| reaches(graph, start, v)));
    }
    Ok(set)
}

/// A slice: the node it is taken from, the nodes it holds, split into those reached by
/// control dependence and those reached by data flow, and its size.
#[derive(Debug)]
pub struct SliceResult {
    /// The node the slice is taken from.
    pub criterion: i64,
    /// Every node of the slice: the criterion, the control nodes and the data nodes.
    pub slice_nodes: ahash::AHashSet<i64>,
    /// The nodes reached by control dependence.
    pub control_nodes: ahash::AHashSet<i64>,
    /// The nodes reached by data flow.
    pub data_nodes: ahash::AHashSet<i64>,
    /// The number of nodes of the slice.
    pub size: usize,
}

/// The ids of `s` in increasing order, each once.
fn sorted_ids(s: &ahash::AHashSet<i64>) -> (r: Vec<i64>)
    ensures
        forall|i: int, j: int| 0 <= i < j < r@.len() ==> #[trigger] r@[i] < #[trigger] r@[j],
        r@.to_set() == id_set_view(*s),
{
    let mut rest = id_set_to_vec(s);
    let ghost orig = rest@;
    let mut r: Vec<i64> = Vec::new();
    while rest.len() > 0
        invariant
            rest@.no_duplicates(),
            forall|i: int, j: int| 0 <= i < j < r@.len() ==> #[trigger] r@[i] < #[trigger] r@[j],
            forall|i: int, j: int| 0 <= i < r@.len() && 0 <= j < rest@.len() ==> #[trigger] r@[i] < #[trigger] rest@[j],
            forall|x: i64| #[trigger] orig.contains(x) <==> r@.contains(x) || rest@.contains(x),
        decreases rest.len(),
    {
        let mut m: usize = 0;
        let mut j: usize = 1;
        while j < rest.len()
            invariant
                0 < rest@.len(),
                m < j <= rest@.len(),
                forall|a: int| 0 <= a < j ==> rest@[m as int] <= #[trigger] rest@[a],
            decreases rest.len() - j,
        {
            if rest[j] < rest[m] {
                m = j;
            }
            j = j + 1;
        }
        let ghost r0 = r@;
        let ghost s0 = rest@;
        let x = rest.remove(m);
        r.push(x);
        proof {
            assert forall|a: int| 0 <= a < s0.len() && a != m implies x < #[trigger] s0[a] by {
                assert(s0[a] != s0[m as int]);
            }
            assert forall|i: int, j: int| 0 <= i < j < r@.len() implies #[trigger] r@[i] < #[trigger] r@[j] by {
                if j == r@.len() - 1 {
                    assert(r@[i] == r0[i]);
                    assert(r0[i] < s0[m as int]);
                }
            }
            assert forall|i: int, j: int| 0 <= i < r@.len() && 0 <= j < rest@.len() implies #[trigger] r@[i] < #[trigger] rest@[j] by {
                let k = if j < m {
                    j
                } else {
                    j + 1
                };
                assert(rest@[j] == s0[k]);
                if i < r0.len() {
                    assert(r@[i] == r0[i]);
                }
            }
            assert forall|y: i64| #[trigger] orig.contains(y) <==> r@.contains(y) || rest@.contains(y) by {
                if s0.contains(y) {
                    let k = choose|k: int| 0 <= k < s0.len() && s0[k] == y;
                    if k < m {
                        assert(rest@[k] == y);
                    } else if k > m {
                        assert(rest@[k - 1] == y);
                    } else {
                        assert(r@[r@.len() - 1] == y);
                    }
                }
                if r0.contains(y) {
                    let k = choose|k: int| 0 <= k < r0.len() && r0[k] == y;
                    assert(r@[k] == y);
                }
                if rest@.contains(y) {
                    let k = choose|k: int| 0 <= k < rest@.len() && rest@[k] == y;
                    if k < m {
                        assert(s0[k] == y);
                    } else {
                        assert(s0[k + 1] == y);
                    }
                }
                if r@.contains(y) {
                    let k = choose|k: int| 0 <= k < r@.len() && r@[k] == y;
                    if k < r0.len() {
                        assert(r0[k] == y);
                    }
                }
            }
            assert forall|a: int, b: int| 0 <= a < b < rest@.len() implies rest@[a] != rest@[b] by {
                let ka = if a < m {
                    a
                } else {
                    a + 1
                };
                let kb = if b < m {
                    b
                } else {
                    b + 1
                };
                assert(rest@[a] == s0[ka]);
                assert(rest@[b] == s0[kb]);
            }
        }
    }
    proof {
        assert(r@.to_set() =~= orig.to_set());
    }
    r
}

impl SliceResult {
    /// `node` lies in the slice.
    pub fn contains(&self, node: i64) -> (b: bool)
        ensures
            b == id_set_view(self.slice_nodes).contains(node),
    {
        id_set_contains(&self.slice_nodes, node)
    }

    /// The nodes of the slice in increasing order.
    pub fn sorted_nodes(&self) -> (v: Vec<i64>)
        ensures
            forall|i: int, j: int| 0 <= i < j < v@.len() ==> #[trigger] v@[i] < #[trigger] v@[j],
            v@.to_set() == id_set_view(self.slice_nodes),
    {
        sorted_ids(&self.slice_nodes)
    }

    /// The control nodes in increasing order.
    pub fn sorted_control_nodes(&self) -> (v: Vec<i64>)
        ensures
            forall|i: int, j: int| 0 <= i < j < v@.len() ==> #[trigger] v@[i] < #[trigger] v@[j],
            v@.to_set() == id_set_view(self.control_nodes),
    {
        sorted_ids(&self.control_nodes)
    }

    /// The data nodes in increasing order.
    pub fn sorted_data_nodes(&self) -> (v: Vec<i64>)
        ensures
            forall|i: int, j: int| 0 <= i < j < v@.len() ==> #[trigger] v@[i] < #[trigger] v@[j],
            v@.to_set() == id_set_view(self.data_nodes),
    {
        sorted_ids(&self.data_nodes)
    }
}

/// The slice of `criterion` whose control nodes are `control` and whose data nodes are
/// `data`: the criterion and both sets, with its size.
pub open spec fn slice_ok(res: SliceResult, criterion: i64, control: Set<i64>, data: Set<i64>) -> bool {
    &&& res.criterion == criterion
    &&& id_set_view(res.control_nodes) == control
    &&& id_set_view(res.data_nodes) == data
    &&& id_set_view(res.slice_nodes) == control.union(data).insert(criterion)
    &&& res.size == id_set_view(res.slice_nodes).len()
}

/// Puts the slice together from its control nodes and the data nodes.
fn assemble_slice(criterion: i64, control_nodes: ahash::AHashSet<i64>, data: ahash::AHashSet<i64>) -> (res: SliceResult)
    ensures
        slice_ok(res, criterion, id_set_view(control_nodes), id_set_view(data)),
{
    let mut slice_nodes = id_set_new();
    id_set_insert(&mut slice_nodes, criterion);
    let control_list = id_set_to_vec(&control_nodes);
    let mut i: usize = 0;
    while i < control_list.len()
        invariant
            i <= control_list@.len(),
            id_set_view(slice_nodes) == control_list@.take(i as int).to_set().insert(criterion),
        decreases control_list.len() - i,
    {
        let x = control_list[i];
        id_set_insert(&mut slice_nodes, x);
        proof {
            assert(control_list@.take(i + 1) =~= control_list@.take(i as int).push(x));
            assert(control_list@.take(i as int).push(x).to_set() =~= control_list@.take(i as int).to_set().insert(x)) by {
                let t0 = control_list@.take(i as int);
                let t1 = t0.push(x);
                assert forall|y: i64| #[trigger] t1.contains(y) <==> t0.contains(y) || y == x by {
                    if t1.contains(y) {
                        let k = choose|k: int| 0 <= k < t1.len() && t1[k] == y;
                        if k < t0.len() {
                            assert(t0[k] == y);
                        }
                    }
                    if t0.contains(y) {
                        let k = choose|k: int| 0 <= k < t0.len() && t0[k] == y;
                        assert(t1[k] == y);
                    }
                    if y == x {
                        assert(t1[t0.len() as int] == y);
                    }
                }
            }
        }
        i = i + 1;
    }
    proof {
        assert(control_list@.take(control_list@.len() as int) =~= control_list@);
    }
    let data_list = id_set_to_vec(&data);
    let ghost with_control = id_set_view(slice_nodes);
    let mut i: usize = 0;
    while i < data_list.len()
        invariant
            i <= data_list@.len(),
            id_set_view(slice_nodes) == with_control.union(data_list@.take(i as int).to_set()),
        decreases data_list.len() - i,
    {
        let x = data_list[i];
        id_set_insert(&mut slice_nodes, x);
        proof {
            assert(data_list@.take(i + 1) =~= data_list@.take(i as int).push(x));
            assert(data_list@.take(i as int).push(x).to_set() =~= data_list@.take(i as int).to_set().insert(x)) by {
                let t0 = data_list@.take(i as int);
                let t1 = t0.push(x);
                assert forall|y: i64| #[trigger] t1.contains(y) <==> t0.contains(y) || y == x by {
                    if t1.contains(y) {
                        let k = choose|k: int| 0 <= k < t1.len() && t1[k] == y;
                        if k < t0.len() {
                            assert(t0[k] == y);
                        }
                    }
                    if t0.contains(y) {
                        let k = choose|k: int| 0 <= k < t0.len() && t0[k] == y;
                        assert(t1[k] == y);
                    }
                    if y == x {
                        assert(t1[t0.len() as int] == y);
                    }
                }
            }
            assert(with_control.union(data_list@.take(i as int).to_set()).insert(x) =~= with_control.union(
                data_list@.take(i + 1).to_set(),
            ));
        }
        i = i + 1;
    }
    proof {
        assert(data_list@.take(data_list@.len() as int) =~= data_list@);
        assert(id_set_view(slice_nodes) =~= id_set_view(control_nodes).union(id_set_view(data)).insert(criterion));
    }
    let size = id_set_len(&slice_nodes);
    SliceResult { criterion, slice_nodes, control_nodes, data_nodes: data, size }
}

/// The backward slice of `target`, as `backward_slice` takes it, reporting after every
/// tenth node of the control search and once at the end.
pub fn backward_slice_with_progress<F: ProgressCallback>(
    graph: &Graph,
    cdg_result: &ControlDependenceResult,
    target: i64,
    progress: &F,
) -> (r: Result<SliceResult, SqliteGraphError>)
    requires
        graph.wf(),
    ensures
        r matches Ok(res) && slice_ok(
            res,
            target,
            closure_less_start(set_map_view(cdg_result.reverse_cdg), target),
            Set::new(|v: i64| reaches(graph, v, target)),
        ),
{
    let control_nodes = control_closure(&cdg_result.reverse_cdg, target, progress, "Backward slice");
    let data = reverse_reachable_from(graph, target)?;
    let res = assemble_slice(target, control_nodes, data);
    progress.on_complete();
    Ok(res)
}

/// The backward slice of `target`: the nodes it depends on, by following `reverse_cdg`
/// from it (its control nodes), and the nodes that reach it along the graph's edges
/// (its data nodes, itself among them), together with `target`.
pub fn backward_slice(graph: &Graph, cdg_result: &ControlDependenceResult, target: i64) -> (r: Result<
    SliceResult,
    SqliteGraphError,
>)
    requires
        graph.wf(),
    ensures
        r matches Ok(res) && slice_ok(
            res,
            target,
            closure_less_start(set_map_view(cdg_result.reverse_cdg), target),
            Set::new(|v: i64| reaches(graph, v, target)),
        ),
{
    backward_slice_with_progress(graph, cdg_result, target, &NoProgress)
}

/// The forward slice of `source`, as `forward_slice` takes it, reporting after every
/// tenth node of the control search and once at the end.
pub fn forward_slice_with_progress<F: ProgressCallback>(
    graph: &Graph,
    cdg_result: &ControlDependenceResult,
    source: i64,
    progress: &F,
) -> (r: Result<SliceResult, SqliteGraphError>)
    requires
        graph.wf(),
    ensures
        r matches Ok(res) && slice_ok(
            res,
            source,
            closure_less_start(set_map_view(cdg_result.cdg), source),
            Set::new(|v: i64| reaches(graph, source, v)),
        ),
{
    let control_nodes = control_closure(&cdg_result.cdg, source, progress, "Forward slice");
    let data = reachable_from(graph, source)?;
    let res = assemble_slice(source, control_nodes, data);
    progress.on_complete();
    Ok(res)
}

/// The forward slice of `source`: the nodes that depend on it, by following `cdg` from
/// it (its control nodes), and the nodes it reaches along the graph's edges (its data
/// nodes, itself among them), together with `source`.
pub fn forward_slice(graph: &Graph, cdg_result: &ControlDependenceResult, source: i64) -> (r: Result<
    SliceResult,
    SqliteGraphError,
>)
    requires
        graph.wf(),
    ensures
        r matches Ok(res) && slice_ok(
            res,
            source,
            closure_less_start(set_map_view(cdg_result.cdg), source),
            Set::new(|v: i64| reaches(graph, source, v)),
        ),
{
    forward_slice_with_progress(graph, cdg_result, source, &NoProgress)
}

/// A backward slice holds its criterion, and its nodes are exactly its control nodes
/// and its data nodes: the criterion reaches itself, so it is a data node.
pub proof fn lemma_backward_slice_union(g: &Graph, res: SliceResult, target: i64, control: Set<i64>)
    requires
        slice_ok(res, target, control, Set::new(|v: i64| reaches(g, v, target))),
    ensures
        id_set_view(res.slice_nodes).contains(target),
        id_set_view(res.data_nodes).contains(target),
        id_set_view(res.slice_nodes) == id_set_view(res.control_nodes).union(id_set_view(res.data_nodes)),
{
    assert(within(g, target, target, 0));
    assert(id_set_view(res.slice_nodes) =~= id_set_view(res.control_nodes).union(id_set_view(res.data_nodes)));
}

/// A forward slice holds its criterion, and its nodes are exactly its control nodes and
/// its data nodes: the criterion reaches itself, so it is a data node.
pub proof fn lemma_forward_slice_union(g: &Graph, res: SliceResult, source: i64, control: Set<i64>)
    requires
        slice_ok(res, source, control, Set::new(|v: i64| reaches(g, source, v))),
    ensures
        id_set_view(res.slice_nodes).contains(source),
        id_set_view(res.data_nodes).contains(source),
        id_set_view(res.slice_nodes) == id_set_view(res.control_nodes).union(id_set_view(res.data_nodes)),
{
    assert(within(g, source, source, 0));
    assert(id_set_view(res.slice_nodes) =~= id_set_view(res.control_nodes).union(id_set_view(res.data_nodes)));
}

} // verus!
