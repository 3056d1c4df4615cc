//! Dominators of a control flow graph: the nodes that every path from the entry to a
//! node passes through, found by the iterative data-flow method over reverse
//! postorder, and the immediate dominator of each node.
use vstd::prelude::*;

use crate::error::SqliteGraphError;
use crate::graph::Graph;
use crate::hashing::{
    id_set_contains, id_set_insert, id_set_len, id_set_new, id_set_to_vec, id_set_view, set_map_get, set_map_insert,
    set_map_keys, set_map_new, set_map_view, opt_map_get, opt_map_insert, opt_map_new, opt_map_view, OptMap, SetMap,
};
use crate::partition::node_set;
use crate::progress::{NoProgress, ProgressCallback};
use crate::reach::{
    is_path, lemma_bounded_set, lemma_closed_holds_reachable, lemma_path_node_reached, lemma_path_reaches,
    lemma_within_step, reaches, within,
};
use crate::text::{decimal, usize_text};

verus! {

/// Every path from `entry` to `n` passes through `d`.
pub open spec fn dominates(g: &Graph, entry: i64, d: i64, n: i64) -> bool {
    forall|p: Seq<i64>| #[trigger] is_path(g, p, entry, n) ==> p.contains(d)
}

/// The dominators of `n`: `{entry}` for the entry; for another node that the entry
/// reaches, the nodes that dominate it; for a node that the entry does not reach, every
/// node (no path constrains it).
pub open spec fn dom_set(g: &Graph, entry: i64, n: i64) -> Set<i64> {
    if n == entry {
        set![entry]
    } else if reaches(g, entry, n) {
        Set::new(|d: i64| g.is_node(d) && dominates(g, entry, d, n))
    } else {
        node_set(g)
    }
}

/// `c` is the immediate dominator of `n`: it dominates `n`, differs from it, and every
/// other dominator of `n` dominates `c`.
pub open spec fn is_idom(g: &Graph, entry: i64, c: i64, n: i64) -> bool {
    &&& c != n
    &&& dominates(g, entry, c, n)
    &&& forall|d: i64| #[trigger] dominates(g, entry, d, n) && d != n ==> dominates(g, entry, d, c)
}

/// A path extended by an edge is a path.
proof fn lemma_path_push(g: &Graph, p: Seq<i64>, s: i64, t: i64, u: i64)
    requires
        is_path(g, p, s, t),
        g.has_edge(t, u),
    ensures
        is_path(g, p.push(u), s, u),
{
    let q = p.push(u);
    assert forall|i: int, j: int| 0 <= i && j == i + 1 && j < q.len() implies g.has_edge(#[trigger] q[i], #[trigger] q[j]) by {
        if j < p.len() {
            assert(q[i] == p[i] && q[j] == p[j]);
        } else {
            assert(q[i] == p[p.len() - 1]);
        }
    }
}

/// Two paths, the second starting where the first ends, make a path.
proof fn lemma_path_concat(g: &Graph, p: Seq<i64>, q: Seq<i64>, s: i64, m: i64, t: i64)
    requires
        is_path(g, p, s, m),
        is_path(g, q, m, t),
    ensures
        is_path(g, p + q.skip(1), s, t),
{
    let r = p + q.skip(1);
    if q.len() == 1 {
        assert(r =~= p);
    } else {
        assert(r[r.len() - 1] == q[q.len() - 1]);
    }
    assert forall|i: int, j: int| 0 <= i && j == i + 1 && j < r.len() implies g.has_edge(#[trigger] r[i], #[trigger] r[j]) by {
        if j < p.len() {
            assert(r[i] == p[i] && r[j] == p[j]);
        } else if i < p.len() {
            assert(r[i] == p[p.len() - 1]);
            assert(r[j] == q[1]);
            assert(q[0] == m);
            assert(g.has_edge(q[0], q[1]));
        } else {
            let a = i - p.len() + 1;
            assert(r[i] == q[a] && r[j] == q[a + 1]);
        }
    }
}

/// The prefix of a path up to one of its nodes is a path to that node.
proof fn lemma_path_prefix(g: &Graph, p: Seq<i64>, s: i64, t: i64, i: int)
    requires
        is_path(g, p, s, t),
        0 <= i < p.len(),
    ensures
        is_path(g, p.subrange(0, i + 1), s, p[i]),
{
    let q = p.subrange(0, i + 1);
    assert forall|a: int, b: int| 0 <= a && b == a + 1 && b < q.len() implies g.has_edge(#[trigger] q[a], #[trigger] q[b]) by {
        assert(q[a] == p[a] && q[b] == p[b]);
    }
}

/// The suffix of a path from one of its nodes is a path from that node.
proof fn lemma_path_suffix(g: &Graph, p: Seq<i64>, s: i64, t: i64, i: int)
    requires
        is_path(g, p, s, t),
        0 <= i < p.len(),
    ensures
        is_path(g, p.skip(i), p[i], t),
{
    let q = p.skip(i);
    assert(q[q.len() - 1] == p[p.len() - 1]);
    assert forall|a: int, b: int| 0 <= a && b == a + 1 && b < q.len() implies g.has_edge(#[trigger] q[a], #[trigger] q[b]) by {
        assert(q[a] == p[a + i] && q[b] == p[b + i]);
    }
}

/// A node that the entry reaches has a path from the entry.
proof fn lemma_reaches_path(g: &Graph, s: i64, v: i64, k: nat) -> (p: Seq<i64>)
    requires
        within(g, s, v, k),
    ensures
        is_path(g, p, s, v),
    decreases k,
{
    if v == s {
        let p = seq![s];
        assert(p[0] == s);
        p
    } else {
        let u = choose|u: i64| #[trigger] g.has_edge(u, v) && within(g, s, u, (k - 1) as nat);
        let q = lemma_reaches_path(g, s, u, (k - 1) as nat);
        lemma_path_push(g, q, s, u, v);
        q.push(v)
    }
}

/// A dominator of a reached node that an edge enters from a reached node, other than
/// that node itself, dominates the edge's source.
proof fn lemma_dominates_pred(g: &Graph, entry: i64, d: i64, p: i64, n: i64)
    requires
        dominates(g, entry, d, n),
        d != n,
        g.has_edge(p, n),
    ensures
        dominates(g, entry, d, p),
{
    assert forall|q: Seq<i64>| #[trigger] is_path(g, q, entry, p) implies q.contains(d) by {
        lemma_path_push(g, q, entry, p, n);
        assert(q.push(n).contains(d));
        let i = choose|i: int| 0 <= i < q.push(n).len() && q.push(n)[i] == d;
        assert(i < q.len());
        assert(q[i] == d);
    }
}

/// Dominance is transitive.
proof fn lemma_dominates_trans(g: &Graph, entry: i64, a: i64, b: i64, c: i64)
    requires
        dominates(g, entry, a, b),
        dominates(g, entry, b, c),
    ensures
        dominates(g, entry, a, c),
{
    assert forall|q: Seq<i64>| #[trigger] is_path(g, q, entry, c) implies q.contains(a) by {
        assert(q.contains(b));
        let i = choose|i: int| 0 <= i < q.len() && q[i] == b;
        lemma_path_prefix(g, q, entry, c, i);
        let pre = q.subrange(0, i + 1);
        assert(pre.contains(a));
        let j = choose|j: int| 0 <= j < pre.len() && pre[j] == a;
        assert(q[j] == a);
    }
}

/// The last index at which `x` stands in `p`.
spec fn last_at(p: Seq<i64>, x: i64, i: int) -> bool {
    0 <= i < p.len() && p[i] == x && forall|j: int| i < j < p.len() ==> p[j] != x
}

/// An item of a sequence has a last index.
proof fn lemma_last_at(p: Seq<i64>, x: i64) -> (i: int)
    requires
        p.contains(x),
    ensures
        last_at(p, x, i),
    decreases p.len(),
{
    if p.last() == x {
        (p.len() - 1) as int
    } else {
        let q = p.drop_last();
        let k = choose|k: int| 0 <= k < p.len() && p[k] == x;
        assert(q[k] == x);
        let i = lemma_last_at(q, x);
        assert forall|j: int| i < j < p.len() implies p[j] != x by {
            if j < q.len() {
                assert(p[j] == q[j]);
            }
        }
        i
    }
}

/// Along a path to `n`, a dominator `b` of `n` that `a` does not dominate stands after
/// the last `a`.
proof fn lemma_after_last(g: &Graph, entry: i64, a: i64, b: i64, n: i64, p: Seq<i64>, la: int)
    requires
        is_path(g, p, entry, n),
        dominates(g, entry, b, n),
        !dominates(g, entry, b, a),
        a != b,
        last_at(p, a, la),
    ensures
        exists|j: int| la < j < p.len() && p[j] == b,
{
    let q = choose|q: Seq<i64>| #[trigger] is_path(g, q, entry, a) && !q.contains(b);
    lemma_path_suffix(g, p, entry, n, la);
    let tail = p.skip(la);
    lemma_path_concat(g, q, tail, entry, a, n);
    let r = q + tail.skip(1);
    assert(r.contains(b));
    let k = choose|k: int| 0 <= k < r.len() && r[k] == b;
    if k < q.len() {
        assert(q[k] == b);
    } else {
        assert(p[la + 1 + (k - q.len())] == b);
    }
}

/// Two dominators of a node that the entry reaches are ordered: one dominates the other.
proof fn lemma_dominators_ordered(g: &Graph, entry: i64, a: i64, b: i64, n: i64)
    requires
        reaches(g, entry, n),
        dominates(g, entry, a, n),
        dominates(g, entry, b, n),
    ensures
        dominates(g, entry, a, b) || dominates(g, entry, b, a),
{
    if a != b && !dominates(g, entry, a, b) && !dominates(g, entry, b, a) {
        let k = choose|k: nat| #[trigger] within(g, entry, n, k);
        let p = lemma_reaches_path(g, entry, n, k);
        assert(p.contains(a));
        assert(p.contains(b));
        let la = lemma_last_at(p, a);
        let lb = lemma_last_at(p, b);
        lemma_after_last(g, entry, a, b, n, p, la);
        lemma_after_last(g, entry, b, a, n, p, lb);
        let jb = choose|j: int| la < j < p.len() && p[j] == b;
        let ja = choose|j: int| lb < j < p.len() && p[j] == a;
    }
    if a == b {
        assert forall|q: Seq<i64>| #[trigger] is_path(g, q, entry, b) implies q.contains(a) by {
            assert(q[q.len() - 1] == b);
        }
    }
}

/// Every node dominates itself.
proof fn lemma_dominates_self(g: &Graph, entry: i64, x: i64)
    ensures
        dominates(g, entry, x, x),
{
    assert forall|q: Seq<i64>| #[trigger] is_path(g, q, entry, x) implies q.contains(x) by {
        assert(q[q.len() - 1] == x);
    }
}

/// Among dominators of a node that the entry reaches, one is dominated by all the others.
proof fn lemma_deepest(g: &Graph, entry: i64, n: i64, cands: Seq<i64>) -> (c: i64)
    requires
        reaches(g, entry, n),
        cands.len() > 0,
        forall|i: int| 0 <= i < cands.len() ==> dominates(g, entry, #[trigger] cands[i], n),
    ensures
        cands.contains(c),
        forall|i: int| 0 <= i < cands.len() ==> dominates(g, entry, #[trigger] cands[i], c),
    decreases cands.len(),
{
    if cands.len() == 1 {
        let c = cands[0];
        lemma_dominates_self(g, entry, c);
        assert(cands.contains(c));
        c
    } else {
        let init = cands.drop_last();
        assert forall|i: int| 0 <= i < init.len() implies dominates(g, entry, #[trigger] init[i], n) by {
            assert(init[i] == cands[i]);
        }
        let b = lemma_deepest(g, entry, n, init);
        let e = cands.last();
        assert(dominates(g, entry, cands[cands.len() - 1], n));
        let k = choose|k: int| 0 <= k < init.len() && init[k] == b;
        assert(dominates(g, entry, init[k], n));
        lemma_dominators_ordered(g, entry, b, e, n);
        if dominates(g, entry, b, e) {
            assert forall|i: int| 0 <= i < cands.len() implies dominates(g, entry, #[trigger] cands[i], e) by {
                if i < init.len() {
                    assert(cands[i] == init[i]);
                    assert(dominates(g, entry, init[i], b));
                    lemma_dominates_trans(g, entry, cands[i], b, e);
                } else {
                    lemma_dominates_self(g, entry, e);
                }
            }
            assert(cands[cands.len() - 1] == e);
            e
        } else {
            assert forall|i: int| 0 <= i < cands.len() implies dominates(g, entry, #[trigger] cands[i], b) by {
                if i < init.len() {
                    assert(cands[i] == init[i]);
                    assert(dominates(g, entry, init[i], b));
                }
            }
            assert(cands[k] == b);
            b
        }
    }
}

/// The stack entry `(x, false)` is waiting on the stack.
spec fn waiting(stack: Seq<(i64, bool)>, x: i64) -> bool {
    stack.contains((x, false))
}

/// The stack entry `(x, true)` is on the stack.
spec fn open_on(stack: Seq<(i64, bool)>, x: i64) -> bool {
    stack.contains((x, true))
}

/// Each target of the node of an open entry is visited or waits above the entry.
spec fn targets_pending(g: &Graph, stack: Seq<(i64, bool)>, vis: Set<i64>) -> bool {
    forall|k: int, y: i64|
        0 <= k < stack.len() && (#[trigger] stack[k]).1 && #[trigger] g.has_edge(stack[k].0, y) ==> vis.contains(y)
            || exists|a: int| k < a < stack.len() && #[trigger] stack[a] == (y, false)
}

/// One more edge from a reached node reaches its target.
proof fn lemma_reaches_step(g: &Graph, s: i64, u: i64, v: i64)
    requires
        reaches(g, s, u),
        g.has_edge(u, v),
    ensures
        reaches(g, s, v),
{
    let k = choose|k: nat| #[trigger] within(g, s, u, k);
    lemma_within_step(g, s, u, v, k);
}

/// The nodes that `entry` reaches, each once, in reverse postorder of a depth-first
/// search that visits the targets of each node in the order of its edges: `entry` first.
fn reverse_postorder(graph: &Graph, entry: i64) -> (r: Vec<i64>)
    requires
        graph.wf(),
        graph.is_node(entry),
    ensures
        r@.no_duplicates(),
        forall|x: i64| #[trigger] r@.contains(x) <==> reaches(graph, entry, x),
        r@.len() > 0,
        r@[0] == entry,
{
    let mut visited = id_set_new();
    let mut postorder: Vec<i64> = Vec::new();
    let mut stack: Vec<(i64, bool)> = Vec::new();
    stack.push((entry, false));
    let ghost mut started = false;
    proof {
        graph.lemma_wf();
        assert(stack@[0] == (entry, false));
        assert(within(graph, entry, entry, 0));
        assert forall|x: i64| #[trigger] waiting(stack@, x) implies reaches(graph, entry, x) && graph.is_node(x) by {
            let k = choose|k: int| 0 <= k < stack@.len() && stack@[k] == (x, false);
        }
        assert forall|x: i64| !#[trigger] open_on(stack@, x) by {
            if open_on(stack@, x) {
                let k = choose|k: int| 0 <= k < stack@.len() && stack@[k] == (x, true);
            }
        }
    }
    while stack.len() > 0
        invariant
            graph.wf(),
            graph.is_node(entry),
            forall|x: i64| #[trigger] id_set_view(visited).contains(x) ==> reaches(graph, entry, x) && graph.is_node(x),
            forall|x: i64| #[trigger] waiting(stack@, x) ==> reaches(graph, entry, x) && graph.is_node(x),
            forall|x: i64| #[trigger] id_set_view(visited).contains(x) <==> postorder@.contains(x) || open_on(stack@, x),
            postorder@.no_duplicates(),
            forall|a: int, b: int|
                0 <= a < b < stack@.len() && (#[trigger] stack@[a]).1 && (#[trigger] stack@[b]).1 ==> stack@[a].0 != stack@[b].0,
            forall|x: i64| #[trigger] open_on(stack@, x) ==> !postorder@.contains(x),
            forall|x: i64, y: i64|
                id_set_view(visited).contains(x) && #[trigger] graph.has_edge(x, y) && !open_on(stack@, x) ==> id_set_view(visited).contains(y),
            targets_pending(graph, stack@, id_set_view(visited)),
            !started ==> stack@ == seq![(entry, false)] && postorder@.len() == 0 && id_set_view(visited) == Set::<i64>::empty(),
            started ==> id_set_view(visited).contains(entry),
            started && stack@.len() > 0 ==> stack@[0] == (entry, true),
            started && stack@.len() == 0 ==> postorder@.len() > 0 && postorder@.last() == entry,
            started ==> forall|a: int| 0 < a < stack@.len() ==> !(#[trigger] stack@[a] == (entry, true)),
        decreases graph.node_count() + 1 - id_set_view(visited).len(), stack@.len(),
    {
        proof {
            lemma_bounded_set(graph, entry, id_set_view(visited));
        }
        let ghost s0 = stack@;
        let ghost v0 = id_set_view(visited);
        let ghost p0 = postorder@;
        let (node, done) = stack.pop().unwrap();
        let ghost s1 = stack@;
        proof {
            assert(s0 == s1.push((node, done)));
            assert forall|z: (i64, bool)|
                #![trigger s0.contains(z)]
                #![trigger s1.contains(z)]
                s0.contains(z) <==> s1.contains(z) || z == (node, done) by {
                if s0.contains(z) {
                    let k = choose|k: int| 0 <= k < s0.len() && s0[k] == z;
                    if k < s1.len() {
                        assert(s1[k] == z);
                    }
                }
                if s1.contains(z) {
                    let k = choose|k: int| 0 <= k < s1.len() && s1[k] == z;
                    assert(s0[k] == z);
                }
                if z == (node, done) {
                    assert(s0[s1.len() as int] == z);
                }
            }
        }
        if done {
            proof {
                assert(open_on(s0, node));
                assert(!open_on(s1, node)) by {
                    if s1.contains((node, true)) {
                        let k = choose|k: int| 0 <= k < s1.len() && s1[k] == (node, true);
                        assert(s0[k] == (node, true));
                        assert(s0[s1.len() as int] == (node, true));
                    }
                }
            }
            postorder.push(node);
            proof {
                assert(!p0.contains(node));
                assert forall|a: int, b: int| 0 <= a < b < postorder@.len() implies postorder@[a] != postorder@[b] by {
                    if b == postorder@.len() - 1 {
                        assert(p0.contains(p0[a]));
                    }
                }
                assert forall|x: i64| #[trigger] postorder@.contains(x) <==> p0.contains(x) || x == node by {
                    if postorder@.contains(x) {
                        let k = choose|k: int| 0 <= k < postorder@.len() && postorder@[k] == x;
                        if k < p0.len() {
                            assert(p0[k] == x);
                        }
                    }
                    if p0.contains(x) {
                        let k = choose|k: int| 0 <= k < p0.len() && p0[k] == x;
                        assert(postorder@[k] == x);
                    }
                    if x == node {
                        assert(postorder@[p0.len() as int] == x);
                    }
                }
                assert forall|x: i64, y: i64|
                    id_set_view(visited).contains(x) && #[trigger] graph.has_edge(x, y) && !open_on(stack@, x) implies id_set_view(visited).contains(y) by {
                    if x == node {
                        let t = s1.len() as int;
                        assert(s0[t] == (node, true));
                        assert(s0[t].1 && graph.has_edge(s0[t].0, y));
                    }
                }
                assert forall|k: int, y: i64|
                    0 <= k < stack@.len() && (#[trigger] stack@[k]).1 && #[trigger] graph.has_edge(stack@[k].0, y) implies id_set_view(visited).contains(y)
                        || exists|a: int| k < a < stack@.len() && #[trigger] stack@[a] == (y, false) by {
                    assert(s0[k] == stack@[k]);
                    if !v0.contains(y) {
                        let a = choose|a: int| k < a < s0.len() && #[trigger] s0[a] == (y, false);
                        assert(a < s1.len());
                        assert(stack@[a] == (y, false));
                    }
                }
                assert forall|x: i64| #[trigger] waiting(stack@, x) implies reaches(graph, entry, x) && graph.is_node(x) by {
                    assert(s0.contains((x, false)));
                    assert(waiting(s0, x));
                }
                assert forall|x: i64| #[trigger] open_on(stack@, x) implies !postorder@.contains(x) by {
                    assert(s0.contains((x, true)));
                    assert(open_on(s0, x));
                }
                if stack@.len() == 0 {
                    assert(s0.len() == 1);
                    assert(node == entry);
                }
                if stack@.len() > 0 {
                    assert(s1[0] == s0[0]);
                }
                assert forall|a: int| started && 0 < a < stack@.len() implies !(#[trigger] stack@[a] == (entry, true)) by {
                    assert(s1[a] == s0[a]);
                }
                assert forall|a: int, b: int|
                    0 <= a < b < stack@.len() && (#[trigger] stack@[a]).1 && (#[trigger] stack@[b]).1 implies stack@[a].0 != stack@[b].0 by {
                    assert(s1[a] == s0[a] && s1[b] == s0[b]);
                }
            }
        } else {
            if id_set_contains(&visited, node) {
                proof {
                    assert forall|k: int, y: i64|
                        0 <= k < stack@.len() && (#[trigger] stack@[k]).1 && #[trigger] graph.has_edge(stack@[k].0, y) implies id_set_view(visited).contains(y)
                            || exists|a: int| k < a < stack@.len() && #[trigger] stack@[a] == (y, false) by {
                        assert(s0[k] == stack@[k]);
                        if !v0.contains(y) {
                            let a = choose|a: int| k < a < s0.len() && #[trigger] s0[a] == (y, false);
                            if a == s1.len() {
                                assert(y == node);
                            } else {
                                assert(stack@[a] == (y, false));
                            }
                        }
                    }
                    assert forall|x: i64| #[trigger] waiting(stack@, x) implies reaches(graph, entry, x) && graph.is_node(x) by {
                        assert(s0.contains((x, false)));
                        assert(waiting(s0, x));
                    }
                    assert forall|x: i64| #[trigger] open_on(stack@, x) implies !postorder@.contains(x) by {
                        assert(s0.contains((x, true)));
                        assert(open_on(s0, x));
                    }
                    if started && stack@.len() > 0 {
                        assert(s1[0] == s0[0]);
                    }
                    if started && stack@.len() == 0 {
                        assert(s0.len() == 1);
                        assert(s0[0] == (entry, true));
                    }
                    assert forall|a: int| started && 0 < a < stack@.len() implies !(#[trigger] stack@[a] == (entry, true)) by {
                        assert(s1[a] == s0[a]);
                    }
                    assert forall|a: int, b: int|
                        0 <= a < b < stack@.len() && (#[trigger] stack@[a]).1 && (#[trigger] stack@[b]).1 implies stack@[a].0 != stack@[b].0 by {
                        assert(s1[a] == s0[a] && s1[b] == s0[b]);
                    }
                    if !started {
                        assert(v0 == Set::<i64>::empty());
                    }
                }
            } else {
                proof {
                    assert(waiting(s0, node));
                    if !started {
                        assert(s0[0] == (entry, false));
                        assert(node == entry);
                        assert(s1.len() == 0);
                    }
                    assert(!open_on(s0, node));
                    assert(!p0.contains(node));
                }
                id_set_insert(&mut visited, node);
                stack.push((node, true));
                let row = graph.fetch_outgoing(node).unwrap();
                let ghost s2 = stack@;
                let ghost m = s1.len() as int;
                let mut j: usize = row.len();
                proof {
                    assert(row@.skip(row@.len() as int) =~= Seq::<i64>::empty());
                }
                while j > 0
                    invariant
                        graph.wf(),
                        row@ == graph.succs(node),
                        j <= row@.len(),
                        reaches(graph, entry, node),
                        s2 == s1.push((node, true)),
                        m == s1.len(),
                        s2.len() <= stack@.len(),
                        forall|a: int| 0 <= a < s2.len() ==> #[trigger] stack@[a] == s2[a],
                        forall|a: int| s2.len() <= a < stack@.len() ==> !(#[trigger] stack@[a]).1,
                        forall|a: int|
                            s2.len() <= a < stack@.len() ==> reaches(graph, entry, (#[trigger] stack@[a]).0) && graph.is_node(stack@[a].0),
                        forall|y: i64| #[trigger] row@.skip(j as int).contains(y) ==> id_set_view(visited).contains(y)
                            || exists|a: int| m < a < stack@.len() && #[trigger] stack@[a] == (y, false),
                    decreases j,
                {
                    let succ = row[j - 1];
                    let ghost st0 = stack@;
                    proof {
                        graph.lemma_wf();
                        assert(graph.succs(node).contains(succ));
                        assert(graph.is_node(succ));
                        lemma_reaches_step(graph, entry, node, succ);
                    }
                    if !id_set_contains(&visited, succ) {
                        stack.push((succ, false));
                    }
                    proof {
                        let k0 = row@.skip(j as int);
                        let k1 = row@.skip(j - 1);
                        assert forall|y: i64| #[trigger] k1.contains(y) implies id_set_view(visited).contains(y)
                            || exists|a: int| m < a < stack@.len() && #[trigger] stack@[a] == (y, false) by {
                            let k = choose|k: int| 0 <= k < k1.len() && k1[k] == y;
                            if k == 0 {
                                assert(y == succ);
                                if !id_set_view(visited).contains(succ) {
                                    assert(stack@[stack@.len() - 1] == (succ, false));
                                }
                            } else {
                                assert(k0[k - 1] == y);
                                assert(k0.contains(y));
                                if !id_set_view(visited).contains(y) {
                                    let a = choose|a: int| m < a < st0.len() && #[trigger] st0[a] == (y, false);
                                    assert(stack@[a] == (y, false));
                                }
                            }
                        }
                    }
                    j = j - 1;
                }
                proof {
                    assert(row@.skip(0) =~= row@);
                    let st = stack@;
                    let vis = id_set_view(visited);
                    assert(vis == v0.insert(node));
                    lemma_bounded_set(graph, entry, vis);
                    assert(st[m] == (node, true));
                    assert forall|z: (i64, bool)| #[trigger] st.contains(z) && z.1 implies s1.contains(z) || z == (node, true) by {
                        let k = choose|k: int| 0 <= k < st.len() && st[k] == z;
                        if k < m {
                            assert(s1[k] == z);
                        }
                    }
                    assert forall|x: i64| #[trigger] vis.contains(x) implies reaches(graph, entry, x) && graph.is_node(x) by {}
                    assert forall|x: i64| #[trigger] waiting(st, x) implies reaches(graph, entry, x) && graph.is_node(x) by {
                        let k = choose|k: int| 0 <= k < st.len() && st[k] == (x, false);
                        if k < m {
                            assert(s1[k] == (x, false));
                            assert(s0[k] == (x, false));
                            assert(waiting(s0, x));
                        } else if k > m {
                            assert(st[k].0 == x);
                            assert(reaches(graph, entry, st[k].0) && graph.is_node(st[k].0));
                        }
                    }
                    assert forall|x: i64| #[trigger] vis.contains(x) <==> postorder@.contains(x) || open_on(st, x) by {
                        if open_on(st, x) {
                            assert(st.contains((x, true)));
                            if x != node {
                                assert(s1.contains((x, true)));
                                assert(s0.contains((x, true)));
                            }
                        }
                        if x == node {
                            assert(st.contains((node, true)));
                        }
                        if v0.contains(x) && !p0.contains(x) {
                            assert(open_on(s0, x));
                            assert(s1.contains((x, true)));
                            let k = choose|k: int| 0 <= k < s1.len() && s1[k] == (x, true);
                            assert(st[k] == (x, true));
                        }
                    }
                    assert forall|a: int, b: int|
                        0 <= a < b < st.len() && (#[trigger] st[a]).1 && (#[trigger] st[b]).1 implies st[a].0 != st[b].0 by {
                        if b == m {
                            assert(s1.contains(st[a]));
                            assert(s0.contains(st[a]));
                            assert(open_on(s0, st[a].0));
                        } else if b < m {
                            assert(s1[a] == st[a] && s1[b] == st[b]);
                            assert(s0[a] == st[a] && s0[b] == st[b]);
                        }
                    }
                    assert(postorder@ == p0);
                    assert forall|x: i64| #[trigger] open_on(st, x) implies !postorder@.contains(x) by {
                        assert(st.contains((x, true)));
                        if x != node {
                            assert(s1.contains((x, true)));
                            assert(s0.contains((x, true)));
                            assert(open_on(s0, x));
                        }
                    }
                    assert forall|x: i64, y: i64|
                        vis.contains(x) && #[trigger] graph.has_edge(x, y) && !open_on(st, x) implies vis.contains(y) by {
                        if x != node && open_on(s0, x) {
                            assert(s1.contains((x, true)));
                            let k = choose|k: int| 0 <= k < s1.len() && s1[k] == (x, true);
                            assert(st[k] == (x, true));
                        }
                        if x == node {
                            assert(st.contains((node, true)));
                        }
                    }
                    assert forall|k: int, y: i64|
                        0 <= k < st.len() && (#[trigger] st[k]).1 && #[trigger] graph.has_edge(st[k].0, y) implies vis.contains(y)
                            || exists|a: int| k < a < st.len() && #[trigger] st[a] == (y, false) by {
                        if k == m {
                            assert(graph.succs(node).contains(y));
                            assert(row@.contains(y));
                        } else {
                            assert(k < m);
                            assert(s0[k] == st[k]);
                            if !v0.contains(y) {
                                let a = choose|a: int| k < a < s0.len() && #[trigger] s0[a] == (y, false);
                                if a == m {
                                    assert(y == node);
                                } else {
                                    assert(st[a] == (y, false));
                                }
                            }
                        }
                    }
                    if started {
                        assert(st[0] == s0[0]);
                    } else {
                        assert(m == 0);
                    }
                    assert forall|a: int| 0 < a < st.len() implies !(#[trigger] st[a] == (entry, true)) by {
                        if a < m {
                            assert(s0[a] == st[a]);
                        }
                        if a == m && started {
                            assert(v0.contains(entry));
                        }
                    }
                }
            }
        }
        proof {
            started = true;
        }
    }
    proof {
        let vis = id_set_view(visited);
        assert forall|x: i64| !#[trigger] open_on(stack@, x) by {
            if open_on(stack@, x) {
                let k = choose|k: int| 0 <= k < stack@.len() && stack@[k] == (x, true);
            }
        }
        assert(started);
        assert(vis.contains(entry));
        assert forall|x: i64, y: i64| vis.contains(x) && #[trigger] graph.has_edge(x, y) implies vis.contains(y) by {
            assert(!open_on(stack@, x));
        }
        assert forall|x: i64| #[trigger] reaches(graph, entry, x) implies vis.contains(x) by {
            let k = choose|k: nat| #[trigger] within(graph, entry, x, k);
            lemma_closed_holds_reachable(graph, entry, vis, x, k);
        }
        assert forall|x: i64| #[trigger] postorder@.contains(x) <==> reaches(graph, entry, x) by {
            assert(vis.contains(x) <==> postorder@.contains(x) || open_on(stack@, x));
        }
    }
    let ghost po = postorder@;
    let mut rev: Vec<i64> = Vec::new();
    let mut t: usize = postorder.len();
    while t > 0
        invariant
            t <= po.len(),
            po == postorder@,
            rev@.len() == po.len() - t,
            forall|a: int| 0 <= a < rev@.len() ==> #[trigger] rev@[a] == po[po.len() - 1 - a],
        decreases t,
    {
        rev.push(postorder[t - 1]);
        t = t - 1;
    }
    let postorder = rev;
    proof {
        assert(postorder@ =~= po.reverse());
        assert(postorder@[0] == po[po.len() - 1]);
        assert forall|x: i64| #[trigger] postorder@.contains(x) <==> po.contains(x) by {
            if postorder@.contains(x) {
                let k = choose|k: int| 0 <= k < postorder@.len() && postorder@[k] == x;
                assert(po[po.len() - 1 - k] == x);
            }
            if po.contains(x) {
                let k = choose|k: int| 0 <= k < po.len() && po[k] == x;
                assert(postorder@[po.len() - 1 - k] == x);
            }
        }
        assert forall|a: int, b: int| 0 <= a < b < postorder@.len() implies postorder@[a] != postorder@[b] by {
            assert(postorder@[a] == po[po.len() - 1 - a]);
            assert(postorder@[b] == po[po.len() - 1 - b]);
        }
    }
    postorder
}

/// The dominator sets during the iteration: one per node; `{entry}` for the entry;
/// every node for a node that the entry does not reach; for another node, every true
/// dominator and nothing but nodes.
spec fn dom_ok(g: &Graph, entry: i64, dm: Map<i64, ahash::AHashSet<i64>>) -> bool {
    &&& forall|v: i64| #[trigger] dm.contains_key(v) <==> g.is_node(v)
    &&& id_set_view(dm[entry]) == set![entry]
    &&& forall|v: i64|
        g.is_node(v) && v != entry && !reaches(g, entry, v) ==> #[trigger] id_set_view(dm[v]) == node_set(g)
    &&& forall|v: i64|
        g.is_node(v) && v != entry && reaches(g, entry, v) ==> dom_set(g, entry, v).subset_of(
            #[trigger] id_set_view(dm[v]),
        ) && id_set_view(dm[v]).subset_of(node_set(g))
}

/// The intersection of the sets of the predecessors of `n`.
spec fn meet(g: &Graph, dm: Map<i64, ahash::AHashSet<i64>>, n: i64) -> Set<i64> {
    Set::new(|d: i64| forall|k: int| 0 <= k < g.preds(n).len() ==> #[trigger] id_set_view(dm[g.preds(n)[k]]).contains(d))
}

/// The set that a pass over `order` reads for `p` when it updates position `k`: the new
/// one once `p` was updated earlier in the pass, the old one otherwise.
pub open spec fn pass_set(
    order: Seq<i64>,
    k: int,
    new: Map<i64, ahash::AHashSet<i64>>,
    old: Map<i64, ahash::AHashSet<i64>>,
    p: i64,
) -> ahash::AHashSet<i64> {
    if order.subrange(1, k).contains(p) {
        new[p]
    } else {
        old[p]
    }
}

/// The intersection of the sets of the predecessors of `n` as a pass over `order` reads
/// them when it updates position `k`.
pub open spec fn pass_meet(
    g: &Graph,
    order: Seq<i64>,
    k: int,
    new: Map<i64, ahash::AHashSet<i64>>,
    old: Map<i64, ahash::AHashSet<i64>>,
    n: i64,
) -> Set<i64> {
    Set::new(
        |d: i64|
            forall|j: int|
                0 <= j < g.preds(n).len() ==> #[trigger] id_set_view(
                    pass_set(order, k, new, old, g.preds(n)[j]),
                ).contains(d),
    )
}

/// What a pass reads at position `k` depends on the new sets only of the nodes updated
/// before `k`.
proof fn lemma_pass_meet_frame(
    g: &Graph,
    order: Seq<i64>,
    k: int,
    a: Map<i64, ahash::AHashSet<i64>>,
    b: Map<i64, ahash::AHashSet<i64>>,
    old: Map<i64, ahash::AHashSet<i64>>,
    n: i64,
)
    requires
        forall|p: i64| order.subrange(1, k).contains(p) ==> #[trigger] a[p] == b[p],
    ensures
        pass_meet(g, order, k, a, old, n) == pass_meet(g, order, k, b, old, n),
{
    assert forall|p: i64| #[trigger] pass_set(order, k, a, old, p) == pass_set(order, k, b, old, p) by {
        if order.subrange(1, k).contains(p) {
            assert(a[p] == b[p]);
        }
    }
    assert forall|d: i64| #[trigger] pass_meet(g, order, k, a, old, n).contains(d) <==> pass_meet(
        g,
        order,
        k,
        b,
        old,
        n,
    ).contains(d) by {
        if pass_meet(g, order, k, a, old, n).contains(d) {
            assert forall|j: int| 0 <= j < g.preds(n).len() implies #[trigger] id_set_view(
                pass_set(order, k, b, old, g.preds(n)[j]),
            ).contains(d) by {
                assert(id_set_view(pass_set(order, k, a, old, g.preds(n)[j])).contains(d));
            }
        }
        if pass_meet(g, order, k, b, old, n).contains(d) {
            assert forall|j: int| 0 <= j < g.preds(n).len() implies #[trigger] id_set_view(
                pass_set(order, k, a, old, g.preds(n)[j]),
            ).contains(d) by {
                assert(id_set_view(pass_set(order, k, b, old, g.preds(n)[j])).contains(d));
            }
        }
    }
    assert(pass_meet(g, order, k, a, old, n) =~= pass_meet(g, order, k, b, old, n));
}

/// The sets are a fixed point of the iteration at every node the entry reaches.
spec fn fixed(g: &Graph, entry: i64, dm: Map<i64, ahash::AHashSet<i64>>) -> bool {
    forall|n: i64|
        g.is_node(n) && n != entry && reaches(g, entry, n) ==> #[trigger] id_set_view(dm[n]) == meet(g, dm, n).insert(n)
}

/// The ids that `a` holds and `b` holds too.
fn intersect(a: &ahash::AHashSet<i64>, b: &ahash::AHashSet<i64>) -> (r: ahash::AHashSet<i64>)
    ensures
        id_set_view(r) == id_set_view(*a).intersect(id_set_view(*b)),
{
    let items = id_set_to_vec(a);
    let mut r = id_set_new();
    let mut i: usize = 0;
    while i < items.len()
        invariant
            i <= items@.len(),
            items@.to_set() == id_set_view(*a),
            forall|x: i64| #[trigger] id_set_view(r).contains(x) <==> items@.take(i as int).contains(x) && id_set_view(*b).contains(x),
        decreases items.len() - i,
    {
        let x = items[i];
        proof {
            let t1 = items@.take(i + 1);
            let t0 = items@.take(i as int);
            assert(t1 =~= t0.push(x));
            assert forall|v: i64| #[trigger] t1.contains(v) <==> t0.contains(v) || v == x by {
                if t1.contains(v) {
                    let y = choose|y: int| 0 <= y < t1.len() && t1[y] == v;
                    if y < t0.len() {
                        assert(t0[y] == v);
                    }
                }
                if t0.contains(v) {
                    let y = choose|y: int| 0 <= y < t0.len() && t0[y] == v;
                    assert(t1[y] == v);
                }
                if v == x {
                    assert(t1[i as int] == v);
                }
            }
        }
        if id_set_contains(b, x) {
            id_set_insert(&mut r, x);
        }
        i = i + 1;
    }
    proof {
        assert(items@.take(items@.len() as int) =~= items@);
        assert forall|x: i64| #[trigger] id_set_view(r).contains(x) <==> id_set_view(*a).intersect(id_set_view(*b)).contains(x) by {
            assert(items@.to_set().contains(x) <==> items@.contains(x));
        }
        assert(id_set_view(r) =~= id_set_view(*a).intersect(id_set_view(*b)));
    }
    r
}

/// The two sets hold the same ids.
fn same_ids(a: &ahash::AHashSet<i64>, b: &ahash::AHashSet<i64>) -> (eq: bool)
    ensures
        eq == (id_set_view(*a) == id_set_view(*b)),
{
    let items = id_set_to_vec(a);
    let other = id_set_to_vec(b);
    proof {
        items@.unique_seq_to_set();
        other@.unique_seq_to_set();
    }
    if id_set_len(a) != id_set_len(b) {
        return false;
    }
    let mut i: usize = 0;
    while i < items.len()
        invariant
            i <= items@.len(),
            items@.to_set() == id_set_view(*a),
            forall|k: int| 0 <= k < i ==> id_set_view(*b).contains(#[trigger] items@[k]),
        decreases items.len() - i,
    {
        if !id_set_contains(b, items[i]) {
            proof {
                assert(items@.to_set().contains(items@[i as int]));
            }
            return false;
        }
        i = i + 1;
    }
    proof {
        assert forall|x: i64| #[trigger] id_set_view(*a).contains(x) implies id_set_view(*b).contains(x) by {
            assert(items@.to_set().contains(x));
            let k = choose|k: int| 0 <= k < items@.len() && items@[k] == x;
        }
        vstd::set_lib::lemma_subset_equality(id_set_view(*a), id_set_view(*b));
    }
    true
}

/// A dominator of a reached node, other than the node itself, lies in the set of each of
/// its predecessors.
proof fn lemma_dominator_in_pred(g: &Graph, entry: i64, dm: Map<i64, ahash::AHashSet<i64>>, d: i64, p: i64, n: i64)
    requires
        g.wf(),
        g.is_node(entry),
        dom_ok(g, entry, dm),
        g.is_node(d),
        dominates(g, entry, d, n),
        d != n,
        g.has_edge(p, n),
    ensures
        id_set_view(dm[p]).contains(d),
{
    g.lemma_wf();
    assert(g.is_node(p));
    if p == entry {
        lemma_dominates_pred(g, entry, d, p, n);
        let q = seq![entry];
        assert(is_path(g, q, entry, entry));
        assert(q.contains(d));
        assert(d == entry);
    } else if !reaches(g, entry, p) {
        assert(node_set(g).contains(d));
    } else {
        lemma_dominates_pred(g, entry, d, p, n);
        assert(dom_set(g, entry, p).contains(d));
        assert(dom_set(g, entry, p).subset_of(id_set_view(dm[p])));
    }
}

/// Every set of the iteration holds nodes only.
proof fn lemma_sets_are_nodes(g: &Graph, entry: i64, dm: Map<i64, ahash::AHashSet<i64>>, p: i64)
    requires
        g.is_node(entry),
        g.is_node(p),
        dom_ok(g, entry, dm),
    ensures
        id_set_view(dm[p]).subset_of(node_set(g)),
{
    if p == entry {
        assert forall|x: i64| #[trigger] id_set_view(dm[p]).contains(x) implies node_set(g).contains(x) by {}
    } else if !reaches(g, entry, p) {
    } else {
    }
}

/// The sets of `new` are what a pass over `order` that starts from `old` leaves.
pub open spec fn pass_rel(
    g: &Graph,
    order: Seq<i64>,
    new: Map<i64, ahash::AHashSet<i64>>,
    old: Map<i64, ahash::AHashSet<i64>>,
) -> bool {
    forall|k: int|
        1 <= k < order.len() ==> #[trigger] id_set_view(new[order[k]]) == pass_meet(g, order, k, new, old, order[k]).insert(
            order[k],
        )
}

/// The sets at the start of the iteration: the entry's set holds the entry alone, and
/// every other node's set holds every node.
pub open spec fn dominator_start(g: &Graph, entry: i64, m0: Map<i64, ahash::AHashSet<i64>>) -> bool {
    forall|v: i64|
        g.is_node(v) ==> m0.contains_key(v) && #[trigger] id_set_view(m0[v]) == if v == entry {
            set![entry]
        } else {
            node_set(g)
        }
}

/// Some set of a node after the first in `order` differs between `a` and `b`.
pub open spec fn pass_changes(order: Seq<i64>, a: Map<i64, ahash::AHashSet<i64>>, b: Map<i64, ahash::AHashSet<i64>>) -> bool {
    exists|k: int| 1 <= k < order.len() && #[trigger] id_set_view(a[order[k]]) != id_set_view(b[order[k]])
}

/// `ms` are the sets after the passes of the iteration over `order` (an order of the
/// nodes that `entry` reaches, `entry` first), from the start sets: each pass leads
/// from one to the next, and each changes some set.
pub open spec fn dominator_passes(
    g: &Graph,
    entry: i64,
    order: Seq<i64>,
    ms: Seq<Map<i64, ahash::AHashSet<i64>>>,
) -> bool {
    &&& order.no_duplicates()
    &&& forall|x: i64| #[trigger] order.contains(x) <==> reaches(g, entry, x)
    &&& order.len() > 0
    &&& order[0] == entry
    &&& ms.len() >= 1
    &&& dominator_start(g, entry, ms[0])
    &&& forall|i: int|
        0 <= i < ms.len() - 1 ==> #[trigger] pass_rel(g, order, ms[i + 1], ms[i]) && pass_changes(order, ms[i + 1], ms[i])
}

/// The sets only shrink from pass to pass: when a pass led from `prev` to `dm` with
/// smaller sets, the next pass, from `dm` to `dm2`, shrinks them again.
proof fn lemma_pass_shrinks(
    g: &Graph,
    order: Seq<i64>,
    prev: Map<i64, ahash::AHashSet<i64>>,
    dm: Map<i64, ahash::AHashSet<i64>>,
    dm2: Map<i64, ahash::AHashSet<i64>>,
    k: int,
)
    requires
        order.no_duplicates(),
        1 <= k <= order.len(),
        pass_rel(g, order, dm, prev),
        pass_rel(g, order, dm2, dm),
        forall|v: i64| #[trigger] id_set_view(dm[v]).subset_of(id_set_view(prev[v])),
    ensures
        forall|j: int| 1 <= j < k ==> #[trigger] id_set_view(dm2[order[j]]).subset_of(id_set_view(dm[order[j]])),
    decreases k,
{
    if k > 1 {
        lemma_pass_shrinks(g, order, prev, dm, dm2, k - 1);
        let j = k - 1;
        let n = order[j];
        assert forall|p: i64| #[trigger]
            id_set_view(pass_set(order, j, dm2, dm, p)).subset_of(id_set_view(pass_set(order, j, dm, prev, p))) by {
            if order.subrange(1, j).contains(p) {
                let t = choose|t: int| 0 <= t < j - 1 && order.subrange(1, j)[t] == p;
                assert(order[t + 1] == p);
                assert(id_set_view(dm2[order[t + 1]]).subset_of(id_set_view(dm[order[t + 1]])));
            }
        }
        assert forall|d: i64| #[trigger] pass_meet(g, order, j, dm2, dm, n).contains(d) implies pass_meet(
            g,
            order,
            j,
            dm,
            prev,
            n,
        ).contains(d) by {
            assert forall|i: int| 0 <= i < g.preds(n).len() implies #[trigger] id_set_view(
                pass_set(order, j, dm, prev, g.preds(n)[i]),
            ).contains(d) by {
                assert(id_set_view(pass_set(order, j, dm2, dm, g.preds(n)[i])).contains(d));
                assert(id_set_view(pass_set(order, j, dm2, dm, g.preds(n)[i])).subset_of(
                    id_set_view(pass_set(order, j, dm, prev, g.preds(n)[i])),
                ));
            }
        }
        assert(id_set_view(dm2[order[j]]) == pass_meet(g, order, j, dm2, dm, n).insert(n));
        assert(id_set_view(dm[order[j]]) == pass_meet(g, order, j, dm, prev, n).insert(n));
    }
}

/// Cutting the cycles out of a path leaves a path with the same ends, through no node
/// twice, that passes only through nodes of the first.
proof fn lemma_simple_path(g: &Graph, p: Seq<i64>, s: i64, t: i64) -> (q: Seq<i64>)
    requires
        is_path(g, p, s, t),
    ensures
        is_path(g, q, s, t),
        q.no_duplicates(),
        forall|x: i64| #[trigger] q.contains(x) ==> p.contains(x),
    decreases p.len(),
{
    if p.no_duplicates() {
        p
    } else {
        let (i, j) = choose|i: int, j: int| 0 <= i < p.len() && 0 <= j < p.len() && i != j && p[i] == p[j];
        let (a, b) = if i < j {
            (i, j)
        } else {
            (j, i)
        };
        lemma_path_prefix(g, p, s, t, a);
        lemma_path_suffix(g, p, s, t, b);
        let pre = p.subrange(0, a + 1);
        let suf = p.skip(b);
        assert(pre[pre.len() - 1] == suf[0]);
        lemma_path_concat(g, pre, suf, s, p[a], t);
        let r = pre + suf.skip(1);
        assert forall|x: i64| #[trigger] r.contains(x) implies p.contains(x) by {
            let k = choose|k: int| 0 <= k < r.len() && r[k] == x;
            if k < pre.len() {
                assert(p[k] == x);
            } else {
                assert(p[k - pre.len() + b + 1] == x);
            }
        }
        let q = lemma_simple_path(g, r, s, t);
        q
    }
}

/// Some path from `entry` to `v` of at most `len` nodes misses `d`.
spec fn short_miss(g: &Graph, entry: i64, v: i64, d: i64, len: int) -> bool {
    exists|q: Seq<i64>| #[trigger] is_path(g, q, entry, v) && q.len() <= len && !q.contains(d)
}

/// The set of each node of `order` other than the entry leaves out every node that some
/// path of at most `len` nodes from the entry to it misses.
spec fn sets_exclude_short(
    g: &Graph,
    entry: i64,
    order: Seq<i64>,
    dm: Map<i64, ahash::AHashSet<i64>>,
    len: int,
) -> bool {
    forall|v: i64, d: i64|
        order.contains(v) && v != entry && #[trigger] short_miss(g, entry, v, d, len) ==> !id_set_view(
            dm[v],
        ).contains(d)
}

/// A pass that shrinks the sets carries what they leave out one edge further.
proof fn lemma_pass_excludes(
    g: &Graph,
    entry: i64,
    order: Seq<i64>,
    dm: Map<i64, ahash::AHashSet<i64>>,
    dm2: Map<i64, ahash::AHashSet<i64>>,
    len: int,
)
    requires
        g.wf(),
        order.no_duplicates(),
        forall|x: i64| #[trigger] order.contains(x) <==> reaches(g, entry, x),
        order.len() > 0,
        order[0] == entry,
        dom_ok(g, entry, dm),
        pass_rel(g, order, dm2, dm),
        forall|v: i64| #[trigger] id_set_view(dm2[v]).subset_of(id_set_view(dm[v])),
        sets_exclude_short(g, entry, order, dm, len),
    ensures
        sets_exclude_short(g, entry, order, dm2, len + 1),
{
    g.lemma_wf();
    assert forall|v: i64, d: i64|
        order.contains(v) && v != entry && #[trigger] short_miss(g, entry, v, d, len + 1) implies !id_set_view(
            dm2[v],
        ).contains(d) by {
        let q = choose|q: Seq<i64>| #[trigger] is_path(g, q, entry, v) && q.len() <= len + 1 && !q.contains(d);
        assert(q.len() >= 2) by {
            if q.len() == 1 {
                assert(q[0] == q[q.len() - 1]);
            }
        }
        let m = q.len() - 2;
        let p = q[m];
        lemma_path_prefix(g, q, entry, v, m);
        let q1 = q.subrange(0, m + 1);
        assert forall|x: i64| #[trigger] q1.contains(x) implies q.contains(x) by {
            let a = choose|a: int| 0 <= a < q1.len() && q1[a] == x;
            assert(q[a] == x);
        }
        assert(!q1.contains(d));
        assert(q.contains(v)) by {
            assert(q[q.len() - 1] == v);
        }
        assert(q.contains(entry)) by {
            assert(q[0] == entry);
        }
        assert(g.has_edge(q[m], q[m + 1]));
        assert(g.preds(v).contains(p));
        let jp = choose|jp: int| 0 <= jp < g.preds(v).len() && g.preds(v)[jp] == p;
        let k = choose|k: int| 0 <= k < order.len() && order[k] == v;
        assert(k >= 1) by {
            if k == 0 {
                assert(order[0] == entry);
            }
        }
        assert(id_set_view(dm2[order[k]]) == pass_meet(g, order, k, dm2, dm, order[k]).insert(order[k]));
        assert(!id_set_view(dm[p]).contains(d)) by {
            if p != entry {
                assert(short_miss(g, entry, p, d, len)) by {
                    assert(is_path(g, q1, entry, p) && q1.len() <= len && !q1.contains(d));
                }
                lemma_path_reaches(g, q1, entry, p);
                assert(order.contains(p));
            }
        }
        let ps = pass_set(order, k, dm2, dm, p);
        assert(!id_set_view(ps).contains(d)) by {
            if order.subrange(1, k).contains(p) {
                assert(id_set_view(dm2[p]).subset_of(id_set_view(dm[p])));
            }
        }
        assert(!pass_meet(g, order, k, dm2, dm, v).contains(d)) by {
            assert(g.preds(v)[jp] == p);
        }
    }
}

/// Once the sets leave out what paths of as many nodes as the graph has miss, each set of
/// a node of `order` is exact.
proof fn lemma_long_enough_exact(
    g: &Graph,
    entry: i64,
    order: Seq<i64>,
    dm: Map<i64, ahash::AHashSet<i64>>,
    len: int,
)
    requires
        g.wf(),
        g.is_node(entry),
        forall|x: i64| #[trigger] order.contains(x) <==> reaches(g, entry, x),
        dom_ok(g, entry, dm),
        sets_exclude_short(g, entry, order, dm, len),
        len >= g.node_count(),
    ensures
        forall|v: i64| #[trigger] order.contains(v) ==> id_set_view(dm[v]) == dom_set(g, entry, v),
{
    g.lemma_wf();
    assert forall|v: i64| #[trigger] order.contains(v) implies id_set_view(dm[v]) == dom_set(g, entry, v) by {
        if v != entry {
            let kv = choose|k: nat| #[trigger] within(g, entry, v, k);
            lemma_within_is_node_from(g, entry, v, kv);
            assert forall|d: i64| #[trigger] id_set_view(dm[v]).contains(d) implies dom_set(g, entry, v).contains(d) by {
                assert(node_set(g).contains(d));
                assert forall|q: Seq<i64>| #[trigger] is_path(g, q, entry, v) implies q.contains(d) by {
                    if !q.contains(d) {
                        let q2 = lemma_simple_path(g, q, entry, v);
                        assert forall|x: i64| #[trigger] q2.contains(x) implies g.is_node(x) by {
                            let a = choose|a: int| 0 <= a < q2.len() && q2[a] == x;
                            if a == 0 {
                                assert(q2[0] == entry);
                            } else {
                                assert(g.has_edge(q2[a - 1], q2[a]));
                            }
                        }
                        crate::reach::lemma_distinct_nodes(g, q2);
                        assert(!q2.contains(d));
                        assert(short_miss(g, entry, v, d, len));
                    }
                }
            }
            assert(id_set_view(dm[v]) =~= dom_set(g, entry, v));
        }
    }
}

/// One pass of the iteration over the nodes in `order` (the entry first): each other
/// node's set becomes its own id with the intersection of its predecessors' sets.
/// Returns whether some set changed; when none did, the sets are a fixed point.
fn iterate_dominators(graph: &Graph, entry: i64, dom: &mut SetMap, order: &Vec<i64>) -> (changed: bool)
    requires
        graph.wf(),
        graph.is_node(entry),
        dom_ok(graph, entry, set_map_view(*old(dom))),
        order@.no_duplicates(),
        forall|x: i64| #[trigger] order@.contains(x) <==> reaches(graph, entry, x),
        order@.len() > 0,
        order@[0] == entry,
    ensures
        dom_ok(graph, entry, set_map_view(*final(dom))),
        forall|v: i64|
            !order@.subrange(1, order@.len() as int).contains(v) ==> #[trigger] set_map_view(*final(dom))[v]
                == set_map_view(*old(dom))[v],
        forall|k: int|
            1 <= k < order@.len() ==> #[trigger] id_set_view(set_map_view(*final(dom))[order@[k]]) == pass_meet(
                graph,
                order@,
                k,
                set_map_view(*final(dom)),
                set_map_view(*old(dom)),
                order@[k],
            ).insert(order@[k]),
        changed <==> exists|k: int|
            1 <= k < order@.len() && #[trigger] id_set_view(set_map_view(*final(dom))[order@[k]]) != id_set_view(
                set_map_view(*old(dom))[order@[k]],
            ),
        !changed ==> set_map_view(*final(dom)) == set_map_view(*old(dom)),
        !changed ==> fixed(graph, entry, set_map_view(*final(dom))),
{
    let ghost dm0 = set_map_view(*dom);
    let mut changed = false;
    let mut i: usize = 1;
    proof {
        graph.lemma_wf();
    }
    while i < order.len()
        invariant
            graph.wf(),
            graph.is_node(entry),
            order@.no_duplicates(),
            forall|x: i64| #[trigger] order@.contains(x) <==> reaches(graph, entry, x),
            order@.len() > 0,
            order@[0] == entry,
            1 <= i <= order@.len(),
            dom_ok(graph, entry, set_map_view(*dom)),
            !changed ==> set_map_view(*dom) == dm0,
            !changed ==> forall|k: int|
                1 <= k < i ==> #[trigger] id_set_view(dm0[order@[k]]) == meet(graph, dm0, order@[k]).insert(order@[k]),
            forall|p: i64|
                !order@.subrange(1, i as int).contains(p) ==> #[trigger] set_map_view(*dom)[p] == dm0[p],
            forall|k: int|
                1 <= k < i ==> #[trigger] id_set_view(set_map_view(*dom)[order@[k]]) == pass_meet(
                    graph,
                    order@,
                    k,
                    set_map_view(*dom),
                    dm0,
                    order@[k],
                ).insert(order@[k]),
            changed ==> exists|k: int|
                1 <= k < i && #[trigger] id_set_view(set_map_view(*dom)[order@[k]]) != id_set_view(dm0[order@[k]]),
        decreases order.len() - i,
    {
        let node = order[i];
        let ghost dm = set_map_view(*dom);
        proof {
            assert(!order@.subrange(1, i as int).contains(node)) by {
                if order@.subrange(1, i as int).contains(node) {
                    let j = choose|j: int| 0 <= j < i - 1 && order@.subrange(1, i as int)[j] == node;
                    assert(order@[j + 1] == order@[i as int]);
                }
            }
            assert(dm[node] == dm0[node]);
            assert forall|p: i64| #[trigger] pass_set(order@, i as int, dm, dm0, p) == dm[p] by {}
            assert forall|d: i64| #[trigger] meet(graph, dm, node).contains(d) <==> pass_meet(
                graph,
                order@,
                i as int,
                dm,
                dm0,
                node,
            ).contains(d) by {
                if meet(graph, dm, node).contains(d) {
                    assert forall|j: int| 0 <= j < graph.preds(node).len() implies #[trigger] id_set_view(
                        pass_set(order@, i as int, dm, dm0, graph.preds(node)[j]),
                    ).contains(d) by {
                        assert(id_set_view(dm[graph.preds(node)[j]]).contains(d));
                    }
                }
                if pass_meet(graph, order@, i as int, dm, dm0, node).contains(d) {
                    assert forall|j: int| 0 <= j < graph.preds(node).len() implies #[trigger] id_set_view(
                        dm[graph.preds(node)[j]],
                    ).contains(d) by {
                        assert(id_set_view(pass_set(order@, i as int, dm, dm0, graph.preds(node)[j])).contains(d));
                    }
                }
            }
            assert(meet(graph, dm, node) =~= pass_meet(graph, order@, i as int, dm, dm0, node));
        }
        proof {
            graph.lemma_wf();
            assert(order@.contains(node));
            assert(node != entry) by {
                assert(order@[0] != order@[i as int]);
            }
            let k = choose|k: nat| #[trigger] within(graph, entry, node, k);
            assert(node != entry);
            let u = choose|u: i64| #[trigger] graph.has_edge(u, node) && within(graph, entry, u, (k - 1) as nat);
            assert(graph.preds(node).contains(u));
            lemma_within_is_node_from(graph, entry, node, k);
        }
        let preds = graph.fetch_incoming(node).unwrap();
        proof {
            assert(preds@.len() > 0);
            assert(graph.preds(node).contains(preds@[0]));
            assert(graph.has_edge(preds@[0], node));
            assert(graph.is_node(preds@[0]));
        }
        let first = set_map_get(dom, preds[0]).unwrap();
        let mut cur = intersect(first, first);
        proof {
            assert(id_set_view(cur) =~= id_set_view(dm[preds@[0]]));
            assert(graph.preds(node).contains(preds@[0]));
        }
        let mut k: usize = 1;
        while k < preds.len()
            invariant
                graph.wf(),
                preds@ == graph.preds(node),
                1 <= k <= preds@.len(),
                dm == set_map_view(*dom),
                dom_ok(graph, entry, dm),
                forall|d: i64| #[trigger] id_set_view(cur).contains(d) <==> forall|k2: int|
                    0 <= k2 < k ==> #[trigger] id_set_view(dm[preds@[k2]]).contains(d),
            decreases preds.len() - k,
        {
            proof {
                graph.lemma_wf();
                assert(graph.preds(node).contains(preds@[k as int]));
                assert(graph.has_edge(preds@[k as int], node));
                assert(graph.is_node(preds@[k as int]));
            }
            let other = set_map_get(dom, preds[k]).unwrap();
            cur = intersect(&cur, other);
            proof {
                assert forall|d: i64| #[trigger] id_set_view(cur).contains(d) <==> forall|k2: int|
                    0 <= k2 < k + 1 ==> #[trigger] id_set_view(dm[preds@[k2]]).contains(d) by {
                    if forall|k2: int| 0 <= k2 < k + 1 ==> #[trigger] id_set_view(dm[preds@[k2]]).contains(d) {
                        assert(id_set_view(dm[preds@[k as int]]).contains(d));
                    }
                }
            }
            k = k + 1;
        }
        id_set_insert(&mut cur, node);
        let ghost newset = id_set_view(cur);
        proof {
            graph.lemma_wf();
            assert(newset =~= meet(graph, dm, node).insert(node));
            // the new set keeps every true dominator and holds nodes only
            assert forall|d: i64| #[trigger] dom_set(graph, entry, node).contains(d) implies newset.contains(d) by {
                if d != node {
                    assert forall|k2: int| 0 <= k2 < preds@.len() implies #[trigger] id_set_view(dm[preds@[k2]]).contains(d) by {
                        assert(graph.preds(node).contains(preds@[k2]));
                        assert(graph.has_edge(preds@[k2], node));
                        lemma_dominator_in_pred(graph, entry, dm, d, preds@[k2], node);
                    }
                    assert(meet(graph, dm, node).contains(d));
                }
            }
            assert forall|d: i64| #[trigger] newset.contains(d) implies node_set(graph).contains(d) by {
                if d != node {
                    assert(id_set_view(dm[preds@[0]]).contains(d));
                    assert(graph.has_edge(preds@[0], node));
                    lemma_sets_are_nodes(graph, entry, dm, preds@[0]);
                }
            }
        }
        let old_set = set_map_get(dom, node).unwrap();
        if !same_ids(old_set, &cur) {
            set_map_insert(dom, node, cur);
            changed = true;
            proof {
                let dm1 = set_map_view(*dom);
                assert forall|v: i64|
                    graph.is_node(v) && v != entry && reaches(graph, entry, v) implies dom_set(graph, entry, v).subset_of(
                        #[trigger] id_set_view(dm1[v]),
                    ) && id_set_view(dm1[v]).subset_of(node_set(graph)) by {
                    if v == node {
                        assert(id_set_view(dm1[v]) == newset);
                    } else {
                        assert(dm1[v] == dm[v]);
                    }
                }
                assert forall|v: i64|
                    graph.is_node(v) && v != entry && !reaches(graph, entry, v) implies #[trigger] id_set_view(dm1[v]) == node_set(graph) by {
                    assert(dm1[v] == dm[v]);
                }
                assert(dm1[entry] == dm[entry]);
            }
        } else {
            proof {
                if !changed {
                    assert(id_set_view(dm0[order@[i as int]]) == meet(graph, dm0, order@[i as int]).insert(order@[i as int]));
                }
            }
        }
        proof {
            let dm1 = set_map_view(*dom);
            assert(dm1[node] == dm[node] || id_set_view(dm1[node]) == newset);
            assert(id_set_view(dm1[node]) == newset);
            assert forall|p: i64| p != node implies #[trigger] dm1[p] == dm[p] by {}
            assert forall|p: i64| #[trigger] order@.subrange(1, i + 1).contains(p) <==> order@.subrange(
                1,
                i as int,
            ).contains(p) || p == node by {
                let s0 = order@.subrange(1, i as int);
                let s1 = order@.subrange(1, i + 1);
                assert(s1 =~= s0.push(node));
                if s1.contains(p) {
                    let j = choose|j: int| 0 <= j < s1.len() && s1[j] == p;
                    if j < s0.len() {
                        assert(s0[j] == p);
                    }
                }
                if s0.contains(p) {
                    let j = choose|j: int| 0 <= j < s0.len() && s0[j] == p;
                    assert(s1[j] == p);
                }
                if p == node {
                    assert(s1[s1.len() - 1] == p);
                }
            }
            assert forall|p: i64| order@.subrange(1, i as int).contains(p) implies #[trigger] dm1[p] == dm[p] by {}
            lemma_pass_meet_frame(graph, order@, i as int, dm1, dm, dm0, node);
            assert forall|k: int|
                1 <= k < i + 1 implies #[trigger] id_set_view(dm1[order@[k]]) == pass_meet(
                    graph,
                    order@,
                    k,
                    dm1,
                    dm0,
                    order@[k],
                ).insert(order@[k]) by {
                if k < i {
                    assert(order@[k] != node);
                    assert forall|p: i64| order@.subrange(1, k).contains(p) implies #[trigger] dm1[p] == dm[p] by {
                        let j = choose|j: int| 0 <= j < k - 1 && order@.subrange(1, k)[j] == p;
                        assert(order@[j + 1] == p);
                        assert(j + 1 != i);
                    }
                    lemma_pass_meet_frame(graph, order@, k, dm1, dm, dm0, order@[k]);
                }
            }
            if changed {
                if id_set_view(dm1[node]) != id_set_view(dm0[node]) {
                    assert(id_set_view(dm1[order@[i as int]]) != id_set_view(dm0[order@[i as int]]));
                } else {
                    let k = choose|k: int|
                        1 <= k < i && #[trigger] id_set_view(dm[order@[k]]) != id_set_view(dm0[order@[k]]);
                    assert(order@[k] != node);
                    assert(id_set_view(dm1[order@[k]]) != id_set_view(dm0[order@[k]]));
                }
            }
        }
        i = i + 1;
    }
    proof {
        if !changed {
            assert forall|n: i64|
                graph.is_node(n) && n != entry && reaches(graph, entry, n) implies #[trigger] id_set_view(dm0[n]) == meet(graph, dm0, n).insert(n) by {
                assert(order@.contains(n));
                let k = choose|k: int| 0 <= k < order@.len() && order@[k] == n;
                assert(k != 0);
                assert(id_set_view(dm0[order@[k]]) == meet(graph, dm0, order@[k]).insert(order@[k]));
            }
        }
    }
    changed
}

/// A node reached over some edges, other than the start, is a node of the graph.
proof fn lemma_within_is_node_from(g: &Graph, s: i64, v: i64, k: nat)
    requires
        g.wf(),
        g.is_node(s),
        within(g, s, v, k),
    ensures
        g.is_node(v),
{
    if v != s {
        crate::reach::lemma_within_is_node(g, s, v, k);
    }
}

/// The starting sets: `{entry}` for the entry and every node for every other node.
fn initialize_dominators(graph: &Graph, all_nodes: &Vec<i64>, entry: i64) -> (dom: SetMap)
    requires
        graph.wf(),
        graph.is_node(entry),
        all_nodes@ == crate::graph::node_ids(graph.node_count()),
    ensures
        dom_ok(graph, entry, set_map_view(dom)),
        forall|v: i64| graph.is_node(v) && v != entry ==> #[trigger] id_set_view(set_map_view(dom)[v]) == node_set(graph),
{
    proof {
        graph.lemma_wf();
    }
    let mut universal = id_set_new();
    let mut i: usize = 0;
    while i < all_nodes.len()
        invariant
            all_nodes@ == crate::graph::node_ids(graph.node_count()),
            graph.node_count() < i64::MAX,
            i <= all_nodes@.len(),
            forall|v: i64| #[trigger] id_set_view(universal).contains(v) <==> 1 <= v <= i,
        decreases all_nodes.len() - i,
    {
        id_set_insert(&mut universal, all_nodes[i]);
        i = i + 1;
    }
    proof {
        assert(id_set_view(universal) =~= node_set(graph));
    }
    let mut dom = set_map_new();
    let mut i: usize = 0;
    while i < all_nodes.len()
        invariant
            all_nodes@ == crate::graph::node_ids(graph.node_count()),
            graph.node_count() < i64::MAX,
            graph.is_node(entry),
            i <= all_nodes@.len(),
            id_set_view(universal) == node_set(graph),
            forall|v: i64| #[trigger] set_map_view(dom).contains_key(v) <==> 1 <= v <= i,
            forall|v: i64|
                #[trigger] set_map_view(dom).contains_key(v) ==> id_set_view(set_map_view(dom)[v]) == if v == entry {
                    set![entry]
                } else {
                    node_set(graph)
                },
        decreases all_nodes.len() - i,
    {
        let node = all_nodes[i];
        if node == entry {
            let mut s = id_set_new();
            id_set_insert(&mut s, entry);
            proof {
                assert(id_set_view(s) =~= set![entry]);
            }
            set_map_insert(&mut dom, node, s);
        } else {
            set_map_insert(&mut dom, node, crate::hashing::id_set_clone(&universal));
        }
        i = i + 1;
    }
    proof {
        let dm = set_map_view(dom);
        assert forall|v: i64| #[trigger] dm.contains_key(v) <==> graph.is_node(v) by {}
        assert(dm.contains_key(entry));
        assert forall|v: i64|
            graph.is_node(v) && v != entry && reaches(graph, entry, v) implies dom_set(graph, entry, v).subset_of(
                #[trigger] id_set_view(dm[v]),
            ) && id_set_view(dm[v]).subset_of(node_set(graph)) by {
            assert(dm.contains_key(v));
            assert forall|d: i64| #[trigger] dom_set(graph, entry, v).contains(d) implies node_set(graph).contains(d) by {}
        }
        assert forall|v: i64|
            graph.is_node(v) && v != entry && !reaches(graph, entry, v) implies #[trigger] id_set_view(dm[v]) == node_set(graph) by {
            assert(dm.contains_key(v));
        }
        assert forall|v: i64| graph.is_node(v) && v != entry implies #[trigger] id_set_view(dm[v]) == node_set(graph) by {
            assert(dm.contains_key(v));
        }
    }
    dom
}

/// At a fixed point, the set of a node that the entry reaches holds nothing but its
/// dominators: along a path that misses `d`, no set holds `d`.
proof fn lemma_path_misses(g: &Graph, entry: i64, dm: Map<i64, ahash::AHashSet<i64>>, q: Seq<i64>, n: i64, d: i64, i: int)
    requires
        g.wf(),
        g.is_node(entry),
        dom_ok(g, entry, dm),
        fixed(g, entry, dm),
        is_path(g, q, entry, n),
        !q.contains(d),
        0 <= i < q.len(),
    ensures
        !id_set_view(dm[q[i]]).contains(d),
    decreases i,
{
    g.lemma_wf();
    if i == 0 {
        assert(q.contains(q[0]));
    } else {
        let v = q[i];
        assert(g.has_edge(q[i - 1], q[i]));
        lemma_path_node_reached(g, q, entry, n, i);
        lemma_path_misses(g, entry, dm, q, n, d, i - 1);
        if v != entry {
            assert(g.is_node(v));
            assert(id_set_view(dm[v]) == meet(g, dm, v).insert(v));
            assert(q.contains(v));
            assert(g.preds(v).contains(q[i - 1]));
            let k = choose|k: int| 0 <= k < g.preds(v).len() && g.preds(v)[k] == q[i - 1];
            assert(!id_set_view(dm[g.preds(v)[k]]).contains(d));
            assert(!meet(g, dm, v).contains(d));
        } else {
            assert(q.contains(entry));
        }
    }
}

/// At a fixed point every set is exact.
proof fn lemma_fixed_exact(g: &Graph, entry: i64, dm: Map<i64, ahash::AHashSet<i64>>)
    requires
        g.wf(),
        g.is_node(entry),
        dom_ok(g, entry, dm),
        fixed(g, entry, dm),
    ensures
        forall|v: i64| g.is_node(v) ==> #[trigger] id_set_view(dm[v]) == dom_set(g, entry, v),
{
    assert forall|v: i64| g.is_node(v) implies #[trigger] id_set_view(dm[v]) == dom_set(g, entry, v) by {
        if v != entry && reaches(g, entry, v) {
            assert forall|d: i64| #[trigger] id_set_view(dm[v]).contains(d) implies dom_set(g, entry, v).contains(d) by {
                assert(node_set(g).contains(d));
                assert forall|q: Seq<i64>| #[trigger] is_path(g, q, entry, v) implies q.contains(d) by {
                    if !q.contains(d) {
                        lemma_path_misses(g, entry, dm, q, v, d, q.len() - 1);
                    }
                }
            }
            assert(id_set_view(dm[v]) =~= dom_set(g, entry, v));
        }
    }
}

/// Every item of `strict` is `c` or lies in `cs`.
spec fn passes_check(strict: Seq<i64>, c: i64, cs: Set<i64>) -> bool {
    forall|k: int| 0 <= k < strict.len() ==> #[trigger] strict[k] == c || cs.contains(strict[k])
}

/// Every item of `strict` is `c` or lies in `cd`.
fn dominated_by_all(strict: &Vec<i64>, c: i64, cd: &ahash::AHashSet<i64>) -> (b: bool)
    ensures
        b == passes_check(strict@, c, id_set_view(*cd)),
{
    let mut i: usize = 0;
    while i < strict.len()
        invariant
            i <= strict@.len(),
            forall|k: int| 0 <= k < i ==> #[trigger] strict@[k] == c || id_set_view(*cd).contains(strict@[k]),
        decreases strict.len() - i,
    {
        let o = strict[i];
        if o != c && !id_set_contains(cd, o) {
            return false;
        }
        i = i + 1;
    }
    true
}

/// The nodes of a path are nodes of the graph.
proof fn lemma_path_nodes(g: &Graph, q: Seq<i64>, s: i64, t: i64, i: int)
    requires
        g.wf(),
        g.is_node(s),
        is_path(g, q, s, t),
        0 <= i < q.len(),
    ensures
        g.is_node(q[i]),
{
    g.lemma_wf();
    if i > 0 {
        assert(g.has_edge(q[i - 1], q[i]));
    }
}

/// A dominator of a node that the entry reaches is a node that the entry reaches.
proof fn lemma_dominator_reached(g: &Graph, entry: i64, d: i64, n: i64)
    requires
        g.wf(),
        g.is_node(entry),
        reaches(g, entry, n),
        dominates(g, entry, d, n),
    ensures
        reaches(g, entry, d),
        g.is_node(d),
{
    let k = choose|k: nat| #[trigger] within(g, entry, n, k);
    let q = lemma_reaches_path(g, entry, n, k);
    assert(q.contains(d));
    let i = choose|i: int| 0 <= i < q.len() && q[i] == d;
    lemma_path_node_reached(g, q, entry, n, i);
    lemma_path_nodes(g, q, entry, n, i);
}

/// A strict dominator that every other strict dominator's set check passes is the
/// immediate dominator.
proof fn lemma_idom_check(
    g: &Graph,
    entry: i64,
    n: i64,
    c: i64,
    strict: Seq<i64>,
    dm: Map<i64, ahash::AHashSet<i64>>,
)
    requires
        g.wf(),
        g.is_node(entry),
        reaches(g, entry, n),
        n != entry,
        forall|v: i64| g.is_node(v) ==> #[trigger] id_set_view(dm[v]) == dom_set(g, entry, v),
        forall|x: i64| #[trigger] strict.contains(x) <==> dom_set(g, entry, n).contains(x) && x != n,
        strict.contains(c),
        passes_check(strict, c, id_set_view(dm[c])),
    ensures
        is_idom(g, entry, c, n),
{
    assert(dom_set(g, entry, n).contains(c));
    lemma_dominator_reached(g, entry, c, n);
    assert forall|d: i64| #[trigger] dominates(g, entry, d, n) && d != n implies dominates(g, entry, d, c) by {
        lemma_dominator_reached(g, entry, d, n);
        assert(dom_set(g, entry, n).contains(d));
        assert(strict.contains(d));
        let k = choose|k: int| 0 <= k < strict.len() && strict[k] == d;
        if d == c {
            lemma_dominates_self(g, entry, c);
        } else {
            assert(id_set_view(dm[c]).contains(d));
            if c == entry {
                assert(d == entry);
            } else {
                assert(dom_set(g, entry, c).contains(d));
            }
        }
    }
}

/// The strict dominator that all others dominate passes the set check.
proof fn lemma_deepest_passes(
    g: &Graph,
    entry: i64,
    n: i64,
    c: i64,
    strict: Seq<i64>,
    dm: Map<i64, ahash::AHashSet<i64>>,
)
    requires
        g.wf(),
        g.is_node(entry),
        reaches(g, entry, n),
        n != entry,
        forall|v: i64| g.is_node(v) ==> #[trigger] id_set_view(dm[v]) == dom_set(g, entry, v),
        forall|x: i64| #[trigger] strict.contains(x) <==> dom_set(g, entry, n).contains(x) && x != n,
        strict.contains(c),
        forall|k: int| 0 <= k < strict.len() ==> dominates(g, entry, #[trigger] strict[k], c),
    ensures
        passes_check(strict, c, id_set_view(dm[c])),
{
    assert(dom_set(g, entry, n).contains(c));
    lemma_dominator_reached(g, entry, c, n);
    assert forall|k: int| 0 <= k < strict.len() implies #[trigger] strict[k] == c || id_set_view(dm[c]).contains(strict[k]) by {
        let o = strict[k];
        assert(strict.contains(o));
        assert(dom_set(g, entry, n).contains(o));
        assert(dominates(g, entry, o, c));
        if o != c {
            if c == entry {
                let q = seq![entry];
                assert(is_path(g, q, entry, entry));
                assert(q.contains(o));
                assert(o == entry);
            } else {
                assert(dom_set(g, entry, c).contains(o));
            }
        }
    }
}

/// The immediate dominator found for `n` from its dominator set.
fn immediate_of(graph: &Graph, entry: i64, dom: &SetMap, node: i64) -> (r: Option<i64>)
    requires
        graph.wf(),
        graph.is_node(entry),
        graph.is_node(node),
        node != entry,
        forall|v: i64| #[trigger] set_map_view(*dom).contains_key(v) <==> graph.is_node(v),
        forall|v: i64| graph.is_node(v) ==> #[trigger] id_set_view(set_map_view(*dom)[v]) == dom_set(graph, entry, v),
    ensures
        reaches(graph, entry, node) ==> (r matches Some(c) && is_idom(graph, entry, c, node)),
        r matches Some(c) ==> c != node && graph.is_node(c),
{
    let ghost dm = set_map_view(*dom);
    let ds = set_map_get(dom, node).unwrap();
    let all = id_set_to_vec(ds);
    let mut strict: Vec<i64> = Vec::new();
    let mut i: usize = 0;
    while i < all.len()
        invariant
            i <= all@.len(),
            forall|x: i64| #[trigger] strict@.contains(x) <==> all@.take(i as int).contains(x) && x != node,
        decreases all.len() - i,
    {
        let x = all[i];
        let ghost s0 = strict@;
        proof {
            let t1 = all@.take(i + 1);
            let t0 = all@.take(i as int);
            assert(t1 =~= t0.push(x));
            assert forall|v: i64| #[trigger] t1.contains(v) <==> t0.contains(v) || v == x by {
                if t1.contains(v) {
                    let y = choose|y: int| 0 <= y < t1.len() && t1[y] == v;
                    if y < t0.len() {
                        assert(t0[y] == v);
                    }
                }
                if t0.contains(v) {
                    let y = choose|y: int| 0 <= y < t0.len() && t0[y] == v;
                    assert(t1[y] == v);
                }
                if v == x {
                    assert(t1[i as int] == v);
                }
            }
        }
        if x != node {
            strict.push(x);
            proof {
                assert forall|v: i64| #[trigger] strict@.contains(v) <==> s0.contains(v) || v == x by {
                    if strict@.contains(v) {
                        let y = choose|y: int| 0 <= y < strict@.len() && strict@[y] == v;
                        if y < s0.len() {
                            assert(s0[y] == v);
                        }
                    }
                    if s0.contains(v) {
                        let y = choose|y: int| 0 <= y < s0.len() && s0[y] == v;
                        assert(strict@[y] == v);
                    }
                    if v == x {
                        assert(strict@[s0.len() as int] == v);
                    }
                }
            }
        }
        i = i + 1;
    }
    proof {
        assert(all@.take(all@.len() as int) =~= all@);
        assert forall|x: i64| #[trigger] strict@.contains(x) <==> dom_set(graph, entry, node).contains(x) && x != node by {
            assert(all@.to_set().contains(x) <==> all@.contains(x));
        }
        graph.lemma_wf();
    }
    if strict.len() == 0 {
        proof {
            if reaches(graph, entry, node) {
                assert forall|q: Seq<i64>| #[trigger] is_path(graph, q, entry, node) implies q.contains(entry) by {
                    assert(q[0] == entry);
                }
                assert(dom_set(graph, entry, node).contains(entry));
                assert(strict@.contains(entry));
            }
        }
        return None;
    }
    let ghost deepest: i64 = 0;
    proof {
        if reaches(graph, entry, node) {
            assert forall|k: int| 0 <= k < strict@.len() implies dominates(graph, entry, #[trigger] strict@[k], node) by {
                assert(strict@.contains(strict@[k]));
            }
            deepest = lemma_deepest(graph, entry, node, strict@);
        }
    }
    let mut result: Option<i64> = None;
    let mut max_size: usize = 0;
    let mut t: usize = 0;
    while t < strict.len()
        invariant
            graph.wf(),
            graph.is_node(entry),
            dm == set_map_view(*dom),
            forall|v: i64| #[trigger] dm.contains_key(v) <==> graph.is_node(v),
            forall|v: i64| graph.is_node(v) ==> #[trigger] id_set_view(dm[v]) == dom_set(graph, entry, v),
            forall|x: i64| #[trigger] strict@.contains(x) <==> dom_set(graph, entry, node).contains(x) && x != node,
            t <= strict@.len(),
            strict@.len() > 0,
            result matches Some(c) ==> strict@.contains(c),
            forall|a: int| 0 <= a < t ==> !#[trigger] passes_check(strict@, strict@[a], id_set_view(dm[strict@[a]])),
            reaches(graph, entry, node) ==> strict@.contains(deepest) && forall|k: int| 0 <= k < strict@.len() ==> dominates(graph, entry, #[trigger] strict@[k], deepest),
        decreases strict.len() - t,
    {
        let c = strict[t];
        proof {
            assert(strict@.contains(c));
            assert(graph.is_node(c));
        }
        match set_map_get(dom, c) {
            Some(cd) => {
                if dominated_by_all(&strict, c, cd) {
                    proof {
                        assert(strict@.contains(c));
                        if reaches(graph, entry, node) {
                            lemma_idom_check(graph, entry, node, c, strict@, dm);
                        }
                    }
                    return Some(c);
                }
                let size = id_set_len(cd);
                if size > max_size {
                    max_size = size;
                    result = Some(c);
                }
            },
            None => {
                proof {
                    assert(false);
                }
            },
        }
        t = t + 1;
    }
    proof {
        if reaches(graph, entry, node) {
            // the deepest strict dominator passes the check, so the search returned above
            let k0 = choose|k: int| 0 <= k < strict@.len() && strict@[k] == deepest;
            lemma_deepest_passes(graph, entry, node, deepest, strict@, dm);
            assert(passes_check(strict@, strict@[k0], id_set_view(dm[strict@[k0]])));
        }
    }
    result
}

/// The immediate dominator of each node of `dom`, and none for the entry.
fn extract_immediate_dominators(graph: &Graph, dom: &SetMap, entry: i64) -> (idom: OptMap)
    requires
        graph.wf(),
        graph.is_node(entry),
        forall|v: i64| #[trigger] set_map_view(*dom).contains_key(v) <==> graph.is_node(v),
        forall|v: i64| graph.is_node(v) ==> #[trigger] id_set_view(set_map_view(*dom)[v]) == dom_set(graph, entry, v),
    ensures
        idom_ok(graph, entry, opt_map_view(idom)),
{
    let mut idom = opt_map_new();
    opt_map_insert(&mut idom, entry, None);
    let keys = set_map_keys(dom);
    let mut i: usize = 0;
    while i < keys.len()
        invariant
            graph.wf(),
            graph.is_node(entry),
            forall|v: i64| #[trigger] set_map_view(*dom).contains_key(v) <==> graph.is_node(v),
            forall|v: i64| graph.is_node(v) ==> #[trigger] id_set_view(set_map_view(*dom)[v]) == dom_set(graph, entry, v),
            keys@.to_set() == set_map_view(*dom).dom(),
            i <= keys@.len(),
            opt_map_view(idom).contains_key(entry),
            opt_map_view(idom)[entry] is None,
            forall|v: i64| #[trigger] opt_map_view(idom).contains_key(v) <==> v == entry || keys@.take(i as int).contains(v),
            forall|v: i64| #[trigger] opt_map_view(idom).contains_key(v) && v != entry ==> idom_entry_ok(graph, entry, v, opt_map_view(idom)[v]),
        decreases keys.len() - i,
    {
        let node = keys[i];
        proof {
            assert(keys@.to_set().contains(node));
            let t1 = keys@.take(i + 1);
            let t0 = keys@.take(i as int);
            assert(t1 =~= t0.push(node));
            assert forall|v: i64| #[trigger] t1.contains(v) <==> t0.contains(v) || v == node by {
                if t1.contains(v) {
                    let y = choose|y: int| 0 <= y < t1.len() && t1[y] == v;
                    if y < t0.len() {
                        assert(t0[y] == v);
                    }
                }
                if t0.contains(v) {
                    let y = choose|y: int| 0 <= y < t0.len() && t0[y] == v;
                    assert(t1[y] == v);
                }
                if v == node {
                    assert(t1[i as int] == v);
                }
            }
        }
        if node != entry {
            let r = immediate_of(graph, entry, dom, node);
            opt_map_insert(&mut idom, node, r);
        }
        i = i + 1;
    }
    proof {
        assert(keys@.take(keys@.len() as int) =~= keys@);
        assert forall|v: i64| #[trigger] opt_map_view(idom).contains_key(v) <==> graph.is_node(v) by {
            assert(keys@.to_set().contains(v) <==> keys@.contains(v));
        }
    }
    idom
}

/// What the map of a node other than the entry holds: for a node that the entry
/// reaches, its immediate dominator; for another node, some other node or nothing.
pub open spec fn idom_entry_ok(g: &Graph, entry: i64, v: i64, r: Option<i64>) -> bool {
    &&& reaches(g, entry, v) ==> (r matches Some(c) && is_idom(g, entry, c, v))
    &&& r matches Some(c) ==> c != v && g.is_node(c)
}

/// The immediate dominators: one entry per node, nothing for the entry, and each other
/// node as `idom_entry_ok` says.
pub open spec fn idom_ok(g: &Graph, entry: i64, im: Map<i64, Option<i64>>) -> bool {
    &&& forall|v: i64| #[trigger] im.contains_key(v) <==> g.is_node(v)
    &&& im[entry] is None
    &&& forall|v: i64| #[trigger] im.contains_key(v) && v != entry ==> idom_entry_ok(g, entry, v, im[v])
}

/// The dominators of every node, and the immediate dominator tree.
#[derive(Debug)]
pub struct DominatorResult {
    /// For each node, the nodes that dominate it (itself included).
    pub dom: SetMap,
    /// For each node, its immediate dominator (none for the entry).
    pub idom: OptMap,
}

/// What the dominator computation gives: for each node, its dominator set as
/// `dom_set` says, and the immediate dominators as `idom_ok` says.
pub open spec fn dominators_ok(g: &Graph, entry: i64, res: DominatorResult) -> bool {
    &&& forall|v: i64| #[trigger] set_map_view(res.dom).contains_key(v) <==> g.is_node(v)
    &&& forall|v: i64| g.is_node(v) ==> #[trigger] id_set_view(set_map_view(res.dom)[v]) == dom_set(g, entry, v)
    &&& idom_ok(g, entry, opt_map_view(res.idom))
}

impl DominatorResult {
    /// `dominator` is in the dominator set of `node` (false when `node` has none).
    pub fn dominates(&self, dominator: i64, node: i64) -> (b: bool)
        ensures
            b == (set_map_view(self.dom).contains_key(node) && id_set_view(set_map_view(self.dom)[node]).contains(
                dominator,
            )),
    {
        match set_map_get(&self.dom, node) {
            Some(set) => id_set_contains(set, dominator),
            None => false,
        }
    }

    /// The immediate dominator of `node`, if it has one.
    pub fn immediate_dominator(&self, node: i64) -> (r: Option<i64>)
        ensures
            r == (if opt_map_view(self.idom).contains_key(node) {
                opt_map_view(self.idom)[node]
            } else {
                None
            }),
    {
        match opt_map_get(&self.idom, node) {
            Some(x) => x,
            None => None,
        }
    }

    /// `node` has an entry in the tree and no immediate dominator: it is the entry.
    pub fn is_entry(&self, node: i64) -> (b: bool)
        ensures
            b == (opt_map_view(self.idom).contains_key(node) && opt_map_view(self.idom)[node] is None),
    {
        match opt_map_get(&self.idom, node) {
            Some(x) => x.is_none(),
            None => false,
        }
    }
}

/// The progress message of one pass.
fn dominator_message(pass: usize, nodes: usize) -> (s: String)
    ensures
        s@ == "Dominator iteration "@ + decimal(pass as int) + ": "@ + decimal(nodes as int) + " nodes processed"@,
{
    let mut msg = String::from_str("Dominator iteration ");
    msg.append(usize_text(pass).as_str());
    msg.append(": ");
    msg.append(usize_text(nodes).as_str());
    msg.append(" nodes processed");
    msg
}

/// The message of an entry that is not a node.
fn missing_entry_message(entry: i64) -> (s: String)
    ensures
        s@ == "Entry node "@ + decimal(entry as int) + " not found in graph"@,
{
    let mut msg = String::from_str("Entry node ");
    msg.append(crate::text::i64_text(entry).as_str());
    msg.append(" not found in graph");
    msg
}

/// The dominators, as `dominators` computes them, reporting each pass.
pub fn dominators_with_progress<F: ProgressCallback>(graph: &Graph, entry: i64, progress: &F) -> (r: Result<
    DominatorResult,
    SqliteGraphError,
>)
    requires
        graph.wf(),
    ensures
        !graph.is_node(entry) ==> (r matches Err(SqliteGraphError::NotFound(msg)) && msg@ == "Entry node "@
            + decimal(entry as int) + " not found in graph"@),
        graph.is_node(entry) && graph.node_count() <= 1000 ==> r is Ok,
        (r matches Err(e) && e is Query) ==> exists|order: Seq<i64>, ms: Seq<Map<i64, ahash::AHashSet<i64>>>|
            #[trigger] dominator_passes(graph, entry, order, ms) && ms.len() == 1001,
        r matches Ok(res) ==> graph.is_node(entry) && dominators_ok(graph, entry, res),
        r matches Err(e) ==> (!graph.is_node(entry) && e is NotFound) || (graph.is_node(entry) && e is Query),
{
    let all_nodes = graph.all_entity_ids()?;
    proof {
        graph.lemma_wf();
    }
    let n = all_nodes.len();
    if entry < 1 || entry > n as i64 {
        return Err(SqliteGraphError::NotFound(missing_entry_message(entry)));
    }
    let mut dom = initialize_dominators(graph, &all_nodes, entry);
    let order = reverse_postorder(graph, entry);
    let max_iterations: usize = 1000;
    let mut iteration: usize = 0;
    // After each pass no set holds a node that a path of one more edge misses, so the
    // passes that change a set number fewer than the graph's nodes.
    let ghost mut prev = set_map_view(dom);
    let ghost mut ms: Seq<Map<i64, ahash::AHashSet<i64>>> = seq![set_map_view(dom)];
    proof {
        assert forall|x: i64| #[trigger] order@.contains(x) implies graph.is_node(x) by {
            let k = choose|k: nat| #[trigger] within(graph, entry, x, k);
            lemma_within_is_node_from(graph, entry, x, k);
        }
        assert forall|v: i64, d: i64|
            order@.contains(v) && v != entry && #[trigger] short_miss(graph, entry, v, d, 1) implies !id_set_view(
                set_map_view(dom)[v],
            ).contains(d) by {
            let q = choose|q: Seq<i64>| #[trigger] is_path(graph, q, entry, v) && q.len() <= 1 && !q.contains(d);
            assert(q[0] == q[q.len() - 1]);
        }
    }
    loop
        invariant
            graph.wf(),
            graph.is_node(entry),
            dom_ok(graph, entry, set_map_view(dom)),
            order@.no_duplicates(),
            forall|x: i64| #[trigger] order@.contains(x) <==> reaches(graph, entry, x),
            order@.len() > 0,
            order@[0] == entry,
            iteration < max_iterations,
            max_iterations == 1000,
            forall|v: i64| #[trigger] id_set_view(set_map_view(dom)[v]).subset_of(id_set_view(prev[v])),
            iteration == 0 ==> forall|v: i64|
                graph.is_node(v) && v != entry ==> #[trigger] id_set_view(set_map_view(dom)[v]) == node_set(graph),
            iteration > 0 ==> pass_rel(graph, order@, set_map_view(dom), prev),
            ms.len() == iteration + 1,
            ms[iteration as int] == set_map_view(dom),
            dominator_passes(graph, entry, order@, ms),
            iteration < graph.node_count(),
            sets_exclude_short(graph, entry, order@, set_map_view(dom), iteration + 1),
        ensures
            dom_ok(graph, entry, set_map_view(dom)),
            fixed(graph, entry, set_map_view(dom)),
        decreases max_iterations - iteration,
    {
        let ghost dm = set_map_view(dom);
        let changed = iterate_dominators(graph, entry, &mut dom, &order);
        proof {
            let dm2 = set_map_view(dom);
            let len = order@.len() as int;
            if changed {
                if iteration > 0 {
                    lemma_pass_shrinks(graph, order@, prev, dm, dm2, len);
                }
                assert forall|v: i64| #[trigger] id_set_view(dm2[v]).subset_of(id_set_view(dm[v])) by {
                    if order@.subrange(1, len).contains(v) {
                        let t = choose|t: int| 0 <= t < len - 1 && order@.subrange(1, len)[t] == v;
                        assert(order@[t + 1] == v);
                        if iteration == 0 {
                            assert(order@.contains(v));
                            assert(v != entry) by {
                                assert(order@[0] != order@[t + 1]);
                            }
                            lemma_within_is_node_from(graph, entry, v, choose|k: nat| #[trigger] within(graph, entry, v, k));
                        } else {
                            assert(id_set_view(dm2[order@[t + 1]]).subset_of(id_set_view(dm[order@[t + 1]])));
                        }
                    }
                }
                let k = choose|k: int|
                    1 <= k < order@.len() && #[trigger] id_set_view(dm2[order@[k]]) != id_set_view(dm[order@[k]]);
                prev = dm;
                let ms0 = ms;
                ms = ms.push(dm2);
                assert(pass_rel(graph, order@, dm2, dm));
                assert(pass_changes(order@, dm2, dm));
                assert forall|i: int| 0 <= i < ms.len() - 1 implies #[trigger] pass_rel(graph, order@, ms[i + 1], ms[i])
                    && pass_changes(order@, ms[i + 1], ms[i]) by {
                    if i < ms0.len() - 1 {
                        assert(ms[i] == ms0[i] && ms[i + 1] == ms0[i + 1]);
                    } else {
                        assert(ms[i] == dm && ms[i + 1] == dm2);
                    }
                }
                assert(ms[0] == ms0[0]);
                assert(dominator_passes(graph, entry, order@, ms));
                lemma_pass_excludes(graph, entry, order@, dm, dm2, iteration + 1);
                assert(iteration + 1 < graph.node_count()) by {
                    if iteration + 1 >= graph.node_count() {
                        lemma_long_enough_exact(graph, entry, order@, dm, iteration + 1);
                        lemma_long_enough_exact(graph, entry, order@, dm2, iteration + 2);
                        assert(order@.contains(order@[k]));
                        assert(id_set_view(dm2[order@[k]]) == id_set_view(dm[order@[k]]));
                    }
                }
            }
        }
        let msg = dominator_message(iteration + 1, order.len());
        progress.on_progress(iteration + 1, None, msg.as_str());
        if !changed {
            break;
        }
        iteration = iteration + 1;
        if iteration >= max_iterations {
            let mut msg = String::from_str("Dominator computation failed to converge after ");
            msg.append(usize_text(max_iterations).as_str());
            msg.append(" iterations");
            return Err(SqliteGraphError::Query(msg));
        }
    }
    progress.on_complete();
    proof {
        lemma_fixed_exact(graph, entry, set_map_view(dom));
    }
    let idom = extract_immediate_dominators(graph, &dom, entry);
    Ok(DominatorResult { dom, idom })
}

/// The dominators of every node from `entry` by the iterative data-flow method over
/// reverse postorder, and the immediate dominator of each node. Fails with `NotFound`
/// when `entry` is not a node, and with `Query` only after 1000 passes that each changed
/// some set (`dominator_passes`). After `k` passes no set holds a node that some path of
/// at most `k` edges from the entry misses, so a graph of `n` nodes settles after at most
/// `n - 1` changing passes: up to 1000 nodes the computation always succeeds.
pub fn dominators(graph: &Graph, entry: i64) -> (r: Result<DominatorResult, SqliteGraphError>)
    requires
        graph.wf(),
    ensures
        !graph.is_node(entry) ==> (r matches Err(SqliteGraphError::NotFound(msg)) && msg@ == "Entry node "@
            + decimal(entry as int) + " not found in graph"@),
        graph.is_node(entry) && graph.node_count() <= 1000 ==> r is Ok,
        (r matches Err(e) && e is Query) ==> exists|order: Seq<i64>, ms: Seq<Map<i64, ahash::AHashSet<i64>>>|
            #[trigger] dominator_passes(graph, entry, order, ms) && ms.len() == 1001,
        r matches Ok(res) ==> graph.is_node(entry) && dominators_ok(graph, entry, res),
        r matches Err(e) ==> (!graph.is_node(entry) && e is NotFound) || (graph.is_node(entry) && e is Query),
{
    dominators_with_progress(graph, entry, &NoProgress)
}

} // verus!
