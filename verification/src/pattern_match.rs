//! Occurrences of a pattern graph inside a graph: the ways to place the pattern's
//! nodes on distinct nodes of the graph so that every pattern edge lands on an edge.
use vstd::prelude::*;

use crate::error::SqliteGraphError;
use crate::graph::{copy_ids, Graph};

verus! {

/// `m` places the pattern nodes `1..=m.len()` (node `i` on `m[i - 1]`): on distinct
/// nodes of `g`, with every pattern edge between placed nodes landing on an edge of `g`.
pub open spec fn consistent(g: &Graph, p: &Graph, m: Seq<i64>) -> bool {
    &&& m.len() <= p.node_count()
    &&& m.no_duplicates()
    &&& forall|i: int| 0 <= i < m.len() ==> g.is_node(#[trigger] m[i])
    &&& forall|k: int|
        0 <= k < p.edge_list().len() && (#[trigger] p.edge_list()[k]).0 <= m.len()
            && p.edge_list()[k].1 <= m.len() ==> g.has_edge(
            m[p.edge_list()[k].0 - 1],
            m[p.edge_list()[k].1 - 1],
        )
}

/// `m` places every pattern node: an occurrence of `p` in `g`.
pub open spec fn is_embedding(g: &Graph, p: &Graph, m: Seq<i64>) -> bool {
    consistent(g, p, m) && m.len() == p.node_count()
}

/// The occurrences of `p` in `g` that extend `m`, in lexicographic order of the
/// placed node ids.
pub open spec fn completions(g: &Graph, p: &Graph, m: Seq<i64>) -> Seq<Seq<i64>>
    decreases p.node_count() - m.len(), g.node_count() + 2,
{
    if m.len() >= p.node_count() {
        if is_embedding(g, p, m) {
            seq![m]
        } else {
            Seq::empty()
        }
    } else {
        completions_from(g, p, m, 1)
    }
}

/// The occurrences of `p` in `g` that extend `m` by placing the next pattern node on `v`
/// or a later node id, in lexicographic order.
pub open spec fn completions_from(g: &Graph, p: &Graph, m: Seq<i64>, v: int) -> Seq<Seq<i64>>
    decreases p.node_count() - m.len(), g.node_count() + 1 - v,
{
    if m.len() >= p.node_count() || v < 1 || v > g.node_count() {
        Seq::empty()
    } else {
        completions(g, p, m.push(v as i64)) + completions_from(g, p, m, v + 1)
    }
}

/// `r` followed by `t`, cut off after `limit` items.
pub open spec fn bounded_append(r: Seq<Seq<i64>>, t: Seq<Seq<i64>>, limit: nat) -> Seq<Seq<i64>> {
    if r.len() + t.len() <= limit {
        r + t
    } else {
        (r + t).subrange(0, limit as int)
    }
}

/// The id sequences that a list of matches holds.
pub open spec fn match_views(r: Seq<Vec<i64>>) -> Seq<Seq<i64>> {
    r.map_values(|v: Vec<i64>| v@)
}

/// The first `limit` occurrences of `p` in `g`, in lexicographic order.
pub open spec fn first_matches(g: &Graph, p: &Graph, limit: nat) -> Seq<Seq<i64>> {
    bounded_append(Seq::empty(), completions(g, p, Seq::empty()), limit)
}

/// Cutting off twice is cutting off once after the joined tail.
proof fn lemma_bounded_append_assoc(r: Seq<Seq<i64>>, a: Seq<Seq<i64>>, b: Seq<Seq<i64>>, limit: nat)
    requires
        r.len() <= limit,
    ensures
        bounded_append(bounded_append(r, a, limit), b, limit) == bounded_append(r, a + b, limit),
{
    assert(r + (a + b) =~= (r + a) + b);
    if r.len() + a.len() <= limit {
    } else {
        let ra = (r + a).subrange(0, limit as int);
        assert(bounded_append(ra, b, limit) =~= ((r + a) + b).subrange(0, limit as int));
    }
}

/// A placement that extends a consistent one by a node was consistent before.
proof fn lemma_consistent_prefix(g: &Graph, p: &Graph, m: Seq<i64>, v: i64)
    requires
        p.wf(),
        consistent(g, p, m.push(v)),
    ensures
        consistent(g, p, m),
{
    p.lemma_wf();
    let mv = m.push(v);
    assert forall|i: int| 0 <= i < m.len() implies g.is_node(#[trigger] m[i]) by {
        assert(mv[i] == m[i]);
    }
    assert forall|k: int|
        0 <= k < p.edge_list().len() && (#[trigger] p.edge_list()[k]).0 <= m.len()
            && p.edge_list()[k].1 <= m.len() implies g.has_edge(
        m[p.edge_list()[k].0 - 1],
        m[p.edge_list()[k].1 - 1],
    ) by {
        let e = p.edge_list()[k];
        assert(mv[e.0 - 1] == m[e.0 - 1]);
        assert(mv[e.1 - 1] == m[e.1 - 1]);
    }
    assert forall|a: int, b: int| 0 <= a < m.len() && 0 <= b < m.len() && a != b implies m[a] != m[b] by {
        assert(mv[a] == m[a]);
        assert(mv[b] == m[b]);
    }
}

/// No occurrence extends a placement that is already inconsistent.
proof fn lemma_inconsistent_none(g: &Graph, p: &Graph, m: Seq<i64>)
    requires
        p.wf(),
        !consistent(g, p, m),
        m.len() <= p.node_count(),
    ensures
        completions(g, p, m) == Seq::<Seq<i64>>::empty(),
    decreases p.node_count() - m.len(), g.node_count() + 2,
{
    if m.len() < p.node_count() {
        lemma_inconsistent_none_from(g, p, m, 1);
    }
}

proof fn lemma_inconsistent_none_from(g: &Graph, p: &Graph, m: Seq<i64>, v: int)
    requires
        p.wf(),
        !consistent(g, p, m),
        m.len() < p.node_count(),
    ensures
        completions_from(g, p, m, v) == Seq::<Seq<i64>>::empty(),
    decreases p.node_count() - m.len(), g.node_count() + 1 - v,
{
    if 1 <= v <= g.node_count() {
        if consistent(g, p, m.push(v as i64)) {
            lemma_consistent_prefix(g, p, m, v as i64);
        }
        lemma_inconsistent_none(g, p, m.push(v as i64));
        lemma_inconsistent_none_from(g, p, m, v + 1);
    }
}

/// Every occurrence that the enumeration lists is an occurrence that extends `m`.
pub proof fn lemma_completions_sound(g: &Graph, p: &Graph, m: Seq<i64>, i: int)
    requires
        0 <= i < completions(g, p, m).len(),
    ensures
        is_embedding(g, p, completions(g, p, m)[i]),
        completions(g, p, m)[i].subrange(0, m.len() as int) == m,
    decreases p.node_count() - m.len(), g.node_count() + 2,
{
    if m.len() >= p.node_count() {
        assert(m.subrange(0, m.len() as int) =~= m);
    } else {
        lemma_completions_from_sound(g, p, m, 1, i);
    }
}

proof fn lemma_completions_from_sound(g: &Graph, p: &Graph, m: Seq<i64>, v: int, i: int)
    requires
        0 <= i < completions_from(g, p, m, v).len(),
    ensures
        is_embedding(g, p, completions_from(g, p, m, v)[i]),
        completions_from(g, p, m, v)[i].subrange(0, m.len() as int) == m,
    decreases p.node_count() - m.len(), g.node_count() + 1 - v,
{
    if !(m.len() >= p.node_count() || v < 1 || v > g.node_count()) {
        let head = completions(g, p, m.push(v as i64));
        let rest = completions_from(g, p, m, v + 1);
        if i < head.len() {
            lemma_completions_sound(g, p, m.push(v as i64), i);
            let e = head[i];
            assert(e.subrange(0, m.len() as int) =~= e.subrange(0, (m.len() + 1) as int).subrange(0, m.len() as int));
            assert(m.push(v as i64).subrange(0, m.len() as int) =~= m);
        } else {
            lemma_completions_from_sound(g, p, m, v + 1, i - head.len());
        }
    }
}

/// Whether the graph has an edge from `u` to `w`.
pub fn graph_has_edge(graph: &Graph, u: i64, w: i64) -> (b: bool)
    requires
        graph.wf(),
    ensures
        b == graph.has_edge(u, w),
{
    let out = graph.fetch_outgoing(u).unwrap();
    let mut i: usize = 0;
    while i < out.len()
        invariant
            out@ == graph.succs(u),
            i <= out@.len(),
            forall|j: int| 0 <= j < i ==> out@[j] != w,
        decreases out.len() - i,
    {
        if out[i] == w {
            return true;
        }
        i = i + 1;
    }
    false
}

/// Whether placing the next pattern node on `v` keeps the placement consistent.
fn extends_consistently(
    graph: &Graph,
    pattern: &Graph,
    pedges: &Vec<(i64, i64)>,
    partial: &Vec<i64>,
    v: i64,
) -> (b: bool)
    requires
        graph.wf(),
        pattern.wf(),
        pedges@ == pattern.edge_list(),
        consistent(graph, pattern, partial@),
        partial@.len() < pattern.node_count(),
    ensures
        b == consistent(graph, pattern, partial@.push(v)),
{
    let ghost m = partial@;
    let ghost mv = m.push(v);
    proof {
        pattern.lemma_wf();
    }
    if v < 1 || v as u64 > graph.entity_count() as u64 {
        proof {
            assert(mv[m.len() as int] == v);
        }
        return false;
    }
    let mut i: usize = 0;
    while i < partial.len()
        invariant
            partial@ == m,
            mv == m.push(v),
            i <= m.len(),
            forall|j: int| 0 <= j < i ==> m[j] != v,
        decreases partial.len() - i,
    {
        if partial[i] == v {
            proof {
                assert(mv[i as int] == m[i as int]);
                assert(mv[m.len() as int] == v);
            }
            return false;
        }
        i = i + 1;
    }
    let len = partial.len() as i64;
    let mut k: usize = 0;
    while k < pedges.len()
        invariant
            graph.wf(),
            pattern.wf(),
            pedges@ == pattern.edge_list(),
            partial@ == m,
            mv == m.push(v),
            consistent(graph, pattern, m),
            forall|j: int| 0 <= j < m.len() ==> m[j] != v,
            1 <= v <= graph.node_count(),
            len == m.len(),
            m.len() < pattern.node_count(),
            pattern.node_count() < i64::MAX,
            pattern.node_count() <= usize::MAX,
            k <= pedges@.len(),
            forall|q: int|
                0 <= q < k && (#[trigger] pedges@[q]).0 <= m.len() + 1 && pedges@[q].1 <= m.len() + 1
                    ==> graph.has_edge(mv[pedges@[q].0 - 1], mv[pedges@[q].1 - 1]),
            forall|q: int|
                0 <= q < pedges@.len() ==> 1 <= (#[trigger] pedges@[q]).0 <= pattern.node_count()
                    && 1 <= pedges@[q].1 <= pattern.node_count(),
        decreases pedges.len() - k,
    {
        let (a, b) = pedges[k];
        proof {
            assert(pedges@[k as int] == (a, b));
            assert(1 <= a && 1 <= b);
        }
        if a <= len + 1 && b <= len + 1 && (a == len + 1 || b == len + 1) {
            let from = if a == len + 1 {
                proof {
                    assert(mv[a - 1] == v);
                }
                v
            } else {
                let ai = (a - 1) as usize;
                proof {
                    assert(ai as int == a - 1);
                    assert(mv[a - 1] == m[a - 1]);
                }
                partial[ai]
            };
            let to = if b == len + 1 {
                proof {
                    assert(mv[b - 1] == v);
                }
                v
            } else {
                let bi = (b - 1) as usize;
                proof {
                    assert(bi as int == b - 1);
                    assert(mv[b - 1] == m[b - 1]);
                }
                partial[bi]
            };
            if !graph_has_edge(graph, from, to) {
                return false;
            }
        } else if a <= len + 1 && b <= len + 1 {
            proof {
                assert(pattern.edge_list()[k as int] == (a, b));
                assert(graph.has_edge(m[a - 1], m[b - 1]));
                assert(mv[a - 1] == m[a - 1]);
                assert(mv[b - 1] == m[b - 1]);
            }
        }
        k = k + 1;
    }
    proof {
        assert forall|a: int, b: int| 0 <= a < mv.len() && 0 <= b < mv.len() && a != b implies mv[a]
            != mv[b] by {
            if a < m.len() && b < m.len() {
                assert(mv[a] == m[a]);
                assert(mv[b] == m[b]);
            } else if a < m.len() {
                assert(mv[a] == m[a]);
            } else {
                assert(mv[b] == m[b]);
            }
        }
        assert forall|i: int| 0 <= i < mv.len() implies graph.is_node(#[trigger] mv[i]) by {
            if i < m.len() {
                assert(mv[i] == m[i]);
            }
        }
    }
    true
}

/// Adds to `results` the occurrences that extend `partial`, in lexicographic order,
/// stopping once `results` holds `limit` matches.
fn extend_matches(
    graph: &Graph,
    pattern: &Graph,
    pedges: &Vec<(i64, i64)>,
    partial: &mut Vec<i64>,
    results: &mut Vec<Vec<i64>>,
    limit: usize,
)
    requires
        graph.wf(),
        pattern.wf(),
        pedges@ == pattern.edge_list(),
        consistent(graph, pattern, old(partial)@),
        old(results)@.len() < limit,
    ensures
        final(partial)@ == old(partial)@,
        match_views(final(results)@) == bounded_append(
            match_views(old(results)@),
            completions(graph, pattern, old(partial)@),
            limit as nat,
        ),
        final(results)@.len() <= limit,
    decreases pattern.node_count() - old(partial)@.len(),
{
    let ghost m = partial@;
    let ghost r0 = match_views(results@);
    if partial.len() == pattern.entity_count() {
        let found = copy_ids(partial);
        results.push(found);
        proof {
            assert(match_views(results@) =~= r0.push(m));
            assert(r0 + seq![m] =~= r0.push(m));
        }
        return;
    }
    let n = graph.entity_count();
    proof {
        graph.lemma_wf();
    }
    let mut v: i64 = 1;
    while v as u64 <= n as u64 && results.len() < limit
        invariant
            graph.wf(),
            pattern.wf(),
            pedges@ == pattern.edge_list(),
            partial@ == m,
            m == old(partial)@,
            consistent(graph, pattern, m),
            m.len() < pattern.node_count(),
            n == graph.node_count(),
            graph.node_count() < i64::MAX,
            1 <= v <= n + 1,
            results@.len() <= limit,
            bounded_append(match_views(results@), completions_from(graph, pattern, m, v as int), limit as nat)
                == bounded_append(r0, completions(graph, pattern, m), limit as nat),
        decreases n + 1 - v,
    {
        let ghost rb = match_views(results@);
        proof {
            assert(completions_from(graph, pattern, m, v as int) == completions(graph, pattern, m.push(v))
                + completions_from(graph, pattern, m, v + 1));
            lemma_bounded_append_assoc(
                rb,
                completions(graph, pattern, m.push(v)),
                completions_from(graph, pattern, m, v + 1),
                limit as nat,
            );
        }
        if extends_consistently(graph, pattern, pedges, partial, v) {
            partial.push(v);
            extend_matches(graph, pattern, pedges, partial, results, limit);
            partial.pop();
            proof {
                assert(partial@ =~= m);
            }
        } else {
            proof {
                lemma_inconsistent_none(graph, pattern, m.push(v));
                assert(rb + Seq::<Seq<i64>>::empty() =~= rb);
            }
        }
        v = v + 1;
    }
    proof {
        let rf = match_views(results@);
        if results@.len() >= limit {
            assert(rf.len() == limit);
            assert(rf + completions_from(graph, pattern, m, v as int) =~= rf + completions_from(
                graph,
                pattern,
                m,
                v as int,
            ));
            assert((rf + completions_from(graph, pattern, m, v as int)).subrange(0, limit as int) =~= rf);
        } else {
            assert(completions_from(graph, pattern, m, v as int) == Seq::<Seq<i64>>::empty());
            assert(rf + Seq::<Seq<i64>>::empty() =~= rf);
        }
    }
}

/// The first `limit` occurrences of `pattern` in `graph` (all of them when `limit` is
/// `None`), in lexicographic order of the node ids that they place the pattern's nodes on
/// (pattern node `i` on entry `i - 1`).
pub fn find_pattern_matches(graph: &Graph, pattern: &Graph, limit: Option<usize>) -> (r: Result<
    Vec<Vec<i64>>,
    SqliteGraphError,
>)
    requires
        graph.wf(),
        pattern.wf(),
    ensures
        match r {
            Ok(v) => match_views(v@) == first_matches(
                graph,
                pattern,
                match limit {
                    Some(l) => l as nat,
                    None => usize::MAX as nat,
                },
            ),
            Err(_) => false,
        },
{
    let lim = match limit {
        Some(l) => l,
        None => usize::MAX,
    };
    let mut results: Vec<Vec<i64>> = Vec::new();
    if lim == 0 {
        proof {
            assert(match_views(results@) =~= Seq::<Seq<i64>>::empty());
            let t = completions(graph, pattern, Seq::empty());
            if t.len() > 0 {
                assert((Seq::<Seq<i64>>::empty() + t).subrange(0, 0) =~= Seq::<Seq<i64>>::empty());
            } else {
                assert(Seq::<Seq<i64>>::empty() + t =~= Seq::<Seq<i64>>::empty());
            }
        }
        return Ok(results);
    }
    let pedges = pattern_edges(pattern);
    let mut partial: Vec<i64> = Vec::new();
    proof {
        pattern.lemma_wf();
        assert(match_views(results@) =~= Seq::<Seq<i64>>::empty());
        assert(partial@.no_duplicates());
    }
    extend_matches(graph, pattern, &pedges, &mut partial, &mut results, lim);
    Ok(results)
}

/// The edges of the pattern, as (source, target) pairs in the order of their insertion.
fn pattern_edges(pattern: &Graph) -> (r: Vec<(i64, i64)>)
    requires
        pattern.wf(),
    ensures
        r@ == pattern.edge_list(),
{
    pattern.edge_pairs()
}

} // verus!
