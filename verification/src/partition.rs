//! Partitions of a graph's nodes into parts: by multi-source breadth-first growth from
//! seeds, by greedy moves that shrink the cut, and into k balanced parts.
use std::collections::{HashMap, VecDeque};

use vstd::prelude::*;

use crate::error::SqliteGraphError;
use crate::graph::{Graph, lemma_out_of_len, lemma_source_count_bound, node_ids};
use crate::hashing::{id_set_clone, id_set_contains, id_set_len, id_set_insert, id_set_new, id_set_remove, id_set_to_vec, id_set_view};
use crate::progress::{NoProgress, ProgressCallback};
use crate::reach::{lemma_within_is_node, lemma_within_mono, lemma_within_step, within};
use crate::text::{decimal, usize_text};
use vstd::set_lib::{lemma_int_range, lemma_len_subset, lemma_subset_equality, set_int_range};

verus! {

broadcast use vstd::std_specs::hash::group_hash_axioms;

/// The endpoints of an edge from `u` to `v` both have a part, and the parts differ.
pub open spec fn crosses(m: Map<i64, usize>, u: i64, v: i64) -> bool {
    m.contains_key(u) && m.contains_key(v) && m[u] != m[v]
}

/// The edges from `u` to the targets `targets`, in their order, that cross between parts.
pub open spec fn cut_row(m: Map<i64, usize>, u: i64, targets: Seq<i64>) -> Seq<(i64, i64)>
    decreases targets.len(),
{
    if targets.len() == 0 {
        Seq::empty()
    } else {
        cut_row(m, u, targets.drop_last()) + if crosses(m, u, targets.last()) {
            seq![(u, targets.last())]
        } else {
            Seq::empty()
        }
    }
}

/// The crossing edges that leave the nodes `1..=n`, node by node and, for each node, in
/// the order of the edges' insertion.
pub open spec fn cut_list(g: &Graph, m: Map<i64, usize>, n: nat) -> Seq<(i64, i64)>
    decreases n,
{
    if n == 0 {
        Seq::empty()
    } else {
        cut_list(g, m, (n - 1) as nat) + cut_row(m, n as i64, g.succs(n as i64))
    }
}

/// The edges of the graph whose endpoints lie in different parts.
pub open spec fn graph_cut(g: &Graph, m: Map<i64, usize>) -> Seq<(i64, i64)> {
    cut_list(g, m, g.node_count())
}

/// What a row of crossing edges holds.
proof fn lemma_cut_row(m: Map<i64, usize>, u: i64, targets: Seq<i64>, p: (i64, i64))
    ensures
        cut_row(m, u, targets).contains(p) <==> p.0 == u && targets.contains(p.1) && crosses(m, u, p.1),
    decreases targets.len(),
{
    if targets.len() > 0 {
        let init = targets.drop_last();
        let last = targets.last();
        lemma_cut_row(m, u, init, p);
        let tail = if crosses(m, u, last) {
            seq![(u, last)]
        } else {
            Seq::<(i64, i64)>::empty()
        };
        let r = cut_row(m, u, targets);
        assert(r == cut_row(m, u, init) + tail);
        if r.contains(p) {
            let i = choose|i: int| 0 <= i < r.len() && r[i] == p;
            if i < cut_row(m, u, init).len() {
                assert(cut_row(m, u, init)[i] == p);
                let j = choose|j: int| 0 <= j < init.len() && init[j] == p.1;
                assert(targets[j] == p.1);
            } else {
                assert(tail[i - cut_row(m, u, init).len()] == p);
                assert(targets[targets.len() - 1] == p.1);
            }
        }
        if p.0 == u && targets.contains(p.1) && crosses(m, u, p.1) {
            let j = choose|j: int| 0 <= j < targets.len() && targets[j] == p.1;
            if j < targets.len() - 1 {
                assert(init[j] == p.1);
                let i = choose|i: int| 0 <= i < cut_row(m, u, init).len() && cut_row(m, u, init)[i] == p;
                assert(r[i] == p);
            } else {
                assert(r[r.len() - 1] == p);
            }
        }
    }
}

/// What the crossing edges of the first `n` nodes are.
proof fn lemma_cut_list(g: &Graph, m: Map<i64, usize>, n: nat, p: (i64, i64))
    requires
        n < i64::MAX,
    ensures
        cut_list(g, m, n).contains(p) <==> 1 <= p.0 <= n && g.has_edge(p.0, p.1) && crosses(m, p.0, p.1),
    decreases n,
{
    if n > 0 {
        let prev = cut_list(g, m, (n - 1) as nat);
        let row = cut_row(m, n as i64, g.succs(n as i64));
        lemma_cut_list(g, m, (n - 1) as nat, p);
        lemma_cut_row(m, n as i64, g.succs(n as i64), p);
        let r = cut_list(g, m, n);
        assert(r == prev + row);
        if r.contains(p) {
            let i = choose|i: int| 0 <= i < r.len() && r[i] == p;
            if i < prev.len() {
                assert(prev[i] == p);
            } else {
                assert(row[i - prev.len()] == p);
            }
        }
        if 1 <= p.0 <= n && g.has_edge(p.0, p.1) && crosses(m, p.0, p.1) {
            if p.0 < n {
                let i = choose|i: int| 0 <= i < prev.len() && prev[i] == p;
                assert(r[i] == p);
            } else {
                let i = choose|i: int| 0 <= i < row.len() && row[i] == p;
                assert(r[prev.len() + i] == p);
            }
        }
    }
}

/// The cut of a graph holds exactly its edges that cross between parts.
pub proof fn lemma_graph_cut(g: &Graph, m: Map<i64, usize>)
    requires
        g.wf(),
    ensures
        forall|p: (i64, i64)| #[trigger]
            graph_cut(g, m).contains(p) <==> g.has_edge(p.0, p.1) && crosses(m, p.0, p.1),
{
    g.lemma_wf();
    assert forall|p: (i64, i64)| #[trigger]
        graph_cut(g, m).contains(p) <==> g.has_edge(p.0, p.1) && crosses(m, p.0, p.1) by {
        lemma_cut_list(g, m, g.node_count(), p);
    }
}

/// The part of `u` under `mapping`, if it has one.
fn part_of(mapping: &HashMap<i64, usize>, u: i64) -> (r: Option<usize>)
    ensures
        r == (if mapping@.contains_key(u) {
            Some(mapping@[u])
        } else {
            None
        }),
{
    match mapping.get(&u) {
        Some(p) => Some(*p),
        None => None,
    }
}

/// The edges of the graph whose endpoints lie in different parts under `mapping`,
/// node by node in the order of the ids and, for each node, in the order of the edges'
/// insertion.
fn compute_cut_edges(graph: &Graph, mapping: &HashMap<i64, usize>) -> (cut: Vec<(i64, i64)>)
    requires
        graph.wf(),
    ensures
        cut@ == graph_cut(graph, mapping@),
        forall|p: (i64, i64)| #[trigger]
            cut@.contains(p) <==> graph.has_edge(p.0, p.1) && crosses(mapping@, p.0, p.1),
{
    let m = Ghost(mapping@);
    let n = graph.entity_count();
    proof {
        graph.lemma_wf();
    }
    let mut cut: Vec<(i64, i64)> = Vec::new();
    let mut u: usize = 0;
    while u < n
        invariant
            graph.wf(),
            n == graph.node_count(),
            n < i64::MAX,
            u <= n,
            m@ == mapping@,
            cut@ == cut_list(graph, m@, u as nat),
        decreases n - u,
    {
        let from = (u + 1) as i64;
        let targets = graph.fetch_outgoing(from).unwrap();
        let ghost before = cut@;
        let from_part = part_of(mapping, from);
        let mut j: usize = 0;
        while j < targets.len()
            invariant
                targets@ == graph.succs(from),
                j <= targets@.len(),
                m@ == mapping@,
                from_part == (if m@.contains_key(from) {
                    Some(m@[from])
                } else {
                    None
                }),
                cut@ == before + cut_row(m@, from, targets@.subrange(0, j as int)),
            decreases targets.len() - j,
        {
            let to = targets[j];
            let to_part = part_of(mapping, to);
            proof {
                let s = targets@.subrange(0, j + 1);
                assert(s.drop_last() =~= targets@.subrange(0, j as int));
                assert(s.last() == to);
            }
            match (from_part, to_part) {
                (Some(a), Some(b)) => {
                    if a != b {
                        cut.push((from, to));
                        proof {
                            assert(cut@ =~= before + cut_row(m@, from, targets@.subrange(0, j + 1)));
                        }
                    } else {
                        proof {
                            assert(cut@ =~= before + cut_row(m@, from, targets@.subrange(0, j + 1)));
                        }
                    }
                },
                _ => {
                    proof {
                        assert(cut@ =~= before + cut_row(m@, from, targets@.subrange(0, j + 1)));
                    }
                },
            }
            j = j + 1;
        }
        proof {
            assert(targets@.subrange(0, targets@.len() as int) =~= targets@);
            assert(((u + 1) as nat - 1) as nat == u as nat);
        }
        u = u + 1;
    }
    proof {
        lemma_graph_cut(graph, m@);
    }
    cut
}


/// The seeds that the breadth-first partition grows from: the given seeds, or the ids
/// `1..=min(k, n)` when none is given; at most the first `k` of them.
pub open spec fn bfs_seeds(n: nat, seeds: Seq<i64>, k: nat) -> Seq<i64> {
    let s = if seeds.len() == 0 {
        node_ids(if k < n {
            k
        } else {
            n
        })
    } else {
        seeds
    };
    if s.len() > k {
        s.take(k as int)
    } else {
        s
    }
}

/// Seed `i` of `eff` is a node of the graph and reaches `v` over at most `d` edges.
pub open spec fn seed_reaches(g: &Graph, eff: Seq<i64>, i: int, v: i64, d: nat) -> bool {
    0 <= i < eff.len() && g.is_node(eff[i]) && within(g, eff[i], v, d)
}

/// Some seed reaches `v` over at most `d` edges.
pub open spec fn near_within(g: &Graph, eff: Seq<i64>, v: i64, d: nat) -> bool {
    exists|i: int| #[trigger] seed_reaches(g, eff, i, v, d)
}

/// The nearest seed reaches `v` over exactly `d` edges.
pub open spec fn seed_dist(g: &Graph, eff: Seq<i64>, v: i64, d: nat) -> bool {
    near_within(g, eff, v, d) && (d == 0 || !near_within(g, eff, v, (d - 1) as nat))
}

/// Seed `i` comes before seed `j`: it has the smaller id, or the same id and the
/// smaller index.
pub open spec fn ranks_before(eff: Seq<i64>, i: int, j: int) -> bool {
    eff[i] < eff[j] || (eff[i] == eff[j] && i < j)
}

/// Seed `i` reaches `v` over at most `d` edges and comes before every other seed that does.
pub open spec fn first_seed(g: &Graph, eff: Seq<i64>, v: i64, d: nat, i: int) -> bool {
    &&& seed_reaches(g, eff, i, v, d)
    &&& forall|j: int| #[trigger] seed_reaches(g, eff, j, v, d) && j != i ==> ranks_before(eff, i, j)
}

/// `v` is one of the seeds (and a node).
pub open spec fn is_seed(g: &Graph, eff: Seq<i64>, v: i64) -> bool {
    g.is_node(v) && eff.contains(v)
}

/// `i` is the last index at which `v` stands in `eff`.
pub open spec fn last_index(eff: Seq<i64>, v: i64, i: int) -> bool {
    0 <= i < eff.len() && eff[i] == v && forall|j: int| i < j < eff.len() ==> eff[j] != v
}

/// The part of `v` under the breadth-first partition: a seed goes to the last index at
/// which it stands; any other node that a seed reaches goes to the seed nearest to it,
/// the one with the smallest id (then the smallest index) among equally near ones.
pub open spec fn bfs_part(g: &Graph, eff: Seq<i64>, v: i64, i: int) -> bool {
    if is_seed(g, eff, v) {
        last_index(eff, v, i)
    } else {
        exists|d: nat| seed_dist(g, eff, v, d) && first_seed(g, eff, v, d, i)
    }
}

/// Part `j` holds `v` under the breadth-first partition: a seed is in the part of each
/// index at which it stands, and any other node in its part.
pub open spec fn bfs_member(g: &Graph, eff: Seq<i64>, m: Map<i64, usize>, j: int, v: i64) -> bool {
    if is_seed(g, eff, v) {
        0 <= j < eff.len() && eff[j] == v
    } else {
        m.contains_key(v) && m[v] == j
    }
}

/// Each node lies in the part that the mapping gives it, and in no other.
pub open spec fn consistent(parts: Seq<Set<i64>>, m: Map<i64, usize>) -> bool {
    forall|j: int, v: i64|
        0 <= j < parts.len() ==> (#[trigger] parts[j].contains(v) <==> m.contains_key(v) && m[v] == j)
}

/// A node at distance `d > 0` from the nearest seed has a predecessor at distance `d - 1`.
proof fn lemma_pred_at(g: &Graph, eff: Seq<i64>, v: i64, d: nat, j: int) -> (y: i64)
    requires
        seed_dist(g, eff, v, d),
        d > 0,
        seed_reaches(g, eff, j, v, d),
    ensures
        g.has_edge(y, v),
        seed_reaches(g, eff, j, y, (d - 1) as nat),
        seed_dist(g, eff, y, (d - 1) as nat),
{
    if v == eff[j] {
        assert(seed_reaches(g, eff, j, v, 0));
        lemma_within_mono(g, eff[j], v, 0, (d - 1) as nat);
        assert(seed_reaches(g, eff, j, v, (d - 1) as nat));
    }
    let y = choose|y: i64| #[trigger] g.has_edge(y, v) && within(g, eff[j], y, (d - 1) as nat);
    assert(seed_reaches(g, eff, j, y, (d - 1) as nat));
    if d >= 2 && near_within(g, eff, y, (d - 2) as nat) {
        let i = choose|i: int| #[trigger] seed_reaches(g, eff, i, y, (d - 2) as nat);
        lemma_within_step(g, eff[i], y, v, (d - 2) as nat);
        assert(seed_reaches(g, eff, i, v, (d - 1) as nat));
    }
    y
}

/// A node at distance `d` from the nearest seed has, for each `l <= d`, a node at
/// distance exactly `l` behind it.
proof fn lemma_no_gap(g: &Graph, eff: Seq<i64>, v: i64, d: nat, l: nat)
    requires
        seed_dist(g, eff, v, d),
        d >= l,
    ensures
        exists|w: i64| #[trigger] seed_dist(g, eff, w, l),
    decreases d - l,
{
    if d > l {
        let j = choose|j: int| #[trigger] seed_reaches(g, eff, j, v, d);
        let y = lemma_pred_at(g, eff, v, d, j);
        lemma_no_gap(g, eff, y, (d - 1) as nat, l);
    } else {
        assert(seed_dist(g, eff, v, l));
    }
}

/// Near distances are unique.
proof fn lemma_seed_dist_unique(g: &Graph, eff: Seq<i64>, v: i64, a: nat, b: nat)
    requires
        seed_dist(g, eff, v, a),
        seed_dist(g, eff, v, b),
    ensures
        a == b,
{
    if a < b {
        let i = choose|i: int| #[trigger] seed_reaches(g, eff, i, v, a);
        lemma_within_mono(g, eff[i], v, a, (b - 1) as nat);
        assert(seed_reaches(g, eff, i, v, (b - 1) as nat));
    } else if b < a {
        let i = choose|i: int| #[trigger] seed_reaches(g, eff, i, v, b);
        lemma_within_mono(g, eff[i], v, b, (a - 1) as nat);
        assert(seed_reaches(g, eff, i, v, (a - 1) as nat));
    }
}

/// A node that some seed reaches has a near distance.
proof fn lemma_has_seed_dist(g: &Graph, eff: Seq<i64>, v: i64, d: nat) -> (e: nat)
    requires
        near_within(g, eff, v, d),
    ensures
        e <= d,
        seed_dist(g, eff, v, e),
    decreases d,
{
    if d > 0 && near_within(g, eff, v, (d - 1) as nat) {
        lemma_has_seed_dist(g, eff, v, (d - 1) as nat)
    } else {
        d
    }
}

/// A node that some seed reaches is a node of the graph.
proof fn lemma_near_is_node(g: &Graph, eff: Seq<i64>, v: i64, d: nat)
    requires
        g.wf(),
        near_within(g, eff, v, d),
    ensures
        g.is_node(v),
{
    let i = choose|i: int| #[trigger] seed_reaches(g, eff, i, v, d);
    if v != eff[i] {
        lemma_within_is_node(g, eff[i], v, d);
    }
}

/// A set of nodes is finite and holds at most as many ids as the graph has nodes.
proof fn lemma_node_set_len(g: &Graph, s: Set<i64>)
    requires
        g.wf(),
        forall|v: i64| #[trigger] s.contains(v) ==> g.is_node(v),
    ensures
        s.finite(),
        s.len() <= g.node_count(),
{
    let ids = node_ids(g.node_count());
    g.lemma_wf();
    assert forall|i: int, j: int| 0 <= i < j < ids.len() implies ids[i] != ids[j] by {}
    assert(ids.no_duplicates());
    ids.unique_seq_to_set();
    assert forall|v: i64| #[trigger] s.contains(v) implies ids.to_set().contains(v) by {
        assert(ids[v - 1] == v);
    }
    assert(s.subset_of(ids.to_set()));
    lemma_len_subset(s, ids.to_set());
}

/// The label slot of node `v`.
spec fn lab_at(lab: Seq<Option<usize>>, v: i64) -> Option<usize> {
    lab[v - 1]
}

/// The level slot of node `v`.
spec fn lvl_at(lvl: Seq<usize>, v: i64) -> usize {
    lvl[v - 1]
}

/// After the levels up to `l`, exactly the nodes that a seed reaches within `l` edges
/// are labelled, each with its near distance and its first nearest seed.
spec fn labels_ok(g: &Graph, eff: Seq<i64>, lab: Seq<Option<usize>>, lvl: Seq<usize>, l: nat) -> bool {
    &&& lab.len() == g.node_count()
    &&& lvl.len() == g.node_count()
    &&& forall|v: i64| g.is_node(v) ==> (#[trigger] lab_at(lab, v) is Some <==> near_within(g, eff, v, l))
    &&& forall|v: i64|
        g.is_node(v) && #[trigger] lab_at(lab, v) is Some ==> lvl_at(lvl, v) <= l && seed_dist(
            g,
            eff,
            v,
            lvl_at(lvl, v) as nat,
        ) && first_seed(g, eff, v, lvl_at(lvl, v) as nat, lab_at(lab, v)->0 as int)
}

/// The frontier lists, once each, the labelled nodes of level `l`.
spec fn frontier_ok(g: &Graph, lab: Seq<Option<usize>>, lvl: Seq<usize>, fr: Seq<i64>, l: nat) -> bool {
    &&& fr.no_duplicates()
    &&& forall|v: i64| #[trigger]
        fr.contains(v) <==> g.is_node(v) && lab_at(lab, v) is Some && lvl_at(lvl, v) == l
}

/// An edge into `v` from a frontier node before index `a`, or from the node at `a`
/// through the targets in `row`.
spec fn fed(g: &Graph, fr: Seq<i64>, a: int, row: Seq<i64>, x: i64, v: i64) -> bool {
    (fr.take(a).contains(x) && g.has_edge(x, v)) || (0 <= a < fr.len() && x == fr[a] && row.contains(v))
}

/// What one level adds: a node first reached over an edge from the frontier has the
/// next distance, and the best label among those edges is its first nearest seed.
proof fn lemma_level_step(
    g: &Graph,
    eff: Seq<i64>,
    lab0: Seq<Option<usize>>,
    lvl0: Seq<usize>,
    fr: Seq<i64>,
    l: nat,
    lab: Seq<Option<usize>>,
    lvl: Seq<usize>,
)
    requires
        g.wf(),
        labels_ok(g, eff, lab0, lvl0, l),
        frontier_ok(g, lab0, lvl0, fr, l),
        lab.len() == g.node_count(),
        lvl.len() == g.node_count(),
        forall|v: i64|
            g.is_node(v) && #[trigger] lab_at(lab0, v) is Some ==> lab_at(lab, v) == lab_at(lab0, v)
                && lvl_at(lvl, v) == lvl_at(lvl0, v),
        forall|v: i64|
            g.is_node(v) && lab_at(lab0, v) is None ==> (#[trigger] lab_at(lab, v) is Some <==> exists|x: i64|
                #[trigger] fr.contains(x) && g.has_edge(x, v)),
        forall|v: i64|
            g.is_node(v) && lab_at(lab0, v) is None && #[trigger] lab_at(lab, v) is Some ==> {
                &&& lvl_at(lvl, v) == l + 1
                &&& exists|x: i64| #[trigger]
                    fr.contains(x) && g.has_edge(x, v) && lab_at(lab0, x) == lab_at(lab, v)
                &&& forall|x: i64| #[trigger]
                    fr.contains(x) && g.has_edge(x, v) ==> !ranks_before(
                        eff,
                        lab_at(lab0, x)->0 as int,
                        lab_at(lab, v)->0 as int,
                    )
            },
    ensures
        labels_ok(g, eff, lab, lvl, l + 1),
        forall|v: i64|
            g.is_node(v) && #[trigger] lab_at(lab, v) is Some && lvl_at(lvl, v) == l + 1 <==> seed_dist(
                g,
                eff,
                v,
                l + 1,
            ),
{
    g.lemma_wf();
    assert forall|v: i64| g.is_node(v) implies (#[trigger] lab_at(lab, v) is Some <==> near_within(
        g,
        eff,
        v,
        l + 1,
    )) by {
        if lab_at(lab0, v) is Some {
            let i = choose|i: int| #[trigger] seed_reaches(g, eff, i, v, l);
            lemma_within_mono(g, eff[i], v, l, l + 1);
            assert(seed_reaches(g, eff, i, v, l + 1));
        } else if lab_at(lab, v) is Some {
            let x = choose|x: i64| #[trigger] fr.contains(x) && g.has_edge(x, v);
            let i = choose|i: int| #[trigger] seed_reaches(g, eff, i, x, l);
            lemma_within_mono(g, eff[i], x, l, l);
            lemma_within_step(g, eff[i], x, v, l);
            assert(seed_reaches(g, eff, i, v, l + 1));
        } else if near_within(g, eff, v, l + 1) {
            let j = choose|j: int| #[trigger] seed_reaches(g, eff, j, v, l + 1);
            assert(!near_within(g, eff, v, l));
            assert(seed_dist(g, eff, v, l + 1));
            let y = lemma_pred_at(g, eff, v, l + 1, j);
            lemma_near_is_node(g, eff, y, l);
            assert(lab_at(lab0, y) is Some);
            lemma_seed_dist_unique(g, eff, y, lvl_at(lvl0, y) as nat, l);
            assert(fr.contains(y));
        }
    }
    assert forall|v: i64|
        g.is_node(v) && #[trigger] lab_at(lab, v) is Some implies lvl_at(lvl, v) <= l + 1 && seed_dist(
            g,
            eff,
            v,
            lvl_at(lvl, v) as nat,
        ) && first_seed(g, eff, v, lvl_at(lvl, v) as nat, lab_at(lab, v)->0 as int) by {
        if lab_at(lab0, v) is None {
            let i = lab_at(lab, v)->0 as int;
            let x = choose|x: i64| #[trigger] fr.contains(x) && g.has_edge(x, v) && lab_at(lab0, x) == lab_at(lab, v);
            assert(first_seed(g, eff, x, l, i));
            lemma_within_step(g, eff[i], x, v, l);
            assert(seed_reaches(g, eff, i, v, l + 1));
            assert(seed_dist(g, eff, v, l + 1));
            assert forall|j: int| #[trigger] seed_reaches(g, eff, j, v, l + 1) && j != i implies ranks_before(
                eff,
                i,
                j,
            ) by {
                let y = lemma_pred_at(g, eff, v, l + 1, j);
                lemma_near_is_node(g, eff, y, l);
                assert(lab_at(lab0, y) is Some);
                lemma_seed_dist_unique(g, eff, y, lvl_at(lvl0, y) as nat, l);
                assert(fr.contains(y));
                let ly = lab_at(lab0, y)->0 as int;
                assert(first_seed(g, eff, y, l, ly));
                assert(!ranks_before(eff, ly, i));
            }
        }
    }
    assert forall|v: i64|
        g.is_node(v) && #[trigger] lab_at(lab, v) is Some && lvl_at(lvl, v) == l + 1 <==> seed_dist(
            g,
            eff,
            v,
            l + 1,
        ) by {
        if seed_dist(g, eff, v, l + 1) {
            lemma_near_is_node(g, eff, v, l + 1);
            if lab_at(lab0, v) is Some {
                assert(near_within(g, eff, v, l));
            }
        }
        if g.is_node(v) && lab_at(lab, v) is Some && lvl_at(lvl, v) == l + 1 {
            if lab_at(lab0, v) is Some {
                assert(lvl_at(lvl0, v) <= l);
            }
        }
    }
}

/// Reaching within fewer edges is reaching within more, from the nearest seed too.
proof fn lemma_near_mono(g: &Graph, eff: Seq<i64>, v: i64, a: nat, b: nat)
    requires
        near_within(g, eff, v, a),
        a <= b,
    ensures
        near_within(g, eff, v, b),
{
    let i = choose|i: int| #[trigger] seed_reaches(g, eff, i, v, a);
    lemma_within_mono(g, eff[i], v, a, b);
    assert(seed_reaches(g, eff, i, v, b));
}

/// A seed is reached by itself over no edge.
proof fn lemma_seed_near(g: &Graph, eff: Seq<i64>, v: i64)
    requires
        is_seed(g, eff, v),
    ensures
        near_within(g, eff, v, 0),
{
    let i = choose|i: int| 0 <= i < eff.len() && eff[i] == v;
    assert(seed_reaches(g, eff, i, v, 0));
}

/// The result of a partition: the parts, the edges between parts, and the part of each
/// node.
#[derive(Debug)]
pub struct PartitionResult {
    /// The parts, each a set of node ids.
    pub partitions: Vec<ahash::AHashSet<i64>>,
    /// The edges whose endpoints lie in different parts.
    pub cut_edges: Vec<(i64, i64)>,
    /// The index of the part of each node.
    pub node_to_partition: HashMap<i64, usize>,
}

/// The node ids that each part holds.
pub open spec fn part_sets(res: PartitionResult) -> Seq<Set<i64>> {
    set_views(res.partitions@)
}

/// The node ids that each set holds.
pub open spec fn set_views(parts: Seq<ahash::AHashSet<i64>>) -> Seq<Set<i64>> {
    parts.map_values(|s: ahash::AHashSet<i64>| id_set_view(s))
}

/// The mapping and parts of a breadth-first partition during its growth: the labelled
/// nodes are placed, and no other node is.
spec fn parts_ok(
    g: &Graph,
    eff: Seq<i64>,
    parts: Seq<ahash::AHashSet<i64>>,
    m: Map<i64, usize>,
    lab: Seq<Option<usize>>,
) -> bool {
    &&& forall|v: i64| #[trigger] m.contains_key(v) <==> g.is_node(v) && lab_at(lab, v) is Some
    &&& forall|v: i64| #[trigger]
        m.contains_key(v) ==> if is_seed(g, eff, v) {
            last_index(eff, v, m[v] as int)
        } else {
            m[v] == lab_at(lab, v)->0
        }
    &&& forall|j: int, v: i64|
        0 <= j < parts.len() ==> (#[trigger] id_set_view(parts[j]).contains(v) <==> bfs_member(
            g,
            eff,
            m,
            j,
            v,
        ))
}

/// The mapping of a breadth-first partition from the seeds `eff`: exactly the nodes
/// that a seed reaches have a part, the one that `bfs_part` names.
pub open spec fn bfs_map_ok(g: &Graph, eff: Seq<i64>, m: Map<i64, usize>) -> bool {
    &&& forall|v: i64| #[trigger] m.contains_key(v) <==> exists|d: nat| near_within(g, eff, v, d)
    &&& forall|v: i64| #[trigger] m.contains_key(v) ==> bfs_part(g, eff, v, m[v] as int)
}

/// What the breadth-first partition gives: with `k < 2` one empty part; otherwise `k`
/// parts, where every node that a seed reaches has a part (see `bfs_part`), the parts
/// hold the nodes as `bfs_member` says, and the cut is the graph's cut under the mapping.
pub open spec fn bfs_result(g: &Graph, seeds: Seq<i64>, k: nat, res: PartitionResult) -> bool {
    let m = res.node_to_partition@;
    if k < 2 {
        &&& res.partitions@.len() == 1
        &&& id_set_view(res.partitions@[0]) == Set::<i64>::empty()
        &&& res.cut_edges@.len() == 0
        &&& m.dom() == Set::<i64>::empty()
    } else {
        let eff = bfs_seeds(g.node_count(), seeds, k);
        &&& res.partitions@.len() == k
        &&& bfs_map_ok(g, eff, m)
        &&& forall|j: int, v: i64|
            0 <= j < k ==> (#[trigger] id_set_view(res.partitions@[j]).contains(v) <==> bfs_member(
                g,
                eff,
                m,
                j,
                v,
            ))
        &&& res.cut_edges@ == graph_cut(g, m)
    }
}

/// The seeds to grow from: `seeds`, or the first `min(k, n)` ids when it is empty; at
/// most `k` of them.
fn effective_bfs_seeds(n: usize, seeds: Vec<i64>, k: usize) -> (eff: Vec<i64>)
    requires
        n < i64::MAX,
    ensures
        eff@ == bfs_seeds(n as nat, seeds@, k as nat),
        eff@.len() <= k,
{
    let mut s = seeds;
    if s.len() == 0 {
        let m = if k < n {
            k
        } else {
            n
        };
        let mut i: usize = 0;
        while i < m
            invariant
                m <= n,
                n < i64::MAX,
                i <= m,
                s@ == node_ids(i as nat),
            decreases m - i,
        {
            s.push((i + 1) as i64);
            i = i + 1;
            proof {
                assert(s@ =~= node_ids(i as nat));
            }
        }
    }
    let ghost before = s@;
    s.truncate(k);
    proof {
        if before.len() > k {
            assert(s@ =~= before.take(k as int));
        }
    }
    s
}

/// `k` empty parts.
fn empty_parts(k: usize) -> (parts: Vec<ahash::AHashSet<i64>>)
    ensures
        parts@.len() == k,
        forall|j: int| 0 <= j < k ==> #[trigger] id_set_view(parts@[j]) == Set::<i64>::empty(),
{
    let mut parts: Vec<ahash::AHashSet<i64>> = Vec::new();
    let mut t: usize = 0;
    while t < k
        invariant
            t <= k,
            parts@.len() == t,
            forall|j: int| 0 <= j < t ==> #[trigger] id_set_view(parts@[j]) == Set::<i64>::empty(),
        decreases k - t,
    {
        parts.push(id_set_new());
        t = t + 1;
    }
    parts
}

/// The labelled nodes.
spec fn labeled(g: &Graph, lab: Seq<Option<usize>>) -> Set<i64> {
    Set::new(|v: i64| g.is_node(v) && lab_at(lab, v) is Some)
}

/// Every label names a seed.
spec fn labels_in_range(g: &Graph, lab: Seq<Option<usize>>, len: nat) -> bool {
    forall|v: i64| g.is_node(v) && #[trigger] lab_at(lab, v) is Some ==> lab_at(lab, v)->0 < len
}

/// As `parts_ok`, with the nodes of `pend` labelled but not placed yet.
spec fn parts_ok_except(
    g: &Graph,
    eff: Seq<i64>,
    parts: Seq<ahash::AHashSet<i64>>,
    m: Map<i64, usize>,
    lab: Seq<Option<usize>>,
    pend: Seq<i64>,
) -> bool {
    &&& forall|v: i64| #[trigger]
        m.contains_key(v) <==> g.is_node(v) && lab_at(lab, v) is Some && !pend.contains(v)
    &&& forall|v: i64| #[trigger]
        m.contains_key(v) ==> if is_seed(g, eff, v) {
            last_index(eff, v, m[v] as int)
        } else {
            m[v] == lab_at(lab, v)->0
        }
    &&& forall|j: int, v: i64|
        0 <= j < parts.len() ==> (#[trigger] id_set_view(parts[j]).contains(v) <==> bfs_member(
            g,
            eff,
            m,
            j,
            v,
        ))
}

/// Adds `v` to part `i`.
fn add_to_part(parts: &mut Vec<ahash::AHashSet<i64>>, i: usize, v: i64)
    requires
        i < old(parts)@.len(),
    ensures
        final(parts)@.len() == old(parts)@.len(),
        forall|j: int|
            0 <= j < old(parts)@.len() && j != i ==> #[trigger] final(parts)@[j] == old(parts)@[j],
        id_set_view(final(parts)@[i as int]) == id_set_view(old(parts)@[i as int]).insert(v),
{
    let mut s = id_set_new();
    parts.set_and_swap(i, &mut s);
    id_set_insert(&mut s, v);
    parts.set_and_swap(i, &mut s);
}

/// Places each seed that is a node in the part of its index, labels it with the first
/// index at which it stands, and makes the seeds the frontier of level 0.
fn bfs_init(
    graph: &Graph,
    eff: &Vec<i64>,
    parts: &mut Vec<ahash::AHashSet<i64>>,
    mapping: &mut HashMap<i64, usize>,
) -> (r: (Vec<Option<usize>>, Vec<usize>, Vec<i64>, usize))
    requires
        graph.wf(),
        eff@.len() <= old(parts)@.len(),
        forall|j: int|
            0 <= j < old(parts)@.len() ==> #[trigger] id_set_view(old(parts)@[j]) == Set::<i64>::empty(),
        old(mapping)@.dom() == Set::<i64>::empty(),
    ensures
        final(parts)@.len() == old(parts)@.len(),
        labels_ok(graph, eff@, r.0@, r.1@, 0),
        frontier_ok(graph, r.0@, r.1@, r.2@, 0),
        parts_ok(graph, eff@, final(parts)@, final(mapping)@, r.0@),
        labeled(graph, r.0@).len() == r.3,
        labels_in_range(graph, r.0@, eff@.len()),
{
    let n = graph.entity_count();
    proof {
        graph.lemma_wf();
    }
    let mut lab: Vec<Option<usize>> = Vec::new();
    let mut lvl: Vec<usize> = Vec::new();
    let mut t: usize = 0;
    while t < n
        invariant
            n == graph.node_count(),
            t <= n,
            lab@.len() == t,
            lvl@.len() == t,
            forall|x: int| 0 <= x < t ==> #[trigger] lab@[x] is None,
            forall|x: int| 0 <= x < t ==> #[trigger] lvl@[x] == 0,
        decreases n - t,
    {
        let ghost l0 = lab@;
        let ghost v0 = lvl@;
        lab.push(None);
        lvl.push(0);
        proof {
            assert(lab@ == l0.push(None));
            assert(lvl@ == v0.push(0usize));

        }
        t = t + 1;
    }
    let mut frontier: Vec<i64> = Vec::new();
    let mut assigned: usize = 0;
    let ghost e = eff@;
    let mut i: usize = 0;
    proof {
        assert forall|v: i64| !#[trigger] labeled(graph, lab@).contains(v) by {
            if graph.is_node(v) {
                assert(lab@[v - 1] is None);
            }
        }
        assert(labeled(graph, lab@) =~= Set::<i64>::empty());
        assert forall|v: i64| graph.is_node(v) implies (#[trigger] lab_at(lab@, v) is Some <==> e.take(0).contains(v)) by {
            assert(lab@[v - 1] is None);
        }
    }
    while i < eff.len()
        invariant
            graph.wf(),
            n == graph.node_count(),
            n < i64::MAX,
            e == eff@,
            i <= e.len(),
            e.len() <= parts@.len(),
            lab@.len() == n,
            lvl@.len() == n,
            forall|x: int| 0 <= x < n ==> lvl@[x] == 0,
            forall|v: i64| graph.is_node(v) ==> (#[trigger] lab_at(lab@, v) is Some <==> e.take(i as int).contains(v)),
            forall|v: i64|
                graph.is_node(v) && #[trigger] lab_at(lab@, v) is Some ==> {
                    let x = lab_at(lab@, v)->0 as int;
                    x < i && e[x] == v && forall|y: int| 0 <= y < x ==> e[y] != v
                },
            forall|v: i64| #[trigger]
                mapping@.contains_key(v) <==> graph.is_node(v) && e.take(i as int).contains(v),
            forall|v: i64| #[trigger]
                mapping@.contains_key(v) ==> mapping@[v] < i && e[mapping@[v] as int] == v && forall|y: int|
                    mapping@[v] < y < i ==> e[y] != v,
            parts@.len() == old(parts)@.len(),
            forall|j: int, v: i64|
                0 <= j < parts@.len() ==> (#[trigger] id_set_view(parts@[j]).contains(v) <==> j < i && e[j]
                    == v && graph.is_node(v)),
            frontier@.no_duplicates(),
            forall|v: i64| #[trigger]
                frontier@.contains(v) <==> graph.is_node(v) && e.take(i as int).contains(v),
            labeled(graph, lab@).finite(),
            labeled(graph, lab@).len() == assigned,
        decreases e.len() - i,
    {
        let s = eff[i];
        proof {
            let t1 = e.take(i + 1);
            let t0 = e.take(i as int);
            assert(t1 =~= t0.push(s));
            assert forall|v: i64| #[trigger] t1.contains(v) <==> t0.contains(v) || v == s by {
                if t1.contains(v) {
                    let y = choose|y: int| 0 <= y < t1.len() && t1[y] == v;
                    if y < i {
                        assert(t0[y] == v);
                    }
                }
                if t0.contains(v) {
                    let y = choose|y: int| 0 <= y < t0.len() && t0[y] == v;
                    assert(t1[y] == v);
                }
                if v == s {
                    assert(t1[i as int] == v);
                }
            }
        }
        if 1 <= s && s <= n as i64 {
            let ghost p0 = parts@;
            add_to_part(parts, i, s);
            proof {
                assert forall|j: int, v: i64|
                    0 <= j < parts@.len() implies (#[trigger] id_set_view(parts@[j]).contains(v) <==> j < i + 1
                        && e[j] == v && graph.is_node(v)) by {
                    if j != i {
                        assert(parts@[j] == p0[j]);
                    }
                }
            }
            mapping.insert(s, i);
            let slot = (s - 1) as usize;
            match lab[slot] {
                Some(_) => {
                    proof {
                        assert(lab_at(lab@, s) is Some);
                    }
                },
                None => {
                    let ghost l0 = lab@;
                    proof {
                        assert(lab_at(l0, s) is None);
                        assert(!e.take(i as int).contains(s));
                        assert(!frontier@.contains(s));
                        lemma_node_set_len(graph, labeled(graph, l0).insert(s));
                        assert forall|v: i64| #[trigger] labeled(graph, l0).insert(s).contains(v) implies graph.is_node(v) by {}
                    }
                    lab.set(slot, Some(i));
                    proof {
                        assert forall|v: i64| graph.is_node(v) implies #[trigger] lab_at(lab@, v) == if v == s {
                            Some(i)
                        } else {
                            lab_at(l0, v)
                        } by {}
                        assert(labeled(graph, lab@) =~= labeled(graph, l0).insert(s));
                        lemma_node_set_len(graph, labeled(graph, lab@));
                        assert forall|y: int| 0 <= y < i implies e[y] != s by {
                            if e[y] == s {
                                assert(e.take(i as int)[y] == s);
                            }
                        }
                    }
                    let ghost f0 = frontier@;
                    frontier.push(s);
                    assigned = assigned + 1;
                    proof {
                        assert(frontier@ == f0.push(s));
                        assert(!f0.contains(s));
                        assert forall|a: int, b: int| 0 <= a < b < frontier@.len() implies frontier@[a]
                            != frontier@[b] by {
                            if b == frontier@.len() - 1 {
                                assert(f0.contains(f0[a]));
                            }
                        }
                        assert forall|v: i64| #[trigger] frontier@.contains(v) <==> f0.contains(v) || v == s by {
                            if frontier@.contains(v) {
                                let a = choose|a: int| 0 <= a < frontier@.len() && frontier@[a] == v;
                                if a < f0.len() {
                                    assert(f0[a] == v);
                                }
                            }
                            if f0.contains(v) {
                                let a = choose|a: int| 0 <= a < f0.len() && f0[a] == v;
                                assert(frontier@[a] == v);
                            }
                            if v == s {
                                assert(frontier@[f0.len() as int] == v);
                            }
                        }
                    }
                },
            }
        }
        i = i + 1;
    }
    proof {
        assert(e.take(e.len() as int) =~= e);
        assert forall|v: i64| graph.is_node(v) implies (#[trigger] lab_at(lab@, v) is Some <==> near_within(
            graph,
            e,
            v,
            0,
        )) by {
            if near_within(graph, e, v, 0) {
                let x = choose|x: int| #[trigger] seed_reaches(graph, e, x, v, 0);
                assert(e[x] == v);
            }
            if lab_at(lab@, v) is Some {
                let x = lab_at(lab@, v)->0 as int;
                assert(seed_reaches(graph, e, x, v, 0));
            }
        }
        assert forall|v: i64|
            graph.is_node(v) && #[trigger] lab_at(lab@, v) is Some implies lvl_at(lvl@, v) <= 0 && seed_dist(
                graph,
                e,
                v,
                lvl_at(lvl@, v) as nat,
            ) && first_seed(graph, e, v, lvl_at(lvl@, v) as nat, lab_at(lab@, v)->0 as int) by {
            let x = lab_at(lab@, v)->0 as int;
            assert(seed_reaches(graph, e, x, v, 0));
            assert forall|j: int| #[trigger] seed_reaches(graph, e, j, v, 0) && j != x implies ranks_before(
                e,
                x,
                j,
            ) by {
                assert(e[j] == v);
            }
        }
        assert forall|v: i64| #[trigger]
            frontier@.contains(v) <==> graph.is_node(v) && lab_at(lab@, v) is Some && lvl_at(lvl@, v) == 0 by {}
        assert forall|v: i64| #[trigger]
            mapping@.contains_key(v) implies if is_seed(graph, e, v) {
                last_index(e, v, mapping@[v] as int)
            } else {
                mapping@[v] == lab_at(lab@, v)->0
            } by {
            assert(is_seed(graph, e, v));
        }
        assert forall|j: int, v: i64|
            0 <= j < parts@.len() implies (#[trigger] id_set_view(parts@[j]).contains(v) <==> bfs_member(
                graph,
                e,
                mapping@,
                j,
                v,
            )) by {
            if id_set_view(parts@[j]).contains(v) {
                assert(e[j] == v);
                assert(e.contains(v));
            }
        }
    }
    (lab, lvl, frontier, assigned)
}

/// Runs one level of the growth: every unlabelled target of an edge from the frontier
/// is labelled with the best label among the frontier nodes that reach it, and the
/// newly labelled nodes are returned as the next frontier.
fn bfs_expand(
    graph: &Graph,
    eff: &Vec<i64>,
    lab: &mut Vec<Option<usize>>,
    lvl: &mut Vec<usize>,
    frontier: &Vec<i64>,
    level: usize,
    assigned: &mut usize,
) -> (next: Vec<i64>)
    requires
        graph.wf(),
        level < usize::MAX,
        labels_ok(graph, eff@, old(lab)@, old(lvl)@, level as nat),
        frontier_ok(graph, old(lab)@, old(lvl)@, frontier@, level as nat),
        labeled(graph, old(lab)@).len() == *old(assigned),
        labels_in_range(graph, old(lab)@, eff@.len()),
    ensures
        labels_ok(graph, eff@, final(lab)@, final(lvl)@, (level + 1) as nat),
        frontier_ok(graph, final(lab)@, final(lvl)@, next@, (level + 1) as nat),
        labels_in_range(graph, final(lab)@, eff@.len()),
        forall|v: i64|
            graph.is_node(v) && #[trigger] lab_at(old(lab)@, v) is Some ==> lab_at(final(lab)@, v)
                == lab_at(old(lab)@, v),
        forall|v: i64| #[trigger]
            next@.contains(v) <==> graph.is_node(v) && lab_at(old(lab)@, v) is None && lab_at(
                final(lab)@,
                v,
            ) is Some,
        labeled(graph, final(lab)@).len() == *final(assigned),
        *final(assigned) == *old(assigned) + next@.len(),
        *final(assigned) <= graph.node_count(),
{
    let ghost lab0 = lab@;
    let ghost lvl0 = lvl@;
    let ghost fr = frontier@;
    let ghost e = eff@;
    let ghost l = level as nat;
    let ghost a0 = *assigned;
    proof {
        graph.lemma_wf();
        lemma_node_set_len(graph, labeled(graph, lab0));
    }
    let mut next: Vec<i64> = Vec::new();
    let mut a: usize = 0;
    while a < frontier.len()
        invariant
            graph.wf(),
            fr == frontier@,
            e == eff@,
            l == level as nat,
            level < usize::MAX,
            a <= fr.len(),
            labels_ok(graph, e, lab0, lvl0, l),
            frontier_ok(graph, lab0, lvl0, fr, l),
            labels_in_range(graph, lab0, e.len()),
            labels_in_range(graph, lab@, e.len()),
            lab@.len() == graph.node_count(),
            lvl@.len() == graph.node_count(),
            forall|v: i64|
                graph.is_node(v) && #[trigger] lab_at(lab0, v) is Some ==> lab_at(lab@, v) == lab_at(lab0, v)
                    && lvl_at(lvl@, v) == lvl_at(lvl0, v),
            forall|v: i64|
                graph.is_node(v) && lab_at(lab0, v) is None ==> (#[trigger] lab_at(lab@, v) is Some <==> exists|x: i64|
                    #[trigger] fed(graph, fr, a as int, Seq::empty(), x, v)),
            forall|v: i64|
                graph.is_node(v) && lab_at(lab0, v) is None && #[trigger] lab_at(lab@, v) is Some ==> {
                    &&& lvl_at(lvl@, v) == l + 1
                    &&& exists|x: i64| #[trigger]
                        fed(graph, fr, a as int, Seq::empty(), x, v) && lab_at(lab0, x) == lab_at(lab@, v)
                    &&& forall|x: i64| #[trigger]
                        fed(graph, fr, a as int, Seq::empty(), x, v) ==> !ranks_before(
                            e,
                            lab_at(lab0, x)->0 as int,
                            lab_at(lab@, v)->0 as int,
                        )
                },
            next@.no_duplicates(),
            forall|v: i64| #[trigger]
                next@.contains(v) <==> graph.is_node(v) && lab_at(lab0, v) is None && lab_at(lab@, v) is Some,
            labeled(graph, lab@).finite(),
            labeled(graph, lab@).len() == *assigned,
            *assigned == a0 + next@.len(),
        decreases fr.len() - a,
    {
        let u = frontier[a];
        proof {
            graph.lemma_wf();
            assert(fr.contains(u));
            assert(graph.is_node(u));
            assert(lab_at(lab@, u) == lab_at(lab0, u));
            assert(lab@[(u - 1) as usize as int] == lab_at(lab@, u));
        }
        let lu = lab[(u - 1) as usize].unwrap();
        proof {
            assert(lu < e.len());
        }
        let row = graph.fetch_outgoing(u).unwrap();
        let mut j: usize = 0;
        proof {
            assert(row@.take(0) =~= Seq::<i64>::empty());
        }
        while j < row.len()
            invariant
                graph.wf(),
                fr == frontier@,
                e == eff@,
                l == level as nat,
                level < usize::MAX,
                a < fr.len(),
                u == fr[a as int],
                lab_at(lab0, u) == Some(lu),
                lu < e.len(),
                row@ == graph.succs(u),
                j <= row@.len(),
                labels_ok(graph, e, lab0, lvl0, l),
                frontier_ok(graph, lab0, lvl0, fr, l),
                labels_in_range(graph, lab0, e.len()),
                labels_in_range(graph, lab@, e.len()),
                lab@.len() == graph.node_count(),
                lvl@.len() == graph.node_count(),
                forall|v: i64|
                    graph.is_node(v) && #[trigger] lab_at(lab0, v) is Some ==> lab_at(lab@, v) == lab_at(lab0, v)
                        && lvl_at(lvl@, v) == lvl_at(lvl0, v),
                forall|v: i64|
                    graph.is_node(v) && lab_at(lab0, v) is None ==> (#[trigger] lab_at(lab@, v) is Some <==> exists|x: i64|
                        #[trigger] fed(graph, fr, a as int, row@.take(j as int), x, v)),
                forall|v: i64|
                    graph.is_node(v) && lab_at(lab0, v) is None && #[trigger] lab_at(lab@, v) is Some ==> {
                        &&& lvl_at(lvl@, v) == l + 1
                        &&& exists|x: i64| #[trigger]
                            fed(graph, fr, a as int, row@.take(j as int), x, v) && lab_at(lab0, x) == lab_at(lab@, v)
                        &&& forall|x: i64| #[trigger]
                            fed(graph, fr, a as int, row@.take(j as int), x, v) ==> !ranks_before(
                                e,
                                lab_at(lab0, x)->0 as int,
                                lab_at(lab@, v)->0 as int,
                            )
                    },
                next@.no_duplicates(),
                forall|v: i64| #[trigger]
                    next@.contains(v) <==> graph.is_node(v) && lab_at(lab0, v) is None && lab_at(lab@, v) is Some,
                labeled(graph, lab@).finite(),
                labeled(graph, lab@).len() == *assigned,
                *assigned == a0 + next@.len(),
            decreases row.len() - j,
        {
            let v = row[j];
            let ghost r0 = row@.take(j as int);
            let ghost r1 = row@.take(j + 1);
            let ghost labp = lab@;
            let ghost lvlp = lvl@;
            proof {
                graph.lemma_wf();
                assert(graph.succs(u).contains(v));
                assert(graph.is_node(v));
                assert(lab@[(v - 1) as usize as int] == lab_at(lab@, v));
                assert(lvl@[(v - 1) as usize as int] == lvl_at(lvl@, v));
                assert(r1 =~= r0.push(v));
                assert forall|w: i64| #[trigger] r1.contains(w) <==> r0.contains(w) || w == v by {
                    if r1.contains(w) {
                        let y = choose|y: int| 0 <= y < r1.len() && r1[y] == w;
                        if y < r0.len() {
                            assert(r0[y] == w);
                        }
                    }
                    if r0.contains(w) {
                        let y = choose|y: int| 0 <= y < r0.len() && r0[y] == w;
                        assert(r1[y] == w);
                    }
                    if w == v {
                        assert(r1[j as int] == w);
                    }
                }
                assert forall|x: i64, w: i64| #[trigger] fed(graph, fr, a as int, r1, x, w) <==> fed(
                    graph,
                    fr,
                    a as int,
                    r0,
                    x,
                    w,
                ) || (x == u && w == v) by {
                    if x == u && w == v {
                        assert(r1.contains(v));
                    }
                }
            }
            let slot = (v - 1) as usize;
            match lab[slot] {
                None => {
                    proof {
                        assert(lab_at(labp, v) is None);
                        assert(lab_at(lab0, v) is None);
                        assert(!next@.contains(v));
                        lemma_node_set_len(graph, labeled(graph, labp).insert(v));
                    }
                    lab.set(slot, Some(lu));
                    lvl.set(slot, level + 1);
                    let ghost n0 = next@;
                    next.push(v);
                    *assigned = *assigned + 1;
                    proof {
                        assert forall|w: i64| graph.is_node(w) implies #[trigger] lab_at(lab@, w) == if w == v {
                            Some(lu)
                        } else {
                            lab_at(labp, w)
                        } && lvl_at(lvl@, w) == if w == v {
                            (level + 1) as usize
                        } else {
                            lvl_at(lvlp, w)
                        } by {}
                        assert(labeled(graph, lab@) =~= labeled(graph, labp).insert(v));
                        assert(next@ == n0.push(v));
                        assert forall|w: i64| #[trigger] next@.contains(w) <==> n0.contains(w) || w == v by {
                            if next@.contains(w) {
                                let y = choose|y: int| 0 <= y < next@.len() && next@[y] == w;
                                if y < n0.len() {
                                    assert(n0[y] == w);
                                }
                            }
                            if n0.contains(w) {
                                let y = choose|y: int| 0 <= y < n0.len() && n0[y] == w;
                                assert(next@[y] == w);
                            }
                            if w == v {
                                assert(next@[n0.len() as int] == w);
                            }
                        }
                        assert forall|p: int, q: int| 0 <= p < q < next@.len() implies next@[p] != next@[q] by {
                            if q == next@.len() - 1 {
                                assert(n0.contains(n0[p]));
                            }
                        }
                        assert(fed(graph, fr, a as int, r1, u, v));
                        assert forall|x: i64| #[trigger] fed(graph, fr, a as int, r1, x, v) implies !ranks_before(
                            e,
                            lab_at(lab0, x)->0 as int,
                            lu as int,
                        ) by {
                            if x != u {
                                assert(fed(graph, fr, a as int, r0, x, v));
                            }
                        }
                    }
                },
                Some(lv) => {
                    proof {
                        assert(lab_at(labp, v) == Some(lv));
                    }
                    if lvl[slot] == level + 1 {
                        proof {
                            assert(lab_at(lab0, v) is None);
                        }
                        if eff[lu] < eff[lv] || (eff[lu] == eff[lv] && lu < lv) {
                            lab.set(slot, Some(lu));
                            proof {
                                assert forall|w: i64| graph.is_node(w) implies #[trigger] lab_at(lab@, w) == if w
                                    == v {
                                    Some(lu)
                                } else {
                                    lab_at(labp, w)
                                } by {}
                                assert(labeled(graph, lab@) =~= labeled(graph, labp));
                                assert(fed(graph, fr, a as int, r1, u, v));
                                assert forall|x: i64| #[trigger] fed(graph, fr, a as int, r1, x, v) implies !ranks_before(
                                    e,
                                    lab_at(lab0, x)->0 as int,
                                    lu as int,
                                ) by {
                                    if x != u {
                                        assert(fed(graph, fr, a as int, r0, x, v));
                                        assert(!ranks_before(e, lab_at(lab0, x)->0 as int, lv as int));
                                    }
                                }
                            }
                        } else {
                            proof {
                                assert forall|x: i64| #[trigger] fed(graph, fr, a as int, r1, x, v) implies !ranks_before(
                                    e,
                                    lab_at(lab0, x)->0 as int,
                                    lv as int,
                                ) by {
                                    if x != u {
                                        assert(fed(graph, fr, a as int, r0, x, v));
                                    }
                                }
                                let x0 = choose|x: i64| #[trigger]
                                    fed(graph, fr, a as int, r0, x, v) && lab_at(lab0, x) == lab_at(labp, v);
                                assert(fed(graph, fr, a as int, r1, x0, v));
                            }
                        }
                    } else {
                        proof {
                            if lab_at(lab0, v) is None {
                                assert(lvl_at(lvlp, v) == l + 1);
                            }
                        }
                    }
                },
            }
            proof {
                assert forall|w: i64|
                    graph.is_node(w) && lab_at(lab0, w) is None && #[trigger] lab_at(lab@, w) is Some implies
                    exists|x: i64| #[trigger]
                        fed(graph, fr, a as int, r1, x, w) && lab_at(lab0, x) == lab_at(lab@, w) by {
                    if w != v {
                        let x0 = choose|x: i64| #[trigger]
                            fed(graph, fr, a as int, r0, x, w) && lab_at(lab0, x) == lab_at(labp, w);
                        assert(fed(graph, fr, a as int, r1, x0, w));
                    } else if lab_at(lab@, w) == Some(lu) {
                        assert(fed(graph, fr, a as int, r1, u, w));
                    } else {
                        let x0 = choose|x: i64| #[trigger]
                            fed(graph, fr, a as int, r0, x, w) && lab_at(lab0, x) == lab_at(labp, w);
                        assert(fed(graph, fr, a as int, r1, x0, w));
                    }
                }
                assert forall|w: i64|
                    graph.is_node(w) && lab_at(lab0, w) is None && #[trigger] lab_at(lab@, w) is Some && w != v implies
                    forall|x: i64| #[trigger]
                        fed(graph, fr, a as int, r1, x, w) ==> !ranks_before(
                            e,
                            lab_at(lab0, x)->0 as int,
                            lab_at(lab@, w)->0 as int,
                        ) by {
                    assert forall|x: i64| #[trigger] fed(graph, fr, a as int, r1, x, w) implies !ranks_before(
                        e,
                        lab_at(lab0, x)->0 as int,
                        lab_at(lab@, w)->0 as int,
                    ) by {
                        assert(fed(graph, fr, a as int, r0, x, w));
                    }
                }
                assert forall|w: i64|
                    graph.is_node(w) && lab_at(lab0, w) is None implies (#[trigger] lab_at(lab@, w) is Some
                    <==> exists|x: i64| #[trigger] fed(graph, fr, a as int, r1, x, w)) by {
                    if w == v {
                        assert(fed(graph, fr, a as int, r1, u, w));
                    } else if exists|x: i64| #[trigger] fed(graph, fr, a as int, r1, x, w) {
                        let x0 = choose|x: i64| #[trigger] fed(graph, fr, a as int, r1, x, w);
                        assert(fed(graph, fr, a as int, r0, x0, w));
                    } else if lab_at(labp, w) is Some {
                        let x0 = choose|x: i64| #[trigger] fed(graph, fr, a as int, r0, x, w);
                        assert(fed(graph, fr, a as int, r1, x0, w));
                    }
                }
            }
            j = j + 1;
        }
        proof {
            let ta = fr.take(a as int);
            let tb = fr.take(a + 1);
            assert(tb =~= ta.push(u));
            assert(row@.take(row@.len() as int) =~= row@);
            assert forall|x: i64| #[trigger] tb.contains(x) <==> ta.contains(x) || x == u by {
                if tb.contains(x) {
                    let y = choose|y: int| 0 <= y < tb.len() && tb[y] == x;
                    if y < ta.len() {
                        assert(ta[y] == x);
                    }
                }
                if ta.contains(x) {
                    let y = choose|y: int| 0 <= y < ta.len() && ta[y] == x;
                    assert(tb[y] == x);
                }
                if x == u {
                    assert(tb[a as int] == x);
                }
            }
            assert forall|x: i64, w: i64|
                #![trigger fed(graph, fr, a + 1, Seq::empty(), x, w)]
                #![trigger fed(graph, fr, a as int, row@.take(j as int), x, w)]
                fed(graph, fr, a + 1, Seq::empty(), x, w) <==> fed(graph, fr, a as int, row@.take(j as int), x, w) by {}
        }
        a = a + 1;
    }
    proof {
        assert(fr.take(fr.len() as int) =~= fr);
        assert forall|x: i64, w: i64|
            #![trigger fed(graph, fr, a as int, Seq::empty(), x, w)]
            #![trigger fr.contains(x), graph.has_edge(x, w)]
            fed(graph, fr, a as int, Seq::empty(), x, w) <==> fr.contains(x) && graph.has_edge(x, w) by {}
        lemma_level_step(graph, e, lab0, lvl0, fr, l, lab@, lvl@);
        lemma_node_set_len(graph, labeled(graph, lab@));
        assert forall|v: i64| #[trigger]
            next@.contains(v) <==> graph.is_node(v) && lab_at(lab@, v) is Some && lvl_at(lvl@, v) == l + 1 by {
            if graph.is_node(v) && lab_at(lab@, v) is Some && lvl_at(lvl@, v) == l + 1 && lab_at(lab0, v) is Some {
                assert(lvl_at(lvl0, v) <= l);
            }
        }
    }
    next
}

/// Places the newly labelled nodes of `pend`, none of them a seed, in the parts of
/// their labels.
fn bfs_commit(
    graph: &Graph,
    eff: &Vec<i64>,
    lab: &Vec<Option<usize>>,
    pend: &Vec<i64>,
    parts: &mut Vec<ahash::AHashSet<i64>>,
    mapping: &mut HashMap<i64, usize>,
)
    requires
        graph.wf(),
        lab@.len() == graph.node_count(),
        parts_ok_except(graph, eff@, old(parts)@, old(mapping)@, lab@, pend@),
        pend@.no_duplicates(),
        forall|v: i64| #[trigger]
            pend@.contains(v) ==> graph.is_node(v) && !is_seed(graph, eff@, v) && lab_at(lab@, v) is Some
                && lab_at(lab@, v)->0 < old(parts)@.len(),
    ensures
        final(parts)@.len() == old(parts)@.len(),
        parts_ok(graph, eff@, final(parts)@, final(mapping)@, lab@),
{
    let ghost e = eff@;
    let ghost p = pend@;
    let mut t: usize = 0;
    proof {
        assert(p.skip(0) =~= p);
    }
    while t < pend.len()
        invariant
            graph.wf(),
            e == eff@,
            p == pend@,
            t <= p.len(),
            lab@.len() == graph.node_count(),
            parts@.len() == old(parts)@.len(),
            p.no_duplicates(),
            forall|v: i64| #[trigger]
                p.contains(v) ==> graph.is_node(v) && !is_seed(graph, e, v) && lab_at(lab@, v) is Some
                    && lab_at(lab@, v)->0 < parts@.len(),
            parts_ok_except(graph, e, parts@, mapping@, lab@, p.skip(t as int)),
        decreases p.len() - t,
    {
        let v = pend[t];
        let ghost rest0 = p.skip(t as int);
        let ghost rest1 = p.skip(t + 1);
        proof {
            graph.lemma_wf();
            assert(p.contains(v));
            assert(lab@[(v - 1) as usize as int] == lab_at(lab@, v));
            assert forall|w: i64| #[trigger] rest0.contains(w) <==> rest1.contains(w) || w == v by {
                if rest0.contains(w) {
                    let y = choose|y: int| 0 <= y < rest0.len() && rest0[y] == w;
                    if y > 0 {
                        assert(rest1[y - 1] == w);
                    }
                }
                if rest1.contains(w) {
                    let y = choose|y: int| 0 <= y < rest1.len() && rest1[y] == w;
                    assert(rest0[y + 1] == w);
                }
                if w == v {
                    assert(rest0[0] == w);
                }
            }
            assert(!rest1.contains(v)) by {
                if rest1.contains(v) {
                    let y = choose|y: int| 0 <= y < rest1.len() && rest1[y] == v;
                    assert(p[t + 1 + y] == v);
                    assert(p[t as int] == v);
                }
            }
        }
        let i = lab[(v - 1) as usize].unwrap();
        let ghost p0 = parts@;
        let ghost m0 = mapping@;
        add_to_part(parts, i, v);
        mapping.insert(v, i);
        proof {
            assert forall|j: int, w: i64|
                0 <= j < parts@.len() implies (#[trigger] id_set_view(parts@[j]).contains(w) <==> bfs_member(
                    graph,
                    e,
                    mapping@,
                    j,
                    w,
                )) by {
                if j != i {
                    assert(parts@[j] == p0[j]);
                }
                if w != v {
                    assert(id_set_view(p0[j]).contains(w) <==> bfs_member(graph, e, m0, j, w));
                } else {
                    assert(!m0.contains_key(v));
                    assert(!id_set_view(p0[j]).contains(w));
                }
            }
        }
        t = t + 1;
    }
    proof {
        assert(p.skip(p.len() as int) =~= Seq::<i64>::empty());
    }
}

/// Partitions the graph into `k` parts by breadth-first growth from the seeds: each
/// seed that is a node starts the part of its index, and every other node that a seed
/// reaches joins the part of the seed nearest to it (the one with the smallest id among
/// equally near seeds, then the one with the smallest index). With no seed given, the
/// first `k` ids are the seeds; only the first `k` seeds are used. Nodes that no seed
/// reaches stay in no part. With `k < 2` there is one empty part.
pub fn partition_bfs_level(graph: &Graph, seeds: Vec<i64>, k: usize) -> (r: Result<
    PartitionResult,
    SqliteGraphError,
>)
    requires
        graph.wf(),
    ensures
        r is Ok,
        r matches Ok(res) ==> bfs_result(graph, seeds@, k as nat, res),
        r matches Ok(res) ==> k >= 2 && bfs_seeds(graph.node_count(), seeds@, k as nat).no_duplicates()
            ==> consistent(part_sets(res), res.node_to_partition@),
{
    let n = graph.entity_count();
    proof {
        graph.lemma_wf();
    }
    if k < 2 {
        let mut parts: Vec<ahash::AHashSet<i64>> = Vec::new();
        parts.push(id_set_new());
        let res = PartitionResult { partitions: parts, cut_edges: Vec::new(), node_to_partition: HashMap::new() };
        proof {
            assert(res.node_to_partition@.dom() =~= Set::<i64>::empty());
        }
        return Ok(res);
    }
    let ghost s0 = seeds@;
    let eff = effective_bfs_seeds(n, seeds, k);
    let ghost e = eff@;
    let mut parts = empty_parts(k);
    let mut mapping: HashMap<i64, usize> = HashMap::new();
    proof {
        assert(mapping@.dom() =~= Set::<i64>::empty());
    }
    let (mut lab, mut lvl, mut frontier, mut assigned) = bfs_init(graph, &eff, &mut parts, &mut mapping);
    let mut level: usize = 0;
    proof {
        lemma_node_set_len(graph, labeled(graph, lab@));
        if frontier@.len() > 0 {
            assert(frontier@.contains(frontier@[0]));
            assert(labeled(graph, lab@).contains(frontier@[0]));
        }
    }
    while frontier.len() > 0
        invariant
            graph.wf(),
            n == graph.node_count(),
            e == eff@,
            e.len() <= k,
            parts@.len() == k,
            labels_ok(graph, e, lab@, lvl@, level as nat),
            frontier_ok(graph, lab@, lvl@, frontier@, level as nat),
            parts_ok(graph, e, parts@, mapping@, lab@),
            labels_in_range(graph, lab@, e.len()),
            labeled(graph, lab@).len() == assigned,
            assigned <= n,
            level <= assigned,
            frontier@.len() > 0 ==> level < assigned,
        decreases n - assigned + frontier@.len(),
    {
        let ghost lab0 = lab@;
        let next = bfs_expand(graph, &eff, &mut lab, &mut lvl, &frontier, level, &mut assigned);
        proof {
            assert forall|v: i64| #[trigger] next@.contains(v) implies graph.is_node(v) && !is_seed(graph, e, v)
                && lab_at(lab@, v) is Some && lab_at(lab@, v)->0 < parts@.len() by {
                if is_seed(graph, e, v) {
                    lemma_seed_near(graph, e, v);
                    lemma_near_mono(graph, e, v, 0, level as nat);
                }
            }
            assert forall|v: i64| #[trigger]
                mapping@.contains_key(v) implies if is_seed(graph, e, v) {
                    last_index(e, v, mapping@[v] as int)
                } else {
                    mapping@[v] == lab_at(lab@, v)->0
                } by {
                assert(lab_at(lab0, v) is Some);
            }
            assert forall|v: i64| #[trigger]
                mapping@.contains_key(v) <==> graph.is_node(v) && lab_at(lab@, v) is Some && !next@.contains(v) by {
                if graph.is_node(v) && lab_at(lab0, v) is Some {
                    assert(lab_at(lab@, v) is Some);
                }
            }
        }
        bfs_commit(graph, &eff, &lab, &next, &mut parts, &mut mapping);
        proof {
            if next@.len() > 0 {
                assert(next@.contains(next@[0]));
            }
        }
        frontier = next;
        level = level + 1;
    }
    proof {
        assert forall|w: i64| !#[trigger] seed_dist(graph, e, w, level as nat) by {
            if seed_dist(graph, e, w, level as nat) {
                lemma_near_is_node(graph, e, w, level as nat);
                assert(lab_at(lab@, w) is Some);
                lemma_seed_dist_unique(graph, e, w, lvl_at(lvl@, w) as nat, level as nat);
                assert(frontier@.contains(w));
            }
        }
        assert forall|v: i64| #[trigger] mapping@.contains_key(v) <==> exists|d: nat| near_within(graph, e, v, d) by {
            if exists|d: nat| near_within(graph, e, v, d) {
                let d = choose|d: nat| near_within(graph, e, v, d);
                lemma_near_is_node(graph, e, v, d);
                let d0 = lemma_has_seed_dist(graph, e, v, d);
                if !near_within(graph, e, v, level as nat) {
                    if d0 <= level {
                        lemma_near_mono(graph, e, v, d0, level as nat);
                    } else {
                        lemma_no_gap(graph, e, v, d0, level as nat);
                    }
                }
            }
            if mapping@.contains_key(v) {
                assert(near_within(graph, e, v, level as nat));
            }
        }
        assert forall|v: i64| #[trigger] mapping@.contains_key(v) implies bfs_part(graph, e, v, mapping@[v] as int) by {
            if !is_seed(graph, e, v) {
                assert(seed_dist(graph, e, v, lvl_at(lvl@, v) as nat));
            }
        }
    }
    let cut = compute_cut_edges(graph, &mapping);
    let res = PartitionResult { partitions: parts, cut_edges: cut, node_to_partition: mapping };
    proof {
        let m = res.node_to_partition@;
        if e.no_duplicates() {
            assert forall|j: int, v: i64| 0 <= j < part_sets(res).len() implies (#[trigger] part_sets(res)[j].contains(v)
                <==> m.contains_key(v) && m[v] == j) by {
                assert(part_sets(res)[j] == id_set_view(res.partitions@[j]));
                if is_seed(graph, e, v) {
                    lemma_seed_near(graph, e, v);
                    assert(m.contains_key(v));
                    assert(last_index(e, v, m[v] as int));
                    if e[j] == v && j != m[v] {
                        assert(e[j] == e[m[v] as int]);
                    }
                }
            }
        }
    }
    Ok(res)
}

/// The number of items of `s`, other than `skip`, whose part is `p`.
pub open spec fn count_part(s: Seq<i64>, m: Map<i64, usize>, p: int, skip: i64) -> nat
    decreases s.len(),
{
    if s.len() == 0 {
        0
    } else {
        count_part(s.drop_last(), m, p, skip) + if s.last() != skip && m.contains_key(s.last()) && m[s.last()]
            == p {
            1nat
        } else {
            0nat
        }
    }
}

/// What moving `v` to the other of two parts gains: its edges into the other part
/// less its edges (loops aside) into its own part.
pub open spec fn move_gain(g: &Graph, m: Map<i64, usize>, v: i64) -> int {
    let from = m[v] as int;
    count_part(g.succs(v), m, 1 - from, v) - count_part(g.succs(v), m, from, v)
}

/// The node at index `i` of `order` is the move of the greedy search: it has a part,
/// a positive gain, the largest gain of all, and no node before it has as large a gain.
pub open spec fn best_move(g: &Graph, m: Map<i64, usize>, order: Seq<i64>, i: int) -> bool {
    &&& 0 <= i < order.len()
    &&& m.contains_key(order[i])
    &&& move_gain(g, m, order[i]) > 0
    &&& forall|j: int|
        0 <= j < order.len() && m.contains_key(#[trigger] order[j]) ==> move_gain(g, m, order[j]) <= move_gain(
            g,
            m,
            order[i],
        )
    &&& forall|j: int|
        0 <= j < i && m.contains_key(#[trigger] order[j]) ==> move_gain(g, m, order[j]) < move_gain(
            g,
            m,
            order[i],
        )
}

/// No node of `order` gains by a move.
pub open spec fn settled(g: &Graph, m: Map<i64, usize>, order: Seq<i64>) -> bool {
    forall|j: int| 0 <= j < order.len() && m.contains_key(#[trigger] order[j]) ==> move_gain(g, m, order[j]) <= 0
}

/// `m` with `v` moved to the other of parts 0 and 1.
pub open spec fn moved(m: Map<i64, usize>, v: i64) -> Map<i64, usize> {
    m.insert(v, (1 - m[v]) as usize)
}

/// `ms` is a run of the greedy search over the nodes in `order`, of at most `iters`
/// moves: each state follows from the one before by the best move, and the run ends
/// after `iters` moves or where no move gains.
pub open spec fn greedy_run(g: &Graph, order: Seq<i64>, ms: Seq<Map<i64, usize>>, iters: nat) -> bool {
    &&& 1 <= ms.len() <= iters + 1
    &&& run_steps(g, order, ms)
    &&& ms.len() == iters + 1 || settled(g, ms.last(), order)
}

/// Each state of `ms` follows from the one before by the best move.
pub open spec fn run_steps(g: &Graph, order: Seq<i64>, ms: Seq<Map<i64, usize>>) -> bool {
    forall|i: int| 0 <= i < ms.len() - 1 ==> step_ok(g, order, #[trigger] ms[i], ms[i + 1])
}

/// `m2` follows from `m` by the best move over the nodes in `order`.
pub open spec fn step_ok(g: &Graph, order: Seq<i64>, m: Map<i64, usize>, m2: Map<i64, usize>) -> bool {
    exists|x: int| #[trigger] best_move(g, m, order, x) && m2 == moved(m, order[x])
}

/// State `b` of `ms` has the smallest cut, and is the first state that has it.
pub open spec fn first_min_cut(g: &Graph, ms: Seq<Map<i64, usize>>, b: int) -> bool {
    &&& 0 <= b < ms.len()
    &&& forall|i: int| 0 <= i < ms.len() ==> graph_cut(g, #[trigger] ms[i]).len() >= graph_cut(g, ms[b]).len()
    &&& forall|i: int| 0 <= i < b ==> graph_cut(g, #[trigger] ms[i]).len() > graph_cut(g, ms[b]).len()
}

/// `m` maps each id that some set of `views` holds to the last set that holds it.
pub open spec fn last_set_map(views: Seq<Set<i64>>, m: Map<i64, usize>) -> bool {
    &&& forall|v: i64| #[trigger]
        m.contains_key(v) <==> exists|j: int| 0 <= j < views.len() && #[trigger] views[j].contains(v)
    &&& forall|v: i64| #[trigger]
        m.contains_key(v) ==> m[v] < views.len() && views[m[v] as int].contains(v) && forall|j: int|
            m[v] < j < views.len() ==> !#[trigger] views[j].contains(v)
}

/// The count is no larger than the sequence.
proof fn lemma_count_part_len(s: Seq<i64>, m: Map<i64, usize>, p: int, skip: i64)
    ensures
        count_part(s, m, p, skip) <= s.len(),
    decreases s.len(),
{
    if s.len() > 0 {
        lemma_count_part_len(s.drop_last(), m, p, skip);
    }
}

/// What moving `v` (whose part is `from`, 0 or 1) gains.
fn gain_of(graph: &Graph, mapping: &HashMap<i64, usize>, v: i64, from: usize) -> (gain: i64)
    requires
        graph.wf(),
        mapping@.contains_key(v),
        mapping@[v] == from,
        from < 2,
    ensures
        gain == move_gain(graph, mapping@, v),
{
    let to: usize = 1 - from;
    let row = graph.fetch_outgoing(v).unwrap();
    proof {
        graph.lemma_wf();
        lemma_out_of_len(graph.edge_list(), v);
        lemma_source_count_bound(graph.edge_list(), v as int, v + 1);
    }
    let mut other: i64 = 0;
    let mut within: i64 = 0;
    let mut j: usize = 0;
    while j < row.len()
        invariant
            row@ == graph.succs(v),
            row@.len() <= graph.edge_list().len(),
            graph.edge_list().len() < i64::MAX,
            j <= row@.len(),
            mapping@.contains_key(v),
            mapping@[v] == from,
            from < 2,
            to == 1 - from,
            other == count_part(row@.take(j as int), mapping@, to as int, v),
            within == count_part(row@.take(j as int), mapping@, from as int, v),
        decreases row.len() - j,
    {
        let x = row[j];
        proof {
            assert(row@.take(j + 1).drop_last() =~= row@.take(j as int));
            lemma_count_part_len(row@.take(j as int), mapping@, to as int, v);
            lemma_count_part_len(row@.take(j as int), mapping@, from as int, v);
        }
        let ghost tj = row@.take(j + 1);
        proof {
            assert(tj.last() == x);
        }
        match part_of(mapping, x) {
            Some(px) => {
                if px == to {
                    other = other + 1;
                } else if px == from && x != v {
                    within = within + 1;
                }
            },
            None => {},
        }
        j = j + 1;
    }
    proof {
        assert(row@.take(row@.len() as int) =~= row@);
    }
    other - within
}

/// A copy of each set.
fn clone_parts(parts: &Vec<ahash::AHashSet<i64>>) -> (c: Vec<ahash::AHashSet<i64>>)
    ensures
        c@.len() == parts@.len(),
        set_views(c@) == set_views(parts@),
{
    let mut c: Vec<ahash::AHashSet<i64>> = Vec::new();
    let mut j: usize = 0;
    while j < parts.len()
        invariant
            j <= parts@.len(),
            c@.len() == j,
            forall|i: int| 0 <= i < j ==> id_set_view(#[trigger] c@[i]) == id_set_view(parts@[i]),
        decreases parts.len() - j,
    {
        c.push(id_set_clone(&parts[j]));
        j = j + 1;
    }
    assert(set_views(c@) =~= set_views(parts@));
    c
}

/// The map from each id that some set holds to the last set that holds it.
fn last_set_mapping(parts: &Vec<ahash::AHashSet<i64>>) -> (m: HashMap<i64, usize>)
    ensures
        last_set_map(set_views(parts@), m@),
{
    let ghost views = set_views(parts@);
    let mut m: HashMap<i64, usize> = HashMap::new();
    let mut j: usize = 0;
    proof {
        assert(m@.dom() =~= Set::<i64>::empty());
    }
    while j < parts.len()
        invariant
            views == set_views(parts@),
            j <= parts@.len(),
            last_set_map(views.take(j as int), m@),
        decreases parts.len() - j,
    {
        let ids = id_set_to_vec(&parts[j]);
        let ghost m0 = m@;
        let mut t: usize = 0;
        while t < ids.len()
            invariant
                views == set_views(parts@),
                j < parts@.len(),
                last_set_map(views.take(j as int), m0),
                ids@.to_set() == id_set_view(parts@[j as int]),
                t <= ids@.len(),
                forall|v: i64| #[trigger]
                    m@.contains_key(v) <==> m0.contains_key(v) || ids@.take(t as int).contains(v),
                forall|v: i64| #[trigger]
                    m@.contains_key(v) ==> if ids@.take(t as int).contains(v) {
                        m@[v] == j
                    } else {
                        m@[v] == m0[v]
                    },
            decreases ids.len() - t,
        {
            let x = ids[t];
            proof {
                let t1 = ids@.take(t + 1);
                let t0 = ids@.take(t as int);
                assert(t1 =~= t0.push(x));
                assert forall|v: i64| #[trigger] t1.contains(v) <==> t0.contains(v) || v == x by {
                    if t1.contains(v) {
                        let y = choose|y: int| 0 <= y < t1.len() && t1[y] == v;
                        if y < t0.len() {
                            assert(t0[y] == v);
                        }
                    }
                    if t0.contains(v) {
                        let y = choose|y: int| 0 <= y < t0.len() && t0[y] == v;
                        assert(t1[y] == v);
                    }
                    if v == x {
                        assert(t1[t as int] == v);
                    }
                }
            }
            m.insert(x, j);
            t = t + 1;
        }
        proof {
            assert(ids@.take(ids@.len() as int) =~= ids@);
            let v0 = views.take(j as int);
            let v1 = views.take(j + 1);
            assert forall|v: i64| ids@.contains(v) <==> #[trigger] views[j as int].contains(v) by {
                assert(views[j as int] == id_set_view(parts@[j as int]));
                if ids@.contains(v) {
                    assert(ids@.to_set().contains(v));
                }
            }
            assert forall|v: i64| #[trigger]
                m@.contains_key(v) <==> exists|i: int| 0 <= i < v1.len() && #[trigger] v1[i].contains(v) by {
                if m@.contains_key(v) {
                    if ids@.contains(v) {
                        assert(v1[j as int].contains(v));
                    } else {
                        let i = choose|i: int| 0 <= i < v0.len() && #[trigger] v0[i].contains(v);
                        assert(v1[i].contains(v));
                    }
                }
                if exists|i: int| 0 <= i < v1.len() && #[trigger] v1[i].contains(v) {
                    let i = choose|i: int| 0 <= i < v1.len() && #[trigger] v1[i].contains(v);
                    if i < j {
                        assert(v0[i].contains(v));
                    } else {
                        assert(ids@.contains(v));
                    }
                }
            }
            assert forall|v: i64| #[trigger]
                m@.contains_key(v) implies m@[v] < v1.len() && v1[m@[v] as int].contains(v) && forall|i: int|
                    m@[v] < i < v1.len() ==> !#[trigger] v1[i].contains(v) by {
                if ids@.contains(v) {
                    assert(v1[j as int].contains(v));
                } else {
                    assert(v1[m@[v] as int] == v0[m@[v] as int]);
                    assert forall|i: int| m@[v] < i < v1.len() implies !#[trigger] v1[i].contains(v) by {
                        if i < j {
                            assert(v1[i] == v0[i]);
                        }
                    }
                }
            }
        }
        j = j + 1;
    }
    proof {
        assert(views.take(views.len() as int) =~= views);
    }
    m
}

/// Takes `v` out of part `i`.
fn remove_from_part(parts: &mut Vec<ahash::AHashSet<i64>>, i: usize, v: i64)
    requires
        i < old(parts)@.len(),
    ensures
        final(parts)@.len() == old(parts)@.len(),
        forall|j: int|
            0 <= j < old(parts)@.len() && j != i ==> #[trigger] final(parts)@[j] == old(parts)@[j],
        id_set_view(final(parts)@[i as int]) == id_set_view(old(parts)@[i as int]).remove(v),
{
    let mut s = id_set_new();
    parts.set_and_swap(i, &mut s);
    id_set_remove(&mut s, v);
    parts.set_and_swap(i, &mut s);
}

/// The greedy search can run on this input: with at least one move to make, no node of
/// the graph lies in a given set past the second (the search moves nodes between parts
/// 0 and 1 only, and stops on any other part).
pub open spec fn greedy_input_ok(
    g: &Graph,
    initial: Option<Vec<ahash::AHashSet<i64>>>,
    max_iterations: nat,
) -> bool {
    max_iterations > 0 && g.node_count() > 0 ==> match initial {
        Some(init) => init@.len() >= 2 ==> forall|j: int, v: i64|
            2 <= j < init@.len() && g.is_node(v) ==> !#[trigger] id_set_view(init@[j]).contains(v),
        None => true,
    }
}

/// The mapping that the greedy search starts from: each id to the last given set that
/// holds it, when at least two sets are given; otherwise the breadth-first partition
/// from the first two ids.
pub open spec fn greedy_start(g: &Graph, initial: Option<Vec<ahash::AHashSet<i64>>>, m0: Map<i64, usize>) -> bool {
    match initial {
        Some(init) if init@.len() >= 2 => last_set_map(set_views(init@), m0),
        _ => bfs_map_ok(g, bfs_seeds(g.node_count(), Seq::empty(), 2), m0),
    }
}

/// The starting parts agree with the starting mapping: always for the breadth-first
/// start; for given sets, when the first two agree with it.
pub open spec fn greedy_start_consistent(
    initial: Option<Vec<ahash::AHashSet<i64>>>,
    m0: Map<i64, usize>,
) -> bool {
    match initial {
        Some(init) if init@.len() >= 2 => consistent(set_views(init@).take(2), m0),
        _ => true,
    }
}

/// `order` lists each node of the graph once.
pub open spec fn node_order(g: &Graph, order: Seq<i64>) -> bool {
    order.no_duplicates() && forall|v: i64| #[trigger] order.contains(v) <==> g.is_node(v)
}

/// What the greedy partition gives: two parts; for some order of the nodes, the mapping
/// is the state with the smallest cut (the first one with it) of the greedy run from the
/// starting mapping; the cut is the graph's cut under it, and no larger than the cut at
/// the start; and the parts agree with the mapping when they did at the start.
pub open spec fn greedy_result(
    g: &Graph,
    initial: Option<Vec<ahash::AHashSet<i64>>>,
    max_iterations: nat,
    res: PartitionResult,
) -> bool {
    let m = res.node_to_partition@;
    &&& res.partitions@.len() == 2
    &&& res.cut_edges@ == graph_cut(g, m)
    &&& if g.node_count() == 0 {
        &&& m.dom() == Set::<i64>::empty()
        &&& id_set_view(res.partitions@[0]) == Set::<i64>::empty()
        &&& id_set_view(res.partitions@[1]) == Set::<i64>::empty()
    } else {
        exists|order: Seq<i64>, ms: Seq<Map<i64, usize>>, b: int|
            #![trigger greedy_run(g, order, ms, max_iterations), first_min_cut(g, ms, b)]
            {
                &&& node_order(g, order)
                &&& greedy_run(g, order, ms, max_iterations)
                &&& greedy_start(g, initial, ms[0])
                &&& first_min_cut(g, ms, b)
                &&& m == ms[b]
                &&& res.cut_edges@.len() <= graph_cut(g, ms[0]).len()
                &&& greedy_start_consistent(initial, ms[0]) ==> consistent(part_sets(res), m)
            }
    }
}

/// The breadth-first mapping is determined by the graph and the seeds.
proof fn lemma_bfs_map_unique(g: &Graph, eff: Seq<i64>, m1: Map<i64, usize>, m2: Map<i64, usize>)
    requires
        bfs_map_ok(g, eff, m1),
        bfs_map_ok(g, eff, m2),
    ensures
        m1 == m2,
{
    assert forall|v: i64| #[trigger] m1.contains_key(v) implies m2.contains_key(v) && m1[v] == m2[v] by {
        assert(exists|d: nat| near_within(g, eff, v, d));
        assert(m2.contains_key(v));
        let a = m1[v] as int;
        let b = m2[v] as int;
        assert(bfs_part(g, eff, v, a));
        assert(bfs_part(g, eff, v, b));
        if is_seed(g, eff, v) {
            if a < b {
                assert(eff[b] != v);
            } else if b < a {
                assert(eff[a] != v);
            }
        } else {
            let d1 = choose|d: nat| seed_dist(g, eff, v, d) && first_seed(g, eff, v, d, a);
            let d2 = choose|d: nat| seed_dist(g, eff, v, d) && first_seed(g, eff, v, d, b);
            lemma_seed_dist_unique(g, eff, v, d1, d2);
            if a != b {
                assert(seed_reaches(g, eff, b, v, d1));
                assert(seed_reaches(g, eff, a, v, d1));
                assert(ranks_before(eff, a, b));
                assert(ranks_before(eff, b, a));
            }
        }
    }
    assert forall|v: i64| #[trigger] m2.contains_key(v) implies m1.contains_key(v) by {
        assert(exists|d: nat| near_within(g, eff, v, d));
    }
    assert(m1 =~= m2);
}

/// Greedy refinement from the breadth-first start never cuts more edges than that
/// start: with no initial sets given, the greedy partition's cut is no longer than the
/// cut of the breadth-first partition into two parts from the default seeds.
pub proof fn lemma_greedy_no_worse_than_bfs(
    g: &Graph,
    max_iterations: nat,
    greedy: PartitionResult,
    bfs: PartitionResult,
)
    requires
        g.wf(),
        greedy_result(g, None, max_iterations, greedy),
        bfs_result(g, Seq::empty(), 2, bfs),
    ensures
        greedy.cut_edges@.len() <= bfs.cut_edges@.len(),
{
    if g.node_count() == 0 {
        assert(greedy.node_to_partition@ =~= bfs.node_to_partition@) by {
            let eff = bfs_seeds(g.node_count(), Seq::empty(), 2);
            assert forall|v: i64| !#[trigger] bfs.node_to_partition@.contains_key(v) by {
                if bfs.node_to_partition@.contains_key(v) {
                    let d = choose|d: nat| near_within(g, eff, v, d);
                    lemma_near_is_node(g, eff, v, d);
                }
            }
        }
    } else {
        let (order, ms, b) = choose|order: Seq<i64>, ms: Seq<Map<i64, usize>>, b: int|
            #![trigger greedy_run(g, order, ms, max_iterations), first_min_cut(g, ms, b)]
            {
                &&& node_order(g, order)
                &&& greedy_run(g, order, ms, max_iterations)
                &&& greedy_start(g, None, ms[0])
                &&& first_min_cut(g, ms, b)
                &&& greedy.node_to_partition@ == ms[b]
                &&& greedy.cut_edges@.len() <= graph_cut(g, ms[0]).len()
                &&& greedy_start_consistent(None, ms[0]) ==> consistent(part_sets(greedy), greedy.node_to_partition@)
            };
        lemma_bfs_map_unique(g, bfs_seeds(g.node_count(), Seq::empty(), 2), ms[0], bfs.node_to_partition@);
    }
}

/// Moving `v` between parts 0 and 1 in both the parts and the mapping keeps them in
/// agreement.
proof fn lemma_move_consistent(views: Seq<Set<i64>>, m: Map<i64, usize>, v: i64)
    requires
        views.len() == 2,
        consistent(views, m),
        m.contains_key(v),
        m[v] < 2,
    ensures
        consistent(
            views.update(m[v] as int, views[m[v] as int].remove(v)).update(
                1 - m[v],
                views[1 - m[v]].insert(v),
            ),
            moved(m, v),
        ),
{
    let from = m[v] as int;
    let to = 1 - from;
    let nv = views.update(from, views[from].remove(v)).update(to, views[to].insert(v));
    let nm = moved(m, v);
    assert forall|j: int, w: i64| 0 <= j < nv.len() implies (#[trigger] nv[j].contains(w) <==> nm.contains_key(w)
        && nm[w] == j) by {
        if j == from {
            assert(nv[j] == views[from].remove(v));
        } else {
            assert(nv[j] == views[to].insert(v));
        }
    }
}

/// The breadth-first partition from the first two ids starts the greedy search: its
/// mapping is the greedy start, gives parts 0 and 1 only, and agrees with its two parts.
proof fn lemma_bfs_start(g: &Graph, s0: Seq<i64>, res0: PartitionResult)
    requires
        g.wf(),
        s0 == Seq::<i64>::empty(),
        bfs_result(g, s0, 2, res0),
        bfs_seeds(g.node_count(), s0, 2).no_duplicates() ==> consistent(part_sets(res0), res0.node_to_partition@),
    ensures
        bfs_map_ok(g, bfs_seeds(g.node_count(), Seq::empty(), 2), res0.node_to_partition@),
        res0.partitions@.len() == 2,
        forall|v: i64| #[trigger] res0.node_to_partition@.contains_key(v) ==> res0.node_to_partition@[v] < 2,
        consistent(set_views(res0.partitions@), res0.node_to_partition@),
{
    let eff = bfs_seeds(g.node_count(), s0, 2);
    let m = res0.node_to_partition@;
    g.lemma_wf();
    assert forall|i: int, j: int| 0 <= i < j < eff.len() implies eff[i] != eff[j] by {}
    assert(eff.no_duplicates());
    assert forall|v: i64| #[trigger] m.contains_key(v) implies m[v] < 2 by {
        assert(bfs_part(g, eff, v, m[v] as int));
        if !is_seed(g, eff, v) {
            let d = choose|d: nat| seed_dist(g, eff, v, d) && first_seed(g, eff, v, d, m[v] as int);
        }
    }
}

/// The index in `order` of the greedy search's move, if some move gains.
fn find_best_move(graph: &Graph, mapping: &HashMap<i64, usize>, order: &Vec<i64>) -> (r: Option<usize>)
    requires
        graph.wf(),
        node_order(graph, order@),
        forall|v: i64| graph.is_node(v) && #[trigger] mapping@.contains_key(v) ==> mapping@[v] < 2,
    ensures
        r is None ==> settled(graph, mapping@, order@),
        r matches Some(x) ==> best_move(graph, mapping@, order@, x as int),
{
    let ghost m = mapping@;
    let mut best_gain: i64 = 0;
    let mut best_idx: Option<usize> = None;
    let mut idx: usize = 0;
    while idx < order.len()
        invariant
            graph.wf(),
            m == mapping@,
            node_order(graph, order@),
            idx <= order@.len(),
            forall|v: i64| graph.is_node(v) && #[trigger] m.contains_key(v) ==> m[v] < 2,
            best_idx is None ==> best_gain == 0,
            best_idx is None ==> forall|j: int|
                0 <= j < idx && m.contains_key(#[trigger] order@[j]) ==> move_gain(graph, m, order@[j]) <= 0,
            best_idx matches Some(x) ==> {
                &&& x < idx
                &&& m.contains_key(order@[x as int])
                &&& best_gain == move_gain(graph, m, order@[x as int])
                &&& best_gain > 0
                &&& forall|j: int|
                    0 <= j < idx && m.contains_key(#[trigger] order@[j]) ==> move_gain(graph, m, order@[j])
                        <= best_gain
                &&& forall|j: int|
                    0 <= j < x && m.contains_key(#[trigger] order@[j]) ==> move_gain(graph, m, order@[j])
                        < best_gain
            },
        decreases order.len() - idx,
    {
        let node = order[idx];
        proof {
            assert(order@.contains(node));
        }
        match part_of(mapping, node) {
            Some(from) => {
                let gain = gain_of(graph, mapping, node, from);
                if gain > best_gain {
                    best_gain = gain;
                    best_idx = Some(idx);
                }
            },
            None => {},
        }
        idx = idx + 1;
    }
    best_idx
}

/// Moves `node` from its part `from` (0 or 1) to the other one, in the parts and in the
/// mapping.
fn apply_move(
    parts: &mut Vec<ahash::AHashSet<i64>>,
    mapping: &mut HashMap<i64, usize>,
    node: i64,
    from: usize,
)
    requires
        old(parts)@.len() == 2,
        old(mapping)@.contains_key(node),
        old(mapping)@[node] == from,
        from < 2,
    ensures
        final(parts)@.len() == 2,
        final(mapping)@ == moved(old(mapping)@, node),
        consistent(set_views(old(parts)@), old(mapping)@) ==> consistent(set_views(final(parts)@), final(mapping)@),
{
    let to: usize = 1 - from;
    let ghost v0 = set_views(parts@);
    let ghost m = mapping@;
    remove_from_part(parts, from, node);
    add_to_part(parts, to, node);
    mapping.insert(node, to);
    proof {
        let nv = v0.update(from as int, v0[from as int].remove(node)).update(to as int, v0[to as int].insert(node));
        assert(set_views(parts@) =~= nv);
        if consistent(v0, m) {
            lemma_move_consistent(v0, m, node);
        }
    }
}

/// A run extended by the best move is still a run.
proof fn lemma_run_extend(g: &Graph, order: Seq<i64>, ms: Seq<Map<i64, usize>>, x: int)
    requires
        ms.len() >= 1,
        run_steps(g, order, ms),
        best_move(g, ms.last(), order, x),
    ensures
        run_steps(g, order, ms.push(moved(ms.last(), order[x]))),
{
    let ms1 = ms.push(moved(ms.last(), order[x]));
    assert forall|i: int| 0 <= i < ms1.len() - 1 implies step_ok(g, order, #[trigger] ms1[i], ms1[i + 1]) by {
        if i < ms.len() - 1 {
            assert(ms1[i] == ms[i]);
            assert(ms1[i + 1] == ms[i + 1]);
            assert(step_ok(g, order, ms[i], ms[i + 1]));
        } else {
            assert(ms1[i] == ms.last());
            assert(ms1[i + 1] == moved(ms.last(), order[x]));
            assert(best_move(g, ms1[i], order, x) && ms1[i + 1] == moved(ms1[i], order[x]));
        }
    }
}

/// The first state with the smallest cut, after one more state.
proof fn lemma_min_cut_extend(g: &Graph, ms: Seq<Map<i64, usize>>, b: int, m: Map<i64, usize>) -> (nb: int)
    requires
        first_min_cut(g, ms, b),
    ensures
        nb == if graph_cut(g, m).len() < graph_cut(g, ms[b]).len() {
            ms.len() as int
        } else {
            b
        },
        first_min_cut(g, ms.push(m), nb),
{
    let ms1 = ms.push(m);
    let nb = if graph_cut(g, m).len() < graph_cut(g, ms[b]).len() {
        ms.len() as int
    } else {
        b
    };
    assert forall|i: int| 0 <= i < ms1.len() implies graph_cut(g, #[trigger] ms1[i]).len() >= graph_cut(
        g,
        ms1[nb],
    ).len() by {
        if i < ms.len() {
            assert(ms1[i] == ms[i]);
        }
        assert(ms1[b] == ms[b]);
    }
    assert forall|i: int| 0 <= i < nb implies graph_cut(g, #[trigger] ms1[i]).len() > graph_cut(g, ms1[nb]).len() by {
        if i < ms.len() {
            assert(ms1[i] == ms[i]);
        }
        assert(ms1[b] == ms[b]);
    }
    nb
}

/// The greedy search from `parts` and `mapping` over the nodes in `order`: returns the
/// parts and mapping of the state with the smallest cut, with the run and that state's
/// index in it.
#[verifier::rlimit(60)]
fn greedy_search(
    graph: &Graph,
    order: &Vec<i64>,
    parts: Vec<ahash::AHashSet<i64>>,
    mapping: HashMap<i64, usize>,
    max_iterations: usize,
) -> (r: (Vec<ahash::AHashSet<i64>>, HashMap<i64, usize>, Ghost<Seq<Map<i64, usize>>>, Ghost<int>))
    requires
        graph.wf(),
        node_order(graph, order@),
        parts@.len() == 2,
        max_iterations > 0 ==> forall|v: i64| graph.is_node(v) && #[trigger] mapping@.contains_key(v) ==> mapping@[v] < 2,
    ensures
        greedy_run(graph, order@, r.2@, max_iterations as nat),
        r.2@[0] == mapping@,
        first_min_cut(graph, r.2@, r.3@),
        r.1@ == r.2@[r.3@],
        r.0@.len() == 2,
        consistent(set_views(parts@), mapping@) ==> consistent(set_views(r.0@), r.1@),
{
    let ghost m0 = mapping@;
    let ghost cons0 = consistent(set_views(parts@), mapping@);
    let mut parts = parts;
    let mut mapping = mapping;
    let initial_cut = compute_cut_edges(graph, &mapping);
    let mut best_parts = clone_parts(&parts);
    let mut best_map = mapping.clone();
    let mut best_cut = initial_cut.len();
    let ghost mut ms = seq![m0];
    let ghost mut b: int = 0;
    let mut it: usize = 0;
    let mut done = false;
    proof {
        assert(run_steps(graph, order@, ms));
    }
    while it < max_iterations && !done
        invariant
            graph.wf(),
            node_order(graph, order@),
            ms.len() == it + 1,
            ms[0] == m0,
            ms.last() == mapping@,
            run_steps(graph, order@, ms),
            done ==> settled(graph, ms.last(), order@),
            it <= max_iterations,
            first_min_cut(graph, ms, b),
            best_map@ == ms[b],
            best_cut == graph_cut(graph, ms[b]).len(),
            parts@.len() == 2,
            best_parts@.len() == 2,
            max_iterations > 0 ==> forall|v: i64|
                graph.is_node(v) && #[trigger] mapping@.contains_key(v) ==> mapping@[v] < 2,
            cons0 ==> consistent(set_views(parts@), mapping@),
            cons0 ==> consistent(set_views(best_parts@), best_map@),
        decreases max_iterations - it + if done {
            0int
        } else {
            1int
        },
    {
        let best = find_best_move(graph, &mapping, order);
        match best {
            None => {
                done = true;
            },
            Some(x) => {
                let node = order[x];
                let ghost m = mapping@;
                let from = part_of(&mapping, node).unwrap();
                proof {
                    assert(order@.contains(node));
                }
                apply_move(&mut parts, &mut mapping, node, from);
                proof {
                    lemma_run_extend(graph, order@, ms, x as int);
                    ms = ms.push(mapping@);
                    assert forall|v: i64|
                        max_iterations > 0 && graph.is_node(v) && #[trigger] mapping@.contains_key(v) implies mapping@[v]
                        < 2 by {
                        if v != node {
                            assert(m.contains_key(v));
                        }
                    }
                }
                let cur = compute_cut_edges(graph, &mapping);
                let ghost nb = lemma_min_cut_extend(graph, ms.drop_last(), b, mapping@);
                proof {
                    assert(ms.drop_last().push(mapping@) =~= ms);
                }
                if cur.len() < best_cut {
                    best_cut = cur.len();
                    best_parts = clone_parts(&parts);
                    best_map = mapping.clone();
                }
                proof {
                    b = nb;
                }
                it = it + 1;
            },
        }
    }
    (best_parts, best_map, Ghost(ms), Ghost(b))
}

/// The parts and mapping that the greedy search starts from.
fn greedy_init(graph: &Graph, initial_partition: Option<Vec<ahash::AHashSet<i64>>>, max_iterations: usize) -> (r: (
    Vec<ahash::AHashSet<i64>>,
    HashMap<i64, usize>,
))
    requires
        graph.wf(),
        graph.node_count() > 0,
        greedy_input_ok(graph, initial_partition, max_iterations as nat),
    ensures
        r.0@.len() == 2,
        greedy_start(graph, initial_partition, r.1@),
        max_iterations > 0 ==> forall|v: i64| graph.is_node(v) && #[trigger] r.1@.contains_key(v) ==> r.1@[v] < 2,
        greedy_start_consistent(initial_partition, r.1@) ==> consistent(set_views(r.0@), r.1@),
{
    match initial_partition {
        Some(init) => {
            if init.len() >= 2 {
                let ghost i0 = init@;
                let m = last_set_mapping(&init);
                let mut parts = init;
                parts.truncate(2);
                proof {
                    assert(set_views(parts@) =~= set_views(i0).take(2));
                    assert forall|v: i64|
                        max_iterations > 0 && graph.is_node(v) && #[trigger] m@.contains_key(v) implies m@[v] < 2 by {
                        let views = set_views(i0);
                        assert(views[m@[v] as int].contains(v));
                        assert(views[m@[v] as int] == id_set_view(i0[m@[v] as int]));
                    }
                }
                return (parts, m);
            }
        },
        None => {},
    }
    let no_seeds: Vec<i64> = Vec::new();
    let ghost s0 = no_seeds@;
    let r0 = partition_bfs_level(graph, no_seeds, 2);
    match r0 {
        Ok(res0) => {
            proof {
                lemma_bfs_start(graph, s0, res0);
            }
            (res0.partitions, res0.node_to_partition)
        },
        Err(_) => {
            proof {
                assert(false);
            }
            (empty_parts(2), HashMap::new())
        },
    }
}

/// The ids of the graph's nodes, as a set, and in the order in which that set is walked.
fn node_set_order(graph: &Graph) -> (order: Vec<i64>)
    requires
        graph.wf(),
    ensures
        node_order(graph, order@),
{
    proof {
        graph.lemma_wf();
    }
    let ids = graph.all_entity_ids().unwrap();
    let mut all_nodes = id_set_new();
    let mut t: usize = 0;
    while t < ids.len()
        invariant
            t <= ids@.len(),
            forall|v: i64| #[trigger] id_set_view(all_nodes).contains(v) <==> ids@.take(t as int).contains(v),
        decreases ids.len() - t,
    {
        let x = ids[t];
        proof {
            let t1 = ids@.take(t + 1);
            let t0 = ids@.take(t as int);
            assert(t1 =~= t0.push(x));
            assert forall|v: i64| #[trigger] t1.contains(v) <==> t0.contains(v) || v == x by {
                if t1.contains(v) {
                    let y = choose|y: int| 0 <= y < t1.len() && t1[y] == v;
                    if y < t0.len() {
                        assert(t0[y] == v);
                    }
                }
                if t0.contains(v) {
                    let y = choose|y: int| 0 <= y < t0.len() && t0[y] == v;
                    assert(t1[y] == v);
                }
                if v == x {
                    assert(t1[t as int] == v);
                }
            }
        }
        id_set_insert(&mut all_nodes, x);
        t = t + 1;
    }
    let order = id_set_to_vec(&all_nodes);
    proof {
        assert(ids@.take(ids@.len() as int) =~= ids@);
        assert forall|v: i64| #[trigger] order@.contains(v) <==> graph.is_node(v) by {
            assert(order@.to_set().contains(v) <==> order@.contains(v));
            if graph.is_node(v) {
                assert(ids@[v - 1] == v);
            }
            if ids@.contains(v) {
                let y = choose|y: int| 0 <= y < ids@.len() && ids@[y] == v;
            }
        }
    }
    order
}

/// Partitions the graph into two parts by greedy moves: from the given sets (when at
/// least two are given) or the breadth-first partition from the first two ids, it
/// repeatedly moves the node whose move gains most (the first such node in the order in
/// which the graph's node set is walked) to the other part, for at most
/// `max_iterations` moves or until no move gains, and returns the state with the
/// smallest cut met on the way.
pub fn partition_greedy(
    graph: &Graph,
    initial_partition: Option<Vec<ahash::AHashSet<i64>>>,
    max_iterations: usize,
) -> (r: Result<PartitionResult, SqliteGraphError>)
    requires
        graph.wf(),
        greedy_input_ok(graph, initial_partition, max_iterations as nat),
    ensures
        r is Ok,
        r matches Ok(res) ==> greedy_result(graph, initial_partition, max_iterations as nat, res),
{
    let n = graph.entity_count();
    if n == 0 {
        let empty: HashMap<i64, usize> = HashMap::new();
        let cut = compute_cut_edges(graph, &empty);
        let res = PartitionResult { partitions: empty_parts(2), cut_edges: cut, node_to_partition: empty };
        proof {
            assert(res.node_to_partition@.dom() =~= Set::<i64>::empty());
        }
        return Ok(res);
    }
    let ghost init0 = initial_partition;
    let order = node_set_order(graph);
    let (parts, mapping) = greedy_init(graph, initial_partition, max_iterations);
    let ghost m0 = mapping@;
    let ghost p0 = parts@;
    let (best_parts, best_map, Ghost(ms), Ghost(b)) = greedy_search(graph, &order, parts, mapping, max_iterations);
    let cut_edges = compute_cut_edges(graph, &best_map);
    let res = PartitionResult { partitions: best_parts, cut_edges, node_to_partition: best_map };
    proof {
        assert(graph_cut(graph, ms[0]).len() >= graph_cut(graph, ms[b]).len());
        assert(greedy_run(graph, order@, ms, max_iterations as nat) && first_min_cut(graph, ms, b));
    }
    Ok(res)
}

/// The out-degree of `v`.
pub open spec fn out_degree(g: &Graph, v: i64) -> nat {
    g.succs(v).len()
}

/// `r` holds, without repeats, nodes of `avail` of the highest out-degrees, in
/// non-increasing order of degree: `k` of them, or all of `avail` when it has fewer.
pub open spec fn top_by_degree(g: &Graph, avail: Set<i64>, k: nat, r: Seq<i64>) -> bool {
    &&& r.no_duplicates()
    &&& r.len() <= k
    &&& forall|x: i64| #[trigger] r.contains(x) ==> avail.contains(x)
    &&& r.len() == k || forall|v: i64| #[trigger] avail.contains(v) ==> r.contains(v)
    &&& forall|i: int, j: int| 0 <= i < j < r.len() ==> out_degree(g, #[trigger] r[i]) >= out_degree(g, #[trigger] r[j])
    &&& forall|v: i64, i: int|
        #![trigger avail.contains(v), r[i]]
        avail.contains(v) && !r.contains(v) && 0 <= i < r.len() ==> out_degree(g, v) <= out_degree(g, r[i])
}

/// Indices that cover all of `0..n` are at least `n` many.
proof fn lemma_indices_cover(idxs: Seq<int>, n: int)
    requires
        n >= 0,
        forall|a: int| 0 <= a < n ==> #[trigger] idxs.contains(a),
    ensures
        idxs.len() >= n,
{
    let range = set_int_range(0, n);
    lemma_int_range(0, n);
    assert forall|a: int| #[trigger] range.contains(a) implies idxs.to_set().contains(a) by {
        assert(idxs.contains(a));
    }
    idxs.lemma_cardinality_of_set();
    lemma_len_subset(range, idxs.to_set());
}

/// Distinct indices in `0..n`, at least `n` many, cover all of `0..n`.
proof fn lemma_untaken_room(idxs: Seq<int>, n: int, a: int)
    requires
        0 <= a < n,
        idxs.no_duplicates(),
        idxs.len() >= n,
        forall|c: int| 0 <= c < idxs.len() ==> 0 <= #[trigger] idxs[c] < n,
    ensures
        idxs.contains(a),
{
    let range = set_int_range(0, n);
    lemma_int_range(0, n);
    idxs.unique_seq_to_set();
    assert forall|x: int| #[trigger] idxs.to_set().contains(x) implies range.contains(x) by {
        let c = choose|c: int| 0 <= c < idxs.len() && idxs[c] == x;
    }
    lemma_len_subset(idxs.to_set(), range);
    lemma_subset_equality(idxs.to_set(), range);
    assert(range.contains(a));
}

/// The out-degree of `v`, computed.
fn degree_of(graph: &Graph, v: i64) -> (d: usize)
    requires
        graph.wf(),
    ensures
        d == out_degree(graph, v),
{
    graph.fetch_outgoing(v).unwrap().len()
}

/// Up to `k` nodes of `available` of the highest out-degrees, highest first; among nodes
/// of equal degree, in the order in which the set is walked.
fn select_seeds_by_degree(graph: &Graph, k: usize, available: &ahash::AHashSet<i64>) -> (r: Vec<i64>)
    requires
        graph.wf(),
    ensures
        top_by_degree(graph, id_set_view(*available), k as nat, r@),
{
    let order = id_set_to_vec(available);
    let ghost avail = id_set_view(*available);
    let mut degs: Vec<usize> = Vec::new();
    let mut taken: Vec<bool> = Vec::new();
    let mut i: usize = 0;
    while i < order.len()
        invariant
            graph.wf(),
            i <= order@.len(),
            degs@.len() == i,
            taken@.len() == i,
            forall|a: int| 0 <= a < i ==> #[trigger] degs@[a] == out_degree(graph, order@[a]),
            forall|a: int| 0 <= a < i ==> !#[trigger] taken@[a],
        decreases order.len() - i,
    {
        degs.push(degree_of(graph, order[i]));
        taken.push(false);
        i = i + 1;
    }
    let mut r: Vec<i64> = Vec::new();
    let ghost mut idxs: Seq<int> = Seq::empty();
    while r.len() < k && r.len() < order.len()
        invariant
            order@.no_duplicates(),
            order@.to_set() == avail,
            degs@.len() == order@.len(),
            taken@.len() == order@.len(),
            forall|a: int| 0 <= a < order@.len() ==> #[trigger] degs@[a] == out_degree(graph, order@[a]),
            r@.len() <= k,
            idxs.len() == r@.len(),
            forall|c: int| 0 <= c < idxs.len() ==> 0 <= #[trigger] idxs[c] < order@.len() && order@[idxs[c]] == r@[c],
            forall|a: int| 0 <= a < order@.len() ==> (#[trigger] taken@[a] <==> r@.contains(order@[a])),
            r@.no_duplicates(),
            forall|c: int, d: int| 0 <= c < d < r@.len() ==> out_degree(graph, #[trigger] r@[c]) >= out_degree(graph, #[trigger] r@[d]),
            forall|a: int, c: int|
                0 <= a < order@.len() && !taken@[a] && 0 <= c < r@.len() ==> out_degree(graph, #[trigger] order@[a])
                    <= out_degree(graph, #[trigger] r@[c]),
        decreases order@.len() - r@.len(),
    {
        // some index is untaken: more indices than taken ones
        let mut best: usize = order.len();
        let mut j: usize = 0;
        while j < order.len()
            invariant
                degs@.len() == order@.len(),
                taken@.len() == order@.len(),
                j <= order@.len(),
                best == order@.len() ==> forall|a: int| 0 <= a < j ==> #[trigger] taken@[a],
                best < order@.len() ==> best < j && !taken@[best as int] && forall|a: int|
                    0 <= a < j && !#[trigger] taken@[a] ==> degs@[a] <= degs@[best as int],
                best <= order@.len(),
            decreases order.len() - j,
        {
            if !taken[j] {
                if best == order.len() || degs[j] > degs[best] {
                    best = j;
                }
            }
            j = j + 1;
        }
        proof {
            if best == order@.len() {
                // every index is taken, so r holds all of order: impossible with r shorter
                assert forall|a: int| 0 <= a < order@.len() implies #[trigger] r@.contains(order@[a]) by {
                    assert(taken@[a]);
                }
                assert forall|a: int| 0 <= a < order@.len() implies #[trigger] idxs.contains(a) by {
                    assert(r@.contains(order@[a]));
                    let c = choose|c: int| 0 <= c < r@.len() && r@[c] == order@[a];
                    assert(order@[idxs[c]] == order@[a]);
                    assert(idxs[c] == a);
                }
                lemma_indices_cover(idxs, order@.len() as int);
            }
        }
        let x = order[best];
        let ghost r0 = r@;
        r.push(x);
        taken.set(best, true);
        proof {
            idxs = idxs.push(best as int);
            assert(!r0.contains(x));
            assert forall|c: int, d: int| 0 <= c < d < r@.len() implies r@[c] != r@[d] by {
                if d == r@.len() - 1 {
                    assert(r0.contains(r0[c]));
                }
            }
            assert forall|a: int| 0 <= a < order@.len() implies (#[trigger] taken@[a] <==> r@.contains(order@[a])) by {
                if r@.contains(order@[a]) {
                    let c = choose|c: int| 0 <= c < r@.len() && r@[c] == order@[a];
                    if c < r0.len() {
                        assert(r0[c] == order@[a]);
                    } else {
                        assert(order@[a] == x);
                        assert(order@[best as int] == order@[a]);
                    }
                }
                if a == best {
                    assert(r@[r@.len() - 1] == x);
                } else if taken@[a] {
                    let c = choose|c: int| 0 <= c < r0.len() && r0[c] == order@[a];
                    assert(r@[c] == order@[a]);
                }
            }
        }
    }
    proof {
        assert forall|v: i64| #[trigger] r@.contains(v) implies avail.contains(v) by {
            let c = choose|c: int| 0 <= c < r@.len() && r@[c] == v;
            assert(order@[idxs[c]] == v);
            assert(order@.contains(v));
            assert(order@.to_set().contains(v));
        }
        assert forall|v: i64, c: int|
            #![trigger avail.contains(v), r@[c]]
            avail.contains(v) && !r@.contains(v) && 0 <= c < r@.len() implies out_degree(graph, v) <= out_degree(graph, r@[c]) by {
            assert(order@.to_set().contains(v));
            let a = choose|a: int| 0 <= a < order@.len() && order@[a] == v;
            assert(!taken@[a]);
        }
        if r@.len() < k {
            assert(r@.len() >= order@.len());
            assert forall|v: i64| #[trigger] avail.contains(v) implies r@.contains(v) by {
                assert(order@.to_set().contains(v));
                let a = choose|a: int| 0 <= a < order@.len() && order@[a] == v;
                if !taken@[a] {
                    assert forall|c: int, d: int| 0 <= c < d < idxs.len() implies idxs[c] != idxs[d] by {
                        assert(r@[c] != r@[d]);
                    }
                    lemma_untaken_room(idxs, order@.len() as int, a);
                    let c = choose|c: int| 0 <= c < idxs.len() && idxs[c] == a;
                    assert(r@[c] == v);
                }
            }
        }
    }
    r
}

/// `from` reaches some node of `targets` over at most `d` edges.
pub open spec fn target_within(g: &Graph, from: i64, targets: Set<i64>, d: nat) -> bool {
    exists|t: i64| #[trigger] targets.contains(t) && within(g, from, t, d)
}

/// From a single seed that is a node, reaching from the seed is reaching from the node.
proof fn lemma_single_seed(g: &Graph, from: i64, v: i64, d: nat)
    requires
        g.is_node(from),
    ensures
        near_within(g, seq![from], v, d) <==> within(g, from, v, d),
{
    let eff = seq![from];
    if within(g, from, v, d) {
        assert(seed_reaches(g, eff, 0, v, d));
    }
    if near_within(g, eff, v, d) {
        let i = choose|i: int| #[trigger] seed_reaches(g, eff, i, v, d);
        assert(i == 0);
    }
}

/// Nothing but `from` is reached from an id that is not a node.
proof fn lemma_within_from_outside(g: &Graph, from: i64, v: i64, d: nat)
    requires
        g.wf(),
        !g.is_node(from),
        within(g, from, v, d),
    ensures
        v == from,
    decreases d,
{
    if v != from {
        g.lemma_wf();
        let u = choose|u: i64| #[trigger] g.has_edge(u, v) && within(g, from, u, (d - 1) as nat);
        lemma_within_from_outside(g, from, u, (d - 1) as nat);
    }
}

/// The number of edges on a shortest path from `from` to a node of `targets`
/// (`usize::MAX` when no node of `targets` can be reached; 0 when `from` is in it).
fn shortest_distance_to_targets(graph: &Graph, from: i64, targets: &ahash::AHashSet<i64>) -> (r: usize)
    requires
        graph.wf(),
    ensures
        r != usize::MAX ==> target_within(graph, from, id_set_view(*targets), r as nat) && (r == 0
            || !target_within(graph, from, id_set_view(*targets), (r - 1) as nat)),
        r == usize::MAX ==> forall|d: nat| !#[trigger] target_within(graph, from, id_set_view(*targets), d),
{
    let ghost ts = id_set_view(*targets);
    if id_set_contains(targets, from) {
        proof {
            assert(within(graph, from, from, 0));
            assert(target_within(graph, from, ts, 0));
        }
        return 0;
    }
    let n = graph.entity_count();
    proof {
        graph.lemma_wf();
    }
    if from < 1 || from > n as i64 {
        proof {
            assert forall|d: nat| !#[trigger] target_within(graph, from, ts, d) by {
                if target_within(graph, from, ts, d) {
                    let t = choose|t: i64| #[trigger] ts.contains(t) && within(graph, from, t, d);
                    lemma_within_from_outside(graph, from, t, d);
                }
            }
        }
        return usize::MAX;
    }
    let mut eff: Vec<i64> = Vec::new();
    eff.push(from);
    let ghost e = eff@;
    proof {
        assert(e =~= seq![from]);
    }
    let mut lab: Vec<Option<usize>> = Vec::new();
    let mut lvl: Vec<usize> = Vec::new();
    let mut t: usize = 0;
    while t < n
        invariant
            n == graph.node_count(),
            t <= n,
            lab@.len() == t,
            lvl@.len() == t,
            forall|x: int| 0 <= x < t ==> #[trigger] lab@[x] is None,
            forall|x: int| 0 <= x < t ==> #[trigger] lvl@[x] == 0,
        decreases n - t,
    {
        lab.push(None);
        lvl.push(0);
        t = t + 1;
    }
    lab.set((from - 1) as usize, Some(0));
    let mut frontier: Vec<i64> = Vec::new();
    frontier.push(from);
    let mut assigned: usize = 1;
    proof {
        assert forall|v: i64| graph.is_node(v) implies #[trigger] lab_at(lab@, v) == if v == from {
            Some(0usize)
        } else {
            None
        } && lvl_at(lvl@, v) == 0 by {}
        assert forall|v: i64| graph.is_node(v) implies (#[trigger] lab_at(lab@, v) is Some <==> near_within(
            graph,
            e,
            v,
            0,
        )) by {
            lemma_single_seed(graph, from, v, 0);
        }
        assert forall|v: i64|
            graph.is_node(v) && #[trigger] lab_at(lab@, v) is Some implies lvl_at(lvl@, v) <= 0 && seed_dist(
                graph,
                e,
                v,
                lvl_at(lvl@, v) as nat,
            ) && first_seed(graph, e, v, lvl_at(lvl@, v) as nat, lab_at(lab@, v)->0 as int) by {
            assert(seed_reaches(graph, e, 0, v, 0));
        }
        assert(labels_ok(graph, e, lab@, lvl@, 0));
        assert forall|v: i64| #[trigger]
            frontier@.contains(v) <==> graph.is_node(v) && lab_at(lab@, v) is Some && lvl_at(lvl@, v) == 0 by {
            if v == from {
                assert(frontier@[0] == from);
            }
        }
        assert(labeled(graph, lab@) =~= set![from]);
        assert(frontier@.contains(from));
    }
    let mut level: usize = 0;
    while frontier.len() > 0
        invariant
            graph.wf(),
            n == graph.node_count(),
            graph.is_node(from),
            e == eff@,
            e == seq![from],
            ts == id_set_view(*targets),
            labels_ok(graph, e, lab@, lvl@, level as nat),
            frontier_ok(graph, lab@, lvl@, frontier@, level as nat),
            labels_in_range(graph, lab@, e.len()),
            labeled(graph, lab@).len() == assigned,
            assigned <= n,
            level <= assigned,
            frontier@.len() > 0 ==> level < assigned,
            level == 0 || !target_within(graph, from, ts, (level - 1) as nat),
        decreases n - assigned + frontier@.len(),
    {
        let mut a: usize = 0;
        while a < frontier.len()
            invariant
                graph.wf(),
                n == graph.node_count(),
                graph.is_node(from),
                e == seq![from],
                a <= frontier@.len(),
                ts == id_set_view(*targets),
                forall|b: int| 0 <= b < a ==> !ts.contains(#[trigger] frontier@[b]),
                labels_ok(graph, e, lab@, lvl@, level as nat),
                frontier_ok(graph, lab@, lvl@, frontier@, level as nat),
                assigned <= n,
                level < assigned,
                level == 0 || !target_within(graph, from, ts, (level - 1) as nat),
            decreases frontier.len() - a,
        {
            if id_set_contains(targets, frontier[a]) {
                proof {
                    let x = frontier@[a as int];
                    assert(frontier@.contains(x));
                    assert(seed_dist(graph, e, x, level as nat));
                    lemma_single_seed(graph, from, x, level as nat);
                    assert(target_within(graph, from, ts, level as nat));
                }
                return level;
            }
            a = a + 1;
        }
        proof {
            assert forall|tt: i64| #[trigger] ts.contains(tt) implies !within(graph, from, tt, level as nat) by {
                if within(graph, from, tt, level as nat) {
                    lemma_single_seed(graph, from, tt, level as nat);
                    if level > 0 && within(graph, from, tt, (level - 1) as nat) {
                        assert(target_within(graph, from, ts, (level - 1) as nat));
                    }
                    if level > 0 {
                        lemma_single_seed(graph, from, tt, (level - 1) as nat);
                    }
                    assert(seed_dist(graph, e, tt, level as nat));
                    lemma_near_is_node(graph, e, tt, level as nat);
                    assert(lab_at(lab@, tt) is Some);
                    lemma_seed_dist_unique(graph, e, tt, lvl_at(lvl@, tt) as nat, level as nat);
                    assert(frontier@.contains(tt));
                    let b = choose|b: int| 0 <= b < frontier@.len() && frontier@[b] == tt;
                }
            }
        }
        let next = bfs_expand(graph, &eff, &mut lab, &mut lvl, &frontier, level, &mut assigned);
        proof {
            if next@.len() > 0 {
                assert(next@.contains(next@[0]));
            }
        }
        frontier = next;
        level = level + 1;
    }
    proof {
        assert forall|w: i64| !#[trigger] seed_dist(graph, e, w, level as nat) by {
            if seed_dist(graph, e, w, level as nat) {
                lemma_near_is_node(graph, e, w, level as nat);
                assert(lab_at(lab@, w) is Some);
                lemma_seed_dist_unique(graph, e, w, lvl_at(lvl@, w) as nat, level as nat);
                assert(frontier@.contains(w));
            }
        }
        assert forall|d: nat| !#[trigger] target_within(graph, from, ts, d) by {
            if target_within(graph, from, ts, d) {
                let tt = choose|tt: i64| #[trigger] ts.contains(tt) && within(graph, from, tt, d);
                lemma_single_seed(graph, from, tt, d);
                let d0 = lemma_has_seed_dist(graph, e, tt, d);
                if d0 >= level {
                    lemma_no_gap(graph, e, tt, d0, level as nat);
                } else {
                    lemma_near_mono(graph, e, tt, d0, (level - 1) as nat);
                    lemma_single_seed(graph, from, tt, (level - 1) as nat);
                    assert(target_within(graph, from, ts, (level - 1) as nat));
                }
            }
        }
    }
    usize::MAX
}

/// The settings of the k-way partition.
#[derive(Debug)]
pub struct PartitionConfig {
    /// The number of parts (at least 2).
    pub k: usize,
    /// The size that growth stops a part at; `usize::MAX` leaves the limit to
    /// `max_imbalance_ppm`.
    pub max_size: usize,
    /// How far past an even share, in millionths of it, growth may take a part when
    /// `max_size` sets no limit.
    pub max_imbalance_ppm: i64,
    /// The seed of each part, if given.
    pub seeds: Option<Vec<i64>>,
}

impl Default for PartitionConfig {
    fn default() -> (c: Self)
        ensures
            c.k == 2,
            c.max_size == usize::MAX,
            c.max_imbalance_ppm == 100_000,
            c.seeds is None,
    {
        PartitionConfig { k: 2, max_size: usize::MAX, max_imbalance_ppm: 100_000, seeds: None }
    }
}

/// The size at which growth stops a part: `min(max_size, n)` when `max_size` is set;
/// otherwise an even share `max(n / parts, 1)` enlarged by the allowed imbalance,
/// rounded down (0 when the imbalance takes it below zero), at most `usize::MAX`.
pub open spec fn growth_limit(n: nat, parts: nat, max_size: nat, ppm: int) -> nat {
    if max_size == usize::MAX {
        let share = if n / parts >= 1 {
            n / parts
        } else {
            1
        };
        let factor = 1_000_000 + ppm;
        if factor <= 0 {
            0
        } else {
            let v = (share * factor) / 1_000_000;
            if v > usize::MAX {
                usize::MAX as nat
            } else {
                v as nat
            }
        }
    } else if max_size < n {
        max_size
    } else {
        n
    }
}

/// The size at which growth stops a part.
fn growth_limit_of(n: usize, parts: usize, max_size: usize, ppm: i64) -> (r: usize)
    requires
        parts > 0,
        n < i64::MAX,
    ensures
        r == growth_limit(n as nat, parts as nat, max_size as nat, ppm as int),
{
    if max_size == usize::MAX {
        let q = n / parts;
        let share: u128 = if q >= 1 {
            q as u128
        } else {
            1
        };
        let factor: i128 = 1_000_000i128 + ppm as i128;
        if factor <= 0 {
            0
        } else {
            proof {
                assert(share <= i64::MAX);
                assert(factor <= 1_000_000 + i64::MAX);
                assert(share * factor <= (i64::MAX as int) * (1_000_000 + i64::MAX)) by (nonlinear_arith)
                    requires
                        share <= i64::MAX,
                        0 < factor <= 1_000_000 + i64::MAX,
                ;
            }
            let v: u128 = (share * (factor as u128)) / 1_000_000;
            if v > usize::MAX as u128 {
                usize::MAX
            } else {
                v as usize
            }
        }
    } else if max_size < n {
        max_size
    } else {
        n
    }
}

/// The node ids of the graph.
pub open spec fn node_set(g: &Graph) -> Set<i64> {
    Set::new(|v: i64| g.is_node(v))
}

/// The seeds of the k-way partition, one per part (`ek` of them): with seeds given, the
/// first of them, then nodes not listed yet; otherwise the nodes of the highest
/// out-degrees.
pub open spec fn kway_seeds(g: &Graph, seeds: Option<Vec<i64>>, ek: nat, eff: Seq<i64>) -> bool {
    &&& eff.len() == ek
    &&& match seeds {
        Some(s) => {
            let p = if s@.len() < ek {
                s@.len()
            } else {
                ek
            };
            &&& eff.take(p as int) == s@.take(p as int)
            &&& forall|i: int| p <= i < ek ==> g.is_node(#[trigger] eff[i]) && !eff.take(i).contains(eff[i])
        },
        None => top_by_degree(g, node_set(g), ek, eff),
    }
}

/// The graph's nodes as a set.
fn graph_node_set(graph: &Graph) -> (s: ahash::AHashSet<i64>)
    requires
        graph.wf(),
    ensures
        id_set_view(s) == node_set(graph),
{
    proof {
        graph.lemma_wf();
    }
    let ids = graph.all_entity_ids().unwrap();
    let mut all_nodes = id_set_new();
    let mut t: usize = 0;
    while t < ids.len()
        invariant
            t <= ids@.len(),
            forall|v: i64| #[trigger] id_set_view(all_nodes).contains(v) <==> ids@.take(t as int).contains(v),
        decreases ids.len() - t,
    {
        let x = ids[t];
        proof {
            let t1 = ids@.take(t + 1);
            let t0 = ids@.take(t as int);
            assert(t1 =~= t0.push(x));
            assert forall|v: i64| #[trigger] t1.contains(v) <==> t0.contains(v) || v == x by {
                if t1.contains(v) {
                    let y = choose|y: int| 0 <= y < t1.len() && t1[y] == v;
                    if y < t0.len() {
                        assert(t0[y] == v);
                    }
                }
                if t0.contains(v) {
                    let y = choose|y: int| 0 <= y < t0.len() && t0[y] == v;
                    assert(t1[y] == v);
                }
                if v == x {
                    assert(t1[t as int] == v);
                }
            }
        }
        id_set_insert(&mut all_nodes, x);
        t = t + 1;
    }
    proof {
        assert(ids@.take(ids@.len() as int) =~= ids@);
        assert forall|v: i64| #[trigger] id_set_view(all_nodes).contains(v) <==> node_set(graph).contains(v) by {
            if graph.is_node(v) {
                assert(ids@[v - 1] == v);
            }
            if ids@.contains(v) {
                let y = choose|y: int| 0 <= y < ids@.len() && ids@[y] == v;
            }
        }
        assert(id_set_view(all_nodes) =~= node_set(graph));
    }
    all_nodes
}

/// A copy of the ids.
fn copy_seeds(v: &Vec<i64>) -> (r: Vec<i64>)
    ensures
        r@ == v@,
{
    let mut r: Vec<i64> = Vec::new();
    let mut i: usize = 0;
    while i < v.len()
        invariant
            i <= v@.len(),
            r@ == v@.take(i as int),
        decreases v.len() - i,
    {
        r.push(v[i]);
        i = i + 1;
        proof {
            assert(r@ =~= v@.take(i as int));
        }
    }
    proof {
        assert(v@.take(v@.len() as int) =~= v@);
    }
    r
}

/// Whether `x` is among the ids of `v`.
fn contains_id(v: &Vec<i64>, x: i64) -> (b: bool)
    ensures
        b == v@.contains(x),
{
    let mut i: usize = 0;
    while i < v.len()
        invariant
            i <= v@.len(),
            forall|a: int| 0 <= a < i ==> v@[a] != x,
        decreases v.len() - i,
    {
        if v[i] == x {
            return true;
        }
        i = i + 1;
    }
    false
}

/// The seeds of the k-way partition.
fn kway_effective_seeds(graph: &Graph, seeds: &Option<Vec<i64>>, ek: usize, all_nodes: &ahash::AHashSet<i64>) -> (eff: Vec<i64>)
    requires
        graph.wf(),
        ek <= graph.node_count(),
        id_set_view(*all_nodes) == node_set(graph),
    ensures
        kway_seeds(graph, *seeds, ek as nat, eff@),
{
    let mut eff = match seeds {
        Some(s) => copy_seeds(s),
        None => select_seeds_by_degree(graph, ek, all_nodes),
    };
    let ghost given = eff@;
    eff.truncate(ek);
    let ghost p = eff@.len();
    proof {
        if given.len() > ek {
            assert(eff@ =~= given.take(ek as int));
        } else {
            assert(eff@ =~= given);
        }
    }
    let order = id_set_to_vec(all_nodes);
    let mut t: usize = 0;
    while t < order.len() && eff.len() < ek
        invariant
            graph.wf(),
            t <= order@.len(),
            order@.no_duplicates(),
            order@.to_set() == node_set(graph),
            p <= eff@.len() <= ek,
            eff@.take(p as int) == given.take(p as int),
            p == (if given.len() < ek { given.len() } else { ek as nat }),
            forall|i: int| p <= i < eff@.len() ==> graph.is_node(#[trigger] eff@[i]) && !eff@.take(i).contains(eff@[i]),
            forall|a: int| 0 <= a < t ==> #[trigger] eff@.contains(order@[a]) || eff@.len() == ek,
        decreases order@.len() - t,
    {
        let x = order[t];
        proof {
            assert(order@.to_set().contains(x));
        }
        if !contains_id(&eff, x) {
            let ghost e0 = eff@;
            eff.push(x);
            proof {
                assert(eff@.take(e0.len() as int) =~= e0);
                assert(eff@.take(p as int) =~= e0.take(p as int));
                assert forall|i: int| p <= i < eff@.len() implies graph.is_node(#[trigger] eff@[i]) && !eff@.take(i).contains(eff@[i]) by {
                    if i < e0.len() {
                        assert(eff@.take(i) =~= e0.take(i));
                        assert(eff@[i] == e0[i]);
                    }
                }
                assert forall|a: int| 0 <= a < t + 1 implies #[trigger] eff@.contains(order@[a]) || eff@.len() == ek by {
                    if a < t && e0.contains(order@[a]) {
                        let y = choose|y: int| 0 <= y < e0.len() && e0[y] == order@[a];
                        assert(eff@[y] == order@[a]);
                    }
                    if a == t {
                        assert(eff@[e0.len() as int] == x);
                    }
                }
            }
        }
        t = t + 1;
    }
    proof {
        if eff@.len() < ek {
            // every node is listed, so at least `n >= ek` ids are
            assert forall|v: i64| graph.is_node(v) implies #[trigger] eff@.to_set().contains(v) by {
                assert(order@.to_set().contains(v));
                let a = choose|a: int| 0 <= a < order@.len() && order@[a] == v;
                assert(eff@.contains(order@[a]));
            }
            lemma_node_set_len_lower(graph, eff@);
        }
        match seeds {
            Some(s) => {},
            None => {
                if given.len() < ek {
                    assert forall|v: i64| graph.is_node(v) implies #[trigger] given.to_set().contains(v) by {
                        assert(node_set(graph).contains(v));
                        assert(given.contains(v));
                    }
                    lemma_node_set_len_lower(graph, given);
                }
                assert(given.len() == ek);
                assert(eff@.len() == ek);
                assert(eff@.take(p as int) =~= eff@);
                assert(given.take(p as int) =~= given);
            },
        }
    }
    eff
}

/// A sequence that holds every node has at least as many items as the graph has nodes.
proof fn lemma_node_set_len_lower(g: &Graph, s: Seq<i64>)
    requires
        g.wf(),
        forall|v: i64| g.is_node(v) ==> #[trigger] s.to_set().contains(v),
    ensures
        s.len() >= g.node_count(),
{
    let ids = node_ids(g.node_count());
    g.lemma_wf();
    assert forall|i: int, j: int| 0 <= i < j < ids.len() implies ids[i] != ids[j] by {}
    assert(ids.no_duplicates());
    ids.unique_seq_to_set();
    assert forall|v: i64| #[trigger] ids.to_set().contains(v) implies s.to_set().contains(v) by {
        let i = choose|i: int| 0 <= i < ids.len() && ids[i] == v;
        assert(g.is_node(v));
    }
    s.lemma_cardinality_of_set();
    lemma_len_subset(ids.to_set(), s.to_set());
}

/// The state of the k-way partition once the seeds are placed: each placed node is a
/// node with a part below `ek`, `un` holds the nodes not placed yet, every seed is
/// placed at the last index at which it stands, and the parts hold the placed nodes as
/// `bfs_member` says.
spec fn kway_state(
    g: &Graph,
    eff: Seq<i64>,
    ek: nat,
    parts: Seq<ahash::AHashSet<i64>>,
    m: Map<i64, usize>,
    un: Set<i64>,
) -> bool {
    &&& eff.len() == ek
    &&& parts.len() == ek
    &&& forall|v: i64| #[trigger] m.contains_key(v) ==> g.is_node(v) && m[v] < ek
    &&& forall|v: i64| #[trigger] un.contains(v) <==> g.is_node(v) && !m.contains_key(v)
    &&& forall|v: i64| #[trigger] is_seed(g, eff, v) ==> m.contains_key(v) && last_index(eff, v, m[v] as int)
    &&& forall|j: int, v: i64|
        0 <= j < ek ==> (#[trigger] id_set_view(parts[j]).contains(v) <==> bfs_member(g, eff, m, j, v))
}

/// Places each seed that is a node in the part of its index; returns the growth queue
/// of the placed seeds and the number of placements.
fn kway_plant(
    graph: &Graph,
    eff: &Vec<i64>,
    parts: &mut Vec<ahash::AHashSet<i64>>,
    mapping: &mut HashMap<i64, usize>,
) -> (r: (VecDeque<(i64, usize)>, usize))
    requires
        graph.wf(),
        eff@.len() == old(parts)@.len(),
        forall|j: int|
            0 <= j < old(parts)@.len() ==> #[trigger] id_set_view(old(parts)@[j]) == Set::<i64>::empty(),
        old(mapping)@.dom() == Set::<i64>::empty(),
    ensures
        final(parts)@.len() == old(parts)@.len(),
        forall|v: i64| #[trigger]
            final(mapping)@.contains_key(v) ==> graph.is_node(v) && final(mapping)@[v] < eff@.len(),
        forall|v: i64| #[trigger] final(mapping)@.contains_key(v) <==> is_seed(graph, eff@, v),
        forall|v: i64| #[trigger] is_seed(graph, eff@, v) ==> last_index(eff@, v, final(mapping)@[v] as int),
        forall|j: int, v: i64|
            0 <= j < eff@.len() ==> (#[trigger] id_set_view(final(parts)@[j]).contains(v) <==> bfs_member(
                graph,
                eff@,
                final(mapping)@,
                j,
                v,
            )),
        forall|a: int| 0 <= a < r.0@.len() ==> graph.is_node((#[trigger] r.0@[a]).0) && r.0@[a].1 < eff@.len(),
        forall|j: int| 0 <= j < eff@.len() && graph.is_node(#[trigger] eff@[j]) ==> r.0@.contains((eff@[j], j as usize)),
        r.1 <= eff@.len(),
{
    let n = graph.entity_count();
    proof {
        graph.lemma_wf();
    }
    let ghost e = eff@;
    let mut queue: VecDeque<(i64, usize)> = VecDeque::new();
    let mut count: usize = 0;
    let mut i: usize = 0;
    while i < eff.len()
        invariant
            graph.wf(),
            n == graph.node_count(),
            n < i64::MAX,
            e == eff@,
            i <= e.len(),
            parts@.len() == e.len(),
            count <= i,
            forall|v: i64| #[trigger]
                mapping@.contains_key(v) <==> graph.is_node(v) && e.take(i as int).contains(v),
            forall|v: i64| #[trigger]
                mapping@.contains_key(v) ==> mapping@[v] < i && e[mapping@[v] as int] == v && forall|y: int|
                    mapping@[v] < y < i ==> e[y] != v,
            forall|j: int, v: i64|
                0 <= j < parts@.len() ==> (#[trigger] id_set_view(parts@[j]).contains(v) <==> j < i && e[j]
                    == v && graph.is_node(v)),
            forall|a: int| 0 <= a < queue@.len() ==> graph.is_node((#[trigger] queue@[a]).0) && queue@[a].1 < e.len(),
            forall|j: int| 0 <= j < i && graph.is_node(#[trigger] e[j]) ==> queue@.contains((e[j], j as usize)),
        decreases e.len() - i,
    {
        let s = eff[i];
        proof {
            let t1 = e.take(i + 1);
            let t0 = e.take(i as int);
            assert(t1 =~= t0.push(s));
            assert forall|v: i64| #[trigger] t1.contains(v) <==> t0.contains(v) || v == s by {
                if t1.contains(v) {
                    let y = choose|y: int| 0 <= y < t1.len() && t1[y] == v;
                    if y < i {
                        assert(t0[y] == v);
                    }
                }
                if t0.contains(v) {
                    let y = choose|y: int| 0 <= y < t0.len() && t0[y] == v;
                    assert(t1[y] == v);
                }
                if v == s {
                    assert(t1[i as int] == v);
                }
            }
        }
        if 1 <= s && s <= n as i64 {
            let ghost p0 = parts@;
            add_to_part(parts, i, s);
            proof {
                assert forall|j: int, v: i64|
                    0 <= j < parts@.len() implies (#[trigger] id_set_view(parts@[j]).contains(v) <==> j < i + 1
                        && e[j] == v && graph.is_node(v)) by {
                    if j != i {
                        assert(parts@[j] == p0[j]);
                    }
                }
            }
            mapping.insert(s, i);
            let ghost q0 = queue@;
            queue.push_back((s, i));
            count = count + 1;
            proof {
                assert forall|a: int| 0 <= a < queue@.len() implies graph.is_node((#[trigger] queue@[a]).0)
                    && queue@[a].1 < e.len() by {
                    if a < q0.len() {
                        assert(queue@[a] == q0[a]);
                    }
                }
                assert forall|j: int| 0 <= j < i + 1 && graph.is_node(#[trigger] e[j]) implies queue@.contains((e[j], j as usize)) by {
                    if j < i {
                        let a = choose|a: int| 0 <= a < q0.len() && q0[a] == (e[j], j as usize);
                        assert(queue@[a] == q0[a]);
                    } else {
                        assert(queue@[q0.len() as int] == (s, i));
                    }
                }
            }
        } else {
            proof {
                assert forall|j: int| 0 <= j < i + 1 && graph.is_node(#[trigger] e[j]) implies queue@.contains((e[j], j as usize)) by {
                    if j == i {
                        graph.lemma_wf();
                    }
                }
            }
        }
        i = i + 1;
    }
    proof {
        assert(e.take(e.len() as int) =~= e);
        assert forall|v: i64| #[trigger] is_seed(graph, e, v) implies last_index(e, v, mapping@[v] as int) by {
            assert(e.take(e.len() as int).contains(v));
            assert(mapping@.contains_key(v));
        }
        assert forall|j: int, v: i64|
            0 <= j < e.len() implies (#[trigger] id_set_view(parts@[j]).contains(v) <==> bfs_member(
                graph,
                e,
                mapping@,
                j,
                v,
            )) by {
            if id_set_view(parts@[j]).contains(v) {
                assert(e.contains(v));
            }
        }
    }
    (queue, count)
}

/// The nodes that no part holds yet, as a set.
fn unplaced_nodes(graph: &Graph, order: &Vec<i64>, mapping: &HashMap<i64, usize>) -> (un: ahash::AHashSet<i64>)
    requires
        graph.wf(),
        node_order(graph, order@),
    ensures
        forall|v: i64| #[trigger] id_set_view(un).contains(v) <==> graph.is_node(v) && !mapping@.contains_key(v),
{
    let mut un = id_set_new();
    let mut t: usize = 0;
    while t < order.len()
        invariant
            t <= order@.len(),
            forall|v: i64| #[trigger]
                id_set_view(un).contains(v) <==> order@.take(t as int).contains(v) && !mapping@.contains_key(v),
        decreases order.len() - t,
    {
        let x = order[t];
        proof {
            let t1 = order@.take(t + 1);
            let t0 = order@.take(t as int);
            assert(t1 =~= t0.push(x));
            assert forall|v: i64| #[trigger] t1.contains(v) <==> t0.contains(v) || v == x by {
                if t1.contains(v) {
                    let y = choose|y: int| 0 <= y < t1.len() && t1[y] == v;
                    if y < t0.len() {
                        assert(t0[y] == v);
                    }
                }
                if t0.contains(v) {
                    let y = choose|y: int| 0 <= y < t0.len() && t0[y] == v;
                    assert(t1[y] == v);
                }
                if v == x {
                    assert(t1[t as int] == v);
                }
            }
        }
        if part_of(mapping, x).is_none() {
            id_set_insert(&mut un, x);
        }
        t = t + 1;
    }
    proof {
        assert(order@.take(order@.len() as int) =~= order@);
    }
    un
}

/// The progress message of the k-way partition.
fn kway_message(current: usize, total: usize) -> (s: String)
    ensures
        s@ == "K-way partition: assigned "@ + decimal(current as int) + "/"@ + decimal(total as int) + " nodes"@,
{
    let mut msg = String::from_str("K-way partition: assigned ");
    msg.append(usize_text(current).as_str());
    msg.append("/");
    msg.append(usize_text(total).as_str());
    msg.append(" nodes");
    msg
}

/// The growth of a part from the node of `item` is done: the part of `item` has
/// reached `limit`, or every target of the node is placed.
spec fn grown_out(
    g: &Graph,
    parts: Seq<ahash::AHashSet<i64>>,
    m: Map<i64, usize>,
    limit: usize,
    item: (i64, usize),
) -> bool {
    id_set_view(parts[item.1 as int]).len() >= limit || forall|y: i64| #[trigger]
        g.has_edge(item.0, y) ==> m.contains_key(y)
}

/// `a` plus `b`, held at `usize::MAX`.
spec fn sat_add(a: int, b: int) -> int {
    if a + b > usize::MAX {
        usize::MAX as int
    } else {
        a + b
    }
}

/// Finished growth stays finished while parts and the mapping only gain members.
proof fn lemma_grown_out_mono(
    g: &Graph,
    p0: Seq<ahash::AHashSet<i64>>,
    m0: Map<i64, usize>,
    p1: Seq<ahash::AHashSet<i64>>,
    m1: Map<i64, usize>,
    limit: usize,
    item: (i64, usize),
)
    requires
        grown_out(g, p0, m0, limit, item),
        item.1 < p0.len(),
        p1.len() == p0.len(),
        forall|j: int|
            0 <= j < p0.len() ==> id_set_view(#[trigger] p0[j]).subset_of(id_set_view(p1[j])) && id_set_view(
                p1[j],
            ).finite(),
        forall|v: i64| #[trigger] m0.contains_key(v) ==> m1.contains_key(v),
    ensures
        grown_out(g, p1, m1, limit, item),
{
    let j = item.1 as int;
    assert(id_set_view(p0[j]).subset_of(id_set_view(p1[j])));
    vstd::set_lib::lemma_len_subset(id_set_view(p0[j]), id_set_view(p1[j]));
}

/// Grows the parts from the queue: a node taken from the queue whose part is below
/// `limit` brings each of its unplaced targets into its part; reports every tenth
/// placement.
fn kway_grow<F: ProgressCallback>(
    graph: &Graph,
    eff: &Vec<i64>,
    limit: usize,
    parts: &mut Vec<ahash::AHashSet<i64>>,
    mapping: &mut HashMap<i64, usize>,
    unassigned: &mut ahash::AHashSet<i64>,
    queue: VecDeque<(i64, usize)>,
    report: &mut usize,
    total: usize,
    progress: &F,
)
    requires
        graph.wf(),
        kway_state(graph, eff@, eff@.len(), old(parts)@, old(mapping)@, id_set_view(*old(unassigned))),
        forall|a: int| 0 <= a < queue@.len() ==> graph.is_node((#[trigger] queue@[a]).0) && queue@[a].1 < eff@.len(),
    ensures
        kway_state(graph, eff@, eff@.len(), final(parts)@, final(mapping)@, id_set_view(*final(unassigned))),
        forall|v: i64| #[trigger]
            old(mapping)@.contains_key(v) ==> final(mapping)@.contains_key(v) && final(mapping)@[v] == old(
                mapping,
            )@[v],
        forall|a: int|
            0 <= a < queue@.len() ==> grown_out(graph, final(parts)@, final(mapping)@, limit, #[trigger] queue@[a]),
        forall|v: i64| #[trigger]
            final(mapping)@.contains_key(v) && !old(mapping)@.contains_key(v) ==> grown_out(
                graph,
                final(parts)@,
                final(mapping)@,
                limit,
                (v, final(mapping)@[v]),
            ),
        *final(report) as int == sat_add(
            *old(report) as int,
            id_set_view(*old(unassigned)).len() - id_set_view(*final(unassigned)).len(),
        ),
{
    let ghost e = eff@;
    let ghost ek = e.len();
    let mut queue = queue;
    // `allq` lists every entry the queue has held, the given ones first; the queue is
    // the part of it from position `done` on.
    let ghost q_init = queue@;
    let ghost mut allq = queue@;
    let ghost mut done: int = 0;
    let ghost m_init = mapping@;
    let ghost un_init = id_set_view(*unassigned);
    let ghost rep_init = *report;
    proof {
        graph.lemma_wf();
        lemma_node_set_len(graph, id_set_view(*unassigned));
        assert(queue@ =~= allq.skip(0));
    }
    while queue.len() > 0
        invariant
            graph.wf(),
            e == eff@,
            ek == e.len(),
            kway_state(graph, e, ek, parts@, mapping@, id_set_view(*unassigned)),
            forall|a: int| 0 <= a < queue@.len() ==> graph.is_node((#[trigger] queue@[a]).0) && queue@[a].1 < ek,
            id_set_view(*unassigned).finite(),
            q_init.len() <= allq.len(),
            forall|a: int| 0 <= a < q_init.len() ==> #[trigger] allq[a] == q_init[a],
            forall|a: int| 0 <= a < allq.len() ==> (#[trigger] allq[a]).1 < ek,
            0 <= done <= allq.len(),
            queue@ == allq.skip(done),
            forall|a: int|
                q_init.len() <= a < allq.len() ==> mapping@.contains_key((#[trigger] allq[a]).0) && mapping@[allq[a].0]
                    == allq[a].1 && !m_init.contains_key(allq[a].0),
            forall|v: i64| #[trigger]
                mapping@.contains_key(v) && !m_init.contains_key(v) ==> exists|a: int|
                    q_init.len() <= a < allq.len() && (#[trigger] allq[a]).0 == v,
            forall|a: int| 0 <= a < done ==> grown_out(graph, parts@, mapping@, limit, #[trigger] allq[a]),
            forall|v: i64| #[trigger]
                m_init.contains_key(v) ==> mapping@.contains_key(v) && mapping@[v] == m_init[v],
            un_init.finite(),
            *report as int == sat_add(rep_init as int, un_init.len() - id_set_view(*unassigned).len()),
        decreases id_set_view(*unassigned).len() + queue@.len(),
    {
        let ghost q0 = queue@;
        let (node, pidx) = queue.pop_front().unwrap();
        proof {
            assert(q0[0] == (node, pidx));
            assert forall|a: int| 0 <= a < queue@.len() implies graph.is_node((#[trigger] queue@[a]).0) && queue@[a].1 < ek by {
                assert(queue@[a] == q0[a + 1]);
            }
            assert(allq[done] == (node, pidx));
            done = done + 1;
            assert(queue@ =~= allq.skip(done));
        }
        if id_set_len(&parts[pidx]) >= limit {
            proof {
                assert(grown_out(graph, parts@, mapping@, limit, allq[done - 1]));
            }
            continue;
        }
        let row = graph.fetch_outgoing(node).unwrap();
        let ghost un_start = id_set_view(*unassigned);
        let ghost qlen_start = queue@.len();
        let mut j: usize = 0;
        while j < row.len()
            invariant
                graph.wf(),
                e == eff@,
                ek == e.len(),
                pidx < ek,
                row@ == graph.succs(node),
                j <= row@.len(),
                kway_state(graph, e, ek, parts@, mapping@, id_set_view(*unassigned)),
                forall|a: int| 0 <= a < queue@.len() ==> graph.is_node((#[trigger] queue@[a]).0) && queue@[a].1 < ek,
                id_set_view(*unassigned).finite(),
                un_start.finite(),
                id_set_view(*unassigned).len() + queue@.len() == un_start.len() + qlen_start,
                allq[done - 1] == (node, pidx),
                q_init.len() <= allq.len(),
                forall|a: int| 0 <= a < q_init.len() ==> #[trigger] allq[a] == q_init[a],
                forall|a: int| 0 <= a < allq.len() ==> (#[trigger] allq[a]).1 < ek,
                1 <= done <= allq.len(),
                queue@ == allq.skip(done),
                forall|a: int|
                    q_init.len() <= a < allq.len() ==> mapping@.contains_key((#[trigger] allq[a]).0)
                        && mapping@[allq[a].0] == allq[a].1 && !m_init.contains_key(allq[a].0),
                forall|v: i64| #[trigger]
                    mapping@.contains_key(v) && !m_init.contains_key(v) ==> exists|a: int|
                        q_init.len() <= a < allq.len() && (#[trigger] allq[a]).0 == v,
                forall|a: int| 0 <= a < done - 1 ==> grown_out(graph, parts@, mapping@, limit, #[trigger] allq[a]),
                forall|v: i64| #[trigger]
                    m_init.contains_key(v) ==> mapping@.contains_key(v) && mapping@[v] == m_init[v],
                un_init.finite(),
                *report as int == sat_add(rep_init as int, un_init.len() - id_set_view(*unassigned).len()),
                forall|y: i64| #[trigger] row@.subrange(0, j as int).contains(y) ==> mapping@.contains_key(y),
            decreases row.len() - j,
        {
            let nb = row[j];
            let ghost un0 = id_set_view(*unassigned);
            let ghost m0 = mapping@;
            let ghost p0 = parts@;
            let ghost r0 = *report;
            proof {
                assert(graph.succs(node).contains(nb));
                graph.lemma_wf();
            }
            if id_set_remove(unassigned, nb) {
                proof {
                    assert(un0.contains(nb));
                    assert(graph.is_node(nb) && !m0.contains_key(nb));
                    assert(!is_seed(graph, e, nb));
                }
                add_to_part(parts, pidx, nb);
                mapping.insert(nb, pidx);
                let ghost q1 = queue@;
                queue.push_back((nb, pidx));
                *report = report.saturating_add(1);
                if *report % 10 == 0 {
                    let msg = kway_message(*report, total);
                    progress.on_progress(*report, Some(total), msg.as_str());
                }
                proof {
                    assert forall|a: int| 0 <= a < queue@.len() implies graph.is_node((#[trigger] queue@[a]).0)
                        && queue@[a].1 < ek by {
                        if a < q1.len() {
                            assert(queue@[a] == q1[a]);
                        }
                    }
                    assert forall|v: i64| #[trigger] is_seed(graph, e, v) implies mapping@.contains_key(v) && last_index(
                        e,
                        v,
                        mapping@[v] as int,
                    ) by {
                        assert(m0.contains_key(v));
                    }
                    assert forall|j2: int, v: i64|
                        0 <= j2 < ek implies (#[trigger] id_set_view(parts@[j2]).contains(v) <==> bfs_member(
                            graph,
                            e,
                            mapping@,
                            j2,
                            v,
                        )) by {
                        if j2 != pidx {
                            assert(parts@[j2] == p0[j2]);
                        }
                        if v != nb {
                            assert(id_set_view(p0[j2]).contains(v) <==> bfs_member(graph, e, m0, j2, v));
                        } else {
                            assert(!id_set_view(p0[j2]).contains(v));
                        }
                    }
                    let aq0 = allq;
                    allq = allq.push((nb, pidx));
                    assert(queue@ =~= allq.skip(done));
                    assert forall|a: int| 0 <= a < q_init.len() implies #[trigger] allq[a] == q_init[a] by {
                        assert(allq[a] == aq0[a]);
                    }
                    assert forall|a: int| 0 <= a < allq.len() implies (#[trigger] allq[a]).1 < ek by {
                        if a < aq0.len() {
                            assert(allq[a] == aq0[a]);
                        }
                    }
                    assert(!m_init.contains_key(nb));
                    assert forall|a: int|
                        q_init.len() <= a < allq.len() implies mapping@.contains_key((#[trigger] allq[a]).0)
                            && mapping@[allq[a].0] == allq[a].1 && !m_init.contains_key(allq[a].0) by {
                        if a < aq0.len() {
                            assert(allq[a] == aq0[a]);
                        }
                    }
                    assert forall|v: i64| #[trigger]
                        mapping@.contains_key(v) && !m_init.contains_key(v) implies exists|a: int|
                            q_init.len() <= a < allq.len() && (#[trigger] allq[a]).0 == v by {
                        if v == nb {
                            assert(allq[aq0.len() as int].0 == v);
                        } else {
                            assert(m0.contains_key(v));
                            let a = choose|a: int| q_init.len() <= a < aq0.len() && (#[trigger] aq0[a]).0 == v;
                            assert(allq[a] == aq0[a]);
                        }
                    }
                    assert forall|j2: int| 0 <= j2 < p0.len() implies id_set_view(#[trigger] p0[j2]).subset_of(
                        id_set_view(parts@[j2]),
                    ) && id_set_view(parts@[j2]).finite() by {
                        if j2 != pidx {
                            assert(parts@[j2] == p0[j2]);
                        }
                        assert forall|v: i64| #[trigger] id_set_view(parts@[j2]).contains(v) implies graph.is_node(v) by {
                            assert(bfs_member(graph, e, mapping@, j2, v));
                        }
                        lemma_node_set_len(graph, id_set_view(parts@[j2]));
                    }
                    assert forall|a: int| 0 <= a < done - 1 implies grown_out(graph, parts@, mapping@, limit, #[trigger] allq[a]) by {
                        assert(allq[a] == aq0[a]);
                        lemma_grown_out_mono(graph, p0, m0, parts@, mapping@, limit, aq0[a]);
                    }
                    assert(id_set_view(*unassigned) == un0.remove(nb));
                    assert(id_set_view(*unassigned).len() == un0.len() - 1);
                }
            }
            proof {
                let sj = row@.subrange(0, j as int);
                let sj1 = row@.subrange(0, j + 1);
                assert(sj1 =~= sj.push(nb));
                assert forall|y: i64| #[trigger] sj1.contains(y) implies mapping@.contains_key(y) by {
                    let i = choose|i: int| 0 <= i < sj1.len() && sj1[i] == y;
                    if i < j {
                        assert(sj[i] == y);
                        assert(sj.contains(y));
                        assert(m0.contains_key(y));
                    } else if !m0.contains_key(y) {
                        assert(graph.is_node(y));
                        assert(un0.contains(y));
                    }
                }
            }
            j = j + 1;
        }
        proof {
            assert(row@.subrange(0, row@.len() as int) =~= row@);
            assert forall|y: i64| #[trigger] graph.has_edge(node, y) implies mapping@.contains_key(y) by {
                assert(row@.contains(y));
            }
            assert(grown_out(graph, parts@, mapping@, limit, allq[done - 1]));
        }
    }
    proof {
        assert(done == allq.len());
        assert forall|a: int| 0 <= a < q_init.len() implies grown_out(graph, parts@, mapping@, limit, #[trigger] q_init[a]) by {
            assert(allq[a] == q_init[a]);
        }
        assert forall|v: i64| #[trigger]
            mapping@.contains_key(v) && !m_init.contains_key(v) implies grown_out(
                graph,
                parts@,
                mapping@,
                limit,
                (v, mapping@[v]),
            ) by {
            let a = choose|a: int| q_init.len() <= a < allq.len() && (#[trigger] allq[a]).0 == v;
            assert(grown_out(graph, parts@, mapping@, limit, allq[a]));
        }
    }
}

/// The nearest node of `s` lies `d` edges away from `v`: some node of `s` lies within `d`
/// edges of `v`, and none within fewer.
pub open spec fn dist_to_set(g: &Graph, v: i64, s: Set<i64>, d: nat) -> bool {
    target_within(g, v, s, d) && (d == 0 || !target_within(g, v, s, (d - 1) as nat))
}

/// Part `j` of `ps` is the part nearest to `v`: when `v` reaches some part, `j` is a part
/// at the smallest distance from `v`, and no part before it is as near; when `v` reaches
/// none, `j` is part 0.
pub open spec fn nearest_part(g: &Graph, v: i64, ps: Seq<Set<i64>>, j: int) -> bool {
    if exists|i: int, d: nat| 0 <= i < ps.len() && #[trigger] target_within(g, v, ps[i], d) {
        &&& 0 <= j < ps.len()
        &&& exists|d: nat|
            #[trigger] dist_to_set(g, v, ps[j], d) && forall|i: int|
                0 <= i < ps.len() ==> (i < j ==> !target_within(g, v, #[trigger] ps[i], d)) && (d > 0
                    ==> !target_within(g, v, ps[i], (d - 1) as nat))
    } else {
        j == 0
    }
}

/// The parts under the mapping `m` with the nodes of `later` taken out of it.
pub open spec fn parts_before(g: &Graph, eff: Seq<i64>, m: Map<i64, usize>, later: Set<i64>) -> Seq<Set<i64>> {
    Seq::new(eff.len(), |j: int| part_members(g, eff, m.remove_keys(later), j))
}

/// The nodes of `order` joined their parts one after the other, each the part nearest to
/// it (see `nearest_part`) as the parts stood when its turn came.
pub open spec fn settled_nearest(g: &Graph, eff: Seq<i64>, m: Map<i64, usize>, order: Seq<i64>) -> bool {
    forall|t: int|
        0 <= t < order.len() ==> nearest_part(
            g,
            #[trigger] order[t],
            parts_before(g, eff, m, order.skip(t).to_set()),
            m[order[t]] as int,
        )
}

/// The nodes that the growth left unplaced (those outside `mg`), in some order, each
/// joined the part nearest to it as the parts stood then.
pub open spec fn leftovers_settled(
    g: &Graph,
    eff: Seq<i64>,
    m: Map<i64, usize>,
    mg: Map<i64, usize>,
    order: Seq<i64>,
) -> bool {
    &&& order.no_duplicates()
    &&& forall|v: i64| #[trigger] order.contains(v) <==> g.is_node(v) && !mg.contains_key(v)
    &&& settled_nearest(g, eff, m, order)
}

/// Being near a set within fewer edges is being near it within more.
proof fn lemma_target_within_mono(g: &Graph, v: i64, s: Set<i64>, d1: nat, d2: nat)
    requires
        target_within(g, v, s, d1),
        d1 <= d2,
    ensures
        target_within(g, v, s, d2),
{
    let t = choose|t: i64| #[trigger] s.contains(t) && within(g, v, t, d1);
    crate::reach::lemma_within_mono(g, v, t, d1, d2);
}

/// The distance to a set is no more than any number of edges within which the set lies.
proof fn lemma_dist_to_set_least(g: &Graph, v: i64, s: Set<i64>, d: nat, x: nat)
    requires
        dist_to_set(g, v, s, d),
        target_within(g, v, s, x),
    ensures
        d <= x,
{
    if x < d {
        lemma_target_within_mono(g, v, s, x, (d - 1) as nat);
    }
}

/// Places each node of `rest` (none of them placed yet) in the part at the smallest
/// distance from it among the parts that hold a node (the first such part on a tie,
/// and part 0 when none can be reached).
fn kway_settle(
    graph: &Graph,
    eff: &Vec<i64>,
    parts: &mut Vec<ahash::AHashSet<i64>>,
    mapping: &mut HashMap<i64, usize>,
    rest: &Vec<i64>,
    report: &mut usize,
)
    requires
        graph.wf(),
        eff@.len() > 0,
        rest@.no_duplicates(),
        kway_state(graph, eff@, eff@.len(), old(parts)@, old(mapping)@, rest@.to_set()),
    ensures
        kway_state(graph, eff@, eff@.len(), final(parts)@, final(mapping)@, Set::<i64>::empty()),
        forall|v: i64| #[trigger]
            old(mapping)@.contains_key(v) ==> final(mapping)@.contains_key(v) && final(mapping)@[v] == old(
                mapping,
            )@[v],
        settled_nearest(graph, eff@, final(mapping)@, rest@),
{
    let ghost e = eff@;
    let ghost m_start = mapping@;
    let ghost ek = e.len();
    let nparts = parts.len();
    let mut t: usize = 0;
    proof {
        assert(rest@.skip(0) =~= rest@);
    }
    while t < rest.len()
        invariant
            graph.wf(),
            e == eff@,
            ek == e.len(),
            ek > 0,
            nparts == ek,
            rest@.no_duplicates(),
            t <= rest@.len(),
            kway_state(graph, e, ek, parts@, mapping@, rest@.skip(t as int).to_set()),
            forall|v: i64| #[trigger] m_start.contains_key(v) ==> mapping@.contains_key(v) && mapping@[v] == m_start[v],
            forall|t2: int|
                0 <= t2 < t ==> nearest_part(
                    graph,
                    #[trigger] rest@[t2],
                    parts_before(graph, e, mapping@, rest@.skip(t2).to_set()),
                    mapping@[rest@[t2]] as int,
                ),
        decreases rest.len() - t,
    {
        let node = rest[t];
        let ghost s0 = rest@.skip(t as int);
        let ghost s1 = rest@.skip(t + 1);
        proof {
            assert(s0[0] == node);
            assert(s0.to_set().contains(node));
            assert forall|w: i64| #[trigger] s1.to_set().contains(w) <==> s0.to_set().contains(w) && w != node by {
                if s0.contains(w) && w != node {
                    let y = choose|y: int| 0 <= y < s0.len() && s0[y] == w;
                    if y > 0 {
                        assert(s1[y - 1] == w);
                    }
                }
                if s1.contains(w) {
                    let y = choose|y: int| 0 <= y < s1.len() && s1[y] == w;
                    assert(s0[y + 1] == w);
                    if w == node {
                        assert(rest@[t + 1 + y] == node);
                        assert(rest@[t as int] == node);
                    }
                }
            }
            assert(!s1.contains(node)) by {
                if s1.contains(node) {
                    let y = choose|y: int| 0 <= y < s1.len() && s1[y] == node;
                    assert(rest@[t + 1 + y] == node);
                    assert(rest@[t as int] == node);
                }
            }
        }
        let ghost ps = Seq::new(ek, |j: int| part_members(graph, e, mapping@, j));
        proof {
            assert forall|j: int| 0 <= j < ek implies #[trigger] ps[j] == id_set_view(parts@[j]) by {
                assert forall|v: i64| #[trigger] id_set_view(parts@[j]).contains(v) <==> ps[j].contains(v) by {
                    assert(id_set_view(parts@[j]).contains(v) <==> bfs_member(graph, e, mapping@, j, v));
                }
                assert(ps[j] =~= id_set_view(parts@[j]));
            }
            assert forall|j: int, v: i64| 0 <= j < ek && #[trigger] ps[j].contains(v) implies graph.is_node(v) by {
                assert(bfs_member(graph, e, mapping@, j, v));
            }
        }
        let mut best: usize = 0;
        let mut best_distance: usize = usize::MAX;
        let mut pidx: usize = 0;
        while pidx < nparts
            invariant
                graph.wf(),
                nparts == parts@.len(),
                nparts == ps.len(),
                nparts == ek,
                pidx <= nparts,
                best < nparts,
                forall|j: int| 0 <= j < ek ==> #[trigger] ps[j] == id_set_view(parts@[j]),
                forall|j: int, v: i64| 0 <= j < ek && #[trigger] ps[j].contains(v) ==> graph.is_node(v),
                best_distance == usize::MAX ==> best == 0 && forall|i: int, d: nat|
                    0 <= i < pidx ==> !#[trigger] target_within(graph, node, ps[i], d),
                best_distance < usize::MAX ==> {
                    &&& best < pidx
                    &&& dist_to_set(graph, node, ps[best as int], best_distance as nat)
                    &&& forall|i: int|
                        0 <= i < pidx ==> (i < best ==> !target_within(graph, node, #[trigger] ps[i], best_distance as nat))
                            && (best_distance > 0 ==> !target_within(graph, node, ps[i], (best_distance - 1) as nat))
                },
            decreases nparts - pidx,
        {
            let ghost sp = ps[pidx as int];
            if id_set_len(&parts[pidx]) != 0 {
                let d = shortest_distance_to_targets(graph, node, &parts[pidx]);
                proof {
                    assert(id_set_view(parts@[pidx as int]) == sp);
                }
                if d < best_distance {
                    proof {
                        assert(dist_to_set(graph, node, sp, d as nat));
                        assert forall|i: int| 0 <= i < pidx implies !target_within(graph, node, #[trigger] ps[i], d as nat)
                            && (d > 0 ==> !target_within(graph, node, ps[i], (d - 1) as nat)) by {
                            if best_distance < usize::MAX {
                                if target_within(graph, node, ps[i], d as nat) {
                                    lemma_target_within_mono(graph, node, ps[i], d as nat, (best_distance - 1) as nat);
                                }
                            }
                            if d > 0 && target_within(graph, node, ps[i], (d - 1) as nat) {
                                lemma_target_within_mono(graph, node, ps[i], (d - 1) as nat, d as nat);
                            }
                        }
                    }
                    best_distance = d;
                    best = pidx;
                } else {
                    proof {
                        if best_distance > 0 && target_within(graph, node, sp, (best_distance - 1) as nat) {
                            if d < usize::MAX {
                                lemma_dist_to_set_least(graph, node, sp, d as nat, (best_distance - 1) as nat);
                            }
                        }
                    }
                }
            } else {
                proof {
                    assert forall|x: i64| #[trigger] sp.contains(x) implies graph.is_node(x) || x == node by {}
                    crate::reach::lemma_bounded_set(graph, node, sp);
                    assert(sp =~= Set::<i64>::empty());
                    assert forall|d: nat| !#[trigger] target_within(graph, node, sp, d) by {}
                }
            }
            pidx = pidx + 1;
        }
        proof {
            if best_distance < usize::MAX {
                assert(target_within(graph, node, ps[best as int], best_distance as nat));
            }
            assert(nearest_part(graph, node, ps, best as int));
        }
        let ghost m0 = mapping@;
        let ghost p0 = parts@;
        proof {
            assert(graph.is_node(node) && !m0.contains_key(node));
            assert(!is_seed(graph, e, node));
        }
        add_to_part(parts, best, node);
        mapping.insert(node, best);
        *report = report.saturating_add(1);
        proof {
            assert(m0.remove_keys(s0.to_set()) =~= m0) by {
                assert forall|v: i64| m0.contains_key(v) implies !s0.to_set().contains(v) by {}
            }
            assert(mapping@.remove_keys(s0.to_set()) =~= m0);
            assert(parts_before(graph, e, mapping@, s0.to_set()) == ps);
            assert forall|t2: int|
                0 <= t2 < t + 1 implies nearest_part(
                    graph,
                    #[trigger] rest@[t2],
                    parts_before(graph, e, mapping@, rest@.skip(t2).to_set()),
                    mapping@[rest@[t2]] as int,
                ) by {
                if t2 < t {
                    let later = rest@.skip(t2).to_set();
                    assert(rest@.skip(t2)[t - t2] == node);
                    assert(later.contains(node));
                    assert(mapping@.remove_keys(later) =~= m0.remove_keys(later));
                    assert(rest@[t2] != node);
                    assert(parts_before(graph, e, mapping@, later) == parts_before(graph, e, m0, later));
                } else {
                    assert(rest@.skip(t2) == s0);
                }
            }
        }
        proof {
            assert forall|v: i64| #[trigger] is_seed(graph, e, v) implies mapping@.contains_key(v) && last_index(
                e,
                v,
                mapping@[v] as int,
            ) by {
                assert(m0.contains_key(v));
            }
            assert forall|j2: int, v: i64|
                0 <= j2 < ek implies (#[trigger] id_set_view(parts@[j2]).contains(v) <==> bfs_member(
                    graph,
                    e,
                    mapping@,
                    j2,
                    v,
                )) by {
                if j2 != best {
                    assert(parts@[j2] == p0[j2]);
                }
                if v != node {
                    assert(id_set_view(p0[j2]).contains(v) <==> bfs_member(graph, e, m0, j2, v));
                } else {
                    assert(!id_set_view(p0[j2]).contains(v));
                }
            }
        }
        t = t + 1;
    }
    proof {
        assert(rest@.skip(rest@.len() as int).to_set() =~= Set::<i64>::empty());
    }
}

/// The number of parts that can hold a node: `min(k, n)`.
pub open spec fn parts_used(k: nat, n: nat) -> nat {
    if k < n {
        k
    } else {
        n
    }
}

/// The given seeds repeat no id (true when none are given).
pub open spec fn seeds_distinct(seeds: Option<Vec<i64>>) -> bool {
    match seeds {
        Some(s) => s@.no_duplicates(),
        None => true,
    }
}

/// The nodes that part `j` holds under the mapping `mg`.
pub open spec fn part_members(g: &Graph, eff: Seq<i64>, mg: Map<i64, usize>, j: int) -> Set<i64> {
    Set::new(|v: i64| bfs_member(g, eff, mg, j, v))
}

/// Growth from `u`, a member of part `j`, is done: the part has reached `limit`, or every
/// target of `u` is placed.
pub open spec fn grown_part(g: &Graph, eff: Seq<i64>, mg: Map<i64, usize>, limit: nat, j: int, u: i64) -> bool {
    part_members(g, eff, mg, j).len() >= limit || forall|y: i64| #[trigger] g.has_edge(u, y) ==> mg.contains_key(y)
}

/// The parts grew breadth-first from the seeds up to `limit`: the mapping `mg` that the
/// growth leaves places every seed, the final mapping `m` extends it, and from every
/// member of every part the growth went on to all its targets unless the part reached
/// the limit.
pub open spec fn kway_grown(g: &Graph, eff: Seq<i64>, m: Map<i64, usize>, mg: Map<i64, usize>, limit: nat) -> bool {
    &&& forall|v: i64| #[trigger] mg.contains_key(v) ==> m.contains_key(v) && m[v] == mg[v]
    &&& forall|v: i64| #[trigger] is_seed(g, eff, v) ==> mg.contains_key(v)
    &&& forall|j: int, u: i64|
        0 <= j < eff.len() && #[trigger] bfs_member(g, eff, mg, j, u) ==> grown_part(g, eff, mg, limit, j, u)
}

/// What the k-way partition gives: `k` parts and the graph's cut under the mapping;
/// with nodes, for the seeds of `kway_seeds`, every node has a part below `min(k, n)`,
/// each seed the last index at which it stands, the parts hold the nodes as
/// `bfs_member` says (so parts past `min(k, n)` are empty), the parts grew
/// breadth-first from the seeds up to the growth limit (see `kway_grown`), and then the
/// nodes left over joined, one after the other, the part nearest to each (see
/// `leftovers_settled`); with distinct seeds, every node lies in exactly the part that
/// the mapping gives it.
pub open spec fn kway_result(g: &Graph, config: &PartitionConfig, res: PartitionResult) -> bool {
    let m = res.node_to_partition@;
    let n = g.node_count();
    let k = config.k as nat;
    &&& res.partitions@.len() == k
    &&& res.cut_edges@ == graph_cut(g, m)
    &&& if n == 0 {
        &&& m.dom() == Set::<i64>::empty()
        &&& forall|j: int| 0 <= j < k ==> #[trigger] id_set_view(res.partitions@[j]) == Set::<i64>::empty()
    } else {
        let ek = parts_used(k, n);
        exists|eff: Seq<i64>|
            {
                &&& #[trigger] kway_seeds(g, config.seeds, parts_used(k, n), eff)
                &&& forall|v: i64| #[trigger] m.contains_key(v) <==> g.is_node(v)
                &&& forall|v: i64| #[trigger] m.contains_key(v) ==> m[v] < ek
                &&& forall|v: i64| #[trigger] is_seed(g, eff, v) ==> last_index(eff, v, m[v] as int)
                &&& forall|j: int, v: i64|
                    0 <= j < k ==> (#[trigger] id_set_view(res.partitions@[j]).contains(v) <==> bfs_member(
                        g,
                        eff,
                        m,
                        j,
                        v,
                    ))
                &&& exists|mg: Map<i64, usize>|
                    #[trigger] kway_grown(
                        g,
                        eff,
                        m,
                        mg,
                        growth_limit(n, ek, config.max_size as nat, config.max_imbalance_ppm as int),
                    ) && exists|order: Seq<i64>| #[trigger] leftovers_settled(g, eff, m, mg, order)
            }
    }
    &&& seeds_distinct(config.seeds) ==> consistent(part_sets(res), m)
}

/// A node that the growth left unplaced ends in a part that holds another node at least
/// as near to it as any node that the growth placed: if it reaches a grown member of any
/// part within `d` edges, it reaches within `d` edges some other member of its own part.
pub proof fn lemma_kway_leftover_near(g: &Graph, config: &PartitionConfig, res: PartitionResult)
    requires
        g.wf(),
        g.node_count() > 0,
        kway_result(g, config, res),
    ensures
        exists|eff: Seq<i64>, mg: Map<i64, usize>|
            #[trigger] kway_grown(
                g,
                eff,
                res.node_to_partition@,
                mg,
                growth_limit(
                    g.node_count(),
                    parts_used(config.k as nat, g.node_count()),
                    config.max_size as nat,
                    config.max_imbalance_ppm as int,
                ),
            ) && forall|v: i64, u: i64, j: int, d: nat|
                g.is_node(v) && !mg.contains_key(v) && 0 <= j < eff.len() && #[trigger] bfs_member(g, eff, mg, j, u)
                    && #[trigger] within(g, v, u, d) ==> exists|w: i64|
                    w != v && bfs_member(g, eff, res.node_to_partition@, res.node_to_partition@[v] as int, w)
                        && #[trigger] within(g, v, w, d),
{
    let m = res.node_to_partition@;
    let n = g.node_count();
    let ek = parts_used(config.k as nat, n);
    let limit = growth_limit(n, ek, config.max_size as nat, config.max_imbalance_ppm as int);
    let eff = choose|eff: Seq<i64>|
        {
            &&& #[trigger] kway_seeds(g, config.seeds, parts_used(config.k as nat, n), eff)
            &&& forall|v: i64| #[trigger] m.contains_key(v) <==> g.is_node(v)
            &&& forall|v: i64| #[trigger] m.contains_key(v) ==> m[v] < ek
            &&& forall|v: i64| #[trigger] is_seed(g, eff, v) ==> last_index(eff, v, m[v] as int)
            &&& forall|j: int, v: i64|
                0 <= j < config.k as nat ==> (#[trigger] id_set_view(res.partitions@[j]).contains(v)
                    <==> bfs_member(g, eff, m, j, v))
            &&& exists|mg: Map<i64, usize>|
                #[trigger] kway_grown(g, eff, m, mg, limit) && exists|order: Seq<i64>|
                    #[trigger] leftovers_settled(g, eff, m, mg, order)
        };
    let mg = choose|mg: Map<i64, usize>|
        #[trigger] kway_grown(g, eff, m, mg, limit) && exists|order: Seq<i64>|
            #[trigger] leftovers_settled(g, eff, m, mg, order);
    let order = choose|order: Seq<i64>| #[trigger] leftovers_settled(g, eff, m, mg, order);
    assert forall|v: i64, u: i64, j: int, d: nat|
        g.is_node(v) && !mg.contains_key(v) && 0 <= j < eff.len() && #[trigger] bfs_member(g, eff, mg, j, u)
            && #[trigger] within(g, v, u, d) implies exists|w: i64|
            w != v && bfs_member(g, eff, m, m[v] as int, w) && #[trigger] within(g, v, w, d) by {
        assert(order.contains(v));
        let t = choose|t: int| 0 <= t < order.len() && order[t] == v;
        let later = order.skip(t).to_set();
        let mt = m.remove_keys(later);
        let ps = parts_before(g, eff, m, later);
        assert(order.skip(t)[0] == v);
        assert(later.contains(v));
        assert(nearest_part(g, order[t], ps, m[order[t]] as int));
        // The grown member `u` already stood in part `j` at `v`'s turn.
        assert(ps[j] == part_members(g, eff, mt, j));
        assert(bfs_member(g, eff, mt, j, u)) by {
            if !is_seed(g, eff, u) {
                assert(mg.contains_key(u) && mg[u] == j);
                assert(m.contains_key(u) && m[u] == mg[u]);
                assert(!later.contains(u)) by {
                    if later.contains(u) {
                        let a = choose|a: int| 0 <= a < order.skip(t).len() && order.skip(t)[a] == u;
                        assert(order.contains(order.skip(t)[a])) by {
                            assert(order[t + a] == order.skip(t)[a]);
                        }
                    }
                }
            }
        }
        assert(ps[j].contains(u));
        assert(target_within(g, v, ps[j], d));
        let jv = m[v] as int;
        let dj = choose|dj: nat|
            #[trigger] dist_to_set(g, v, ps[jv], dj) && forall|i: int|
                0 <= i < ps.len() ==> (i < jv ==> !target_within(g, v, #[trigger] ps[i], dj)) && (dj > 0
                    ==> !target_within(g, v, ps[i], (dj - 1) as nat));
        assert(dj <= d) by {
            if d < dj {
                lemma_target_within_mono(g, v, ps[j], d, (dj - 1) as nat);
            }
        }
        let w = choose|w: i64| #[trigger] ps[jv].contains(w) && within(g, v, w, dj);
        crate::reach::lemma_within_mono(g, v, w, dj, d);
        assert(ps[jv] == part_members(g, eff, mt, jv));
        assert(bfs_member(g, eff, mt, jv, w));
        assert(is_seed(g, eff, v) ==> mg.contains_key(v));
        assert(w != v);
        assert(bfs_member(g, eff, m, jv, w));
    }
}

/// Distinct given seeds give distinct seeds.
proof fn lemma_kway_seeds_distinct(g: &Graph, seeds: Option<Vec<i64>>, ek: nat, eff: Seq<i64>)
    requires
        kway_seeds(g, seeds, ek, eff),
        seeds_distinct(seeds),
    ensures
        eff.no_duplicates(),
{
    match seeds {
        Some(s) => {
            let p = if s@.len() < ek {
                s@.len()
            } else {
                ek
            };
            assert forall|i: int, j: int| 0 <= i < j < eff.len() implies eff[i] != eff[j] by {
                if j >= p {
                    assert(eff.take(j).contains(eff[i])) by {
                        assert(eff.take(j)[i] == eff[i]);
                    }
                } else {
                    assert(eff[i] == eff.take(p as int)[i]);
                    assert(eff[j] == eff.take(p as int)[j]);
                    assert(s@.take(p as int)[i] == s@[i]);
                    assert(s@.take(p as int)[j] == s@[j]);
                }
            }
        },
        None => {},
    }
}

/// Partitions the graph into `k` parts, as `partition_kway` does, reporting progress:
/// every tenth placement during growth, and the end.
pub fn partition_kway_with_progress<F: ProgressCallback>(
    graph: &Graph,
    config: &PartitionConfig,
    progress: &F,
) -> (r: Result<PartitionResult, SqliteGraphError>)
    requires
        graph.wf(),
    ensures
        r is Err <==> config.k < 2,
        r matches Err(e) ==> e is InvalidInput,
        config.k < 2 ==> (r matches Err(SqliteGraphError::InvalidInput(msg)) && msg@
            == "k must be at least 2 for partitioning"@),
        r matches Ok(res) ==> kway_result(graph, config, res),
{
    let k = config.k;
    if k < 2 {
        return Err(SqliteGraphError::InvalidInput(String::from_str("k must be at least 2 for partitioning")));
    }
    let n = graph.entity_count();
    proof {
        graph.lemma_wf();
    }
    if n == 0 {
        progress.on_complete();
        let empty: HashMap<i64, usize> = HashMap::new();
        let cut = compute_cut_edges(graph, &empty);
        let res = PartitionResult { partitions: empty_parts(k), cut_edges: cut, node_to_partition: empty };
        proof {
            assert(res.node_to_partition@.dom() =~= Set::<i64>::empty());
        }
        return Ok(res);
    }
    let ek = if k < n {
        k
    } else {
        n
    };
    let all_nodes = graph_node_set(graph);
    let eff = kway_effective_seeds(graph, &config.seeds, ek, &all_nodes);
    let limit = growth_limit_of(n, ek, config.max_size, config.max_imbalance_ppm);
    let mut parts = empty_parts(ek);
    let mut mapping: HashMap<i64, usize> = HashMap::new();
    proof {
        assert(mapping@.dom() =~= Set::<i64>::empty());
    }
    let (queue, planted) = kway_plant(graph, &eff, &mut parts, &mut mapping);
    let order = id_set_to_vec(&all_nodes);
    proof {
        assert forall|v: i64| #[trigger] order@.contains(v) <==> graph.is_node(v) by {
            assert(order@.to_set().contains(v) <==> order@.contains(v));
            assert(node_set(graph).contains(v) <==> graph.is_node(v));
        }
    }
    let mut unassigned = unplaced_nodes(graph, &order, &mapping);
    let mut report = planted;
    proof {
        assert forall|v: i64| #[trigger] is_seed(graph, eff@, v) implies mapping@.contains_key(v) && last_index(
            eff@,
            v,
            mapping@[v] as int,
        ) by {}
    }
    let ghost q0 = queue@;
    let ghost m_plant = mapping@;
    kway_grow(graph, &eff, limit, &mut parts, &mut mapping, &mut unassigned, queue, &mut report, n, progress);
    let ghost mg = mapping@;
    proof {
        assert forall|j: int, u: i64|
            0 <= j < eff@.len() && #[trigger] bfs_member(graph, eff@, mg, j, u) implies grown_part(
                graph,
                eff@,
                mg,
                limit as nat,
                j,
                u,
            ) by {
            assert forall|v: i64| #[trigger] id_set_view(parts@[j]).contains(v) <==> part_members(graph, eff@, mg, j).contains(v) by {
                assert(id_set_view(parts@[j]).contains(v) <==> bfs_member(graph, eff@, mg, j, v));
            }
            assert(id_set_view(parts@[j]) =~= part_members(graph, eff@, mg, j));
            assert(id_set_view(parts@[j]).len() == part_members(graph, eff@, mg, j).len());
            if is_seed(graph, eff@, u) {
                assert(eff@[j] == u);
                assert(q0.contains((eff@[j], j as usize)));
                let a = choose|a: int| 0 <= a < q0.len() && q0[a] == (eff@[j], j as usize);
                assert(grown_out(graph, parts@, mg, limit, q0[a]));
                assert(q0[a].1 as int == j);
                assert(q0[a].0 == u);
                if part_members(graph, eff@, mg, j).len() < limit {
                    assert forall|y: i64| #[trigger] graph.has_edge(u, y) implies mg.contains_key(y) by {
                        assert(graph.has_edge(q0[a].0, y));
                    }
                }
            } else {
                assert(mg.contains_key(u) && mg[u] == j);
                assert(!m_plant.contains_key(u));
                assert(grown_out(graph, parts@, mg, limit, (u, mg[u])));
                if part_members(graph, eff@, mg, j).len() < limit {
                    assert forall|y: i64| #[trigger] graph.has_edge(u, y) implies mg.contains_key(y) by {
                        assert(graph.has_edge((u, mg[u]).0, y));
                    }
                }
            }
        }
    }
    let rest = id_set_to_vec(&unassigned);
    proof {
        assert(rest@.to_set() =~= id_set_view(unassigned));
    }
    kway_settle(graph, &eff, &mut parts, &mut mapping, &rest, &mut report);
    proof {
        assert forall|v: i64| #[trigger] rest@.contains(v) <==> graph.is_node(v) && !mg.contains_key(v) by {
            assert(rest@.to_set().contains(v) <==> rest@.contains(v));
        }
        assert(leftovers_settled(graph, eff@, mapping@, mg, rest@));
    }
    progress.on_complete();
    let ghost pk = parts@;
    while parts.len() < k
        invariant
            graph.wf(),
            kway_state(graph, eff@, ek as nat, pk, mapping@, Set::<i64>::empty()),
            kway_seeds(graph, config.seeds, ek as nat, eff@),
            pk.len() == ek,
            ek <= parts@.len() <= k,
            forall|j: int| 0 <= j < ek ==> #[trigger] parts@[j] == pk[j],
            forall|j: int| ek <= j < parts@.len() ==> #[trigger] id_set_view(parts@[j]) == Set::<i64>::empty(),
        decreases k - parts.len(),
    {
        parts.push(id_set_new());
    }
    let cut = compute_cut_edges(graph, &mapping);
    let res = PartitionResult { partitions: parts, cut_edges: cut, node_to_partition: mapping };
    proof {
        let m = res.node_to_partition@;
        let e = eff@;
        assert forall|v: i64| #[trigger] m.contains_key(v) <==> graph.is_node(v) by {
            assert(!Set::<i64>::empty().contains(v));
        }
        assert forall|j: int, v: i64|
            0 <= j < k implies (#[trigger] id_set_view(res.partitions@[j]).contains(v) <==> bfs_member(
                graph,
                e,
                m,
                j,
                v,
            )) by {
            if j < ek {
                assert(res.partitions@[j] == pk[j]);
            } else {
                if m.contains_key(v) {
                    assert(m[v] < ek);
                }
            }
        }
        assert(kway_seeds(graph, config.seeds, ek as nat, e));
        assert(kway_grown(graph, e, m, mg, limit as nat));
        assert(leftovers_settled(graph, e, m, mg, rest@));
        assert(forall|v: i64| #[trigger] m.contains_key(v) ==> m[v] < ek);
        assert(forall|v: i64| #[trigger] is_seed(graph, e, v) ==> last_index(e, v, m[v] as int));
        let ekn: nat = parts_used(k as nat, graph.node_count());
        assert(ekn == ek);
        assert(kway_seeds(graph, config.seeds, ekn, e) && (forall|v: i64| #[trigger] m.contains_key(v) <==> graph.is_node(v))
            && (forall|v: i64| #[trigger] m.contains_key(v) ==> m[v] < ekn) && (forall|v: i64| #[trigger] is_seed(graph, e, v)
            ==> last_index(e, v, m[v] as int)) && (forall|j: int, v: i64|
            0 <= j < config.k as nat ==> (#[trigger] id_set_view(res.partitions@[j]).contains(v) <==> bfs_member(
                graph,
                e,
                m,
                j,
                v,
            ))));
        if seeds_distinct(config.seeds) {
            lemma_kway_seeds_distinct(graph, config.seeds, ek as nat, e);
            assert forall|j: int, v: i64| 0 <= j < part_sets(res).len() implies (#[trigger] part_sets(res)[j].contains(v)
                <==> m.contains_key(v) && m[v] == j) by {
                assert(part_sets(res)[j] == id_set_view(res.partitions@[j]));
                if is_seed(graph, e, v) {
                    assert(m.contains_key(v));
                    assert(last_index(e, v, m[v] as int));
                    if 0 <= j < e.len() && e[j] == v && j != m[v] {
                        assert(e[j] == e[m[v] as int]);
                    }
                }
            }
            assert(kway_result(graph, config, res));
        }
    }
    Ok(res)
}

/// Partitions the graph into `k` parts grown from seeds: the given seeds (then other
/// nodes, up to one per part) or the nodes of the highest out-degrees; each part grows
/// breadth-first over outgoing edges while below the growth limit, and every node left
/// over joins the nearest part that holds a node. Fails with `InvalidInput` when
/// `k < 2`; a graph with fewer nodes than `k` leaves the last parts empty.
pub fn partition_kway(graph: &Graph, config: &PartitionConfig) -> (r: Result<PartitionResult, SqliteGraphError>)
    requires
        graph.wf(),
    ensures
        r is Err <==> config.k < 2,
        r matches Err(e) ==> e is InvalidInput,
        config.k < 2 ==> (r matches Err(SqliteGraphError::InvalidInput(msg)) && msg@
            == "k must be at least 2 for partitioning"@),
        r matches Ok(res) ==> kway_result(graph, config, res),
{
    partition_kway_with_progress(graph, config, &NoProgress)
}

} // verus!
