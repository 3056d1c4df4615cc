//! Differences between two graphs, and the judgement of a refactoring from them.
use vstd::prelude::*;

use crate::error::SqliteGraphError;
use crate::graph::Graph;
use crate::hashing::{
    id_set_contains, id_set_insert, id_set_new, id_set_view, pair_set_contains, pair_set_insert,
    pair_set_new, pair_set_view,
};

verus! {

/// The nodes that one graph has and the other has not, by id.
pub struct NodeDelta {
    /// Ids of the second graph that the first does not have.
    pub nodes_added: ahash::AHashSet<i64>,
    /// Ids of the first graph that the second does not have.
    pub nodes_removed: ahash::AHashSet<i64>,
}

/// The edges that one graph has and the other has not, as (source, target) pairs.
#[derive(Debug, Clone, PartialEq, Eq)]
pub struct EdgeDelta {
    /// Edges of the second graph that the first does not have, each once.
    pub edges_added: Vec<(i64, i64)>,
    /// Edges of the first graph that the second does not have, each once.
    pub edges_removed: Vec<(i64, i64)>,
}

/// The ids that `g1` has and `g2` has not.
fn id_difference(g1: &Graph, g2: &Graph) -> (d: ahash::AHashSet<i64>)
    requires
        g1.wf(),
        g2.wf(),
    ensures
        forall|x: i64| id_set_view(d).contains(x) <==> g1.is_node(x) && !g2.is_node(x),
{
    let mut d = id_set_new();
    let n1 = g1.entity_count();
    let n2 = g2.entity_count();
    proof {
        g1.lemma_wf();
    }
    let mut i: usize = 0;
    while i < n1
        invariant
            n1 == g1.node_count(),
            n2 == g2.node_count(),
            g1.node_count() < i64::MAX,
            i <= n1,
            forall|x: i64| #[trigger] id_set_view(d).contains(x) <==> 1 <= x <= i && !g2.is_node(x),
        decreases n1 - i,
    {
        let id = (i + 1) as i64;
        let ghost d0 = id_set_view(d);
        assert(forall|x: i64| d0.contains(x) <==> 1 <= x <= i && !g2.is_node(x));
        if id as u64 > n2 as u64 {
            id_set_insert(&mut d, id);
            assert(id_set_view(d) == d0.insert(id));
        }
        assert forall|x: i64| id_set_view(d).contains(x) <==> 1 <= x <= i + 1 && !g2.is_node(x) by {
            assert(d0.contains(x) <==> 1 <= x <= i && !g2.is_node(x));
            if x == id {
                assert(g2.is_node(x) <==> x <= n2);
            }
        }
        i = i + 1;
    }
    d
}

/// The nodes added and removed between `graph1` and `graph2`, by id.
pub fn compute_node_delta(graph1: &Graph, graph2: &Graph) -> (r: Result<NodeDelta, SqliteGraphError>)
    requires
        graph1.wf(),
        graph2.wf(),
    ensures
        match r {
            Ok(d) => {
                &&& forall|x: i64|
                    id_set_view(d.nodes_added).contains(x) <==> graph2.is_node(x) && !graph1.is_node(x)
                &&& forall|x: i64|
                    id_set_view(d.nodes_removed).contains(x) <==> graph1.is_node(x)
                        && !graph2.is_node(x)
            },
            Err(_) => false,
        },
{
    let nodes_added = id_difference(graph2, graph1);
    let nodes_removed = id_difference(graph1, graph2);
    Ok(NodeDelta { nodes_added, nodes_removed })
}

/// The distinct edges of `g`, in a set.
fn edge_set(g: &Graph) -> (s: crate::hashing::PairSet)
    requires
        g.wf(),
    ensures
        forall|e: (i64, i64)| pair_set_view(s).contains(e) <==> g.has_edge(e.0, e.1),
{
    let mut s = pair_set_new();
    let ids = g.all_entity_ids().unwrap();
    proof {
        g.lemma_wf();
    }
    let mut i: usize = 0;
    while i < ids.len()
        invariant
            g.wf(),
            ids@ == crate::graph::node_ids(g.node_count()),
            g.node_count() < i64::MAX,
            i <= ids@.len(),
            forall|e: (i64, i64)|
                pair_set_view(s).contains(e) <==> 1 <= e.0 <= i && g.has_edge(e.0, e.1),
        decreases ids.len() - i,
    {
        let from = ids[i];
        let out = g.fetch_outgoing(from).unwrap();
        let mut j: usize = 0;
        while j < out.len()
            invariant
                g.wf(),
                from == i + 1,
                out@ == g.succs(from),
                j <= out@.len(),
                forall|e: (i64, i64)|
                    pair_set_view(s).contains(e) <==> (1 <= e.0 <= i && g.has_edge(e.0, e.1)) || (
                    e.0 == from && out@.subrange(0, j as int).contains(e.1)),
            decreases out.len() - j,
        {
            pair_set_insert(&mut s, (from, out[j]));
            proof {
                assert forall|e: (i64, i64)|
                    pair_set_view(s).contains(e) <==> (1 <= e.0 <= i && g.has_edge(e.0, e.1)) || (
                    e.0 == from && out@.subrange(0, j + 1).contains(e.1)) by {
                    let sj = out@.subrange(0, j as int);
                    let sj1 = out@.subrange(0, j + 1);
                    if sj.contains(e.1) {
                        let k = choose|k: int| 0 <= k < sj.len() && sj[k] == e.1;
                        assert(sj1[k] == e.1);
                    }
                    if sj1.contains(e.1) {
                        let k = choose|k: int| 0 <= k < sj1.len() && sj1[k] == e.1;
                        if k < j {
                            assert(sj[k] == e.1);
                        }
                    }
                    if e == (from, out@[j as int]) {
                        assert(out@.subrange(0, j + 1)[j as int] == e.1);
                    }
                }
            }
            j = j + 1;
        }
        proof {
            g.lemma_wf();
            assert(out@.subrange(0, out@.len() as int) =~= out@);
            assert forall|e: (i64, i64)|
                pair_set_view(s).contains(e) <==> 1 <= e.0 <= i + 1 && g.has_edge(e.0, e.1) by {
                if e.0 != from && g.has_edge(e.0, e.1) {
                    assert(g.is_node(e.0));
                }
            }
        }
        i = i + 1;
    }
    proof {
        g.lemma_wf();
        assert forall|e: (i64, i64)| g.has_edge(e.0, e.1) implies 1 <= e.0 <= ids@.len() by {
            assert(g.is_node(e.0));
        }
    }
    s
}

/// The distinct edges of `g` that `other` does not contain, each once, in the order of
/// `g`'s source ids and then of insertion.
fn edges_missing_from(g: &Graph, other: &crate::hashing::PairSet) -> (v: Vec<(i64, i64)>)
    requires
        g.wf(),
    ensures
        v@.no_duplicates(),
        forall|e: (i64, i64)|
            v@.contains(e) <==> g.has_edge(e.0, e.1) && !pair_set_view(*other).contains(e),
{
    let mut v: Vec<(i64, i64)> = Vec::new();
    let mut seen = pair_set_new();
    let ids = g.all_entity_ids().unwrap();
    proof {
        g.lemma_wf();
    }
    let mut i: usize = 0;
    while i < ids.len()
        invariant
            g.wf(),
            ids@ == crate::graph::node_ids(g.node_count()),
            g.node_count() < i64::MAX,
            i <= ids@.len(),
            v@.no_duplicates(),
            forall|e: (i64, i64)| v@.contains(e) <==> pair_set_view(seen).contains(e),
            forall|e: (i64, i64)|
                pair_set_view(seen).contains(e) <==> 1 <= e.0 <= i && g.has_edge(e.0, e.1)
                    && !pair_set_view(*other).contains(e),
        decreases ids.len() - i,
    {
        let from = ids[i];
        let out = g.fetch_outgoing(from).unwrap();
        let mut j: usize = 0;
        while j < out.len()
            invariant
                g.wf(),
                from == i + 1,
                out@ == g.succs(from),
                j <= out@.len(),
                v@.no_duplicates(),
                forall|e: (i64, i64)| v@.contains(e) <==> pair_set_view(seen).contains(e),
                forall|e: (i64, i64)|
                    pair_set_view(seen).contains(e) <==> ((1 <= e.0 <= i && g.has_edge(e.0, e.1)) || (
                    e.0 == from && out@.subrange(0, j as int).contains(e.1)))
                        && !pair_set_view(*other).contains(e),
            decreases out.len() - j,
        {
            let e = (from, out[j]);
            let ghost v0 = v@;
            if !pair_set_contains(other, e) && !pair_set_contains(&seen, e) {
                pair_set_insert(&mut seen, e);
                v.push(e);
                proof {
                    assert forall|a: int, b: int|
                        0 <= a < b < v@.len() implies v@[a] != v@[b] by {
                        if b == v@.len() - 1 {
                            assert(v0.contains(v@[a]));
                        }
                    }
                    assert forall|x: (i64, i64)| v@.contains(x) <==> pair_set_view(seen).contains(x) by {
                        if v@.contains(x) && x != e {
                            let k = choose|k: int| 0 <= k < v@.len() && v@[k] == x;
                            assert(v0[k] == x);
                        }
                        if x == e {
                            assert(v@[v@.len() - 1] == x);
                        } else if v0.contains(x) {
                            let k = choose|k: int| 0 <= k < v0.len() && v0[k] == x;
                            assert(v@[k] == x);
                        }
                    }
                }
            }
            proof {
                assert forall|x: (i64, i64)|
                    pair_set_view(seen).contains(x) <==> ((1 <= x.0 <= i && g.has_edge(x.0, x.1)) || (
                    x.0 == from && out@.subrange(0, j + 1).contains(x.1)))
                        && !pair_set_view(*other).contains(x) by {
                    let sj = out@.subrange(0, j as int);
                    let sj1 = out@.subrange(0, j + 1);
                    if sj.contains(x.1) {
                        let k = choose|k: int| 0 <= k < sj.len() && sj[k] == x.1;
                        assert(sj1[k] == x.1);
                    }
                    if sj1.contains(x.1) {
                        let k = choose|k: int| 0 <= k < sj1.len() && sj1[k] == x.1;
                        if k < j {
                            assert(sj[k] == x.1);
                        }
                    }
                    if x == e {
                        assert(out@.subrange(0, j + 1)[j as int] == x.1);
                    }
                }
            }
            j = j + 1;
        }
        proof {
            g.lemma_wf();
            assert(out@.subrange(0, out@.len() as int) =~= out@);
            assert forall|x: (i64, i64)|
                pair_set_view(seen).contains(x) <==> 1 <= x.0 <= i + 1 && g.has_edge(x.0, x.1)
                    && !pair_set_view(*other).contains(x) by {
                if x.0 != from && g.has_edge(x.0, x.1) {
                    assert(g.is_node(x.0));
                }
            }
        }
        i = i + 1;
    }
    proof {
        g.lemma_wf();
        assert forall|x: (i64, i64)| g.has_edge(x.0, x.1) implies 1 <= x.0 <= ids@.len() by {
            assert(g.is_node(x.0));
        }
    }
    v
}

/// The edges added and removed between `graph1` and `graph2`, as (source, target) pairs.
pub fn compute_edge_delta(graph1: &Graph, graph2: &Graph) -> (r: Result<EdgeDelta, SqliteGraphError>)
    requires
        graph1.wf(),
        graph2.wf(),
    ensures
        match r {
            Ok(d) => {
                &&& d.edges_added@.no_duplicates()
                &&& d.edges_removed@.no_duplicates()
                &&& forall|e: (i64, i64)|
                    d.edges_added@.contains(e) <==> graph2.has_edge(e.0, e.1) && !graph1.has_edge(
                        e.0,
                        e.1,
                    )
                &&& forall|e: (i64, i64)|
                    d.edges_removed@.contains(e) <==> graph1.has_edge(e.0, e.1)
                        && !graph2.has_edge(e.0, e.1)
            },
            Err(_) => false,
        },
{
    let edges1 = edge_set(graph1);
    let edges2 = edge_set(graph2);
    let edges_added = edges_missing_from(graph2, &edges1);
    let edges_removed = edges_missing_from(graph1, &edges2);
    Ok(EdgeDelta { edges_added, edges_removed })
}

/// Whether a refactoring, judged from a graph difference, is safe.
#[derive(Debug, Clone)]
pub struct RefactorValidation {
    /// No breaking change was found.
    pub is_safe: bool,
    /// The breaking changes found.
    pub breaking_changes: Vec<String>,
    /// The warnings found.
    pub warnings: Vec<String>,
}

/// The texts of a sequence of strings.
pub open spec fn texts(v: Seq<String>) -> Seq<Seq<char>> {
    v.map_values(|s: String| s@)
}

/// Each item on a line of its own after "  - ", the lines joined by newlines.
pub open spec fn bullet_list(items: Seq<Seq<char>>) -> Seq<char>
    decreases items.len(),
{
    if items.len() == 0 {
        Seq::empty()
    } else if items.len() == 1 {
        "  - "@ + items[0]
    } else {
        bullet_list(items.drop_last()) + "\n"@ + "  - "@ + items.last()
    }
}

/// The summary of a validation, as `RefactorValidation::summary` writes it.
pub open spec fn validation_summary(v: RefactorValidation) -> Seq<char> {
    if v.is_safe {
        if v.warnings@.len() == 0 {
            "Refactor is safe - no breaking changes"@
        } else {
            "Refactor is safe with warnings:\n"@ + bullet_list(texts(v.warnings@))
        }
    } else {
        "Refactor has breaking changes:\n"@ + bullet_list(texts(v.breaking_changes@))
            + "\nWarnings:\n"@ + bullet_list(texts(v.warnings@))
    }
}

/// The items as a bullet list.
fn bullets(items: &Vec<String>) -> (s: String)
    ensures
        s@ == bullet_list(texts(items@)),
{
    let mut s = String::new();
    let mut i: usize = 0;
    while i < items.len()
        invariant
            i <= items@.len(),
            s@ == bullet_list(texts(items@.subrange(0, i as int))),
        decreases items.len() - i,
    {
        let ghost pre = texts(items@.subrange(0, i + 1));
        assert(pre.drop_last() =~= texts(items@.subrange(0, i as int)));
        assert(pre.last() == items@[i as int]@);
        if i > 0 {
            s.append("\n");
        }
        s.append("  - ");
        s.append(items[i].as_str());
        proof {
            if i == 0 {
                assert(pre[0] == items@[0]@);
            }
        }
        i = i + 1;
    }
    assert(items@.subrange(0, items@.len() as int) =~= items@);
    s
}

impl RefactorValidation {
    /// Neither a breaking change nor a warning was found.
    pub fn is_clean(&self) -> (b: bool)
        ensures
            b == (self.breaking_changes@.len() == 0 && self.warnings@.len() == 0),
    {
        self.breaking_changes.len() == 0 && self.warnings.len() == 0
    }

    /// A readable summary: whether the refactoring is safe, then the breaking changes
    /// and the warnings as bullet lists.
    pub fn summary(&self) -> (s: String)
        ensures
            s@ == validation_summary(*self),
    {
        if self.is_safe {
            if self.warnings.len() == 0 {
                String::from_str("Refactor is safe - no breaking changes")
            } else {
                let mut s = String::from_str("Refactor is safe with warnings:\n");
                s.append(bullets(&self.warnings).as_str());
                s
            }
        } else {
            let mut s = String::from_str("Refactor has breaking changes:\n");
            s.append(bullets(&self.breaking_changes).as_str());
            s.append("\nWarnings:\n");
            s.append(bullets(&self.warnings).as_str());
            s
        }
    }
}

} // verus!
