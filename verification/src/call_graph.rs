//! Collapsing the strongly connected components of a graph (such as a call graph)
//! into supernodes, which gives the condensation of the graph.
use vstd::prelude::*;

use crate::error::SqliteGraphError;
use crate::graph::Graph;
use crate::graph_ops::{is_node_partition, mutual, strongly_connected_components};
use crate::reach::{lemma_distinct_nodes, lemma_reaches_refl, lemma_reaches_step, lemma_reaches_trans, reaches};
use crate::hashing::{
    count_map_get, count_map_view, id_map_get, id_map_insert, id_map_new, id_map_view, id_set_insert, id_set_len,
    id_set_new, id_set_view, pair_set_insert, pair_set_len, pair_set_new, pair_set_to_vec, pair_set_view, set_map_get,
    set_map_insert, set_map_keys, set_map_new, set_map_view, IdMap, PairSet, SetMap,
};
use crate::progress::{NoProgress, ProgressCallback};
use crate::text::usize_text;

verus! {

/// The condensation of a graph: each node's supernode (the index of its strongly
/// connected component), the members of each supernode, and the edges between
/// supernodes.
#[derive(Debug)]
pub struct SccCollapseResult {
    /// The supernode of each node.
    pub node_to_supernode: IdMap,
    /// The nodes of each supernode.
    pub supernode_members: SetMap,
    /// The edges between distinct supernodes, each once, in increasing order.
    pub supernode_edges: Vec<(i64, i64)>,
    /// The number of supernodes.
    pub num_sccs: usize,
}

/// `a` comes before `b` in the order of pairs: by the first item, then the second.
pub open spec fn pair_lt(a: (i64, i64), b: (i64, i64)) -> bool {
    a.0 < b.0 || (a.0 == b.0 && a.1 < b.1)
}

/// An edge from `u` to `v` joins the distinct supernodes `p.0` and `p.1`.
pub open spec fn joins(g: &Graph, sn: Map<i64, i64>, u: i64, v: i64, p: (i64, i64)) -> bool {
    &&& g.has_edge(u, v)
    &&& sn.contains_key(u)
    &&& sn.contains_key(v)
    &&& sn[u] == p.0
    &&& sn[v] == p.1
    &&& p.0 != p.1
}

/// The supernode edges: each pair of distinct supernodes that some edge joins.
pub open spec fn supernode_edge(g: &Graph, sn: Map<i64, i64>, p: (i64, i64)) -> bool {
    exists|u: i64, v: i64| #[trigger] joins(g, sn, u, v, p)
}

/// What the collapse gives: the nodes split into `num_sccs` non-empty groups, the
/// strongly connected components (two nodes share a group exactly when each reaches the
/// other); each node's supernode is its group's index, each supernode's members are its
/// group, and the edges are exactly the pairs of distinct supernodes that an edge joins,
/// in increasing order.
pub open spec fn collapse_ok(g: &Graph, res: SccCollapseResult) -> bool {
    let sn = id_map_view(res.node_to_supernode);
    let mem = set_map_view(res.supernode_members);
    let es = res.supernode_edges@;
    &&& forall|v: i64| #[trigger] sn.contains_key(v) <==> g.is_node(v)
    &&& forall|v: i64| #[trigger] sn.contains_key(v) ==> 0 <= sn[v] < res.num_sccs
    &&& forall|c: i64| #[trigger] mem.contains_key(c) <==> 0 <= c < res.num_sccs
    &&& forall|c: i64, v: i64|
        mem.contains_key(c) ==> (#[trigger] id_set_view(mem[c]).contains(v) <==> sn.contains_key(v) && sn[v] == c)
    &&& forall|c: i64| #[trigger] mem.contains_key(c) ==> exists|v: i64| #[trigger] id_set_view(mem[c]).contains(v)
    &&& forall|i: int, j: int| 0 <= i < j < es.len() ==> pair_lt(#[trigger] es[i], #[trigger] es[j])
    &&& forall|p: (i64, i64)| #[trigger] es.contains(p) <==> supernode_edge(g, sn, p)
    &&& forall|u: i64, v: i64|
        g.is_node(u) && g.is_node(v) ==> (#[trigger] sn[u] == #[trigger] sn[v] <==> mutual(g, u, v))
}

/// Collapsing has one outcome up to the numbering of the components: two results that
/// both meet `collapse_ok` put the same nodes together. So `collapse_sccs` and
/// `collapse_sccs_with_progress` find the same components.
pub proof fn lemma_collapse_same_components(g: &Graph, a: SccCollapseResult, b: SccCollapseResult)
    requires
        collapse_ok(g, a),
        collapse_ok(g, b),
    ensures
        forall|u: i64, v: i64|
            g.is_node(u) && g.is_node(v) ==> (id_map_view(a.node_to_supernode)[u] == id_map_view(
                a.node_to_supernode,
            )[v] <==> #[trigger] id_map_view(b.node_to_supernode)[u] == #[trigger] id_map_view(b.node_to_supernode)[v]),
{
}

/// The pairs of `v`, in increasing order.
fn sort_pairs(v: Vec<(i64, i64)>) -> (r: Vec<(i64, i64)>)
    requires
        v@.no_duplicates(),
    ensures
        forall|i: int, j: int| 0 <= i < j < r@.len() ==> pair_lt(#[trigger] r@[i], #[trigger] r@[j]),
        forall|p: (i64, i64)| #[trigger] r@.contains(p) <==> v@.contains(p),
{
    let ghost orig = v@;
    let mut rest = v;
    let mut r: Vec<(i64, i64)> = Vec::new();
    while rest.len() > 0
        invariant
            rest@.no_duplicates(),
            forall|i: int, j: int| 0 <= i < j < r@.len() ==> pair_lt(#[trigger] r@[i], #[trigger] r@[j]),
            forall|i: int, j: int|
                0 <= i < r@.len() && 0 <= j < rest@.len() ==> pair_lt(#[trigger] r@[i], #[trigger] rest@[j]),
            forall|p: (i64, i64)| #[trigger] orig.contains(p) <==> r@.contains(p) || rest@.contains(p),
        decreases rest.len(),
    {
        let mut m: usize = 0;
        let mut j: usize = 1;
        while j < rest.len()
            invariant
                0 < rest@.len(),
                m < rest@.len(),
                1 <= j <= rest@.len(),
                m < j,
                forall|a: int| 0 <= a < j && a != m ==> pair_lt(rest@[m as int], #[trigger] rest@[a]) || rest@[m as int]
                    == rest@[a],
            decreases rest.len() - j,
        {
            let a = rest[j];
            let b = rest[m];
            if a.0 < b.0 || (a.0 == b.0 && a.1 < b.1) {
                m = j;
            }
            j = j + 1;
        }
        let ghost r0 = r@;
        let ghost s0 = rest@;
        let x = rest.remove(m);
        r.push(x);
        proof {
            assert forall|a: int| 0 <= a < s0.len() && a != m implies pair_lt(x, #[trigger] s0[a]) by {
                assert(s0[a] != s0[m as int]);
            }
            assert forall|i: int, j: int| 0 <= i < j < r@.len() implies pair_lt(#[trigger] r@[i], #[trigger] r@[j]) by {
                if j == r@.len() - 1 {
                    assert(r@[i] == r0[i]);
                    assert(pair_lt(r0[i], s0[m as int]));
                }
            }
            assert forall|i: int, j: int|
                0 <= i < r@.len() && 0 <= j < rest@.len() implies pair_lt(#[trigger] r@[i], #[trigger] rest@[j]) by {
                let k = if j < m { j } else { j + 1 };
                assert(rest@[j] == s0[k]);
                if i < r0.len() {
                    assert(r@[i] == r0[i]);
                }
            }
            assert forall|p: (i64, i64)| #[trigger] orig.contains(p) <==> r@.contains(p) || rest@.contains(p) by {
                if s0.contains(p) {
                    let k = choose|k: int| 0 <= k < s0.len() && s0[k] == p;
                    if k < m {
                        assert(rest@[k] == p);
                    } else if k > m {
                        assert(rest@[k - 1] == p);
                    } else {
                        assert(r@[r@.len() - 1] == p);
                    }
                }
                if r0.contains(p) {
                    let k = choose|k: int| 0 <= k < r0.len() && r0[k] == p;
                    assert(r@[k] == p);
                }
                if rest@.contains(p) {
                    let k = choose|k: int| 0 <= k < rest@.len() && rest@[k] == p;
                    if k < m {
                        assert(s0[k] == p);
                    } else {
                        assert(s0[k + 1] == p);
                    }
                }
                if r@.contains(p) {
                    let k = choose|k: int| 0 <= k < r@.len() && r@[k] == p;
                    if k < r0.len() {
                        assert(r0[k] == p);
                    } else {
                        assert(s0[m as int] == p);
                    }
                }
            }
            assert forall|a: int, b: int| 0 <= a < b < rest@.len() implies rest@[a] != rest@[b] by {
                let ka = if a < m { a } else { a + 1 };
                let kb = if b < m { b } else { b + 1 };
                assert(rest@[a] == s0[ka]);
                assert(rest@[b] == s0[kb]);
            }
        }
    }
    r
}

/// Some edge that leaves a node below `lim`, or leaves `cur` towards a target in `row`,
/// joins the distinct supernodes of `p`.
spec fn joined_so_far(g: &Graph, sn: Map<i64, i64>, lim: i64, cur: i64, row: Seq<i64>, p: (i64, i64)) -> bool {
    exists|u: i64, v: i64| #[trigger] joins(g, sn, u, v, p) && (u < lim || (u == cur && row.contains(v)))
}

/// The supernode of each node: the index of its component.
fn supernode_map(graph: &Graph, ntc: &crate::hashing::CountMap) -> (sn: IdMap)
    requires
        graph.wf(),
        forall|v: i64| #[trigger] count_map_view(*ntc).contains_key(v) <==> graph.is_node(v),
        forall|v: i64| #[trigger] count_map_view(*ntc).contains_key(v) ==> count_map_view(*ntc)[v] < i64::MAX,
    ensures
        forall|v: i64| #[trigger] id_map_view(sn).contains_key(v) <==> graph.is_node(v),
        forall|v: i64| #[trigger] id_map_view(sn).contains_key(v) ==> id_map_view(sn)[v] == count_map_view(*ntc)[v],
{
    let n = graph.entity_count();
    proof {
        graph.lemma_wf();
    }
    let mut sn = id_map_new();
    let mut u: usize = 0;
    while u < n
        invariant
            graph.wf(),
            n == graph.node_count(),
            n < i64::MAX,
            u <= n,
            forall|v: i64| #[trigger] count_map_view(*ntc).contains_key(v) <==> graph.is_node(v),
            forall|v: i64| #[trigger] count_map_view(*ntc).contains_key(v) ==> count_map_view(*ntc)[v] < i64::MAX,
            forall|v: i64| #[trigger] id_map_view(sn).contains_key(v) <==> 1 <= v <= u,
            forall|v: i64| #[trigger] id_map_view(sn).contains_key(v) ==> id_map_view(sn)[v] == count_map_view(*ntc)[v],
        decreases n - u,
    {
        let v = (u + 1) as i64;
        let c = count_map_get(ntc, v);
        match c {
            Some(ci) => {
                id_map_insert(&mut sn, v, ci as i64);
            },
            None => {
                proof {
                    assert(graph.is_node(v));
                }
            },
        }
        u = u + 1;
    }
    sn
}

/// The members of each supernode: the nodes of its component.
fn supernode_members(comps: &Vec<Vec<i64>>) -> (mem: SetMap)
    requires
        comps@.len() < i64::MAX,
    ensures
        forall|c: i64| #[trigger] set_map_view(mem).contains_key(c) <==> 0 <= c < comps@.len(),
        forall|c: i64, v: i64|
            set_map_view(mem).contains_key(c) ==> (#[trigger] id_set_view(set_map_view(mem)[c]).contains(v)
                <==> comps@[c as int]@.contains(v)),
{
    let mut mem = set_map_new();
    let mut i: usize = 0;
    while i < comps.len()
        invariant
            comps@.len() < i64::MAX,
            i <= comps@.len(),
            forall|c: i64| #[trigger] set_map_view(mem).contains_key(c) <==> 0 <= c < i,
            forall|c: i64, v: i64|
                set_map_view(mem).contains_key(c) ==> (#[trigger] id_set_view(set_map_view(mem)[c]).contains(v)
                    <==> comps@[c as int]@.contains(v)),
        decreases comps.len() - i,
    {
        let comp = &comps[i];
        let mut s = id_set_new();
        let mut j: usize = 0;
        while j < comp.len()
            invariant
                j <= comp@.len(),
                forall|v: i64| #[trigger] id_set_view(s).contains(v) <==> comp@.take(j as int).contains(v),
            decreases comp.len() - j,
        {
            let x = comp[j];
            proof {
                let t1 = comp@.take(j + 1);
                let t0 = comp@.take(j as int);
                assert(t1 =~= t0.push(x));
                assert forall|v: i64| #[trigger] t1.contains(v) <==> t0.contains(v) || v == x by {
                    if t1.contains(v) {
                        let y = choose|y: int| 0 <= y < t1.len() && t1[y] == v;
                        if y < t0.len() {
                            assert(t0[y] == v);
                        }
                    }
                    if t0.contains(v) {
                        let y = choose|y: int| 0 <= y < t0.len() && t0[y] == v;
                        assert(t1[y] == v);
                    }
                    if v == x {
                        assert(t1[j as int] == v);
                    }
                }
            }
            id_set_insert(&mut s, x);
            j = j + 1;
        }
        proof {
            assert(comp@.take(comp@.len() as int) =~= comp@);
        }
        set_map_insert(&mut mem, i as i64, s);
        i = i + 1;
    }
    mem
}

/// The supernode edges, as a set: the pairs of distinct supernodes that an edge joins;
/// reports its progress after each node whose edges bring the count of edges seen to a
/// multiple of 100.
fn supernode_edge_set<F: ProgressCallback>(graph: &Graph, sn: &IdMap, progress: &F) -> (es: PairSet)
    requires
        graph.wf(),
    ensures
        forall|p: (i64, i64)| #[trigger] pair_set_view(es).contains(p) <==> supernode_edge(graph, id_map_view(*sn), p),
{
    let ghost m = id_map_view(*sn);
    let n = graph.entity_count();
    proof {
        graph.lemma_wf();
    }
    let hint: usize = if n > usize::MAX / 2 {
        usize::MAX
    } else {
        n * 2
    };
    let mut es = pair_set_new();
    let mut processed: usize = 0;
    let mut u: usize = 0;
    while u < n
        invariant
            graph.wf(),
            n == graph.node_count(),
            n < i64::MAX,
            u <= n,
            m == id_map_view(*sn),
            forall|p: (i64, i64)| #[trigger]
                pair_set_view(es).contains(p) <==> joined_so_far(graph, m, (u + 1) as i64, 0, Seq::empty(), p),
        decreases n - u,
    {
        let from = (u + 1) as i64;
        let row = graph.fetch_outgoing(from).unwrap();
        match id_map_get(sn, from) {
            Some(a) => {
                let mut j: usize = 0;
                proof {
                    assert(row@.take(0) =~= Seq::<i64>::empty());
                    assert forall|p: (i64, i64)| #[trigger]
                        pair_set_view(es).contains(p) <==> joined_so_far(graph, m, from, from, row@.take(0), p) by {
                        if joined_so_far(graph, m, (u + 1) as i64, 0, Seq::empty(), p) {
                            let (x, y) = choose|x: i64, y: i64| #[trigger] joins(graph, m, x, y, p) && (x < (u + 1) as i64 || (x == 0 && Seq::<i64>::empty().contains(y)));
                            assert(joined_so_far(graph, m, from, from, row@.take(0), p) ) by {
                                assert(joins(graph, m, x, y, p) && (x < from || (x == from && row@.take(0).contains(y))));
                            }
                        }
                        if joined_so_far(graph, m, from, from, row@.take(0), p) {
                            let (x, y) = choose|x: i64, y: i64| #[trigger] joins(graph, m, x, y, p) && (x < from || (x == from && row@.take(0).contains(y)));
                            assert(joins(graph, m, x, y, p) && (x < (u + 1) as i64 || (x == 0 && Seq::<i64>::empty().contains(y))));
                        }
                    }
                }
                while j < row.len()
                    invariant
                        graph.wf(),
                        m == id_map_view(*sn),
                        row@ == graph.succs(from),
                        j <= row@.len(),
                        m.contains_key(from),
                        m[from] == a,
                        forall|p: (i64, i64)| #[trigger]
                            pair_set_view(es).contains(p) <==> joined_so_far(graph, m, from, from, row@.take(j as int), p),
                    decreases row.len() - j,
                {
                    let to = row[j];
                    processed = processed.saturating_add(1);
                    let ghost r0 = row@.take(j as int);
                    let ghost r1 = row@.take(j + 1);
                    proof {
                        assert(r1 =~= r0.push(to));
                        assert(graph.succs(from).contains(to));
                    }
                    match id_map_get(sn, to) {
                        Some(b) => {
                            if a != b {
                                pair_set_insert(&mut es, (a, b));
                                proof {
                                    assert(joins(graph, m, from, to, (a, b)));
                                }
                            }
                        },
                        None => {},
                    }
                    proof {
                        assert forall|p: (i64, i64)| #[trigger]
                            pair_set_view(es).contains(p) <==> joined_so_far(graph, m, from, from, r1, p) by {
                            if joined_so_far(graph, m, from, from, r1, p) {
                                let (x, y) = choose|x: i64, y: i64| #[trigger] joins(graph, m, x, y, p) && (x < from || (x == from && r1.contains(y)));
                                if x == from && !r0.contains(y) {
                                    let k = choose|k: int| 0 <= k < r1.len() && r1[k] == y;
                                    if k < r0.len() {
                                        assert(r0[k] == y);
                                    }
                                    assert(y == to);
                                } else {
                                    assert(joins(graph, m, x, y, p) && (x < from || (x == from && r0.contains(y))));
                                }
                            }
                            if joined_so_far(graph, m, from, from, r0, p) {
                                let (x, y) = choose|x: i64, y: i64| #[trigger] joins(graph, m, x, y, p) && (x < from || (x == from && r0.contains(y)));
                                if x == from {
                                    let k = choose|k: int| 0 <= k < r0.len() && r0[k] == y;
                                    assert(r1[k] == y);
                                }
                                assert(joins(graph, m, x, y, p) && (x < from || (x == from && r1.contains(y))));
                            }
                            if m.contains_key(to) && a != m[to] && p == (a, m[to]) {
                                assert(r1[j as int] == to);
                                assert(joins(graph, m, from, to, p) && (from < from || (from == from && r1.contains(to))));
                            }
                        }
                    }
                    j = j + 1;
                }
                proof {
                    assert(row@.take(row@.len() as int) =~= row@);
                    assert forall|p: (i64, i64)| #[trigger]
                        pair_set_view(es).contains(p) <==> joined_so_far(graph, m, (u + 2) as i64, 0, Seq::empty(), p) by {
                        if joined_so_far(graph, m, from, from, row@, p) {
                            let (x, y) = choose|x: i64, y: i64| #[trigger] joins(graph, m, x, y, p) && (x < from || (x == from && row@.contains(y)));
                            assert(joins(graph, m, x, y, p) && (x < (u + 2) as i64 || (x == 0 && Seq::<i64>::empty().contains(y))));
                        }
                        if joined_so_far(graph, m, (u + 2) as i64, 0, Seq::empty(), p) {
                            let (x, y) = choose|x: i64, y: i64| #[trigger] joins(graph, m, x, y, p) && (x < (u + 2) as i64 || (x == 0 && Seq::<i64>::empty().contains(y)));
                            if x == from {
                                assert(graph.succs(from).contains(y));
                            }
                            assert(joins(graph, m, x, y, p) && (x < from || (x == from && row@.contains(y))));
                        }
                    }
                }
            },
            None => {
                proof {
                    assert forall|p: (i64, i64)| #[trigger]
                        pair_set_view(es).contains(p) <==> joined_so_far(graph, m, (u + 2) as i64, 0, Seq::empty(), p) by {
                        if joined_so_far(graph, m, (u + 1) as i64, 0, Seq::empty(), p) {
                            let (x, y) = choose|x: i64, y: i64| #[trigger] joins(graph, m, x, y, p) && (x < (u + 1) as i64 || (x == 0 && Seq::<i64>::empty().contains(y)));
                            assert(joins(graph, m, x, y, p) && (x < (u + 2) as i64 || (x == 0 && Seq::<i64>::empty().contains(y))));
                        }
                        if joined_so_far(graph, m, (u + 2) as i64, 0, Seq::empty(), p) {
                            let (x, y) = choose|x: i64, y: i64| #[trigger] joins(graph, m, x, y, p) && (x < (u + 2) as i64 || (x == 0 && Seq::<i64>::empty().contains(y)));
                            assert(joins(graph, m, x, y, p) && (x < (u + 1) as i64 || (x == 0 && Seq::<i64>::empty().contains(y))));
                        }
                    }
                }
            },
        }
        if processed % 100 == 0 {
            let mut msg = String::from_str("SCC collapse: processed ");
            msg.append(usize_text(processed).as_str());
            msg.append(" edges, ");
            msg.append(usize_text(pair_set_len(&es)).as_str());
            msg.append(" unique supernode edges");
            progress.on_progress(processed, Some(hint), msg.as_str());
        }
        u = u + 1;
    }
    proof {
        assert forall|p: (i64, i64)| #[trigger] pair_set_view(es).contains(p) <==> supernode_edge(graph, m, p) by {
            if supernode_edge(graph, m, p) {
                let (x, y) = choose|x: i64, y: i64| #[trigger] joins(graph, m, x, y, p);
                assert(graph.succs(x).contains(y));
                assert(joins(graph, m, x, y, p) && (x < (n + 1) as i64 || (x == 0 && Seq::<i64>::empty().contains(y))));
            }
            if joined_so_far(graph, m, (n + 1) as i64, 0, Seq::empty(), p) {
                let (x, y) = choose|x: i64, y: i64| #[trigger] joins(graph, m, x, y, p) && (x < (n + 1) as i64 || (x == 0 && Seq::<i64>::empty().contains(y)));
            }
        }
    }
    es
}

/// The condensation of the graph, reporting progress: the number of components, the
/// start of the edge phase, the edges seen (see `supernode_edge_set`), and the end.
pub fn collapse_sccs_with_progress<F: ProgressCallback>(graph: &Graph, progress: &F) -> (r: Result<
    SccCollapseResult,
    SqliteGraphError,
>)
    requires
        graph.wf(),
    ensures
        r matches Ok(res) ==> collapse_ok(graph, res),
        r is Ok,
{
    let scc = strongly_connected_components(graph)?;
    let ncomp = scc.components.len();
    let ghost comps = scc.components@;
    let ghost ntc = count_map_view(scc.node_to_component);
    proof {
        graph.lemma_wf();
    }
    let mut msg = String::from_str("SCC collapse: computed ");
    msg.append(usize_text(ncomp).as_str());
    msg.append(" SCCs");
    progress.on_progress(0, None, msg.as_str());
    if ncomp == 0 {
        progress.on_complete();
        let res = SccCollapseResult {
            node_to_supernode: id_map_new(),
            supernode_members: set_map_new(),
            supernode_edges: Vec::new(),
            num_sccs: 0,
        };
        proof {
            let sn = id_map_view(res.node_to_supernode);
            assert forall|v: i64| #[trigger] sn.contains_key(v) <==> graph.is_node(v) by {
                if graph.is_node(v) {
                    assert(ntc.contains_key(v));
                }
            }
            assert forall|p: (i64, i64)| #[trigger] res.supernode_edges@.contains(p) <==> supernode_edge(graph, sn, p) by {
                if supernode_edge(graph, sn, p) {
                    let (x, y) = choose|x: i64, y: i64| #[trigger] joins(graph, sn, x, y, p);
                }
            }
            assert forall|u: i64, v: i64| graph.is_node(u) && graph.is_node(v) implies (#[trigger] sn[u] == #[trigger] sn[v]
                <==> mutual(graph, u, v)) by {
                assert(ntc.contains_key(u));
            }
        }
        return Ok(res);
    }
    proof {
        // each component holds a node of its own, so there are no more components than nodes
        let firsts = Seq::new(comps.len(), |i: int| comps[i]@[0]);
        assert forall|i: int, j: int| 0 <= i < j < firsts.len() implies firsts[i] != firsts[j] by {
            assert(comps[i]@.contains(comps[i]@[0]));
            assert(comps[j]@.contains(comps[j]@[0]));
        }
        assert forall|x: i64| #[trigger] firsts.contains(x) implies graph.is_node(x) by {
            let i = choose|i: int| 0 <= i < firsts.len() && firsts[i] == x;
            assert(comps[i]@.contains(comps[i]@[0]));
        }
        lemma_distinct_nodes(graph, firsts);
        assert forall|v: i64| #[trigger] ntc.contains_key(v) implies ntc[v] < i64::MAX by {}
    }
    let node_to_supernode = supernode_map(graph, &scc.node_to_component);
    let members = supernode_members(&scc.components);
    progress.on_progress(0, None, "SCC collapse: building condensed graph...");
    let es = supernode_edge_set(graph, &node_to_supernode, progress);
    let unsorted = pair_set_to_vec(&es);
    let edges = sort_pairs(unsorted);
    progress.on_complete();
    let res = SccCollapseResult {
        node_to_supernode,
        supernode_members: members,
        supernode_edges: edges,
        num_sccs: ncomp,
    };
    proof {
        let sn = id_map_view(res.node_to_supernode);
        let mem = set_map_view(res.supernode_members);
        assert forall|c: i64, v: i64|
            mem.contains_key(c) implies (#[trigger] id_set_view(mem[c]).contains(v) <==> sn.contains_key(v) && sn[v]
                == c) by {
            assert(0 <= c < comps.len());
            assert(comps[c as int]@.contains(v) <==> ntc.contains_key(v) && ntc[v] == c as int);
            assert(id_set_view(mem[c]).contains(v) <==> comps[c as int]@.contains(v));
            assert(sn.contains_key(v) <==> graph.is_node(v));
            assert(ntc.contains_key(v) <==> graph.is_node(v));
            if sn.contains_key(v) {
                assert(sn[v] == ntc[v]);
            }
        }
        assert forall|v: i64| #[trigger] sn.contains_key(v) implies 0 <= sn[v] < res.num_sccs by {
            assert(sn[v] == ntc[v]);
            assert(ntc.contains_key(v));
        }
        assert forall|c: i64| #[trigger] mem.contains_key(c) implies exists|v: i64| #[trigger] id_set_view(mem[c]).contains(v) by {
            let v = comps[c as int]@[0];
            assert(comps[c as int]@.contains(v));
            assert(id_set_view(mem[c]).contains(v));
        }
        assert forall|p: (i64, i64)| #[trigger] res.supernode_edges@.contains(p) <==> supernode_edge(graph, sn, p) by {
            assert(unsorted@.to_set().contains(p) <==> unsorted@.contains(p));
        }
        assert forall|u: i64, v: i64| graph.is_node(u) && graph.is_node(v) implies (#[trigger] sn[u] == #[trigger] sn[v]
            <==> mutual(graph, u, v)) by {
            assert(sn.contains_key(u) && sn.contains_key(v));
            assert(sn[u] == ntc[u] && sn[v] == ntc[v]);
            assert(ntc[u] == ntc[v] <==> mutual(graph, u, v));
        }
    }
    Ok(res)
}

/// The condensation of the graph: every strongly connected component becomes a
/// supernode numbered by its index, and the supernode edges are the pairs of distinct
/// supernodes that an edge joins, in increasing order.
pub fn collapse_sccs(graph: &Graph) -> (r: Result<SccCollapseResult, SqliteGraphError>)
    requires
        graph.wf(),
    ensures
        r matches Ok(res) ==> collapse_ok(graph, res),
        r is Ok,
{
    collapse_sccs_with_progress(graph, &NoProgress)
}

impl SccCollapseResult {
    /// The supernode of `node`, if it has one.
    pub fn supernode_for(&self, node: i64) -> (r: Option<i64>)
        ensures
            r == (if id_map_view(self.node_to_supernode).contains_key(node) {
                Some(id_map_view(self.node_to_supernode)[node])
            } else {
                None
            }),
    {
        id_map_get(&self.node_to_supernode, node)
    }

    /// The members of `supernode`, if it exists.
    pub fn members_of(&self, supernode: i64) -> (r: Option<&ahash::AHashSet<i64>>)
        ensures
            r == (if set_map_view(self.supernode_members).contains_key(supernode) {
                Some(&set_map_view(self.supernode_members)[supernode])
            } else {
                None
            }),
    {
        set_map_get(&self.supernode_members, supernode)
    }

    /// `supernode` exists and has exactly one member.
    pub fn is_trivial(&self, supernode: i64) -> (b: bool)
        ensures
            b == (set_map_view(self.supernode_members).contains_key(supernode) && id_set_view(
                set_map_view(self.supernode_members)[supernode],
            ).len() == 1),
    {
        match self.members_of(supernode) {
            Some(members) => id_set_len(members) == 1,
            None => false,
        }
    }

    /// The supernodes with more than one member.
    pub open spec fn non_trivial(&self) -> Set<i64> {
        set_map_view(self.supernode_members).dom().filter(
            |c: i64| id_set_view(set_map_view(self.supernode_members)[c]).len() > 1,
        )
    }

    /// The number of supernodes with more than one member.
    pub fn non_trivial_count(&self) -> (n: usize)
        ensures
            n == self.non_trivial().len(),
    {
        let keys = set_map_keys(&self.supernode_members);
        let ghost mem = set_map_view(self.supernode_members);
        let ghost f = |c: i64| id_set_view(mem[c]).len() > 1;
        let mut n: usize = 0;
        let mut i: usize = 0;
        proof {
            assert(keys@.take(0).to_set().filter(f) =~= Set::<i64>::empty());
        }
        while i < keys.len()
            invariant
                keys@.no_duplicates(),
                keys@.to_set() == mem.dom(),
                mem == set_map_view(self.supernode_members),
                f == (|c: i64| id_set_view(mem[c]).len() > 1),
                i <= keys@.len(),
                keys@.take(i as int).to_set().filter(f).finite(),
                n == keys@.take(i as int).to_set().filter(f).len(),
                n <= i,
            decreases keys.len() - i,
        {
            let c = keys[i];
            let ghost old_set = keys@.take(i as int).to_set().filter(f);
            proof {
                let t1 = keys@.take(i + 1);
                let t0 = keys@.take(i as int);
                assert(t1 =~= t0.push(c));
                assert(!t0.contains(c)) by {
                    if t0.contains(c) {
                        let y = choose|y: int| 0 <= y < t0.len() && t0[y] == c;
                        assert(keys@[y] == keys@[i as int]);
                    }
                }
                assert forall|v: i64| #[trigger] t1.to_set().filter(f).contains(v) <==> old_set.contains(v) || (v == c && f(c)) by {
                    if t1.contains(v) {
                        let y = choose|y: int| 0 <= y < t1.len() && t1[y] == v;
                        if y < t0.len() {
                            assert(t0[y] == v);
                        }
                    }
                    if t0.contains(v) {
                        let y = choose|y: int| 0 <= y < t0.len() && t0[y] == v;
                        assert(t1[y] == v);
                    }
                    if v == c {
                        assert(t1[i as int] == v);
                    }
                }
                if f(c) {
                    assert(t1.to_set().filter(f) =~= old_set.insert(c));
                } else {
                    assert(t1.to_set().filter(f) =~= old_set);
                }
            }
            let members = set_map_get(&self.supernode_members, c).unwrap();
            if id_set_len(members) > 1 {
                n = n + 1;
            }
            i = i + 1;
        }
        proof {
            assert(keys@.take(keys@.len() as int) =~= keys@);
            assert(keys@.to_set().filter(f) =~= self.non_trivial());
        }
        n
    }

    /// The members of the supernodes with more than one member.
    pub fn non_trivial_nodes(&self) -> (s: ahash::AHashSet<i64>)
        ensures
            forall|v: i64| #[trigger] id_set_view(s).contains(v) <==> exists|c: i64|
                #[trigger] self.non_trivial().contains(c) && id_set_view(set_map_view(self.supernode_members)[c]).contains(v),
    {
        let keys = set_map_keys(&self.supernode_members);
        let ghost mem = set_map_view(self.supernode_members);
        let mut s = id_set_new();
        let mut i: usize = 0;
        while i < keys.len()
            invariant
                keys@.to_set() == mem.dom(),
                mem == set_map_view(self.supernode_members),
                i <= keys@.len(),
                forall|v: i64| #[trigger] id_set_view(s).contains(v) <==> exists|k: int|
                    0 <= k < i && #[trigger] self.non_trivial().contains(keys@[k]) && id_set_view(mem[keys@[k]]).contains(v),
            decreases keys.len() - i,
        {
            let c = keys[i];
            proof {
                assert(keys@.to_set().contains(c));
            }
            let members = set_map_get(&self.supernode_members, c).unwrap();
            if id_set_len(members) > 1 {
                let items = crate::hashing::id_set_to_vec(members);
                let ghost s0 = id_set_view(s);
                let mut j: usize = 0;
                while j < items.len()
                    invariant
                        j <= items@.len(),
                        forall|v: i64| #[trigger] id_set_view(s).contains(v) <==> s0.contains(v) || items@.take(j as int).contains(v),
                    decreases items.len() - j,
                {
                    let x = items[j];
                    proof {
                        let t1 = items@.take(j + 1);
                        let t0 = items@.take(j as int);
                        assert(t1 =~= t0.push(x));
                        assert forall|v: i64| #[trigger] t1.contains(v) <==> t0.contains(v) || v == x by {
                            if t1.contains(v) {
                                let y = choose|y: int| 0 <= y < t1.len() && t1[y] == v;
                                if y < t0.len() {
                                    assert(t0[y] == v);
                                }
                            }
                            if t0.contains(v) {
                                let y = choose|y: int| 0 <= y < t0.len() && t0[y] == v;
                                assert(t1[y] == v);
                            }
                            if v == x {
                                assert(t1[j as int] == v);
                            }
                        }
                    }
                    id_set_insert(&mut s, x);
                    j = j + 1;
                }
                proof {
                    assert(items@.take(items@.len() as int) =~= items@);
                    assert(self.non_trivial().contains(c));
                    assert forall|v: i64| #[trigger] id_set_view(s).contains(v) <==> exists|k: int|
                        0 <= k < i + 1 && #[trigger] self.non_trivial().contains(keys@[k]) && id_set_view(mem[keys@[k]]).contains(v) by {
                        if items@.contains(v) {
                            assert(items@.to_set().contains(v));
                            assert(0 <= i < i + 1 && self.non_trivial().contains(keys@[i as int]) && id_set_view(mem[keys@[i as int]]).contains(v));
                        }
                        if exists|k: int| 0 <= k < i + 1 && #[trigger] self.non_trivial().contains(keys@[k]) && id_set_view(mem[keys@[k]]).contains(v) {
                            let k = choose|k: int| 0 <= k < i + 1 && #[trigger] self.non_trivial().contains(keys@[k]) && id_set_view(mem[keys@[k]]).contains(v);
                            if k == i {
                                assert(items@.to_set().contains(v));
                            }
                        }
                    }
                }
            } else {
                proof {
                    assert(!self.non_trivial().contains(c));
                    assert forall|v: i64| #[trigger] id_set_view(s).contains(v) <==> exists|k: int|
                        0 <= k < i + 1 && #[trigger] self.non_trivial().contains(keys@[k]) && id_set_view(mem[keys@[k]]).contains(v) by {
                        if exists|k: int| 0 <= k < i + 1 && #[trigger] self.non_trivial().contains(keys@[k]) && id_set_view(mem[keys@[k]]).contains(v) {
                            let k = choose|k: int| 0 <= k < i + 1 && #[trigger] self.non_trivial().contains(keys@[k]) && id_set_view(mem[keys@[k]]).contains(v);
                            assert(k != i);
                        }
                    }
                }
            }
            i = i + 1;
        }
        proof {
            assert forall|v: i64| #[trigger] id_set_view(s).contains(v) <==> exists|c: i64|
                #[trigger] self.non_trivial().contains(c) && id_set_view(mem[c]).contains(v) by {
                if exists|c: i64| #[trigger] self.non_trivial().contains(c) && id_set_view(mem[c]).contains(v) {
                    let c = choose|c: i64| #[trigger] self.non_trivial().contains(c) && id_set_view(mem[c]).contains(v);
                    assert(keys@.to_set().contains(c));
                    let k = choose|k: int| 0 <= k < keys@.len() && keys@[k] == c;
                    assert(self.non_trivial().contains(keys@[k]));
                }
            }
        }
        s
    }
}

/// `b` is reached from `a` over exactly `k` supernode edges of `es`.
pub open spec fn super_path(es: Seq<(i64, i64)>, a: i64, b: i64, k: nat) -> bool
    decreases k,
{
    if k == 0 {
        a == b
    } else {
        exists|m: i64| super_path(es, a, m, (k - 1) as nat) && #[trigger] es.contains((m, b))
    }
}

/// Along supernode edges, every member of the first supernode reaches every member of
/// the last.
proof fn lemma_super_path_reaches(g: &Graph, res: SccCollapseResult, a: i64, b: i64, k: nat, x: i64, y: i64)
    requires
        g.wf(),
        collapse_ok(g, res),
        super_path(res.supernode_edges@, a, b, k),
        g.is_node(x),
        g.is_node(y),
        id_map_view(res.node_to_supernode)[x] == a,
        id_map_view(res.node_to_supernode)[y] == b,
    ensures
        reaches(g, x, y),
    decreases k,
{
    let sn = id_map_view(res.node_to_supernode);
    let es = res.supernode_edges@;
    if k == 0 {
        assert(sn[x] == sn[y]);
    } else {
        let m = choose|m: i64| super_path(es, a, m, (k - 1) as nat) && #[trigger] es.contains((m, b));
        assert(supernode_edge(g, sn, (m, b)));
        let (u, v) = choose|u: i64, v: i64| #[trigger] joins(g, sn, u, v, (m, b));
        g.lemma_wf();
        assert(g.succs(u).contains(v));
        lemma_super_path_reaches(g, res, a, m, (k - 1) as nat, x, u);
        lemma_reaches_step(g, x, u, v);
        assert(sn[v] == sn[y]);
        assert(mutual(g, v, y));
        lemma_reaches_trans(g, x, v, y);
    }
}

/// The condensation is acyclic: no supernode reaches itself over one or more supernode
/// edges.
pub proof fn lemma_condensation_acyclic(g: &Graph, res: SccCollapseResult, c: i64, k: nat)
    requires
        g.wf(),
        collapse_ok(g, res),
        k >= 1,
    ensures
        !super_path(res.supernode_edges@, c, c, k),
{
    let sn = id_map_view(res.node_to_supernode);
    let es = res.supernode_edges@;
    if super_path(es, c, c, k) {
        let m = choose|m: i64| super_path(es, c, m, (k - 1) as nat) && #[trigger] es.contains((m, c));
        assert(supernode_edge(g, sn, (m, c)));
        let (u, v) = choose|u: i64, v: i64| #[trigger] joins(g, sn, u, v, (m, c));
        g.lemma_wf();
        assert(g.succs(u).contains(v));
        lemma_super_path_reaches(g, res, c, m, (k - 1) as nat, v, u);
        lemma_reaches_refl(g, u);
        lemma_reaches_step(g, u, u, v);
        assert(mutual(g, u, v));
        assert(sn[u] == sn[v]);
    }
}

} // verus!
