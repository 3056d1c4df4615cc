//! Control dependence from post-dominators, by the edge-based definition: the target
//! of an edge depends on its source when the source neither post-dominates the target
//! nor is its immediate post-dominator.
use vstd::prelude::*;

use crate::dominators::{dominators, dominators_ok, DominatorResult};
use crate::error::SqliteGraphError;
use crate::graph::{lemma_out_of_contains, node_ids, Graph};
use crate::hashing::{
    id_set_contains, id_set_insert, id_set_new, id_set_to_vec, id_set_view, opt_map_get, opt_map_view, set_map_get,
    set_map_insert, set_map_keys, set_map_new, set_map_remove, set_map_view, OptMap, SetMap,
};
use std::collections::HashSet;

verus! {

broadcast use vstd::std_specs::hash::group_hash_axioms;

/// Post-dominators: for each node, the nodes that lie on every path from it to the exit,
/// and its immediate post-dominator.
#[derive(Debug)]
pub struct PostDominatorResult {
    /// For each node, the nodes that post-dominate it.
    pub post_dom: SetMap,
    /// For each node, its immediate post-dominator (none for the exit).
    pub ipdom: OptMap,
}

/// `y` depends on `x` across an edge `x -> y` under the post-dominator sets `pd` and
/// the immediate post-dominators `ip`: `x` does not post-dominate `y`, and is not the
/// immediate post-dominator of `y`.
pub open spec fn cd_pair(pd: Map<i64, ahash::AHashSet<i64>>, ip: Map<i64, Option<i64>>, x: i64, y: i64) -> bool {
    &&& !(pd.contains_key(y) && id_set_view(pd[y]).contains(x))
    &&& !(ip.contains_key(y) && ip[y] == Some(x))
}

/// The edge-based test of control dependence for the edge `from -> to`.
fn is_control_dependent(from: i64, to: i64, post_dom: &SetMap, ipdom: &OptMap) -> (b: bool)
    ensures
        b == cd_pair(set_map_view(*post_dom), opt_map_view(*ipdom), from, to),
{
    let from_post_dominates_to = match set_map_get(post_dom, to) {
        Some(set) => id_set_contains(set, from),
        None => false,
    };
    if from_post_dominates_to {
        return false;
    }
    let ipdom_of_to = match opt_map_get(ipdom, to) {
        Some(x) => x,
        None => None,
    };
    if ipdom_of_to == Some(from) {
        return false;
    }
    true
}

/// The edges `x -> y` looked at once the nodes before `cur` and the targets `prefix`
/// of `cur` have been gone through.
pub open spec fn seen_edge(g: &Graph, cur: int, prefix: Seq<i64>, x: i64, y: i64) -> bool {
    ||| (1 <= x < cur && g.has_edge(x, y))
    ||| (x == cur && prefix.contains(y))
}

/// The dependence maps after the edges that `seen` names: `cdg` maps each source to the
/// targets that depend on it, `rev` each target to the sources it depends on; a node
/// has an entry exactly when its set is not empty.
pub open spec fn cd_maps(
    pd: Map<i64, ahash::AHashSet<i64>>,
    ip: Map<i64, Option<i64>>,
    cdg: Map<i64, ahash::AHashSet<i64>>,
    rev: Map<i64, ahash::AHashSet<i64>>,
    seen: spec_fn(i64, i64) -> bool,
) -> bool {
    &&& forall|x: i64| #[trigger] cdg.contains_key(x) <==> exists|y: i64| #[trigger] seen(x, y) && cd_pair(pd, ip, x, y)
    &&& forall|x: i64, y: i64|
        #[trigger] cdg.contains_key(x) ==> (#[trigger] id_set_view(cdg[x]).contains(y) <==> seen(x, y) && cd_pair(
            pd,
            ip,
            x,
            y,
        ))
    &&& forall|y: i64| #[trigger] rev.contains_key(y) <==> exists|x: i64| #[trigger] seen(x, y) && cd_pair(pd, ip, x, y)
    &&& forall|x: i64, y: i64|
        #[trigger] rev.contains_key(y) ==> (#[trigger] id_set_view(rev[y]).contains(x) <==> seen(x, y) && cd_pair(
            pd,
            ip,
            x,
            y,
        ))
}

/// Control dependence: `cdg` maps each node to the nodes that depend on it, and
/// `reverse_cdg` each node to the nodes it depends on.
#[derive(Debug)]
pub struct ControlDependenceResult {
    /// For each node that controls some node, the nodes it controls.
    pub cdg: SetMap,
    /// For each node that depends on some node, the nodes it depends on.
    pub reverse_cdg: SetMap,
}

/// Adds `y` to the set that `m` stores under `x`, making the set when there is none.
fn add_to_set_map(m: &mut SetMap, x: i64, y: i64)
    ensures
        set_map_view(*final(m)).dom() == set_map_view(*old(m)).dom().insert(x),
        forall|k: i64| k != x && #[trigger] set_map_view(*old(m)).contains_key(k) ==> set_map_view(*final(m))[k] == set_map_view(*old(m))[k],
        id_set_view(set_map_view(*final(m))[x]) == (if set_map_view(*old(m)).contains_key(x) {
            id_set_view(set_map_view(*old(m))[x])
        } else {
            Set::empty()
        }).insert(y),
{
    let mut set = match set_map_remove(m, x) {
        Some(s) => s,
        None => id_set_new(),
    };
    id_set_insert(&mut set, y);
    set_map_insert(m, x, set);
    proof {
        assert(set_map_view(*m).dom() =~= set_map_view(*old(m)).dom().insert(x));
    }
}

/// The control dependence graph of `graph` under the post-dominators `post_result`: for
/// each edge `x -> y` of the graph with `cd_pair(x, y)`, `y` is in `cdg[x]` and `x` in
/// `reverse_cdg[y]`, and nothing else is.
pub fn control_dependence_graph(graph: &Graph, post_result: &PostDominatorResult) -> (r: Result<
    ControlDependenceResult,
    SqliteGraphError,
>)
    requires
        graph.wf(),
    ensures
        r matches Ok(res) && cd_maps(
            set_map_view(post_result.post_dom),
            opt_map_view(post_result.ipdom),
            set_map_view(res.cdg),
            set_map_view(res.reverse_cdg),
            |x: i64, y: i64| graph.has_edge(x, y),
        ),
{
    let ghost pd = set_map_view(post_result.post_dom);
    let ghost ip = opt_map_view(post_result.ipdom);
    let mut cdg = set_map_new();
    let mut reverse_cdg = set_map_new();
    let all_nodes = graph.all_entity_ids()?;
    proof {
        graph.lemma_wf();
    }
    let n = all_nodes.len();
    proof {
        let seen = |x: i64, y: i64| seen_edge(graph, 1, Seq::empty(), x, y);
        assert(set_map_view(cdg).dom() =~= Set::<i64>::empty());
        assert(set_map_view(reverse_cdg).dom() =~= Set::<i64>::empty());
        assert(cd_maps(pd, ip, set_map_view(cdg), set_map_view(reverse_cdg), seen));
    }
    let mut i: usize = 0;
    while i < n
        invariant
            graph.wf(),
            pd == set_map_view(post_result.post_dom),
            ip == opt_map_view(post_result.ipdom),
            all_nodes@ == node_ids(graph.node_count()),
            n == all_nodes@.len(),
            i <= n,
            cd_maps(pd, ip, set_map_view(cdg), set_map_view(reverse_cdg), |x: i64, y: i64| seen_edge(graph, i + 1, Seq::empty(), x, y)),
        decreases n - i,
    {
        let from = all_nodes[i];
        let outgoing = graph.fetch_outgoing(from).unwrap();
        proof {
            assert(outgoing@.take(0) =~= Seq::<i64>::empty());
            graph.lemma_wf();
            assert(from == all_nodes@[i as int]);
        }
        let mut j: usize = 0;
        while j < outgoing.len()
            invariant
                graph.wf(),
                pd == set_map_view(post_result.post_dom),
                ip == opt_map_view(post_result.ipdom),
                from == i + 1,
                i < n,
                n == graph.node_count(),
                outgoing@ == graph.succs(from),
                j <= outgoing@.len(),
                cd_maps(pd, ip, set_map_view(cdg), set_map_view(reverse_cdg), |x: i64, y: i64| seen_edge(graph, i + 1, outgoing@.take(j as int), x, y)),
            decreases outgoing.len() - j,
        {
            let to = outgoing[j];
            let ghost s0 = |x: i64, y: i64| seen_edge(graph, i + 1, outgoing@.take(j as int), x, y);
            let ghost s1 = |x: i64, y: i64| seen_edge(graph, i + 1, outgoing@.take(j + 1), x, y);
            proof {
                let t0 = outgoing@.take(j as int);
                let t1 = outgoing@.take(j + 1);
                assert(t1 =~= t0.push(to));
                assert forall|y: i64| #[trigger] t1.contains(y) <==> t0.contains(y) || y == to by {
                    if t1.contains(y) {
                        let k = choose|k: int| 0 <= k < t1.len() && t1[k] == y;
                        if k < t0.len() {
                            assert(t0[k] == y);
                        }
                    }
                    if t0.contains(y) {
                        let k = choose|k: int| 0 <= k < t0.len() && t0[k] == y;
                        assert(t1[k] == y);
                    }
                    if y == to {
                        assert(t1[j as int] == y);
                    }
                }
                assert forall|x: i64, y: i64| #[trigger] s1(x, y) <==> s0(x, y) || (x == from && y == to) by {}
            }
            if is_control_dependent(from, to, &post_result.post_dom, &post_result.ipdom) {
                let ghost c0 = set_map_view(cdg);
                let ghost r0 = set_map_view(reverse_cdg);
                add_to_set_map(&mut cdg, from, to);
                add_to_set_map(&mut reverse_cdg, to, from);
                proof {
                    let c1 = set_map_view(cdg);
                    let r1 = set_map_view(reverse_cdg);
                    assert forall|x: i64| #[trigger] c1.contains_key(x) <==> exists|y: i64| #[trigger] s1(x, y) && cd_pair(pd, ip, x, y) by {
                        if c1.contains_key(x) && x != from {
                            assert(c0.contains_key(x));
                            let y = choose|y: i64| #[trigger] s0(x, y) && cd_pair(pd, ip, x, y);
                            assert(s1(x, y));
                        }
                        if x == from {
                            assert(s1(from, to));
                        }
                        if exists|y: i64| #[trigger] s1(x, y) && cd_pair(pd, ip, x, y) {
                            let y = choose|y: i64| #[trigger] s1(x, y) && cd_pair(pd, ip, x, y);
                            if !(x == from && y == to) {
                                assert(s0(x, y));
                            }
                        }
                    }
                    assert forall|x: i64, y: i64| #[trigger] c1.contains_key(x) implies (#[trigger] id_set_view(c1[x]).contains(y)
                        <==> s1(x, y) && cd_pair(pd, ip, x, y)) by {
                        if x != from {
                            assert(c0.contains_key(x));
                        }
                    }
                    assert forall|y: i64| #[trigger] r1.contains_key(y) <==> exists|x: i64| #[trigger] s1(x, y) && cd_pair(pd, ip, x, y) by {
                        if r1.contains_key(y) && y != to {
                            assert(r0.contains_key(y));
                            let x = choose|x: i64| #[trigger] s0(x, y) && cd_pair(pd, ip, x, y);
                            assert(s1(x, y));
                        }
                        if y == to {
                            assert(s1(from, to));
                        }
                        if exists|x: i64| #[trigger] s1(x, y) && cd_pair(pd, ip, x, y) {
                            let x = choose|x: i64| #[trigger] s1(x, y) && cd_pair(pd, ip, x, y);
                            if !(x == from && y == to) {
                                assert(s0(x, y));
                            }
                        }
                    }
                    assert forall|x: i64, y: i64| #[trigger] r1.contains_key(y) implies (#[trigger] id_set_view(r1[y]).contains(x)
                        <==> s1(x, y) && cd_pair(pd, ip, x, y)) by {
                        if y != to {
                            assert(r0.contains_key(y));
                        }
                    }
                }
            } else {
                proof {
                    let c1 = set_map_view(cdg);
                    let r1 = set_map_view(reverse_cdg);
                    assert forall|x: i64| #[trigger] c1.contains_key(x) <==> exists|y: i64| #[trigger] s1(x, y) && cd_pair(pd, ip, x, y) by {
                        if c1.contains_key(x) {
                            let y = choose|y: i64| #[trigger] s0(x, y) && cd_pair(pd, ip, x, y);
                            assert(s1(x, y));
                        }
                        if exists|y: i64| #[trigger] s1(x, y) && cd_pair(pd, ip, x, y) {
                            let y = choose|y: i64| #[trigger] s1(x, y) && cd_pair(pd, ip, x, y);
                            assert(s0(x, y));
                        }
                    }
                    assert forall|y: i64| #[trigger] r1.contains_key(y) <==> exists|x: i64| #[trigger] s1(x, y) && cd_pair(pd, ip, x, y) by {
                        if r1.contains_key(y) {
                            let x = choose|x: i64| #[trigger] s0(x, y) && cd_pair(pd, ip, x, y);
                            assert(s1(x, y));
                        }
                        if exists|x: i64| #[trigger] s1(x, y) && cd_pair(pd, ip, x, y) {
                            let x = choose|x: i64| #[trigger] s1(x, y) && cd_pair(pd, ip, x, y);
                            assert(s0(x, y));
                        }
                    }
                }
            }
            j = j + 1;
        }
        proof {
            let s0 = |x: i64, y: i64| seen_edge(graph, i + 1, outgoing@.take(outgoing@.len() as int), x, y);
            let s1 = |x: i64, y: i64| seen_edge(graph, i + 2, Seq::empty(), x, y);
            assert(outgoing@.take(outgoing@.len() as int) =~= outgoing@);
            assert forall|x: i64, y: i64| #[trigger] s1(x, y) <==> s0(x, y) by {}
            let c1 = set_map_view(cdg);
            let r1 = set_map_view(reverse_cdg);
            assert forall|x: i64| #[trigger] c1.contains_key(x) <==> exists|y: i64| #[trigger] s1(x, y) && cd_pair(pd, ip, x, y) by {
                if c1.contains_key(x) {
                    let y = choose|y: i64| #[trigger] s0(x, y) && cd_pair(pd, ip, x, y);
                    assert(s1(x, y));
                }
                if exists|y: i64| #[trigger] s1(x, y) && cd_pair(pd, ip, x, y) {
                    let y = choose|y: i64| #[trigger] s1(x, y) && cd_pair(pd, ip, x, y);
                    assert(s0(x, y));
                }
            }
            assert forall|y: i64| #[trigger] r1.contains_key(y) <==> exists|x: i64| #[trigger] s1(x, y) && cd_pair(pd, ip, x, y) by {
                if r1.contains_key(y) {
                    let x = choose|x: i64| #[trigger] s0(x, y) && cd_pair(pd, ip, x, y);
                    assert(s1(x, y));
                }
                if exists|x: i64| #[trigger] s1(x, y) && cd_pair(pd, ip, x, y) {
                    let x = choose|x: i64| #[trigger] s1(x, y) && cd_pair(pd, ip, x, y);
                    assert(s0(x, y));
                }
            }
        }
        i = i + 1;
    }
    proof {
        let s0 = |x: i64, y: i64| seen_edge(graph, n + 1, Seq::empty(), x, y);
        let s1 = |x: i64, y: i64| graph.has_edge(x, y);
        assert forall|x: i64, y: i64| #[trigger] s1(x, y) <==> s0(x, y) by {
            if graph.has_edge(x, y) {
                assert(graph.succs(x).contains(y));
            }
        }
        let c1 = set_map_view(cdg);
        let r1 = set_map_view(reverse_cdg);
        assert forall|x: i64| #[trigger] c1.contains_key(x) <==> exists|y: i64| #[trigger] s1(x, y) && cd_pair(pd, ip, x, y) by {
            if c1.contains_key(x) {
                let y = choose|y: i64| #[trigger] s0(x, y) && cd_pair(pd, ip, x, y);
                assert(s1(x, y));
            }
            if exists|y: i64| #[trigger] s1(x, y) && cd_pair(pd, ip, x, y) {
                let y = choose|y: i64| #[trigger] s1(x, y) && cd_pair(pd, ip, x, y);
                assert(s0(x, y));
            }
        }
        assert forall|y: i64| #[trigger] r1.contains_key(y) <==> exists|x: i64| #[trigger] s1(x, y) && cd_pair(pd, ip, x, y) by {
            if r1.contains_key(y) {
                let x = choose|x: i64| #[trigger] s0(x, y) && cd_pair(pd, ip, x, y);
                assert(s1(x, y));
            }
            if exists|x: i64| #[trigger] s1(x, y) && cd_pair(pd, ip, x, y) {
                let x = choose|x: i64| #[trigger] s1(x, y) && cd_pair(pd, ip, x, y);
                assert(s0(x, y));
            }
        }
    }
    Ok(ControlDependenceResult { cdg, reverse_cdg })
}

/// `x` controls `y` in the dependence map `cdg`.
pub open spec fn controls_in(cdg: Map<i64, ahash::AHashSet<i64>>, x: i64, y: i64) -> bool {
    cdg.contains_key(x) && id_set_view(cdg[x]).contains(y)
}

/// `b` is reached from `a` in `cdg` over exactly `k` dependence edges.
pub open spec fn cd_path(cdg: Map<i64, ahash::AHashSet<i64>>, a: i64, b: i64, k: nat) -> bool
    decreases k,
{
    if k == 0 {
        a == b
    } else {
        exists|m: i64| cd_path(cdg, a, m, (k - 1) as nat) && #[trigger] controls_in(cdg, m, b)
    }
}

/// Some node of `cdg` reaches itself over one or more dependence edges.
pub open spec fn has_cycle(cdg: Map<i64, ahash::AHashSet<i64>>) -> bool {
    exists|v: i64, k: nat| k >= 1 && #[trigger] cd_path(cdg, v, v, k)
}

/// A path of one or more edges starts with an edge.
proof fn lemma_path_first(cdg: Map<i64, ahash::AHashSet<i64>>, a: i64, b: i64, k: nat)
    requires
        k >= 1,
        cd_path(cdg, a, b, k),
    ensures
        exists|c: i64| #[trigger] controls_in(cdg, a, c) && cd_path(cdg, c, b, (k - 1) as nat),
    decreases k,
{
    let m = choose|m: i64| cd_path(cdg, a, m, (k - 1) as nat) && #[trigger] controls_in(cdg, m, b);
    if k == 1 {
        assert(cd_path(cdg, b, b, 0));
        assert(controls_in(cdg, a, b) && cd_path(cdg, b, b, 0));
    } else {
        lemma_path_first(cdg, a, m, (k - 1) as nat);
        let c = choose|c: i64| #[trigger] controls_in(cdg, a, c) && cd_path(cdg, c, m, (k - 2) as nat);
        assert(cd_path(cdg, c, b, (k - 1) as nat));
    }
}

/// A path from a node of a set closed under dependence edges stays in the set.
proof fn lemma_path_stays(cdg: Map<i64, ahash::AHashSet<i64>>, blk: Set<i64>, a: i64, b: i64, k: nat)
    requires
        blk.contains(a),
        forall|x: i64, y: i64| blk.contains(x) && #[trigger] controls_in(cdg, x, y) ==> blk.contains(y),
        cd_path(cdg, a, b, k),
    ensures
        blk.contains(b),
    decreases k,
{
    if k > 0 {
        let m = choose|m: i64| cd_path(cdg, a, m, (k - 1) as nat) && #[trigger] controls_in(cdg, m, b);
        lemma_path_stays(cdg, blk, a, m, (k - 1) as nat);
    }
}

/// The finished nodes, `visited` less `stack`: closed under dependence edges, and no
/// cycle starts from one of them.
pub open spec fn finished_ok(cdg: Map<i64, ahash::AHashSet<i64>>, visited: Set<i64>, stack: Set<i64>) -> bool {
    &&& forall|x: i64, y: i64|
        visited.contains(x) && !stack.contains(x) && #[trigger] controls_in(cdg, x, y) ==> visited.contains(y)
            && !stack.contains(y)
    &&& forall|x: i64, k: nat| visited.contains(x) && !stack.contains(x) && k >= 1 ==> !#[trigger] cd_path(cdg, x, x, k)
}

impl ControlDependenceResult {
    /// `controlled` depends on `controller`: it lies in the set of `controller` in `cdg`.
    pub fn controls(&self, controller: i64, controlled: i64) -> (b: bool)
        ensures
            b == controls_in(set_map_view(self.cdg), controller, controlled),
    {
        match set_map_get(&self.cdg, controller) {
            Some(set) => id_set_contains(set, controlled),
            None => false,
        }
    }

    /// `dependent` depends on `dependency`: it lies in the set of `dependent` in
    /// `reverse_cdg`.
    pub fn depends_on(&self, dependent: i64, dependency: i64) -> (b: bool)
        ensures
            b == controls_in(set_map_view(self.reverse_cdg), dependent, dependency),
    {
        match set_map_get(&self.reverse_cdg, dependent) {
            Some(set) => id_set_contains(set, dependency),
            None => false,
        }
    }

    /// The nodes that `controller` controls, if it has an entry.
    pub fn controlled_by(&self, controller: i64) -> (r: Option<&ahash::AHashSet<i64>>)
        ensures
            r == (if set_map_view(self.cdg).contains_key(controller) {
                Some(&set_map_view(self.cdg)[controller])
            } else {
                None
            }),
    {
        set_map_get(&self.cdg, controller)
    }

    /// The nodes that `dependent` depends on, if it has an entry.
    pub fn dependencies_of(&self, dependent: i64) -> (r: Option<&ahash::AHashSet<i64>>)
        ensures
            r == (if set_map_view(self.reverse_cdg).contains_key(dependent) {
                Some(&set_map_view(self.reverse_cdg)[dependent])
            } else {
                None
            }),
    {
        set_map_get(&self.reverse_cdg, dependent)
    }

    /// No node reaches itself over the edges of `cdg`, found by depth-first search from
    /// each node that controls some node.
    pub fn is_acyclic(&self) -> (b: bool)
        ensures
            b == !has_cycle(set_map_view(self.cdg)),
    {
        let ghost cdg = set_map_view(self.cdg);
        let keys = set_map_keys(&self.cdg);
        let mut visited: HashSet<i64> = HashSet::new();
        let mut rec_stack: HashSet<i64> = HashSet::new();
        let mut i: usize = 0;
        while i < keys.len()
            invariant
                cdg == set_map_view(self.cdg),
                keys@.to_set() == cdg.dom(),
                i <= keys@.len(),
                rec_stack@ == Set::<i64>::empty(),
                finished_ok(cdg, visited@, rec_stack@),
                forall|k: int| 0 <= k < i ==> visited@.contains(#[trigger] keys@[k]),
            decreases keys.len() - i,
        {
            let node = keys[i];
            proof {
                assert(keys@.to_set().contains(node));
            }
            if !visited.contains(&node) {
                if self.has_cycle_from(node, &mut visited, &mut rec_stack) {
                    return false;
                }
            }
            i = i + 1;
        }
        proof {
            if has_cycle(cdg) {
                let (v, k) = choose|v: i64, k: nat| k >= 1 && #[trigger] cd_path(cdg, v, v, k);
                lemma_path_first(cdg, v, v, k);
                let c = choose|c: i64| #[trigger] controls_in(cdg, v, c) && cd_path(cdg, c, v, (k - 1) as nat);
                assert(keys@.to_set().contains(v));
                let m = choose|m: int| 0 <= m < keys@.len() && keys@[m] == v;
                assert(visited@.contains(keys@[m]));
            }
        }
        true
    }

    /// Depth-first search from `node` for a dependence edge back into the current path
    /// (`rec_stack`); marks every node it finishes in `visited`.
    fn has_cycle_from(&self, node: i64, visited: &mut HashSet<i64>, rec_stack: &mut HashSet<i64>) -> (found: bool)
        requires
            set_map_view(self.cdg).dom().finite(),
            !old(visited)@.contains(node),
            old(rec_stack)@.subset_of(old(visited)@),
            finished_ok(set_map_view(self.cdg), old(visited)@, old(rec_stack)@),
            forall|s: i64| #[trigger] old(rec_stack)@.contains(s) ==> exists|k: nat| #[trigger] cd_path(set_map_view(self.cdg), s, node, k),
        ensures
            found ==> has_cycle(set_map_view(self.cdg)),
            !found ==> {
                &&& old(visited)@.insert(node).subset_of(final(visited)@)
                &&& final(rec_stack)@ == old(rec_stack)@
                &&& finished_ok(set_map_view(self.cdg), final(visited)@, final(rec_stack)@)
            },
        decreases set_map_view(self.cdg).dom().difference(old(visited)@).len(),
    {
        let ghost cdg = set_map_view(self.cdg);
        let ghost v0 = visited@;
        let ghost s0 = rec_stack@;
        visited.insert(node);
        rec_stack.insert(node);
        proof {
            assert(cd_path(cdg, node, node, 0));
        }
        match set_map_get(&self.cdg, node) {
            Some(controlled) => {
                let items = id_set_to_vec(controlled);
                let mut j: usize = 0;
                while j < items.len()
                    invariant
                        cdg == set_map_view(self.cdg),
                        cdg.contains_key(node),
                        items@.to_set() == id_set_view(cdg[node]),
                        j <= items@.len(),
                        cdg.dom().finite(),
                        v0 == old(visited)@,
                        !v0.contains(node),
                        s0.subset_of(v0),
                        !s0.contains(node),
                        forall|s: i64| #[trigger] s0.contains(s) ==> exists|k: nat| #[trigger] cd_path(cdg, s, node, k),
                        v0.insert(node).subset_of(visited@),
                        rec_stack@ == s0.insert(node),
                        finished_ok(cdg, visited@, rec_stack@),
                        forall|k: int| 0 <= k < j ==> visited@.contains(#[trigger] items@[k]) && !rec_stack@.contains(items@[k]),
                    decreases items.len() - j,
                {
                    let neighbor = items[j];
                    proof {
                        assert(items@.to_set().contains(neighbor));
                        assert(controls_in(cdg, node, neighbor));
                    }
                    if !visited.contains(&neighbor) {
                        proof {
                            assert forall|s: i64| #[trigger] rec_stack@.contains(s) implies exists|k: nat|
                                #[trigger] cd_path(cdg, s, neighbor, k) by {
                                let k = if s == node {
                                    0nat
                                } else {
                                    choose|k: nat| #[trigger] cd_path(cdg, s, node, k)
                                };
                                assert(cd_path(cdg, s, node, k));
                                assert(cd_path(cdg, s, neighbor, k + 1));
                            }
                            assert(cdg.dom().difference(visited@).len() < cdg.dom().difference(v0).len()) by {
                                let d0 = cdg.dom().difference(v0);
                                assert(cdg.dom().difference(visited@).subset_of(d0.remove(node)));
                                vstd::set_lib::lemma_len_subset(cdg.dom().difference(visited@), d0.remove(node));
                                assert(d0.contains(node));
                            }
                        }
                        if self.has_cycle_from(neighbor, visited, rec_stack) {
                            return true;
                        }
                    } else if rec_stack.contains(&neighbor) {
                        proof {
                            let k = if neighbor == node {
                                0nat
                            } else {
                                choose|k: nat| #[trigger] cd_path(cdg, neighbor, node, k)
                            };
                            assert(cd_path(cdg, neighbor, node, k));
                            assert(cd_path(cdg, neighbor, neighbor, k + 1));
                        }
                        return true;
                    }
                    j = j + 1;
                }
                proof {
                    assert forall|y: i64| #[trigger] controls_in(cdg, node, y) implies visited@.contains(y) && !rec_stack@.contains(y) by {
                        assert(items@.to_set().contains(y));
                        let k = choose|k: int| 0 <= k < items@.len() && items@[k] == y;
                        assert(visited@.contains(items@[k]));
                    }
                }
            },
            None => {},
        }
        let ghost vis = visited@;
        let ghost st = rec_stack@;
        rec_stack.remove(&node);
        proof {
            assert(rec_stack@ =~= s0);
            assert forall|y: i64| #[trigger] controls_in(cdg, node, y) implies vis.contains(y) && !st.contains(y) by {}
            assert forall|x: i64, k: nat| visited@.contains(x) && !rec_stack@.contains(x) && k >= 1 implies !#[trigger] cd_path(cdg, x, x, k) by {
                if x == node && cd_path(cdg, x, x, k) {
                    lemma_path_first(cdg, x, x, k);
                    let c = choose|c: i64| #[trigger] controls_in(cdg, x, c) && cd_path(cdg, c, x, (k - 1) as nat);
                    let blk = vis.difference(st);
                    assert forall|a: i64, b: i64| blk.contains(a) && #[trigger] controls_in(cdg, a, b) implies blk.contains(b) by {}
                    lemma_path_stays(cdg, blk, c, x, (k - 1) as nat);
                }
            }
        }
        false
    }
}

/// The two maps that `control_dependence_graph` builds agree: `x` controls `y` exactly
/// when `y` depends on `x`.
pub proof fn lemma_controls_iff_depends(
    pd: Map<i64, ahash::AHashSet<i64>>,
    ip: Map<i64, Option<i64>>,
    cdg: Map<i64, ahash::AHashSet<i64>>,
    rev: Map<i64, ahash::AHashSet<i64>>,
    seen: spec_fn(i64, i64) -> bool,
    x: i64,
    y: i64,
)
    requires
        cd_maps(pd, ip, cdg, rev, seen),
    ensures
        controls_in(cdg, x, y) <==> controls_in(rev, y, x),
        controls_in(cdg, x, y) <==> seen(x, y) && cd_pair(pd, ip, x, y),
{
    if seen(x, y) && cd_pair(pd, ip, x, y) {
        assert(cdg.contains_key(x));
        assert(rev.contains_key(y));
    }
}


/// `rev` is `g` with every edge turned around: the same nodes, and an edge from `a` to
/// `b` exactly when `g` has one from `b` to `a`.
pub open spec fn is_reversal(g: &Graph, rev: &Graph) -> bool {
    &&& rev.wf()
    &&& rev.node_count() == g.node_count()
    &&& forall|a: i64, b: i64| #[trigger] rev.has_edge(a, b) <==> g.has_edge(b, a)
}

/// The graph with every edge turned around: a copy of each entity, then the edges in
/// their order, each from its target to its source.
pub fn reversed_graph(graph: &Graph) -> (rev: Graph)
    requires
        graph.wf(),
    ensures
        is_reversal(graph, &rev),
{
    let mut rev = Graph::new();
    let n = graph.entity_count();
    let mut i: usize = 0;
    proof {
        graph.lemma_wf();
        rev.lemma_wf();
    }
    while i < n
        invariant
            graph.wf(),
            rev.wf(),
            n == graph.node_count(),
            n < i64::MAX,
            i <= n,
            rev.node_count() == i,
            rev.edge_list() == Seq::<(i64, i64)>::empty(),
        decreases n - i,
    {
        let id = (i + 1) as i64;
        proof {
            rev.lemma_wf();
        }
        match graph.get_entity(id) {
            Ok(e) => {
                let r = rev.insert_entity(&e);
                proof {
                    assert(r is Ok);
                    rev.lemma_wf();
                }
            },
            Err(_) => {
                proof {
                    assert(graph.is_node(id));
                }
            },
        }
        i = i + 1;
    }
    let pairs = graph.edge_pairs();
    let mut k: usize = 0;
    proof {
        assert(pairs@.take(0).map_values(|p: (i64, i64)| (p.1, p.0)) =~= Seq::<(i64, i64)>::empty());
    }
    while k < pairs.len()
        invariant
            graph.wf(),
            rev.wf(),
            rev.node_count() == graph.node_count(),
            pairs@ == graph.edge_list(),
            k <= pairs@.len(),
            rev.edge_list() == pairs@.take(k as int).map_values(|p: (i64, i64)| (p.1, p.0)),
        decreases pairs.len() - k,
    {
        let (a, b) = pairs[k];
        proof {
            graph.lemma_wf();
            rev.lemma_wf();
            assert(graph.edge_list()[k as int] == (a, b));
            assert(graph.is_node(a) && graph.is_node(b));
        }
        let edge = crate::graph_rewriting::plain_edge(b, a);
        let r = rev.insert_edge(&edge);
        proof {
            assert(r is Ok);
            assert(pairs@.take(k + 1).map_values(|p: (i64, i64)| (p.1, p.0)) =~= pairs@.take(k as int).map_values(
                |p: (i64, i64)| (p.1, p.0),
            ).push((b, a)));
        }
        k = k + 1;
    }
    proof {
        assert(pairs@.take(pairs@.len() as int) =~= pairs@);
        let es = graph.edge_list();
        let rs = rev.edge_list();
        assert forall|a: i64, b: i64| #[trigger] rev.has_edge(a, b) <==> graph.has_edge(b, a) by {
            lemma_out_of_contains(rs, a, b);
            lemma_out_of_contains(es, b, a);
            if rev.has_edge(a, b) {
                let j = choose|j: int| 0 <= j < rs.len() && rs[j] == (a, b);
                assert(es[j] == (b, a));
            }
            if graph.has_edge(b, a) {
                let j = choose|j: int| 0 <= j < es.len() && es[j] == (b, a);
                assert(rs[j] == (a, b));
            }
        }
    }
    rev
}

/// `pr` holds the post-dominators of `g` towards `exit`: the dominators of the reversal
/// of `g` from `exit`, with their immediate dominators.
pub open spec fn post_dominators_ok(g: &Graph, exit: i64, pr: PostDominatorResult) -> bool {
    exists|rev: Graph|
        #[trigger] is_reversal(g, &rev) && dominators_ok(&rev, exit, DominatorResult { dom: pr.post_dom, idom: pr.ipdom })
}

/// The post-dominators towards `exit`: the dominators of the reversed graph from `exit`.
/// Fails as `dominators` does: with `NotFound` when `exit` is not a node, and with
/// `Query` when the iteration does not settle (never for a graph of at most 1000 nodes).
pub fn post_dominators(graph: &Graph, exit: i64) -> (r: Result<PostDominatorResult, SqliteGraphError>)
    requires
        graph.wf(),
    ensures
        !graph.is_node(exit) ==> (r matches Err(e) && e is NotFound),
        graph.is_node(exit) && graph.node_count() <= 1000 ==> r is Ok,
        r matches Ok(pr) ==> post_dominators_ok(graph, exit, pr),
        r matches Err(e) ==> (!graph.is_node(exit) && e is NotFound) || (graph.is_node(exit) && e is Query),
{
    let rev = reversed_graph(graph);
    let dr = dominators(&rev, exit)?;
    let pr = PostDominatorResult { post_dom: dr.dom, ipdom: dr.idom };
    proof {
        assert(DominatorResult { dom: pr.post_dom, idom: pr.ipdom } == dr);
        assert(is_reversal(graph, &rev));
    }
    Ok(pr)
}

/// The nodes among `1..=k` without outgoing edges, in increasing order.
pub open spec fn exit_list(g: &Graph, k: nat) -> Seq<i64>
    decreases k,
{
    if k == 0 {
        Seq::empty()
    } else if g.succs(k as i64).len() == 0 {
        exit_list(g, (k - 1) as nat).push(k as i64)
    } else {
        exit_list(g, (k - 1) as nat)
    }
}

/// The entries of `exit_list` are nodes.
proof fn lemma_exit_list(g: &Graph, k: nat)
    requires
        g.wf(),
        k <= g.node_count(),
    ensures
        forall|i: int| 0 <= i < exit_list(g, k).len() ==> g.is_node(#[trigger] exit_list(g, k)[i]),
    decreases k,
{
    if k > 0 {
        g.lemma_wf();
        lemma_exit_list(g, (k - 1) as nat);
        let pre = exit_list(g, (k - 1) as nat);
        assert forall|i: int| 0 <= i < exit_list(g, k).len() implies g.is_node(#[trigger] exit_list(g, k)[i]) by {
            if i < pre.len() {
                assert(exit_list(g, k)[i] == pre[i]);
            }
        }
    }
}

/// Control dependence from the post-dominators towards the graph's one exit, the node
/// that no edge leaves: an empty result for an empty graph; a `Query` error when no node
/// or more than one node has no outgoing edge; otherwise the control dependence under
/// the post-dominators towards that exit (and a `Query` error when those cannot be
/// computed, which a graph of at most 1000 nodes never meets).
pub fn control_dependence_from_exit(graph: &Graph) -> (r: Result<ControlDependenceResult, SqliteGraphError>)
    requires
        graph.wf(),
    ensures
        graph.node_count() == 0 ==> (r matches Ok(res) && set_map_view(res.cdg).dom() == Set::<i64>::empty()
            && set_map_view(res.reverse_cdg).dom() == Set::<i64>::empty()),
        graph.node_count() > 0 && exit_list(graph, graph.node_count()).len() != 1 ==> (r matches Err(e) && e is Query),
        exit_list(graph, graph.node_count()).len() == 1 && graph.node_count() <= 1000
            ==> r is Ok,
        r matches Err(e) ==> e is Query && graph.node_count() > 0,
        r matches Ok(res) ==> (graph.node_count() > 0 ==> exit_list(graph, graph.node_count()).len() == 1 && exists|
            pr: PostDominatorResult,
        |
            #[trigger] post_dominators_ok(graph, exit_list(graph, graph.node_count())[0], pr) && cd_maps(
                set_map_view(pr.post_dom),
                opt_map_view(pr.ipdom),
                set_map_view(res.cdg),
                set_map_view(res.reverse_cdg),
                |x: i64, y: i64| graph.has_edge(x, y),
            )),
{
    let all_nodes = graph.all_entity_ids()?;
    proof {
        graph.lemma_wf();
    }
    let n = all_nodes.len();
    if n == 0 {
        let res = ControlDependenceResult { cdg: set_map_new(), reverse_cdg: set_map_new() };
        proof {
            assert(set_map_view(res.cdg).dom() =~= Set::<i64>::empty());
            assert(set_map_view(res.reverse_cdg).dom() =~= Set::<i64>::empty());
        }
        return Ok(res);
    }
    let mut exits: Vec<i64> = Vec::new();
    let mut i: usize = 0;
    while i < n
        invariant
            graph.wf(),
            all_nodes@ == node_ids(graph.node_count()),
            n == all_nodes@.len(),
            i <= n,
            exits@ == exit_list(graph, i as nat),
        decreases n - i,
    {
        let node = all_nodes[i];
        let outgoing = graph.fetch_outgoing(node).unwrap();
        proof {
            graph.lemma_wf();
            assert(node == i + 1);
        }
        if outgoing.len() == 0 {
            exits.push(node);
        }
        i = i + 1;
    }
    if exits.len() != 1 {
        let mut msg = String::from_str("Cannot compute control dependence: graph has ");
        msg.append(crate::text::usize_text(exits.len()).as_str());
        msg.append(" exit nodes (expected 1)");
        return Err(SqliteGraphError::Query(msg));
    }
    let exit = exits[0];
    proof {
        lemma_exit_list(graph, graph.node_count());
        assert(graph.is_node(exit));
    }
    let post = post_dominators(graph, exit)?;
    let res = control_dependence_graph(graph, &post)?;
    Ok(res)
}

} // verus!
