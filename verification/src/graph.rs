//! An in-memory graph of entities joined by directed edges.
//!
//! Entities get the ids 1, 2, 3, ... in the order in which they are inserted. An
//! edge may only join two entities that exist, and the graph keeps, for each
//! entity, the targets of its outgoing edges and the sources of its incoming
//! edges, each in the order in which the edges were inserted.
use vstd::prelude::*;

use crate::error::SqliteGraphError;
use crate::json::json_clone;

verus! {

/// A node of the graph: a typed, named entity with JSON data.
pub struct GraphEntity {
    /// The id of the entity (the graph assigns it on insertion).
    pub id: i64,
    /// The kind of the entity.
    pub kind: String,
    /// The name of the entity.
    pub name: String,
    /// The file that the entity comes from, if any.
    pub file_path: Option<String>,
    /// Free-form data.
    pub data: serde_json::Value,
}

/// A directed edge between two entities.
pub struct GraphEdge {
    /// The id of the edge (the graph assigns it on insertion).
    pub id: i64,
    /// The entity the edge leaves.
    pub from_id: i64,
    /// The entity the edge enters.
    pub to_id: i64,
    /// The kind of the edge.
    pub edge_type: String,
    /// Free-form data.
    pub data: serde_json::Value,
}

/// The targets of the edges in `edges` that leave `v`, in the order of `edges`.
pub open spec fn out_of(edges: Seq<(i64, i64)>, v: i64) -> Seq<i64>
    decreases edges.len(),
{
    if edges.len() == 0 {
        Seq::empty()
    } else {
        let rest = out_of(edges.drop_last(), v);
        if edges.last().0 == v {
            rest.push(edges.last().1)
        } else {
            rest
        }
    }
}

/// The sources of the edges in `edges` that enter `v`, in the order of `edges`.
pub open spec fn in_of(edges: Seq<(i64, i64)>, v: i64) -> Seq<i64>
    decreases edges.len(),
{
    if edges.len() == 0 {
        Seq::empty()
    } else {
        let rest = in_of(edges.drop_last(), v);
        if edges.last().1 == v {
            rest.push(edges.last().0)
        } else {
            rest
        }
    }
}

/// The ids 1, 2, ..., n.
pub open spec fn node_ids(n: nat) -> Seq<i64> {
    Seq::new(n, |i: int| (i + 1) as i64)
}

/// An entity with its id replaced.
pub open spec fn with_id(e: GraphEntity, id: i64) -> GraphEntity {
    GraphEntity { id: id, kind: e.kind, name: e.name, file_path: e.file_path, data: e.data }
}

/// `x` is a target of an edge that leaves `v` exactly when some edge is `(v, x)`.
pub proof fn lemma_out_of_contains(edges: Seq<(i64, i64)>, v: i64, x: i64)
    ensures
        out_of(edges, v).contains(x) <==> exists|k: int| 0 <= k < edges.len() && edges[k] == (v, x),
    decreases edges.len(),
{
    if edges.len() > 0 {
        let pre = edges.drop_last();
        lemma_out_of_contains(pre, v, x);
        if out_of(edges, v).contains(x) {
            if out_of(pre, v).contains(x) {
                let k = choose|k: int| 0 <= k < pre.len() && pre[k] == (v, x);
                assert(edges[k] == (v, x));
            } else {
                assert(edges[edges.len() - 1] == (v, x));
            }
        }
        if exists|k: int| 0 <= k < edges.len() && edges[k] == (v, x) {
            let k = choose|k: int| 0 <= k < edges.len() && edges[k] == (v, x);
            if k < edges.len() - 1 {
                assert(pre[k] == (v, x));
                assert(out_of(pre, v).contains(x));
                let j = choose|j: int| 0 <= j < out_of(pre, v).len() && out_of(pre, v)[j] == x;
                if edges.last().0 == v {
                    assert(out_of(edges, v)[j] == x);
                }
            } else {
                assert(out_of(edges, v).last() == x);
            }
        }
    }
}

/// `x` is a source of an edge that enters `v` exactly when some edge is `(x, v)`.
pub proof fn lemma_in_of_contains(edges: Seq<(i64, i64)>, v: i64, x: i64)
    ensures
        in_of(edges, v).contains(x) <==> exists|k: int| 0 <= k < edges.len() && edges[k] == (x, v),
    decreases edges.len(),
{
    if edges.len() > 0 {
        let pre = edges.drop_last();
        lemma_in_of_contains(pre, v, x);
        if in_of(edges, v).contains(x) {
            if in_of(pre, v).contains(x) {
                let k = choose|k: int| 0 <= k < pre.len() && pre[k] == (x, v);
                assert(edges[k] == (x, v));
            } else {
                assert(edges[edges.len() - 1] == (x, v));
            }
        }
        if exists|k: int| 0 <= k < edges.len() && edges[k] == (x, v) {
            let k = choose|k: int| 0 <= k < edges.len() && edges[k] == (x, v);
            if k < edges.len() - 1 {
                assert(pre[k] == (x, v));
                assert(in_of(pre, v).contains(x));
                let j = choose|j: int| 0 <= j < in_of(pre, v).len() && in_of(pre, v)[j] == x;
                if edges.last().1 == v {
                    assert(in_of(edges, v)[j] == x);
                }
            } else {
                assert(in_of(edges, v).last() == x);
            }
        }
    }
}

/// A copy of a vector of ids.
pub fn copy_ids(v: &Vec<i64>) -> (r: Vec<i64>)
    ensures
        r@ == v@,
{
    let mut r: Vec<i64> = Vec::new();
    let mut i: usize = 0;
    while i < v.len()
        invariant
            i <= v.len(),
            r@ == v@.subrange(0, i as int),
        decreases v.len() - i,
    {
        r.push(v[i]);
        i = i + 1;
    }
    assert(r@ =~= v@);
    r
}

/// A copy of an optional string.
fn clone_opt_string(o: &Option<String>) -> (r: Option<String>)
    ensures
        r == *o,
{
    match o {
        Some(s) => Some(s.clone()),
        None => None,
    }
}

/// A copy of an entity with the given id.
pub fn clone_entity_with_id(e: &GraphEntity, id: i64) -> (r: GraphEntity)
    ensures
        r == with_id(*e, id),
{
    GraphEntity {
        id: id,
        kind: e.kind.clone(),
        name: e.name.clone(),
        file_path: clone_opt_string(&e.file_path),
        data: json_clone(&e.data),
    }
}

/// An in-memory graph of entities and directed edges.
pub struct Graph {
    entities: Vec<GraphEntity>,
    outgoing: Vec<Vec<i64>>,
    incoming: Vec<Vec<i64>>,
    edge_count: usize,
    edges: Vec<(i64, i64)>,
}

impl Graph {
    /// The number of entities.
    pub closed spec fn node_count(&self) -> nat {
        self.entities@.len()
    }

    /// The edges, as (source, target) pairs, in the order of their insertion.
    pub closed spec fn edge_list(&self) -> Seq<(i64, i64)> {
        self.edges@
    }

    /// The entities, in the order of their ids.
    pub closed spec fn entities(&self) -> Seq<GraphEntity> {
        self.entities@
    }

    /// `v` is the id of an entity of the graph.
    pub open spec fn is_node(&self, v: i64) -> bool {
        1 <= v && v <= self.node_count()
    }

    /// The targets of the edges that leave `v`, in the order of their insertion.
    pub open spec fn succs(&self, v: i64) -> Seq<i64> {
        out_of(self.edge_list(), v)
    }

    /// The sources of the edges that enter `v`, in the order of their insertion.
    pub open spec fn preds(&self, v: i64) -> Seq<i64> {
        in_of(self.edge_list(), v)
    }

    /// There is an edge from `u` to `v`.
    pub open spec fn has_edge(&self, u: i64, v: i64) -> bool {
        self.succs(u).contains(v)
    }

    /// The graph's own consistency: entity `i` (from 0) has id `i + 1`, the adjacency
    /// lists agree with the edges, and every edge joins two entities.
    pub closed spec fn wf(&self) -> bool {
        &&& self.entities@.len() < i64::MAX
        &&& self.outgoing@.len() == self.entities@.len()
        &&& self.incoming@.len() == self.entities@.len()
        &&& self.edge_count == self.edges@.len()
        &&& self.edges@.len() < i64::MAX
        &&& forall|i: int| 0 <= i < self.entities@.len() ==> (#[trigger] self.entities@[i]).id == i + 1
        &&& forall|i: int|
            0 <= i < self.entities@.len() ==> (#[trigger] self.outgoing@[i])@ == out_of(
                self.edges@,
                (i + 1) as i64,
            )
        &&& forall|i: int|
            0 <= i < self.entities@.len() ==> (#[trigger] self.incoming@[i])@ == in_of(
                self.edges@,
                (i + 1) as i64,
            )
        &&& forall|k: int|
            0 <= k < self.edges@.len() ==> 1 <= (#[trigger] self.edges@[k]).0 <= self.entities@.len()
                && 1 <= self.edges@[k].1 <= self.entities@.len()
    }

    /// What a well-formed graph guarantees to its users.
    pub proof fn lemma_wf(&self)
        requires
            self.wf(),
        ensures
            self.node_count() < i64::MAX,
            self.node_count() <= usize::MAX,
            self.edge_list().len() < i64::MAX,
            self.edge_list().len() <= usize::MAX,
            self.entities().len() == self.node_count(),
            forall|i: int|
                0 <= i < self.node_count() ==> (#[trigger] self.entities()[i]).id == i + 1,
            forall|k: int|
                0 <= k < self.edge_list().len() ==> self.is_node((#[trigger] self.edge_list()[k]).0)
                    && self.is_node(self.edge_list()[k].1),
            forall|u: i64, x: i64| #[trigger]
                self.succs(u).contains(x) ==> self.is_node(u) && self.is_node(x),
            forall|u: i64, x: i64| #[trigger]
                self.preds(x).contains(u) <==> self.succs(u).contains(x),
    {
        assert(self.entities@.len() == self.entities.len());
        assert(self.edges@.len() == self.edges.len());
        assert forall|u: i64, x: i64| #[trigger]
            self.succs(u).contains(x) implies self.is_node(u) && self.is_node(x) by {
            lemma_out_of_contains(self.edges@, u, x);
            let k = choose|k: int| 0 <= k < self.edges@.len() && self.edges@[k] == (u, x);
            assert(self.edges@[k] == (u, x));
        }
        assert forall|u: i64, x: i64| #[trigger]
            self.preds(x).contains(u) <==> self.succs(u).contains(x) by {
            lemma_out_of_contains(self.edges@, u, x);
            lemma_in_of_contains(self.edges@, x, u);
        }
    }

    /// An empty graph.
    pub fn new() -> (g: Graph)
        ensures
            g.wf(),
            g.node_count() == 0,
            g.edge_list() == Seq::<(i64, i64)>::empty(),
    {
        Graph {
            entities: Vec::new(),
            outgoing: Vec::new(),
            incoming: Vec::new(),
            edge_count: 0,
            edges: Vec::new(),
        }
    }

    /// The number of entities.
    pub fn entity_count(&self) -> (n: usize)
        requires
            self.wf(),
        ensures
            n == self.node_count(),
    {
        self.entities.len()
    }

    /// Inserts a copy of `entity` under the next free id (its own `id` is ignored)
    /// and returns that id; fails only when no id is left.
    pub fn insert_entity(&mut self, entity: &GraphEntity) -> (r: Result<i64, SqliteGraphError>)
        requires
            old(self).wf(),
        ensures
            final(self).wf(),
            match r {
                Ok(id) => {
                    &&& old(self).node_count() + 1 < i64::MAX
                    &&& old(self).node_count() < usize::MAX
                    &&& id == old(self).node_count() + 1
                    &&& final(self).entities() == old(self).entities().push(with_id(*entity, id))
                    &&& final(self).edge_list() == old(self).edge_list()
                },
                Err(_) => {
                    &&& old(self).node_count() + 1 >= i64::MAX || old(self).node_count()
                        == usize::MAX
                    &&& *final(self) == *old(self)
                },
            },
    {
        let n = self.entities.len();
        if n == usize::MAX || n as u64 >= (i64::MAX - 1) as u64 {
            return Err(SqliteGraphError::InvalidInput(String::from_str("no entity id is left")));
        }
        let id = (n + 1) as i64;
        let e = clone_entity_with_id(entity, id);
        self.entities.push(e);
        self.outgoing.push(Vec::new());
        self.incoming.push(Vec::new());
        proof {
            let edges = self.edges@;
            assert forall|i: int| 0 <= i < self.entities@.len() implies (#[trigger] self.outgoing@[i])@
                == out_of(edges, (i + 1) as i64) by {
                if i == n {
                    assert forall|x: i64| !(#[trigger] out_of(edges, (i + 1) as i64).contains(x)) by {
                        lemma_out_of_contains(edges, (i + 1) as i64, x);
                    }
                    assert(out_of(edges, (i + 1) as i64) =~= Seq::<i64>::empty()) by {
                        if out_of(edges, (i + 1) as i64).len() > 0 {
                            assert(out_of(edges, (i + 1) as i64).contains(
                                out_of(edges, (i + 1) as i64)[0],
                            ));
                        }
                    }
                }
            }
            assert forall|i: int| 0 <= i < self.entities@.len() implies (#[trigger] self.incoming@[i])@
                == in_of(edges, (i + 1) as i64) by {
                if i == n {
                    assert forall|x: i64| !(#[trigger] in_of(edges, (i + 1) as i64).contains(x)) by {
                        lemma_in_of_contains(edges, (i + 1) as i64, x);
                    }
                    assert(in_of(edges, (i + 1) as i64) =~= Seq::<i64>::empty()) by {
                        if in_of(edges, (i + 1) as i64).len() > 0 {
                            assert(in_of(edges, (i + 1) as i64).contains(
                                in_of(edges, (i + 1) as i64)[0],
                            ));
                        }
                    }
                }
            }
        }
        Ok(id)
    }

    /// Inserts an edge from `edge.from_id` to `edge.to_id` (its own `id`, type and data
    /// are not kept) and returns the edge's number; fails when an endpoint is not an entity.
    pub fn insert_edge(&mut self, edge: &GraphEdge) -> (r: Result<i64, SqliteGraphError>)
        requires
            old(self).wf(),
        ensures
            final(self).wf(),
            final(self).entities() == old(self).entities(),
            final(self).node_count() == old(self).node_count(),
            match r {
                Ok(id) => {
                    &&& old(self).is_node(edge.from_id) && old(self).is_node(edge.to_id)
                    &&& old(self).edge_list().len() + 1 < i64::MAX
                    &&& old(self).edge_list().len() < usize::MAX
                    &&& id == old(self).edge_list().len() + 1
                    &&& final(self).edge_list() == old(self).edge_list().push(
                        (edge.from_id, edge.to_id),
                    )
                },
                Err(_) => {
                    &&& !(old(self).is_node(edge.from_id) && old(self).is_node(edge.to_id))
                        || old(self).edge_list().len() + 1 >= i64::MAX
                        || old(self).edge_list().len() == usize::MAX
                    &&& *final(self) == *old(self)
                },
            },
    {
        let n = self.entities.len();
        let from = edge.from_id;
        let to = edge.to_id;
        if from < 1 || to < 1 || from as u64 > n as u64 || to as u64 > n as u64 {
            return Err(SqliteGraphError::NotFound(String::from_str("edge endpoint is not an entity")));
        }
        if self.edge_count == usize::MAX || self.edge_count as u64 >= (i64::MAX - 1) as u64 {
            return Err(SqliteGraphError::InvalidInput(String::from_str("no edge id is left")));
        }
        let fi = (from - 1) as usize;
        let ti = (to - 1) as usize;
        let ghost old_edges = self.edges@;
        let mut row = copy_ids(&self.outgoing[fi]);
        row.push(to);
        self.outgoing.set(fi, row);
        let mut col = copy_ids(&self.incoming[ti]);
        col.push(from);
        self.incoming.set(ti, col);
        self.edges.push((from, to));
        self.edge_count = self.edge_count + 1;
        proof {
            let edges = self.edges@;
            assert(edges.drop_last() =~= old_edges);
            assert forall|i: int| 0 <= i < self.entities@.len() implies (#[trigger] self.outgoing@[i])@
                == out_of(edges, (i + 1) as i64) by {
                assert(out_of(edges, (i + 1) as i64) == (if (i + 1) as i64 == from {
                    out_of(old_edges, (i + 1) as i64).push(to)
                } else {
                    out_of(old_edges, (i + 1) as i64)
                }));
            }
            assert forall|i: int| 0 <= i < self.entities@.len() implies (#[trigger] self.incoming@[i])@
                == in_of(edges, (i + 1) as i64) by {
                assert(in_of(edges, (i + 1) as i64) == (if (i + 1) as i64 == to {
                    in_of(old_edges, (i + 1) as i64).push(from)
                } else {
                    in_of(old_edges, (i + 1) as i64)
                }));
            }
            assert forall|k: int| 0 <= k < edges.len() implies 1 <= (#[trigger] edges[k]).0
                <= self.entities@.len() && 1 <= edges[k].1 <= self.entities@.len() by {
                if k < old_edges.len() {
                    assert(edges[k] == old_edges[k]);
                }
            }
        }
        Ok(self.edge_count as i64)
    }

    /// The ids of all entities, in increasing order.
    pub fn all_entity_ids(&self) -> (r: Result<Vec<i64>, SqliteGraphError>)
        requires
            self.wf(),
        ensures
            match r {
                Ok(v) => v@ == node_ids(self.node_count()),
                Err(_) => false,
            },
    {
        let n = self.entities.len();
        let mut v: Vec<i64> = Vec::new();
        let mut i: usize = 0;
        while i < n
            invariant
                n == self.entities@.len(),
                n < i64::MAX,
                i <= n,
                v@ =~= node_ids(i as nat),
            decreases n - i,
        {
            v.push((i + 1) as i64);
            i = i + 1;
        }
        Ok(v)
    }

    /// The targets of the edges that leave `id`, in the order of their insertion
    /// (none when `id` is not an entity).
    pub fn fetch_outgoing(&self, id: i64) -> (r: Result<Vec<i64>, SqliteGraphError>)
        requires
            self.wf(),
        ensures
            match r {
                Ok(v) => v@ == self.succs(id),
                Err(_) => false,
            },
    {
        let n = self.entities.len();
        if id < 1 || id as u64 > n as u64 {
            proof {
                assert forall|x: i64| !(#[trigger] out_of(self.edges@, id).contains(x)) by {
                    lemma_out_of_contains(self.edges@, id, x);
                    if exists|k: int| 0 <= k < self.edges@.len() && self.edges@[k] == (id, x) {
                        let k = choose|k: int| 0 <= k < self.edges@.len() && self.edges@[k] == (id, x);
                        assert(self.edges@[k] == (id, x));
                    }
                }
                if out_of(self.edges@, id).len() > 0 {
                    assert(out_of(self.edges@, id).contains(out_of(self.edges@, id)[0]));
                }
            }
            return Ok(Vec::new());
        }
        let i = (id - 1) as usize;
        Ok(copy_ids(&self.outgoing[i]))
    }

    /// The sources of the edges that enter `id`, in the order of their insertion
    /// (none when `id` is not an entity).
    pub fn fetch_incoming(&self, id: i64) -> (r: Result<Vec<i64>, SqliteGraphError>)
        requires
            self.wf(),
        ensures
            match r {
                Ok(v) => v@ == self.preds(id),
                Err(_) => false,
            },
    {
        let n = self.entities.len();
        if id < 1 || id as u64 > n as u64 {
            proof {
                assert forall|x: i64| !(#[trigger] in_of(self.edges@, id).contains(x)) by {
                    lemma_in_of_contains(self.edges@, id, x);
                    if exists|k: int| 0 <= k < self.edges@.len() && self.edges@[k] == (x, id) {
                        let k = choose|k: int| 0 <= k < self.edges@.len() && self.edges@[k] == (x, id);
                        assert(self.edges@[k] == (x, id));
                    }
                }
                if in_of(self.edges@, id).len() > 0 {
                    assert(in_of(self.edges@, id).contains(in_of(self.edges@, id)[0]));
                }
            }
            return Ok(Vec::new());
        }
        let i = (id - 1) as usize;
        Ok(copy_ids(&self.incoming[i]))
    }

    /// The edges, as (source, target) pairs, in the order of their insertion.
    pub fn edge_pairs(&self) -> (r: Vec<(i64, i64)>)
        ensures
            r@ == self.edge_list(),
    {
        let mut r: Vec<(i64, i64)> = Vec::new();
        let mut i: usize = 0;
        while i < self.edges.len()
            invariant
                i <= self.edges@.len(),
                r@ == self.edges@.subrange(0, i as int),
            decreases self.edges.len() - i,
        {
            r.push(self.edges[i]);
            i = i + 1;
        }
        assert(r@ =~= self.edges@);
        r
    }

    /// A copy of the entity with the given id; fails when there is none.
    pub fn get_entity(&self, id: i64) -> (r: Result<GraphEntity, SqliteGraphError>)
        requires
            self.wf(),
        ensures
            match r {
                Ok(e) => self.is_node(id) && e == self.entities()[id - 1],
                Err(_) => !self.is_node(id),
            },
    {
        let n = self.entities.len();
        if id < 1 || id as u64 > n as u64 {
            return Err(SqliteGraphError::NotFound(String::from_str("entity not found")));
        }
        let i = (id - 1) as usize;
        Ok(clone_entity_with_id(&self.entities[i], self.entities[i].id))
    }
}

/// The number of edges in `edges` whose source lies in `lo..hi`.
pub open spec fn source_count(edges: Seq<(i64, i64)>, lo: int, hi: int) -> nat
    decreases edges.len(),
{
    if edges.len() == 0 {
        0
    } else {
        source_count(edges.drop_last(), lo, hi) + (if lo <= edges.last().0 < hi {
            1nat
        } else {
            0nat
        })
    }
}

/// The targets of the edges that leave `v` are as many as the edges whose source is `v`.
pub proof fn lemma_out_of_len(edges: Seq<(i64, i64)>, v: i64)
    ensures
        out_of(edges, v).len() == source_count(edges, v as int, v + 1),
    decreases edges.len(),
{
    if edges.len() > 0 {
        lemma_out_of_len(edges.drop_last(), v);
    }
}

/// Counting over two adjacent ranges is counting over their union.
pub proof fn lemma_source_count_split(edges: Seq<(i64, i64)>, lo: int, mid: int, hi: int)
    requires
        lo <= mid <= hi,
    ensures
        source_count(edges, lo, mid) + source_count(edges, mid, hi) == source_count(edges, lo, hi),
    decreases edges.len(),
{
    if edges.len() > 0 {
        lemma_source_count_split(edges.drop_last(), lo, mid, hi);
    }
}

/// No more edges are counted than there are.
pub proof fn lemma_source_count_bound(edges: Seq<(i64, i64)>, lo: int, hi: int)
    ensures
        source_count(edges, lo, hi) <= edges.len(),
    decreases edges.len(),
{
    if edges.len() > 0 {
        lemma_source_count_bound(edges.drop_last(), lo, hi);
    }
}

/// When every source lies in `lo..hi`, every edge is counted.
pub proof fn lemma_source_count_all(edges: Seq<(i64, i64)>, lo: int, hi: int)
    requires
        forall|k: int| 0 <= k < edges.len() ==> lo <= (#[trigger] edges[k]).0 < hi,
    ensures
        source_count(edges, lo, hi) == edges.len(),
    decreases edges.len(),
{
    if edges.len() > 0 {
        let pre = edges.drop_last();
        assert forall|k: int| 0 <= k < pre.len() implies lo <= (#[trigger] pre[k]).0 < hi by {
            assert(pre[k] == edges[k]);
        }
        lemma_source_count_all(pre, lo, hi);
        assert(edges[edges.len() - 1] == edges.last());
    }
}

} // verus!
