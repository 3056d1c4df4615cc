//! Graph rewriting with double-pushout style rules: occurrences of a pattern
//! graph are found and replaced by a replacement graph, the interface nodes
//! being kept.
use std::collections::{HashMap, HashSet};

use vstd::prelude::*;

use crate::error::SqliteGraphError;
use crate::graph::{
    clone_entity_with_id, lemma_out_of_len, lemma_source_count_all, lemma_source_count_bound, lemma_source_count_split,
    node_ids, out_of, source_count, Graph, GraphEdge, GraphEntity,
};
use crate::json::json_clone;
use crate::pattern_match::{find_pattern_matches, first_matches, match_views};
use crate::progress::ProgressCallback;
use crate::text::{decimal, i64_text, usize_text};

verus! {

broadcast use vstd::std_specs::hash::group_hash_axioms;

/// Limits on a rewriting run.
#[derive(Debug, Clone, Copy, PartialEq, Eq, Structural)]
pub struct RewriteBounds {
    /// The most pattern matches to rewrite (`None`: no limit). Default: `Some(10)`.
    pub max_matches: Option<usize>,
    /// Whether to check the rewritten graph for dangling edges. Default: `true`.
    pub validate_after_rewrite: bool,
}

/// The default bounds: at most ten rewrites, with validation.
pub open spec fn default_bounds() -> RewriteBounds {
    RewriteBounds { max_matches: Some(10), validate_after_rewrite: true }
}

impl Default for RewriteBounds {
    fn default() -> (b: Self)
        ensures
            b == default_bounds(),
    {
        RewriteBounds { max_matches: Some(10), validate_after_rewrite: true }
    }
}

impl RewriteBounds {
    /// The default bounds.
    pub fn new() -> (b: Self)
        ensures
            b == default_bounds(),
    {
        RewriteBounds { max_matches: Some(10), validate_after_rewrite: true }
    }

    /// These bounds with at most `max` rewrites.
    pub fn with_max_matches(self, max: usize) -> (b: Self)
        ensures
            b == (RewriteBounds { max_matches: Some(max), ..self }),
    {
        RewriteBounds { max_matches: Some(max), validate_after_rewrite: self.validate_after_rewrite }
    }

    /// These bounds with validation switched on or off.
    pub fn with_validation(self, validate: bool) -> (b: Self)
        ensures
            b == (RewriteBounds { validate_after_rewrite: validate, ..self }),
    {
        RewriteBounds { max_matches: self.max_matches, validate_after_rewrite: validate }
    }

    /// These bounds without a limit on the number of rewrites.
    pub fn unlimited(self) -> (b: Self)
        ensures
            b == (RewriteBounds { max_matches: None, ..self }),
    {
        RewriteBounds { max_matches: None, validate_after_rewrite: self.validate_after_rewrite }
    }
}

/// One change that a rewrite made.
#[derive(Debug, Clone, Copy, PartialEq, Eq, Structural)]
pub enum RewriteOperation {
    /// A node was deleted.
    NodeDeleted(i64),
    /// A node was added.
    NodeAdded(i64),
    /// An edge was deleted.
    EdgeDeleted { from: i64, to: i64 },
    /// An edge was added.
    EdgeAdded { from: i64, to: i64 },
}

/// The text of an operation: "Deleted node 5", "Added edge 3 -> 4", and so on.
pub open spec fn operation_text(op: RewriteOperation) -> Seq<char> {
    match op {
        RewriteOperation::NodeDeleted(id) => "Deleted node "@ + decimal(id as int),
        RewriteOperation::NodeAdded(id) => "Added node "@ + decimal(id as int),
        RewriteOperation::EdgeDeleted { from, to } => "Deleted edge "@ + decimal(from as int)
            + " -> "@ + decimal(to as int),
        RewriteOperation::EdgeAdded { from, to } => "Added edge "@ + decimal(from as int) + " -> "@
            + decimal(to as int),
    }
}

impl RewriteOperation {
    /// The operation as text, as its `Display` form reads.
    pub fn to_string(&self) -> (s: String)
        ensures
            s@ == operation_text(*self),
    {
        match self {
            RewriteOperation::NodeDeleted(id) => {
                let mut s = String::from_str("Deleted node ");
                s.append(i64_text(*id).as_str());
                s
            },
            RewriteOperation::NodeAdded(id) => {
                let mut s = String::from_str("Added node ");
                s.append(i64_text(*id).as_str());
                s
            },
            RewriteOperation::EdgeDeleted { from, to } => {
                let mut s = String::from_str("Deleted edge ");
                s.append(i64_text(*from).as_str());
                s.append(" -> ");
                s.append(i64_text(*to).as_str());
                s
            },
            RewriteOperation::EdgeAdded { from, to } => {
                let mut s = String::from_str("Added edge ");
                s.append(i64_text(*from).as_str());
                s.append(" -> ");
                s.append(i64_text(*to).as_str());
                s
            },
        }
    }
}

/// A rewrite rule: a pattern to find, a replacement to put in its place, and the
/// interface pairs (pattern node index, replacement node index) of nodes that are kept.
pub struct RewriteRule {
    /// The graph to search for.
    pub pattern: Graph,
    /// The graph to insert in place of each match.
    pub replacement: Graph,
    /// Pairs (pattern node index, replacement node index), indices in id order.
    pub interface: Vec<(usize, usize)>,
}

/// The message for an interface pattern index that is out of bounds.
pub open spec fn pattern_index_message(idx: usize, count: nat) -> Seq<char> {
    "Interface pattern index "@ + decimal(idx as int) + " out of bounds (pattern has "@ + decimal(
        count as int,
    ) + " nodes)"@
}

/// The message for an interface replacement index that is out of bounds.
pub open spec fn replacement_index_message(idx: usize, count: nat) -> Seq<char> {
    "Interface replacement index "@ + decimal(idx as int) + " out of bounds (replacement has "@
        + decimal(count as int) + " nodes)"@
}

/// Both indices of an interface pair lie within the pattern and the replacement.
pub open spec fn interface_pair_in_bounds(pair: (usize, usize), pattern_count: nat, replacement_count: nat) -> bool {
    pair.0 < pattern_count && pair.1 < replacement_count
}

/// Pair `i` is the first interface pair that is out of bounds.
pub open spec fn first_bad_interface_pair(
    interface: Seq<(usize, usize)>,
    pattern_count: nat,
    replacement_count: nat,
    i: int,
) -> bool {
    &&& 0 <= i < interface.len()
    &&& forall|j: int|
        0 <= j < i ==> interface_pair_in_bounds(#[trigger] interface[j], pattern_count, replacement_count)
    &&& !interface_pair_in_bounds(interface[i], pattern_count, replacement_count)
}

/// The error that interface validation reports for an offending pair.
pub open spec fn interface_error_is(
    e: SqliteGraphError,
    pair: (usize, usize),
    pattern_count: nat,
    replacement_count: nat,
) -> bool {
    match e {
        SqliteGraphError::InvalidInput(m) => if pair.0 >= pattern_count {
            m@ == pattern_index_message(pair.0, pattern_count)
        } else {
            m@ == replacement_index_message(pair.1, replacement_count)
        },
        _ => false,
    }
}

impl RewriteRule {
    /// The number of interface pairs.
    pub fn interface_size(&self) -> (n: usize)
        ensures
            n == self.interface@.len(),
    {
        self.interface.len()
    }

    /// Checks that every interface index lies within its graph; the error names the
    /// first pair that does not.
    pub fn validate_interface(&self) -> (r: Result<(), SqliteGraphError>)
        requires
            self.pattern.wf(),
            self.replacement.wf(),
        ensures
            match r {
                Ok(()) => forall|i: int|
                    0 <= i < self.interface@.len() ==> interface_pair_in_bounds(
                        #[trigger] self.interface@[i],
                        self.pattern.node_count(),
                        self.replacement.node_count(),
                    ),
                Err(e) => exists|i: int|
                    #[trigger] first_bad_interface_pair(
                        self.interface@,
                        self.pattern.node_count(),
                        self.replacement.node_count(),
                        i,
                    ) && interface_error_is(
                        e,
                        self.interface@[i],
                        self.pattern.node_count(),
                        self.replacement.node_count(),
                    ),
            },
    {
        let pattern_ids = self.pattern.all_entity_ids()?;
        let replacement_ids = self.replacement.all_entity_ids()?;
        let pattern_count = pattern_ids.len();
        let replacement_count = replacement_ids.len();
        let ghost pc = self.pattern.node_count();
        let ghost rc = self.replacement.node_count();
        let mut i: usize = 0;
        while i < self.interface.len()
            invariant
                pattern_count == pc,
                replacement_count == rc,
                pc == self.pattern.node_count(),
                rc == self.replacement.node_count(),
                i <= self.interface@.len(),
                forall|j: int|
                    0 <= j < i ==> interface_pair_in_bounds(#[trigger] self.interface@[j], pc, rc),
            decreases self.interface.len() - i,
        {
            let (pattern_idx, replacement_idx) = self.interface[i];
            if pattern_idx >= pattern_count {
                let mut m = String::from_str("Interface pattern index ");
                m.append(usize_text(pattern_idx).as_str());
                m.append(" out of bounds (pattern has ");
                m.append(usize_text(pattern_count).as_str());
                m.append(" nodes)");
                let e = SqliteGraphError::InvalidInput(m);
                assert(interface_error_is(e, self.interface@[i as int], pc, rc));
                assert(first_bad_interface_pair(self.interface@, pc, rc, i as int));
                return Err(e);
            }
            if replacement_idx >= replacement_count {
                let mut m = String::from_str("Interface replacement index ");
                m.append(usize_text(replacement_idx).as_str());
                m.append(" out of bounds (replacement has ");
                m.append(usize_text(replacement_count).as_str());
                m.append(" nodes)");
                let e = SqliteGraphError::InvalidInput(m);
                assert(interface_error_is(e, self.interface@[i as int], pc, rc));
                assert(first_bad_interface_pair(self.interface@, pc, rc, i as int));
                return Err(e);
            }
            i = i + 1;
        }
        Ok(())
    }
}

/// The step of a rewrite that records an operation: 0 for a deleted node, 1 for a
/// deleted edge, 2 for an added node, 3 for an added edge.
pub open spec fn phase_of(op: RewriteOperation) -> nat {
    match op {
        RewriteOperation::NodeDeleted(_) => 0,
        RewriteOperation::EdgeDeleted { .. } => 1,
        RewriteOperation::NodeAdded(_) => 2,
        RewriteOperation::EdgeAdded { .. } => 3,
    }
}

/// The operations come step by step (see `phase_of`), none after step `p`.
pub open spec fn phased(ops: Seq<RewriteOperation>, p: nat) -> bool {
    &&& forall|i: int, j: int| 0 <= i < j < ops.len() ==> #[trigger] phase_of(ops[i]) <= #[trigger] phase_of(ops[j])
    &&& forall|i: int| 0 <= i < ops.len() ==> #[trigger] phase_of(ops[i]) <= p
}

/// An operation of the last step keeps the operations in step order.
proof fn lemma_phased_push(ops: Seq<RewriteOperation>, op: RewriteOperation, p: nat)
    requires
        phased(ops, p),
        phase_of(op) == p,
    ensures
        phased(ops.push(op), p),
{
    let s = ops.push(op);
    assert forall|i: int, j: int| 0 <= i < j < s.len() implies #[trigger] phase_of(s[i]) <= #[trigger] phase_of(s[j]) by {
        assert(s[i] == ops[i]);
        if j < ops.len() {
            assert(s[j] == ops[j]);
        }
    }
    assert forall|i: int| 0 <= i < s.len() implies #[trigger] phase_of(s[i]) <= p by {
        if i < ops.len() {
            assert(s[i] == ops[i]);
        }
    }
}

/// The operations of a rewrite, step by step: the deleted nodes, the deleted edges, the
/// added nodes and the added edges, each in the order given.
pub open spec fn step_ops(
    nd: Seq<i64>,
    ed: Seq<(i64, i64)>,
    na: Seq<i64>,
    ea: Seq<(i64, i64)>,
) -> Seq<RewriteOperation> {
    nd.map_values(|x: i64| RewriteOperation::NodeDeleted(x)) + ed.map_values(
        |e: (i64, i64)| RewriteOperation::EdgeDeleted { from: e.0, to: e.1 },
    ) + na.map_values(|x: i64| RewriteOperation::NodeAdded(x)) + ea.map_values(
        |e: (i64, i64)| RewriteOperation::EdgeAdded { from: e.0, to: e.1 },
    )
}

/// Operations that stop at step `p` record nothing of a later step.
proof fn lemma_phased_later_empty(ops: Seq<RewriteOperation>, p: nat)
    requires
        phased(ops, p),
    ensures
        p < 1 ==> deleted_edges(ops).len() == 0,
        p < 2 ==> added_nodes(ops).len() == 0,
        p < 3 ==> added_edges(ops).len() == 0,
    decreases ops.len(),
{
    if ops.len() > 0 {
        let d = ops.drop_last();
        assert forall|i: int| 0 <= i < d.len() implies #[trigger] phase_of(d[i]) <= p by {
            assert(d[i] == ops[i]);
        }
        assert forall|i: int, j: int| 0 <= i < j < d.len() implies #[trigger] phase_of(d[i]) <= #[trigger] phase_of(d[j]) by {
            assert(d[i] == ops[i] && d[j] == ops[j]);
        }
        lemma_phased_later_empty(d, p);
        assert(phase_of(ops[ops.len() - 1]) <= p);
    }
}

/// Operations in step order are the deleted nodes, the deleted edges, the added nodes
/// and the added edges that they record, one block after the other.
pub proof fn lemma_phased_blocks(ops: Seq<RewriteOperation>)
    requires
        phased(ops, 3),
    ensures
        ops == step_ops(deleted_nodes(ops), deleted_edges(ops), added_nodes(ops), added_edges(ops)),
    decreases ops.len(),
{
    if ops.len() == 0 {
        assert(ops =~= step_ops(deleted_nodes(ops), deleted_edges(ops), added_nodes(ops), added_edges(ops)));
    } else {
        let d = ops.drop_last();
        let last = ops.last();
        let q = phase_of(last);
        assert forall|i: int| 0 <= i < d.len() implies #[trigger] phase_of(d[i]) <= q by {
            assert(d[i] == ops[i]);
            assert(phase_of(ops[i]) <= phase_of(ops[ops.len() - 1]));
        }
        assert forall|i: int, j: int| 0 <= i < j < d.len() implies #[trigger] phase_of(d[i]) <= #[trigger] phase_of(d[j]) by {
            assert(d[i] == ops[i] && d[j] == ops[j]);
        }
        assert(phased(d, 3));
        lemma_phased_blocks(d);
        lemma_phased_later_empty(d, q);
        assert(ops == d.push(last));
        let nd = deleted_nodes(d);
        let ed = deleted_edges(d);
        let na = added_nodes(d);
        let ea = added_edges(d);
        match last {
            RewriteOperation::NodeDeleted(x) => {
                assert(nd.push(x).map_values(|x: i64| RewriteOperation::NodeDeleted(x)) =~= nd.map_values(
                    |x: i64| RewriteOperation::NodeDeleted(x),
                ).push(last));
                assert(ed =~= Seq::<(i64, i64)>::empty());
                assert(na =~= Seq::<i64>::empty());
                assert(ea =~= Seq::<(i64, i64)>::empty());
                assert(ops =~= step_ops(nd.push(x), ed, na, ea));
            },
            RewriteOperation::EdgeDeleted { from, to } => {
                assert(ed.push((from, to)).map_values(
                    |e: (i64, i64)| RewriteOperation::EdgeDeleted { from: e.0, to: e.1 },
                ) =~= ed.map_values(|e: (i64, i64)| RewriteOperation::EdgeDeleted { from: e.0, to: e.1 }).push(last));
                assert(na =~= Seq::<i64>::empty());
                assert(ea =~= Seq::<(i64, i64)>::empty());
                assert(ops =~= step_ops(nd, ed.push((from, to)), na, ea));
            },
            RewriteOperation::NodeAdded(x) => {
                assert(na.push(x).map_values(|x: i64| RewriteOperation::NodeAdded(x)) =~= na.map_values(
                    |x: i64| RewriteOperation::NodeAdded(x),
                ).push(last));
                assert(ea =~= Seq::<(i64, i64)>::empty());
                assert(ops =~= step_ops(nd, ed, na.push(x), ea));
            },
            RewriteOperation::EdgeAdded { from, to } => {
                assert(ea.push((from, to)).map_values(
                    |e: (i64, i64)| RewriteOperation::EdgeAdded { from: e.0, to: e.1 },
                ) =~= ea.map_values(|e: (i64, i64)| RewriteOperation::EdgeAdded { from: e.0, to: e.1 }).push(last));
                assert(ops =~= step_ops(nd, ed, na, ea.push((from, to))));
            },
        }
    }
}

/// The kind of an operation: 0 node deleted, 1 node added, 2 edge deleted, 3 edge added.
pub open spec fn kind_of(op: RewriteOperation) -> nat {
    match op {
        RewriteOperation::NodeDeleted(_) => 0,
        RewriteOperation::NodeAdded(_) => 1,
        RewriteOperation::EdgeDeleted { .. } => 2,
        RewriteOperation::EdgeAdded { .. } => 3,
    }
}

/// The number of operations in `ops` of kind `kind` (see `kind_of`).
pub open spec fn count_kind(ops: Seq<RewriteOperation>, kind: nat) -> nat
    decreases ops.len(),
{
    if ops.len() == 0 {
        0
    } else {
        count_kind(ops.drop_last(), kind) + if kind_of(ops.last()) == kind {
            1nat
        } else {
            0nat
        }
    }
}

/// The number of operations of one kind, counted by a loop over `ops`.
fn count_operations(ops: &Vec<RewriteOperation>, kind: u8) -> (n: usize)
    ensures
        n == count_kind(ops@, kind as nat),
{
    let mut n: usize = 0;
    let mut i: usize = 0;
    while i < ops.len()
        invariant
            i <= ops@.len(),
            n == count_kind(ops@.subrange(0, i as int), kind as nat),
            n <= i,
        decreases ops.len() - i,
    {
        assert(ops@.subrange(0, i + 1).drop_last() =~= ops@.subrange(0, i as int));
        let k: u8 = match ops[i] {
            RewriteOperation::NodeDeleted(_) => 0,
            RewriteOperation::NodeAdded(_) => 1,
            RewriteOperation::EdgeDeleted { .. } => 2,
            RewriteOperation::EdgeAdded { .. } => 3,
        };
        if k == kind {
            n = n + 1;
        }
        i = i + 1;
    }
    assert(ops@.subrange(0, ops@.len() as int) =~= ops@);
    n
}

/// The outcome of a rewriting run.
pub struct RewriteResult {
    /// The rewritten graph (the input graph is left as it was).
    pub rewritten_graph: Graph,
    /// The number of pattern matches that were replaced.
    pub patterns_replaced: usize,
    /// Every operation applied, in order.
    pub operations_applied: Vec<RewriteOperation>,
    /// The problems that validation found (empty when it passed or did not run).
    pub validation_errors: Vec<String>,
}

impl RewriteResult {
    /// Validation found no problem.
    pub fn is_valid(&self) -> (b: bool)
        ensures
            b == (self.validation_errors@.len() == 0),
    {
        self.validation_errors.len() == 0
    }

    /// The number of operations applied.
    pub fn operation_count(&self) -> (n: usize)
        ensures
            n == self.operations_applied@.len(),
    {
        self.operations_applied.len()
    }

    /// The number of nodes added.
    pub fn nodes_added(&self) -> (n: usize)
        ensures
            n == count_kind(self.operations_applied@, 1),
    {
        count_operations(&self.operations_applied, 1)
    }

    /// The number of nodes deleted.
    pub fn nodes_deleted(&self) -> (n: usize)
        ensures
            n == count_kind(self.operations_applied@, 0),
    {
        count_operations(&self.operations_applied, 0)
    }

    /// The number of edges added.
    pub fn edges_added(&self) -> (n: usize)
        ensures
            n == count_kind(self.operations_applied@, 3),
    {
        count_operations(&self.operations_applied, 3)
    }

    /// The number of edges deleted.
    pub fn edges_deleted(&self) -> (n: usize)
        ensures
            n == count_kind(self.operations_applied@, 2),
    {
        count_operations(&self.operations_applied, 2)
    }
}

/// Lists the edges whose target is not an entity of the graph, one message each.
/// A graph of this library never has such an edge, so the list is always empty.
pub fn validate_no_dangling_edges(graph: &Graph) -> (errors: Vec<String>)
    requires
        graph.wf(),
    ensures
        errors@.len() == 0,
{
    let mut errors: Vec<String> = Vec::new();
    let ids = match graph.all_entity_ids() {
        Ok(ids) => ids,
        Err(_) => {
            return errors;
        },
    };
    let mut valid_ids: HashSet<i64> = HashSet::new();
    let mut k: usize = 0;
    while k < ids.len()
        invariant
            k <= ids@.len(),
            ids@ == node_ids(graph.node_count()),
            forall|j: int| 0 <= j < k ==> valid_ids@.contains(#[trigger] ids@[j]),
        decreases ids.len() - k,
    {
        valid_ids.insert(ids[k]);
        k = k + 1;
    }
    proof {
        graph.lemma_wf();
        assert forall|x: i64| graph.is_node(x) implies valid_ids@.contains(x) by {
            assert(ids@[x - 1] == x);
        }
    }
    let mut i: usize = 0;
    while i < ids.len()
        invariant
            i <= ids@.len(),
            ids@ == node_ids(graph.node_count()),
            graph.wf(),
            forall|x: i64| graph.is_node(x) ==> valid_ids@.contains(x),
            errors@.len() == 0,
        decreases ids.len() - i,
    {
        let node_id = ids[i];
        if let Ok(outgoing) = graph.fetch_outgoing(node_id) {
            let mut j: usize = 0;
            while j < outgoing.len()
                invariant
                    j <= outgoing@.len(),
                    outgoing@ == graph.succs(node_id),
                    graph.wf(),
                    forall|x: i64| graph.is_node(x) ==> valid_ids@.contains(x),
                    errors@.len() == 0,
                decreases outgoing.len() - j,
            {
                let target_id = outgoing[j];
                proof {
                    graph.lemma_wf();
                    assert(graph.succs(node_id).contains(target_id));
                }
                if !valid_ids.contains(&target_id) {
                    let mut m = String::from_str("Dangling edge: ");
                    m.append(i64_text(node_id).as_str());
                    m.append(" -> ");
                    m.append(i64_text(target_id).as_str());
                    m.append(" (target node does not exist)");
                    errors.push(m);
                }
                j = j + 1;
            }
        }
        i = i + 1;
    }
    errors
}

/// An edge record from `from` to `to`, of type "edge" and with empty data.
pub(crate) fn plain_edge(from: i64, to: i64) -> (e: GraphEdge)
    ensures
        e.from_id == from,
        e.to_id == to,
{
    GraphEdge {
        id: 0,
        from_id: from,
        to_id: to,
        edge_type: String::from_str("edge"),
        data: empty_json_object(),
    }
}

/// `serde_json::json!({})`: an empty JSON object.
#[verifier::external_body]
fn empty_json_object() -> (v: serde_json::Value) {
    serde_json::Value::Object(serde_json::Map::new())
}

/// A copy of the graph: the same entities, and from each node the same edges in the
/// same order.
pub fn copy_graph(graph: &Graph) -> (r: Result<Graph, SqliteGraphError>)
    requires
        graph.wf(),
    ensures
        match r {
            Ok(c) => {
                &&& c.wf()
                &&& c.entities() == graph.entities()
                &&& forall|v: i64| #[trigger] c.succs(v) == graph.succs(v)
                &&& c.edge_list().len() == graph.edge_list().len()
            },
            Err(_) => false,
        },
{
    let mut new_graph = Graph::new();
    let entity_ids = graph.all_entity_ids()?;
    proof {
        graph.lemma_wf();
        new_graph.lemma_wf();
        assert(new_graph.entities() =~= graph.entities().subrange(0, 0));
    }
    let mut i: usize = 0;
    while i < entity_ids.len()
        invariant
            graph.wf(),
            entity_ids@ == node_ids(graph.node_count()),
            i <= entity_ids@.len(),
            new_graph.wf(),
            new_graph.node_count() == i,
            new_graph.entities() == graph.entities().subrange(0, i as int),
            new_graph.edge_list() == Seq::<(i64, i64)>::empty(),
        decreases entity_ids.len() - i,
    {
        let id = entity_ids[i];
        proof {
            graph.lemma_wf();
            assert(id == i + 1);
        }
        if let Ok(entity) = graph.get_entity(id) {
            let copy = GraphEntity {
                id: 0,
                kind: entity.kind.clone(),
                name: entity.name.clone(),
                file_path: clone_opt(&entity.file_path),
                data: json_clone(&entity.data),
            };
            proof {
                new_graph.lemma_wf();
                assert(graph.entities()[i as int].id == i + 1);
                assert(entity == graph.entities()[i as int]);
                assert(new_graph.node_count() + 1 < i64::MAX);
                assert(new_graph.node_count() < usize::MAX);
            }
            let ghost before = new_graph.entities();
            let _ = new_graph.insert_entity(&copy);
            proof {
                assert(new_graph.entities() == before.push(crate::graph::with_id(copy, (i + 1) as i64)));
                assert(crate::graph::with_id(copy, (i + 1) as i64) == graph.entities()[i as int]);
                new_graph.lemma_wf();
                assert(new_graph.entities() =~= graph.entities().subrange(0, i + 1));
            }
        }
        i = i + 1;
    }
    proof {
        new_graph.lemma_wf();
        assert(new_graph.entities() =~= graph.entities());
    }
    let all_new = new_graph.all_entity_ids()?;
    let mut new_ids: Vec<i64> = Vec::new();
    let mut t: usize = 0;
    while t < all_new.len() && t < entity_ids.len()
        invariant
            t <= all_new@.len(),
            new_ids@ == all_new@.subrange(0, t as int),
        decreases all_new.len() - t,
    {
        new_ids.push(all_new[t]);
        t = t + 1;
    }
    let mut old_to_new: HashMap<i64, i64> = HashMap::new();
    let mut z: usize = 0;
    while z < entity_ids.len() && z < new_ids.len()
        invariant
            graph.wf(),
            entity_ids@ == node_ids(graph.node_count()),
            new_ids@ == node_ids(graph.node_count()),
            z <= entity_ids@.len(),
            forall|x: i64| #[trigger] old_to_new@.contains_key(x) <==> 1 <= x <= z,
            forall|x: i64| #[trigger] old_to_new@.contains_key(x) ==> old_to_new@[x] == x,
        decreases entity_ids.len() - z,
    {
        proof {
            graph.lemma_wf();
        }
        old_to_new.insert(entity_ids[z], new_ids[z]);
        z = z + 1;
    }
    let ghost edges = graph.edge_list();
    proof {
        lemma_source_count_split(edges, 1, 1, 1);
        assert forall|w: i64| #[trigger] new_graph.succs(w) == Seq::<i64>::empty() by {
            assert(new_graph.edge_list() =~= Seq::<(i64, i64)>::empty());
        }
    }
    let mut f: usize = 0;
    while f < entity_ids.len()
        invariant
            graph.wf(),
            edges == graph.edge_list(),
            entity_ids@ == node_ids(graph.node_count()),
            f <= entity_ids@.len(),
            new_graph.wf(),
            new_graph.entities() == graph.entities(),
            forall|x: i64| #[trigger] old_to_new@.contains_key(x) <==> graph.is_node(x),
            forall|x: i64| #[trigger] old_to_new@.contains_key(x) ==> old_to_new@[x] == x,
            forall|w: i64| #[trigger]
                new_graph.succs(w) == (if 1 <= w <= f {
                    graph.succs(w)
                } else {
                    Seq::<i64>::empty()
                }),
            new_graph.edge_list().len() == source_count(edges, 1, f + 1),
        decreases entity_ids.len() - f,
    {
        let from_id = entity_ids[f];
        proof {
            graph.lemma_wf();
            assert(from_id == f + 1);
        }
        let outgoing = graph.fetch_outgoing(from_id)?;
        let mut j: usize = 0;
        while j < outgoing.len()
            invariant
                graph.wf(),
                edges == graph.edge_list(),
                from_id == f + 1,
                f < entity_ids@.len(),
                entity_ids@ == node_ids(graph.node_count()),
                outgoing@ == graph.succs(from_id),
                j <= outgoing@.len(),
                new_graph.wf(),
                new_graph.entities() == graph.entities(),
                forall|x: i64| #[trigger] old_to_new@.contains_key(x) <==> graph.is_node(x),
                forall|x: i64| #[trigger] old_to_new@.contains_key(x) ==> old_to_new@[x] == x,
                forall|w: i64| #[trigger]
                    new_graph.succs(w) == (if 1 <= w <= f {
                        graph.succs(w)
                    } else if w == from_id {
                        outgoing@.subrange(0, j as int)
                    } else {
                        Seq::<i64>::empty()
                    }),
                new_graph.edge_list().len() == source_count(edges, 1, f + 1) + j,
            decreases outgoing.len() - j,
        {
            let to_id = outgoing[j];
            proof {
                graph.lemma_wf();
                assert(graph.succs(from_id).contains(to_id));
            }
            match (old_to_new.get(&from_id), old_to_new.get(&to_id)) {
                (Some(new_from), Some(new_to)) => {
                    let edge = plain_edge(*new_from, *new_to);
                    let ghost before = new_graph.edge_list();
                    let ghost g0 = new_graph;
                    proof {
                        lemma_out_of_len(edges, from_id);
                        lemma_source_count_split(edges, 1, f + 1, f + 2);
                        lemma_source_count_bound(edges, 1, f + 2);
                        new_graph.lemma_wf();
                    }
                    let _ = new_graph.insert_edge(&edge);
                    proof {
                        let after = new_graph.edge_list();
                        assert(after == before.push((from_id, to_id)));
                        assert(after.drop_last() =~= before);
                        assert forall|w: i64| #[trigger]
                            new_graph.succs(w) == (if 1 <= w <= f {
                                graph.succs(w)
                            } else if w == from_id {
                                outgoing@.subrange(0, j + 1)
                            } else {
                                Seq::<i64>::empty()
                            }) by {
                            assert(g0.succs(w) == out_of(before, w));
                            assert(out_of(after, w) == (if w == from_id {
                                out_of(before, w).push(to_id)
                            } else {
                                out_of(before, w)
                            }));
                            assert(outgoing@.subrange(0, j + 1) =~= outgoing@.subrange(0, j as int).push(
                                to_id,
                            ));
                        }
                    }
                },
                _ => {
                    proof {
                        assert(false);
                    }
                },
            }
            j = j + 1;
        }
        proof {
            assert(outgoing@.subrange(0, outgoing@.len() as int) =~= outgoing@);
            lemma_out_of_len(edges, from_id);
            lemma_source_count_split(edges, 1, f + 1, f + 2);
        }
        f = f + 1;
    }
    proof {
        assert forall|v: i64| #[trigger] new_graph.succs(v) == graph.succs(v) by {
            if !(1 <= v <= graph.node_count()) {
                assert forall|x: i64| !(#[trigger] graph.succs(v).contains(x)) by {
                    graph.lemma_wf();
                }
                if graph.succs(v).len() > 0 {
                    assert(graph.succs(v).contains(graph.succs(v)[0]));
                }
            }
        }
        graph.lemma_wf();
        lemma_source_count_all(edges, 1, (graph.node_count() + 1) as int);
    }
    Ok(new_graph)
}

/// A copy of an optional string.
fn clone_opt(o: &Option<String>) -> (r: Option<String>)
    ensures
        r == *o,
{
    match o {
        Some(s) => Some(s.clone()),
        None => None,
    }
}

/// Pattern position `idx` is kept: an interface pair names it, within the match, with a
/// replacement index inside the replacement graph.
pub open spec fn keeps_pattern_index(interface: Seq<(usize, usize)>, idx: int, match_len: nat, repl_count: nat) -> bool {
    exists|k: int|
        0 <= k < interface.len() && (#[trigger] interface[k]).0 == idx && idx < match_len && interface[k].1
            < repl_count
}

/// Replacement position `idx` stands for an interface node (some pair names it).
pub open spec fn keeps_replacement_index(interface: Seq<(usize, usize)>, idx: int) -> bool {
    exists|k: int| 0 <= k < interface.len() && (#[trigger] interface[k]).1 == idx
}

/// The node ids that a rewrite deletes: those that the match places non-interface
/// pattern nodes on.
pub open spec fn gone_ids(rule: &RewriteRule, m: Seq<i64>) -> Set<i64> {
    Set::new(
        |x: i64|
            exists|idx: int|
                0 <= idx < rule.pattern.node_count() && idx < m.len() && !keeps_pattern_index(
                    rule.interface@,
                    idx,
                    m.len(),
                    rule.replacement.node_count(),
                ) && #[trigger] m[idx] == x,
    )
}

/// The entities of `es` whose ids are not in `gone`, in order, renumbered from 1.
pub open spec fn survivors(es: Seq<GraphEntity>, gone: Set<i64>) -> Seq<GraphEntity>
    decreases es.len(),
{
    if es.len() == 0 {
        Seq::empty()
    } else {
        let rest = survivors(es.drop_last(), gone);
        if gone.contains(es.last().id) {
            rest
        } else {
            rest.push(crate::graph::with_id(es.last(), (rest.len() + 1) as i64))
        }
    }
}

/// The ids `1..=k` that lie in `gone`, in increasing order.
pub open spec fn gone_in_order(k: nat, gone: Set<i64>) -> Seq<i64>
    decreases k,
{
    if k == 0 {
        Seq::empty()
    } else {
        let rest = gone_in_order((k - 1) as nat, gone);
        if gone.contains(k as i64) {
            rest.push(k as i64)
        } else {
            rest
        }
    }
}

/// The replacement positions below `k` that no interface pair names, in order.
pub open spec fn added_positions(interface: Seq<(usize, usize)>, k: nat) -> Seq<int>
    decreases k,
{
    if k == 0 {
        Seq::empty()
    } else {
        let rest = added_positions(interface, (k - 1) as nat);
        if keeps_replacement_index(interface, k - 1) {
            rest
        } else {
            rest.push(k - 1)
        }
    }
}

/// The name that a replacement node gets in the rewrite numbered `index`.
pub open spec fn rewrite_name(name: Seq<char>, index: usize) -> Seq<char> {
    name + "_rewrite_"@ + decimal(index as int)
}

/// `e` is the replacement entity `r` added under the id `id` by the rewrite `index`.
pub open spec fn is_added_copy(e: GraphEntity, r: GraphEntity, id: int, index: usize) -> bool {
    &&& e.id == id
    &&& e.kind == r.kind
    &&& e.name@ == rewrite_name(r.name@, index)
    &&& e.file_path == r.file_path
    &&& e.data == r.data
}

/// The (source, target) pairs of the edge additions in `ops`, in order.
pub open spec fn added_edges(ops: Seq<RewriteOperation>) -> Seq<(i64, i64)>
    decreases ops.len(),
{
    if ops.len() == 0 {
        Seq::empty()
    } else {
        let rest = added_edges(ops.drop_last());
        match ops.last() {
            RewriteOperation::EdgeAdded { from, to } => rest.push((from, to)),
            _ => rest,
        }
    }
}

/// The edges of the edge deletions in `ops`, in order.
pub open spec fn deleted_edges(ops: Seq<RewriteOperation>) -> Seq<(i64, i64)>
    decreases ops.len(),
{
    if ops.len() == 0 {
        Seq::empty()
    } else {
        let rest = deleted_edges(ops.drop_last());
        match ops.last() {
            RewriteOperation::EdgeDeleted { from, to } => rest.push((from, to)),
            _ => rest,
        }
    }
}

/// The ids among `1..=k` with an edge into `d`, in increasing order.
pub open spec fn sources_into(g: &Graph, d: i64, k: nat) -> Seq<i64>
    decreases k,
{
    if k == 0 {
        Seq::empty()
    } else {
        let rest = sources_into(g, d, (k - 1) as nat);
        if g.has_edge(k as i64, d) {
            rest.push(k as i64)
        } else {
            rest
        }
    }
}

/// The edge deletions recorded for the deleted node `d`: each edge out of it, in order,
/// then one edge from each node with an edge into it, in id order.
pub open spec fn deletion_records(g: &Graph, d: i64) -> Seq<(i64, i64)> {
    g.succs(d).map_values(|t: i64| (d, t)) + sources_into(g, d, g.node_count()).map_values(|f: i64| (f, d))
}

/// The edge deletions recorded for the deleted nodes `ds`, one node after the other.
pub open spec fn all_deletion_records(g: &Graph, ds: Seq<i64>) -> Seq<(i64, i64)>
    decreases ds.len(),
{
    if ds.len() == 0 {
        Seq::empty()
    } else {
        all_deletion_records(g, ds.drop_last()) + deletion_records(g, ds.last())
    }
}

/// The nodes that a rewrite at the match `m` deletes, in the order of the first pattern
/// position (among the first `k`) that places each.
pub open spec fn gone_in_pattern_order(rule: &RewriteRule, m: Seq<i64>, k: nat) -> Seq<i64>
    decreases k,
{
    if k == 0 {
        Seq::empty()
    } else {
        let rest = gone_in_pattern_order(rule, m, (k - 1) as nat);
        let idx = k - 1;
        if idx < m.len() && !keeps_pattern_index(rule.interface@, idx, m.len(), rule.replacement.node_count())
            && !rest.contains(m[idx]) {
            rest.push(m[idx])
        } else {
            rest
        }
    }
}

/// The ids of the node deletions in `ops`, in order.
pub open spec fn deleted_nodes(ops: Seq<RewriteOperation>) -> Seq<i64>
    decreases ops.len(),
{
    if ops.len() == 0 {
        Seq::empty()
    } else {
        let rest = deleted_nodes(ops.drop_last());
        match ops.last() {
            RewriteOperation::NodeDeleted(x) => rest.push(x),
            _ => rest,
        }
    }
}

/// The ids of the node additions in `ops`, in order.
pub open spec fn added_nodes(ops: Seq<RewriteOperation>) -> Seq<i64>
    decreases ops.len(),
{
    if ops.len() == 0 {
        Seq::empty()
    } else {
        let rest = added_nodes(ops.drop_last());
        match ops.last() {
            RewriteOperation::NodeAdded(x) => rest.push(x),
            _ => rest,
        }
    }
}

/// The ids `first, first + 1, ...`, `count` of them.
pub open spec fn id_run(first: int, count: nat) -> Seq<i64> {
    Seq::new(count, |j: int| (first + j) as i64)
}

/// Fewer positions give no more added positions.
proof fn lemma_added_positions_mono(interface: Seq<(usize, usize)>, k1: nat, k2: nat)
    requires
        k1 <= k2,
    ensures
        added_positions(interface, k1).len() <= added_positions(interface, k2).len(),
    decreases k2,
{
    if k1 < k2 {
        lemma_added_positions_mono(interface, k1, (k2 - 1) as nat);
    }
}

/// The survivors are no more than the entities.
proof fn lemma_added_positions_len(interface: Seq<(usize, usize)>, k: nat)
    ensures
        added_positions(interface, k).len() <= k,
    decreases k,
{
    if k > 0 {
        lemma_added_positions_len(interface, (k - 1) as nat);
    }
}

/// Survivors are no more than the entities they come from.
proof fn lemma_survivors_len(es: Seq<GraphEntity>, gone: Set<i64>)
    ensures
        survivors(es, gone).len() <= es.len(),
    decreases es.len(),
{
    if es.len() > 0 {
        lemma_survivors_len(es.drop_last(), gone);
    }
}

/// Every edge deletion in `ops` names an edge of `graph` with a deleted end.
pub open spec fn deletions_sound(graph: &Graph, gone: Set<i64>, ops: Seq<RewriteOperation>) -> bool {
    forall|i: int|
        0 <= i < ops.len() ==> match #[trigger] ops[i] {
            RewriteOperation::EdgeDeleted { from, to } => graph.has_edge(from, to) && (gone.contains(from)
                || gone.contains(to)),
            _ => true,
        }
}

/// The id that a surviving node `x` gets in the rewritten graph: one more than the
/// number of surviving entities before it.
pub open spec fn new_id_of(es: Seq<GraphEntity>, gone: Set<i64>, x: i64) -> i64 {
    (survivors(es.subrange(0, x - 1), gone).len() + 1) as i64
}

/// When no interface pair names `idx`, replacement position `idx` is not kept.
proof fn lemma_first_partner_none(interface: Seq<(usize, usize)>, idx: usize)
    requires
        first_partner(interface, idx) is None,
    ensures
        !keeps_replacement_index(interface, idx as int),
    decreases interface.len(),
{
    if interface.len() > 0 {
        lemma_first_partner_none(interface.drop_first(), idx);
        assert forall|k: int| 0 <= k < interface.len() implies (#[trigger] interface[k]).1 != idx by {
            if k > 0 {
                assert(interface.drop_first()[k - 1] == interface[k]);
            }
        }
    }
}

/// The added positions below `k` rise strictly, lie below `k`, and hold every position
/// below `k` that no interface pair names.
proof fn lemma_added_positions_shape(interface: Seq<(usize, usize)>, k: nat)
    ensures
        forall|i: int, j: int|
            0 <= i < j < added_positions(interface, k).len() ==> #[trigger] added_positions(interface, k)[i]
                < #[trigger] added_positions(interface, k)[j],
        forall|i: int|
            0 <= i < added_positions(interface, k).len() ==> 0 <= #[trigger] added_positions(interface, k)[i] < k,
        forall|pos: int|
            0 <= pos < k && !keeps_replacement_index(interface, pos) ==> #[trigger] added_positions(
                interface,
                k,
            ).contains(pos),
    decreases k,
{
    if k > 0 {
        lemma_added_positions_shape(interface, (k - 1) as nat);
        let rest = added_positions(interface, (k - 1) as nat);
        let cur = added_positions(interface, k);
        assert forall|pos: int|
            0 <= pos < k && !keeps_replacement_index(interface, pos) implies #[trigger] cur.contains(pos) by {
            if pos < k - 1 {
                assert(rest.contains(pos));
                let i = choose|i: int| 0 <= i < rest.len() && rest[i] == pos;
                assert(cur[i] == rest[i]);
            } else {
                assert(cur[cur.len() - 1] == pos);
            }
        }
    }
}

/// Where the rewritten graph attaches replacement position `pos`: through the first
/// interface pair that names it, the renumbered node its pattern position is matched on
/// (when that node survives); otherwise the node added for it, numbered after the
/// `s0` surviving entities in the order of the added positions.
pub open spec fn rewritten_endpoint(
    graph: &Graph,
    rule: &RewriteRule,
    m: Seq<i64>,
    s0: nat,
    pos: int,
) -> Option<i64> {
    let gone = gone_ids(rule, m);
    let adds = added_positions(rule.interface@, rule.replacement.node_count());
    match first_partner(rule.interface@, pos as usize) {
        Some(p) => if p < m.len() && graph.is_node(m[p as int]) && !gone.contains(m[p as int]) {
            Some(new_id_of(graph.entities(), gone, m[p as int]))
        } else {
            None
        },
        None => if adds.contains(pos) {
            Some((s0 + 1 + choose|j: int| 0 <= j < adds.len() && adds[j] == pos) as i64)
        } else {
            None
        },
    }
}

/// `edges` holds the edge between where the rewritten graph attaches replacement nodes
/// `u` and `w`, when it attaches both.
pub open spec fn attached(edges: Seq<(i64, i64)>, graph: &Graph, rule: &RewriteRule, m: Seq<i64>, s0: nat, u: i64, w: i64) -> bool {
    match (rewritten_endpoint(graph, rule, m, s0, u - 1), rewritten_endpoint(graph, rule, m, s0, w - 1)) {
        (Some(x), Some(y)) => edges.contains((x, y)),
        _ => true,
    }
}

/// An edge list that grows keeps every attached edge.
proof fn lemma_attached_prefix(
    a: Seq<(i64, i64)>,
    b: Seq<(i64, i64)>,
    graph: &Graph,
    rule: &RewriteRule,
    m: Seq<i64>,
    s0: nat,
    u: i64,
    w: i64,
)
    requires
        attached(a, graph, rule, m, s0, u, w),
        a.len() <= b.len(),
        forall|k: int| 0 <= k < a.len() ==> #[trigger] b[k] == a[k],
    ensures
        attached(b, graph, rule, m, s0, u, w),
{
    match (rewritten_endpoint(graph, rule, m, s0, u - 1), rewritten_endpoint(graph, rule, m, s0, w - 1)) {
        (Some(x), Some(y)) => {
            let k = choose|k: int| 0 <= k < a.len() && a[k] == (x, y);
            assert(b[k] == a[k]);
        },
        _ => {},
    }
}

/// What `resolve_endpoint` gives, read against the maps that the rewrite builds, is
/// where the rewritten graph attaches the position.
proof fn lemma_resolved(
    graph: &Graph,
    rule: &RewriteRule,
    m: Seq<i64>,
    s0: nat,
    o2n: Map<i64, i64>,
    rmap: Map<usize, i64>,
    idx: usize,
    r: Option<i64>,
)
    requires
        idx < rule.replacement.node_count(),
        r == (match first_partner(rule.interface@, idx) {
            Some(p) => if p < m.len() && o2n.contains_key(m[p as int]) {
                Some(o2n[m[p as int]])
            } else {
                None
            },
            None => if rmap.contains_key(idx) {
                Some(rmap[idx])
            } else {
                None
            },
        }),
        forall|x: i64| #[trigger] o2n.contains_key(x) <==> graph.is_node(x) && !gone_ids(rule, m).contains(x),
        forall|x: i64| #[trigger] o2n.contains_key(x) ==> o2n[x] == new_id_of(graph.entities(), gone_ids(rule, m), x),
        forall|j: int|
            #![trigger added_positions(rule.interface@, rule.replacement.node_count())[j]]
            0 <= j < added_positions(rule.interface@, rule.replacement.node_count()).len() ==> rmap.contains_key(
                added_positions(rule.interface@, rule.replacement.node_count())[j] as usize,
            ) && rmap[added_positions(rule.interface@, rule.replacement.node_count())[j] as usize] == s0 + 1 + j,
    ensures
        r == rewritten_endpoint(graph, rule, m, s0, idx as int),
{
    let adds = added_positions(rule.interface@, rule.replacement.node_count());
    if first_partner(rule.interface@, idx) is None {
        lemma_first_partner_none(rule.interface@, idx);
        lemma_added_positions_shape(rule.interface@, rule.replacement.node_count());
        assert(adds.contains(idx as int));
        let j0 = choose|j: int| 0 <= j < adds.len() && adds[j] == idx as int;
        let j1 = choose|j: int| 0 <= j < adds.len() && adds[j] == idx as int;
        if j0 < j1 {
            assert(adds[j0] < adds[j1]);
        } else if j1 < j0 {
            assert(adds[j1] < adds[j0]);
        }
        assert(adds[j0] as usize == idx);
        assert(rmap.contains_key(idx) && rmap[idx] == s0 + 1 + j0);
    }
}

/// `ops` records the deletion of the edge from `u` to `w`.
pub open spec fn records_deletion(ops: Seq<RewriteOperation>, u: i64, w: i64) -> bool {
    exists|q: int| 0 <= q < ops.len() && ops[q] == (RewriteOperation::EdgeDeleted { from: u, to: w })
}

/// Every edge of `graph` with an end in `gone` is recorded as deleted in `ops`.
pub open spec fn deletions_complete(graph: &Graph, gone: Set<i64>, ops: Seq<RewriteOperation>) -> bool {
    forall|u: i64, w: i64|
        graph.has_edge(u, w) && (gone.contains(u) || gone.contains(w)) ==> #[trigger] records_deletion(ops, u, w)
}

/// `a` is an initial part of `b`.
pub open spec fn ops_prefix(a: Seq<RewriteOperation>, b: Seq<RewriteOperation>) -> bool {
    a.len() <= b.len() && forall|q: int| 0 <= q < a.len() ==> #[trigger] b[q] == a[q]
}

/// A record stays when more operations follow.
proof fn lemma_records_prefix(a: Seq<RewriteOperation>, b: Seq<RewriteOperation>, u: i64, w: i64)
    requires
        records_deletion(a, u, w),
        ops_prefix(a, b),
    ensures
        records_deletion(b, u, w),
{
    let q = choose|q: int| 0 <= q < a.len() && a[q] == (RewriteOperation::EdgeDeleted { from: u, to: w });
    assert(b[q] == a[q]);
}

/// Complete records stay complete when more operations follow.
proof fn lemma_complete_prefix(graph: &Graph, gone: Set<i64>, a: Seq<RewriteOperation>, b: Seq<RewriteOperation>)
    requires
        deletions_complete(graph, gone, a),
        ops_prefix(a, b),
    ensures
        deletions_complete(graph, gone, b),
{
    assert forall|u: i64, w: i64|
        graph.has_edge(u, w) && (gone.contains(u) || gone.contains(w)) implies #[trigger] records_deletion(b, u, w) by {
        assert(records_deletion(a, u, w));
        lemma_records_prefix(a, b, u, w);
    }
}

/// Whether `v` holds `x`.
fn ids_contain(v: &Vec<i64>, x: i64) -> (b: bool)
    ensures
        b == v@.contains(x),
{
    let mut i: usize = 0;
    while i < v.len()
        invariant
            i <= v@.len(),
            forall|j: int| 0 <= j < i ==> v@[j] != x,
        decreases v.len() - i,
    {
        if v[i] == x {
            return true;
        }
        i = i + 1;
    }
    false
}

/// The first position of `x` in `v`, if any.
fn position_of(v: &Vec<i64>, x: i64) -> (r: Option<usize>)
    ensures
        match r {
            Some(i) => i < v@.len() && v@[i as int] == x && forall|j: int| 0 <= j < i ==> v@[j] != x,
            None => !v@.contains(x),
        },
{
    let mut i: usize = 0;
    while i < v.len()
        invariant
            i <= v@.len(),
            forall|j: int| 0 <= j < i ==> v@[j] != x,
        decreases v.len() - i,
    {
        if v[i] == x {
            return Some(i);
        }
        i = i + 1;
    }
    None
}

/// The text `name` followed by "_rewrite_" and the decimal `index`.
fn rewritten_name(name: &String, index: usize) -> (s: String)
    ensures
        s@ == rewrite_name(name@, index),
{
    let mut s = name.clone();
    s.append("_rewrite_");
    s.append(usize_text(index).as_str());
    s
}

/// The pattern position of the first interface pair that names replacement position
/// `idx`, if any pair does.
pub open spec fn first_partner(interface: Seq<(usize, usize)>, idx: usize) -> Option<usize>
    decreases interface.len(),
{
    if interface.len() == 0 {
        None
    } else if interface[0].1 == idx {
        Some(interface[0].0)
    } else {
        first_partner(interface.drop_first(), idx)
    }
}

/// Whether some interface pair names replacement position `idx`; when one does, the
/// pattern position of the first such pair.
fn interface_partner(interface: &Vec<(usize, usize)>, idx: usize) -> (r: Option<usize>)
    ensures
        r == first_partner(interface@, idx),
        match r {
            Some(p) => exists|k: int|
                0 <= k < interface@.len() && (#[trigger] interface@[k]) == (p, idx) && forall|q: int|
                    0 <= q < k ==> (#[trigger] interface@[q]).1 != idx,
            None => !keeps_replacement_index(interface@, idx as int),
        },
{
    let mut k: usize = 0;
    proof {
        assert(interface@.skip(0) =~= interface@);
    }
    while k < interface.len()
        invariant
            k <= interface@.len(),
            forall|q: int| 0 <= q < k ==> (#[trigger] interface@[q]).1 != idx,
            first_partner(interface@.skip(k as int), idx) == first_partner(interface@, idx),
        decreases interface.len() - k,
    {
        let (p, rep) = interface[k];
        proof {
            assert(interface@.skip(k as int)[0] == interface@[k as int]);
            assert(interface@.skip(k as int).drop_first() =~= interface@.skip(k + 1));
        }
        if rep == idx {
            proof {
                assert(interface@[k as int] == (p, idx));
            }
            return Some(p);
        }
        k = k + 1;
    }
    proof {
        assert(interface@.skip(k as int).len() == 0);
    }
    None
}

/// The edge `e` of a rewritten graph comes from an edge between two surviving nodes of
/// `graph` (renumbered) or from an edge of the replacement whose two ends are attached.
pub open spec fn edge_origin(graph: &Graph, rule: &RewriteRule, m: Seq<i64>, s0: nat, e: (i64, i64)) -> bool {
    let gone = gone_ids(rule, m);
    ||| exists|u: i64, w: i64|
        #[trigger] graph.has_edge(u, w) && !gone.contains(u) && !gone.contains(w) && e == (
            new_id_of(graph.entities(), gone, u),
            new_id_of(graph.entities(), gone, w),
        )
    ||| exists|u: i64, w: i64|
        #[trigger] rule.replacement.has_edge(u, w) && rewritten_endpoint(graph, rule, m, s0, u - 1) == Some(e.0)
            && rewritten_endpoint(graph, rule, m, s0, w - 1) == Some(e.1)
}

/// What one rewrite of `rule` at the match `m` (with index `rewrite_index`) makes of
/// `graph`: the graph `ng` and the operations `ops`. The surviving entities come first,
/// renumbered, then the added replacement nodes; the operations list, in this order,
/// the deleted nodes, the edges with a deleted end, the added nodes and exactly the edges
/// of `ng`: every edge between surviving nodes, and every replacement edge whose ends are
/// attached (when the two graphs' edges together fit in the id range).
pub open spec fn rewrite_step(
    graph: &Graph,
    rule: &RewriteRule,
    pattern_match: Seq<i64>,
    rewrite_index: usize,
    ng: Graph,
    ops: Seq<RewriteOperation>,
) -> bool {
    let gone = gone_ids(rule, pattern_match);
    let kept = survivors(graph.entities(), gone);
    let adds = added_positions(rule.interface@, rule.replacement.node_count());
    let total = kept.len() + adds.len();
    &&& ng.wf()
    &&& ng.node_count() == total
    &&& ng.entities().subrange(0, kept.len() as int) == kept
    &&& forall|j: int|
        0 <= j < adds.len() ==> is_added_copy(
            #[trigger] ng.entities()[kept.len() + j],
            rule.replacement.entities()[adds[j]],
            kept.len() + j + 1,
            rewrite_index,
        )
    &&& ng.edge_list() == added_edges(ops)
    &&& ops == step_ops(
        gone_in_order(graph.node_count(), gone),
        all_deletion_records(graph, gone_in_pattern_order(rule, pattern_match, rule.pattern.node_count())),
        id_run((kept.len() + 1) as int, adds.len()),
        ng.edge_list(),
    )
    &&& forall|k: int|
        0 <= k < ng.edge_list().len() ==> edge_origin(graph, rule, pattern_match, kept.len(), #[trigger] ng.edge_list()[k])
    &&& deleted_nodes(ops) == gone_in_order(graph.node_count(), gone)
    &&& deleted_edges(ops) == all_deletion_records(
        graph,
        gone_in_pattern_order(rule, pattern_match, rule.pattern.node_count()),
    )
    &&& added_nodes(ops) == id_run((kept.len() + 1) as int, adds.len())
    &&& deletions_sound(graph, gone, ops)
    &&& deletions_complete(graph, gone, ops)
    &&& forall|u: i64, w: i64|
        #[trigger] graph.has_edge(u, w) && !gone.contains(u) && !gone.contains(w) ==> ng.has_edge(
            new_id_of(graph.entities(), gone, u),
            new_id_of(graph.entities(), gone, w),
        )
    &&& graph.edge_list().len() + rule.replacement.edge_list().len() < i64::MAX
        && graph.edge_list().len() + rule.replacement.edge_list().len() <= usize::MAX
        ==> forall|u: i64, w: i64|
        #[trigger] rule.replacement.has_edge(u, w) ==> attached(
            ng.edge_list(),
            graph,
            rule,
            pattern_match,
            kept.len(),
            u,
            w,
        )
}

/// Applies one rewrite of `rule` at the match `pattern_match` (pattern node `i` placed on
/// `pattern_match[i]`) to a copy of `graph`, and lists the operations performed: the
/// surviving entities are copied and renumbered, the nodes of non-interface pattern
/// positions are deleted, the replacement's non-interface nodes are added under new names,
/// and the surviving edges and the replacement's edges (attached through the interface)
/// are added. Every edge with a deleted end is recorded as deleted; every edge between
/// surviving nodes comes back between their new ids; every replacement edge whose ends
/// are attached comes back between them (when the two graphs' edges together fit in the
/// id range).
pub fn apply_single_rewrite(
    graph: &Graph,
    rule: &RewriteRule,
    pattern_match: &Vec<i64>,
    rewrite_index: usize,
) -> (r: Result<(Graph, Vec<RewriteOperation>), SqliteGraphError>)
    requires
        graph.wf(),
        rule.pattern.wf(),
        rule.replacement.wf(),
    ensures
        ({
            let gone = gone_ids(rule, pattern_match@);
            let kept = survivors(graph.entities(), gone);
            let adds = added_positions(rule.interface@, rule.replacement.node_count());
            let total = kept.len() + adds.len();
            &&& r is Ok <==> total < i64::MAX && total <= usize::MAX
            &&& r matches Ok((ng, ops)) ==> rewrite_step(graph, rule, pattern_match@, rewrite_index, ng, ops@)
        }),
{
    let ghost gone = gone_ids(rule, pattern_match@);
    let ghost m = pattern_match@;
    let ghost interface = rule.interface@;
    let ghost rc = rule.replacement.node_count();
    let mut operations: Vec<RewriteOperation> = Vec::new();
    let pattern_ids = rule.pattern.all_entity_ids()?;
    let replacement_ids = rule.replacement.all_entity_ids()?;
    proof {
        graph.lemma_wf();
        rule.pattern.lemma_wf();
        rule.replacement.lemma_wf();
    }
    // The pattern positions that the interface keeps.
    let mut interface_pattern_indices: HashSet<usize> = HashSet::new();
    let mut k: usize = 0;
    while k < rule.interface.len()
        invariant
            k <= interface.len(),
            interface == rule.interface@,
            m == pattern_match@,
            replacement_ids@.len() == rc,
            forall|p: usize| #[trigger]
                interface_pattern_indices@.contains(p) <==> exists|q: int|
                    0 <= q < k && (#[trigger] interface[q]).0 == p && p < m.len() && interface[q].1 < rc,
        decreases rule.interface.len() - k,
    {
        let (pattern_idx, replacement_idx) = rule.interface[k];
        let ghost before = interface_pattern_indices@;
        if pattern_idx < pattern_match.len() && replacement_idx < replacement_ids.len() {
            interface_pattern_indices.insert(pattern_idx);
        }
        proof {
            assert(interface[k as int] == (pattern_idx, replacement_idx));
            assert forall|p: usize| #[trigger]
                interface_pattern_indices@.contains(p) <==> exists|q: int|
                    0 <= q < k + 1 && (#[trigger] interface[q]).0 == p && p < m.len() && interface[q].1
                        < rc by {
                if before.contains(p) {
                    let q = choose|q: int|
                        0 <= q < k && (#[trigger] interface[q]).0 == p && p < m.len() && interface[q].1 < rc;
                }
                if exists|q: int|
                    0 <= q < k + 1 && (#[trigger] interface[q]).0 == p && p < m.len() && interface[q].1 < rc {
                    let q = choose|q: int|
                        0 <= q < k + 1 && (#[trigger] interface[q]).0 == p && p < m.len() && interface[q].1 < rc;
                    if q < k {
                        assert(before.contains(p));
                    }
                }
            }
        }
        k = k + 1;
    }
    // The ids that the rewrite deletes, as a set and as a list in pattern order.
    let mut non_interface_pattern_ids: HashSet<i64> = HashSet::new();
    let mut gone_list: Vec<i64> = Vec::new();
    let mut idx: usize = 0;
    while idx < pattern_ids.len()
        invariant
            idx <= pattern_ids@.len(),
            pattern_ids@.len() == rule.pattern.node_count(),
            interface == rule.interface@,
            m == pattern_match@,
            rc == rule.replacement.node_count(),
            gone == gone_ids(rule, m),
            forall|p: usize| #[trigger]
                interface_pattern_indices@.contains(p) <==> keeps_pattern_index(interface, p as int, m.len(), rc),
            forall|x: i64| #[trigger]
                non_interface_pattern_ids@.contains(x) <==> exists|j: int|
                    0 <= j < idx && j < m.len() && !keeps_pattern_index(interface, j, m.len(), rc) && #[trigger] m[j]
                        == x,
            forall|x: i64| #[trigger] gone_list@.contains(x) <==> non_interface_pattern_ids@.contains(x),
            gone_list@.no_duplicates(),
            gone_list@ == gone_in_pattern_order(rule, m, idx as nat),
        decreases pattern_ids.len() - idx,
    {
        let ghost before = non_interface_pattern_ids@;
        let ghost gl = gone_list@;
        if idx < pattern_match.len() && !interface_pattern_indices.contains(&idx) {
            let target_id = pattern_match[idx];
            if non_interface_pattern_ids.insert(target_id) {
                gone_list.push(target_id);
                proof {
                    assert forall|a: int, b: int| 0 <= a < b < gone_list@.len() implies gone_list@[a]
                        != gone_list@[b] by {
                        if b == gone_list@.len() - 1 {
                            assert(gl.contains(gl[a]));
                        }
                    }
                    assert forall|x: i64| #[trigger] gone_list@.contains(x)
                        <==> non_interface_pattern_ids@.contains(x) by {
                        if gone_list@.contains(x) {
                            let a = choose|a: int| 0 <= a < gone_list@.len() && gone_list@[a] == x;
                            if a < gl.len() {
                                assert(gl[a] == x);
                                assert(gl.contains(x));
                            }
                        }
                        if before.contains(x) {
                            assert(gl.contains(x));
                            let a = choose|a: int| 0 <= a < gl.len() && gl[a] == x;
                            assert(gone_list@[a] == x);
                        }
                        if x == target_id {
                            assert(gone_list@[gone_list@.len() - 1] == x);
                        }
                    }
                }
            }
        }
        proof {
            assert forall|x: i64| #[trigger]
                non_interface_pattern_ids@.contains(x) <==> exists|j: int|
                    0 <= j < idx + 1 && j < m.len() && !keeps_pattern_index(interface, j, m.len(), rc)
                        && #[trigger] m[j] == x by {
                if before.contains(x) {
                    let j = choose|j: int|
                        0 <= j < idx && j < m.len() && !keeps_pattern_index(interface, j, m.len(), rc) && #[trigger] m[j]
                            == x;
                }
                if exists|j: int|
                    0 <= j < idx + 1 && j < m.len() && !keeps_pattern_index(interface, j, m.len(), rc)
                        && #[trigger] m[j] == x {
                    let j = choose|j: int|
                        0 <= j < idx + 1 && j < m.len() && !keeps_pattern_index(interface, j, m.len(), rc)
                            && #[trigger] m[j] == x;
                    if j < idx {
                        assert(before.contains(x));
                    } else {
                        assert(!interface_pattern_indices@.contains(idx));
                    }
                }
            }
        }
        idx = idx + 1;
    }
    proof {
        assert forall|x: i64| #[trigger] non_interface_pattern_ids@.contains(x) <==> gone.contains(x) by {
            if non_interface_pattern_ids@.contains(x) {
                let j = choose|j: int|
                    0 <= j < idx && j < m.len() && !keeps_pattern_index(interface, j, m.len(), rc) && #[trigger] m[j] == x;
            }
            if gone.contains(x) {
                let j = choose|j: int|
                    0 <= j < rule.pattern.node_count() && j < m.len() && !keeps_pattern_index(
                        interface,
                        j,
                        m.len(),
                        rc,
                    ) && #[trigger] m[j] == x;
            }
        }
    }
    // Step 1: copy the surviving entities.
    let mut new_graph = Graph::new();
    let mut old_to_new_id: HashMap<i64, i64> = HashMap::new();
    let all_old_ids = graph.all_entity_ids()?;
    let ghost n = graph.node_count();
    let ghost es = graph.entities();
    proof {
        new_graph.lemma_wf();
        assert(new_graph.entities() =~= survivors(es.subrange(0, 0), gone));
        assert(gone_in_order(0, gone) =~= Seq::<i64>::empty());
    }
    let mut i: usize = 0;
    while i < all_old_ids.len()
        invariant
            phased(operations@, 0),
            graph.wf(),
            n == graph.node_count(),
            es == graph.entities(),
            all_old_ids@ == node_ids(n),
            i <= n,
            forall|x: i64| #[trigger] non_interface_pattern_ids@.contains(x) <==> gone.contains(x),
            new_graph.wf(),
            new_graph.entities() == survivors(es.subrange(0, i as int), gone),
            new_graph.edge_list() == Seq::<(i64, i64)>::empty(),
            added_edges(operations@) == Seq::<(i64, i64)>::empty(),
            deleted_nodes(operations@) == gone_in_order(i as nat, gone),
            deleted_edges(operations@) == Seq::<(i64, i64)>::empty(),
            added_nodes(operations@) == Seq::<i64>::empty(),
            deletions_sound(graph, gone, operations@),
            forall|x: i64| #[trigger] old_to_new_id@.contains_key(x) <==> 1 <= x <= i && !gone.contains(x),
            forall|x: i64| #[trigger] old_to_new_id@.contains_key(x) ==> old_to_new_id@[x] == new_id_of(es, gone, x),
            forall|x: i64| #[trigger]
                old_to_new_id@.contains_key(x) ==> 1 <= old_to_new_id@[x] <= new_graph.node_count(),
        decreases all_old_ids.len() - i,
    {
        let old_id = all_old_ids[i];
        let ghost ops0 = operations@;
        let ghost before = new_graph.entities();
        proof {
            graph.lemma_wf();
            new_graph.lemma_wf();
            assert(old_id == i + 1);
            assert(es[i as int].id == old_id);
            assert(es.subrange(0, i + 1).drop_last() =~= es.subrange(0, i as int));
            lemma_survivors_len(es.subrange(0, i as int), gone);
        }
        if !non_interface_pattern_ids.contains(&old_id) {
            if let Ok(entity) = graph.get_entity(old_id) {
                let copy = GraphEntity {
                    id: 0,
                    kind: entity.kind.clone(),
                    name: entity.name.clone(),
                    file_path: clone_opt(&entity.file_path),
                    data: json_clone(&entity.data),
                };
                let new_id = new_graph.insert_entity(&copy)?;
                proof {
                    new_graph.lemma_wf();
                    assert(crate::graph::with_id(copy, new_id) == crate::graph::with_id(es[i as int], new_id));
                }
                old_to_new_id.insert(old_id, new_id);
                proof {
                    assert(es.subrange(0, old_id - 1) =~= es.subrange(0, i as int));
                }
            }
        } else {
            proof {
                lemma_phased_push(operations@, RewriteOperation::NodeDeleted(old_id), 0);
            }
            operations.push(RewriteOperation::NodeDeleted(old_id));
            proof {
                assert(operations@.drop_last() =~= ops0);
                assert forall|q: int|
                    0 <= q < operations@.len() implies match #[trigger] operations@[q] {
                        RewriteOperation::EdgeDeleted { from, to } => graph.has_edge(from, to) && (
                        gone.contains(from) || gone.contains(to)),
                        _ => true,
                    } by {
                    if q < ops0.len() {
                        assert(operations@[q] == ops0[q]);
                    }
                }
            }
        }
        i = i + 1;
    }
    proof {
        assert(es.subrange(0, n as int) =~= es);
        graph.lemma_wf();
        assert forall|x: i64| #[trigger] old_to_new_id@.contains_key(x) <==> graph.is_node(x) && !gone.contains(x) by {}
    }
    let ghost kept = survivors(es, gone);
    let ghost s0 = kept.len();
    // Step 2: record the edges that the deletions remove.
    let mut d: usize = 0;
    while d < gone_list.len()
        invariant
            phased(operations@, 1),
            graph.wf(),
            n == graph.node_count(),
            all_old_ids@ == node_ids(n),
            d <= gone_list@.len(),
            forall|x: i64| #[trigger] gone_list@.contains(x) <==> gone.contains(x),
            forall|x: i64| #[trigger] non_interface_pattern_ids@.contains(x) <==> gone.contains(x),
            added_edges(operations@) == Seq::<(i64, i64)>::empty(),
            deleted_nodes(operations@) == gone_in_order(n, gone),
            added_nodes(operations@) == Seq::<i64>::empty(),
            deletions_sound(graph, gone, operations@),
            forall|x: i64| #[trigger] old_to_new_id@.contains_key(x) <==> graph.is_node(x) && !gone.contains(x),
            forall|x: i64| #[trigger] old_to_new_id@.contains_key(x) ==> old_to_new_id@[x] == new_id_of(es, gone, x),
            es == graph.entities(),
            forall|u: i64, w: i64|
                graph.has_edge(u, w) && (gone_list@.take(d as int).contains(u) || gone_list@.take(d as int).contains(w))
                    ==> #[trigger] records_deletion(operations@, u, w),
            deleted_edges(operations@) == all_deletion_records(graph, gone_list@.take(d as int)),
        decreases gone_list.len() - d,
    {
        let deleted_id = gone_list[d];
        let ghost ops_d = operations@;
        proof {
            assert(gone_list@.contains(deleted_id));
        }
        if let Ok(outgoing) = graph.fetch_outgoing(deleted_id) {
            let mut t: usize = 0;
            while t < outgoing.len()
                invariant
                    phased(operations@, 1),
                    outgoing@ == graph.succs(deleted_id),
                    t <= outgoing@.len(),
                    gone.contains(deleted_id),
                    added_edges(operations@) == Seq::<(i64, i64)>::empty(),
                    deleted_nodes(operations@) == gone_in_order(n, gone),
                    added_nodes(operations@) == Seq::<i64>::empty(),
                    deletions_sound(graph, gone, operations@),
                    forall|x: i64| #[trigger] old_to_new_id@.contains_key(x) <==> graph.is_node(x) && !gone.contains(x),
                    forall|x: i64| #[trigger] old_to_new_id@.contains_key(x) ==> old_to_new_id@[x] == new_id_of(es, gone, x),
                    es == graph.entities(),
                    ops_prefix(ops_d, operations@),
                    forall|j: int| 0 <= j < t ==> #[trigger] records_deletion(operations@, deleted_id, outgoing@[j]),
                    deleted_edges(operations@) == deleted_edges(ops_d) + outgoing@.take(t as int).map_values(
                        |x: i64| (deleted_id, x),
                    ),
                decreases outgoing.len() - t,
            {
                let target_id = outgoing[t];
                let ghost ops0 = operations@;
                proof {
                    lemma_phased_push(operations@, RewriteOperation::EdgeDeleted { from: deleted_id, to: target_id }, 1);
                }
                operations.push(RewriteOperation::EdgeDeleted { from: deleted_id, to: target_id });
                proof {
                    assert(operations@[ops0.len() as int] == (RewriteOperation::EdgeDeleted { from: deleted_id, to: target_id }));
                    assert(operations@.drop_last() =~= ops0);
                    assert(outgoing@.take(t + 1).map_values(|x: i64| (deleted_id, x)) =~= outgoing@.take(t as int).map_values(
                        |x: i64| (deleted_id, x),
                    ).push((deleted_id, target_id)));
                    assert(ops_prefix(ops0, operations@));
                    assert forall|j: int| 0 <= j < t + 1 implies #[trigger] records_deletion(
                        operations@,
                        deleted_id,
                        outgoing@[j],
                    ) by {
                        if j < t {
                            lemma_records_prefix(ops0, operations@, deleted_id, outgoing@[j]);
                        }
                    }
                    assert(graph.succs(deleted_id).contains(target_id));
                    assert(operations@.drop_last() =~= ops0);
                    assert forall|q: int|
                        0 <= q < operations@.len() implies match #[trigger] operations@[q] {
                            RewriteOperation::EdgeDeleted { from, to } => graph.has_edge(from, to) && (
                            gone.contains(from) || gone.contains(to)),
                            _ => true,
                        } by {
                        if q < ops0.len() {
                            assert(operations@[q] == ops0[q]);
                        }
                    }
                }
                t = t + 1;
            }
        }
        let ghost ops_out = operations@;
        let ghost outgoing_recs = graph.succs(deleted_id).map_values(|x: i64| (deleted_id, x));
        proof {
            assert(sources_into(graph, deleted_id, 0).map_values(|x: i64| (x, deleted_id)) =~= Seq::<(i64, i64)>::empty());
            graph.lemma_wf();
            assert forall|w: i64| graph.has_edge(deleted_id, w) implies #[trigger] records_deletion(
                operations@,
                deleted_id,
                w,
            ) by {
                let out = graph.succs(deleted_id);
                let j = choose|j: int| 0 <= j < out.len() && out[j] == w;
                assert(records_deletion(operations@, deleted_id, out[j]));
            }
        }
        let mut f: usize = 0;
        while f < all_old_ids.len()
            invariant
                phased(operations@, 1),
                graph.wf(),
                f <= all_old_ids@.len(),
                all_old_ids@ == node_ids(n),
                n == graph.node_count(),
                gone.contains(deleted_id),
                added_edges(operations@) == Seq::<(i64, i64)>::empty(),
                deleted_nodes(operations@) == gone_in_order(n, gone),
                added_nodes(operations@) == Seq::<i64>::empty(),
                deletions_sound(graph, gone, operations@),
                forall|x: i64| #[trigger] old_to_new_id@.contains_key(x) <==> graph.is_node(x) && !gone.contains(x),
                forall|x: i64| #[trigger] old_to_new_id@.contains_key(x) ==> old_to_new_id@[x] == new_id_of(es, gone, x),
                es == graph.entities(),
                ops_prefix(ops_out, operations@),
                outgoing_recs == graph.succs(deleted_id).map_values(|x: i64| (deleted_id, x)),
                deleted_edges(operations@) == deleted_edges(ops_d) + outgoing_recs + sources_into(
                    graph,
                    deleted_id,
                    f as nat,
                ).map_values(|x: i64| (x, deleted_id)),
                forall|u: i64| 1 <= u <= f && graph.has_edge(u, deleted_id) ==> #[trigger] records_deletion(
                    operations@,
                    u,
                    deleted_id,
                ),
            decreases all_old_ids.len() - f,
        {
            let from_id = all_old_ids[f];
            proof {
                graph.lemma_wf();
                assert(from_id == f + 1);
            }
            if let Ok(outgoing) = graph.fetch_outgoing(from_id) {
                if ids_contain(&outgoing, deleted_id) {
                    let ghost ops0 = operations@;
                    proof {
                        lemma_phased_push(operations@, RewriteOperation::EdgeDeleted { from: from_id, to: deleted_id }, 1);
                    }
                    operations.push(RewriteOperation::EdgeDeleted { from: from_id, to: deleted_id });
                    proof {
                        assert(operations@[ops0.len() as int] == (RewriteOperation::EdgeDeleted { from: from_id, to: deleted_id }));
                        assert(operations@.drop_last() =~= ops0);
                        assert(sources_into(graph, deleted_id, (f + 1) as nat) == sources_into(graph, deleted_id, f as nat).push(from_id));
                        assert(sources_into(graph, deleted_id, (f + 1) as nat).map_values(|x: i64| (x, deleted_id)) =~= sources_into(
                            graph,
                            deleted_id,
                            f as nat,
                        ).map_values(|x: i64| (x, deleted_id)).push((from_id, deleted_id)));
                        assert(ops_prefix(ops0, operations@));
                        assert(ops_prefix(ops_out, operations@));
                        assert forall|u: i64| 1 <= u <= f + 1 && graph.has_edge(u, deleted_id) implies #[trigger] records_deletion(
                            operations@,
                            u,
                            deleted_id,
                        ) by {
                            if u <= f {
                                lemma_records_prefix(ops0, operations@, u, deleted_id);
                            }
                        }
                        assert(operations@.drop_last() =~= ops0);
                        assert forall|q: int|
                            0 <= q < operations@.len() implies match #[trigger] operations@[q] {
                                RewriteOperation::EdgeDeleted { from, to } => graph.has_edge(from, to) && (
                                gone.contains(from) || gone.contains(to)),
                                _ => true,
                            } by {
                            if q < ops0.len() {
                                assert(operations@[q] == ops0[q]);
                            }
                        }
                    }
                }
            }
            f = f + 1;
        }
        proof {
            graph.lemma_wf();
            let t0 = gone_list@.take(d as int);
            let t1 = gone_list@.take(d + 1);
            assert(t1 =~= t0.push(deleted_id));
            assert(t1.drop_last() =~= t0);
            assert(f as nat == graph.node_count());
            let recs = deletion_records(graph, deleted_id);
            assert(all_deletion_records(graph, t1) == all_deletion_records(graph, t0) + recs);
            assert(deleted_edges(operations@) =~= all_deletion_records(graph, t1));
            assert forall|u: i64, w: i64|
                graph.has_edge(u, w) && (t1.contains(u) || t1.contains(w)) implies #[trigger] records_deletion(
                    operations@,
                    u,
                    w,
                ) by {
                if t0.contains(u) || t0.contains(w) {
                    assert(records_deletion(ops_d, u, w));
                    lemma_records_prefix(ops_d, operations@, u, w);
                } else if u == deleted_id {
                    assert(records_deletion(ops_out, u, w));
                    lemma_records_prefix(ops_out, operations@, u, w);
                } else {
                    assert(w == deleted_id) by {
                        if t1.contains(w) {
                            let j = choose|j: int| 0 <= j < t1.len() && t1[j] == w;
                            if j < t0.len() {
                                assert(t0[j] == w);
                            }
                        }
                    }
                    assert(u == deleted_id || !t1.contains(u) || t0.contains(u)) by {
                        if t1.contains(u) {
                            let j = choose|j: int| 0 <= j < t1.len() && t1[j] == u;
                            if j < t0.len() {
                                assert(t0[j] == u);
                            }
                        }
                    }
                    assert(graph.is_node(u));
                    assert(records_deletion(operations@, u, deleted_id));
                }
            }
        }
        d = d + 1;
    }
    proof {
        assert(gone_list@.take(gone_list@.len() as int) =~= gone_list@);
        assert(deletions_complete(graph, gone, operations@));
    }
    let ghost ops2 = operations@;
    let ghost del2 = deleted_edges(operations@);
    proof {
        assert(del2 == all_deletion_records(graph, gone_in_pattern_order(rule, m, rule.pattern.node_count())));
    }
    // Step 3: add the replacement's non-interface nodes under new names.
    let mut replacement_node_map: HashMap<usize, i64> = HashMap::new();
    let ghost rents = rule.replacement.entities();
    proof {
        new_graph.lemma_wf();
        assert(new_graph.entities().subrange(0, s0 as int) =~= kept);
    }
    let mut ridx: usize = 0;
    while ridx < replacement_ids.len()
        invariant
            phased(operations@, 2),
            graph.wf(),
            rule.replacement.wf(),
            rents == rule.replacement.entities(),
            replacement_ids@ == node_ids(rc),
            rc == rule.replacement.node_count(),
            interface == rule.interface@,
            ridx <= rc,
            gone == gone_ids(rule, pattern_match@),
            es == graph.entities(),
            kept == survivors(es, gone),
            s0 == kept.len(),
            new_graph.wf(),
            new_graph.node_count() == s0 + added_positions(interface, ridx as nat).len(),
            new_graph.entities().subrange(0, s0 as int) == kept,
            forall|j: int|
                0 <= j < added_positions(interface, ridx as nat).len() ==> is_added_copy(
                    #[trigger] new_graph.entities()[s0 + j],
                    rents[added_positions(interface, ridx as nat)[j]],
                    s0 + j + 1,
                    rewrite_index,
                ),
            new_graph.edge_list() == Seq::<(i64, i64)>::empty(),
            added_edges(operations@) == Seq::<(i64, i64)>::empty(),
            deleted_nodes(operations@) == gone_in_order(n, gone),
            added_nodes(operations@) == id_run((s0 + 1) as int, added_positions(interface, ridx as nat).len()),
            deletions_sound(graph, gone, operations@),
            forall|x: i64| #[trigger] old_to_new_id@.contains_key(x) <==> graph.is_node(x) && !gone.contains(x),
            forall|x: i64| #[trigger] old_to_new_id@.contains_key(x) ==> old_to_new_id@[x] == new_id_of(es, gone, x),
            es == graph.entities(),
            ops_prefix(ops2, operations@),
            deleted_edges(operations@) == del2,
            forall|x: i64| #[trigger]
                old_to_new_id@.contains_key(x) ==> 1 <= old_to_new_id@[x] <= new_graph.node_count(),
            forall|p: usize| #[trigger]
                replacement_node_map@.contains_key(p) ==> 1 <= replacement_node_map@[p]
                    <= new_graph.node_count(),
            forall|j: int|
                #![trigger added_positions(interface, ridx as nat)[j]]
                0 <= j < added_positions(interface, ridx as nat).len() ==> replacement_node_map@.contains_key(
                    added_positions(interface, ridx as nat)[j] as usize,
                ) && replacement_node_map@[added_positions(interface, ridx as nat)[j] as usize] == s0 + 1 + j,
        decreases replacement_ids.len() - ridx,
    {
        let replacement_id = replacement_ids[ridx];
        let ghost ap = added_positions(interface, ridx as nat);
        let ghost ops0 = operations@;
        let ghost ents0 = new_graph.entities();
        proof {
            rule.replacement.lemma_wf();
            new_graph.lemma_wf();
            assert(replacement_id == ridx + 1);
        }
        let partner = interface_partner(&rule.interface, ridx);
        let is_interface = partner.is_some();
        if !is_interface {
            if let Ok(entity) = rule.replacement.get_entity(replacement_id) {
                let name = rewritten_name(&entity.name, rewrite_index);
                let added = GraphEntity {
                    id: 0,
                    kind: entity.kind.clone(),
                    name: name,
                    file_path: clone_opt(&entity.file_path),
                    data: json_clone(&entity.data),
                };
                proof {
                    assert(added_positions(interface, (ridx + 1) as nat) == ap.push(ridx as int));
                    lemma_added_positions_mono(interface, (ridx + 1) as nat, rc);
                }
                let fresh_id = new_graph.insert_entity(&added)?;
                let ghost rm0 = replacement_node_map@;
                replacement_node_map.insert(ridx, fresh_id);
                proof {
                    lemma_added_positions_shape(interface, ridx as nat);
                    let ap1 = added_positions(interface, (ridx + 1) as nat);
                    assert forall|j: int|
                        #![trigger ap1[j]]
                        0 <= j < ap1.len() implies replacement_node_map@.contains_key(ap1[j] as usize)
                            && replacement_node_map@[ap1[j] as usize] == s0 + 1 + j by {
                        if j < ap.len() {
                            assert(ap1[j] == ap[j]);
                            assert(ap[j] < ridx);
                            assert(rm0.contains_key(ap[j] as usize));
                        } else {
                            assert(ap1[j] == ridx);
                        }
                    }
                }
                proof {
                    lemma_phased_push(operations@, RewriteOperation::NodeAdded(fresh_id), 2);
                }
                operations.push(RewriteOperation::NodeAdded(fresh_id));
                proof {
                    new_graph.lemma_wf();
                    let ap1 = added_positions(interface, (ridx + 1) as nat);
                    assert(operations@.drop_last() =~= ops0);
                    assert(added_nodes(operations@) =~= id_run((s0 + 1) as int, ap1.len()));
                    assert(new_graph.entities() == ents0.push(crate::graph::with_id(added, fresh_id)));
                    assert(new_graph.entities().subrange(0, s0 as int) =~= ents0.subrange(0, s0 as int));
                    assert forall|j: int|
                        0 <= j < ap1.len() implies is_added_copy(
                            #[trigger] new_graph.entities()[s0 + j],
                            rents[ap1[j]],
                            s0 + j + 1,
                            rewrite_index,
                        ) by {
                        if j < ap.len() {
                            assert(new_graph.entities()[s0 + j] == ents0[s0 + j]);
                            assert(ap1[j] == ap[j]);
                        } else {
                            assert(ap1[j] == ridx);
                            assert(rents[ridx as int] == entity);
                        }
                    }
                    assert forall|q: int|
                        0 <= q < operations@.len() implies match #[trigger] operations@[q] {
                            RewriteOperation::EdgeDeleted { from, to } => graph.has_edge(from, to) && (
                            gone.contains(from) || gone.contains(to)),
                            _ => true,
                        } by {
                        if q < ops0.len() {
                            assert(operations@[q] == ops0[q]);
                        }
                    }
                }
            }
        } else {
            proof {
                assert(keeps_replacement_index(interface, ridx as int));
                assert(added_positions(interface, (ridx + 1) as nat) == ap);
            }
        }
        ridx = ridx + 1;
    }
    let ghost total = new_graph.node_count();
    let ghost adds = added_positions(interface, rc);
    let ghost fits = graph.edge_list().len() + rule.replacement.edge_list().len() < i64::MAX
        && graph.edge_list().len() + rule.replacement.edge_list().len() <= usize::MAX;
    let ghost ents3 = new_graph.entities();
    // Step 4: copy the edges between surviving nodes.
    let mut fi: usize = 0;
    while fi < all_old_ids.len()
        invariant
            phased(operations@, 3),
            graph.wf(),
            rule.replacement.wf(),
            gone == gone_ids(rule, pattern_match@),
            n == graph.node_count(),
            all_old_ids@ == node_ids(n),
            fi <= all_old_ids@.len(),
            new_graph.wf(),
            new_graph.node_count() == total,
            new_graph.entities() == ents3,
            new_graph.edge_list() == added_edges(operations@),
            added_nodes(operations@) == id_run((s0 + 1) as int, added_positions(interface, rc).len()),
            deleted_nodes(operations@) == gone_in_order(n, gone),
            deletions_sound(graph, gone, operations@),
            forall|x: i64| #[trigger] old_to_new_id@.contains_key(x) <==> graph.is_node(x) && !gone.contains(x),
            forall|x: i64| #[trigger] old_to_new_id@.contains_key(x) ==> old_to_new_id@[x] == new_id_of(es, gone, x),
            es == graph.entities(),
            adds == added_positions(interface, rc),
            forall|j: int|
                #![trigger adds[j]]
                0 <= j < adds.len() ==> replacement_node_map@.contains_key(adds[j] as usize)
                    && replacement_node_map@[adds[j] as usize] == s0 + 1 + j,
            ops_prefix(ops2, operations@),
            deleted_edges(operations@) == del2,
            s0 == survivors(graph.entities(), gone_ids(rule, pattern_match@)).len(),
            forall|k: int|
                0 <= k < new_graph.edge_list().len() ==> edge_origin(
                    graph,
                    rule,
                    pattern_match@,
                    s0,
                    #[trigger] new_graph.edge_list()[k],
                ),
            new_graph.edge_list().len() <= source_count(graph.edge_list(), 1, fi + 1),
            forall|u: i64, w: i64|
                1 <= u <= fi && !gone.contains(u) && !gone.contains(w) && #[trigger] graph.has_edge(u, w)
                    ==> new_graph.edge_list().contains((new_id_of(es, gone, u), new_id_of(es, gone, w))),
            forall|x: i64| #[trigger]
                old_to_new_id@.contains_key(x) ==> 1 <= old_to_new_id@[x] <= new_graph.node_count(),
        decreases all_old_ids.len() - fi,
    {
        let from_old = all_old_ids[fi];
        let ghost el_f = new_graph.edge_list();
        proof {
            graph.lemma_wf();
            assert(from_old == fi + 1);
            lemma_out_of_len(graph.edge_list(), from_old);
            lemma_source_count_split(graph.edge_list(), 1, fi + 1, fi + 2);
            lemma_source_count_bound(graph.edge_list(), 1, fi + 2);
        }
        if let Some(from_new) = old_to_new_id.get(&from_old) {
            let from_new = *from_new;
            if let Ok(outgoing) = graph.fetch_outgoing(from_old) {
                let mut t: usize = 0;
                while t < outgoing.len()
                    invariant
                        phased(operations@, 3),
                        graph.wf(),
                        rule.replacement.wf(),
                        gone == gone_ids(rule, pattern_match@),
                        t <= outgoing@.len(),
                        new_graph.wf(),
                        new_graph.node_count() == total,
                        new_graph.entities() == ents3,
                        new_graph.edge_list() == added_edges(operations@),
                        added_nodes(operations@) == id_run((s0 + 1) as int, added_positions(interface, rc).len()),
                        deleted_nodes(operations@) == gone_in_order(n, gone),
                        deletions_sound(graph, gone, operations@),
                        forall|x: i64| #[trigger] old_to_new_id@.contains_key(x) <==> graph.is_node(x) && !gone.contains(x),
                        forall|x: i64| #[trigger] old_to_new_id@.contains_key(x) ==> old_to_new_id@[x] == new_id_of(es, gone, x),
                        es == graph.entities(),
                        adds == added_positions(interface, rc),
                        forall|j: int|
                            #![trigger adds[j]]
                            0 <= j < adds.len() ==> replacement_node_map@.contains_key(adds[j] as usize)
                                && replacement_node_map@[adds[j] as usize] == s0 + 1 + j,
                        ops_prefix(ops2, operations@),
                        deleted_edges(operations@) == del2,
                        s0 == survivors(graph.entities(), gone_ids(rule, pattern_match@)).len(),
                        forall|k: int|
                            0 <= k < new_graph.edge_list().len() ==> edge_origin(
                                graph,
                                rule,
                                pattern_match@,
                                s0,
                                #[trigger] new_graph.edge_list()[k],
                            ),
                        n == graph.node_count(),
                        from_old == fi + 1,
                        fi < n,
                        !gone.contains(from_old),
                        from_new == new_id_of(es, gone, from_old),
                        outgoing@ == graph.succs(from_old),
                        graph.edge_list().len() < i64::MAX,
                        graph.edge_list().len() <= usize::MAX,
                        out_of(graph.edge_list(), from_old).len() == source_count(graph.edge_list(), fi + 1, fi + 2),
                        source_count(graph.edge_list(), 1, fi + 1) + source_count(graph.edge_list(), fi + 1, fi + 2)
                            == source_count(graph.edge_list(), 1, fi + 2),
                        source_count(graph.edge_list(), 1, fi + 2) <= graph.edge_list().len(),
                        new_graph.edge_list().len() <= source_count(graph.edge_list(), 1, fi + 1) + t,
                        el_f.len() <= new_graph.edge_list().len(),
                        forall|k: int| 0 <= k < el_f.len() ==> #[trigger] new_graph.edge_list()[k] == el_f[k],
                        forall|j: int|
                            0 <= j < t && !gone.contains(#[trigger] outgoing@[j]) ==> new_graph.edge_list().contains(
                                (from_new, new_id_of(es, gone, outgoing@[j])),
                            ),
                        forall|x: i64| #[trigger]
                            old_to_new_id@.contains_key(x) ==> 1 <= old_to_new_id@[x] <= new_graph.node_count(),
                    decreases outgoing.len() - t,
                {
                    let to_old = outgoing[t];
                    let ghost el0 = new_graph.edge_list();
                    proof {
                        graph.lemma_wf();
                        assert(graph.succs(from_old).contains(to_old));
                    }
                    if let Some(to_new) = old_to_new_id.get(&to_old) {
                        let edge = plain_edge(from_new, *to_new);
                        let ghost ops0 = operations@;
                        if new_graph.insert_edge(&edge).is_ok() {
                            proof {
                                assert(new_graph.edge_list()[el0.len() as int] == (from_new, new_id_of(es, gone, to_old)));
                                assert forall|k: int|
                                    0 <= k < new_graph.edge_list().len() implies edge_origin(
                                        graph,
                                        rule,
                                        pattern_match@,
                                        s0,
                                        #[trigger] new_graph.edge_list()[k],
                                    ) by {
                                    if k < el0.len() {
                                        assert(new_graph.edge_list()[k] == el0[k]);
                                    } else {
                                        assert(graph.has_edge(from_old, to_old));
                                        assert(old_to_new_id@.contains_key(to_old));
                                        assert(!gone.contains(to_old));
                                    }
                                }
                                assert forall|j: int|
                                    0 <= j < t + 1 && !gone.contains(#[trigger] outgoing@[j]) implies new_graph.edge_list().contains(
                                        (from_new, new_id_of(es, gone, outgoing@[j])),
                                    ) by {
                                    if j < t {
                                        let k = choose|k: int| 0 <= k < el0.len() && el0[k] == (from_new, new_id_of(es, gone, outgoing@[j]));
                                        assert(new_graph.edge_list()[k] == el0[k]);
                                    }
                                }
                            }
                            proof {
                                lemma_phased_push(operations@, RewriteOperation::EdgeAdded { from: from_new, to: *to_new }, 3);
                            }
                            operations.push(RewriteOperation::EdgeAdded { from: from_new, to: *to_new });
                            proof {
                                assert(operations@.drop_last() =~= ops0);
                                assert forall|q: int|
                                    0 <= q < operations@.len() implies match #[trigger] operations@[q] {
                                        RewriteOperation::EdgeDeleted { from, to } => graph.has_edge(from, to) && (
                                        gone.contains(from) || gone.contains(to)),
                                        _ => true,
                                    } by {
                                    if q < ops0.len() {
                                        assert(operations@[q] == ops0[q]);
                                    }
                                }
                            }
                        } else {
                            proof {
                                assert(t < out_of(graph.edge_list(), from_old).len());
                                assert(old_to_new_id@.contains_key(from_old));
                                assert(old_to_new_id@.contains_key(to_old));
                                assert(new_graph.is_node(edge.from_id) && new_graph.is_node(edge.to_id));
                                assert(false);
                            }
                        }
                    } else {
                        proof {
                            assert(!old_to_new_id@.contains_key(to_old));
                            assert(gone.contains(outgoing@[t as int]));
                        }
                    }
                    t = t + 1;
                }
                proof {
                    assert forall|u: i64, w: i64|
                        1 <= u <= fi + 1 && !gone.contains(u) && !gone.contains(w) && #[trigger] graph.has_edge(u, w)
                            implies new_graph.edge_list().contains((new_id_of(es, gone, u), new_id_of(es, gone, w))) by {
                        if u <= fi {
                            let k = choose|k: int| 0 <= k < el_f.len() && el_f[k] == (new_id_of(es, gone, u), new_id_of(es, gone, w));
                            assert(new_graph.edge_list()[k] == el_f[k]);
                        } else {
                            let j = choose|j: int| 0 <= j < outgoing@.len() && outgoing@[j] == w;
                            assert(!gone.contains(outgoing@[j]));
                        }
                    }
                }
            }
        } else {
            proof {
                assert(!old_to_new_id@.contains_key(from_old));
                assert(gone.contains(from_old));
            }
        }
        fi = fi + 1;
    }
    let ghost el4 = new_graph.edge_list();
    proof {
        lemma_source_count_bound(graph.edge_list(), 1, (n + 1) as int);
        lemma_source_count_split(rule.replacement.edge_list(), 1, 1, 1);
        graph.lemma_wf();
        rule.replacement.lemma_wf();
    }
    // Step 5: add the replacement's edges, attached through the interface.
    if let Ok(repl_node_ids) = rule.replacement.all_entity_ids() {
        let mut a: usize = 0;
        while a < repl_node_ids.len()
            invariant
                phased(operations@, 3),
                graph.wf(),
                gone == gone_ids(rule, pattern_match@),
                a <= repl_node_ids@.len(),
                new_graph.wf(),
                rule.replacement.wf(),
                new_graph.node_count() == total,
                new_graph.entities() == ents3,
                new_graph.edge_list() == added_edges(operations@),
                added_nodes(operations@) == id_run((s0 + 1) as int, added_positions(interface, rc).len()),
                deleted_nodes(operations@) == gone_in_order(n, gone),
                deletions_sound(graph, gone, operations@),
                ops_prefix(ops2, operations@),
                deleted_edges(operations@) == del2,
                s0 == survivors(graph.entities(), gone_ids(rule, pattern_match@)).len(),
                forall|k: int|
                    0 <= k < new_graph.edge_list().len() ==> edge_origin(
                        graph,
                        rule,
                        pattern_match@,
                        s0,
                        #[trigger] new_graph.edge_list()[k],
                    ),
                el4.len() <= new_graph.edge_list().len(),
                forall|k: int| 0 <= k < el4.len() ==> #[trigger] new_graph.edge_list()[k] == el4[k],
                forall|x: i64| #[trigger]
                    old_to_new_id@.contains_key(x) ==> 1 <= old_to_new_id@[x] <= new_graph.node_count(),
                forall|p: usize| #[trigger]
                    replacement_node_map@.contains_key(p) ==> 1 <= replacement_node_map@[p]
                        <= new_graph.node_count(),
                forall|x: i64| #[trigger] old_to_new_id@.contains_key(x) <==> graph.is_node(x) && !gone.contains(x),
                forall|x: i64| #[trigger] old_to_new_id@.contains_key(x) ==> old_to_new_id@[x] == new_id_of(es, gone, x),
                es == graph.entities(),
                m == pattern_match@,
                interface == rule.interface@,
                rc == rule.replacement.node_count(),
                adds == added_positions(interface, rc),
                s0 == survivors(es, gone).len(),
                repl_node_ids@ == node_ids(rc),
                forall|j: int|
                    #![trigger adds[j]]
                    0 <= j < adds.len() ==> replacement_node_map@.contains_key(adds[j] as usize)
                        && replacement_node_map@[adds[j] as usize] == s0 + 1 + j,
                rule.replacement.edge_list().len() < i64::MAX,
                rule.replacement.edge_list().len() <= usize::MAX,
                fits == (graph.edge_list().len() + rule.replacement.edge_list().len() < i64::MAX
                    && graph.edge_list().len() + rule.replacement.edge_list().len() <= usize::MAX),
                new_graph.edge_list().len() <= graph.edge_list().len() + source_count(
                    rule.replacement.edge_list(),
                    1,
                    a + 1,
                ),
                fits ==> forall|u: i64, w: i64|
                    1 <= u <= a && #[trigger] rule.replacement.has_edge(u, w) ==> attached(
                        new_graph.edge_list(),
                        graph,
                        rule,
                        m,
                        s0,
                        u,
                        w,
                    ),
            decreases repl_node_ids.len() - a,
        {
            let from_repl_id = repl_node_ids[a];
            let ghost el_a = new_graph.edge_list();
            proof {
                rule.replacement.lemma_wf();
                assert(from_repl_id == a + 1);
                lemma_out_of_len(rule.replacement.edge_list(), from_repl_id);
                lemma_source_count_split(rule.replacement.edge_list(), 1, a + 1, a + 2);
                lemma_source_count_bound(rule.replacement.edge_list(), 1, a + 2);
            }
            if let Ok(outgoing) = rule.replacement.fetch_outgoing(from_repl_id) {
                let mut t: usize = 0;
                while t < outgoing.len()
                    invariant
                        phased(operations@, 3),
                        graph.wf(),
                        rule.replacement.wf(),
                        gone == gone_ids(rule, pattern_match@),
                        t <= outgoing@.len(),
                        new_graph.wf(),
                        new_graph.node_count() == total,
                        new_graph.entities() == ents3,
                        new_graph.edge_list() == added_edges(operations@),
                        added_nodes(operations@) == id_run((s0 + 1) as int, added_positions(interface, rc).len()),
                        deleted_nodes(operations@) == gone_in_order(n, gone),
                        deletions_sound(graph, gone, operations@),
                        ops_prefix(ops2, operations@),
                        deleted_edges(operations@) == del2,
                        s0 == survivors(graph.entities(), gone_ids(rule, pattern_match@)).len(),
                        forall|k: int|
                            0 <= k < new_graph.edge_list().len() ==> edge_origin(
                                graph,
                                rule,
                                pattern_match@,
                                s0,
                                #[trigger] new_graph.edge_list()[k],
                            ),
                el4.len() <= new_graph.edge_list().len(),
                forall|k: int| 0 <= k < el4.len() ==> #[trigger] new_graph.edge_list()[k] == el4[k],
                        forall|x: i64| #[trigger]
                            old_to_new_id@.contains_key(x) ==> 1 <= old_to_new_id@[x] <= new_graph.node_count(),
                        forall|p: usize| #[trigger]
                            replacement_node_map@.contains_key(p) ==> 1 <= replacement_node_map@[p]
                                <= new_graph.node_count(),
                        forall|x: i64| #[trigger] old_to_new_id@.contains_key(x) <==> graph.is_node(x) && !gone.contains(x),
                        forall|x: i64| #[trigger] old_to_new_id@.contains_key(x) ==> old_to_new_id@[x] == new_id_of(es, gone, x),
                        es == graph.entities(),
                        m == pattern_match@,
                        interface == rule.interface@,
                        rc == rule.replacement.node_count(),
                        adds == added_positions(interface, rc),
                        s0 == survivors(es, gone).len(),
                        repl_node_ids@ == node_ids(rc),
                        forall|j: int|
                            #![trigger adds[j]]
                            0 <= j < adds.len() ==> replacement_node_map@.contains_key(adds[j] as usize)
                                && replacement_node_map@[adds[j] as usize] == s0 + 1 + j,
                        rule.replacement.edge_list().len() < i64::MAX,
                        rule.replacement.edge_list().len() <= usize::MAX,
                        fits == (graph.edge_list().len() + rule.replacement.edge_list().len() < i64::MAX
                            && graph.edge_list().len() + rule.replacement.edge_list().len() <= usize::MAX),
                        from_repl_id == a + 1,
                        a < rc,
                        outgoing@ == rule.replacement.succs(from_repl_id),
                        out_of(rule.replacement.edge_list(), from_repl_id).len() == source_count(
                            rule.replacement.edge_list(),
                            a + 1,
                            a + 2,
                        ),
                        source_count(rule.replacement.edge_list(), 1, a + 1) + source_count(
                            rule.replacement.edge_list(),
                            a + 1,
                            a + 2,
                        ) == source_count(rule.replacement.edge_list(), 1, a + 2),
                        source_count(rule.replacement.edge_list(), 1, a + 2) <= rule.replacement.edge_list().len(),
                        new_graph.edge_list().len() <= graph.edge_list().len() + source_count(
                            rule.replacement.edge_list(),
                            1,
                            a + 1,
                        ) + t,
                        el_a.len() <= new_graph.edge_list().len(),
                        forall|k: int| 0 <= k < el_a.len() ==> #[trigger] new_graph.edge_list()[k] == el_a[k],
                        fits ==> forall|j: int|
                            0 <= j < t ==> attached(
                                new_graph.edge_list(),
                                graph,
                                rule,
                                m,
                                s0,
                                from_repl_id,
                                #[trigger] outgoing@[j],
                            ),
                    decreases outgoing.len() - t,
                {
                    let to_repl_id = outgoing[t];
                    let ghost el0 = new_graph.edge_list();
                    proof {
                        rule.replacement.lemma_wf();
                        assert(rule.replacement.succs(from_repl_id).contains(to_repl_id));
                        assert(rule.replacement.is_node(to_repl_id));
                        assert(repl_node_ids@[to_repl_id - 1] == to_repl_id);
                    }
                    let from_idx = position_of(&repl_node_ids, from_repl_id);
                    let to_idx = position_of(&repl_node_ids, to_repl_id);
                    if let (Some(from_i), Some(to_i)) = (from_idx, to_idx) {
                        let from_id = resolve_endpoint(
                            &rule.interface,
                            pattern_match,
                            &old_to_new_id,
                            &replacement_node_map,
                            from_i,
                        );
                        let to_id = resolve_endpoint(
                            &rule.interface,
                            pattern_match,
                            &old_to_new_id,
                            &replacement_node_map,
                            to_i,
                        );
                        proof {
                            assert(repl_node_ids@[from_i as int] == from_i + 1);
                            assert(repl_node_ids@[to_i as int] == to_i + 1);
                            assert(from_i == a);
                            assert(to_i == to_repl_id - 1);
                            lemma_resolved(graph, rule, m, s0, old_to_new_id@, replacement_node_map@, from_i, from_id);
                            lemma_resolved(graph, rule, m, s0, old_to_new_id@, replacement_node_map@, to_i, to_id);
                        }
                        if let (Some(from), Some(to)) = (from_id, to_id) {
                            let edge = plain_edge(from, to);
                            let ghost ops0 = operations@;
                            let ins = new_graph.insert_edge(&edge);
                            proof {
                                if fits {
                                    assert(t < out_of(rule.replacement.edge_list(), from_repl_id).len());
                                    assert(new_graph.is_node(from) && new_graph.is_node(to)) by {
                                        if first_partner(rule.interface@, from_i) is Some {
                                        }
                                    }
                                    assert(ins is Ok);
                                }
                                if ins is Ok {
                                    assert(new_graph.edge_list()[el0.len() as int] == (from, to));
                                    assert(new_graph.edge_list().contains((from, to)));
                                    assert(attached(new_graph.edge_list(), graph, rule, m, s0, from_repl_id, outgoing@[t as int]));
                                    assert forall|k: int|
                                        0 <= k < new_graph.edge_list().len() implies edge_origin(
                                            graph,
                                            rule,
                                            pattern_match@,
                                            s0,
                                            #[trigger] new_graph.edge_list()[k],
                                        ) by {
                                        if k < el0.len() {
                                            assert(new_graph.edge_list()[k] == el0[k]);
                                        } else {
                                            assert(rule.replacement.has_edge(from_repl_id, to_repl_id));
                                            assert(rewritten_endpoint(graph, rule, m, s0, from_repl_id - 1) == Some(from));
                                            assert(rewritten_endpoint(graph, rule, m, s0, to_repl_id - 1) == Some(to));
                                        }
                                    }
                                }
                            }
                            if ins.is_ok() {
                                let ghost el1 = new_graph.edge_list();
                                proof {
                                    lemma_phased_push(operations@, RewriteOperation::EdgeAdded { from, to }, 3);
                                }
                                operations.push(RewriteOperation::EdgeAdded { from, to });
                                proof {
                                    assert(operations@.drop_last() =~= ops0);
                                    assert forall|q: int|
                                        0 <= q < operations@.len() implies match #[trigger] operations@[q] {
                                            RewriteOperation::EdgeDeleted { from, to } => graph.has_edge(from, to) && (
                                            gone.contains(from) || gone.contains(to)),
                                            _ => true,
                                        } by {
                                        if q < ops0.len() {
                                            assert(operations@[q] == ops0[q]);
                                        }
                                    }
                                }
                            }
                        } else {
                            proof {
                                assert(attached(new_graph.edge_list(), graph, rule, m, s0, from_repl_id, outgoing@[t as int]));
                            }
                        }
                    } else {
                        proof {
                            assert(repl_node_ids@.contains(from_repl_id)) by {
                                assert(repl_node_ids@[a as int] == from_repl_id);
                            }
                            assert(repl_node_ids@.contains(to_repl_id));
                        }
                    }
                    proof {
                        assert(el0.len() <= new_graph.edge_list().len());
                        assert forall|k: int| 0 <= k < el0.len() implies #[trigger] new_graph.edge_list()[k] == el0[k] by {}
                        if fits {
                            assert forall|j: int|
                                0 <= j < t + 1 implies attached(
                                    new_graph.edge_list(),
                                    graph,
                                    rule,
                                    m,
                                    s0,
                                    from_repl_id,
                                    #[trigger] outgoing@[j],
                                ) by {
                                if j < t {
                                    lemma_attached_prefix(el0, new_graph.edge_list(), graph, rule, m, s0, from_repl_id, outgoing@[j]);
                                }
                            }
                        }
                    }
                    t = t + 1;
                }
                proof {
                    assert(fits ==> forall|u: i64, w: i64|
                        1 <= u <= a + 1 && #[trigger] rule.replacement.has_edge(u, w) ==> attached(
                            new_graph.edge_list(),
                            graph,
                            rule,
                            m,
                            s0,
                            u,
                            w,
                        )) by {
                        if fits {
                            assert forall|u: i64, w: i64|
                                1 <= u <= a + 1 && #[trigger] rule.replacement.has_edge(u, w) implies attached(
                                    new_graph.edge_list(),
                                    graph,
                                    rule,
                                    m,
                                    s0,
                                    u,
                                    w,
                                ) by {
                                if u <= a {
                                    lemma_attached_prefix(el_a, new_graph.edge_list(), graph, rule, m, s0, u, w);
                                } else {
                                    assert(outgoing@.contains(w));
                                    let jj = choose|jj: int| 0 <= jj < outgoing@.len() && outgoing@[jj] == w;
                                    assert(attached(new_graph.edge_list(), graph, rule, m, s0, from_repl_id, outgoing@[jj]));
                                }
                            }
                        }
                    }
                }
            }
            a = a + 1;
        }
        proof {
            assert(fits ==> forall|u: i64, w: i64|
                #[trigger] rule.replacement.has_edge(u, w) ==> attached(new_graph.edge_list(), graph, rule, m, s0, u, w)) by {
                if fits {
                    assert forall|u: i64, w: i64|
                        #[trigger] rule.replacement.has_edge(u, w) implies attached(new_graph.edge_list(), graph, rule, m, s0, u, w) by {
                        rule.replacement.lemma_wf();
                        assert(rule.replacement.is_node(u));
                    }
                }
            }
        }
    }
    proof {
        new_graph.lemma_wf();
        lemma_phased_blocks(operations@);
    }
    proof {
        lemma_complete_prefix(graph, gone, ops2, operations@);
        assert forall|u: i64, w: i64|
            #[trigger] graph.has_edge(u, w) && !gone.contains(u) && !gone.contains(w) implies new_graph.has_edge(
                new_id_of(graph.entities(), gone, u),
                new_id_of(graph.entities(), gone, w),
            ) by {
            graph.lemma_wf();
            let a = new_id_of(es, gone, u);
            let b = new_id_of(es, gone, w);
            assert(el4.contains((a, b)));
            let k = choose|k: int| 0 <= k < el4.len() && el4[k] == (a, b);
            assert(new_graph.edge_list()[k] == el4[k]);
            crate::graph::lemma_out_of_contains(new_graph.edge_list(), a, b);
        }
    }
    Ok((new_graph, operations))
}

/// The node of the rewritten graph that replacement position `idx` attaches to: through
/// the first interface pair that names it, the node its pattern position is matched on
/// (when that node survived); otherwise the node added for it.
fn resolve_endpoint(
    interface: &Vec<(usize, usize)>,
    pattern_match: &Vec<i64>,
    old_to_new_id: &HashMap<i64, i64>,
    replacement_node_map: &HashMap<usize, i64>,
    idx: usize,
) -> (r: Option<i64>)
    ensures
        r == (match first_partner(interface@, idx) {
            Some(p) => if p < pattern_match@.len() && old_to_new_id@.contains_key(pattern_match@[p as int]) {
                Some(old_to_new_id@[pattern_match@[p as int]])
            } else {
                None
            },
            None => if replacement_node_map@.contains_key(idx) {
                Some(replacement_node_map@[idx])
            } else {
                None
            },
        }),
        match r {
            Some(x) => (exists|y: i64| #[trigger] old_to_new_id@.contains_key(y) && old_to_new_id@[y] == x)
                || (exists|p: usize| #[trigger] replacement_node_map@.contains_key(p) && replacement_node_map@[p] == x),
            None => true,
        },
{
    match interface_partner(interface, idx) {
        Some(pat_idx) => {
            if pat_idx < pattern_match.len() {
                match old_to_new_id.get(&pattern_match[pat_idx]) {
                    Some(x) => Some(*x),
                    None => None,
                }
            } else {
                None
            }
        },
        None => match replacement_node_map.get(&idx) {
            Some(x) => Some(*x),
            None => None,
        },
    }
}

/// The most pattern nodes that a rewrite rule may have.
pub const MAX_PATTERN_NODES: usize = 20;

/// The number of matches that a run with these bounds looks for.
pub open spec fn match_limit(bounds: RewriteBounds) -> nat {
    match bounds.max_matches {
        Some(l) => l as nat,
        None => usize::MAX as nat,
    }
}

/// The interface of the rule is valid: every pair lies within both graphs.
pub open spec fn interface_valid(rule: &RewriteRule) -> bool {
    forall|i: int|
        0 <= i < rule.interface@.len() ==> interface_pair_in_bounds(
            #[trigger] rule.interface@[i],
            rule.pattern.node_count(),
            rule.replacement.node_count(),
        )
}

/// The ids stay within range however the matches are rewritten: the graph's nodes plus,
/// for each match, every replacement node fit below `i64::MAX` and in a `usize`.
pub open spec fn rewrite_room(graph: &Graph, rule: &RewriteRule, bounds: RewriteBounds) -> bool {
    let total = graph.node_count() + first_matches(graph, &rule.pattern, match_limit(bounds)).len()
        * rule.replacement.node_count();
    total < i64::MAX && total <= usize::MAX
}

/// The operation lists of a run, one after the other.
pub open spec fn joined_logs(logs: Seq<Seq<RewriteOperation>>) -> Seq<RewriteOperation>
    decreases logs.len(),
{
    if logs.len() == 0 {
        Seq::empty()
    } else {
        joined_logs(logs.drop_last()) + logs.last()
    }
}

/// `gs` and `logs` are the graphs and operation lists of rewriting at the matches `ms`
/// one after the other, from a copy of `graph`: step `i` rewrites `gs[i]` at `ms[i]`
/// (with index `i`) into `gs[i + 1]`, with the operations `logs[i]`.
pub open spec fn rewrite_chain(
    graph: &Graph,
    rule: &RewriteRule,
    ms: Seq<Seq<i64>>,
    gs: Seq<Graph>,
    logs: Seq<Seq<RewriteOperation>>,
) -> bool {
    &&& gs.len() == ms.len() + 1
    &&& logs.len() == ms.len()
    &&& gs[0].wf()
    &&& gs[0].entities() == graph.entities()
    &&& forall|v: i64| #[trigger] gs[0].succs(v) == graph.succs(v)
    &&& forall|i: int|
        0 <= i < ms.len() ==> #[trigger] rewrite_step(&gs[i], rule, ms[i], i as usize, gs[i + 1], logs[i])
}

/// What a rewriting run guarantees of its outcome.
pub open spec fn rewrite_outcome(
    graph: &Graph,
    rule: &RewriteRule,
    bounds: RewriteBounds,
    r: Result<RewriteResult, SqliteGraphError>,
) -> bool {
    &&& !interface_valid(rule) ==> (r matches Err(e) && exists|i: int|
        #[trigger] first_bad_interface_pair(
            rule.interface@,
            rule.pattern.node_count(),
            rule.replacement.node_count(),
            i,
        ) && interface_error_is(e, rule.interface@[i], rule.pattern.node_count(), rule.replacement.node_count()))
    &&& interface_valid(rule) && rule.pattern.node_count() > MAX_PATTERN_NODES ==> (r matches Err(e)
        && e is InvalidInput)
    &&& interface_valid(rule) && rule.pattern.node_count() <= MAX_PATTERN_NODES && rewrite_room(graph, rule, bounds)
        ==> r is Ok
    &&& r matches Ok(res) ==> {
        &&& interface_valid(rule)
        &&& rule.pattern.node_count() <= MAX_PATTERN_NODES
        &&& res.patterns_replaced == first_matches(graph, &rule.pattern, match_limit(bounds)).len()
        &&& res.validation_errors@.len() == 0
        &&& res.rewritten_graph.wf()
        &&& exists|gs: Seq<Graph>, logs: Seq<Seq<RewriteOperation>>|
            #[trigger] rewrite_chain(graph, rule, first_matches(graph, &rule.pattern, match_limit(bounds)), gs, logs)
                && res.rewritten_graph == gs.last() && res.operations_applied@ == joined_logs(logs)
        &&& res.patterns_replaced == 0 ==> {
            &&& res.rewritten_graph.entities() == graph.entities()
            &&& forall|v: i64| #[trigger] res.rewritten_graph.succs(v) == graph.succs(v)
            &&& res.operations_applied@.len() == 0
        }
    }
}

/// Finds the occurrences of the rule's pattern in `graph` (in lexicographic order, at most
/// `bounds.max_matches` of them) and rewrites them one after the other on a copy of the
/// graph; the copy is validated when `bounds` asks for it. A rule with a valid interface
/// and at most `MAX_PATTERN_NODES` pattern nodes always succeeds unless the rewrites
/// could run out of ids (see `rewrite_room`).
pub fn rewrite_graph_patterns(graph: &Graph, rule: &RewriteRule, bounds: RewriteBounds) -> (r: Result<
    RewriteResult,
    SqliteGraphError,
>)
    requires
        graph.wf(),
        rule.pattern.wf(),
        rule.replacement.wf(),
    ensures
        rewrite_outcome(graph, rule, bounds, r),
{
    rewrite_graph_patterns_with_progress(graph, rule, bounds, &crate::progress::NoProgress)
}

/// `rewrite_graph_patterns`, reporting its stages to `progress`.
pub fn rewrite_graph_patterns_with_progress<F: ProgressCallback>(
    graph: &Graph,
    rule: &RewriteRule,
    bounds: RewriteBounds,
    progress: &F,
) -> (r: Result<RewriteResult, SqliteGraphError>)
    requires
        graph.wf(),
        rule.pattern.wf(),
        rule.replacement.wf(),
    ensures
        rewrite_outcome(graph, rule, bounds, r),
{
    progress.on_progress(0, Some(4), "Validating rewrite rule");
    let checked = rule.validate_interface();
    match checked {
        Err(e) => {
            proof {
                assert(!interface_valid(rule)) by {
                    let i = choose|i: int|
                        #[trigger] first_bad_interface_pair(
                            rule.interface@,
                            rule.pattern.node_count(),
                            rule.replacement.node_count(),
                            i,
                        ) && interface_error_is(
                            e,
                            rule.interface@[i],
                            rule.pattern.node_count(),
                            rule.replacement.node_count(),
                        );
                }
            }
            return Err(e);
        },
        Ok(()) => {},
    }
    progress.on_progress(1, Some(4), "Finding pattern matches");
    if rule.pattern.entity_count() > MAX_PATTERN_NODES {
        return Err(
            SqliteGraphError::invalid_input(
                String::from_str("Pattern has more nodes than the pattern node limit"),
            ),
        );
    }
    let matches = find_pattern_matches(graph, &rule.pattern, bounds.max_matches)?;
    let mut found = String::from_str("Found ");
    found.append(usize_text(matches.len()).as_str());
    found.append(" pattern matches");
    progress.on_progress(2, Some(4), found.as_str());
    if matches.len() == 0 {
        progress.on_progress(3, Some(4), "No matches found, returning original graph");
        progress.on_complete();
        let copy = copy_graph(graph)?;
        let res = RewriteResult {
            rewritten_graph: copy,
            patterns_replaced: 0,
            operations_applied: Vec::new(),
            validation_errors: Vec::new(),
        };
        proof {
            let ms = first_matches(graph, &rule.pattern, match_limit(bounds));
            assert(ms.len() == 0);
            let gs = seq![res.rewritten_graph];
            let logs = Seq::<Seq<RewriteOperation>>::empty();
            assert(rewrite_chain(graph, rule, ms, gs, logs));
            assert(res.operations_applied@ =~= joined_logs(logs));
        }
        return Ok(res);
    }
    let mut current_graph = copy_graph(graph)?;
    let mut all_operations: Vec<RewriteOperation> = Vec::new();
    let mut patterns_replaced: usize = 0;
    let max_rewrites = match bounds.max_matches {
        Some(l) => l,
        None => matches.len(),
    };
    let rewrites_to_apply = if matches.len() < max_rewrites {
        matches.len()
    } else {
        max_rewrites
    };
    let ghost rc = rule.replacement.node_count();
    let ghost ms = match_views(matches@);
    let ghost mut gs: Seq<Graph> = seq![current_graph];
    let ghost mut logs: Seq<Seq<RewriteOperation>> = Seq::empty();
    proof {
        assert(all_operations@ =~= joined_logs(logs));
        assert(rewrite_chain(graph, rule, ms.take(0), gs, logs));
        assert(match_views(matches@).len() == matches@.len());
        let t = crate::pattern_match::completions(graph, &rule.pattern, Seq::empty());
        assert(matches@.len() <= match_limit(bounds));
        assert(0 * rc == 0) by (nonlinear_arith);
        current_graph.lemma_wf();
        graph.lemma_wf();
        assert(current_graph.node_count() == graph.node_count());
    }
    let mut match_idx: usize = 0;
    while match_idx < rewrites_to_apply
        invariant
            rule.pattern.wf(),
            rule.replacement.wf(),
            interface_valid(rule),
            rule.pattern.node_count() <= MAX_PATTERN_NODES,
            rewrites_to_apply <= matches@.len(),
            match_idx <= rewrites_to_apply,
            patterns_replaced == match_idx,
            current_graph.wf(),
            rc == rule.replacement.node_count(),
            matches@.len() == first_matches(graph, &rule.pattern, match_limit(bounds)).len(),
            current_graph.node_count() <= graph.node_count() + match_idx * rc,
            ms == match_views(matches@),
            ms.len() == matches@.len(),
            rewrite_chain(graph, rule, ms.take(match_idx as int), gs, logs),
            gs.last() == current_graph,
            all_operations@ == joined_logs(logs),
        decreases rewrites_to_apply - match_idx,
    {
        let mut msg = String::from_str("Applying rewrite ");
        msg.append(usize_text(match_idx + 1).as_str());
        msg.append("/");
        msg.append(usize_text(rewrites_to_apply).as_str());
        progress.on_progress(2, Some(4), msg.as_str());
        let pattern_match = &matches[match_idx];
        proof {
            current_graph.lemma_wf();
            lemma_survivors_len(current_graph.entities(), gone_ids(rule, pattern_match@));
            lemma_added_positions_len(rule.interface@, rc);
            let i = match_idx as int;
            let l = matches@.len() as int;
            assert(i * rc + rc == (i + 1) * rc) by (nonlinear_arith);
            assert((i + 1) * rc <= l * rc) by (nonlinear_arith)
                requires
                    i + 1 <= l,
                    rc >= 0;
        }
        let (new_graph, operations) = apply_single_rewrite(
            &current_graph,
            rule,
            pattern_match,
            patterns_replaced,
        )?;
        let ghost g_prev = current_graph;
        current_graph = new_graph;
        let ghost base = all_operations@;
        let mut o: usize = 0;
        proof {
            assert(base + operations@.take(0) =~= base);
        }
        while o < operations.len()
            invariant
                o <= operations@.len(),
                all_operations@ == base + operations@.take(o as int),
            decreases operations.len() - o,
        {
            all_operations.push(operations[o]);
            proof {
                assert(base + operations@.take(o + 1) =~= (base + operations@.take(o as int)).push(operations@[o as int]));
            }
            o = o + 1;
        }
        proof {
            assert(operations@.take(operations@.len() as int) =~= operations@);
            let gs0 = gs;
            let logs0 = logs;
            gs = gs.push(current_graph);
            logs = logs.push(operations@);
            assert(logs.drop_last() =~= logs0);
            assert(ms[match_idx as int] == pattern_match@);
            let mt = ms.take(match_idx + 1);
            assert forall|i: int|
                0 <= i < mt.len() implies #[trigger] rewrite_step(&gs[i], rule, mt[i], i as usize, gs[i + 1], logs[i]) by {
                if i < match_idx {
                    assert(mt[i] == ms.take(match_idx as int)[i]);
                    assert(gs[i] == gs0[i]);
                    assert(gs[i + 1] == gs0[i + 1]);
                    assert(logs[i] == logs0[i]);
                    assert(rewrite_step(&gs0[i], rule, ms.take(match_idx as int)[i], i as usize, gs0[i + 1], logs0[i]));
                } else {
                    assert(gs[i] == g_prev);
                }
            }
            assert(rewrite_chain(graph, rule, mt, gs, logs));
        }
        patterns_replaced = patterns_replaced + 1;
        match_idx = match_idx + 1;
    }
    progress.on_progress(3, Some(4), "Validating rewritten graph");
    let validation_errors = if bounds.validate_after_rewrite {
        validate_no_dangling_edges(&current_graph)
    } else {
        Vec::new()
    };
    let mut final_msg = String::from_str("Rewrite complete: ");
    final_msg.append(usize_text(patterns_replaced).as_str());
    final_msg.append(" patterns replaced, ");
    final_msg.append(usize_text(all_operations.len()).as_str());
    final_msg.append(" operations applied");
    progress.on_progress(4, Some(4), final_msg.as_str());
    progress.on_complete();
    proof {
        assert(match_idx == ms.len());
        assert(ms.take(match_idx as int) =~= ms);
        assert(ms == first_matches(graph, &rule.pattern, match_limit(bounds)));
    }
    Ok(
        RewriteResult {
            rewritten_graph: current_graph,
            patterns_replaced,
            operations_applied: all_operations,
            validation_errors,
        },
    )
}

} // verus!
