#![allow(unused_imports, unused_mut, unused_variables, dead_code)]
use ahash::{AHashMap, AHashSet};
use sqlitegraph::call_graph::{collapse_sccs, collapse_sccs_with_progress};
use sqlitegraph::graph::{Graph, GraphEdge, GraphEntity};
use sqlitegraph::progress::NoProgress;

fn cg_empty_json() -> serde_json::Value {
    serde_json::Value::Object(serde_json::Map::new())
}

fn cg_json_field(key: &str, value: i64) -> serde_json::Value {
    let mut map = serde_json::Map::new();
    map.insert(key.to_string(), serde_json::Value::from(value));
    serde_json::Value::Object(map)
}


/// Helper: Create empty graph
fn cg_create_empty_graph() -> Graph {
    Graph::new()
}

/// Helper: Create graph with single node
fn cg_create_single_node_graph() -> Graph {
    let mut graph = Graph::new();

    let entity = GraphEntity {
        id: 0,
        kind: "node".to_string(),
        name: "single".to_string(),
        file_path: Some("single.rs".to_string()),
        data: cg_empty_json(),
    };
    graph
        .insert_entity(&entity)
        .expect("Failed to insert entity");

    graph
}

/// Helper: Create DAG: 0 -> 1 -> 2 -> 3 (all trivial SCCs)
fn cg_create_dag() -> Graph {
    let mut graph = Graph::new();

    // Create 4 nodes
    for i in 0..4 {
        let entity = GraphEntity {
            id: 0,
            kind: "node".to_string(),
            name: format!("node_{}", i),
            file_path: Some(format!("node_{}.rs", i)),
            data: cg_json_field("index", i as i64),
        };
        graph
            .insert_entity(&entity)
            .expect("Failed to insert entity");
    }

    let entity_ids: Vec<i64> = graph.all_entity_ids().expect("Failed to get IDs");

    // Create chain: 0 -> 1 -> 2 -> 3
    for i in 0..entity_ids.len().saturating_sub(1) {
        let edge = GraphEdge {
            id: 0,
            from_id: entity_ids[i],
            to_id: entity_ids[i + 1],
            edge_type: "next".to_string(),
            data: cg_empty_json(),
        };
        graph.insert_edge(&edge).expect("Failed to insert edge");
    }

    graph
}

/// Helper: Create mutual recursion: 0 <-> 1, and 2 -> 3 -> 4 (linear)
fn cg_create_mutual_recursion_graph() -> Graph {
    let mut graph = Graph::new();

    // Create 5 nodes
    for i in 0..5 {
        let entity = GraphEntity {
            id: 0,
            kind: "node".to_string(),
            name: format!("node_{}", i),
            file_path: Some(format!("node_{}.rs", i)),
            data: cg_json_field("index", i as i64),
        };
        graph
            .insert_entity(&entity)
            .expect("Failed to insert entity");
    }

    let entity_ids: Vec<i64> = graph.all_entity_ids().expect("Failed to get IDs");

    // Create mutual recursion: 0 <-> 1, and 2 -> 3 -> 4 (linear)
    let edges = vec![(0, 1), (1, 0), (2, 3), (3, 4)];
    for (from_idx, to_idx) in edges {
        let edge = GraphEdge {
            id: 0,
            from_id: entity_ids[from_idx],
            to_id: entity_ids[to_idx],
            edge_type: "edge".to_string(),
            data: cg_empty_json(),
        };
        graph.insert_edge(&edge).expect("Failed to insert edge");
    }

    graph
}

/// Helper: Create triangle SCC: 0 -> 1 -> 2 -> 0
fn cg_create_triangle_scc() -> Graph {
    let mut graph = Graph::new();

    // Create 3 nodes
    for i in 0..3 {
        let entity = GraphEntity {
            id: 0,
            kind: "node".to_string(),
            name: format!("node_{}", i),
            file_path: Some(format!("node_{}.rs", i)),
            data: cg_json_field("index", i as i64),
        };
        graph
            .insert_entity(&entity)
            .expect("Failed to insert entity");
    }

    let entity_ids: Vec<i64> = graph.all_entity_ids().expect("Failed to get IDs");

    // Create triangle: 0 -> 1 -> 2 -> 0
    let cycle = vec![(0, 1), (1, 2), (2, 0)];
    for (from_idx, to_idx) in cycle {
        let edge = GraphEdge {
            id: 0,
            from_id: entity_ids[from_idx],
            to_id: entity_ids[to_idx],
            edge_type: "cycle".to_string(),
            data: cg_empty_json(),
        };
        graph.insert_edge(&edge).expect("Failed to insert edge");
    }

    graph
}

// Tests for collapse_sccs

#[test]
fn test_collapse_sccs_empty_graph() {
    // Scenario: Empty graph
    // Expected: Returns empty SccCollapseResult
    let mut graph = cg_create_empty_graph();
    let result = collapse_sccs(&graph);

    assert!(result.is_ok());
    let collapsed = result.unwrap();

    assert_eq!(collapsed.num_sccs, 0);
    assert_eq!(collapsed.node_to_supernode.len(), 0);
    assert_eq!(collapsed.supernode_members.len(), 0);
    assert_eq!(collapsed.supernode_edges.len(), 0);
    assert_eq!(collapsed.non_trivial_count(), 0);
}

#[test]
fn test_collapse_sccs_single_node() {
    // Scenario: Single node, no edges
    // Expected: One trivial SCC
    let mut graph = cg_create_single_node_graph();
    let result = collapse_sccs(&graph);

    assert!(result.is_ok());
    let collapsed = result.unwrap();

    assert_eq!(collapsed.num_sccs, 1);
    assert_eq!(collapsed.node_to_supernode.len(), 1);
    assert_eq!(collapsed.supernode_members.len(), 1);
    assert_eq!(collapsed.supernode_edges.len(), 0);

    // Verify it's a trivial SCC
    assert_eq!(collapsed.non_trivial_count(), 0);

    let entity_ids: Vec<i64> = graph.all_entity_ids().expect("Failed to get IDs");
    let node_id = entity_ids[0];

    // Check node_to_supernode mapping
    let supernode = collapsed.supernode_for(node_id);
    assert!(supernode.is_some(), "Node should have a supernode");

    // Check supernode_members mapping
    let members = collapsed.members_of(supernode.unwrap());
    assert!(members.is_some(), "Supernode should have members");
    assert_eq!(members.unwrap().len(), 1, "SCC should have 1 member");

    // Check is_trivial
    assert!(
        collapsed.is_trivial(supernode.unwrap()),
        "Single node should be trivial"
    );
}

#[test]
fn test_collapse_sccs_dag() {
    // Scenario: DAG 0 -> 1 -> 2 -> 3
    // Expected: All nodes are separate supernodes (4 trivial SCCs)
    let mut graph = cg_create_dag();
    let result = collapse_sccs(&graph);

    assert!(result.is_ok());
    let collapsed = result.unwrap();

    // All 4 nodes are separate SCCs
    assert_eq!(collapsed.num_sccs, 4);
    assert_eq!(collapsed.node_to_supernode.len(), 4);
    assert_eq!(collapsed.non_trivial_count(), 0);

    // 3 edges in condensed graph (same as original)
    assert_eq!(collapsed.supernode_edges.len(), 3);

    // Verify no self-loops
    for &(from, to) in &collapsed.supernode_edges {
        assert_ne!(from, to, "Condensed graph should have no self-loops");
    }

    // Verify all SCCs are trivial
    for (&supernode, members) in &collapsed.supernode_members {
        assert!(
            collapsed.is_trivial(supernode),
            "DAG nodes should be trivial SCCs"
        );
        assert_eq!(members.len(), 1, "Each SCC should have 1 member");
    }
}

#[test]
fn test_collapse_sccs_mutual_recursion() {
    // Scenario: Mutual recursion 0 <-> 1, plus chain 2 -> 3 -> 4
    // Expected: {0, 1} becomes one supernode, {2}, {3}, {4} are separate
    let mut graph = cg_create_mutual_recursion_graph();
    let result = collapse_sccs(&graph);

    assert!(result.is_ok());
    let collapsed = result.unwrap();

    // 4 SCCs: {0,1}, {2}, {3}, {4}
    assert_eq!(collapsed.num_sccs, 4);
    assert_eq!(collapsed.node_to_supernode.len(), 5);

    // 1 non-trivial SCC (the mutual recursion)
    assert_eq!(collapsed.non_trivial_count(), 1);

    let entity_ids: Vec<i64> = graph.all_entity_ids().expect("Failed to get IDs");

    // Nodes 0 and 1 should be in the same SCC
    let scc0 = collapsed.supernode_for(entity_ids[0]);
    let scc1 = collapsed.supernode_for(entity_ids[1]);
    assert_eq!(scc0, scc1, "Nodes 0 and 1 should be in same SCC");

    // Nodes 2, 3, 4 should each be in their own SCC
    let scc2 = collapsed.supernode_for(entity_ids[2]);
    let scc3 = collapsed.supernode_for(entity_ids[3]);
    let scc4 = collapsed.supernode_for(entity_ids[4]);

    assert_ne!(scc2, scc0, "Node 2 should not be in SCC 0/1");
    assert_ne!(scc3, scc2, "Node 3 should not be in SCC 2");
    assert_ne!(scc4, scc3, "Node 4 should not be in SCC 3");

    // Verify the mutual recursion SCC is non-trivial
    if let Some(scc_id) = scc0 {
        assert!(
            !collapsed.is_trivial(scc_id),
            "Mutual recursion SCC should be non-trivial"
        );
        if let Some(members) = collapsed.members_of(scc_id) {
            assert_eq!(
                members.len(),
                2,
                "Mutual recursion SCC should have 2 members"
            );
        }
    }

    // Verify condensed edges (should have no self-loops)
    for &(from, to) in &collapsed.supernode_edges {
        assert_ne!(from, to, "Condensed graph should have no self-loops");
    }
}

#[test]
fn test_collapse_sccs_triangle() {
    // Scenario: Triangle 0 -> 1 -> 2 -> 0
    // Expected: All three nodes become one supernode
    let mut graph = cg_create_triangle_scc();
    let result = collapse_sccs(&graph);

    assert!(result.is_ok());
    let collapsed = result.unwrap();

    // 1 SCC containing all 3 nodes
    assert_eq!(collapsed.num_sccs, 1);
    assert_eq!(collapsed.node_to_supernode.len(), 3);

    // 1 non-trivial SCC
    assert_eq!(collapsed.non_trivial_count(), 1);

    let entity_ids: Vec<i64> = graph.all_entity_ids().expect("Failed to get IDs");

    // All nodes should be in the same SCC
    let scc0 = collapsed.supernode_for(entity_ids[0]);
    let scc1 = collapsed.supernode_for(entity_ids[1]);
    let scc2 = collapsed.supernode_for(entity_ids[2]);

    assert_eq!(scc0, scc1, "Nodes 0 and 1 should be in same SCC");
    assert_eq!(scc1, scc2, "Nodes 1 and 2 should be in same SCC");

    // No edges in condensed graph (single supernode)
    assert_eq!(collapsed.supernode_edges.len(), 0);

    // Verify SCC is non-trivial
    if let Some(scc_id) = scc0 {
        assert!(
            !collapsed.is_trivial(scc_id),
            "Triangle SCC should be non-trivial"
        );
        if let Some(members) = collapsed.members_of(scc_id) {
            assert_eq!(members.len(), 3, "Triangle SCC should have 3 members");
        }
    }
}

#[test]
fn test_collapse_sccs_no_self_loops() {
    // Scenario: Graph with mutual recursion
    // Expected: Condensed graph has no self-loops
    let mut graph = cg_create_mutual_recursion_graph();
    let result = collapse_sccs(&graph);

    assert!(result.is_ok());
    let collapsed = result.unwrap();

    // Verify no self-loops in condensed graph
    for &(from, to) in &collapsed.supernode_edges {
        assert_ne!(from, to, "Condensed DAG should not have self-loops");
    }
}

#[test]
fn test_collapse_sccs_bidirectional_mapping() {
    // Scenario: Mutual recursion graph
    // Expected: node_to_supernode and supernode_members are consistent
    let mut graph = cg_create_mutual_recursion_graph();
    let result = collapse_sccs(&graph);

    assert!(result.is_ok());
    let collapsed = result.unwrap();

    let entity_ids: Vec<i64> = graph.all_entity_ids().expect("Failed to get IDs");

    // For each node, verify bidirectional mapping consistency
    for &node in &entity_ids {
        if let Some(supernode) = collapsed.supernode_for(node) {
            if let Some(members) = collapsed.members_of(supernode) {
                assert!(
                    members.contains(&node),
                    "Supernode {} should contain node {}",
                    supernode,
                    node
                );
            }
        }
    }

    // Verify each supernode's members map back to it
    for (&supernode, members) in &collapsed.supernode_members {
        for &member in members {
            let mapped = collapsed.supernode_for(member);
            assert_eq!(
                Some(supernode),
                mapped,
                "Node {} should map back to supernode {}",
                member,
                supernode
            );
        }
    }
}

#[test]
fn test_collapse_sccs_deterministic_edges() {
    // Scenario: Graph with multiple edges
    // Expected: Edges are sorted deterministically
    let mut graph = cg_create_dag();
    let result = collapse_sccs(&graph);

    assert!(result.is_ok());
    let collapsed = result.unwrap();

    // Check that edges are sorted
    let mut edges_copy = collapsed.supernode_edges.clone();
    edges_copy.sort();

    assert_eq!(
        collapsed.supernode_edges, edges_copy,
        "Edges should be sorted"
    );

    // Check that there are no duplicates
    let mut unique_edges = collapsed.supernode_edges.clone();
    unique_edges.dedup();

    assert_eq!(
        collapsed.supernode_edges.len(),
        unique_edges.len(),
        "Edges should be deduplicated"
    );
}

// Tests for SccCollapseResult methods

#[test]
fn test_supernode_for() {
    // Scenario: Query supernode for existing and non-existent nodes
    // Expected: Returns Some(supernode) for existing, None for non-existent
    let mut graph = cg_create_mutual_recursion_graph();
    let collapsed = collapse_sccs(&graph).expect("Failed");

    let entity_ids: Vec<i64> = graph.all_entity_ids().expect("Failed to get IDs");

    // Existing node should return Some
    let supernode = collapsed.supernode_for(entity_ids[0]);
    assert!(supernode.is_some(), "Existing node should have supernode");

    // Non-existent node should return None
    let non_existent = collapsed.supernode_for(99999);
    assert!(
        non_existent.is_none(),
        "Non-existent node should return None"
    );
}

#[test]
fn test_members_of() {
    // Scenario: Query members for existing and non-existent supernodes
    // Expected: Returns Some(members) for existing, None for non-existent
    let mut graph = cg_create_mutual_recursion_graph();
    let collapsed = collapse_sccs(&graph).expect("Failed");

    let entity_ids: Vec<i64> = graph.all_entity_ids().expect("Failed to get IDs");

    // Get the supernode for node 0
    if let Some(supernode) = collapsed.supernode_for(entity_ids[0]) {
        // Existing supernode should return Some
        let members = collapsed.members_of(supernode);
        assert!(members.is_some(), "Existing supernode should have members");
        assert_eq!(members.unwrap().len(), 2, "Should have 2 members");
    }

    // Non-existent supernode should return None
    let non_existent = collapsed.members_of(99999);
    assert!(
        non_existent.is_none(),
        "Non-existent supernode should return None"
    );
}

#[test]
fn test_is_trivial() {
    // Scenario: Check trivial vs non-trivial SCCs
    // Expected: Single node SCCs are trivial, multi-node are not
    let mut graph = cg_create_mutual_recursion_graph();
    let collapsed = collapse_sccs(&graph).expect("Failed");

    let entity_ids: Vec<i64> = graph.all_entity_ids().expect("Failed to get IDs");

    // Find the mutual recursion SCC (nodes 0 and 1)
    let scc0 = collapsed.supernode_for(entity_ids[0]);
    let scc2 = collapsed.supernode_for(entity_ids[2]);

    if let Some(scc_id) = scc0 {
        // Multi-node SCC should be non-trivial
        assert!(
            !collapsed.is_trivial(scc_id),
            "Multi-node SCC should not be trivial"
        );
    }

    if let Some(scc_id) = scc2 {
        // Single node SCC should be trivial
        assert!(
            collapsed.is_trivial(scc_id),
            "Single node SCC should be trivial"
        );
    }

    // Non-existent SCC should return false (not found)
    assert!(
        !collapsed.is_trivial(99999),
        "Non-existent SCC should return false"
    );
}

#[test]
fn test_non_trivial_count() {
    // Scenario: Count non-trivial SCCs
    // Expected: Returns correct count of multi-node SCCs
    let mut graph = cg_create_mutual_recursion_graph();
    let collapsed = collapse_sccs(&graph).expect("Failed");

    // Should have 1 non-trivial SCC (the mutual recursion)
    assert_eq!(collapsed.non_trivial_count(), 1);

    // DAG should have 0 non-trivial SCCs
    let dag = cg_create_dag();
    let dag_collapsed = collapse_sccs(&dag).expect("Failed");
    assert_eq!(dag_collapsed.non_trivial_count(), 0);

    // Triangle should have 1 non-trivial SCC
    let triangle = cg_create_triangle_scc();
    let triangle_collapsed = collapse_sccs(&triangle).expect("Failed");
    assert_eq!(triangle_collapsed.non_trivial_count(), 1);
}

#[test]
fn test_non_trivial_nodes() {
    // Scenario: Get all nodes in non-trivial SCCs
    // Expected: Returns set of nodes participating in cycles
    let mut graph = cg_create_mutual_recursion_graph();
    let collapsed = collapse_sccs(&graph).expect("Failed");

    let cyclic_nodes = collapsed.non_trivial_nodes();

    // Should have 2 cyclic nodes (0 and 1 in mutual recursion)
    assert_eq!(cyclic_nodes.len(), 2);

    let entity_ids: Vec<i64> = graph.all_entity_ids().expect("Failed to get IDs");

    // Nodes 0 and 1 should be in the set (they form the mutual recursion)
    assert!(cyclic_nodes.contains(&entity_ids[0]));
    assert!(cyclic_nodes.contains(&entity_ids[1]));

    // Nodes 2, 3, 4 should not be in the set (they're in a chain)
    assert!(!cyclic_nodes.contains(&entity_ids[2]));
    assert!(!cyclic_nodes.contains(&entity_ids[3]));
    assert!(!cyclic_nodes.contains(&entity_ids[4]));
}

// Tests for progress variant

#[test]
fn test_collapse_sccs_with_progress() {
    // Scenario: Progress variant matches non-progress variant
    // Expected: Same results

    let mut graph = cg_create_mutual_recursion_graph();

    let progress = NoProgress;
    let result_with = collapse_sccs_with_progress(&graph, &progress).expect("Failed");
    let result_without = collapse_sccs(&graph).expect("Failed");

    assert_eq!(
        result_with.num_sccs, result_without.num_sccs,
        "Progress and non-progress results should match"
    );

    assert_eq!(
        result_with.supernode_edges.len(),
        result_without.supernode_edges.len(),
        "Edges should match"
    );

    assert_eq!(
        result_with.non_trivial_count(),
        result_without.non_trivial_count(),
        "Non-trivial count should match"
    );
}

#[test]
fn test_collapse_sccs_empty_with_progress() {
    // Scenario: Empty graph with progress
    // Expected: Returns empty result without error

    let mut graph = cg_create_empty_graph();

    let progress = NoProgress;
    let result = collapse_sccs_with_progress(&graph, &progress);

    assert!(result.is_ok());
    let collapsed = result.unwrap();

    assert_eq!(collapsed.num_sccs, 0);
    assert_eq!(collapsed.supernode_edges.len(), 0);
}

#[test]
fn test_condensation_is_dag() {
    // Scenario: Verify condensation graph is acyclic
    // Expected: No cycles in supernode_edges
    let mut graph = cg_create_mutual_recursion_graph();
    let collapsed = collapse_sccs(&graph).expect("Failed");

    // Build adjacency map for cycle detection
    let mut adj: AHashMap<i64, Vec<i64>> = AHashMap::new();
    for &(from, to) in &collapsed.supernode_edges {
        adj.entry(from).or_insert_with(Vec::new).push(to);
    }

    // Simple DFS cycle detection
    let mut visited = AHashSet::new();
    let mut rec_stack = AHashSet::new();


    // Check all supernodes
    for (&supernode, _) in &collapsed.supernode_members {
        if !visited.contains(&supernode) {
            assert!(
                !cg_has_cycle(supernode, &adj, &mut visited, &mut rec_stack),
                "Condensation graph should be acyclic"
            );
        }
    }
}

/// Depth-first search for a cycle through `node`.
fn cg_has_cycle(
    node: i64,
    adj: &AHashMap<i64, Vec<i64>>,
    visited: &mut AHashSet<i64>,
    rec_stack: &mut AHashSet<i64>,
) -> bool {
    visited.insert(node);
    rec_stack.insert(node);

    if let Some(neighbors) = adj.get(&node) {
        for &neighbor in neighbors {
            if !visited.contains(&neighbor) {
                if cg_has_cycle(neighbor, adj, visited, rec_stack) {
                    return true;
                }
            } else if rec_stack.contains(&neighbor) {
                return true;
            }
        }
    }

    rec_stack.remove(&node);
    false
}

