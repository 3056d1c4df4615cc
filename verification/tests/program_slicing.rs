#![allow(unused_imports, unused_mut, unused_variables, dead_code)]
use ahash::{AHashMap, AHashSet};
use sqlitegraph::control_dependence::{
    control_dependence_from_exit, control_dependence_graph, post_dominators, reversed_graph, ControlDependenceResult,
    PostDominatorResult,
};
use sqlitegraph::dominators::dominators;
use sqlitegraph::error::SqliteGraphError;
use sqlitegraph::graph::{Graph, GraphEdge, GraphEntity};
use sqlitegraph::program_slicing::{backward_slice, backward_slice_with_progress, forward_slice, forward_slice_with_progress, SliceResult};
use sqlitegraph::progress::NoProgress;

/// Post-dominators towards `exit`.
fn ps_post_dominators(graph: &Graph, exit: i64) -> Result<PostDominatorResult, SqliteGraphError> {
    post_dominators(graph, exit)
}

/// Control dependence from the post-dominators towards the graph's one exit.
fn ps_control_dependence_from_exit(graph: &Graph) -> Result<ControlDependenceResult, SqliteGraphError> {
    control_dependence_from_exit(graph)
}

fn ps_empty_json() -> serde_json::Value {
    serde_json::Value::Object(serde_json::Map::new())
}

fn ps_json_field(key: &str, value: i64) -> serde_json::Value {
    let mut map = serde_json::Map::new();
    map.insert(key.to_string(), serde_json::Value::from(value));
    serde_json::Value::Object(map)
}


/// Helper: Create linear chain CFG: 0 -> 1 -> 2 -> 3 (no control dependence)
fn ps_create_linear_chain() -> Graph {
    let mut graph = Graph::new();

    // Create 4 nodes
    for i in 0..4 {
        let entity = GraphEntity {
            id: 0,
            kind: "node".to_string(),
            name: format!("node_{}", i),
            file_path: Some(format!("node_{}.rs", i)),
            data: ps_json_field("index", i as i64),
        };
        graph
            .insert_entity(&entity)
            .expect("Failed to insert entity");
    }

    let entity_ids: Vec<i64> = graph.all_entity_ids().expect("Failed to get IDs");

    // Create chain: 0 -> 1 -> 2 -> 3
    for i in 0..entity_ids.len().saturating_sub(1) {
        let edge = GraphEdge {
            id: 0,
            from_id: entity_ids[i],
            to_id: entity_ids[i + 1],
            edge_type: "next".to_string(),
            data: ps_empty_json(),
        };
        graph.insert_edge(&edge).expect("Failed to insert edge");
    }

    graph
}

/// Helper: Create if-then-else CFG: 0 -> 1, 0 -> 2, 1 -> 3, 2 -> 3
/// Expected: Node 3 is control-dependent on node 0 (merge point depends on branch)
fn ps_create_if_then_else_cfg() -> Graph {
    let mut graph = Graph::new();

    // Create 4 nodes
    for i in 0..4 {
        let entity = GraphEntity {
            id: 0,
            kind: "node".to_string(),
            name: format!("node_{}", i),
            file_path: Some(format!("node_{}.rs", i)),
            data: ps_json_field("index", i as i64),
        };
        graph
            .insert_entity(&entity)
            .expect("Failed to insert entity");
    }

    let entity_ids: Vec<i64> = graph.all_entity_ids().expect("Failed to get IDs");

    // Create if-then-else: 0 -> 1, 0 -> 2, 1 -> 3, 2 -> 3
    let edges = vec![(0, 1), (0, 2), (1, 3), (2, 3)];
    for (from_idx, to_idx) in edges {
        let edge = GraphEdge {
            id: 0,
            from_id: entity_ids[from_idx],
            to_id: entity_ids[to_idx],
            edge_type: "next".to_string(),
            data: ps_empty_json(),
        };
        graph.insert_edge(&edge).expect("Failed to insert edge");
    }

    graph
}

/// Helper: Create nested CFG for multi-level control dependence
/// Structure: 0 -> 1, 0 -> 5, 1 -> 2, 1 -> 3, 2 -> 4, 3 -> 4, 4 -> 5
/// Expected: Nested control dependencies (4 depends on 1 and 0)
fn ps_create_nested_cfg() -> Graph {
    let mut graph = Graph::new();

    // Create 6 nodes
    for i in 0..6 {
        let entity = GraphEntity {
            id: 0,
            kind: "node".to_string(),
            name: format!("node_{}", i),
            file_path: Some(format!("node_{}.rs", i)),
            data: ps_json_field("index", i as i64),
        };
        graph
            .insert_entity(&entity)
            .expect("Failed to insert entity");
    }

    let entity_ids: Vec<i64> = graph.all_entity_ids().expect("Failed to get IDs");

    // Create nested: 0 -> 1, 0 -> 5, 1 -> 2, 1 -> 3, 2 -> 4, 3 -> 4, 4 -> 5
    let edges = vec![(0, 1), (0, 5), (1, 2), (1, 3), (2, 4), (3, 4), (4, 5)];
    for (from_idx, to_idx) in edges {
        let edge = GraphEdge {
            id: 0,
            from_id: entity_ids[from_idx],
            to_id: entity_ids[to_idx],
            edge_type: "next".to_string(),
            data: ps_empty_json(),
        };
        graph.insert_edge(&edge).expect("Failed to insert edge");
    }

    graph
}

// Tests for backward_slice

#[test]
fn test_backward_slice_linear() {
    // Scenario: Linear chain 0 -> 1 -> 2 -> 3
    // Expected: All nodes via data flow (no control dependence)
    let mut graph = ps_create_linear_chain();
    let entity_ids: Vec<i64> = graph.all_entity_ids().expect("Failed to get IDs");

    let cdg = ps_control_dependence_from_exit(&graph)
        .expect("Failed to compute CDG");

    let result =
        backward_slice(&graph, &cdg, entity_ids[3]).expect("Failed to compute backward slice");

    // All 4 nodes should be in slice (via data flow)
    assert_eq!(result.size, 4, "Expected 4 nodes in slice");
    assert_eq!(
        result.criterion, entity_ids[3],
        "Criterion should be target"
    );

    // Nodes should be in slice (via data flow and/or control dependence)
    assert!(
        result.data_nodes.len() + result.control_nodes.len() >= 3,
        "Should have nodes in slice"
    );

    // Target should be in slice
    assert!(result.contains(entity_ids[3]), "Target should be in slice");
}

#[test]
fn test_backward_slice_if_then_else() {
    // Scenario: If-then-else: 0 -> 1, 0 -> 2, 1 -> 3, 2 -> 3
    // Expected: Node 0 in control_nodes (controls node 3)
    let mut graph = ps_create_if_then_else_cfg();
    let entity_ids: Vec<i64> = graph.all_entity_ids().expect("Failed to get IDs");

    let cdg = ps_control_dependence_from_exit(&graph)
        .expect("Failed to compute CDG");

    let result =
        backward_slice(&graph, &cdg, entity_ids[3]).expect("Failed to compute backward slice");

    // All nodes should be in slice
    assert_eq!(result.size, 4, "Expected 4 nodes in slice");

    // Node 0 should be in control_nodes (it controls node 3)
    assert!(
        result.control_nodes.contains(&entity_ids[0]),
        "Node 0 should be in control_nodes (controls merge point)"
    );
}

#[test]
fn test_backward_slice_self_inclusion() {
    // Scenario: Self-inclusion requirement
    // Expected: Target node is always in results
    let mut graph = ps_create_linear_chain();
    let entity_ids: Vec<i64> = graph.all_entity_ids().expect("Failed to get IDs");

    let cdg = ps_control_dependence_from_exit(&graph)
        .expect("Failed to compute CDG");

    // Test from node 1
    let result =
        backward_slice(&graph, &cdg, entity_ids[1]).expect("Failed to compute backward slice");

    assert_eq!(
        result.criterion, entity_ids[1],
        "Criterion should be target"
    );
    assert!(result.contains(entity_ids[1]), "Target should be in slice");
}

#[test]
fn test_backward_slice_control_data_separation() {
    // Scenario: Verify both control and data nodes populated
    // Expected: Both sets non-empty for conditional CFG
    let mut graph = ps_create_if_then_else_cfg();
    let entity_ids: Vec<i64> = graph.all_entity_ids().expect("Failed to get IDs");

    let cdg = ps_control_dependence_from_exit(&graph)
        .expect("Failed to compute CDG");

    let result =
        backward_slice(&graph, &cdg, entity_ids[3]).expect("Failed to compute backward slice");

    // Should have both control and data nodes
    assert!(
        !result.control_nodes.is_empty(),
        "Control nodes should be non-empty"
    );
    assert!(
        !result.data_nodes.is_empty(),
        "Data nodes should be non-empty"
    );

    // Union should be slice_nodes
    let expected_union: AHashSet<i64> = result
        .control_nodes
        .union(&result.data_nodes)
        .copied()
        .collect();
    assert_eq!(
        result.slice_nodes, expected_union,
        "Slice nodes should be union of control + data"
    );
}

#[test]
fn test_backward_slice_empty_graph() {
    // Scenario: Empty graph
    // Expected: Handles gracefully with minimal slice
    let mut graph = Graph::new();

    let cdg = ps_control_dependence_from_exit(&graph)
        .expect("Failed to compute CDG");

    let result = backward_slice(&graph, &cdg, 999).expect("Failed to compute backward slice");

    // Should have just the target (self-inclusion)
    assert_eq!(result.size, 1, "Empty graph should have minimal slice");
    assert_eq!(result.criterion, 999, "Criterion should be target");
}

// Tests for forward_slice

#[test]
fn test_forward_slice_linear() {
    // Scenario: Linear chain 0 -> 1 -> 2 -> 3
    // Expected: All nodes via data flow (no control dependence)
    let mut graph = ps_create_linear_chain();
    let entity_ids: Vec<i64> = graph.all_entity_ids().expect("Failed to get IDs");

    let cdg = ps_control_dependence_from_exit(&graph)
        .expect("Failed to compute CDG");

    let result =
        forward_slice(&graph, &cdg, entity_ids[0]).expect("Failed to compute forward slice");

    // All 4 nodes should be in slice (via data flow)
    assert_eq!(result.size, 4, "Expected 4 nodes in slice");
    assert_eq!(
        result.criterion, entity_ids[0],
        "Criterion should be source"
    );

    // Nodes should be in slice (via data flow and/or control dependence)
    assert!(
        result.data_nodes.len() + result.control_nodes.len() >= 3,
        "Should have nodes in slice"
    );
}

#[test]
fn test_forward_slice_if_then_else() {
    // Scenario: If-then-else: 0 -> 1, 0 -> 2, 1 -> 3, 2 -> 3
    // Expected: Node 0 controls all branches (nodes 1, 2, 3 in control_nodes)
    let mut graph = ps_create_if_then_else_cfg();
    let entity_ids: Vec<i64> = graph.all_entity_ids().expect("Failed to get IDs");

    let cdg = ps_control_dependence_from_exit(&graph)
        .expect("Failed to compute CDG");

    let result =
        forward_slice(&graph, &cdg, entity_ids[0]).expect("Failed to compute forward slice");

    // All nodes should be in slice
    assert_eq!(result.size, 4, "Expected 4 nodes in slice");

    // Node 3 should be in control_nodes (controlled by node 0)
    assert!(
        result.control_nodes.contains(&entity_ids[3]),
        "Node 3 should be in control_nodes (controlled by branch)"
    );
}

#[test]
fn test_forward_slice_self_inclusion() {
    // Scenario: Self-inclusion requirement
    // Expected: Source node is always in results
    let mut graph = ps_create_linear_chain();
    let entity_ids: Vec<i64> = graph.all_entity_ids().expect("Failed to get IDs");

    let cdg = ps_control_dependence_from_exit(&graph)
        .expect("Failed to compute CDG");

    let result =
        forward_slice(&graph, &cdg, entity_ids[1]).expect("Failed to compute forward slice");

    assert_eq!(
        result.criterion, entity_ids[1],
        "Criterion should be source"
    );
    assert!(result.contains(entity_ids[1]), "Source should be in slice");
}

#[test]
fn test_forward_slice_control_data_separation() {
    // Scenario: Verify both control and data nodes populated
    // Expected: Both sets non-empty for conditional CFG
    let mut graph = ps_create_if_then_else_cfg();
    let entity_ids: Vec<i64> = graph.all_entity_ids().expect("Failed to get IDs");

    let cdg = ps_control_dependence_from_exit(&graph)
        .expect("Failed to compute CDG");

    let result =
        forward_slice(&graph, &cdg, entity_ids[0]).expect("Failed to compute forward slice");

    // Should have both control and data nodes
    assert!(
        !result.control_nodes.is_empty(),
        "Control nodes should be non-empty"
    );
    assert!(
        !result.data_nodes.is_empty(),
        "Data nodes should be non-empty"
    );

    // Union should be slice_nodes
    let expected_union: AHashSet<i64> = result
        .control_nodes
        .union(&result.data_nodes)
        .copied()
        .collect();
    assert_eq!(
        result.slice_nodes, expected_union,
        "Slice nodes should be union of control + data"
    );
}

// Tests for SliceResult methods

#[test]
fn test_slice_result_contains() {
    // Scenario: contains() method works correctly
    // Expected: Returns true for nodes in slice, false otherwise
    let mut graph = ps_create_linear_chain();
    let entity_ids: Vec<i64> = graph.all_entity_ids().expect("Failed to get IDs");

    let cdg = ps_control_dependence_from_exit(&graph)
        .expect("Failed to compute CDG");

    let result =
        forward_slice(&graph, &cdg, entity_ids[0]).expect("Failed to compute forward slice");

    // All nodes should be in slice
    for &node_id in &entity_ids {
        assert!(
            result.contains(node_id),
            "Node {} should be in slice",
            node_id
        );
    }

    // Non-existent node should not be in slice
    assert!(
        !result.contains(9999),
        "Non-existent node should not be in slice"
    );
}

#[test]
fn test_slice_result_sorted_nodes() {
    // Scenario: sorted_nodes() returns deterministic output
    // Expected: Nodes in ascending order
    let mut graph = ps_create_if_then_else_cfg();
    let entity_ids: Vec<i64> = graph.all_entity_ids().expect("Failed to get IDs");

    let cdg = ps_control_dependence_from_exit(&graph)
        .expect("Failed to compute CDG");

    let result =
        forward_slice(&graph, &cdg, entity_ids[0]).expect("Failed to compute forward slice");

    let sorted = result.sorted_nodes();

    // Should be sorted (ascending order)
    for i in 1..sorted.len() {
        assert!(
            sorted[i - 1] <= sorted[i],
            "sorted_nodes should be in ascending order"
        );
    }

    // All slice nodes should be present
    assert_eq!(
        sorted.len(),
        result.size,
        "All slice nodes should be in sorted output"
    );
}

#[test]
fn test_slice_result_sorted_control_nodes() {
    // Scenario: sorted_control_nodes() returns deterministic output
    // Expected: Control nodes in ascending order
    let mut graph = ps_create_if_then_else_cfg();
    let entity_ids: Vec<i64> = graph.all_entity_ids().expect("Failed to get IDs");

    let cdg = ps_control_dependence_from_exit(&graph)
        .expect("Failed to compute CDG");

    let result =
        forward_slice(&graph, &cdg, entity_ids[0]).expect("Failed to compute forward slice");

    let sorted = result.sorted_control_nodes();

    // Should be sorted
    for i in 1..sorted.len() {
        assert!(
            sorted[i - 1] <= sorted[i],
            "sorted_control_nodes should be in ascending order"
        );
    }

    // All control nodes should be present
    assert_eq!(sorted.len(), result.control_nodes.len());
}

#[test]
fn test_slice_result_sorted_data_nodes() {
    // Scenario: sorted_data_nodes() returns deterministic output
    // Expected: Data nodes in ascending order
    let mut graph = ps_create_if_then_else_cfg();
    let entity_ids: Vec<i64> = graph.all_entity_ids().expect("Failed to get IDs");

    let cdg = ps_control_dependence_from_exit(&graph)
        .expect("Failed to compute CDG");

    let result =
        forward_slice(&graph, &cdg, entity_ids[0]).expect("Failed to compute forward slice");

    let sorted = result.sorted_data_nodes();

    // Should be sorted
    for i in 1..sorted.len() {
        assert!(
            sorted[i - 1] <= sorted[i],
            "sorted_data_nodes should be in ascending order"
        );
    }

    // All data nodes should be present
    assert_eq!(sorted.len(), result.data_nodes.len());
}

#[test]
fn test_backward_slice_nested_cfg() {
    // Scenario: Nested CFG with multi-level control dependence
    // Expected: Correctly captures nested dependencies
    let mut graph = ps_create_nested_cfg();
    let entity_ids: Vec<i64> = graph.all_entity_ids().expect("Failed to get IDs");

    let cdg = ps_control_dependence_from_exit(&graph)
        .expect("Failed to compute CDG");

    let result =
        backward_slice(&graph, &cdg, entity_ids[4]).expect("Failed to compute backward slice");

    // Node 4 (inner merge) should have control dependencies
    assert!(
        !result.control_nodes.is_empty(),
        "Nested CFG should have control dependencies"
    );

    // Most nodes should be in slice via data flow
    assert!(
        result.size >= 4,
        "Should have at least 4 nodes in slice, got {}",
        result.size
    );
}

#[test]
fn test_forward_slice_nested_cfg() {
    // Scenario: Nested CFG with multi-level control flow
    // Expected: Node 0 controls downstream nodes
    let mut graph = ps_create_nested_cfg();
    let entity_ids: Vec<i64> = graph.all_entity_ids().expect("Failed to get IDs");

    let cdg = ps_control_dependence_from_exit(&graph)
        .expect("Failed to compute CDG");

    let result =
        forward_slice(&graph, &cdg, entity_ids[0]).expect("Failed to compute forward slice");

    // All nodes should be in slice
    assert_eq!(result.size, 6, "All 6 nodes should be in slice");

    // Should have control nodes (node 0 controls branches)
    assert!(
        !result.control_nodes.is_empty(),
        "Should have control nodes from branching"
    );
}

// Tests for progress variants

#[test]
fn test_backward_slice_with_progress() {
    // Scenario: Progress variant matches non-progress variant
    // Expected: Same results

    let mut graph = ps_create_linear_chain();
    let entity_ids: Vec<i64> = graph.all_entity_ids().expect("Failed to get IDs");

    let cdg = ps_control_dependence_from_exit(&graph)
        .expect("Failed to compute CDG");

    let progress = NoProgress;
    let result_with =
        backward_slice_with_progress(&graph, &cdg, entity_ids[3], &progress).expect("Failed");
    let result_without = backward_slice(&graph, &cdg, entity_ids[3]).expect("Failed");

    assert_eq!(
        result_with.size, result_without.size,
        "Progress and non-progress results should match"
    );

    for &node in &result_with.slice_nodes {
        assert!(
            result_without.contains(node),
            "Progress result contains node not in non-progress result"
        );
    }
}

#[test]
fn test_forward_slice_with_progress() {
    // Scenario: Progress variant matches non-progress variant
    // Expected: Same results

    let mut graph = ps_create_linear_chain();
    let entity_ids: Vec<i64> = graph.all_entity_ids().expect("Failed to get IDs");

    let cdg = ps_control_dependence_from_exit(&graph)
        .expect("Failed to compute CDG");

    let progress = NoProgress;
    let result_with =
        forward_slice_with_progress(&graph, &cdg, entity_ids[0], &progress).expect("Failed");
    let result_without = forward_slice(&graph, &cdg, entity_ids[0]).expect("Failed");

    assert_eq!(
        result_with.size, result_without.size,
        "Progress and non-progress results should match"
    );

    for &node in &result_with.slice_nodes {
        assert!(
            result_without.contains(node),
            "Progress result contains node not in non-progress result"
        );
    }
}

#[test]
fn test_backward_forward_symmetry() {
    // Scenario: Test relationship between backward and forward slices
    // Expected: In a linear chain, backward from N should contain same as forward from first
    let mut graph = ps_create_linear_chain();
    let entity_ids: Vec<i64> = graph.all_entity_ids().expect("Failed to get IDs");

    let cdg = ps_control_dependence_from_exit(&graph)
        .expect("Failed to compute CDG");

    // In linear chain, backward from last node should contain all nodes
    let backward = backward_slice(&graph, &cdg, entity_ids[3]).expect("Failed");

    // Forward from first node should also contain all nodes
    let forward = forward_slice(&graph, &cdg, entity_ids[0]).expect("Failed");

    // Both should contain all nodes
    assert_eq!(backward.size, 4, "Backward slice should contain all nodes");
    assert_eq!(forward.size, 4, "Forward slice should contain all nodes");

    // Slice nodes should be equal (in linear chain with no control dependence)
    assert_eq!(
        backward.slice_nodes, forward.slice_nodes,
        "In linear chain, backward and forward slices should match"
    );
}

