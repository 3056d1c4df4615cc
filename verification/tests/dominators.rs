#![allow(unused_imports, unused_mut, unused_variables, dead_code)]
use ahash::{AHashMap, AHashSet};
use sqlitegraph::dominators::{dominators, dominators_with_progress};
use sqlitegraph::error::SqliteGraphError;
use sqlitegraph::graph::{Graph, GraphEdge, GraphEntity};
use sqlitegraph::progress::NoProgress;

fn dm_empty_json() -> serde_json::Value {
    serde_json::Value::Object(serde_json::Map::new())
}

fn dm_json_field(key: &str, value: i64) -> serde_json::Value {
    let mut map = serde_json::Map::new();
    map.insert(key.to_string(), serde_json::Value::from(value));
    serde_json::Value::Object(map)
}


/// Helper: Create linear chain graph: 0 -> 1 -> 2 -> 3
fn dm_create_linear_chain() -> Graph {
    let mut graph = Graph::new();

    // Create 4 nodes
    for i in 0..4 {
        let entity = GraphEntity {
            id: 0,
            kind: "node".to_string(),
            name: format!("node_{}", i),
            file_path: Some(format!("node_{}.rs", i)),
            data: dm_json_field("index", i as i64),
        };
        graph
            .insert_entity(&entity)
            .expect("Failed to insert entity");
    }

    let entity_ids: Vec<i64> = graph.all_entity_ids().expect("Failed to get IDs");

    // Create chain: 0 -> 1 -> 2 -> 3
    for i in 0..entity_ids.len().saturating_sub(1) {
        let edge = GraphEdge {
            id: 0,
            from_id: entity_ids[i],
            to_id: entity_ids[i + 1],
            edge_type: "next".to_string(),
            data: dm_empty_json(),
        };
        graph.insert_edge(&edge).expect("Failed to insert edge");
    }

    graph
}

/// Helper: Create diamond CFG: 0 -> 1, 0 -> 2, 1 -> 3, 2 -> 3
fn dm_create_diamond_cfg() -> Graph {
    let mut graph = Graph::new();

    // Create 4 nodes
    for i in 0..4 {
        let entity = GraphEntity {
            id: 0,
            kind: "node".to_string(),
            name: format!("node_{}", i),
            file_path: Some(format!("node_{}.rs", i)),
            data: dm_json_field("index", i as i64),
        };
        graph
            .insert_entity(&entity)
            .expect("Failed to insert entity");
    }

    let entity_ids: Vec<i64> = graph.all_entity_ids().expect("Failed to get IDs");

    // Create diamond: 0 -> 1, 0 -> 2, 1 -> 3, 2 -> 3
    let edges = vec![(0, 1), (0, 2), (1, 3), (2, 3)];
    for (from_idx, to_idx) in edges {
        let edge = GraphEdge {
            id: 0,
            from_id: entity_ids[from_idx],
            to_id: entity_ids[to_idx],
            edge_type: "next".to_string(),
            data: dm_empty_json(),
        };
        graph.insert_edge(&edge).expect("Failed to insert edge");
    }

    graph
}

/// Helper: Create CFG with loop: 0 -> 1 -> 2 -> 1
fn dm_create_loop_cfg() -> Graph {
    let mut graph = Graph::new();

    // Create 3 nodes
    for i in 0..3 {
        let entity = GraphEntity {
            id: 0,
            kind: "node".to_string(),
            name: format!("node_{}", i),
            file_path: Some(format!("node_{}.rs", i)),
            data: dm_json_field("index", i as i64),
        };
        graph
            .insert_entity(&entity)
            .expect("Failed to insert entity");
    }

    let entity_ids: Vec<i64> = graph.all_entity_ids().expect("Failed to get IDs");

    // Create loop: 0 -> 1, 1 -> 2, 2 -> 1
    let edges = vec![(0, 1), (1, 2), (2, 1)];
    for (from_idx, to_idx) in edges {
        let edge = GraphEdge {
            id: 0,
            from_id: entity_ids[from_idx],
            to_id: entity_ids[to_idx],
            edge_type: "next".to_string(),
            data: dm_empty_json(),
        };
        graph.insert_edge(&edge).expect("Failed to insert edge");
    }

    graph
}

/// Helper: Create CFG with nested loops
fn dm_create_nested_loops() -> Graph {
    let mut graph = Graph::new();

    // Create 4 nodes
    for i in 0..4 {
        let entity = GraphEntity {
            id: 0,
            kind: "node".to_string(),
            name: format!("node_{}", i),
            file_path: Some(format!("node_{}.rs", i)),
            data: dm_json_field("index", i as i64),
        };
        graph
            .insert_entity(&entity)
            .expect("Failed to insert entity");
    }

    let entity_ids: Vec<i64> = graph.all_entity_ids().expect("Failed to get IDs");

    // Create nested loops: 0 -> 1 -> 2 -> 3, 3 -> 2 (inner), 3 -> 1 (outer)
    let edges = vec![(0, 1), (1, 2), (2, 3), (3, 2), (3, 1)];
    for (from_idx, to_idx) in edges {
        let edge = GraphEdge {
            id: 0,
            from_id: entity_ids[from_idx],
            to_id: entity_ids[to_idx],
            edge_type: "next".to_string(),
            data: dm_empty_json(),
        };
        graph.insert_edge(&edge).expect("Failed to insert edge");
    }

    graph
}

/// Helper: Create CFG with multiple exits
fn dm_create_multiple_exits() -> Graph {
    let mut graph = Graph::new();

    // Create 4 nodes
    for i in 0..4 {
        let entity = GraphEntity {
            id: 0,
            kind: "node".to_string(),
            name: format!("node_{}", i),
            file_path: Some(format!("node_{}.rs", i)),
            data: dm_json_field("index", i as i64),
        };
        graph
            .insert_entity(&entity)
            .expect("Failed to insert entity");
    }

    let entity_ids: Vec<i64> = graph.all_entity_ids().expect("Failed to get IDs");

    // Create multiple exits: 0 -> 1 -> 2, 0 -> 1 -> 3
    let edges = vec![(0, 1), (1, 2), (1, 3)];
    for (from_idx, to_idx) in edges {
        let edge = GraphEdge {
            id: 0,
            from_id: entity_ids[from_idx],
            to_id: entity_ids[to_idx],
            edge_type: "next".to_string(),
            data: dm_empty_json(),
        };
        graph.insert_edge(&edge).expect("Failed to insert edge");
    }

    graph
}

#[test]
fn test_dominators_linear_chain() {
    // Scenario: Linear chain 0 -> 1 -> 2 -> 3
    // Expected: 0 dominates all, 1 dominates {1,2,3}, 2 dominates {2,3}, 3 dominates {3}
    let mut graph = dm_create_linear_chain();
    let entity_ids: Vec<i64> = graph.all_entity_ids().expect("Failed to get IDs");
    let entry = entity_ids[0];

    let result = dominators(&graph, entry).expect("Failed to compute dominators");

    // Entry dominates all nodes
    for &node in &entity_ids {
        assert!(
            result.dominates(entry, node),
            "Entry should dominate node {}",
            node
        );
    }

    // Node 1 should dominate {1, 2, 3}
    assert!(result.dominates(entity_ids[1], entity_ids[1]));
    assert!(result.dominates(entity_ids[1], entity_ids[2]));
    assert!(result.dominates(entity_ids[1], entity_ids[3]));

    // Node 2 should dominate {2, 3}
    assert!(result.dominates(entity_ids[2], entity_ids[2]));
    assert!(result.dominates(entity_ids[2], entity_ids[3]));

    // Node 3 should dominate only itself
    assert!(result.dominates(entity_ids[3], entity_ids[3]));
    assert!(!result.dominates(entity_ids[3], entity_ids[0]));
}

#[test]
fn test_dominators_diamond() {
    // Scenario: Diamond CFG: 0 -> 1, 0 -> 2, 1 -> 3, 2 -> 3
    // Entity IDs: [1, 2, 3, 4] where 1 is entry, 4 is exit
    // Edges: 1->2, 1->3, 2->4, 3->4
    // Expected:
    // - Node 1 dominates all (on all paths from entry)
    // - Node 2 dominates only itself (path 1->3->4 doesn't go through 2)
    // - Node 3 dominates only itself (path 1->2->4 doesn't go through 3)
    let mut graph = dm_create_diamond_cfg();
    let entity_ids: Vec<i64> = graph.all_entity_ids().expect("Failed to get IDs");
    let entry = entity_ids[0];

    let result = dominators(&graph, entry).expect("Failed to compute dominators");

    // Entry dominates all
    for &node in &entity_ids {
        assert!(
            result.dominates(entry, node),
            "Entry should dominate {}",
            node
        );
    }

    // Node 2 dominates only itself (not 3 or 4, since there's a path 1->3->4)
    assert!(
        result.dominates(entity_ids[1], entity_ids[1]),
        "Node 2 should dominate itself"
    );
    assert!(
        !result.dominates(entity_ids[1], entity_ids[3]),
        "Node 2 should NOT dominate exit"
    );
    assert!(
        !result.dominates(entity_ids[1], entity_ids[2]),
        "Node 2 should NOT dominate node 3"
    );

    // Node 3 dominates only itself (not 2 or 4, since there's a path 1->2->4)
    assert!(
        result.dominates(entity_ids[2], entity_ids[2]),
        "Node 3 should dominate itself"
    );
    assert!(
        !result.dominates(entity_ids[2], entity_ids[3]),
        "Node 3 should NOT dominate exit"
    );
    assert!(
        !result.dominates(entity_ids[2], entity_ids[1]),
        "Node 3 should NOT dominate node 2"
    );
}

#[test]
fn test_dominators_loop() {
    // Scenario: Loop CFG: 0 -> 1 -> 2 -> 1
    // Expected: Loop header (1) dominates loop body
    let mut graph = dm_create_loop_cfg();
    let entity_ids: Vec<i64> = graph.all_entity_ids().expect("Failed to get IDs");
    let entry = entity_ids[0];

    let result = dominators(&graph, entry).expect("Failed to compute dominators");

    // Node 1 (loop header) should dominate nodes 1 and 2
    assert!(result.dominates(entity_ids[1], entity_ids[1]));
    assert!(result.dominates(entity_ids[1], entity_ids[2]));

    // Node 2 is in the loop, doesn't dominate others
    assert!(result.dominates(entity_ids[2], entity_ids[2]));
    assert!(!result.dominates(entity_ids[2], entity_ids[1]));
}

#[test]
fn test_immediate_dominators_linear() {
    // Scenario: Linear chain 0 -> 1 -> 2 -> 3
    // Expected: idom(0) = None, idom(1) = 0, idom(2) = 1, idom(3) = 2
    let mut graph = dm_create_linear_chain();
    let entity_ids: Vec<i64> = graph.all_entity_ids().expect("Failed to get IDs");
    let entry = entity_ids[0];

    let result = dominators(&graph, entry).expect("Failed to compute dominators");

    println!("Entity IDs: {:?}", entity_ids);
    println!("Entry: {}", entry);
    println!("Dominators: {:?}", result.dom);
    println!("IDOM: {:?}", result.idom);

    assert_eq!(
        result.immediate_dominator(entry),
        None,
        "Entry should have no immediate dominator"
    );
    assert_eq!(
        result.immediate_dominator(entity_ids[1]),
        Some(entry),
        "idom(1) should be 0"
    );
    assert_eq!(
        result.immediate_dominator(entity_ids[2]),
        Some(entity_ids[1]),
        "idom(2) should be 1"
    );
    assert_eq!(
        result.immediate_dominator(entity_ids[3]),
        Some(entity_ids[2]),
        "idom(3) should be 2"
    );
}

#[test]
fn test_immediate_dominators_diamond() {
    // Scenario: Diamond CFG: 0 -> 1, 0 -> 2, 1 -> 3, 2 -> 3
    // Expected: idom(0) = None, idom(1) = 0, idom(2) = 0, idom(3) = 0
    let mut graph = dm_create_diamond_cfg();
    let entity_ids: Vec<i64> = graph.all_entity_ids().expect("Failed to get IDs");
    let entry = entity_ids[0];

    let result = dominators(&graph, entry).expect("Failed to compute dominators");

    assert_eq!(result.immediate_dominator(entry), None);
    assert_eq!(
        result.immediate_dominator(entity_ids[1]),
        Some(entry),
        "idom(1) should be entry"
    );
    assert_eq!(
        result.immediate_dominator(entity_ids[2]),
        Some(entry),
        "idom(2) should be entry"
    );
    assert_eq!(
        result.immediate_dominator(entity_ids[3]),
        Some(entry),
        "idom(3) should be entry (both paths converge)"
    );
}

#[test]
fn test_dominators_single_node() {
    // Scenario: Single node graph
    // Expected: Node dominates only itself
    let mut graph = Graph::new();

    let entity = GraphEntity {
        id: 0,
        kind: "node".to_string(),
        name: "single".to_string(),
        file_path: Some("single.rs".to_string()),
        data: dm_empty_json(),
    };
    graph
        .insert_entity(&entity)
        .expect("Failed to insert entity");

    let entity_ids = graph.all_entity_ids().expect("Failed to get IDs");
    let entry = entity_ids[0];

    let result = dominators(&graph, entry).expect("Failed to compute dominators");

    // Entry dominates only itself
    assert!(result.dominates(entry, entry));
    assert_eq!(result.immediate_dominator(entry), None);
    assert_eq!(result.dom.len(), 1, "Should have 1 node in dom sets");
}

#[test]
fn test_dominators_empty_graph() {
    // Scenario: Empty graph
    // Expected: Returns error (entry not found)
    let mut graph = Graph::new();

    let result = dominators(&graph, 999);
    assert!(result.is_err(), "Should fail on empty graph");
}

#[test]
fn test_dominators_nonexistent_entry() {
    // Scenario: Entry node doesn't exist
    // Expected: Returns NotFound error
    let mut graph = dm_create_linear_chain();

    let result = dominators(&graph, 999);
    assert!(result.is_err(), "Should fail for nonexistent entry");

    if let Err(SqliteGraphError::NotFound(msg)) = result {
        assert!(msg.contains("999"), "Error should mention node 999");
    } else {
        panic!("Expected NotFound error");
    }
}

#[test]
fn test_dominators_self_dominance() {
    // Scenario: Every node should dominate itself
    // Expected: For all nodes n, n ∈ dom[n]
    let mut graph = dm_create_diamond_cfg();
    let entity_ids: Vec<i64> = graph.all_entity_ids().expect("Failed to get IDs");
    let entry = entity_ids[0];

    let result = dominators(&graph, entry).expect("Failed to compute dominators");

    for &node in &entity_ids {
        assert!(
            result.dominates(node, node),
            "Node {} should dominate itself",
            node
        );
    }
}

#[test]
fn test_dominators_with_progress() {
    // Scenario: Progress variant matches non-progress variant
    // Expected: Same results, progress callback called

    let mut graph = dm_create_diamond_cfg();
    let entity_ids: Vec<i64> = graph.all_entity_ids().expect("Failed to get IDs");
    let entry = entity_ids[0];

    let progress = NoProgress;
    let result_with = dominators_with_progress(&graph, entry, &progress).expect("Failed");
    let result_without = dominators(&graph, entry).expect("Failed");

    // Check dominance sets match
    assert_eq!(
        result_with.dom.len(),
        result_without.dom.len(),
        "Should have same number of nodes"
    );

    for (&node, dom_set) in &result_without.dom {
        assert!(
            result_with.dom.contains_key(&node),
            "Progress result missing node {}",
            node
        );
        assert_eq!(
            result_with.dom.get(&node),
            Some(dom_set),
            "Dominance sets differ for node {}",
            node
        );
    }

    // Check immediate dominators match
    assert_eq!(result_with.idom, result_without.idom);
}

#[test]
fn test_dominators_is_entry() {
    // Scenario: Check is_entry method
    // Expected: Only entry node returns true
    let mut graph = dm_create_diamond_cfg();
    let entity_ids: Vec<i64> = graph.all_entity_ids().expect("Failed to get IDs");
    let entry = entity_ids[0];

    let result = dominators(&graph, entry).expect("Failed to compute dominators");

    assert!(
        result.is_entry(entry),
        "Entry should be identified as entry"
    );
    assert!(
        !result.is_entry(entity_ids[1]),
        "Non-entry should not be entry"
    );
    assert!(
        !result.is_entry(entity_ids[2]),
        "Non-entry should not be entry"
    );
    assert!(
        !result.is_entry(entity_ids[3]),
        "Non-entry should not be entry"
    );
}

#[test]
fn test_dominators_nested_loops() {
    // Scenario: Nested loops CFG
    // Expected: Outer loop header dominates inner loop
    let mut graph = dm_create_nested_loops();
    let entity_ids: Vec<i64> = graph.all_entity_ids().expect("Failed to get IDs");
    let entry = entity_ids[0];

    let result = dominators(&graph, entry).expect("Failed to compute dominators");

    // Entry (0) should dominate all
    for &node in &entity_ids {
        assert!(
            result.dominates(entry, node),
            "Entry should dominate {}",
            node
        );
    }

    // Node 1 (outer loop header) should dominate 1, 2, 3
    assert!(result.dominates(entity_ids[1], entity_ids[1]));
    assert!(result.dominates(entity_ids[1], entity_ids[2]));
    assert!(result.dominates(entity_ids[1], entity_ids[3]));

    // Node 2 (inner loop header) should dominate 2, 3
    assert!(result.dominates(entity_ids[2], entity_ids[2]));
    assert!(result.dominates(entity_ids[2], entity_ids[3]));
}

#[test]
fn test_dominators_multiple_exits() {
    // Scenario: CFG with multiple exits: 0 -> 1 -> 2, 0 -> 1 -> 3
    // Entity IDs: [1, 2, 3, 4] where:
    // - 1 is entry
    // - 2 is common node (on both paths)
    // - 3 and 4 are exits
    // Edges: 1->2, 2->3, 2->4
    let mut graph = dm_create_multiple_exits();
    let entity_ids: Vec<i64> = graph.all_entity_ids().expect("Failed to get IDs");
    let entry = entity_ids[0];

    let result = dominators(&graph, entry).expect("Failed to compute dominators");

    // Entry dominates all nodes (on all paths from entry)
    for &node in &entity_ids {
        assert!(
            result.dominates(entry, node),
            "Entry should dominate {}",
            node
        );
    }

    // Node 2 dominates itself and exits (on paths from entry through 2)
    assert!(
        result.dominates(entity_ids[1], entity_ids[1]),
        "Node 2 should dominate itself"
    );
    assert!(
        result.dominates(entity_ids[1], entity_ids[2]),
        "Node 2 should dominate exit 3"
    );
    assert!(
        result.dominates(entity_ids[1], entity_ids[3]),
        "Node 2 should dominate exit 4"
    );

    // Exits don't dominate each other (different paths)
    assert!(
        !result.dominates(entity_ids[2], entity_ids[3]),
        "Exit 3 should NOT dominate exit 4"
    );
    assert!(
        !result.dominates(entity_ids[3], entity_ids[2]),
        "Exit 4 should NOT dominate exit 3"
    );
}


#[test]
fn test_dominators_missing_entry_message() {
    let graph = dm_create_linear_chain();
    match dominators(&graph, 999) {
        Err(SqliteGraphError::NotFound(msg)) => assert_eq!(msg, "Entry node 999 not found in graph"),
        _ => panic!("expected NotFound"),
    }
}

#[test]
fn test_dominators_long_chain_with_back_edges() {
    // A chain of 200 nodes, each also leading back to the first: every node is dominated
    // by all nodes before it, and its immediate dominator is its predecessor.
    let mut graph = Graph::new();
    for i in 0..200 {
        let entity = GraphEntity {
            id: 0,
            kind: "node".to_string(),
            name: format!("node_{}", i),
            file_path: None,
            data: dm_empty_json(),
        };
        graph.insert_entity(&entity).expect("Failed to insert entity");
    }
    let ids: Vec<i64> = graph.all_entity_ids().expect("Failed to get IDs");
    for i in 0..ids.len() - 1 {
        for (from, to) in [(ids[i], ids[i + 1]), (ids[i + 1], ids[0])] {
            let edge = GraphEdge { id: 0, from_id: from, to_id: to, edge_type: "e".to_string(), data: dm_empty_json() };
            graph.insert_edge(&edge).expect("Failed to insert edge");
        }
    }
    let result = dominators(&graph, ids[0]).expect("dominators succeed");
    assert_eq!(result.immediate_dominator(ids[0]), None);
    for i in 1..ids.len() {
        assert_eq!(result.immediate_dominator(ids[i]), Some(ids[i - 1]));
    }
    assert!(result.dominates(ids[50], ids[199]));
    assert!(!result.dominates(ids[199], ids[50]));
}
