#![allow(unused_imports, unused_mut, unused_variables, dead_code)]
use ahash::{AHashMap, AHashSet};
use sqlitegraph::graph_diff::{compute_edge_delta, compute_node_delta, RefactorValidation};

// Test 27: Verify is_clean() method
#[test]
fn test_refactor_validation_is_clean() {
    let validation = RefactorValidation {
        is_safe: true,
        breaking_changes: vec![],
        warnings: vec![],
    };

    assert!(validation.is_clean());
}

// Test 28: Verify is_clean() with warnings
#[test]
fn test_refactor_validation_is_clean_with_warnings() {
    let validation = RefactorValidation {
        is_safe: true,
        breaking_changes: vec![],
        warnings: vec!["Some warning".to_string()],
    };

    assert!(!validation.is_clean());
}

// Test 29: Verify summary() method
#[test]
fn test_refactor_validation_summary() {
    let validation = RefactorValidation {
        is_safe: true,
        breaking_changes: vec![],
        warnings: vec![],
    };

    let summary = validation.summary();
    assert!(summary.contains("safe"));
}

// Test 30: Verify summary() with warnings
#[test]
fn test_refactor_validation_summary_with_warnings() {
    let validation = RefactorValidation {
        is_safe: true,
        breaking_changes: vec![],
        warnings: vec!["Warning 1".to_string(), "Warning 2".to_string()],
    };

    let summary = validation.summary();
    assert!(summary.contains("safe"));
    assert!(summary.contains("Warning 1") || summary.contains("Warning 2"));
}

// Test 31: Verify summary() with breaking changes
#[test]
fn test_refactor_validation_summary_with_breaking() {
    let validation = RefactorValidation {
        is_safe: false,
        breaking_changes: vec!["Breaking change".to_string()],
        warnings: vec!["Warning".to_string()],
    };

    let summary = validation.summary();
    assert!(summary.contains("Breaking change") || summary.contains("Warning"));
}

fn gd_graph(n: usize, edges: &[(i64, i64)]) -> sqlitegraph::graph::Graph {
    let mut graph = sqlitegraph::graph::Graph::new();
    for i in 0..n {
        let entity = sqlitegraph::graph::GraphEntity {
            id: 0,
            kind: "node".to_string(),
            name: format!("node_{}", i),
            file_path: None,
            data: serde_json::Value::Null,
        };
        graph.insert_entity(&entity).unwrap();
    }
    for &(from, to) in edges {
        let edge = sqlitegraph::graph::GraphEdge {
            id: 0,
            from_id: from,
            to_id: to,
            edge_type: "edge".to_string(),
            data: serde_json::Value::Null,
        };
        graph.insert_edge(&edge).unwrap();
    }
    graph
}

#[test]
fn test_node_delta_by_id() {
    let g1 = gd_graph(3, &[]);
    let g2 = gd_graph(5, &[]);
    let delta = compute_node_delta(&g1, &g2).unwrap();
    let added: ahash::AHashSet<i64> = [4, 5].into_iter().collect();
    assert_eq!(delta.nodes_added, added);
    assert!(delta.nodes_removed.is_empty());
    let back = compute_node_delta(&g2, &g1).unwrap();
    assert!(back.nodes_added.is_empty());
    assert_eq!(back.nodes_removed, added);
}

#[test]
fn test_edge_delta_pairs() {
    let g1 = gd_graph(4, &[(1, 2), (2, 3), (2, 3)]);
    let g2 = gd_graph(4, &[(1, 2), (3, 4), (1, 3)]);
    let delta = compute_edge_delta(&g1, &g2).unwrap();
    let mut added = delta.edges_added.clone();
    added.sort();
    assert_eq!(added, vec![(1, 3), (3, 4)]);
    assert_eq!(delta.edges_removed, vec![(2, 3)]);
    let same = compute_edge_delta(&g1, &g1).unwrap();
    assert!(same.edges_added.is_empty());
    assert!(same.edges_removed.is_empty());
}
