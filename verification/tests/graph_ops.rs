#![allow(unused_imports, unused_mut, unused_variables, dead_code)]
use ahash::{AHashMap, AHashSet};
use sqlitegraph::graph::{Graph, GraphEdge, GraphEntity};
use sqlitegraph::graph_ops::{bfs, shortest_path, strongly_connected_components, topological_sort};

fn go_empty_json() -> serde_json::Value {
    serde_json::Value::Object(serde_json::Map::new())
}

fn go_json_field(key: &str, value: i64) -> serde_json::Value {
    let mut map = serde_json::Map::new();
    map.insert(key.to_string(), serde_json::Value::from(value));
    serde_json::Value::Object(map)
}



#[test]
fn test_scc_cycle() {
    let mut backend = Graph::new();

    // Create cycle: 1 -> 2 -> 3 -> 1
    let mut nodes = Vec::new();
    for _ in 0..3 {
        let id = backend
            .insert_entity(&GraphEntity {
                id: 0,
                kind: "Node".to_string(),
                name: "node".to_string(),
                file_path: None,
                data: go_empty_json(),
            })
            .unwrap();
        nodes.push(id);
    }

    for i in 0..nodes.len() {
        let next = (i + 1) % nodes.len();
        backend
            .insert_edge(&GraphEdge {
                id: 0,
                from_id: nodes[i],
                to_id: nodes[next],
                edge_type: "links".to_string(),
                data: go_empty_json(),
            })
            .unwrap();
    }

    let scc = strongly_connected_components(&backend).unwrap();

    assert_eq!(scc.components.len(), 1);
    assert_eq!(scc.components[0].len(), 3);
}

#[test]
fn test_scc_chain() {
    let mut backend = Graph::new();

    // Create chain: 1 -> 2 -> 3
    let mut nodes = Vec::new();
    for _ in 0..3 {
        let id = backend
            .insert_entity(&GraphEntity {
                id: 0,
                kind: "Node".to_string(),
                name: "node".to_string(),
                file_path: None,
                data: go_empty_json(),
            })
            .unwrap();
        nodes.push(id);
    }

    for i in 0..nodes.len() - 1 {
        backend
            .insert_edge(&GraphEdge {
                id: 0,
                from_id: nodes[i],
                to_id: nodes[i + 1],
                edge_type: "links".to_string(),
                data: go_empty_json(),
            })
            .unwrap();
    }

    let scc = strongly_connected_components(&backend).unwrap();

    // Chain has no cycles, so each node is its own SCC
    assert_eq!(scc.components.len(), 3);
}

#[test]
fn test_shortest_path_found() {
    let mut backend = Graph::new();

    let mut nodes = Vec::new();
    for _ in 0..4 {
        let id = backend
            .insert_entity(&GraphEntity {
                id: 0,
                kind: "Node".to_string(),
                name: "node".to_string(),
                file_path: None,
                data: go_empty_json(),
            })
            .unwrap();
        nodes.push(id);
    }

    // Chain: 1 -> 2 -> 3 -> 4
    for i in 0..nodes.len() - 1 {
        backend
            .insert_edge(&GraphEdge {
                id: 0,
                from_id: nodes[i],
                to_id: nodes[i + 1],
                edge_type: "links".to_string(),
                data: go_empty_json(),
            })
            .unwrap();
    }

    let path = shortest_path(&backend, nodes[0], nodes[3]).unwrap();

    assert!(path.is_some());
    let path = path.unwrap();
    assert_eq!(path.len(), 4);
    assert_eq!(path[0], nodes[0]);
    assert_eq!(path[3], nodes[3]);
}

#[test]
fn test_shortest_path_not_found() {
    let mut backend = Graph::new();

    let a = backend
        .insert_entity(&GraphEntity {
                id: 0,
            kind: "Node".to_string(),
            name: "a".to_string(),
            file_path: None,
            data: go_empty_json(),
        })
        .unwrap();

    let b = backend
        .insert_entity(&GraphEntity {
                id: 0,
            kind: "Node".to_string(),
            name: "b".to_string(),
            file_path: None,
            data: go_empty_json(),
        })
        .unwrap();

    let path = shortest_path(&backend, a, b).unwrap();

    assert!(path.is_none());
}

#[test]
fn test_topological_sort_dag() {
    let mut backend = Graph::new();

    let mut nodes = Vec::new();
    for _ in 0..3 {
        let id = backend
            .insert_entity(&GraphEntity {
                id: 0,
                kind: "Node".to_string(),
                name: "node".to_string(),
                file_path: None,
                data: go_empty_json(),
            })
            .unwrap();
        nodes.push(id);
    }

    // DAG: 1 -> 2, 1 -> 3
    backend
        .insert_edge(&GraphEdge {
                id: 0,
            from_id: nodes[0],
            to_id: nodes[1],
            edge_type: "links".to_string(),
            data: go_empty_json(),
        })
        .unwrap();

    backend
        .insert_edge(&GraphEdge {
                id: 0,
            from_id: nodes[0],
            to_id: nodes[2],
            edge_type: "links".to_string(),
            data: go_empty_json(),
        })
        .unwrap();

    let sorted = topological_sort(&backend).unwrap();

    assert_eq!(sorted.len(), 3);
    // Node 0 should come first (no incoming edges)
    assert_eq!(sorted[0], nodes[0]);
}

#[test]
fn test_topological_sort_cycle_fails() {
    let mut backend = Graph::new();

    let mut nodes = Vec::new();
    for _ in 0..3 {
        let id = backend
            .insert_entity(&GraphEntity {
                id: 0,
                kind: "Node".to_string(),
                name: "node".to_string(),
                file_path: None,
                data: go_empty_json(),
            })
            .unwrap();
        nodes.push(id);
    }

    // Cycle: 1 -> 2 -> 3 -> 1
    for i in 0..nodes.len() {
        let next = (i + 1) % nodes.len();
        backend
            .insert_edge(&GraphEdge {
                id: 0,
                from_id: nodes[i],
                to_id: nodes[next],
                edge_type: "links".to_string(),
                data: go_empty_json(),
            })
            .unwrap();
    }

    let result = topological_sort(&backend);

    assert!(result.is_err());
}

#[test]
fn test_bfs_depth() {
    let mut backend = Graph::new();

    // Binary tree: root -> left, right
    let root = backend
        .insert_entity(&GraphEntity {
                id: 0,
            kind: "Node".to_string(),
            name: "root".to_string(),
            file_path: None,
            data: go_empty_json(),
        })
        .unwrap();

    let left = backend
        .insert_entity(&GraphEntity {
                id: 0,
            kind: "Node".to_string(),
            name: "left".to_string(),
            file_path: None,
            data: go_empty_json(),
        })
        .unwrap();

    let right = backend
        .insert_entity(&GraphEntity {
                id: 0,
            kind: "Node".to_string(),
            name: "right".to_string(),
            file_path: None,
            data: go_empty_json(),
        })
        .unwrap();

    backend
        .insert_edge(&GraphEdge {
                id: 0,
            from_id: root,
            to_id: left,
            edge_type: "links".to_string(),
            data: go_empty_json(),
        })
        .unwrap();

    backend
        .insert_edge(&GraphEdge {
                id: 0,
            from_id: root,
            to_id: right,
            edge_type: "links".to_string(),
            data: go_empty_json(),
        })
        .unwrap();

    let depth1 = bfs(&backend, root, 1).unwrap();

    assert_eq!(depth1.len(), 2);
    assert!(depth1.contains(&left));
    assert!(depth1.contains(&right));
}

