#![allow(unused_imports, unused_mut, unused_variables, dead_code)]
use ahash::{AHashMap, AHashSet};
use sqlitegraph::graph::{Graph, GraphEdge, GraphEntity};
use sqlitegraph::traversal::{bfs_traversal, dfs_traversal, k_hop_neighbors};

fn tv_empty_json() -> serde_json::Value {
    serde_json::Value::Object(serde_json::Map::new())
}

fn tv_json_field(key: &str, value: i64) -> serde_json::Value {
    let mut map = serde_json::Map::new();
    map.insert(key.to_string(), serde_json::Value::from(value));
    serde_json::Value::Object(map)
}



fn tv_build_tree(backend: &mut Graph) -> (i64, Vec<i64>) {
    let root = backend.insert_entity(&GraphEntity {
                id: 0,
        kind: "Node".to_string(),
        name: "root".to_string(),
        file_path: None,
        data: tv_empty_json(),
    }).unwrap();

    let mut children = Vec::new();
    for i in 0..3 {
        let child = backend.insert_entity(&GraphEntity {
                id: 0,
            kind: "Node".to_string(),
            name: format!("child_{}", i),
            file_path: None,
            data: tv_empty_json(),
        }).unwrap();
        
        backend.insert_edge(&GraphEdge {
                id: 0,
            from_id: root,
            to_id: child,
            edge_type: "links".to_string(),
            data: tv_empty_json(),
        }).unwrap();
        
        children.push(child);
    }

    (root, children)
}

#[test]
fn test_bfs_traversal() {
    let mut backend = Graph::new();
    let (root, children) = tv_build_tree(&mut backend);

    let result = bfs_traversal(&backend, root).unwrap();
    
    assert_eq!(result.len(), 3);
    for child in &children {
        assert!(result.contains(child));
    }
}

#[test]
fn test_dfs_traversal() {
    let mut backend = Graph::new();
    let (root, children) = tv_build_tree(&mut backend);

    let result = dfs_traversal(&backend, root).unwrap();
    
    assert_eq!(result.len(), 3);
    for child in &children {
        assert!(result.contains(child));
    }
}

#[test]
fn test_k_hop_neighbors() {
    let mut backend = Graph::new();
    let (root, children) = tv_build_tree(&mut backend);

    // 1-hop should return all children
    let hop1 = k_hop_neighbors(&backend, root, 1).unwrap();
    assert_eq!(hop1.len(), 3);
    for child in &children {
        assert!(hop1.contains(child));
    }
}

#[test]
fn test_traversal_isolated_node() {
    let mut backend = Graph::new();
    let isolated = backend.insert_entity(&GraphEntity {
                id: 0,
        kind: "Node".to_string(),
        name: "isolated".to_string(),
        file_path: None,
        data: tv_empty_json(),
    }).unwrap();

    let bfs_result = bfs_traversal(&backend, isolated).unwrap();
    assert!(bfs_result.is_empty());

    let dfs_result = dfs_traversal(&backend, isolated).unwrap();
    assert!(dfs_result.is_empty());

    let hop_result = k_hop_neighbors(&backend, isolated, 1).unwrap();
    assert!(hop_result.is_empty());
}

