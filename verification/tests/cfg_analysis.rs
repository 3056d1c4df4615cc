use ahash::{AHashMap, AHashSet};
use sqlitegraph::control_dependence::{control_dependence_graph, ControlDependenceResult, PostDominatorResult};
use sqlitegraph::dominators::dominators;
use sqlitegraph::error::SqliteGraphError;
use sqlitegraph::graph::{Graph, GraphEdge, GraphEntity};
use sqlitegraph::natural_loops::{
    natural_loops, natural_loops_from_exit, natural_loops_with_progress, NaturalLoop, NaturalLoopsResult,
};
use sqlitegraph::program_slicing::{
    backward_slice, backward_slice_with_progress, forward_slice, forward_slice_with_progress, reachable_from,
    reverse_reachable_from,
};
use sqlitegraph::progress::NoProgress;

/// A graph with nodes `1..=n` and the given edges.
fn cfg_graph(n: usize, edges: &[(i64, i64)]) -> Graph {
    let mut graph = Graph::new();
    for i in 0..n {
        let entity = GraphEntity {
            id: 0,
            kind: "block".to_string(),
            name: format!("block_{}", i),
            file_path: None,
            data: serde_json::Value::Object(serde_json::Map::new()),
        };
        graph.insert_entity(&entity).expect("insert entity");
    }
    for &(from, to) in edges {
        let edge = GraphEdge {
            id: 0,
            from_id: from,
            to_id: to,
            edge_type: "flow".to_string(),
            data: serde_json::Value::Object(serde_json::Map::new()),
        };
        graph.insert_edge(&edge).expect("insert edge");
    }
    graph
}

fn cfg_set(items: &[i64]) -> AHashSet<i64> {
    items.iter().copied().collect()
}

/// The post-dominators of the diamond 1 -> 2, 1 -> 3, 2 -> 4, 3 -> 4 with exit 4.
fn cfg_diamond_post_dominators() -> PostDominatorResult {
    let mut post_dom = AHashMap::new();
    post_dom.insert(1, cfg_set(&[1, 4]));
    post_dom.insert(2, cfg_set(&[2, 4]));
    post_dom.insert(3, cfg_set(&[3, 4]));
    post_dom.insert(4, cfg_set(&[4]));
    let mut ipdom = AHashMap::new();
    ipdom.insert(1, Some(4));
    ipdom.insert(2, Some(4));
    ipdom.insert(3, Some(4));
    ipdom.insert(4, None);
    PostDominatorResult { post_dom, ipdom }
}

fn cfg_diamond() -> Graph {
    cfg_graph(4, &[(1, 2), (1, 3), (2, 4), (3, 4)])
}

#[test]
fn test_cdg_diamond_edges() {
    let graph = cfg_diamond();
    let cdg = control_dependence_graph(&graph, &cfg_diamond_post_dominators()).unwrap();
    assert_eq!(cdg.cdg.len(), 3);
    assert_eq!(cdg.cdg.get(&1), Some(&cfg_set(&[2, 3])));
    assert_eq!(cdg.cdg.get(&2), Some(&cfg_set(&[4])));
    assert_eq!(cdg.cdg.get(&3), Some(&cfg_set(&[4])));
    assert_eq!(cdg.reverse_cdg.len(), 3);
    assert_eq!(cdg.reverse_cdg.get(&2), Some(&cfg_set(&[1])));
    assert_eq!(cdg.reverse_cdg.get(&3), Some(&cfg_set(&[1])));
    assert_eq!(cdg.reverse_cdg.get(&4), Some(&cfg_set(&[2, 3])));
}

#[test]
fn test_cdg_post_dominating_edge_is_not_dependence() {
    // 1 -> 2 with 2 post-dominated by 1 and 1 the immediate post-dominator of 2.
    let graph = cfg_graph(2, &[(1, 2)]);
    let mut post_dom = AHashMap::new();
    post_dom.insert(2, cfg_set(&[1, 2]));
    let mut ipdom = AHashMap::new();
    ipdom.insert(2, Some(1));
    let cdg = control_dependence_graph(&graph, &PostDominatorResult { post_dom, ipdom }).unwrap();
    assert!(cdg.cdg.is_empty());
    assert!(cdg.reverse_cdg.is_empty());
}

#[test]
fn test_cdg_ipdom_edge_is_not_dependence() {
    // The source is the target's immediate post-dominator but not in its set.
    let graph = cfg_graph(2, &[(1, 2)]);
    let post_dom = AHashMap::new();
    let mut ipdom = AHashMap::new();
    ipdom.insert(2, Some(1));
    let cdg = control_dependence_graph(&graph, &PostDominatorResult { post_dom, ipdom }).unwrap();
    assert!(!cdg.controls(1, 2));
}

#[test]
fn test_cdg_queries() {
    let graph = cfg_diamond();
    let cdg = control_dependence_graph(&graph, &cfg_diamond_post_dominators()).unwrap();
    assert!(cdg.controls(1, 2));
    assert!(cdg.controls(1, 3));
    assert!(!cdg.controls(2, 1));
    assert!(!cdg.controls(4, 1));
    assert!(cdg.depends_on(4, 2));
    assert!(cdg.depends_on(2, 1));
    assert!(!cdg.depends_on(1, 2));
    assert_eq!(cdg.controlled_by(1), Some(&cfg_set(&[2, 3])));
    assert_eq!(cdg.controlled_by(4), None);
    assert_eq!(cdg.dependencies_of(4), Some(&cfg_set(&[2, 3])));
    assert_eq!(cdg.dependencies_of(1), None);
    for x in 1..=4 {
        for y in 1..=4 {
            assert_eq!(cdg.controls(x, y), cdg.depends_on(y, x));
        }
    }
}

#[test]
fn test_cdg_is_acyclic_on_diamond() {
    let graph = cfg_diamond();
    let cdg = control_dependence_graph(&graph, &cfg_diamond_post_dominators()).unwrap();
    assert!(cdg.is_acyclic());
}

#[test]
fn test_cdg_is_acyclic_detects_cycle() {
    let mut cdg = AHashMap::new();
    cdg.insert(1, cfg_set(&[2]));
    cdg.insert(2, cfg_set(&[3]));
    cdg.insert(3, cfg_set(&[1]));
    let result = ControlDependenceResult { cdg, reverse_cdg: AHashMap::new() };
    assert!(!result.is_acyclic());
}

#[test]
fn test_cdg_is_acyclic_detects_self_loop() {
    let mut cdg = AHashMap::new();
    cdg.insert(5, cfg_set(&[5]));
    let result = ControlDependenceResult { cdg, reverse_cdg: AHashMap::new() };
    assert!(!result.is_acyclic());
}

#[test]
fn test_cdg_is_acyclic_shared_targets() {
    let mut cdg = AHashMap::new();
    cdg.insert(1, cfg_set(&[2, 3]));
    cdg.insert(2, cfg_set(&[4]));
    cdg.insert(3, cfg_set(&[4]));
    cdg.insert(4, cfg_set(&[]));
    let result = ControlDependenceResult { cdg, reverse_cdg: AHashMap::new() };
    assert!(result.is_acyclic());
}

#[test]
fn test_cdg_empty_graph() {
    let graph = Graph::new();
    let post = PostDominatorResult { post_dom: AHashMap::new(), ipdom: AHashMap::new() };
    let cdg = control_dependence_graph(&graph, &post).unwrap();
    assert!(cdg.cdg.is_empty());
    assert!(cdg.reverse_cdg.is_empty());
    assert!(cdg.is_acyclic());
}

#[test]
fn test_reachable_sets() {
    let graph = cfg_graph(5, &[(1, 2), (2, 3), (4, 3)]);
    assert_eq!(reachable_from(&graph, 1).unwrap(), cfg_set(&[1, 2, 3]));
    assert_eq!(reachable_from(&graph, 3).unwrap(), cfg_set(&[3]));
    assert_eq!(reverse_reachable_from(&graph, 3).unwrap(), cfg_set(&[1, 2, 3, 4]));
    assert_eq!(reverse_reachable_from(&graph, 5).unwrap(), cfg_set(&[5]));
    assert_eq!(reverse_reachable_from(&graph, 99).unwrap(), cfg_set(&[99]));
}

#[test]
fn test_backward_slice_diamond_merge() {
    let graph = cfg_diamond();
    let cdg = control_dependence_graph(&graph, &cfg_diamond_post_dominators()).unwrap();
    let slice = backward_slice(&graph, &cdg, 4).unwrap();
    assert_eq!(slice.criterion, 4);
    assert_eq!(slice.control_nodes, cfg_set(&[1, 2, 3]));
    assert_eq!(slice.data_nodes, cfg_set(&[1, 2, 3, 4]));
    assert_eq!(slice.slice_nodes, cfg_set(&[1, 2, 3, 4]));
    assert_eq!(slice.size, 4);
    assert_eq!(slice.sorted_nodes(), vec![1, 2, 3, 4]);
    assert_eq!(slice.sorted_control_nodes(), vec![1, 2, 3]);
    assert_eq!(slice.sorted_data_nodes(), vec![1, 2, 3, 4]);
    assert!(slice.contains(4));
    let union: AHashSet<i64> = slice.control_nodes.union(&slice.data_nodes).copied().collect();
    assert_eq!(slice.slice_nodes, union);
}

#[test]
fn test_backward_slice_branch_node() {
    let graph = cfg_diamond();
    let cdg = control_dependence_graph(&graph, &cfg_diamond_post_dominators()).unwrap();
    let slice = backward_slice_with_progress(&graph, &cdg, 2, &NoProgress).unwrap();
    assert_eq!(slice.control_nodes, cfg_set(&[1]));
    assert_eq!(slice.data_nodes, cfg_set(&[1, 2]));
    assert_eq!(slice.size, 2);
}

#[test]
fn test_forward_slice_diamond_branch() {
    let graph = cfg_diamond();
    let cdg = control_dependence_graph(&graph, &cfg_diamond_post_dominators()).unwrap();
    let slice = forward_slice(&graph, &cdg, 1).unwrap();
    assert_eq!(slice.criterion, 1);
    assert_eq!(slice.control_nodes, cfg_set(&[2, 3, 4]));
    assert_eq!(slice.data_nodes, cfg_set(&[1, 2, 3, 4]));
    assert_eq!(slice.size, 4);
    let from_exit = forward_slice_with_progress(&graph, &cdg, 4, &NoProgress).unwrap();
    assert!(from_exit.control_nodes.is_empty());
    assert_eq!(from_exit.slice_nodes, cfg_set(&[4]));
    assert_eq!(from_exit.size, 1);
}

#[test]
fn test_slice_of_missing_node() {
    let graph = Graph::new();
    let cdg = ControlDependenceResult { cdg: AHashMap::new(), reverse_cdg: AHashMap::new() };
    let slice = backward_slice(&graph, &cdg, 999).unwrap();
    assert_eq!(slice.size, 1);
    assert_eq!(slice.criterion, 999);
    assert_eq!(slice.sorted_nodes(), vec![999]);
}

#[test]
fn test_slice_control_closure_is_transitive() {
    let graph = cfg_graph(4, &[]);
    let mut reverse_cdg = AHashMap::new();
    reverse_cdg.insert(4, cfg_set(&[3]));
    reverse_cdg.insert(3, cfg_set(&[2]));
    reverse_cdg.insert(2, cfg_set(&[4]));
    let cdg = ControlDependenceResult { cdg: AHashMap::new(), reverse_cdg };
    let slice = backward_slice(&graph, &cdg, 4).unwrap();
    assert_eq!(slice.control_nodes, cfg_set(&[2, 3]));
    assert_eq!(slice.data_nodes, cfg_set(&[4]));
    assert_eq!(slice.size, 3);
}

#[test]
fn test_natural_loops_from_exit_single_entry() {
    let graph = cfg_graph(4, &[(1, 2), (2, 3), (3, 2), (2, 4)]);
    let loops = natural_loops_from_exit(&graph).unwrap();
    assert_eq!(loops.count(), 1);
    let l = loops.loop_with_header(2).unwrap();
    assert_eq!(l.back_edges, vec![(3, 2)]);
    assert_eq!(l.body, cfg_set(&[3]));
    assert_eq!(l.size(), 2);
    assert_eq!(l.body_size(), 1);
    assert_eq!(l.back_edge_count(), 1);
    assert_eq!(l.all_nodes(), cfg_set(&[2, 3]));
}

#[test]
fn test_natural_loops_from_exit_no_entry() {
    let graph = cfg_graph(2, &[(1, 2), (2, 1)]);
    match natural_loops_from_exit(&graph) {
        Err(SqliteGraphError::Query(msg)) => assert_eq!(
            msg,
            "Cannot compute natural loops: graph has no entry nodes (all nodes have incoming edges)"
        ),
        _ => panic!("expected a Query error"),
    }
}

#[test]
fn test_natural_loops_from_exit_two_entries() {
    let graph = cfg_graph(3, &[(1, 3), (2, 3)]);
    match natural_loops_from_exit(&graph) {
        Err(SqliteGraphError::Query(msg)) => {
            assert_eq!(msg, "Cannot compute natural loops: graph has 2 entry nodes (expected 1)")
        }
        _ => panic!("expected a Query error"),
    }
}

#[test]
fn test_natural_loops_from_exit_empty_graph() {
    let graph = Graph::new();
    let loops = natural_loops_from_exit(&graph).unwrap();
    assert_eq!(loops.count(), 0);
}

#[test]
fn test_natural_loop_body_reaches_tail() {
    // The body holds every node that reaches the tail without passing the header; a
    // node the loop only leads to stays out.
    let graph = cfg_graph(4, &[(1, 2), (2, 3), (3, 2), (3, 4)]);
    let dom = dominators(&graph, 1).unwrap();
    let loops = natural_loops(&graph, &dom).unwrap();
    let l = loops.loop_with_header(2).unwrap();
    assert_eq!(l.body, cfg_set(&[3]));
    assert!(!l.body.contains(&2));
    assert!(!l.body.contains(&4));
}

#[test]
fn test_natural_loop_body_cycle_through_header() {
    // Edges 1 -> 2 -> 3 -> 1: header 1, back edge (3, 1), body {2, 3}.
    let graph = cfg_graph(3, &[(1, 2), (2, 3), (3, 1)]);
    let dom = dominators(&graph, 1).unwrap();
    let loops = natural_loops(&graph, &dom).unwrap();
    assert_eq!(loops.count(), 1);
    let l = loops.loop_with_header(1).unwrap();
    assert_eq!(l.back_edges, vec![(3, 1)]);
    assert_eq!(l.body, cfg_set(&[2, 3]));
}

#[test]
fn test_natural_loop_self_loop_is_skipped() {
    let graph = cfg_graph(2, &[(1, 2), (2, 2)]);
    let dom = dominators(&graph, 1).unwrap();
    let loops = natural_loops_with_progress(&graph, &dom, &NoProgress).unwrap();
    assert_eq!(loops.count(), 0);
}

#[test]
fn test_natural_loops_nesting_queries() {
    // Back edges 4 -> 3 and 4 -> 2; the body of each loop is what reaches its tail
    // without passing its header, so the loop of 3 lies inside the loop of 2.
    let graph = cfg_graph(5, &[(1, 2), (2, 3), (3, 4), (4, 3), (4, 2), (2, 5)]);
    let dom = dominators(&graph, 1).unwrap();
    let loops = natural_loops(&graph, &dom).unwrap();
    assert_eq!(loops.count(), 2);
    let outer = loops.loop_with_header(2).unwrap();
    let inner = loops.loop_with_header(3).unwrap();
    assert_eq!(outer.body, cfg_set(&[3, 4]));
    assert_eq!(inner.body, cfg_set(&[4]));
    assert!(inner.is_nested_in(outer));
    assert!(!outer.is_nested_in(inner));
    assert_eq!(inner.nesting_depth_in(outer), 1);
    assert_eq!(outer.nesting_depth_in(inner), 0);
    assert_eq!(loops.nesting_depth(4), 2);
    assert_eq!(loops.nesting_depth(3), 2);
    assert_eq!(loops.nesting_depth(2), 1);
    assert_eq!(loops.nesting_depth(5), 0);
    assert_eq!(loops.nesting_depth(1), 0);
    assert_eq!(loops.loops_at_depth(2).len(), 1);
    assert_eq!(loops.loops_at_depth(1).len(), 1);
    let tree = loops.nesting_tree();
    assert_eq!(tree.len(), 1);
    assert_eq!(tree.get(&2), Some(&vec![3]));
    assert_eq!(tree.get(&3), None);
    let mut pairs: Vec<i64> = loops
        .iter()
        .into_iter()
        .map(|(h, l)| {
            assert_eq!(h, l.header);
            h
        })
        .collect();
    pairs.sort();
    assert_eq!(pairs, vec![2, 3]);
    let mut headers = loops.headers();
    headers.sort();
    assert_eq!(headers, vec![2, 3]);
}

#[test]
fn test_natural_loops_nesting_tree_direct_parent_only() {
    // Three loops whose bodies are built by hand: 30 inside 20 inside 10.
    let mut map = AHashMap::new();
    map.insert(10, NaturalLoop { header: 10, back_edges: vec![], body: cfg_set(&[20, 30, 31]) });
    map.insert(20, NaturalLoop { header: 20, back_edges: vec![], body: cfg_set(&[30, 31]) });
    map.insert(30, NaturalLoop { header: 30, back_edges: vec![], body: cfg_set(&[31]) });
    let loops = NaturalLoopsResult { loops: map };
    let tree = loops.nesting_tree();
    assert_eq!(tree.len(), 2);
    assert_eq!(tree.get(&10), Some(&vec![20]));
    assert_eq!(tree.get(&20), Some(&vec![30]));
    assert_eq!(loops.nesting_depth(31), 3);
    assert_eq!(loops.nesting_depth(30), 3);
    assert_eq!(loops.nesting_depth(10), 1);
    assert_eq!(loops.loops_at_depth(3).len(), 1);
    assert_eq!(loops.loops_at_depth(3)[0].header, 30);
    assert!(loops.is_loop_header(20));
    assert!(!loops.is_loop_header(31));
}
