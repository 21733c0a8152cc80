use barq_graphdb::graph::GraphIndex;

#[test]
fn test_new_graph_is_empty() {
    let graph = GraphIndex::new();
    assert_eq!(graph.node_count(), 0);
    assert_eq!(graph.edge_count(), 0);
}

#[test]
fn test_add_edge_creates_nodes() {
    let mut graph = GraphIndex::new();
    graph.add_edge(1, 2);

    assert!(graph.contains_node(1));
    assert!(graph.contains_node(2));
    assert_eq!(graph.node_count(), 2);
    assert_eq!(graph.edge_count(), 1);
}

#[test]
fn test_neighbors() {
    let mut graph = GraphIndex::new();
    graph.add_edge(1, 2);
    graph.add_edge(1, 3);
    graph.add_edge(1, 4);

    let neighbors = graph.neighbors(1).unwrap();
    assert_eq!(neighbors.as_slice(), &[2, 3, 4]);

    // node with no outgoing edges
    let neighbors2 = graph.neighbors(2).unwrap();
    assert!(neighbors2.is_empty());

    // unknown node
    assert!(graph.neighbors(999).is_none());
}

#[test]
fn test_bfs_simple_chain() {
    // 1 -> 2 -> 3 -> 4 -> 5
    let mut graph = GraphIndex::new();
    graph.add_edge(1, 2);
    graph.add_edge(2, 3);
    graph.add_edge(3, 4);
    graph.add_edge(4, 5);

    // 0 hops: just the start node
    let result = graph.bfs_hops(1, 0);
    assert_eq!(result, vec![1]);

    // 1 hop: 1 and 2
    let result = graph.bfs_hops(1, 1);
    assert_eq!(result, vec![1, 2]);

    // 2 hops: 1, 2, 3
    let result = graph.bfs_hops(1, 2);
    assert_eq!(result, vec![1, 2, 3]);

    // all hops
    let result = graph.bfs_hops(1, 10);
    assert_eq!(result, vec![1, 2, 3, 4, 5]);
}

#[test]
fn test_bfs_tree_structure() {
    //     1
    //    / \
    //   2   3
    //  / \
    // 4   5
    let mut graph = GraphIndex::new();
    graph.add_edge(1, 2);
    graph.add_edge(1, 3);
    graph.add_edge(2, 4);
    graph.add_edge(2, 5);

    let result = graph.bfs_hops(1, 1);
    assert_eq!(result.len(), 3);
    assert!(result.contains(&1));
    assert!(result.contains(&2));
    assert!(result.contains(&3));

    let result = graph.bfs_hops(1, 2);
    assert_eq!(result.len(), 5);
}

#[test]
fn test_bfs_with_cycle() {
    // 1 -> 2 -> 3 -> 1 (cycle)
    let mut graph = GraphIndex::new();
    graph.add_edge(1, 2);
    graph.add_edge(2, 3);
    graph.add_edge(3, 1);

    // must not loop forever
    let result = graph.bfs_hops(1, 10);
    assert_eq!(result.len(), 3);
    assert!(result.contains(&1));
    assert!(result.contains(&2));
    assert!(result.contains(&3));
}

#[test]
fn test_bfs_nonexistent_start() {
    let graph = GraphIndex::new();
    let result = graph.bfs_hops(999, 5);
    assert!(result.is_empty());
}

#[test]
fn test_bfs_isolated_node() {
    let mut graph = GraphIndex::new();
    graph.add_edge(1, 1); // self-loop, but still creates node 1

    let result = graph.bfs_hops(1, 5);
    assert_eq!(result, vec![1]);
}
