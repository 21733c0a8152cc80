use barq_graphdb::bench_utils::{
    generate_linear_chain, generate_random_nodes, generate_scale_free_edges, generate_tree,
};

#[test]
fn test_generate_random_nodes() {
    let nodes = generate_random_nodes(100, 128);
    assert_eq!(nodes.len(), 100);
    assert_eq!(nodes[0].embedding.len(), 128);
}

#[test]
fn test_generate_scale_free_edges() {
    let edges = generate_scale_free_edges(100, 3);
    assert!(edges.len() > 200); // about 300 edges expected
}

#[test]
fn test_generate_linear_chain() {
    let edges = generate_linear_chain(10);
    assert_eq!(edges.len(), 9);
    assert_eq!(edges[0], (0, 1));
    assert_eq!(edges[8], (8, 9));
}

#[test]
fn test_generate_tree() {
    let edges = generate_tree(2, 2);
    // depth 2, branching 2: 1 + 2 + 4 = 7 nodes, 6 edges
    assert_eq!(edges.len(), 6);
}

#[test]
fn test_generate_random_nodes_in_range() {
    // every random component stays below one unit
    let nodes = generate_random_nodes(5, 4);
    for n in &nodes {
        for c in &n.embedding {
            assert!(0 <= *c && *c < 1_000_000);
        }
    }
}
