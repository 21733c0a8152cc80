//! Hybrid query tests, fusing fixed-point vector similarity with graph
//! distance.

use barq_graphdb::hybrid::HybridParams;
use barq_graphdb::storage::{BarqGraphDb, DbOptions};
use barq_graphdb::Node;

const S: i64 = 1_000_000;
const W: u64 = 1_000_000;
const SCORE_ONE: u64 = 1_000_000_000_000;

fn opts() -> DbOptions {
    DbOptions::new("./it_db".to_string())
}

#[test]
fn test_phase3_workflow() {
    let mut db = BarqGraphDb::open(opts(), None).unwrap();

    // graph:
    //     1 --> 2 --> 3
    //     |
    //     v
    //     4 --> 5
    for i in 1..=5 {
        db.append_node(Node::new(i, format!("node_{}", i))).unwrap();
    }
    db.add_edge(1, 2, "CONNECTS").unwrap();
    db.add_edge(2, 3, "CONNECTS").unwrap();
    db.add_edge(1, 4, "CONNECTS").unwrap();
    db.add_edge(4, 5, "CONNECTS").unwrap();

    // embeddings in 2-D space; the query sits at the origin
    db.set_embedding(1, vec![0, 0]).unwrap();
    db.set_embedding(2, vec![1 * S, 0]).unwrap();
    db.set_embedding(3, vec![2 * S, 0]).unwrap();
    db.set_embedding(4, vec![0, S / 2]).unwrap();
    db.set_embedding(5, vec![0, 1 * S]).unwrap();

    // equal weights
    let params = HybridParams::new(W / 2, W / 2);
    let results = db.hybrid_query(&vec![0, 0], 1, 2, 5, params);

    // nodes within 2 hops: 1, 2, 3, 4, 5
    assert_eq!(results.len(), 5);

    // node 1 first: distance 0 in both senses gives the full score
    assert_eq!(results[0].id, 1);
    assert_eq!(results[0].score, SCORE_ONE);

    // paths come along
    assert_eq!(results[0].path, vec![1]);
    for result in &results {
        assert!(!result.path.is_empty());
        assert_eq!(*result.path.first().unwrap(), 1);
    }
}

#[test]
fn test_hybrid_alpha_only() {
    let mut db = BarqGraphDb::open(opts(), None).unwrap();

    // linear graph: 1 -> 2 -> 3
    for i in 1..=3 {
        db.append_node(Node::new(i, format!("node_{}", i))).unwrap();
    }
    db.add_edge(1, 2, "NEXT").unwrap();
    db.add_edge(2, 3, "NEXT").unwrap();

    // node 3 is closest to the query, but farthest in the graph
    db.set_embedding(1, vec![1 * S]).unwrap();
    db.set_embedding(2, vec![S / 2]).unwrap();
    db.set_embedding(3, vec![0]).unwrap();

    // only the vector distance matters
    let params = HybridParams::new(W, 0);
    let results = db.hybrid_query(&vec![0], 1, 10, 3, params);

    assert_eq!(results[0].id, 3);
    assert_eq!(results[1].id, 2);
    assert_eq!(results[2].id, 1);
}

#[test]
fn test_hybrid_beta_only() {
    let mut db = BarqGraphDb::open(opts(), None).unwrap();

    // linear graph: 1 -> 2 -> 3
    for i in 1..=3 {
        db.append_node(Node::new(i, format!("node_{}", i))).unwrap();
    }
    db.add_edge(1, 2, "NEXT").unwrap();
    db.add_edge(2, 3, "NEXT").unwrap();

    db.set_embedding(1, vec![1 * S]).unwrap();
    db.set_embedding(2, vec![S / 2]).unwrap();
    db.set_embedding(3, vec![0]).unwrap();

    // only the graph distance matters
    let params = HybridParams::new(0, W);
    let results = db.hybrid_query(&vec![0], 1, 10, 3, params);

    assert_eq!(results[0].id, 1);
    assert_eq!(results[1].id, 2);
    assert_eq!(results[2].id, 3);
}

#[test]
fn test_hybrid_max_hops() {
    let mut db = BarqGraphDb::open(opts(), None).unwrap();

    // long chain: 1 -> 2 -> 3 -> 4 -> 5
    for i in 1..=5 {
        db.append_node(Node::new(i, format!("node_{}", i))).unwrap();
        db.set_embedding(i, vec![i as i64 * S]).unwrap();
    }
    for i in 1..=4 {
        db.add_edge(i, i + 1, "NEXT").unwrap();
    }

    let params = HybridParams::default();

    // one hop: nodes 1 and 2
    let results = db.hybrid_query(&vec![0], 1, 1, 10, params);
    assert_eq!(results.len(), 2);

    // two hops: nodes 1, 2 and 3
    let results = db.hybrid_query(&vec![0], 1, 2, 10, params);
    assert_eq!(results.len(), 3);

    // zero hops: only the start node
    let results = db.hybrid_query(&vec![0], 1, 0, 10, params);
    assert_eq!(results.len(), 1);
    assert_eq!(results[0].id, 1);
}

#[test]
fn test_hybrid_k_limit() {
    let mut db = BarqGraphDb::open(opts(), None).unwrap();

    // ten connected nodes
    for i in 1..=10 {
        db.append_node(Node::new(i, format!("node_{}", i))).unwrap();
        db.set_embedding(i, vec![i as i64 * S]).unwrap();
        if i > 1 {
            db.add_edge(1, i, "CONNECTS").unwrap();
        }
    }

    let params = HybridParams::default();

    // only the top 3
    let results = db.hybrid_query(&vec![0], 1, 1, 3, params);
    assert_eq!(results.len(), 3);

    // k large enough for all 10
    let results = db.hybrid_query(&vec![0], 1, 1, 100, params);
    assert_eq!(results.len(), 10);
}

#[test]
fn test_hybrid_empty() {
    let db = BarqGraphDb::open(opts(), None).unwrap();

    let params = HybridParams::default();

    // unknown start node
    let results = db.hybrid_query(&vec![0], 999, 10, 5, params);
    assert!(results.is_empty());
}

#[test]
fn test_hybrid_missing_embeddings() {
    let mut db = BarqGraphDb::open(opts(), None).unwrap();

    // three nodes, only two carry embeddings
    for i in 1..=3 {
        db.append_node(Node::new(i, format!("node_{}", i))).unwrap();
    }
    db.add_edge(1, 2, "NEXT").unwrap();
    db.add_edge(2, 3, "NEXT").unwrap();

    db.set_embedding(1, vec![0]).unwrap();
    // node 2 has no embedding
    db.set_embedding(3, vec![2 * S]).unwrap();

    let params = HybridParams::default();
    let results = db.hybrid_query(&vec![0], 1, 10, 10, params);

    // only nodes 1 and 3 appear
    assert_eq!(results.len(), 2);
    let ids: Vec<_> = results.iter().map(|r| r.id).collect();
    assert!(ids.contains(&1));
    assert!(ids.contains(&3));
    assert!(!ids.contains(&2));
}

#[test]
fn test_hybrid_paths() {
    let mut db = BarqGraphDb::open(opts(), None).unwrap();

    // graph: 1 -> 2 -> 3 -> 4
    for i in 1..=4 {
        db.append_node(Node::new(i, format!("node_{}", i))).unwrap();
        db.set_embedding(i, vec![0]).unwrap();
    }
    db.add_edge(1, 2, "NEXT").unwrap();
    db.add_edge(2, 3, "NEXT").unwrap();
    db.add_edge(3, 4, "NEXT").unwrap();

    let params = HybridParams::default();
    let results = db.hybrid_query(&vec![0], 1, 10, 10, params);

    // node 4 keeps its full breadth-first path
    let node4_result = results.iter().find(|r| r.id == 4).unwrap();
    assert_eq!(node4_result.path, vec![1, 2, 3, 4]);
    assert_eq!(node4_result.graph_distance, 3);

    // node 1's path is just itself
    let node1_result = results.iter().find(|r| r.id == 1).unwrap();
    assert_eq!(node1_result.path, vec![1]);
    assert_eq!(node1_result.graph_distance, 0);
}

#[test]
fn test_hybrid_mixing_chain() {
    // chain 1 -> 2 -> 3 with embeddings 1.0, 0.5, 0.0 and query 0.0
    let mut db = BarqGraphDb::open(opts(), None).unwrap();
    for i in 1..=3 {
        db.append_node(Node::new(i, format!("node_{}", i))).unwrap();
    }
    db.add_edge(1, 2, "NEXT").unwrap();
    db.add_edge(2, 3, "NEXT").unwrap();
    db.set_embedding(1, vec![1 * S]).unwrap();
    db.set_embedding(2, vec![S / 2]).unwrap();
    db.set_embedding(3, vec![0]).unwrap();

    // vector weight only: ranking 3, 2, 1
    let r = db.hybrid_query(&vec![0], 1, 10, 3, HybridParams::new(W, 0));
    let ids: Vec<_> = r.iter().map(|x| x.id).collect();
    assert_eq!(ids, vec![3, 2, 1]);

    // graph weight only: ranking 1, 2, 3
    let r = db.hybrid_query(&vec![0], 1, 10, 3, HybridParams::new(0, W));
    let ids: Vec<_> = r.iter().map(|x| x.id).collect();
    assert_eq!(ids, vec![1, 2, 3]);

    // equal halves: node 3 wins, its vector term is whole and its
    // graph term is a third
    let r = db.hybrid_query(&vec![0], 1, 10, 3, HybridParams::new(W / 2, W / 2));
    assert_eq!(r[0].id, 3);
    assert_eq!(r[0].score, 666_666_500_000);
    // node 1, at vector distance 1.0 and graph distance 0, scores 0.5
    let n1 = r.iter().find(|x| x.id == 1).unwrap();
    assert_eq!(n1.score, SCORE_ONE / 2);
}
