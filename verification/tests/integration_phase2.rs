//! Vector index and kNN search tests, over fixed-point embeddings.

use barq_graphdb::storage::{BarqGraphDb, DbOptions};
use barq_graphdb::Node;

const S: i64 = 1_000_000;

fn opts() -> DbOptions {
    DbOptions::new("./it_db".to_string())
}

fn record(log: &mut String, line: String) {
    log.push_str(&line);
    log.push('\n');
}

#[test]
fn test_phase2_workflow() {
    let mut log = String::new();

    {
        let mut db = BarqGraphDb::open(opts(), None).unwrap();

        for i in 1..=5 {
            let node = Node::new(i, format!("node_{}", i));
            record(&mut log, db.append_node(node).unwrap());
        }

        // embeddings in 2-D space
        record(&mut log, db.set_embedding(1, vec![0, 0]).unwrap());
        record(&mut log, db.set_embedding(2, vec![1 * S, 0]).unwrap());
        record(&mut log, db.set_embedding(3, vec![0, 1 * S]).unwrap());
        record(&mut log, db.set_embedding(4, vec![1 * S, 1 * S]).unwrap());
        record(&mut log, db.set_embedding(5, vec![5 * S, 5 * S]).unwrap());

        assert_eq!(db.vector_count(), 5);

        // query from the origin: node 1 is closest
        let results = db.knn_search(&vec![0, 0], 3);
        assert_eq!(results.len(), 3);
        assert_eq!(results[0].0, 1);
        assert_eq!(results[0].1, 0);

        // distances come sorted
        for i in 0..results.len() - 1 {
            assert!(results[i].1 <= results[i + 1].1);
        }

        // query from a far point: node 5 is closest
        let results = db.knn_search(&vec![5 * S, 5 * S], 1);
        assert_eq!(results[0].0, 5);
    }

    // persistence
    {
        let db = BarqGraphDb::open(opts(), Some(&log)).unwrap();

        assert_eq!(db.vector_count(), 5);

        let results = db.knn_search(&vec![0, 0], 3);
        assert_eq!(results.len(), 3);
        assert_eq!(results[0].0, 1);
    }
}

#[test]
fn test_knn_various_k() {
    let mut db = BarqGraphDb::open(opts(), None).unwrap();

    // nodes with 1-D embeddings
    for i in 1..=10 {
        db.append_node(Node::new(i, format!("node_{}", i))).unwrap();
        db.set_embedding(i, vec![i as i64 * S]).unwrap();
    }

    // k = 1: the closest
    let results = db.knn_search(&vec![5 * S + S / 2], 1);
    assert_eq!(results.len(), 1);
    // either 5 or 6 is closest to 5.5
    assert!(results[0].0 == 5 || results[0].0 == 6);

    // k = 5
    let results = db.knn_search(&vec![5 * S], 5);
    assert_eq!(results.len(), 5);
    assert_eq!(results[0].0, 5); // exact match

    // k larger than the data set
    let results = db.knn_search(&vec![0], 100);
    assert_eq!(results.len(), 10);
}

#[test]
fn test_distance_accuracy() {
    let mut db = BarqGraphDb::open(opts(), None).unwrap();

    db.append_node(Node::new(1, "origin".to_string())).unwrap();
    db.append_node(Node::new(2, "unit_x".to_string())).unwrap();
    db.append_node(Node::new(3, "unit_y".to_string())).unwrap();
    db.append_node(Node::new(4, "far".to_string())).unwrap();

    db.set_embedding(1, vec![0, 0]).unwrap();
    db.set_embedding(2, vec![1 * S, 0]).unwrap();
    db.set_embedding(3, vec![0, 1 * S]).unwrap();
    db.set_embedding(4, vec![3 * S, 4 * S]).unwrap(); // distance 5 from the origin

    let results = db.knn_search(&vec![0, 0], 4);

    assert_eq!(results[0].0, 1);
    assert_eq!(results[0].1, 0);

    // nodes 2 and 3 at distance 1
    let mid_nodes: Vec<_> = results[1..3].iter().map(|(id, _)| *id).collect();
    assert!(mid_nodes.contains(&2) || mid_nodes.contains(&3));
    assert_eq!(results[1].1, 1 * S as u64);
    assert_eq!(results[2].1, 1 * S as u64);

    // node 4 at distance 5
    assert_eq!(results[3].0, 4);
    assert_eq!(results[3].1, 5 * S as u64);
}

#[test]
fn test_embedding_update() {
    let mut log = String::new();

    {
        let mut db = BarqGraphDb::open(opts(), None).unwrap();

        record(&mut log, db.append_node(Node::new(1, "moving".to_string())).unwrap());
        record(&mut log, db.set_embedding(1, vec![0, 0]).unwrap());

        let results = db.knn_search(&vec![0, 0], 1);
        assert_eq!(results[0].1, 0);

        // rewrite the embedding
        record(&mut log, db.set_embedding(1, vec![10 * S, 10 * S]).unwrap());

        // node 1 is now far from the origin: sqrt(200) in fixed point
        let results = db.knn_search(&vec![0, 0], 1);
        assert_eq!(results[0].1, 14_142_135);
    }

    // the update persists
    {
        let db = BarqGraphDb::open(opts(), Some(&log)).unwrap();
        let results = db.knn_search(&vec![10 * S, 10 * S], 1);
        assert_eq!(results[0].0, 1);
        assert_eq!(results[0].1, 0);
    }
}

#[test]
fn test_empty_vector_index() {
    let db = BarqGraphDb::open(opts(), None).unwrap();

    assert_eq!(db.vector_count(), 0);
    let results = db.knn_search(&vec![0, 0], 5);
    assert!(results.is_empty());
}

#[test]
fn test_high_dimensional() {
    let mut db = BarqGraphDb::open(opts(), None).unwrap();

    // 128-dimensional vectors (a common embedding size)
    let dim: i64 = 128;
    for i in 1..=5i64 {
        db.append_node(Node::new(i as u64, format!("node_{}", i))).unwrap();
        let embedding: Vec<i64> = (0..dim).map(|j| i * j * 10_000).collect();
        db.set_embedding(i as u64, embedding).unwrap();
    }

    assert_eq!(db.vector_count(), 5);

    // query with the matching dimension
    let query: Vec<i64> = (0..dim).map(|j| j * 10_000).collect();
    let results = db.knn_search(&query, 3);
    assert_eq!(results.len(), 3);

    // node 1 is closest: its pattern is exactly the query
    assert_eq!(results[0].0, 1);
}

#[test]
fn test_node_with_initial_embedding() {
    let mut log = String::new();

    {
        let mut db = BarqGraphDb::open(opts(), None).unwrap();

        let mut node = Node::new(1, "with_embedding".to_string());
        node.embedding = vec![1 * S, 2 * S, 3 * S];
        record(&mut log, db.append_node(node).unwrap());

        assert_eq!(db.vector_count(), 1);

        let results = db.knn_search(&vec![1 * S, 2 * S, 3 * S], 1);
        assert_eq!(results[0].0, 1);
        assert_eq!(results[0].1, 0);
    }

    {
        let db = BarqGraphDb::open(opts(), Some(&log)).unwrap();
        assert_eq!(db.vector_count(), 1);
    }
}
