//! Graph index and BFS traversal tests.

use barq_graphdb::storage::{BarqGraphDb, DbOptions};
use barq_graphdb::Node;

fn opts() -> DbOptions {
    DbOptions::new("./it_db".to_string())
}

fn record(log: &mut String, line: String) {
    log.push_str(&line);
    log.push('\n');
}

#[test]
fn test_phase1_workflow() {
    let mut log = String::new();

    // build a test graph:
    //     1 --> 2 --> 4
    //     |     |
    //     v     v
    //     3 --> 5 --> 6
    //           |
    //           v
    //           7
    {
        let mut db = BarqGraphDb::open(opts(), None).unwrap();

        for i in 1..=7 {
            let node = Node::new(i, format!("node_{}", i));
            record(&mut log, db.append_node(node).unwrap());
        }

        record(&mut log, db.add_edge(1, 2, "CONNECTS").unwrap());
        record(&mut log, db.add_edge(1, 3, "CONNECTS").unwrap());
        record(&mut log, db.add_edge(2, 4, "CONNECTS").unwrap());
        record(&mut log, db.add_edge(2, 5, "CONNECTS").unwrap());
        record(&mut log, db.add_edge(3, 5, "CONNECTS").unwrap());
        record(&mut log, db.add_edge(5, 6, "CONNECTS").unwrap());
        record(&mut log, db.add_edge(5, 7, "CONNECTS").unwrap());

        assert_eq!(db.edge_count(), 7);

        let n1_neighbors = db.neighbors(1).unwrap();
        assert_eq!(n1_neighbors.len(), 2);
        assert!(n1_neighbors.contains(&2));
        assert!(n1_neighbors.contains(&3));

        let n5_neighbors = db.neighbors(5).unwrap();
        assert_eq!(n5_neighbors.len(), 2);
        assert!(n5_neighbors.contains(&6));
        assert!(n5_neighbors.contains(&7));

        let bfs_0 = db.bfs_hops(1, 0);
        assert_eq!(bfs_0, vec![1]);

        let bfs_1 = db.bfs_hops(1, 1);
        assert_eq!(bfs_1.len(), 3);
        assert!(bfs_1.contains(&1));
        assert!(bfs_1.contains(&2));
        assert!(bfs_1.contains(&3));

        let bfs_2 = db.bfs_hops(1, 2);
        assert_eq!(bfs_2.len(), 5);
        assert!(bfs_2.contains(&4));
        assert!(bfs_2.contains(&5));

        let bfs_all = db.bfs_hops(1, 10);
        assert_eq!(bfs_all.len(), 7);
    }

    // persistence: reopen and check the edges survived
    {
        let db = BarqGraphDb::open(opts(), Some(&log)).unwrap();

        assert_eq!(db.edge_count(), 7);

        let n1_neighbors = db.neighbors(1).unwrap();
        assert_eq!(n1_neighbors.len(), 2);

        let bfs_all = db.bfs_hops(1, 10);
        assert_eq!(bfs_all.len(), 7);
    }
}

#[test]
fn test_bfs_linear_chain() {
    let mut db = BarqGraphDb::open(opts(), None).unwrap();

    // chain: 1 -> 2 -> 3 -> 4 -> 5
    for i in 1..=5 {
        db.append_node(Node::new(i, format!("node_{}", i))).unwrap();
    }
    for i in 1..=4 {
        db.add_edge(i, i + 1, "NEXT").unwrap();
    }

    assert_eq!(db.bfs_hops(1, 0), vec![1]);
    assert_eq!(db.bfs_hops(1, 1), vec![1, 2]);
    assert_eq!(db.bfs_hops(1, 2), vec![1, 2, 3]);
    assert_eq!(db.bfs_hops(1, 3), vec![1, 2, 3, 4]);
    assert_eq!(db.bfs_hops(1, 4), vec![1, 2, 3, 4, 5]);
    assert_eq!(db.bfs_hops(1, 100), vec![1, 2, 3, 4, 5]);

    // start from the middle
    assert_eq!(db.bfs_hops(3, 2), vec![3, 4, 5]);
}

#[test]
fn test_bfs_with_cycles() {
    let mut db = BarqGraphDb::open(opts(), None).unwrap();

    // cycle: 1 -> 2 -> 3 -> 1
    for i in 1..=3 {
        db.append_node(Node::new(i, format!("node_{}", i))).unwrap();
    }
    db.add_edge(1, 2, "NEXT").unwrap();
    db.add_edge(2, 3, "NEXT").unwrap();
    db.add_edge(3, 1, "BACK").unwrap();

    // must not loop forever
    let result = db.bfs_hops(1, 100);
    assert_eq!(result.len(), 3);
    assert!(result.contains(&1));
    assert!(result.contains(&2));
    assert!(result.contains(&3));
}

#[test]
fn test_neighbors_leaf_node() {
    let mut db = BarqGraphDb::open(opts(), None).unwrap();

    db.append_node(Node::new(1, "root".to_string())).unwrap();
    db.append_node(Node::new(2, "leaf".to_string())).unwrap();
    db.add_edge(1, 2, "CONNECTS").unwrap();

    // node 2 has no outgoing edges
    let leaf_neighbors = db.neighbors(2).unwrap();
    assert!(leaf_neighbors.is_empty());

    // unknown node
    assert!(db.neighbors(999).is_none());
}

#[test]
fn test_edge_persistence() {
    let mut log = String::new();

    {
        let mut db = BarqGraphDb::open(opts(), None).unwrap();
        record(&mut log, db.append_node(Node::new(1, "a".to_string())).unwrap());
        record(&mut log, db.append_node(Node::new(2, "b".to_string())).unwrap());
        record(&mut log, db.append_node(Node::new(3, "c".to_string())).unwrap());

        record(&mut log, db.add_edge(1, 2, "FIRST").unwrap());
        record(&mut log, db.add_edge(2, 3, "SECOND").unwrap());
        record(&mut log, db.add_edge(1, 3, "SHORTCUT").unwrap());

        assert_eq!(db.edge_count(), 3);
    }

    {
        let db = BarqGraphDb::open(opts(), Some(&log)).unwrap();
        assert_eq!(db.edge_count(), 3);

        let n1 = db.neighbors(1).unwrap();
        assert!(n1.contains(&2));
        assert!(n1.contains(&3));

        let n2 = db.neighbors(2).unwrap();
        assert!(n2.contains(&3));
    }
}

#[test]
fn test_edge_before_node() {
    let mut log = String::new();
    let mut db = BarqGraphDb::open(opts(), None).unwrap();

    // add an edge before any node exists
    record(&mut log, db.add_edge(10, 20, "EARLY").unwrap());

    let n10 = db.neighbors(10).unwrap();
    assert!(n10.contains(&20));

    let bfs = db.bfs_hops(10, 1);
    assert!(bfs.contains(&10));
    assert!(bfs.contains(&20));

    drop(db);
    let db2 = BarqGraphDb::open(opts(), Some(&log)).unwrap();
    assert_eq!(db2.edge_count(), 1);
}
