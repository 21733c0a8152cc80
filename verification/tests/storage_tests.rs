use barq_graphdb::storage::{BarqGraphDb, DbOptions};
use barq_graphdb::Node;

fn opts() -> DbOptions {
    DbOptions::new("./my_db".to_string())
}

#[test]
fn test_create_new_database() {
    let db = BarqGraphDb::open(opts(), None).unwrap();
    assert_eq!(db.node_count(), 0);
}

#[test]
fn test_append_and_retrieve_node() {
    let mut db = BarqGraphDb::open(opts(), None).unwrap();

    let node = Node::new(1, "test_node".to_string());
    db.append_node(node).unwrap();

    assert_eq!(db.node_count(), 1);
    let retrieved = db.get_node(1).unwrap();
    assert_eq!(retrieved.id, 1);
    assert_eq!(retrieved.label, "test_node");
}

#[test]
fn test_append_and_persist() {
    // open, add a node, keep the log text
    let mut log = String::new();
    {
        let mut db = BarqGraphDb::open(opts(), None).unwrap();
        let node = Node {
            id: 1,
            label: "test".to_string(),
            embedding: vec![],
            edges: vec![],
            timestamp: 0,
            agent_id: None,
            rule_tags: vec![],
        };
        let line = db.append_node(node).unwrap();
        log.push_str(&line);
        log.push('\n');
    }

    // reopen from the log text and check
    let db2 = BarqGraphDb::open(opts(), Some(&log)).unwrap();
    assert!(db2.nodes().contains_key(&1));
    assert_eq!(db2.get_node(1).unwrap().label, "test");
}

#[test]
fn test_multiple_nodes() {
    let mut log = String::new();
    let mut db = BarqGraphDb::open(opts(), None).unwrap();

    for i in 1..=10 {
        let node = Node::new(i, format!("node_{}", i));
        let line = db.append_node(node).unwrap();
        log.push_str(&line);
        log.push('\n');
    }

    assert_eq!(db.node_count(), 10);

    // reopen and check every node survived
    drop(db);
    let db2 = BarqGraphDb::open(opts(), Some(&log)).unwrap();
    assert_eq!(db2.node_count(), 10);

    for i in 1..=10 {
        let node = db2.get_node(i).unwrap();
        assert_eq!(node.label, format!("node_{}", i));
    }
}

#[test]
fn test_node_update_in_wal() {
    let mut log = String::new();
    // add a node, update it by appending the same id again
    {
        let mut db = BarqGraphDb::open(opts(), None).unwrap();
        let node = Node::new(1, "original".to_string());
        let line = db.append_node(node).unwrap();
        log.push_str(&line);
        log.push('\n');

        let updated_node = Node::new(1, "updated".to_string());
        let line = db.append_node(updated_node).unwrap();
        log.push_str(&line);
        log.push('\n');
    }

    // reopen and check the update survived
    let db2 = BarqGraphDb::open(opts(), Some(&log)).unwrap();
    assert_eq!(db2.node_count(), 1);
    assert_eq!(db2.get_node(1).unwrap().label, "updated");
}

#[test]
fn test_replay_is_idempotent() {
    // opening twice from the same text, without writes, gives the same
    // state, and the text is never touched by the engine
    let mut log = String::new();
    {
        let mut db = BarqGraphDb::open(opts(), None).unwrap();
        for i in 1..=3 {
            let line = db.append_node(Node::with_timestamp(i, format!("n{}", i), 7)).unwrap();
            log.push_str(&line);
            log.push('\n');
        }
        let line = db.add_edge(1, 2, "NEXT").unwrap();
        log.push_str(&line);
        log.push('\n');
    }
    let snapshot = log.clone();
    let db1 = BarqGraphDb::open(opts(), Some(&log)).unwrap();
    let db2 = BarqGraphDb::open(opts(), Some(&log)).unwrap();
    assert_eq!(log, snapshot);
    assert_eq!(db1.node_count(), db2.node_count());
    assert_eq!(db1.edge_count(), db2.edge_count());
    assert_eq!(db1.get_node(1).unwrap().label, db2.get_node(1).unwrap().label);
}

#[test]
fn test_corrupt_middle_line_rejected() {
    let mut log = String::new();
    {
        let mut db = BarqGraphDb::open(opts(), None).unwrap();
        for i in 1..=2 {
            let line = db.append_node(Node::with_timestamp(i, format!("n{}", i), 0)).unwrap();
            log.push_str(&line);
            log.push('\n');
        }
    }
    // a malformed line before the end is corruption
    let mut lines: Vec<&str> = log.lines().collect();
    let owned: Vec<String> = lines.drain(..).map(|l| l.to_string()).collect();
    let bad = format!("{}\nnot a record\n{}\n", owned[0], owned[1]);
    let r = BarqGraphDb::open(opts(), Some(&bad));
    assert!(r.is_err());

    // the same malformed text at the tail is tolerated as truncation
    let tail = format!("{}\n{}\nnot a record", owned[0], owned[1]);
    let db = BarqGraphDb::open(opts(), Some(&tail)).unwrap();
    assert_eq!(db.node_count(), 2);
}

#[test]
fn test_blank_tail_tolerated() {
    // trailing blank lines and a whitespace tail are inside the open
    // guarantee; the replayed state ignores them
    let mut log = String::new();
    {
        let mut db = BarqGraphDb::open(opts(), None).unwrap();
        let line = db.append_node(Node::with_timestamp(1, "n1".to_string(), 0)).unwrap();
        log.push_str(&line);
        log.push('\n');
    }
    let padded = format!("{}\n   \n\t ", log);
    let db = BarqGraphDb::open(opts(), Some(&padded)).unwrap();
    assert_eq!(db.node_count(), 1);
    assert_eq!(db.get_node(1).unwrap().label, "n1");
}

#[test]
fn test_invalid_embedding_rejected() {
    let mut db = BarqGraphDb::open(opts(), None).unwrap();
    // a component beyond the fixed-point coordinate range is refused
    let r = db.set_embedding(1, vec![2_000_000_000_000]);
    assert!(r.is_err());
    assert_eq!(db.vector_count(), 0);
}

#[test]
fn test_async_indexing_visibility() {
    // with asynchronous indexing, a write parks its vector update; the
    // query sees it only after the pending buffer is drained
    let options = DbOptions {
        path: "./my_db".to_string(),
        index_type: barq_graphdb::storage::IndexType::Linear,
        sync_writes: true,
        async_indexing: true,
    };
    let mut db = BarqGraphDb::open(options, None).unwrap();
    db.append_node(Node::new(1, "n1".to_string())).unwrap();
    db.set_embedding(1, vec![250_000, 750_000]).unwrap();

    // not yet visible to the vector store
    assert_eq!(db.vector_count(), 0);
    assert!(db.knn_search(&vec![250_000, 750_000], 1).is_empty());

    // draining the buffer applies the update
    db.flush_pending();
    assert_eq!(db.vector_count(), 1);
    let r = db.knn_search(&vec![250_000, 750_000], 1);
    assert_eq!(r[0].0, 1);
    assert_eq!(r[0].1, 0);
}
