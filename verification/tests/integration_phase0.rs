//! End-to-end storage and node-model tests, with persistence simulated
//! by carrying the log text across engine instances.

use barq_graphdb::storage::{BarqGraphDb, DbOptions};
use barq_graphdb::Node;

fn opts() -> DbOptions {
    DbOptions::new("./it_db".to_string())
}

fn record(log: &mut String, line: String) {
    log.push_str(&line);
    log.push('\n');
}

#[test]
fn test_phase0_workflow() {
    let mut log = String::new();

    // create the engine and add nodes
    {
        let mut db = BarqGraphDb::open(opts(), None).unwrap();

        let node1 = Node {
            id: 1,
            label: "function_main".to_string(),
            embedding: vec![100_000, 200_000, 300_000],
            edges: vec![],
            timestamp: 1000,
            agent_id: Some(42),
            rule_tags: vec!["entry_point".to_string()],
        };
        record(&mut log, db.append_node(node1).unwrap());

        let node2 = Node {
            id: 2,
            label: "function_helper".to_string(),
            embedding: vec![400_000, 500_000, 600_000],
            edges: vec![],
            timestamp: 1001,
            agent_id: Some(42),
            rule_tags: vec!["utility".to_string()],
        };
        record(&mut log, db.append_node(node2).unwrap());

        let node3 = Node {
            id: 3,
            label: "class_processor".to_string(),
            embedding: vec![700_000, 800_000, 900_000],
            edges: vec![],
            timestamp: 1002,
            agent_id: None,
            rule_tags: vec!["core".to_string(), "processing".to_string()],
        };
        record(&mut log, db.append_node(node3).unwrap());

        assert_eq!(db.node_count(), 3);
    }

    // reopen from the log and check everything survived
    {
        let db = BarqGraphDb::open(opts(), Some(&log)).unwrap();

        assert_eq!(db.node_count(), 3, "Expected 3 nodes after reopening");

        let node1 = db.get_node(1).expect("Node 1 should exist");
        assert_eq!(node1.label, "function_main");
        assert_eq!(node1.embedding, vec![100_000, 200_000, 300_000]);
        assert_eq!(node1.timestamp, 1000);
        assert_eq!(node1.agent_id, Some(42));
        assert_eq!(node1.rule_tags, vec!["entry_point".to_string()]);

        let node2 = db.get_node(2).expect("Node 2 should exist");
        assert_eq!(node2.label, "function_helper");
        assert_eq!(node2.agent_id, Some(42));

        let node3 = db.get_node(3).expect("Node 3 should exist");
        assert_eq!(node3.label, "class_processor");
        assert_eq!(node3.agent_id, None);
        assert_eq!(node3.rule_tags, vec!["core".to_string(), "processing".to_string()]);
    }
}

#[test]
fn test_node_update_persistence() {
    let mut log = String::new();

    {
        let mut db = BarqGraphDb::open(opts(), None).unwrap();

        let node_v1 = Node::new(100, "original_label".to_string());
        record(&mut log, db.append_node(node_v1).unwrap());

        let mut node_v2 = Node::new(100, "updated_label".to_string());
        node_v2.agent_id = Some(999);
        record(&mut log, db.append_node(node_v2).unwrap());
    }

    {
        let db = BarqGraphDb::open(opts(), Some(&log)).unwrap();
        assert_eq!(db.node_count(), 1);

        let node = db.get_node(100).unwrap();
        assert_eq!(node.label, "updated_label");
        assert_eq!(node.agent_id, Some(999));
    }
}

#[test]
fn test_empty_database() {
    {
        let db = BarqGraphDb::open(opts(), None).unwrap();
        assert_eq!(db.node_count(), 0);
        assert!(db.list_nodes().is_empty());
        assert!(db.get_node(1).is_none());
    }

    {
        let db = BarqGraphDb::open(opts(), Some("")).unwrap();
        assert_eq!(db.node_count(), 0);
    }
}

#[test]
fn test_list_nodes() {
    let mut db = BarqGraphDb::open(opts(), None).unwrap();

    for i in 1..=5 {
        let node = Node::new(i, format!("node_{}", i));
        db.append_node(node).unwrap();
    }

    let nodes = db.list_nodes();
    assert_eq!(nodes.len(), 5);

    // all ids are present (order may vary)
    let ids: Vec<u64> = nodes.iter().map(|n| n.id).collect();
    for i in 1..=5 {
        assert!(ids.contains(&i), "Expected node {} to be in list", i);
    }
}
