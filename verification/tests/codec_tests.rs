//! Round trips of the log record format: every record kind survives
//! writing and reading back with every field intact.

use barq_graphdb::agent::DecisionRecord;
use barq_graphdb::wal::{decode_record, encode_record, line_chars, WalRecord};
use barq_graphdb::{Edge, Node};

fn roundtrip(rec: WalRecord) -> WalRecord {
    let line = encode_record(&rec);
    decode_record(&line_chars(line.as_str())).expect("an encoded line must decode")
}

#[test]
fn test_node_record_round_trip() {
    let node = Node {
        id: 7,
        label: "a label with \"quotes\" and a\ttab".to_string(),
        embedding: vec![0, -1_500_000, 2_250_000],
        edges: vec![
            Edge { from: 7, to: 8, edge_type: "CALLS".to_string() },
            Edge { from: 7, to: 9, edge_type: "See: \\docs\\".to_string() },
        ],
        timestamp: 1234567890,
        agent_id: Some(42),
        rule_tags: vec!["alpha".to_string(), "beta gamma".to_string()],
    };
    match roundtrip(WalRecord::Node { data: node.clone() }) {
        WalRecord::Node { data } => assert_eq!(data, node),
        _ => panic!("wrong record kind"),
    }
}

#[test]
fn test_edge_record_round_trip() {
    match roundtrip(WalRecord::Edge { from: 3, to: 4, edge_type: "NEXT".to_string() }) {
        WalRecord::Edge { from, to, edge_type } => {
            assert_eq!(from, 3);
            assert_eq!(to, 4);
            assert_eq!(edge_type, "NEXT");
        },
        _ => panic!("wrong record kind"),
    }
}

#[test]
fn test_embedding_record_round_trip() {
    let vec_in = vec![1, -1, 999_999, -999_999, 1_000_000_000, -1_000_000_000, 0];
    match roundtrip(WalRecord::Embedding { id: 11, vec: vec_in.clone() }) {
        WalRecord::Embedding { id, vec } => {
            assert_eq!(id, 11);
            assert_eq!(vec, vec_in);
        },
        _ => panic!("wrong record kind"),
    }
}

#[test]
fn test_decision_record_round_trip() {
    let d = DecisionRecord {
        id: u64::MAX,
        agent_id: 0,
        created_at: 1,
        root_node: 2,
        path: vec![],
        score: -950_000,
        notes: None,
    };
    match roundtrip(WalRecord::Decision { data: d.clone() }) {
        WalRecord::Decision { data } => assert_eq!(data, d),
        _ => panic!("wrong record kind"),
    }
}

#[test]
fn test_numeral_shapes() {
    // fixed-point values render as plain decimals: whole, fractional
    // and negative forms
    let line = encode_record(&WalRecord::Embedding {
        id: 1,
        vec: vec![1_500_000, 2_000_000, -250_000, 0],
    });
    assert!(line.contains("[1.5,2,-0.25,0]"));
}
