use barq_graphdb::agent::DecisionRecord;
use barq_graphdb::wal::{decode_record, encode_record, line_chars, WalRecord};

#[test]
fn agent_test_decision_record_creation() {
    // a score of 0.95 counts 950_000 millionths
    let record = DecisionRecord::new(1, 42, 100, vec![100, 101, 102], 950_000);

    assert_eq!(record.id, 1);
    assert_eq!(record.agent_id, 42);
    assert_eq!(record.root_node, 100);
    assert_eq!(record.path, vec![100, 101, 102]);
    assert_eq!(record.score, 950_000);
    assert!(record.notes.is_none());
    assert!(record.created_at > 0);
}

#[test]
fn test_decision_record_with_timestamp() {
    let record = DecisionRecord::with_timestamp(1, 42, 1234567890, 100, vec![100, 101], 850_000);

    assert_eq!(record.created_at, 1234567890);
}

#[test]
fn test_decision_record_with_notes() {
    let record = DecisionRecord::new(1, 42, 100, vec![100], 900_000)
        .with_notes("Important decision about vulnerability cascade".to_string());

    assert!(record.notes.is_some());
    assert!(record.notes.unwrap().contains("vulnerability"));
}

#[test]
fn test_decision_record_serialization() {
    let record = DecisionRecord::with_timestamp(1, 42, 1000, 100, vec![100, 101], 750_000)
        .with_notes("Test note".to_string());

    let line = encode_record(&WalRecord::Decision { data: record.clone() });
    let decoded = decode_record(&line_chars(line.as_str()));
    match decoded {
        Some(WalRecord::Decision { data }) => {
            assert_eq!(record, data);
        },
        _ => panic!("the decision line must decode back to a decision"),
    }
}
