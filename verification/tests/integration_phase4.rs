//! Agent decision journal tests, with persistence carried as log text.

use barq_graphdb::agent::DecisionRecord;
use barq_graphdb::storage::{BarqGraphDb, DbOptions};
use barq_graphdb::Node;

fn opts() -> DbOptions {
    DbOptions::new("./it_db".to_string())
}

fn record(log: &mut String, line: String) {
    log.push_str(&line);
    log.push('\n');
}

#[test]
fn test_phase4_workflow() {
    let mut log = String::new();

    {
        let mut db = BarqGraphDb::open(opts(), None).unwrap();

        for i in 1..=10 {
            record(&mut log, db.append_node(Node::new(i, format!("node_{}", i))).unwrap());
        }

        // agent 1 decisions: scores 0.95 and 0.85 in millionths
        let decision1 = DecisionRecord::new(1, 1, 1, vec![1, 2, 3], 950_000)
            .with_notes("First decision by agent 1".to_string());
        record(&mut log, db.record_decision(decision1).unwrap());

        let decision2 = DecisionRecord::new(2, 1, 5, vec![5, 6, 7], 850_000);
        record(&mut log, db.record_decision(decision2).unwrap());

        // agent 2 decision
        let decision3 = DecisionRecord::new(3, 2, 1, vec![1, 4, 8], 900_000)
            .with_notes("Agent 2's analysis".to_string());
        record(&mut log, db.record_decision(decision3).unwrap());

        assert_eq!(db.decision_count(), 3);

        let agent1_decisions = db.list_decisions_for_agent(1);
        assert_eq!(agent1_decisions.len(), 2);

        let agent2_decisions = db.list_decisions_for_agent(2);
        assert_eq!(agent2_decisions.len(), 1);

        let all_decisions = db.list_all_decisions();
        assert_eq!(all_decisions.len(), 3);
    }

    {
        let db = BarqGraphDb::open(opts(), Some(&log)).unwrap();

        assert_eq!(db.decision_count(), 3);

        let agent1_decisions = db.list_decisions_for_agent(1);
        assert_eq!(agent1_decisions.len(), 2);

        let first = db.get_decision(1).unwrap();
        assert_eq!(first.agent_id, 1);
        assert_eq!(first.root_node, 1);
        assert_eq!(first.path, vec![1, 2, 3]);
        assert_eq!(first.score, 950_000);
        assert!(first.notes.as_ref().unwrap().contains("First decision"));
    }
}

#[test]
fn integration_test_phase4_test_decision_record_creation() {
    let record = DecisionRecord::new(1, 42, 100, vec![100, 101, 102], 950_000);

    assert_eq!(record.id, 1);
    assert_eq!(record.agent_id, 42);
    assert_eq!(record.root_node, 100);
    assert_eq!(record.path, vec![100, 101, 102]);
    assert!(record.created_at > 0);
    assert!(record.notes.is_none());
}

#[test]
fn test_decision_with_notes() {
    let mut log = String::new();
    let mut db = BarqGraphDb::open(opts(), None).unwrap();

    let rec = DecisionRecord::new(1, 1, 1, vec![1], 990_000)
        .with_notes("Vulnerability cascade detected".to_string());
    record(&mut log, db.record_decision(rec).unwrap());

    drop(db);
    let db2 = BarqGraphDb::open(opts(), Some(&log)).unwrap();

    let retrieved = db2.get_decision(1).unwrap();
    assert!(retrieved.notes.is_some());
    assert!(retrieved.notes.as_ref().unwrap().contains("cascade"));
}

#[test]
fn test_no_decisions() {
    let db = BarqGraphDb::open(opts(), None).unwrap();

    assert_eq!(db.decision_count(), 0);
    assert!(db.list_all_decisions().is_empty());
    assert!(db.list_decisions_for_agent(999).is_empty());
    assert!(db.get_decision(1).is_none());
}

#[test]
fn test_multiple_agents() {
    let mut db = BarqGraphDb::open(opts(), None).unwrap();

    // 5 agents, 10 decisions each
    let mut decision_id: u64 = 1;
    for agent_id in 1..=5 {
        for _ in 0..10 {
            let rec = DecisionRecord::new(
                decision_id,
                agent_id,
                1,
                vec![1, 2],
                500_000 + decision_id as i64 * 10_000,
            );
            db.record_decision(rec).unwrap();
            decision_id += 1;
        }
    }

    assert_eq!(db.decision_count(), 50);

    for agent_id in 1..=5 {
        let decisions = db.list_decisions_for_agent(agent_id);
        assert_eq!(decisions.len(), 10);
        for d in decisions {
            assert_eq!(d.agent_id, agent_id);
        }
    }
}

#[test]
fn test_agent_metadata_on_nodes() {
    let mut log = String::new();
    let mut db = BarqGraphDb::open(opts(), None).unwrap();

    let mut node = Node::new(1, "agent_created".to_string());
    node.agent_id = Some(42);
    node.rule_tags = vec!["security".to_string(), "high".to_string()];
    record(&mut log, db.append_node(node).unwrap());

    drop(db);
    let db2 = BarqGraphDb::open(opts(), Some(&log)).unwrap();

    let retrieved = db2.get_node(1).unwrap();
    assert_eq!(retrieved.agent_id, Some(42));
    assert_eq!(retrieved.rule_tags.len(), 2);
    assert!(retrieved.rule_tags.contains(&"security".to_string()));
}

#[test]
fn test_decision_persistence_multiple_sessions() {
    let mut log = String::new();

    // first session: two decisions
    {
        let mut db = BarqGraphDb::open(opts(), None).unwrap();
        record(&mut log, db.record_decision(DecisionRecord::new(1, 1, 1, vec![1], 900_000)).unwrap());
        record(&mut log, db.record_decision(DecisionRecord::new(2, 1, 2, vec![2], 800_000)).unwrap());
    }

    // second session: one more
    {
        let mut db = BarqGraphDb::open(opts(), Some(&log)).unwrap();
        assert_eq!(db.decision_count(), 2);
        record(&mut log, db.record_decision(DecisionRecord::new(3, 2, 3, vec![3], 700_000)).unwrap());
    }

    // third session: everything survived
    {
        let db = BarqGraphDb::open(opts(), Some(&log)).unwrap();
        assert_eq!(db.decision_count(), 3);
        assert!(db.get_decision(1).is_some());
        assert!(db.get_decision(2).is_some());
        assert!(db.get_decision(3).is_some());
    }
}
