//! Agent decision tracking and audit trails.
//!
//! Types for recording the path an agent took through the graph, with
//! a fixed-point confidence score in millionths.

use vstd::prelude::*;

use crate::NodeId;

verus! {

/// A record of an agent's decision, including the reasoning path.
#[derive(Debug, Clone, PartialEq, Eq)]
pub struct DecisionRecord {
    /// Unique identifier for this decision record.
    pub id: u64,
    /// Id of the agent that made this decision.
    pub agent_id: u64,
    /// Unix timestamp in whole seconds when this decision was recorded.
    pub created_at: u64,
    /// The starting node for this decision path.
    pub root_node: NodeId,
    /// Sequence of nodes visited during the decision.
    pub path: Vec<NodeId>,
    /// Fixed-point confidence score in millionths.
    pub score: i64,
    /// Optional human-readable notes about the decision.
    pub notes: Option<String>,
}

impl DecisionRecord {
    /// Creates a new decision record stamped with the current
    /// wall-clock time and without notes.
    pub fn new(id: u64, agent_id: u64, root_node: NodeId, path: Vec<NodeId>, score: i64) -> (r:
        DecisionRecord)
        ensures
            r.id == id,
            r.agent_id == agent_id,
            r.root_node == root_node,
            r.path == path,
            r.score == score,
            r.notes is None,
    {
        DecisionRecord { id, agent_id, created_at: crate::now_secs(), root_node, path, score, notes: None }
    }

    /// Creates a new decision record with a caller-chosen timestamp and
    /// without notes.
    pub fn with_timestamp(
        id: u64,
        agent_id: u64,
        created_at: u64,
        root_node: NodeId,
        path: Vec<NodeId>,
        score: i64,
    ) -> (r: DecisionRecord)
        ensures
            r.id == id,
            r.agent_id == agent_id,
            r.created_at == created_at,
            r.root_node == root_node,
            r.path == path,
            r.score == score,
            r.notes is None,
    {
        DecisionRecord { id, agent_id, created_at, root_node, path, score, notes: None }
    }

    /// Attaches notes to the decision record, leaving every other field
    /// as it was.
    pub fn with_notes(self, notes: String) -> (r: DecisionRecord)
        ensures
            r == (DecisionRecord { notes: Some(notes), ..self }),
    {
        DecisionRecord { notes: Some(notes), ..self }
    }
}

/// Copies a decision record field by field.
pub fn clone_decision(d: &DecisionRecord) -> (r: DecisionRecord)
    ensures
        r.id == d.id,
        r.agent_id == d.agent_id,
        r.created_at == d.created_at,
        r.root_node == d.root_node,
        r.path@ == d.path@,
        r.score == d.score,
        r.notes == d.notes,
{
    DecisionRecord {
        id: d.id,
        agent_id: d.agent_id,
        created_at: d.created_at,
        root_node: d.root_node,
        path: crate::copy_u64s(&d.path),
        score: d.score,
        notes: match &d.notes {
            Some(s) => Some(s.clone()),
            None => None,
        },
    }
}

} // verus!
