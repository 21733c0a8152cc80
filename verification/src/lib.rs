//! An embedded, single-process graph-plus-vector database core.
//!
//! State is kept in memory for query; durability comes from an append-only
//! log of JSON lines that is replayed at startup. Vector components and
//! scores are fixed-point numbers: an `i64` holds the value in millionths,
//! so `1_500_000` stands for `1.5`. The caller that owns the log file feeds
//! its text to [`storage::BarqGraphDb::open`] and appends each line that a
//! write operation hands back.

use vstd::prelude::*;

pub mod agent;
pub mod batch;
pub mod bench_utils;
pub mod error;
pub mod graph;
pub mod hybrid;
pub mod shadow;
pub mod storage;
pub mod vector;
pub mod wal;

verus! {

/// Unique identifier for nodes in the graph.
pub type NodeId = u64;

/// One fixed-point unit: vector components and scores count millionths.
pub const SCALE: i64 = 1_000_000;

/// Largest magnitude a vector component may have (1000.0 in real terms).
pub const COORD_LIMIT: i64 = 1_000_000_000;

/// Largest magnitude any fixed-point numeral in the log may have
/// (one billion in real terms).
pub const FIXED_LIMIT: i64 = 1_000_000_000_000_000;

/// Largest number of components an embedding may have.
pub const DIM_LIMIT: usize = 65536;

/// A component is storable when its magnitude stays within [`COORD_LIMIT`].
pub open spec fn coord_ok(c: i64) -> bool {
    -COORD_LIMIT <= c <= COORD_LIMIT
}

/// An embedding is storable when it is short enough and every component
/// is within range.
pub open spec fn vec_ok(v: Seq<i64>) -> bool {
    v.len() <= DIM_LIMIT && forall|i: int| 0 <= i < v.len() ==> coord_ok(#[trigger] v[i])
}

/// Checks at run time that an embedding is storable.
pub fn check_vec_ok(v: &Vec<i64>) -> (r: bool)
    ensures
        r == vec_ok(v@),
{
    if v.len() > DIM_LIMIT {
        return false;
    }
    let mut i: usize = 0;
    while i < v.len()
        invariant
            0 <= i <= v@.len(),
            v@.len() <= DIM_LIMIT,
            forall|j: int| 0 <= j < i ==> coord_ok(#[trigger] v@[j]),
        decreases v@.len() - i,
    {
        if v[i] < -COORD_LIMIT || v[i] > COORD_LIMIT {
            return false;
        }
        i = i + 1;
    }
    true
}

/// Copies a vector of fixed-point components.
pub fn copy_i64s(v: &Vec<i64>) -> (r: Vec<i64>)
    ensures
        r@ == v@,
{
    let mut r: Vec<i64> = Vec::new();
    let mut i: usize = 0;
    while i < v.len()
        invariant
            0 <= i <= v@.len(),
            r@ == v@.subrange(0, i as int),
        decreases v@.len() - i,
    {
        r.push(v[i]);
        proof {
            assert(r@ =~= v@.subrange(0, (i + 1) as int));
        }
        i = i + 1;
    }
    proof {
        assert(r@ =~= v@);
    }
    r
}

/// Copies a vector of node ids.
pub fn copy_u64s(v: &Vec<u64>) -> (r: Vec<u64>)
    ensures
        r@ == v@,
{
    let mut r: Vec<u64> = Vec::new();
    let mut i: usize = 0;
    while i < v.len()
        invariant
            0 <= i <= v@.len(),
            r@ == v@.subrange(0, i as int),
        decreases v@.len() - i,
    {
        r.push(v[i]);
        proof {
            assert(r@ =~= v@.subrange(0, (i + 1) as int));
        }
        i = i + 1;
    }
    proof {
        assert(r@ =~= v@);
    }
    r
}

/// Copies a vector of strings.
pub fn copy_strings(v: &Vec<String>) -> (r: Vec<String>)
    ensures
        r@ == v@,
{
    let mut r: Vec<String> = Vec::new();
    let mut i: usize = 0;
    while i < v.len()
        invariant
            0 <= i <= v@.len(),
            r@ == v@.subrange(0, i as int),
        decreases v@.len() - i,
    {
        r.push(v[i].clone());
        proof {
            assert(r@ =~= v@.subrange(0, (i + 1) as int));
        }
        i = i + 1;
    }
    proof {
        assert(r@ =~= v@);
    }
    r
}

/// Represents a directed edge between two nodes in the graph.
#[derive(Debug, Clone, PartialEq, Eq)]
pub struct Edge {
    /// Source node id.
    pub from: NodeId,
    /// Target node id.
    pub to: NodeId,
    /// Type of the edge (for example "CALLS").
    pub edge_type: String,
}

/// Represents a node in the graph with an optional vector embedding.
#[derive(Debug, Clone, PartialEq, Eq)]
pub struct Node {
    /// Unique identifier for this node.
    pub id: NodeId,
    /// Human-readable label for the node.
    pub label: String,
    /// Fixed-point vector embedding for similarity search; may be empty.
    pub embedding: Vec<i64>,
    /// Outgoing edges from this node.
    pub edges: Vec<Edge>,
    /// Unix timestamp in whole seconds when this node was created.
    pub timestamp: u64,
    /// Optional id of the agent that created this node.
    pub agent_id: Option<u64>,
    /// Tags for rule-based filtering and categorization.
    pub rule_tags: Vec<String>,
}

/// Reads the wall clock as whole seconds since the Unix epoch.
///
/// Relies on std::time::SystemTime::now and duration_since: the result
/// depends on the clock, so nothing is promised of it.
#[verifier::external_body]
pub(crate) fn now_secs() -> u64 {
    std::time::SystemTime::now()
        .duration_since(std::time::UNIX_EPOCH)
        .unwrap_or_default()
        .as_secs()
}

impl Node {
    /// Creates a new node with the given id and label, stamped with the
    /// current wall-clock time and with every other field empty.
    pub fn new(id: NodeId, label: String) -> (n: Node)
        ensures
            n.id == id,
            n.label == label,
            n.embedding@ == Seq::<i64>::empty(),
            n.edges@ == Seq::<Edge>::empty(),
            n.agent_id is None,
            n.rule_tags@ == Seq::<String>::empty(),
    {
        Node {
            id,
            label,
            embedding: Vec::new(),
            edges: Vec::new(),
            timestamp: now_secs(),
            agent_id: None,
            rule_tags: Vec::new(),
        }
    }

    /// Creates a new node with a caller-chosen timestamp and with every
    /// other optional field empty.
    pub fn with_timestamp(id: NodeId, label: String, timestamp: u64) -> (n: Node)
        ensures
            n.id == id,
            n.label == label,
            n.timestamp == timestamp,
            n.embedding@ == Seq::<i64>::empty(),
            n.edges@ == Seq::<Edge>::empty(),
            n.agent_id is None,
            n.rule_tags@ == Seq::<String>::empty(),
    {
        Node {
            id,
            label,
            embedding: Vec::new(),
            edges: Vec::new(),
            timestamp,
            agent_id: None,
            rule_tags: Vec::new(),
        }
    }
}


/// Copies an edge field by field.
pub fn clone_edge(e: &Edge) -> (r: Edge)
    ensures
        r.from == e.from,
        r.to == e.to,
        r.edge_type@ == e.edge_type@,
{
    Edge { from: e.from, to: e.to, edge_type: e.edge_type.clone() }
}

/// Copies a vector of edges element by element.
pub fn copy_edges(v: &Vec<Edge>) -> (r: Vec<Edge>)
    ensures
        r@.len() == v@.len(),
        forall|i: int|
            0 <= i < v@.len() ==> (#[trigger] r@[i]).from == v@[i].from && r@[i].to == v@[i].to
                && r@[i].edge_type@ == v@[i].edge_type@,
{
    let mut r: Vec<Edge> = Vec::new();
    let mut i: usize = 0;
    while i < v.len()
        invariant
            0 <= i <= v@.len(),
            r@.len() == i,
            forall|j: int|
                0 <= j < i ==> (#[trigger] r@[j]).from == v@[j].from && r@[j].to == v@[j].to
                    && r@[j].edge_type@ == v@[j].edge_type@,
        decreases v@.len() - i,
    {
        r.push(clone_edge(&v[i]));
        i = i + 1;
    }
    r
}

/// Copies a node field by field.
pub fn clone_node(n: &Node) -> (r: Node)
    ensures
        r.id == n.id,
        r.label@ == n.label@,
        r.embedding@ == n.embedding@,
        r.edges@.len() == n.edges@.len(),
        forall|i: int|
            0 <= i < n.edges@.len() ==> (#[trigger] r.edges@[i]).from == n.edges@[i].from
                && r.edges@[i].to == n.edges@[i].to && r.edges@[i].edge_type@
                == n.edges@[i].edge_type@,
        r.timestamp == n.timestamp,
        r.agent_id == n.agent_id,
        r.rule_tags@ == n.rule_tags@,
{
    Node {
        id: n.id,
        label: n.label.clone(),
        embedding: copy_i64s(&n.embedding),
        edges: copy_edges(&n.edges),
        timestamp: n.timestamp,
        agent_id: match &n.agent_id {
            Some(a) => Some(*a),
            None => None,
        },
        rule_tags: copy_strings(&n.rule_tags),
    }
}

} // verus!
