//! The storage engine: an append-only log replayed into in-memory
//! indexes.
//!
//! The engine itself touches no file. The caller that owns the data
//! directory reads `wal.log` as text, hands it to [`BarqGraphDb::open`],
//! and appends the line each successful write returns (with a trailing
//! newline) to the file, flushing when `sync_writes` is set.

use std::collections::HashMap;
use std::collections::HashSet;
use std::collections::VecDeque;
use vstd::prelude::*;
use vstd::string::StringExecFns;

use crate::agent::clone_decision;
use crate::agent::DecisionRecord;
use crate::batch::apply_pending_upto;
use crate::batch::BatchIndexer;
use crate::batch::BatchQueue;
use crate::check_vec_ok;
use crate::clone_node;
use crate::error::BarqError;
use crate::graph::edge_added;
use crate::graph::reachable_within;
use crate::hybrid::compute_hybrid_score;
use crate::hybrid::spec_hybrid_score;
use crate::hybrid::HybridParams;
use crate::hybrid::HybridResult;
use crate::vec_ok;
use crate::vector::spec_l2;
use crate::vector::LinearVectorIndex;
use crate::wal::check_str_ok;
use crate::wal::dec_like;
use crate::wal::decode_record;
use crate::wal::enc_record;
use crate::wal::encode_record;
use crate::wal::lemma_enc_node_like;
use crate::wal::lemma_no_nl_record;
use crate::wal::node_like;
use crate::wal::rec_like;
use crate::wal::str_ok;
use crate::wal::wal_join;
use crate::wal::wf_decision;
use crate::wal::wf_node;
use crate::wal::wf_record;
use crate::wal::WalRecord;
use crate::Edge;
use crate::Node;
use crate::NodeId;

verus! {

broadcast use vstd::std_specs::hash::group_hash_axioms, vstd::std_specs::vecdeque::group_vec_dequeue_axioms;

/// Which vector index backend serves approximate queries.
#[derive(Debug, Clone, Copy, PartialEq, Eq)]
pub enum IndexType {
    /// Exact linear scan.
    Linear,
    /// Layered proximity graph with shadow updates, run by the caller.
    Hnsw,
}

/// Configuration options for opening a database.
#[derive(Debug, Clone)]
pub struct DbOptions {
    /// Path of the data directory; the engine records it for the
    /// caller but never touches the filesystem itself.
    pub path: String,
    /// Type of vector index the caller runs for approximate queries.
    pub index_type: IndexType,
    /// Whether the caller should flush the log after every write.
    pub sync_writes: bool,
    /// Whether vector-index updates go through the staging buffer.
    pub async_indexing: bool,
}

impl DbOptions {
    /// Creates options with the defaults: the layered backend,
    /// synchronous flushing, and synchronous indexing.
    pub fn new(path: String) -> (r: DbOptions)
        ensures
            r.path@ == path@,
            r.index_type == IndexType::Hnsw,
            r.sync_writes == true,
            r.async_indexing == false,
    {
        DbOptions { path, index_type: IndexType::Hnsw, sync_writes: true, async_indexing: false }
    }
}

/// The in-memory state of the engine, as mathematical maps.
pub struct StateV {
    /// The node table: each id's latest node record.
    pub nodes: Map<NodeId, Node>,
    /// The adjacency index: each node's ordered outgoing targets.
    pub adj: Map<NodeId, Seq<NodeId>>,
    /// The vector store: each id's authoritative non-empty embedding.
    pub vecs: Map<NodeId, Seq<i64>>,
    /// The decision journal, in append order.
    pub decs: Seq<DecisionRecord>,
    /// The number of edges added to the adjacency index, saturating at
    /// the machine limit.
    pub edges: int,
}

/// The state of a fresh engine with no log.
pub open spec fn state_init() -> StateV {
    StateV {
        nodes: Map::<NodeId, Node>::empty(),
        adj: Map::<NodeId, Seq<NodeId>>::empty(),
        vecs: Map::<NodeId, Seq<i64>>::empty(),
        decs: Seq::<DecisionRecord>::empty(),
        edges: 0,
    }
}

/// Adds edge counts, saturating at the machine limit.
pub open spec fn sat_add(e: int, n: int) -> int {
    if e + n <= usize::MAX {
        e + n
    } else {
        usize::MAX as int
    }
}

/// The adjacency map after adding the first `n` embedded edges of a
/// node record, in order.
pub open spec fn adj_after_edges(
    adj: Map<NodeId, Seq<NodeId>>,
    edges: Seq<Edge>,
    n: int,
) -> Map<NodeId, Seq<NodeId>>
    decreases n,
{
    if n <= 0 {
        adj
    } else {
        edge_added(adj_after_edges(adj, edges, n - 1), edges[n - 1].from, edges[n - 1].to)
    }
}

/// The vector store after an id's embedding becomes `emb`: a non-empty
/// embedding replaces the entry, an empty one removes it.
///
/// This is a deliberate reading of the log's precedence: the latest
/// record that carries an embedding state for an id wins, whether it
/// is a node record or a standalone embedding record, so the node
/// table and the vector store always agree. A node record with an
/// empty embedding therefore clears any vector an earlier embedding
/// record stored for that id.
pub open spec fn vecs_after(
    vecs: Map<NodeId, Seq<i64>>,
    id: NodeId,
    emb: Seq<i64>,
) -> Map<NodeId, Seq<i64>> {
    if emb.len() > 0 {
        vecs.insert(id, emb)
    } else {
        vecs.remove(id)
    }
}

/// The state after applying one log record, as replay does.
pub open spec fn apply_rec(st: StateV, r: WalRecord) -> StateV {
    match r {
        WalRecord::Node { data: n } => StateV {
            nodes: st.nodes.insert(n.id, n),
            adj: adj_after_edges(st.adj, n.edges@, n.edges@.len() as int),
            vecs: vecs_after(st.vecs, n.id, n.embedding@),
            decs: st.decs,
            edges: sat_add(st.edges, n.edges@.len() as int),
        },
        WalRecord::Edge { from, to, edge_type } => StateV {
            adj: edge_added(st.adj, from, to),
            nodes: st.nodes,
            vecs: st.vecs,
            decs: st.decs,
            edges: sat_add(st.edges, 1),
        },
        WalRecord::Embedding { id, vec } => StateV {
            nodes: if st.nodes.contains_key(id) {
                st.nodes.insert(id, Node { embedding: vec, ..st.nodes[id] })
            } else {
                st.nodes
            },
            adj: st.adj,
            vecs: vecs_after(st.vecs, id, vec@),
            decs: st.decs,
            edges: st.edges,
        },
        WalRecord::Decision { data: d } => StateV {
            decs: st.decs.push(d),
            nodes: st.nodes,
            adj: st.adj,
            vecs: st.vecs,
            edges: st.edges,
        },
    }
}

/// The state after replaying the first `n` records, from empty.
pub open spec fn replay_upto(rs: Seq<WalRecord>, n: int) -> StateV
    decreases n,
{
    if n <= 0 {
        state_init()
    } else {
        apply_rec(replay_upto(rs, n - 1), rs[n - 1])
    }
}

/// Two node tables agree key by key, comparing nodes field by field.
pub open spec fn nodes_like(a: Map<NodeId, Node>, b: Map<NodeId, Node>) -> bool {
    a.dom() == b.dom() && forall|id: NodeId| #[trigger]
        a.contains_key(id) ==> node_like(a[id], b[id])
}

/// Two decision journals agree entry by entry.
pub open spec fn decs_like(a: Seq<DecisionRecord>, b: Seq<DecisionRecord>) -> bool {
    a.len() == b.len() && forall|k: int| 0 <= k < a.len() ==> dec_like(#[trigger] a[k], b[k])
}

/// Two engine states agree: the adjacency and vector maps are equal,
/// and the node table and journal agree up to string identity.
pub open spec fn state_like(a: StateV, b: StateV) -> bool {
    nodes_like(a.nodes, b.nodes) && a.adj == b.adj && a.vecs == b.vecs && decs_like(a.decs, b.decs)
        && a.edges == b.edges
}

/// Adding like edge sequences to equal adjacency maps gives equal maps.
proof fn lemma_adj_after_edges_like(
    adj: Map<NodeId, Seq<NodeId>>,
    e1: Seq<Edge>,
    e2: Seq<Edge>,
    n: int,
)
    requires
        crate::wal::edges_like(e1, e2),
        n <= e1.len(),
    ensures
        adj_after_edges(adj, e1, n) == adj_after_edges(adj, e2, n),
    decreases n,
{
    if n > 0 {
        lemma_adj_after_edges_like(adj, e1, e2, n - 1);
        assert(crate::wal::edge_like(e1[n - 1], e2[n - 1]));
    }
}

/// Applying like records to like states gives like states.
pub proof fn lemma_apply_like(a: StateV, b: StateV, x: WalRecord, y: WalRecord)
    requires
        state_like(a, b),
        rec_like(x, y),
    ensures
        state_like(apply_rec(a, x), apply_rec(b, y)),
{
    match (x, y) {
        (WalRecord::Node { data: n1 }, WalRecord::Node { data: n2 }) => {
            lemma_adj_after_edges_like(a.adj, n1.edges@, n2.edges@, n1.edges@.len() as int);
            assert(apply_rec(a, x).nodes.dom() =~= apply_rec(b, y).nodes.dom());
            assert forall|id: NodeId| #[trigger]
                apply_rec(a, x).nodes.contains_key(id) implies node_like(
                apply_rec(a, x).nodes[id],
                apply_rec(b, y).nodes[id],
            ) by {
                if id != n1.id {
                    assert(a.nodes.contains_key(id));
                }
            }
            assert(apply_rec(a, x).vecs =~= apply_rec(b, y).vecs);
        },
        (WalRecord::Edge { .. }, WalRecord::Edge { .. }) => {},
        (WalRecord::Embedding { id: i1, vec: v1 }, WalRecord::Embedding { id: i2, vec: v2 }) => {
            assert(apply_rec(a, x).vecs =~= apply_rec(b, y).vecs);
            assert(apply_rec(a, x).nodes.dom() =~= apply_rec(b, y).nodes.dom()) by {
                if a.nodes.contains_key(i1) {
                    assert(b.nodes.contains_key(i1));
                }
            }
            assert forall|id: NodeId| #[trigger]
                apply_rec(a, x).nodes.contains_key(id) implies node_like(
                apply_rec(a, x).nodes[id],
                apply_rec(b, y).nodes[id],
            ) by {
                if a.nodes.contains_key(i1) && id == i1 {
                    assert(node_like(a.nodes[i1], b.nodes[i1]));
                } else {
                    assert(a.nodes.contains_key(id));
                }
            }
        },
        (WalRecord::Decision { data: d1 }, WalRecord::Decision { data: d2 }) => {
            assert forall|k: int|
                0 <= k < apply_rec(a, x).decs.len() implies dec_like(
                #[trigger] apply_rec(a, x).decs[k],
                apply_rec(b, y).decs[k],
            ) by {
                if k < a.decs.len() {
                    assert(dec_like(a.decs[k], b.decs[k]));
                }
            }
        },
        _ => {
            assert(false);
        },
    }
}

/// Replaying one more record is applying it to the replayed prefix.
pub proof fn lemma_replay_snoc(rs: Seq<WalRecord>, r: WalRecord)
    ensures
        replay_upto(rs.push(r), rs.len() as int + 1) == apply_rec(
            replay_upto(rs.push(r), rs.len() as int),
            r,
        ),
        forall|n: int|
            0 <= n <= rs.len() ==> #[trigger] replay_upto(rs.push(r), n) == replay_upto(rs, n),
{
    assert forall|n: int|
        0 <= n <= rs.len() implies #[trigger] replay_upto(rs.push(r), n) == replay_upto(
        rs,
        n,
    ) by {
        lemma_replay_prefix(rs.push(r), rs, n);
    }
}

/// Replay only looks at the records before its bound.
proof fn lemma_replay_prefix(a: Seq<WalRecord>, b: Seq<WalRecord>, n: int)
    requires
        n <= a.len(),
        n <= b.len(),
        forall|k: int| 0 <= k < n ==> a[k] == b[k],
    ensures
        replay_upto(a, n) == replay_upto(b, n),
    decreases n,
{
    if n > 0 {
        lemma_replay_prefix(a, b, n - 1);
    }
}

/// The main database engine.
///
/// Owns the node table, the adjacency index, the exact vector store,
/// the decision journal, and, when asynchronous indexing is on, the
/// staging buffer. Every write first encodes its log record — the
/// returned line — and then applies the record to the in-memory state.
pub struct BarqGraphDb {
    /// Configuration the engine was opened with.
    options: DbOptions,
    /// The node table.
    nodes: HashMap<NodeId, Node>,
    /// Insertion order of node ids, for listing.
    node_ids: Vec<NodeId>,
    /// The adjacency index.
    adjacency: HashMap<NodeId, Vec<NodeId>>,
    /// The exact vector store.
    vectors: LinearVectorIndex,
    /// The staging buffer, when asynchronous indexing is on.
    pending: Option<BatchQueue>,
    /// The decision journal.
    decisions: Vec<DecisionRecord>,
    /// The number of edges added to the adjacency index, saturating at
    /// the machine limit.
    edges_total: usize,
}

impl BarqGraphDb {
    /// The node table as a map.
    pub closed spec fn nodes_view(self) -> Map<NodeId, Node> {
        self.nodes@
    }

    /// The adjacency index as a map of sequences.
    pub closed spec fn adj_view(self) -> Map<NodeId, Seq<NodeId>> {
        self.adjacency@.map_values(|v: Vec<NodeId>| v@)
    }

    /// The vector store as a map.
    pub closed spec fn vec_view(self) -> Map<NodeId, Seq<i64>> {
        self.vectors.contents()
    }

    /// The decision journal as a sequence.
    pub closed spec fn dec_view(self) -> Seq<DecisionRecord> {
        self.decisions@
    }

    /// The staging buffer's pending updates, when it exists.
    pub closed spec fn pending_view(self) -> Option<Seq<Node>> {
        match self.pending {
            Option::Some(q) => Option::Some(q.pending()),
            Option::None => Option::None,
        }
    }

    /// The options the engine was opened with.
    pub closed spec fn opts(self) -> DbOptions {
        self.options
    }

    /// The number of edges added, saturating at the machine limit.
    pub closed spec fn edge_total(self) -> int {
        self.edges_total as int
    }

    /// The whole in-memory state.
    pub open spec fn state(self) -> StateV {
        StateV {
            nodes: self.nodes_view(),
            adj: self.adj_view(),
            vecs: self.vec_view(),
            decs: self.dec_view(),
            edges: self.edge_total(),
        }
    }

    /// The number of stored vectors of dimension `d`.
    pub closed spec fn vec_match_count(self, d: nat) -> int {
        self.vectors.match_count(d)
    }

    /// The number of stored vectors.
    pub closed spec fn vec_count(self) -> nat {
        self.vectors.count()
    }

    /// Internal consistency: the vector store is well formed, every
    /// node sits under its own id with storable fields, the id list
    /// mirrors the node table, and the staging buffer exists exactly
    /// when asynchronous indexing is on.
    pub closed spec fn wf(self) -> bool {
        &&& self.vectors.wf()
        &&& forall|id: NodeId| #[trigger]
            self.nodes@.contains_key(id) ==> self.nodes@[id].id == id && vec_ok(
                self.nodes@[id].embedding@,
            ) && wf_node(self.nodes@[id])
        &&& forall|i: int, j: int|
            0 <= i < j < self.node_ids@.len() ==> self.node_ids@[i] != self.node_ids@[j]
        &&& forall|i: int|
            0 <= i < self.node_ids@.len() ==> self.nodes@.contains_key(
                #[trigger] self.node_ids@[i],
            )
        &&& forall|id: NodeId| #[trigger]
            self.nodes@.contains_key(id) ==> self.node_ids@.contains(id)
        &&& (self.pending is Some <==> self.options.async_indexing)
    }

    /// True when the engine parks vector updates instead of applying
    /// them at once.
    pub open spec fn is_async(self) -> bool {
        self.opts().async_indexing
    }
}

impl BarqGraphDb {
    /// Adds one directed edge to the adjacency index, counting it.
    fn adj_add(&mut self, from: NodeId, to: NodeId)
        ensures
            final(self).adj_view() == edge_added(old(self).adj_view(), from, to),
            final(self).edge_total() == sat_add(old(self).edge_total(), 1),
            final(self).nodes_view() == old(self).nodes_view(),
            final(self).vec_view() == old(self).vec_view(),
            final(self).dec_view() == old(self).dec_view(),
            final(self).node_ids@ == old(self).node_ids@,
            final(self).vectors == old(self).vectors,
            final(self).pending == old(self).pending,
            final(self).options == old(self).options,
            final(self).nodes@ == old(self).nodes@,
    {
        let list = match self.adjacency.get(&from) {
            Some(v) => {
                let mut v2 = crate::copy_u64s(v);
                v2.push(to);
                v2
            },
            None => {
                let mut v2: Vec<NodeId> = Vec::new();
                v2.push(to);
                v2
            },
        };
        self.adjacency.insert(from, list);
        if !self.adjacency.contains_key(&to) {
            self.adjacency.insert(to, Vec::new());
        }
        if self.edges_total < usize::MAX {
            self.edges_total = self.edges_total + 1;
        }
        proof {
            assert(self.adj_view() =~= edge_added(old(self).adj_view(), from, to));
        }
    }

    /// Stores or replaces a vector in the vector store.
    fn vec_set(&mut self, id: NodeId, emb: &Vec<i64>)
        requires
            old(self).vectors.wf(),
            vec_ok(emb@),
        ensures
            final(self).vectors.wf(),
            final(self).vec_view() == vecs_after(old(self).vec_view(), id, emb@),
            final(self).nodes_view() == old(self).nodes_view(),
            final(self).adj_view() == old(self).adj_view(),
            final(self).dec_view() == old(self).dec_view(),
            final(self).node_ids@ == old(self).node_ids@,
            final(self).pending == old(self).pending,
            final(self).options == old(self).options,
            final(self).nodes@ == old(self).nodes@,
            final(self).adjacency@ == old(self).adjacency@,
            final(self).edge_total() == old(self).edge_total(),
    {
        if emb.len() > 0 {
            self.vectors.insert(id, emb);
        } else {
            self.vectors.remove(id);
        }
    }

    /// Inserts a node into the node table, tracking first appearance.
    fn nodes_put(&mut self, n: Node)
        requires
            forall|i: int, j: int|
                0 <= i < j < old(self).node_ids@.len() ==> old(self).node_ids@[i] != old(self).node_ids@[j],
            forall|i: int|
                0 <= i < old(self).node_ids@.len() ==> old(self).nodes@.contains_key(
                    #[trigger] old(self).node_ids@[i],
                ),
            forall|id: NodeId| #[trigger]
                old(self).nodes@.contains_key(id) ==> old(self).node_ids@.contains(id),
        ensures
            final(self).nodes_view() == old(self).nodes_view().insert(n.id, n),
            forall|i: int, j: int|
                0 <= i < j < final(self).node_ids@.len() ==> final(self).node_ids@[i] != final(self).node_ids@[j],
            forall|i: int|
                0 <= i < final(self).node_ids@.len() ==> final(self).nodes@.contains_key(
                    #[trigger] final(self).node_ids@[i],
                ),
            forall|id: NodeId| #[trigger]
                final(self).nodes@.contains_key(id) ==> final(self).node_ids@.contains(id),
            final(self).adj_view() == old(self).adj_view(),
            final(self).vec_view() == old(self).vec_view(),
            final(self).dec_view() == old(self).dec_view(),
            final(self).vectors == old(self).vectors,
            final(self).pending == old(self).pending,
            final(self).options == old(self).options,
            final(self).adjacency@ == old(self).adjacency@,
            final(self).edge_total() == old(self).edge_total(),
    {
        let is_new = !self.nodes.contains_key(&n.id);
        let id = n.id;
        self.nodes.insert(n.id, n);
        if is_new {
            self.node_ids.push(id);
            proof {
                assert forall|i: int, j: int|
                    0 <= i < j < self.node_ids@.len() implies self.node_ids@[i]
                    != self.node_ids@[j] by {
                    if j == self.node_ids@.len() - 1 {
                        assert(old(self).nodes@.contains_key(old(self).node_ids@[i]));
                    }
                }
                assert forall|x: NodeId| #[trigger]
                    self.nodes@.contains_key(x) implies self.node_ids@.contains(x) by {
                    if x == id {
                        assert(self.node_ids@[self.node_ids@.len() - 1] == x);
                    } else {
                        let w = choose|w: int|
                            0 <= w < old(self).node_ids@.len() && old(self).node_ids@[w] == x;
                        assert(self.node_ids@[w] == x);
                    }
                }
            }
        } else {
            proof {
                assert forall|x: NodeId| #[trigger]
                    self.nodes@.contains_key(x) implies self.node_ids@.contains(x) by {
                    let w = choose|w: int|
                        0 <= w < old(self).node_ids@.len() && old(self).node_ids@[w] == x;
                    assert(self.node_ids@[w] == x);
                }
            }
        }
    }

    /// Applies a node record to the in-memory state, updating the
    /// vector store directly.
    fn apply_node_mem(&mut self, n: Node)
        requires
            old(self).wf(),
            n.id == n.id,
            vec_ok(n.embedding@),
            wf_node(n),
        ensures
            final(self).wf(),
            final(self).state() == apply_rec(old(self).state(), WalRecord::Node { data: n }),
            final(self).pending == old(self).pending,
            final(self).options == old(self).options,
    {
        let ghost edges = n.edges@;
        let mut i: usize = 0;
        while i < n.edges.len()
            invariant
                0 <= i <= edges.len(),
                n.edges@ == edges,
                self.adj_view() == adj_after_edges(old(self).adj_view(), edges, i as int),
                self.edge_total() == sat_add(old(self).edge_total(), i as int),
                self.nodes@ == old(self).nodes@,
                self.node_ids@ == old(self).node_ids@,
                self.vectors == old(self).vectors,
                self.pending == old(self).pending,
                self.options == old(self).options,
                self.vec_view() == old(self).vec_view(),
                self.dec_view() == old(self).dec_view(),
            decreases edges.len() - i,
        {
            let e_from = n.edges[i].from;
            let e_to = n.edges[i].to;
            self.adj_add(e_from, e_to);
            i = i + 1;
        }
        self.vec_set(n.id, &n.embedding);
        self.nodes_put(n);
        proof {
            assert(final(self).state().nodes =~= apply_rec(
                old(self).state(),
                WalRecord::Node { data: n },
            ).nodes);
        }
    }

    /// Applies an embedding record to the in-memory state, updating
    /// the vector store directly.
    fn apply_embedding_mem(&mut self, id: NodeId, vec: Vec<i64>)
        requires
            old(self).wf(),
            vec_ok(vec@),
        ensures
            final(self).wf(),
            final(self).state() == apply_rec(old(self).state(), WalRecord::Embedding { id, vec }),
            final(self).pending == old(self).pending,
            final(self).options == old(self).options,
    {
        self.vec_set(id, &vec);
        let has = self.nodes.contains_key(&id);
        if has {
            let taken = self.nodes.remove(&id);
            match taken {
                Some(mut nd) => {
                    nd.embedding = vec;
                    let ghost nd_after = nd;
                    self.nodes.insert(id, nd);
                    proof {
                        assert(old(self).nodes@.contains_key(id));
                        assert(old(self).nodes@[id].id == id);
                        assert(nd_after == Node {
                            embedding: vec,
                            ..old(self).nodes@[id]
                        });
                        assert(self.nodes@ =~= old(self).nodes@.insert(id, nd_after));
                        assert forall|x: NodeId| #[trigger]
                            self.nodes@.contains_key(x) implies self.node_ids@.contains(x) by {
                            assert(old(self).nodes@.contains_key(x));
                        }
                    }
                },
                None => {
                    proof {
                        assert(false);
                    }
                },
            }
        }
        proof {
            assert(final(self).state().nodes =~= apply_rec(
                old(self).state(),
                WalRecord::Embedding { id, vec },
            ).nodes);
        }
    }
}


impl BarqGraphDb {
    /// Appends a node to the database, last write winning for its id.
    ///
    /// On success the returned text is the node's log line, which the
    /// caller must append to the log with a trailing newline before
    /// trusting the write; the in-memory state advances by the node
    /// record. With asynchronous indexing the vector store is left
    /// untouched and the update is parked in the staging buffer.
    /// A node whose embedding is out of range or whose strings the log
    /// cannot carry is rejected unchanged.
    pub fn append_node(&mut self, node: Node) -> (r: Result<String, BarqError>)
        requires
            old(self).wf(),
        ensures
            final(self).wf(),
            final(self).opts() == old(self).opts(),
            match r {
                Ok(line) => {
                    &&& vec_ok(node.embedding@) && wf_node(node)
                    &&& line@ == enc_record(WalRecord::Node { data: node })
                    &&& !old(self).is_async() ==> final(self).state() == apply_rec(
                        old(self).state(),
                        WalRecord::Node { data: node },
                    ) && final(self).pending_view() == old(self).pending_view()
                    &&& old(self).is_async() ==> {
                        let applied = apply_rec(old(self).state(), WalRecord::Node { data: node });
                        &&& final(self).state() == StateV { vecs: old(self).state().vecs, ..applied }
                        &&& match (old(self).pending_view(), final(self).pending_view()) {
                            (Option::Some(p0), Option::Some(p1)) => p1.len() == p0.len() + 1
                                && p1.subrange(0, p0.len() as int) == p0 && node_like(
                                p1[p0.len() as int],
                                node,
                            ),
                            _ => false,
                        }
                    }
                },
                Err(e) => {
                    &&& !(vec_ok(node.embedding@) && wf_node(node))
                    &&& e is InvalidOperation
                    &&& final(self).state() == old(self).state()
                    &&& final(self).pending_view() == old(self).pending_view()
                },
            },
    {
        if !(check_vec_ok(&node.embedding) && check_node_strings(&node)) {
            return Err(BarqError::InvalidOperation(msg_invalid()));
        }
        let rec = WalRecord::Node { data: clone_node(&node) };
        let line = encode_record(&rec);
        proof {
            match rec {
                WalRecord::Node { data: cn } => {
                    lemma_enc_node_like(cn, node);
                },
                _ => {},
            }
        }
        let is_async = match &self.pending {
            Some(_) => true,
            None => false,
        };
        if is_async {
            let parked = clone_node(&node);
            let ghost edges = node.edges@;
            let mut i: usize = 0;
            while i < node.edges.len()
                invariant
                    0 <= i <= edges.len(),
                    node.edges@ == edges,
                    self.adj_view() == adj_after_edges(old(self).adj_view(), edges, i as int),
                    self.edge_total() == sat_add(old(self).edge_total(), i as int),
                    self.nodes@ == old(self).nodes@,
                    self.node_ids@ == old(self).node_ids@,
                    self.vectors == old(self).vectors,
                    self.pending == old(self).pending,
                    self.options == old(self).options,
                    self.vec_view() == old(self).vec_view(),
                    self.dec_view() == old(self).dec_view(),
                decreases edges.len() - i,
            {
                let e_from = node.edges[i].from;
                let e_to = node.edges[i].to;
                self.adj_add(e_from, e_to);
                i = i + 1;
            }
            match &mut self.pending {
                Some(q) => {
                    q.push(parked);
                },
                None => {},
            }
            self.nodes_put(node);
            proof {
                assert(final(self).state().nodes =~= apply_rec(
                    old(self).state(),
                    WalRecord::Node { data: node },
                ).nodes);
            }
        } else {
            self.apply_node_mem(node);
        }
        Ok(line)
    }

    /// Adds a directed edge between two nodes.
    ///
    /// On success the returned text is the edge's log line; the
    /// adjacency index gains the edge, and when the source node exists
    /// its in-memory edge list gains the triple too — the durable
    /// record for the edge is the standalone line, not a re-written
    /// node. An edge type the log cannot carry is rejected unchanged.
    pub fn add_edge(&mut self, from: NodeId, to: NodeId, edge_type: &str) -> (r: Result<
        String,
        BarqError,
    >)
        requires
            old(self).wf(),
        ensures
            final(self).wf(),
            final(self).opts() == old(self).opts(),
            final(self).pending_view() == old(self).pending_view(),
            match r {
                Ok(line) => {
                    &&& str_ok(edge_type@)
                    &&& exists|s: String|
                        s@ == edge_type@ && line@ == #[trigger] enc_record(
                            WalRecord::Edge { from, to, edge_type: s },
                        )
                    &&& final(self).adj_view() == edge_added(old(self).adj_view(), from, to)
                    &&& final(self).state().edges == sat_add(old(self).state().edges, 1)
                    &&& final(self).vec_view() == old(self).vec_view()
                    &&& final(self).dec_view() == old(self).dec_view()
                    &&& final(self).nodes_view().dom() == old(self).nodes_view().dom()
                    &&& !old(self).nodes_view().contains_key(from) ==> final(self).nodes_view()
                        == old(self).nodes_view()
                    &&& old(self).nodes_view().contains_key(from) ==> {
                        let before = old(self).nodes_view()[from];
                        let after = final(self).nodes_view()[from];
                        &&& forall|id: NodeId|
                            id != from && #[trigger] old(self).nodes_view().contains_key(id)
                                ==> final(self).nodes_view()[id] == old(self).nodes_view()[id]
                        &&& after.edges@.len() == before.edges@.len() + 1
                        &&& after.edges@.subrange(0, before.edges@.len() as int) == before.edges@
                        &&& after.edges@[before.edges@.len() as int].from == from
                        &&& after.edges@[before.edges@.len() as int].to == to
                        &&& after.edges@[before.edges@.len() as int].edge_type@ == edge_type@
                        &&& after.id == before.id && after.label@ == before.label@
                            && after.embedding@ == before.embedding@ && after.timestamp
                            == before.timestamp && after.agent_id == before.agent_id
                            && after.rule_tags@ == before.rule_tags@
                    }
                },
                Err(e) => {
                    &&& !str_ok(edge_type@)
                    &&& e is InvalidOperation
                    &&& final(self).state() == old(self).state()
                },
            },
    {
        let et: String = edge_type_string(edge_type);
        if !check_str_ok(&et) {
            return Err(BarqError::InvalidOperation(msg_invalid()));
        }
        let rec_et = et.clone();
        let rec = WalRecord::Edge { from, to, edge_type: rec_et };
        let line = encode_record(&rec);
        self.adj_add(from, to);
        let has = self.nodes.contains_key(&from);
        if has {
            let taken = self.nodes.remove(&from);
            match taken {
                Some(mut nd) => {
                    nd.edges.push(Edge { from, to, edge_type: et });
                    self.nodes.insert(from, nd);
                    proof {
                        assert(self.nodes@.dom() =~= old(self).nodes@.dom());
                        assert forall|x: NodeId| #[trigger]
                            self.nodes@.contains_key(x) implies self.node_ids@.contains(x) by {
                            assert(old(self).nodes@.contains_key(x));
                        }
                        assert(self.nodes@[from].edges@.subrange(
                            0,
                            old(self).nodes@[from].edges@.len() as int,
                        ) =~= old(self).nodes@[from].edges@);
                    }
                },
                None => {
                    proof {
                        assert(false);
                    }
                },
            }
        }
        Ok(line)
    }

    /// Sets the vector embedding for a node.
    ///
    /// On success the returned text is the embedding's log line; the
    /// vector store takes the vector (an empty vector clears the
    /// entry), and when the node exists its in-memory embedding is
    /// rewritten. With asynchronous indexing the vector store is left
    /// untouched and the update is parked. An out-of-range vector is
    /// rejected unchanged.
    pub fn set_embedding(&mut self, id: NodeId, embedding: Vec<i64>) -> (r: Result<
        String,
        BarqError,
    >)
        requires
            old(self).wf(),
        ensures
            final(self).wf(),
            final(self).opts() == old(self).opts(),
            match r {
                Ok(line) => {
                    &&& vec_ok(embedding@)
                    &&& line@ == enc_record(WalRecord::Embedding { id, vec: embedding })
                    &&& !old(self).is_async() ==> final(self).state() == apply_rec(
                        old(self).state(),
                        WalRecord::Embedding { id, vec: embedding },
                    ) && final(self).pending_view() == old(self).pending_view()
                    &&& old(self).is_async() ==> {
                        let applied = apply_rec(
                            old(self).state(),
                            WalRecord::Embedding { id, vec: embedding },
                        );
                        &&& final(self).state() == StateV { vecs: old(self).state().vecs, ..applied }
                        &&& match (old(self).pending_view(), final(self).pending_view()) {
                            (Option::Some(p0), Option::Some(p1)) => p1.len() == p0.len() + 1
                                && p1.subrange(0, p0.len() as int) == p0 && p1[p0.len() as int].id
                                == id && p1[p0.len() as int].embedding@ == embedding@,
                            _ => false,
                        }
                    }
                },
                Err(e) => {
                    &&& !vec_ok(embedding@)
                    &&& e is InvalidOperation
                    &&& final(self).state() == old(self).state()
                    &&& final(self).pending_view() == old(self).pending_view()
                },
            },
    {
        if !check_vec_ok(&embedding) {
            return Err(BarqError::InvalidOperation(msg_invalid()));
        }
        let rec = WalRecord::Embedding { id, vec: crate::copy_i64s(&embedding) };
        let line = encode_record(&rec);
        proof {
            match rec {
                WalRecord::Embedding { id: ri, vec: rv } => {
                    assert(crate::wal::enc_payload(WalRecord::Embedding { id, vec: embedding })
                        == crate::wal::enc_payload(rec));
                },
                _ => {},
            }
        }
        let is_async = match &self.pending {
            Some(_) => true,
            None => false,
        };
        if is_async {
            let mut parked = Node::with_timestamp(id, String::new(), 0);
            parked.embedding = crate::copy_i64s(&embedding);
            match &mut self.pending {
                Some(q) => {
                    q.push(parked);
                },
                None => {},
            }
            let has = self.nodes.contains_key(&id);
            if has {
                let taken = self.nodes.remove(&id);
                match taken {
                    Some(mut nd) => {
                        nd.embedding = embedding;
                        let ghost nd_after = nd;
                        self.nodes.insert(id, nd);
                        proof {
                            assert(self.nodes@ =~= old(self).nodes@.insert(id, nd_after));
                            assert forall|x: NodeId| #[trigger]
                                self.nodes@.contains_key(x) implies self.node_ids@.contains(
                                x,
                            ) by {
                                assert(old(self).nodes@.contains_key(x));
                            }
                        }
                    },
                    None => {
                        proof {
                            assert(false);
                        }
                    },
                }
            }
            proof {
                assert(final(self).state().nodes =~= (StateV {
                    vecs: old(self).state().vecs,
                    ..apply_rec(old(self).state(), WalRecord::Embedding { id, vec: embedding })
                }).nodes);
            }
        } else {
            self.apply_embedding_mem(id, embedding);
        }
        Ok(line)
    }

    /// Records an agent decision.
    ///
    /// On success the returned text is the decision's log line and the
    /// journal gains the record at its end. A decision whose score is
    /// out of range or whose notes the log cannot carry is rejected
    /// unchanged.
    pub fn record_decision(&mut self, record: DecisionRecord) -> (r: Result<String, BarqError>)
        requires
            old(self).wf(),
        ensures
            final(self).wf(),
            final(self).opts() == old(self).opts(),
            final(self).pending_view() == old(self).pending_view(),
            match r {
                Ok(line) => {
                    &&& wf_decision(record)
                    &&& line@ == enc_record(WalRecord::Decision { data: record })
                    &&& final(self).state() == apply_rec(
                        old(self).state(),
                        WalRecord::Decision { data: record },
                    )
                },
                Err(e) => {
                    &&& !wf_decision(record)
                    &&& e is InvalidOperation
                    &&& final(self).state() == old(self).state()
                },
            },
    {
        let score_ok = -crate::FIXED_LIMIT <= record.score && record.score <= crate::FIXED_LIMIT;
        let notes_ok = match &record.notes {
            Some(nn) => check_str_ok(nn),
            None => true,
        };
        if !(score_ok && notes_ok) {
            return Err(BarqError::InvalidOperation(msg_invalid()));
        }
        let rec = WalRecord::Decision { data: clone_decision(&record) };
        let line = encode_record(&rec);
        proof {
            match rec {
                WalRecord::Decision { data: cd } => {
                    crate::wal::lemma_enc_decision_like(cd, record);
                },
                _ => {},
            }
        }
        self.decisions.push(record);
        Ok(line)
    }
}

/// Checks at run time that every string a node carries is storable.
fn check_node_strings(n: &Node) -> (r: bool)
    ensures
        r == (str_ok(n.label@) && crate::wal::wf_edges(n.edges@) && crate::wal::wf_strings(
            n.rule_tags@,
        )),
{
    if !check_str_ok(&n.label) {
        return false;
    }
    let mut i: usize = 0;
    while i < n.edges.len()
        invariant
            0 <= i <= n.edges@.len(),
            forall|t: int| 0 <= t < i ==> crate::wal::wf_edge(#[trigger] n.edges@[t]),
        decreases n.edges@.len() - i,
    {
        if !check_str_ok(&n.edges[i].edge_type) {
            return false;
        }
        i = i + 1;
    }
    let mut j: usize = 0;
    while j < n.rule_tags.len()
        invariant
            0 <= j <= n.rule_tags@.len(),
            forall|t: int| 0 <= t < j ==> str_ok((#[trigger] n.rule_tags@[t])@),
        decreases n.rule_tags@.len() - j,
    {
        if !check_str_ok(&n.rule_tags[j]) {
            return false;
        }
        j = j + 1;
    }
    true
}


/// The message used for rejected out-of-range inputs.
fn msg_invalid() -> String {
    let mut out: String = String::new();
    out.append("input out of range for the fixed-point log format");
    out
}

/// Builds an owned string from a borrowed edge type.
fn edge_type_string(s: &str) -> (r: String)
    ensures
        r@ == s@,
{
    let mut out: String = String::new();
    out.append(s);
    out
}


/// The decisions of one agent, in journal order.
pub open spec fn filter_agent_upto(s: Seq<DecisionRecord>, agent: u64, n: int) -> Seq<
    DecisionRecord,
>
    decreases n,
{
    if n <= 0 {
        Seq::<DecisionRecord>::empty()
    } else {
        let rest = filter_agent_upto(s, agent, n - 1);
        if s[n - 1].agent_id == agent {
            rest.push(s[n - 1])
        } else {
            rest
        }
    }
}

impl BarqGraphDb {
    /// Returns the node table.
    pub fn nodes(&self) -> (r: &HashMap<NodeId, Node>)
        ensures
            r@ == self.nodes_view(),
    {
        &self.nodes
    }

    /// Gets a node by its id.
    pub fn get_node(&self, id: NodeId) -> (r: Option<&Node>)
        ensures
            match r {
                Some(n) => self.nodes_view().contains_key(id) && *n == self.nodes_view()[id],
                None => !self.nodes_view().contains_key(id),
            },
    {
        self.nodes.get(&id)
    }

    /// Returns the number of nodes in the database.
    pub fn node_count(&self) -> (n: usize)
        ensures
            n == self.nodes_view().dom().len(),
    {
        self.nodes.len()
    }

    /// Returns the data directory path the engine was opened with.
    pub fn path(&self) -> (r: &String)
        ensures
            r@ == self.opts().path@,
    {
        &self.options.path
    }

    /// Lists every node, each field for field equal to its table
    /// entry, in first-insertion order.
    pub fn list_nodes(&self) -> (r: Vec<Node>)
        requires
            self.wf(),
        ensures
            forall|a: int|
                0 <= a < r@.len() ==> self.nodes_view().contains_key((#[trigger] r@[a]).id)
                    && node_like(r@[a], self.nodes_view()[r@[a].id]),
            forall|id: NodeId| #[trigger]
                self.nodes_view().contains_key(id) ==> exists|a: int|
                    0 <= a < r@.len() && (#[trigger] r@[a]).id == id,
            forall|a: int, b: int| 0 <= a < b < r@.len() ==> r@[a].id != r@[b].id,
    {
        let mut out: Vec<Node> = Vec::new();
        let mut i: usize = 0;
        while i < self.node_ids.len()
            invariant
                self.wf(),
                0 <= i <= self.node_ids@.len(),
                out@.len() == i,
                forall|a: int|
                    0 <= a < i ==> (#[trigger] out@[a]).id == self.node_ids@[a]
                        && self.nodes_view().contains_key(out@[a].id) && node_like(
                        out@[a],
                        self.nodes_view()[out@[a].id],
                    ),
            decreases self.node_ids@.len() - i,
        {
            let id = self.node_ids[i];
            match self.nodes.get(&id) {
                Some(n) => {
                    out.push(clone_node(n));
                },
                None => {
                    proof {
                        assert(false);
                    }
                },
            }
            i = i + 1;
        }
        proof {
            assert forall|id: NodeId| #[trigger]
                self.nodes_view().contains_key(id) implies exists|a: int|
                0 <= a < out@.len() && (#[trigger] out@[a]).id == id by {
                let w = choose|w: int|
                    0 <= w < self.node_ids@.len() && self.node_ids@[w] == id;
                assert(out@[w].id == id);
            }
            assert forall|a: int, b: int|
                0 <= a < b < out@.len() implies out@[a].id != out@[b].id by {
                assert(out@[a].id == self.node_ids@[a] && out@[b].id == self.node_ids@[b]);
            }
        }
        out
    }

    /// Returns the ordered outgoing neighbors of a node, or `None`
    /// when the node is unknown to the adjacency index.
    pub fn neighbors(&self, id: NodeId) -> (r: Option<&Vec<NodeId>>)
        ensures
            match r {
                Some(v) => self.adj_view().contains_key(id) && v@ == self.adj_view()[id],
                None => !self.adj_view().contains_key(id),
            },
    {
        self.adjacency.get(&id)
    }

    /// Returns the total number of edges added to the adjacency
    /// index, saturating at the machine limit.
    pub fn edge_count(&self) -> (n: usize)
        ensures
            n as int == self.state().edges,
    {
        self.edges_total
    }

    /// Finds the nearest stored vectors to a query vector, by exact
    /// linear scan over the authoritative vector store.
    pub fn knn_search(&self, query: &Vec<i64>, k: usize) -> (r: Vec<(NodeId, u64)>)
        requires
            self.wf(),
            vec_ok(query@),
        ensures
            r@.len() == if k as int <= self.vec_match_count(query@.len()) {
                k as int
            } else {
                self.vec_match_count(query@.len())
            },
            forall|a: int|
                0 <= a < r@.len() ==> {
                    let p = #[trigger] r@[a];
                    &&& self.vec_view().contains_key(p.0)
                    &&& self.vec_view()[p.0].len() == query@.len()
                    &&& p.1 == spec_l2(query@, self.vec_view()[p.0])
                },
            forall|a: int, b: int| 0 <= a < b < r@.len() ==> r@[a].1 <= r@[b].1,
            forall|a: int, b: int| 0 <= a < b < r@.len() ==> r@[a].0 != r@[b].0,
            forall|id: NodeId|
                self.vec_view().contains_key(id) && self.vec_view()[id].len() == query@.len()
                    && !(exists|a: int| 0 <= a < r@.len() && (#[trigger] r@[a]).0 == id)
                    && r@.len() > 0 ==> spec_l2(query@, self.vec_view()[id]) >= r@[r@.len()
                    - 1].1,
    {
        self.vectors.knn(query, k)
    }

    /// Returns the number of vectors in the vector store.
    pub fn vector_count(&self) -> (n: usize)
        ensures
            n == self.vec_count(),
    {
        self.vectors.len()
    }

    /// Gets the embedding carried by a node's table entry, when the
    /// node exists and carries one.
    pub fn get_embedding(&self, id: NodeId) -> (r: Option<&Vec<i64>>)
        ensures
            match r {
                Some(v) => self.nodes_view().contains_key(id) && v@
                    == self.nodes_view()[id].embedding@ && v@.len() > 0,
                None => !self.nodes_view().contains_key(id)
                    || self.nodes_view()[id].embedding@.len() == 0,
            },
    {
        match self.nodes.get(&id) {
            Some(n) => {
                if n.embedding.len() > 0 {
                    Some(&n.embedding)
                } else {
                    None
                }
            },
            None => None,
        }
    }

    /// Lists the decisions of one agent, in journal order.
    pub fn list_decisions_for_agent(&self, agent_id: u64) -> (r: Vec<DecisionRecord>)
        ensures
            decs_like(
                r@,
                filter_agent_upto(self.dec_view(), agent_id, self.dec_view().len() as int),
            ),
            forall|k: int| 0 <= k < r@.len() ==> (#[trigger] r@[k]).agent_id == agent_id,
    {
        let mut out: Vec<DecisionRecord> = Vec::new();
        let mut i: usize = 0;
        while i < self.decisions.len()
            invariant
                0 <= i <= self.dec_view().len(),
                decs_like(out@, filter_agent_upto(self.dec_view(), agent_id, i as int)),
                forall|k: int| 0 <= k < out@.len() ==> (#[trigger] out@[k]).agent_id == agent_id,
            decreases self.dec_view().len() - i,
        {
            let ghost prev = out@;
            if self.decisions[i].agent_id == agent_id {
                out.push(clone_decision(&self.decisions[i]));
                proof {
                    assert forall|k: int|
                        0 <= k < out@.len() implies dec_like(
                        #[trigger] out@[k],
                        filter_agent_upto(self.dec_view(), agent_id, i as int + 1)[k],
                    ) by {
                        if k < prev.len() {
                            assert(out@[k] == prev[k]);
                        }
                    }
                }
            }
            i = i + 1;
        }
        out
    }

    /// Lists every decision, in journal order.
    pub fn list_all_decisions(&self) -> (r: Vec<DecisionRecord>)
        ensures
            decs_like(r@, self.dec_view()),
    {
        let mut out: Vec<DecisionRecord> = Vec::new();
        let mut i: usize = 0;
        while i < self.decisions.len()
            invariant
                0 <= i <= self.dec_view().len(),
                out@.len() == i,
                forall|k: int|
                    0 <= k < i ==> dec_like(#[trigger] out@[k], self.dec_view()[k]),
            decreases self.dec_view().len() - i,
        {
            out.push(clone_decision(&self.decisions[i]));
            i = i + 1;
        }
        out
    }

    /// Returns the total number of decisions in the journal.
    pub fn decision_count(&self) -> (n: usize)
        ensures
            n == self.dec_view().len(),
    {
        self.decisions.len()
    }

    /// Gets the first decision with the given id, if any.
    pub fn get_decision(&self, id: u64) -> (r: Option<&DecisionRecord>)
        ensures
            match r {
                Some(d) => d.id == id && exists|k: int|
                    0 <= k < self.dec_view().len() && #[trigger] self.dec_view()[k] == *d && (
                    forall|j: int| 0 <= j < k ==> (#[trigger] self.dec_view()[j]).id != id),
                None => forall|k: int|
                    0 <= k < self.dec_view().len() ==> (#[trigger] self.dec_view()[k]).id != id,
            },
    {
        let mut i: usize = 0;
        while i < self.decisions.len()
            invariant
                0 <= i <= self.dec_view().len(),
                forall|k: int| 0 <= k < i ==> (#[trigger] self.dec_view()[k]).id != id,
            decreases self.dec_view().len() - i,
        {
            if self.decisions[i].id == id {
                return Some(&self.decisions[i]);
            }
            i = i + 1;
        }
        None
    }

    /// Drains the staging buffer into the vector store, applying each
    /// parked update with a non-empty, in-range embedding in order.
    /// Without asynchronous indexing this changes nothing.
    pub fn flush_pending(&mut self)
        requires
            old(self).wf(),
        ensures
            final(self).wf(),
            final(self).opts() == old(self).opts(),
            final(self).nodes_view() == old(self).nodes_view(),
            final(self).adj_view() == old(self).adj_view(),
            final(self).dec_view() == old(self).dec_view(),
            match old(self).pending_view() {
                Option::Some(p) => final(self).vec_view() == apply_pending_upto(
                    old(self).vec_view(),
                    p,
                    p.len() as int,
                ) && final(self).pending_view() == Option::Some(Seq::<Node>::empty()),
                Option::None => final(self).vec_view() == old(self).vec_view() && final(self).pending_view() == old(self).pending_view(),
            },
    {
        let has = match &self.pending {
            Some(_) => true,
            None => false,
        };
        if has {
            let batch = match &mut self.pending {
                Some(q) => q.flush(),
                None => Vec::new(),
            };
            BatchIndexer::apply_batch(&mut self.vectors, &batch);
        }
    }
}


/// A breadth-first path: it starts at `start`, ends at `id`, has one
/// node per hop, and follows adjacency edges.
pub open spec fn path_valid(
    adj: Map<NodeId, Seq<NodeId>>,
    start: NodeId,
    id: NodeId,
    depth: int,
    path: Seq<NodeId>,
) -> bool {
    &&& path.len() == depth + 1
    &&& path[0] == start
    &&& path[depth] == id
    &&& forall|t: int|
        0 <= t < depth ==> crate::graph::has_edge(adj, #[trigger] path[t], path[t + 1])
}

impl BarqGraphDb {
    /// Performs a BFS traversal from a start node up to a maximum
    /// depth.
    ///
    /// A start unknown to both the node table and the adjacency index
    /// gives an empty result. Otherwise the result begins with the
    /// start node, lists each visited node once, and holds exactly the
    /// nodes reachable from the start within `max_hops` edges, with hop
    /// distances nondecreasing along the list. Within one hop distance
    /// the order is not part of the contract.
    #[verifier::rlimit(100)]
    pub fn bfs_hops(&self, start: NodeId, max_hops: usize) -> (r: Vec<NodeId>)
        ensures
            !self.nodes_view().contains_key(start) && !self.adj_view().contains_key(start)
                ==> r@ == Seq::<NodeId>::empty(),
            self.nodes_view().contains_key(start) || self.adj_view().contains_key(start)
                ==> r@.len() >= 1 && r@[0] == start,
            forall|i: int, j: int| 0 <= i < j < r@.len() ==> r@[i] != r@[j],
            forall|i: int|
                0 <= i < r@.len() ==> crate::graph::reachable_within(
                    self.adj_view(),
                    start,
                    #[trigger] r@[i],
                    max_hops as nat,
                ),
            self.nodes_view().contains_key(start) || self.adj_view().contains_key(start)
                ==> forall|id: NodeId|
                crate::graph::reachable_within(self.adj_view(), start, id, max_hops as nat)
                    ==> r@.contains(id),
            forall|i: int, j: int|
                0 <= i < j < r@.len() ==> crate::graph::hop_dist(
                    self.adj_view(),
                    start,
                    #[trigger] r@[i],
                ) <= crate::graph::hop_dist(self.adj_view(), start, #[trigger] r@[j]),
    {
        if !self.nodes.contains_key(&start) && !self.adjacency.contains_key(&start) {
            return Vec::new();
        }
        let mut visited: HashSet<NodeId> = HashSet::new();
        let mut result: Vec<NodeId> = Vec::new();
        let mut queue: VecDeque<(NodeId, usize)> = VecDeque::new();
        let ghost mut depths: Map<NodeId, int> = Map::<NodeId, int>::empty().insert(start, 0);

        queue.push_back((start, 0));
        visited.insert(start);
        result.push(start);

        proof {
            assert(crate::graph::reachable_within(self.adj_view(), start, start, 0));
            assert(queue@[0].0 == start);
            assert(crate::graph::in_node_queue(queue@, start));
            assert(result@[0] == start);
            assert forall|x: NodeId| visited@.contains(x) implies result@.contains(x) by {
                assert(result@[0] == x);
            }
        }

        while queue.len() > 0
            invariant
                result@.len() >= 1 && result@[0] == start,
                forall|i: int, j: int| 0 <= i < j < result@.len() ==> result@[i] != result@[j],
                forall|i: int|
                    0 <= i < result@.len() ==> visited@.contains(#[trigger] result@[i]),
                forall|x: NodeId| visited@.contains(x) ==> result@.contains(x),
                forall|x: NodeId| #[trigger] depths.contains_key(x) <==> visited@.contains(x),
                depths.contains_key(start) && depths[start] == 0,
                forall|x: NodeId| #[trigger]
                    depths.contains_key(x) ==> 0 <= depths[x] <= max_hops && crate::graph::reachable_within(
                        self.adj_view(),
                        start,
                        x,
                        depths[x] as nat,
                    ),
                forall|i: int|
                    0 <= i < queue@.len() ==> depths.contains_key((#[trigger] queue@[i]).0)
                        && depths[queue@[i].0] == queue@[i].1 as int,
                forall|i: int, j: int|
                    0 <= i < j < queue@.len() ==> (#[trigger] queue@[i]).1 <= (
                    #[trigger] queue@[j]).1,
                queue@.len() > 0 ==> queue@[queue@.len() - 1].1 <= queue@[0].1 + 1,
                queue@.len() > 0 ==> forall|x: NodeId| #[trigger]
                    depths.contains_key(x) ==> depths[x] <= queue@[queue@.len() - 1].1 as int,
                forall|x: NodeId| #[trigger]
                    depths.contains_key(x) ==> (crate::graph::in_node_queue(queue@, x) || depths[x] >= max_hops
                        || (forall|w: NodeId| #[trigger]
                        crate::graph::has_edge(self.adj_view(), x, w) ==> depths.contains_key(w) && depths[w]
                            <= depths[x] + 1)),
                forall|a: int, b: int|
                    0 <= a < b < result@.len() ==> depths[result@[a]] <= depths[result@[b]],
            decreases crate::graph::bfs_measure(result@.len(), queue@.len()),
        {
            let ghost prev_q = queue@;
            let ghost prev_result_len = result@.len();
            let ghost prev_queue_len = queue@.len();
            let popped = queue.pop_front();
            let (current, depth) = match popped {
                Some(p) => p,
                None => {
                    proof {
                        assert(false);
                    }
                    (0, 0)
                },
            };
            proof {
                assert(prev_q[0] == (current, depth));
                assert(queue@ =~= prev_q.drop_first());
                assert forall|i: int|
                    0 <= i < queue@.len() implies depth <= (#[trigger] queue@[i]).1 <= depth
                    + 1 by {
                    assert(queue@[i] == prev_q[i + 1]);
                    assert(prev_q[i + 1].1 <= prev_q[prev_q.len() - 1].1);
                }
                assert forall|x: NodeId| #[trigger]
                    depths.contains_key(x) implies depths[x] <= depth + 1 by {
                    assert(depths[x] <= prev_q[prev_q.len() - 1].1 as int);
                }
                assert forall|x: NodeId| #[trigger]
                    depths.contains_key(x) implies (x == current || crate::graph::in_node_queue(queue@, x)
                    || depths[x] >= max_hops || (forall|w: NodeId| #[trigger]
                    crate::graph::has_edge(self.adj_view(), x, w) ==> depths.contains_key(w) && depths[w] <= depths[x]
                        + 1)) by {
                    if x != current && crate::graph::in_node_queue(prev_q, x) {
                        let i = choose|i: int|
                            0 <= i < prev_q.len() && (#[trigger] prev_q[i]).0 == x;
                        if i > 0 {
                            assert(queue@[i - 1].0 == x);
                            assert(crate::graph::in_node_queue(queue@, x));
                        } else {
                            assert(prev_q[0].0 == x);
                        }
                    }
                }
            }
            if depth < max_hops {
                match self.adjacency.get(&current) {
                    Some(neighbors) => {
                        let ghost nbs = neighbors@;
                        let mut j: usize = 0;
                        while j < neighbors.len()
                            invariant
                                nbs == neighbors@,
                                0 <= j <= nbs.len(),
                                self.adj_view().contains_key(current),
                                self.adj_view()[current] == nbs,
                                depths.contains_key(current) && depths[current] == depth,
                                depth < max_hops,
                                result@.len() >= 1 && result@[0] == start,
                                result@.len() >= prev_result_len,
                                queue@.len() <= prev_queue_len - 1 + j,
                                result@.len() - prev_result_len >= queue@.len() - (prev_queue_len
                                    - 1),
                                forall|a: int, b: int|
                                    0 <= a < b < result@.len() ==> result@[a] != result@[b],
                                forall|a: int|
                                    0 <= a < result@.len() ==> visited@.contains(
                                        #[trigger] result@[a],
                                    ),
                                forall|x: NodeId| visited@.contains(x) ==> result@.contains(x),
                                forall|x: NodeId| #[trigger]
                                    depths.contains_key(x) <==> visited@.contains(x),
                                depths.contains_key(start) && depths[start] == 0,
                                forall|x: NodeId| #[trigger]
                                    depths.contains_key(x) ==> 0 <= depths[x] <= max_hops
                                        && crate::graph::reachable_within(
                                        self.adj_view(),
                                        start,
                                        x,
                                        depths[x] as nat,
                                    ),
                                forall|x: NodeId| #[trigger]
                                    depths.contains_key(x) ==> depths[x] <= depth + 1,
                                forall|i: int|
                                    0 <= i < queue@.len() ==> depths.contains_key(
                                        (#[trigger] queue@[i]).0,
                                    ) && depths[queue@[i].0] == queue@[i].1 as int && depth <= queue@[i].1
                                        <= depth + 1,
                                forall|a: int, b: int|
                                    0 <= a < b < queue@.len() ==> (#[trigger] queue@[a]).1 <= (
                                    #[trigger] queue@[b]).1,
                                queue@.len() > 0 ==> forall|x: NodeId| #[trigger]
                                    depths.contains_key(x) ==> depths[x] <= queue@[queue@.len()
                                        - 1].1 as int,
                                forall|t: int|
                                    0 <= t < j ==> depths.contains_key(#[trigger] nbs[t])
                                        && depths[nbs[t]] <= depth + 1,
                                forall|x: NodeId| #[trigger]
                                    depths.contains_key(x) ==> (x == current || crate::graph::in_node_queue(
                                        queue@,
                                        x,
                                    ) || depths[x] >= max_hops || (forall|w: NodeId| #[trigger]
                                        crate::graph::has_edge(self.adj_view(), x, w) ==> depths.contains_key(w)
                                            && depths[w] <= depths[x] + 1)),
                                forall|a: int, b: int|
                                    0 <= a < b < result@.len() ==> depths[result@[a]]
                                        <= depths[result@[b]],
                            decreases nbs.len() - j,
                        {
                            let neighbor = neighbors[j];
                            if !visited.contains(&neighbor) {
                                proof {
                                    assert(crate::graph::has_edge(self.adj_view(), current, neighbor));
                                    assert(crate::graph::reachable_within(
                                        self.adj_view(),
                                        start,
                                        neighbor,
                                        (depth + 1) as nat,
                                    ));
                                    assert(!result@.contains(neighbor));
                                }
                                let ghost old_res = result@;
                                let ghost old_q = queue@;
                                visited.insert(neighbor);
                                result.push(neighbor);
                                queue.push_back((neighbor, depth + 1));
                                proof {
                                    let pre_depths = depths;
                                    depths = depths.insert(neighbor, depth + 1);
                                    assert(result@[old_res.len() as int] == neighbor);
                                    assert(result@.contains(neighbor));
                                    assert forall|x: NodeId| old_res.contains(
                                        x,
                                    ) implies result@.contains(x) by {
                                        let w = choose|w: int|
                                            0 <= w < old_res.len() && old_res[w] == x;
                                        assert(result@[w] == x);
                                    }
                                    assert forall|a: int, b: int|
                                        0 <= a < b < result@.len() implies depths[result@[a]]
                                        <= depths[result@[b]] by {
                                        if b == result@.len() - 1 {
                                            assert(result@[a] == old_res[a]);
                                            assert(old_res[a] != neighbor);
                                            assert(pre_depths.contains_key(old_res[a]));
                                            assert(depths[old_res[a]] == pre_depths[old_res[a]]);
                                            assert(pre_depths[old_res[a]] <= depth + 1);
                                            assert(depths[result@[b]] == depth + 1);
                                        } else {
                                            assert(result@[a] == old_res[a]);
                                            assert(result@[b] == old_res[b]);
                                            assert(old_res[a] != neighbor && old_res[b]
                                                != neighbor);
                                            assert(pre_depths[old_res[a]] <= pre_depths[old_res[
                                                b
                                            ]]);
                                            assert(depths[old_res[a]] == pre_depths[old_res[a]]
                                                && depths[old_res[b]] == pre_depths[old_res[b]]);
                                        }
                                    }
                                    assert(queue@[queue@.len() - 1].0 == neighbor && queue@[queue@.len() - 1].1 == depth + 1);
                                    assert forall|x: NodeId| #[trigger]
                                        depths.contains_key(x) implies (x == current
                                        || crate::graph::in_node_queue(queue@, x) || depths[x] >= max_hops || (
                                    forall|w: NodeId| #[trigger]
                                        crate::graph::has_edge(self.adj_view(), x, w) ==> depths.contains_key(w)
                                            && depths[w] <= depths[x] + 1)) by {
                                        if x == neighbor {
                                            assert(queue@[queue@.len() - 1].0 == x);
                                            assert(crate::graph::in_node_queue(queue@, x));
                                        } else if crate::graph::in_node_queue(old_q, x) {
                                            let i = choose|i: int|
                                                0 <= i < old_q.len() && (#[trigger] old_q[i]).0
                                                    == x;
                                            assert(queue@[i].0 == x);
                                            assert(crate::graph::in_node_queue(queue@, x));
                                        }
                                    }
                                }
                            } else {
                                proof {
                                    assert(visited@.contains(neighbor));
                                    assert(depths.contains_key(neighbor));
                                    assert(depths[neighbor] <= depth + 1);
                                }
                            }
                            j = j + 1;
                        }
                        proof {
                            assert forall|w: NodeId| #[trigger]
                                crate::graph::has_edge(self.adj_view(), current, w) implies depths.contains_key(w)
                                && depths[w] <= depth + 1 by {
                                let t = choose|t: int| 0 <= t < nbs.len() && nbs[t] == w;
                                assert(depths.contains_key(nbs[t]));
                            }
                            assert(queue@.len() > 0 ==> queue@[queue@.len() - 1].1 <= queue@[0].1
                                + 1);
                        }
                    },
                    None => {
                        proof {
                            assert(!self.adj_view().contains_key(current));
                            assert forall|x: NodeId| #[trigger]
                                depths.contains_key(x) implies (crate::graph::in_node_queue(queue@, x)
                                || depths[x] >= max_hops || (forall|w: NodeId| #[trigger]
                                crate::graph::has_edge(self.adj_view(), x, w) ==> depths.contains_key(w) && depths[w]
                                    <= depths[x] + 1)) by {
                                if x == current {
                                    assert(forall|w: NodeId|
                                        !crate::graph::has_edge(self.adj_view(), current, w));
                                } else if crate::graph::in_node_queue(prev_q, x) {
                                    let i = choose|i: int|
                                        0 <= i < prev_q.len() && (#[trigger] prev_q[i]).0 == x;
                                    if i > 0 {
                                        assert(queue@[i - 1].0 == x);
                                        assert(crate::graph::in_node_queue(queue@, x));
                                    } else {
                                        assert(depths.contains_key(current));
                                        assert(depths[x] == depth);
                                        assert(forall|w: NodeId|
                                            !crate::graph::has_edge(self.adj_view(), x, w));
                                    }
                                }
                            }
                        }
                    },
                }
            } else {
                proof {
                    assert forall|x: NodeId| #[trigger]
                        depths.contains_key(x) implies (crate::graph::in_node_queue(queue@, x) || depths[x]
                        >= max_hops || (forall|w: NodeId| #[trigger]
                        crate::graph::has_edge(self.adj_view(), x, w) ==> depths.contains_key(w) && depths[w]
                            <= depths[x] + 1)) by {
                        if x == current {
                            assert(depths[x] == depth);
                        } else if crate::graph::in_node_queue(prev_q, x) {
                            let i = choose|i: int|
                                0 <= i < prev_q.len() && (#[trigger] prev_q[i]).0 == x;
                            if i > 0 {
                                assert(queue@[i - 1].0 == x);
                                assert(crate::graph::in_node_queue(queue@, x));
                            } else {
                                assert(depths[x] == depth);
                            }
                        }
                    }
                }
            }
            let rl = result.len();
            let ql = queue.len();
            proof {
                crate::graph::lemma_decrease_helper(prev_result_len, rl as nat, prev_queue_len, ql as nat);
            }
        }
        proof {
            assert forall|i: int|
                0 <= i < result@.len() implies crate::graph::reachable_within(
                self.adj_view(),
                start,
                #[trigger] result@[i],
                max_hops as nat,
            ) by {
                assert(depths.contains_key(result@[i]));
                crate::graph::lemma_reachable_monotonic(
                    self.adj_view(),
                    start,
                    result@[i],
                    depths[result@[i]] as nat,
                    max_hops as nat,
                );
            }
            assert(crate::graph::bfs_closed(self.adj_view(), depths, max_hops as int));
            assert forall|id: NodeId|
                crate::graph::reachable_within(self.adj_view(), start, id, max_hops as nat) implies result@.contains(
                id,
            ) by {
                crate::graph::lemma_bfs_complete(
                    self.adj_view(),
                    depths,
                    start,
                    max_hops as int,
                    id,
                    max_hops as int,
                );
                assert(visited@.contains(id));
            }
            assert forall|i: int, j: int|
                0 <= i < j < result@.len() implies crate::graph::hop_dist(
                self.adj_view(),
                start,
                #[trigger] result@[i],
            ) <= crate::graph::hop_dist(self.adj_view(), start, #[trigger] result@[j]) by {
                assert(visited@.contains(result@[i]) && visited@.contains(result@[j]));
                assert(depths.contains_key(result@[i]) && depths.contains_key(result@[j]));
                crate::graph::lemma_labels_are_hop_dists(
                    self.adj_view(),
                    depths,
                    start,
                    max_hops as int,
                    result@[i],
                );
                crate::graph::lemma_labels_are_hop_dists(
                    self.adj_view(),
                    depths,
                    start,
                    max_hops as int,
                    result@[j],
                );
            }
        }
        result
    }

}

/// Copies a hybrid result field by field.
fn clone_hybrid(h: &HybridResult) -> (r: HybridResult)
    ensures
        r.id == h.id,
        r.score == h.score,
        r.vector_distance == h.vector_distance,
        r.graph_distance == h.graph_distance,
        r.path@ == h.path@,
{
    HybridResult {
        id: h.id,
        score: h.score,
        vector_distance: h.vector_distance,
        graph_distance: h.graph_distance,
        path: crate::copy_u64s(&h.path),
    }
}

/// A sound hybrid result for a query: the node exists, carries a
/// dimension-matching non-empty embedding, the metrics are exact, the
/// graph distance is the node's true hop distance from the start, and
/// the path is a breadth-first witness of it.
pub open spec fn hy_valid(
    st: StateV,
    query: Seq<i64>,
    start: NodeId,
    max_hops: int,
    params: HybridParams,
    h: HybridResult,
) -> bool {
    &&& st.nodes.contains_key(h.id)
    &&& st.nodes[h.id].embedding@.len() == query.len()
    &&& st.nodes[h.id].embedding@.len() > 0
    &&& h.vector_distance == spec_l2(query, st.nodes[h.id].embedding@)
    &&& h.graph_distance <= max_hops
    &&& h.graph_distance as int == crate::graph::hop_dist(st.adj, start, h.id)
    &&& h.score == spec_hybrid_score(
        params.alpha as int,
        params.beta as int,
        h.vector_distance as int,
        h.graph_distance as int,
    )
    &&& path_valid(st.adj, start, h.id, h.graph_distance as int, h.path@)
}

/// A candidate of a hybrid query: a node that carries a non-empty,
/// dimension-matching embedding and can be reached from the start
/// within the hop bound.
pub open spec fn hy_candidate(
    st: StateV,
    query: Seq<i64>,
    start: NodeId,
    max_hops: int,
    id: NodeId,
) -> bool {
    &&& st.nodes.contains_key(id)
    &&& st.nodes[id].embedding@.len() == query.len()
    &&& st.nodes[id].embedding@.len() > 0
    &&& crate::graph::reachable_within(st.adj, start, id, max_hops as nat)
}

/// True when the hybrid traversal queue holds an entry for node `v`.
pub open spec fn in_tqueue(q: Seq<(NodeId, usize, Vec<NodeId>)>, v: NodeId) -> bool {
    exists|i: int| 0 <= i < q.len() && (#[trigger] q[i]).0 == v
}

impl BarqGraphDb {
    /// Runs a hybrid query: a bounded BFS from the start node, a
    /// vector distance for every visited node that carries a
    /// dimension-matching embedding, and the top `k` by fused score.
    ///
    /// Each result is sound for the query, results carry pairwise
    /// different nodes, and they come sorted by descending score. The
    /// candidates are exactly the nodes with a non-empty,
    /// dimension-matching embedding within `max_hops` of the start:
    /// when fewer than `k` results return, every candidate is among
    /// them, and when a candidate is left out, its score is no higher
    /// than the last returned one. A start unknown to both the node
    /// table and the adjacency index gives an empty result.
    #[verifier::rlimit(100)]
    #[verifier::spinoff_prover]
    pub fn hybrid_query(
        &self,
        query: &Vec<i64>,
        start: NodeId,
        max_hops: usize,
        k: usize,
        params: HybridParams,
    ) -> (r: Vec<HybridResult>)
        requires
            self.wf(),
            vec_ok(query@),
            params.wf(),
            max_hops < usize::MAX,
        ensures
            r@.len() <= k,
            forall|a: int|
                0 <= a < r@.len() ==> hy_valid(
                    self.state(),
                    query@,
                    start,
                    max_hops as int,
                    params,
                    #[trigger] r@[a],
                ),
            forall|a: int, b: int| 0 <= a < b < r@.len() ==> r@[a].score >= r@[b].score,
            forall|a: int, b: int| 0 <= a < b < r@.len() ==> r@[a].id != r@[b].id,
            !self.nodes_view().contains_key(start) && !self.adj_view().contains_key(start)
                ==> r@.len() == 0,
            (self.nodes_view().contains_key(start) || self.adj_view().contains_key(start))
                && r@.len() < k ==> forall|id: NodeId|
                #[trigger] hy_candidate(self.state(), query@, start, max_hops as int, id)
                    ==> exists|a: int| 0 <= a < r@.len() && (#[trigger] r@[a]).id == id,
            forall|id: NodeId|
                #[trigger] hy_candidate(self.state(), query@, start, max_hops as int, id) && !(
                exists|a: int| 0 <= a < r@.len() && (#[trigger] r@[a]).id == id) && r@.len() > 0
                    ==> spec_hybrid_score(
                    params.alpha as int,
                    params.beta as int,
                    spec_l2(query@, self.state().nodes[id].embedding@),
                    crate::graph::hop_dist(self.adj_view(), start, id),
                ) <= r@[r@.len() - 1].score,
    {
        if !self.nodes.contains_key(&start) && !self.adjacency.contains_key(&start) {
            return Vec::new();
        }
        // breadth-first discovery with path and depth tracking
        let mut visited: HashSet<NodeId> = HashSet::new();
        let mut found: Vec<(NodeId, usize, Vec<NodeId>)> = Vec::new();
        let mut queue: VecDeque<(NodeId, usize, Vec<NodeId>)> = VecDeque::new();
        let ghost mut depths: Map<NodeId, int> = Map::<NodeId, int>::empty().insert(start, 0);
        let mut first_path: Vec<NodeId> = Vec::new();
        first_path.push(start);
        let second_path = crate::copy_u64s(&first_path);
        queue.push_back((start, 0, first_path));
        visited.insert(start);
        found.push((start, 0, second_path));
        proof {
            assert(crate::graph::reachable_within(self.adj_view(), start, start, 0));
            assert(queue@[0].0 == start);
            assert(in_tqueue(queue@, start));
            assert(found@[0].0 == start);
            assert forall|x: NodeId| visited@.contains(x) implies exists|i: int|
                0 <= i < found@.len() && (#[trigger] found@[i]).0 == x by {
                assert(found@[0].0 == x);
            }
        }
        while queue.len() > 0
            invariant
                found@.len() >= 1,
                forall|i: int, j: int| 0 <= i < j < found@.len() ==> found@[i].0 != found@[j].0,
                forall|i: int|
                    0 <= i < found@.len() ==> visited@.contains((#[trigger] found@[i]).0),
                forall|x: NodeId| visited@.contains(x) ==> exists|i: int|
                    0 <= i < found@.len() && (#[trigger] found@[i]).0 == x,
                forall|x: NodeId| #[trigger] depths.contains_key(x) <==> visited@.contains(x),
                depths.contains_key(start) && depths[start] == 0,
                forall|x: NodeId| #[trigger]
                    depths.contains_key(x) ==> 0 <= depths[x] <= max_hops
                        && crate::graph::reachable_within(
                        self.adj_view(),
                        start,
                        x,
                        depths[x] as nat,
                    ),
                forall|i: int|
                    0 <= i < found@.len() ==> depths.contains_key((#[trigger] found@[i]).0)
                        && depths[found@[i].0] == found@[i].1 as int && path_valid(
                        self.adj_view(),
                        start,
                        found@[i].0,
                        found@[i].1 as int,
                        found@[i].2@,
                    ),
                forall|i: int|
                    0 <= i < queue@.len() ==> depths.contains_key((#[trigger] queue@[i]).0)
                        && depths[queue@[i].0] == queue@[i].1 as int && path_valid(
                        self.adj_view(),
                        start,
                        queue@[i].0,
                        queue@[i].1 as int,
                        queue@[i].2@,
                    ),
                forall|i: int, j: int|
                    0 <= i < j < queue@.len() ==> (#[trigger] queue@[i]).1 <= (
                    #[trigger] queue@[j]).1,
                queue@.len() > 0 ==> queue@[queue@.len() - 1].1 <= queue@[0].1 + 1,
                queue@.len() > 0 ==> forall|x: NodeId| #[trigger]
                    depths.contains_key(x) ==> depths[x] <= queue@[queue@.len() - 1].1 as int,
                forall|x: NodeId| #[trigger]
                    depths.contains_key(x) ==> (in_tqueue(queue@, x) || depths[x] >= max_hops || (
                    forall|w: NodeId| #[trigger]
                        crate::graph::has_edge(self.adj_view(), x, w) ==> depths.contains_key(w)
                            && depths[w] <= depths[x] + 1)),
            decreases crate::graph::bfs_measure(found@.len(), queue@.len()),
        {
            let ghost prev_q = queue@;
            let ghost prev_found_len = found@.len();
            let ghost prev_queue_len = queue@.len();
            let popped = queue.pop_front();
            let (current, depth, path) = match popped {
                Some(p) => p,
                None => {
                    proof {
                        assert(false);
                    }
                    (0, 0, Vec::new())
                },
            };
            proof {
                assert(prev_q[0].0 == current && prev_q[0].1 == depth);
                assert(queue@ =~= prev_q.drop_first());
                assert forall|i: int|
                    0 <= i < queue@.len() implies depth <= (#[trigger] queue@[i]).1 <= depth
                    + 1 by {
                    assert(queue@[i] == prev_q[i + 1]);
                    assert(prev_q[i + 1].1 <= prev_q[prev_q.len() - 1].1);
                }
                assert forall|x: NodeId| #[trigger]
                    depths.contains_key(x) implies depths[x] <= depth + 1 by {
                    assert(depths[x] <= prev_q[prev_q.len() - 1].1 as int);
                }
                assert forall|x: NodeId| #[trigger]
                    depths.contains_key(x) implies (x == current || in_tqueue(queue@, x)
                    || depths[x] >= max_hops || (forall|w: NodeId| #[trigger]
                    crate::graph::has_edge(self.adj_view(), x, w) ==> depths.contains_key(w)
                        && depths[w] <= depths[x] + 1)) by {
                    if x != current && in_tqueue(prev_q, x) {
                        let i = choose|i: int|
                            0 <= i < prev_q.len() && (#[trigger] prev_q[i]).0 == x;
                        if i > 0 {
                            assert(queue@[i - 1].0 == x);
                            assert(in_tqueue(queue@, x));
                        } else {
                            assert(prev_q[0].0 == x);
                        }
                    }
                }
            }
            if depth < max_hops {
                match self.adjacency.get(&current) {
                    Some(neighbors) => {
                        let ghost nbs = neighbors@;
                        let mut j: usize = 0;
                        while j < neighbors.len()
                            invariant
                                nbs == neighbors@,
                                0 <= j <= nbs.len(),
                                self.adj_view().contains_key(current),
                                self.adj_view()[current] == nbs,
                                depths.contains_key(current) && depths[current] == depth,
                                depth < max_hops,
                                path@.len() == depth + 1,
                                path_valid(self.adj_view(), start, current, depth as int, path@),
                                found@.len() >= 1,
                                found@.len() >= prev_found_len,
                                queue@.len() <= prev_queue_len - 1 + j,
                                found@.len() - prev_found_len >= queue@.len() - (prev_queue_len
                                    - 1),
                                forall|a: int, b: int|
                                    0 <= a < b < found@.len() ==> found@[a].0 != found@[b].0,
                                forall|a: int|
                                    0 <= a < found@.len() ==> visited@.contains(
                                        (#[trigger] found@[a]).0,
                                    ),
                                forall|x: NodeId| visited@.contains(x) ==> exists|a: int|
                                    0 <= a < found@.len() && (#[trigger] found@[a]).0 == x,
                                forall|x: NodeId| #[trigger]
                                    depths.contains_key(x) <==> visited@.contains(x),
                                depths.contains_key(start) && depths[start] == 0,
                                forall|x: NodeId| #[trigger]
                                    depths.contains_key(x) ==> 0 <= depths[x] <= max_hops
                                        && crate::graph::reachable_within(
                                        self.adj_view(),
                                        start,
                                        x,
                                        depths[x] as nat,
                                    ),
                                forall|x: NodeId| #[trigger]
                                    depths.contains_key(x) ==> depths[x] <= depth + 1,
                                forall|a: int|
                                    0 <= a < found@.len() ==> depths.contains_key(
                                        (#[trigger] found@[a]).0,
                                    ) && depths[found@[a].0] == found@[a].1 as int && path_valid(
                                        self.adj_view(),
                                        start,
                                        found@[a].0,
                                        found@[a].1 as int,
                                        found@[a].2@,
                                    ),
                                forall|i: int|
                                    0 <= i < queue@.len() ==> depths.contains_key(
                                        (#[trigger] queue@[i]).0,
                                    ) && depths[queue@[i].0] == queue@[i].1 as int && depth
                                        <= queue@[i].1 <= depth + 1 && path_valid(
                                        self.adj_view(),
                                        start,
                                        queue@[i].0,
                                        queue@[i].1 as int,
                                        queue@[i].2@,
                                    ),
                                forall|a: int, b: int|
                                    0 <= a < b < queue@.len() ==> (#[trigger] queue@[a]).1 <= (
                                    #[trigger] queue@[b]).1,
                                queue@.len() > 0 ==> forall|x: NodeId| #[trigger]
                                    depths.contains_key(x) ==> depths[x] <= queue@[queue@.len()
                                        - 1].1 as int,
                                forall|t: int|
                                    0 <= t < j ==> depths.contains_key(#[trigger] nbs[t])
                                        && depths[nbs[t]] <= depth + 1,
                                forall|x: NodeId| #[trigger]
                                    depths.contains_key(x) ==> (x == current || in_tqueue(
                                        queue@,
                                        x,
                                    ) || depths[x] >= max_hops || (forall|w: NodeId| #[trigger]
                                        crate::graph::has_edge(self.adj_view(), x, w)
                                            ==> depths.contains_key(w) && depths[w] <= depths[x]
                                            + 1)),
                            decreases nbs.len() - j,
                        {
                            let neighbor = neighbors[j];
                            if !visited.contains(&neighbor) {
                                let mut new_path = crate::copy_u64s(&path);
                                new_path.push(neighbor);
                                let queued_path = crate::copy_u64s(&new_path);
                                proof {
                                    assert(crate::graph::has_edge(
                                        self.adj_view(),
                                        current,
                                        neighbor,
                                    ));
                                    assert(crate::graph::reachable_within(
                                        self.adj_view(),
                                        start,
                                        neighbor,
                                        (depth + 1) as nat,
                                    ));
                                    assert(new_path@[depth as int] == current);
                                    assert forall|t: int|
                                        0 <= t < depth + 1 implies crate::graph::has_edge(
                                        self.adj_view(),
                                        #[trigger] new_path@[t],
                                        new_path@[t + 1],
                                    ) by {
                                        if t < depth {
                                            assert(new_path@[t] == path@[t]);
                                            assert(new_path@[t + 1] == path@[t + 1]);
                                        }
                                    }
                                    assert(path_valid(
                                        self.adj_view(),
                                        start,
                                        neighbor,
                                        depth + 1,
                                        new_path@,
                                    ));
                                }
                                let ghost old_found = found@;
                                let ghost old_q = queue@;
                                visited.insert(neighbor);
                                found.push((neighbor, depth + 1, new_path));
                                queue.push_back((neighbor, depth + 1, queued_path));
                                proof {
                                    depths = depths.insert(neighbor, depth + 1);
                                    assert(found@[old_found.len() as int].0 == neighbor);
                                    assert(queue@[queue@.len() - 1].0 == neighbor
                                        && queue@[queue@.len() - 1].1 == depth + 1);
                                    assert forall|x: NodeId| visited@.contains(
                                        x,
                                    ) implies exists|a: int|
                                        0 <= a < found@.len() && (#[trigger] found@[a]).0 == x by {
                                        if x == neighbor {
                                            assert(found@[old_found.len() as int].0 == x);
                                        } else {
                                            let w = choose|w: int|
                                                0 <= w < old_found.len() && (
                                                #[trigger] old_found[w]).0 == x;
                                            assert(found@[w].0 == x);
                                        }
                                    }
                                    assert forall|a: int, b: int|
                                        0 <= a < b < found@.len() implies found@[a].0
                                        != found@[b].0 by {
                                        if b == found@.len() - 1 {
                                            assert(found@[a] == old_found[a]);
                                        }
                                    }
                                    assert forall|x: NodeId| #[trigger]
                                        depths.contains_key(x) implies (x == current || in_tqueue(
                                        queue@,
                                        x,
                                    ) || depths[x] >= max_hops || (forall|w: NodeId| #[trigger]
                                        crate::graph::has_edge(self.adj_view(), x, w)
                                            ==> depths.contains_key(w) && depths[w] <= depths[x]
                                            + 1)) by {
                                        if x == neighbor {
                                            assert(queue@[queue@.len() - 1].0 == x);
                                            assert(in_tqueue(queue@, x));
                                        } else if in_tqueue(old_q, x) {
                                            let i = choose|i: int|
                                                0 <= i < old_q.len() && (#[trigger] old_q[i]).0
                                                    == x;
                                            assert(queue@[i].0 == x);
                                            assert(in_tqueue(queue@, x));
                                        }
                                    }
                                }
                            } else {
                                proof {
                                    assert(visited@.contains(neighbor));
                                    assert(depths.contains_key(neighbor));
                                    assert(depths[neighbor] <= depth + 1);
                                }
                            }
                            j = j + 1;
                        }
                        proof {
                            assert forall|w: NodeId| #[trigger]
                                crate::graph::has_edge(
                                    self.adj_view(),
                                    current,
                                    w,
                                ) implies depths.contains_key(w) && depths[w] <= depth + 1 by {
                                let t = choose|t: int| 0 <= t < nbs.len() && nbs[t] == w;
                                assert(depths.contains_key(nbs[t]));
                            }
                            assert(queue@.len() > 0 ==> queue@[queue@.len() - 1].1 <= queue@[0].1
                                + 1);
                        }
                    },
                    None => {
                        proof {
                            assert(!self.adj_view().contains_key(current));
                            assert forall|x: NodeId| #[trigger]
                                depths.contains_key(x) implies (in_tqueue(queue@, x) || depths[x]
                                >= max_hops || (forall|w: NodeId| #[trigger]
                                crate::graph::has_edge(self.adj_view(), x, w)
                                    ==> depths.contains_key(w) && depths[w] <= depths[x] + 1)) by {
                                if x == current {
                                    assert(forall|w: NodeId|
                                        !crate::graph::has_edge(self.adj_view(), current, w));
                                }
                            }
                        }
                    },
                }
            } else {
                proof {
                    assert forall|x: NodeId| #[trigger]
                        depths.contains_key(x) implies (in_tqueue(queue@, x) || depths[x]
                        >= max_hops || (forall|w: NodeId| #[trigger]
                        crate::graph::has_edge(self.adj_view(), x, w) ==> depths.contains_key(w)
                            && depths[w] <= depths[x] + 1)) by {
                        if x == current {
                            assert(depths[x] == depth);
                        }
                    }
                }
            }
            let fl = found.len();
            let ql = queue.len();
            proof {
                crate::graph::lemma_decrease_helper(
                    prev_found_len,
                    fl as nat,
                    prev_queue_len,
                    ql as nat,
                );
            }
        }
        proof {
            assert(crate::graph::bfs_closed(self.adj_view(), depths, max_hops as int));
        }
        // score the visited nodes that carry matching embeddings
        let mut results: Vec<HybridResult> = Vec::new();
        let mut i: usize = 0;
        while i < found.len()
            invariant
                self.wf(),
                vec_ok(query@),
                params.wf(),
                max_hops < usize::MAX,
                0 <= i <= found@.len(),
                crate::graph::bfs_closed(self.adj_view(), depths, max_hops as int),
                depths.contains_key(start) && depths[start] == 0,
                forall|x: NodeId| #[trigger]
                    depths.contains_key(x) ==> 0 <= depths[x] <= max_hops
                        && crate::graph::reachable_within(
                        self.adj_view(),
                        start,
                        x,
                        depths[x] as nat,
                    ),
                forall|a: int, b: int| 0 <= a < b < found@.len() ==> found@[a].0 != found@[b].0,
                forall|x: NodeId| visited@.contains(x) ==> exists|a: int|
                    0 <= a < found@.len() && (#[trigger] found@[a]).0 == x,
                forall|x: NodeId| #[trigger] depths.contains_key(x) <==> visited@.contains(x),
                forall|a: int|
                    0 <= a < found@.len() ==> depths.contains_key((#[trigger] found@[a]).0)
                        && depths[found@[a].0] == found@[a].1 as int && found@[a].1 <= max_hops
                        && path_valid(
                        self.adj_view(),
                        start,
                        found@[a].0,
                        found@[a].1 as int,
                        found@[a].2@,
                    ),
                forall|a: int|
                    0 <= a < results@.len() ==> hy_valid(
                        self.state(),
                        query@,
                        start,
                        max_hops as int,
                        params,
                        #[trigger] results@[a],
                    ),
                forall|a: int, b: int|
                    0 <= a < b < results@.len() ==> results@[a].id != results@[b].id,
                forall|a: int|
                    0 <= a < results@.len() ==> exists|w: int|
                        0 <= w < i && (#[trigger] results@[a]).id == found@[w].0,
                forall|w: int|
                    0 <= w < i && self.nodes_view().contains_key((#[trigger] found@[w]).0)
                        && self.nodes_view()[found@[w].0].embedding@.len() == query@.len()
                        && self.nodes_view()[found@[w].0].embedding@.len() > 0 ==> exists|a: int|
                        0 <= a < results@.len() && (#[trigger] results@[a]).id == found@[w].0,
            decreases found@.len() - i,
        {
            let id = found[i].0;
            let depth = found[i].1;
            match self.nodes.get(&id) {
                Some(n) => {
                    if n.embedding.len() > 0 && n.embedding.len() == query.len() {
                        let d = crate::vector::l2_distance(query, &n.embedding);
                        let score = compute_hybrid_score(d, depth, &params);
                        let path_copy = crate::copy_u64s(&found[i].2);
                        let ghost prev_results = results@;
                        proof {
                            crate::graph::lemma_labels_are_hop_dists(
                                self.adj_view(),
                                depths,
                                start,
                                max_hops as int,
                                id,
                            );
                            assert(depth as int == crate::graph::hop_dist(
                                self.adj_view(),
                                start,
                                id,
                            ));
                        }
                        results.push(HybridResult {
                            id,
                            score,
                            vector_distance: d,
                            graph_distance: depth,
                            path: path_copy,
                        });
                        proof {
                            assert forall|a: int, b: int|
                                0 <= a < b < results@.len() implies results@[a].id
                                != results@[b].id by {
                                if b == results@.len() - 1 {
                                    let w = choose|w: int|
                                        0 <= w < i && (#[trigger] prev_results[a]).id
                                            == found@[w].0;
                                    assert(results@[a] == prev_results[a]);
                                    assert(found@[w].0 != found@[i as int].0);
                                }
                            }
                            assert forall|a: int|
                                0 <= a < results@.len() implies exists|w: int|
                                0 <= w < i + 1 && (#[trigger] results@[a]).id == found@[w].0 by {
                                if a < prev_results.len() {
                                    let w = choose|w: int|
                                        0 <= w < i && (#[trigger] prev_results[a]).id
                                            == found@[w].0;
                                    assert(results@[a] == prev_results[a]);
                                    assert(results@[a].id == found@[w].0);
                                } else {
                                    assert(results@[a].id == found@[i as int].0);
                                }
                            }
                            assert forall|w: int|
                                0 <= w < i + 1 && self.nodes_view().contains_key(
                                    (#[trigger] found@[w]).0,
                                ) && self.nodes_view()[found@[w].0].embedding@.len()
                                == query@.len() && self.nodes_view()[found@[w].0].embedding@.len()
                                > 0 implies exists|a: int|
                                0 <= a < results@.len() && (#[trigger] results@[a]).id
                                    == found@[w].0 by {
                                if w < i {
                                    let a = choose|a: int|
                                        0 <= a < prev_results.len() && (
                                        #[trigger] prev_results[a]).id == found@[w].0;
                                    assert(results@[a].id == found@[w].0);
                                } else {
                                    assert(results@[results@.len() - 1].id == found@[i as int].0);
                                }
                            }
                        }
                    } else {
                        proof {
                            assert forall|w: int|
                                0 <= w < i + 1 && self.nodes_view().contains_key(
                                    (#[trigger] found@[w]).0,
                                ) && self.nodes_view()[found@[w].0].embedding@.len()
                                == query@.len() && self.nodes_view()[found@[w].0].embedding@.len()
                                > 0 implies exists|a: int|
                                0 <= a < results@.len() && (#[trigger] results@[a]).id
                                    == found@[w].0 by {
                                if w < i {
                                    let a = choose|a: int|
                                        0 <= a < results@.len() && (#[trigger] results@[a]).id
                                            == found@[w].0;
                                }
                            }
                        }
                    }
                },
                None => {
                    proof {
                        assert forall|w: int|
                            0 <= w < i + 1 && self.nodes_view().contains_key(
                                (#[trigger] found@[w]).0,
                            ) && self.nodes_view()[found@[w].0].embedding@.len() == query@.len()
                            && self.nodes_view()[found@[w].0].embedding@.len() > 0 implies exists|
                            a: int,
                        |
                            0 <= a < results@.len() && (#[trigger] results@[a]).id
                                == found@[w].0 by {
                            if w < i {
                                let a = choose|a: int|
                                    0 <= a < results@.len() && (#[trigger] results@[a]).id
                                        == found@[w].0;
                            }
                        }
                    }
                },
            }
            i = i + 1;
        }
        proof {
            // the scored list holds every candidate
            assert forall|id: NodeId|
                #[trigger] hy_candidate(
                    self.state(),
                    query@,
                    start,
                    max_hops as int,
                    id,
                ) implies exists|a: int|
                0 <= a < results@.len() && (#[trigger] results@[a]).id == id by {
                crate::graph::lemma_bfs_complete(
                    self.adj_view(),
                    depths,
                    start,
                    max_hops as int,
                    id,
                    max_hops as int,
                );
                assert(visited@.contains(id));
                let w = choose|w: int| 0 <= w < found@.len() && (#[trigger] found@[w]).0 == id;
                assert(exists|a: int|
                    0 <= a < results@.len() && (#[trigger] results@[a]).id == found@[w].0);
            }
        }
        // order by descending score
        let mut keys: Vec<(u64, usize)> = Vec::new();
        let mut t: usize = 0;
        while t < results.len()
            invariant
                0 <= t <= results@.len(),
                keys@.len() == t,
                forall|a: int|
                    0 <= a < t ==> #[trigger] keys@[a] == (results@[a].score, a as usize),
            decreases results@.len() - t,
        {
            keys.push((results[t].score, t));
            t = t + 1;
        }
        let ghost orig_keys = keys@;
        proof {
            assert forall|a: int, b: int|
                0 <= a < b < keys@.len() implies keys@[a].1 != keys@[b].1 by {}
        }
        let mut s: usize = 0;
        while s < keys.len()
            invariant
                keys@.len() == orig_keys.len(),
                orig_keys.len() == results@.len(),
                0 <= s <= keys@.len(),
                forall|a: int|
                    0 <= a < keys@.len() ==> orig_keys.contains(#[trigger] keys@[a]),
                forall|b: int|
                    0 <= b < orig_keys.len() ==> keys@.contains(#[trigger] orig_keys[b]),
                forall|a: int, b: int| 0 <= a < b < keys@.len() ==> keys@[a].1 != keys@[b].1,
                forall|a: int, b: int| 0 <= a < b < s ==> keys@[a].0 >= keys@[b].0,
                forall|a: int, b: int|
                    0 <= a < s && s <= b < keys@.len() ==> keys@[a].0 >= keys@[b].0,
                forall|a: int|
                    0 <= a < orig_keys.len() ==> #[trigger] orig_keys[a] == (
                        results@[a].score,
                        a as usize,
                    ),
            decreases keys@.len() - s,
        {
            let mut best: usize = s;
            let mut u: usize = s + 1;
            while u < keys.len()
                invariant
                    0 <= s <= best < u <= keys@.len(),
                    forall|c: int| s <= c < u ==> keys@[best as int].0 >= (#[trigger] keys@[c]).0,
                decreases keys@.len() - u,
            {
                if keys[u].0 > keys[best].0 {
                    best = u;
                }
                u = u + 1;
            }
            let ghost before_swap = keys@;
            let kb = keys[best];
            let ks = keys[s];
            keys.set(s, kb);
            keys.set(best, ks);
            proof {
                assert(keys@ =~= before_swap.update(s as int, before_swap[best as int]).update(
                    best as int,
                    before_swap[s as int],
                ));
                assert forall|a: int| 0 <= a < keys@.len() implies orig_keys.contains(
                    #[trigger] keys@[a],
                ) by {
                    let src: int = if a == best as int {
                        s as int
                    } else if a == s as int {
                        best as int
                    } else {
                        a
                    };
                    assert(keys@[a] == before_swap[src]);
                }
                assert forall|b: int| 0 <= b < orig_keys.len() implies keys@.contains(
                    #[trigger] orig_keys[b],
                ) by {
                    let w = choose|w: int|
                        0 <= w < before_swap.len() && before_swap[w] == orig_keys[b];
                    let dst: int = if w == s as int {
                        best as int
                    } else if w == best as int {
                        s as int
                    } else {
                        w
                    };
                    assert(keys@[dst] == orig_keys[b]);
                }
                assert forall|a: int, b: int| 0 <= a < b < keys@.len() implies keys@[a].1
                    != keys@[b].1 by {
                    let sa: int = if a == best as int {
                        s as int
                    } else if a == s as int {
                        best as int
                    } else {
                        a
                    };
                    let sb: int = if b == best as int {
                        s as int
                    } else if b == s as int {
                        best as int
                    } else {
                        b
                    };
                    assert(keys@[a] == before_swap[sa] && keys@[b] == before_swap[sb]);
                    assert(sa != sb);
                }
            }
            s = s + 1;
        }
        // take the top k
        let mut out: Vec<HybridResult> = Vec::new();
        let mut a: usize = 0;
        while a < keys.len() && a < k
            invariant
                self.wf(),
                vec_ok(query@),
                params.wf(),
                max_hops < usize::MAX,
                keys@.len() == results@.len(),
                orig_keys.len() == keys@.len(),
                0 <= a <= keys@.len(),
                a <= k,
                out@.len() == a,
                forall|x: int|
                    0 <= x < keys@.len() ==> orig_keys.contains(#[trigger] keys@[x]),
                forall|b: int|
                    0 <= b < orig_keys.len() ==> keys@.contains(#[trigger] orig_keys[b]),
                forall|x: int, y: int| 0 <= x < y < keys@.len() ==> keys@[x].1 != keys@[y].1,
                forall|x: int, y: int| 0 <= x < y < keys@.len() ==> keys@[x].0 >= keys@[y].0,
                forall|x: int|
                    0 <= x < orig_keys.len() ==> #[trigger] orig_keys[x] == (
                        results@[x].score,
                        x as usize,
                    ),
                forall|x: int|
                    0 <= x < results@.len() ==> hy_valid(
                        self.state(),
                        query@,
                        start,
                        max_hops as int,
                        params,
                        #[trigger] results@[x],
                    ),
                forall|x: int, y: int|
                    0 <= x < y < results@.len() ==> results@[x].id != results@[y].id,
                forall|x: int|
                    0 <= x < out@.len() ==> hy_valid(
                        self.state(),
                        query@,
                        start,
                        max_hops as int,
                        params,
                        #[trigger] out@[x],
                    ) && out@[x].score == keys@[x].0 && out@[x].id == results@[keys@[x].1 as int].id,
            decreases keys@.len() - a,
        {
            proof {
                assert(orig_keys.contains(keys@[a as int]));
                let w = choose|w: int| 0 <= w < orig_keys.len() && orig_keys[w] == keys@[a as int];
                assert(0 <= w < results@.len());
                assert(orig_keys[w] == (results@[w].score, w as usize));
                assert(keys@[a as int].1 == (w as usize));
                assert((w as usize) as int == w);
                assert(keys@[a as int].1 as int == w);
                assert(keys@[a as int].0 == results@[w].score);
                assert((keys@[a as int].1 as int) < results@.len());
            }
            let idx = keys[a].1;
            out.push(clone_hybrid(&results[idx]));
            a = a + 1;
        }
        proof {
            assert(out@.len() == (if k as int <= keys@.len() {
                k as int
            } else {
                keys@.len() as int
            }));
            assert forall|x: int, y: int| 0 <= x < y < out@.len() implies out@[x].id
                != out@[y].id by {
                assert(out@[x].id == results@[keys@[x].1 as int].id);
                assert(out@[y].id == results@[keys@[y].1 as int].id);
            }
            // when fewer than k return, every candidate is among them
            if out@.len() < k {
                assert(out@.len() == results@.len());
                assert forall|id: NodeId|
                    #[trigger] hy_candidate(
                        self.state(),
                        query@,
                        start,
                        max_hops as int,
                        id,
                    ) implies exists|x: int|
                    0 <= x < out@.len() && (#[trigger] out@[x]).id == id by {
                    let idx = choose|idx: int|
                        0 <= idx < results@.len() && (#[trigger] results@[idx]).id == id;
                    assert(keys@.contains(orig_keys[idx]));
                    let p = choose|p: int| 0 <= p < keys@.len() && keys@[p] == orig_keys[idx];
                    assert(keys@[p].1 as int == idx);
                    assert(out@[p].id == results@[idx].id);
                }
            }
            // an excluded candidate scores no higher than the last result
            assert forall|id: NodeId|
                #[trigger] hy_candidate(self.state(), query@, start, max_hops as int, id) && !(
                exists|x: int| 0 <= x < out@.len() && (#[trigger] out@[x]).id == id)
                && out@.len() > 0 implies spec_hybrid_score(
                params.alpha as int,
                params.beta as int,
                spec_l2(query@, self.state().nodes[id].embedding@),
                crate::graph::hop_dist(self.adj_view(), start, id),
            ) <= out@[out@.len() - 1].score by {
                let idx = choose|idx: int|
                    0 <= idx < results@.len() && (#[trigger] results@[idx]).id == id;
                assert(keys@.contains(orig_keys[idx]));
                let p = choose|p: int| 0 <= p < keys@.len() && keys@[p] == orig_keys[idx];
                assert(keys@[p].1 as int == idx);
                assert(keys@[p].0 == results@[idx].score);
                if p < out@.len() {
                    assert(out@[p].id == results@[idx].id);
                    assert(false);
                }
                assert(keys@[p].0 <= keys@[out@.len() - 1].0);
                assert(out@[out@.len() - 1].score == keys@[out@.len() - 1].0);
                assert(hy_valid(
                    self.state(),
                    query@,
                    start,
                    max_hops as int,
                    params,
                    results@[idx],
                ));
                assert(results@[idx].score == spec_hybrid_score(
                    params.alpha as int,
                    params.beta as int,
                    spec_l2(query@, self.state().nodes[id].embedding@),
                    crate::graph::hop_dist(self.adj_view(), start, id),
                ));
            }
        }
        out
    }
}

/// A record as the engine itself writes it: well formed for the log,
/// with embeddings inside the vector store's component range.
pub open spec fn eng_record(r: WalRecord) -> bool {
    wf_record(r) && match r {
        WalRecord::Node { data } => vec_ok(data.embedding@),
        WalRecord::Embedding { id, vec } => vec_ok(vec@),
        _ => true,
    }
}

/// Every record of a sequence is one the engine could have written.
pub open spec fn eng_records(rs: Seq<WalRecord>) -> bool {
    forall|k: int| 0 <= k < rs.len() ==> eng_record(#[trigger] rs[k])
}

/// True for the characters a blank log line may hold.
pub open spec fn blank_char(c: char) -> bool {
    c == ' ' || c == '\t' || c == '\r'
}

/// True when the text holds only blank characters and line breaks.
pub open spec fn blankish(s: Seq<char>) -> bool {
    forall|t: int| 0 <= t < s.len() ==> blank_char(#[trigger] s[t]) || s[t] == '\n'
}

/// A tail replay tolerates after the last complete record: blank lines,
/// or one truncated line that is no record head.
pub open spec fn log_tail_ok(tail: Seq<char>) -> bool {
    blankish(tail) || (crate::wal::no_nl(tail) && tail.len() > 0 && tail[0] != '{')
}

impl BarqGraphDb {
    /// Opens a database from the text of its log, replaying every
    /// record in order.
    ///
    /// `wal_text` is the full content of `wal.log`, or `None` when the
    /// file does not exist. Blank lines are skipped; a malformed line
    /// ends replay with a corruption error unless only blank text
    /// follows it, in which case it is treated as a truncated tail and
    /// ignored. On any text that is a sequence of lines the engine
    /// wrote — followed, at most, by blank lines or one truncated
    /// non-record tail — opening succeeds and rebuilds the records\'
    /// replayed state. A truncated tail that still opens like a record
    /// is tolerated by replay too, but lies outside this guarantee.
    #[verifier::rlimit(100)]
    pub fn open(opts: DbOptions, wal_text: Option<&str>) -> (r: Result<BarqGraphDb, BarqError>)
        ensures
            match r {
                Ok(db) => {
                    &&& db.wf()
                    &&& db.opts().path@ == opts.path@
                    &&& db.opts().index_type == opts.index_type
                    &&& db.opts().sync_writes == opts.sync_writes
                    &&& db.opts().async_indexing == opts.async_indexing
                    &&& db.pending_view() == (if opts.async_indexing {
                        Option::Some(Seq::<Node>::empty())
                    } else {
                        Option::<Seq<Node>>::None
                    })
                    &&& wal_text is None ==> db.state() == state_init()
                    &&& match wal_text {
                        Option::Some(text) => forall|rs: Seq<WalRecord>, tl: Seq<char>|
                            eng_records(rs) && log_tail_ok(tl) && text@ == #[trigger] (wal_join(rs)
                                + tl) ==> state_like(db.state(), replay_upto(rs, rs.len() as int)),
                        Option::None => true,
                    }
                },
                Err(e) => {
                    &&& e is DatabaseCorrupt
                    &&& match wal_text {
                        Option::Some(text) => forall|rs: Seq<WalRecord>, tl: Seq<char>|
                            !(eng_records(rs) && log_tail_ok(tl) && text@ == #[trigger] (wal_join(
                                rs,
                            ) + tl)),
                        Option::None => false,
                    }
                },
            },
    {
        let async_flag = opts.async_indexing;
        let mut db = BarqGraphDb {
            options: DbOptions { async_indexing: false, ..opts },
            nodes: HashMap::new(),
            node_ids: Vec::new(),
            adjacency: HashMap::new(),
            vectors: LinearVectorIndex::new(),
            pending: None,
            decisions: Vec::new(),
            edges_total: 0,
        };
        proof {
            assert(db.nodes_view() =~= state_init().nodes);
            assert(db.adj_view() =~= state_init().adj);
            assert(db.state().nodes =~= state_init().nodes);
            assert(db.state().adj =~= state_init().adj);
        }
        match wal_text {
            None => {},
            Some(text) => {
                let cs = crate::wal::line_chars(text);
                let n = cs.len();
                let mut pos: usize = 0;
                let ghost mut m: int = 0;
                proof {
                    assert forall|rs: Seq<WalRecord>, tl: Seq<char>|
                        eng_records(rs) && log_tail_ok(tl) && text@ == #[trigger] (wal_join(rs)
                            + tl) implies (0 <= m <= rs.len() && state_like(
                        db.state(),
                        replay_upto(rs, m),
                    ) && (m < rs.len() ==> cs@.subrange(pos as int, n as int) == wal_join(
                        rs.subrange(m, rs.len() as int),
                    ) + tl) && (m == rs.len() ==> (blankish(cs@.subrange(pos as int, n as int))
                        || cs@.subrange(pos as int, n as int) == tl))) by {
                        assert(cs@.subrange(0, n as int) =~= cs@);
                        assert(rs.subrange(0, rs.len() as int) =~= rs);
                        if rs.len() == 0 {
                            assert(wal_join(rs) + tl =~= tl);
                            assert(cs@.subrange(0, n as int) =~= tl);
                        }
                        assert(state_like(db.state(), state_init())) by {
                            assert(db.state().nodes.dom() =~= state_init().nodes.dom());
                            assert(db.state().decs.len() == 0);
                        }
                    }
                }
                while pos < n
                    invariant
                        db.wf(),
                        !db.options.async_indexing,
                        db.pending is None,
                        db.options.path@ == opts.path@,
                        db.options.index_type == opts.index_type,
                        db.options.sync_writes == opts.sync_writes,
                        async_flag == opts.async_indexing,
                        wal_text == Option::Some(text),
                        cs@ == text@,
                        n == cs@.len(),
                        0 <= pos <= n,
                        forall|rs: Seq<WalRecord>, tl: Seq<char>|
                            eng_records(rs) && log_tail_ok(tl) && text@ == #[trigger] (wal_join(rs)
                                + tl) ==> (0 <= m <= rs.len() && state_like(
                                db.state(),
                                replay_upto(rs, m),
                            ) && (m < rs.len() ==> cs@.subrange(pos as int, n as int) == wal_join(
                                rs.subrange(m, rs.len() as int),
                            ) + tl) && (m == rs.len() ==> (blankish(
                                cs@.subrange(pos as int, n as int),
                            ) || cs@.subrange(pos as int, n as int) == tl))),
                    decreases n - pos,
                {
                    // find the end of the current line
                    let mut e: usize = pos;
                    while e < n && cs[e] != '\n'
                        invariant
                            pos <= e <= n,
                            n == cs@.len(),
                            forall|t: int| pos <= t < e ==> cs@[t] != '\n',
                        decreases n - e,
                    {
                        e = e + 1;
                    }
                    let had_newline = e < n;
                    // copy the line out
                    let mut line: Vec<char> = Vec::new();
                    let mut t: usize = pos;
                    while t < e
                        invariant
                            pos <= t <= e <= n,
                            n == cs@.len(),
                            line@ == cs@.subrange(pos as int, t as int),
                        decreases e - t,
                    {
                        line.push(cs[t]);
                        proof {
                            assert(line@ =~= cs@.subrange(pos as int, (t + 1) as int));
                        }
                        t = t + 1;
                    }
                    // skip blank lines
                    let mut blank = true;
                    let mut b: usize = 0;
                    while b < line.len()
                        invariant
                            0 <= b <= line@.len(),
                            blank == (forall|x: int| 0 <= x < b ==> blank_char(#[trigger] line@[x])),
                        decreases line@.len() - b,
                    {
                        let c = line[b];
                        if !(c == ' ' || c == '\t' || c == '\r') {
                            blank = false;
                            proof {
                                assert(!blank_char(line@[b as int]));
                            }
                            b = line.len();
                        } else {
                            b = b + 1;
                        }
                    }
                    if blank {
                        let new_pos: usize = if had_newline {
                            e + 1
                        } else {
                            e
                        };
                        proof {
                            assert forall|rs: Seq<WalRecord>, tl: Seq<char>|
                                eng_records(rs) && log_tail_ok(tl) && text@ == #[trigger] (
                            wal_join(rs) + tl) implies (0 <= m <= rs.len() && state_like(
                                db.state(),
                                replay_upto(rs, m),
                            ) && (m < rs.len() ==> cs@.subrange(new_pos as int, n as int)
                                == wal_join(rs.subrange(m, rs.len() as int)) + tl) && (m
                                == rs.len() ==> (blankish(cs@.subrange(new_pos as int, n as int))
                                || cs@.subrange(new_pos as int, n as int) == tl))) by {
                                if m < rs.len() {
                                    step_line_is_record(
                                        text@,
                                        cs@,
                                        pos as int,
                                        e as int,
                                        line@,
                                        m,
                                        rs,
                                        tl,
                                    );
                                    assert(blank_char(line@[0]));
                                    assert(line@[0] == '{');
                                } else {
                                    let old_suffix = cs@.subrange(pos as int, n as int);
                                    if blankish(old_suffix) {
                                        assert(blankish(cs@.subrange(new_pos as int, n as int)))
                                            by {
                                            assert forall|t: int|
                                                0 <= t < n - new_pos implies blank_char(
                                                #[trigger] cs@.subrange(
                                                    new_pos as int,
                                                    n as int,
                                                )[t],
                                            ) || cs@.subrange(new_pos as int, n as int)[t]
                                                == '\n' by {
                                                assert(cs@.subrange(new_pos as int, n as int)[t]
                                                    == old_suffix[t + new_pos - pos]);
                                            }
                                        }
                                    } else {
                                        assert(old_suffix == tl);
                                        assert(crate::wal::no_nl(tl) && tl.len() > 0);
                                        assert(e == n) by {
                                            if e < n {
                                                assert(cs@[e as int] == '\n');
                                                assert(cs@[e as int] == old_suffix[e - pos]);
                                            }
                                        }
                                        assert(line@ =~= old_suffix);
                                        let w = choose|w: int|
                                            0 <= w < tl.len() && !(blank_char(#[trigger] tl[w])
                                                || tl[w] == '\n');
                                        assert(blank_char(line@[w]));
                                    }
                                }
                            }
                        }
                        pos = new_pos;
                    } else {
                        match crate::wal::decode_record(&line) {
                            Some(rec) => {
                                if !check_rec(&rec) {
                                    proof {
                                        assert forall|rs: Seq<WalRecord>, tl: Seq<char>|
                                            !(eng_records(rs) && log_tail_ok(tl) && text@
                                                == #[trigger] (wal_join(rs) + tl)) by {
                                            if eng_records(rs) && log_tail_ok(tl) && text@
                                                == wal_join(rs) + tl {
                                                if m < rs.len() {
                                                    step_line_is_record(
                                                        text@,
                                                        cs@,
                                                        pos as int,
                                                        e as int,
                                                        line@,
                                                        m,
                                                        rs,
                                                        tl,
                                                    );
                                                    assert(crate::wal::dec_ok(Some(rec), rs[m]));
                                                    lemma_eng_like(rec, rs[m]);
                                                } else {
                                                    step_tail_no_record(
                                                        cs@,
                                                        pos as int,
                                                        e as int,
                                                        line@,
                                                        tl,
                                                    );
                                                    assert(line@[0] == '{');
                                                }
                                            }
                                        }
                                    }
                                    return Err(BarqError::DatabaseCorrupt(msg_corrupt()));
                                }
                                let ghost old_db = db;
                                let ghost the_rec = rec;
                                apply_rec_mem(&mut db, rec);
                                proof {
                                    assert forall|rs: Seq<WalRecord>, tl: Seq<char>|
                                        eng_records(rs) && log_tail_ok(tl) && text@ == #[trigger] (
                                    wal_join(rs) + tl) implies (0 <= m + 1 <= rs.len() && e < n
                                        && state_like(db.state(), replay_upto(rs, m + 1)) && (m + 1
                                        < rs.len() ==> cs@.subrange((e + 1) as int, n as int)
                                        == wal_join(rs.subrange(m + 1, rs.len() as int)) + tl) && (
                                    m + 1 == rs.len() ==> (blankish(
                                        cs@.subrange((e + 1) as int, n as int),
                                    ) || cs@.subrange((e + 1) as int, n as int) == tl))) by {
                                        if m == rs.len() {
                                            step_tail_no_record(
                                                cs@,
                                                pos as int,
                                                e as int,
                                                line@,
                                                tl,
                                            );
                                            assert(line@[0] == '{');
                                        }
                                        step_line_is_record(
                                            text@,
                                            cs@,
                                            pos as int,
                                            e as int,
                                            line@,
                                            m,
                                            rs,
                                            tl,
                                        );
                                        assert(crate::wal::dec_ok(Some(the_rec), rs[m]));
                                        assert(rec_like(the_rec, rs[m]));
                                        lemma_apply_like(
                                            old_db.state(),
                                            replay_upto(rs, m),
                                            the_rec,
                                            rs[m],
                                        );
                                        assert(replay_upto(rs, m + 1) == apply_rec(
                                            replay_upto(rs, m),
                                            rs[m],
                                        ));
                                        assert(rs.subrange(m, rs.len() as int).drop_first()
                                            =~= rs.subrange(m + 1, rs.len() as int));
                                        if m + 1 == rs.len() {
                                            assert(wal_join(rs.subrange(m + 1, rs.len() as int))
                                                =~= Seq::<char>::empty());
                                            assert(cs@.subrange((e + 1) as int, n as int) =~= tl);
                                        }
                                    }
                                    m = m + 1;
                                }
                                pos = if had_newline {
                                    e + 1
                                } else {
                                    e
                                };
                            },
                            None => {
                                // tolerate only a truncated or blank tail
                                let rest_start: usize = if had_newline {
                                    e + 1
                                } else {
                                    e
                                };
                                let mut z: usize = rest_start;
                                let mut rest_blank = true;
                                while z < n
                                    invariant
                                        rest_start <= z <= n,
                                        n == cs@.len(),
                                        rest_start == n ==> rest_blank,
                                    decreases n - z,
                                {
                                    let c = cs[z];
                                    if !(c == ' ' || c == '\t' || c == '\r' || c == '\n') {
                                        rest_blank = false;
                                        z = n;
                                    } else {
                                        z = z + 1;
                                    }
                                }
                                if rest_blank {
                                    proof {
                                        assert forall|rs: Seq<WalRecord>, tl: Seq<char>|
                                            eng_records(rs) && log_tail_ok(tl) && text@
                                                == #[trigger] (wal_join(rs) + tl) implies state_like(
                                            db.state(),
                                            replay_upto(rs, rs.len() as int),
                                        ) by {
                                            if m < rs.len() {
                                                step_line_is_record(
                                                    text@,
                                                    cs@,
                                                    pos as int,
                                                    e as int,
                                                    line@,
                                                    m,
                                                    rs,
                                                    tl,
                                                );
                                            } else {
                                                assert(m == rs.len());
                                            }
                                        }
                                    }
                                    return Ok(finish_open(db, async_flag));
                                } else {
                                    proof {
                                        assert forall|rs: Seq<WalRecord>, tl: Seq<char>|
                                            !(eng_records(rs) && log_tail_ok(tl) && text@
                                                == #[trigger] (wal_join(rs) + tl)) by {
                                            if eng_records(rs) && log_tail_ok(tl) && text@
                                                == wal_join(rs) + tl {
                                                if m < rs.len() {
                                                    step_line_is_record(
                                                        text@,
                                                        cs@,
                                                        pos as int,
                                                        e as int,
                                                        line@,
                                                        m,
                                                        rs,
                                                        tl,
                                                    );
                                                } else {
                                                    step_tail_no_record(
                                                        cs@,
                                                        pos as int,
                                                        e as int,
                                                        line@,
                                                        tl,
                                                    );
                                                    assert(e == n);
                                                    assert(rest_start == n);
                                                }
                                            }
                                        }
                                    }
                                    return Err(BarqError::DatabaseCorrupt(msg_corrupt()));
                                }
                            },
                        }
                    }
                }
                proof {
                    assert forall|rs: Seq<WalRecord>, tl: Seq<char>|
                        eng_records(rs) && log_tail_ok(tl) && text@ == #[trigger] (wal_join(rs)
                            + tl) implies state_like(
                        db.state(),
                        replay_upto(rs, rs.len() as int),
                    ) by {
                        assert(cs@.subrange(pos as int, n as int) =~= Seq::<char>::empty());
                        if m < rs.len() {
                            let tail_recs = rs.subrange(m, rs.len() as int);
                            assert(tail_recs.len() > 0);
                            lemma_no_nl_record(tail_recs[0]);
                            assert(wal_join(tail_recs).len() >= enc_record(tail_recs[0]).len()
                                + 1);
                            assert((wal_join(tail_recs) + tl).len() >= 1);
                        }
                        assert(m == rs.len());
                    }
                }
            },
        }
        Ok(finish_open(db, async_flag))
    }
}

/// A record like one the engine could write is itself such a record.
proof fn lemma_eng_like(a: WalRecord, b: WalRecord)
    requires
        rec_like(a, b),
        eng_record(b),
    ensures
        eng_record(a),
{
    match (a, b) {
        (WalRecord::Node { data: n1 }, WalRecord::Node { data: n2 }) => {
            assert(crate::wal::wf_edges(n1.edges@)) by {
                assert forall|k: int|
                    0 <= k < n1.edges@.len() implies crate::wal::wf_edge(
                    #[trigger] n1.edges@[k],
                ) by {
                    assert(crate::wal::edge_like(n1.edges@[k], n2.edges@[k]));
                    assert(crate::wal::wf_edge(n2.edges@[k]));
                }
            }
            assert(crate::wal::wf_strings(n1.rule_tags@)) by {
                assert forall|k: int|
                    0 <= k < n1.rule_tags@.len() implies str_ok(
                    (#[trigger] n1.rule_tags@[k])@,
                ) by {
                    assert(n1.rule_tags@[k]@ == n2.rule_tags@[k]@);
                    assert(str_ok(n2.rule_tags@[k]@));
                }
            }
        },
        (WalRecord::Edge { .. }, WalRecord::Edge { .. }) => {},
        (WalRecord::Embedding { .. }, WalRecord::Embedding { .. }) => {},
        (WalRecord::Decision { data: d1 }, WalRecord::Decision { data: d2 }) => {
            match (d1.notes, d2.notes) {
                (Option::Some(x), Option::Some(y)) => {
                    assert(x@ == y@);
                },
                _ => {},
            }
        },
        _ => {
            assert(false);
        },
    }
}


/// Applies a decoded, checked record to the in-memory state.
fn apply_rec_mem(db: &mut BarqGraphDb, rec: WalRecord)
    requires
        old(db).wf(),
        eng_record(rec),
    ensures
        final(db).wf(),
        final(db).state() == apply_rec(old(db).state(), rec),
        final(db).pending == old(db).pending,
        final(db).options == old(db).options,
{
    match rec {
        WalRecord::Node { data } => {
            db.apply_node_mem(data);
        },
        WalRecord::Edge { from, to, edge_type } => {
            db.adj_add(from, to);
        },
        WalRecord::Embedding { id, vec } => {
            db.apply_embedding_mem(id, vec);
        },
        WalRecord::Decision { data } => {
            db.decisions.push(data);
        },
    }
}

/// Checks at run time that a decoded record is one the engine could
/// have written.
fn check_rec(rec: &WalRecord) -> (r: bool)
    ensures
        r == eng_record(*rec),
{
    match rec {
        WalRecord::Node { data } => check_vec_ok(&data.embedding) && check_node_strings(data),
        WalRecord::Edge { from, to, edge_type } => check_str_ok(edge_type),
        WalRecord::Embedding { id, vec } => check_vec_ok(vec),
        WalRecord::Decision { data } => {
            let score_ok = -crate::FIXED_LIMIT <= data.score && data.score <= crate::FIXED_LIMIT;
            let notes_ok = match &data.notes {
                Some(nn) => check_str_ok(nn),
                None => true,
            };
            score_ok && notes_ok
        },
    }
}

/// Installs the staging buffer and the final options.
fn finish_open(db: BarqGraphDb, async_flag: bool) -> (r: BarqGraphDb)
    requires
        db.wf(),
        !db.opts().async_indexing,
        db.pending is None,
    ensures
        r.wf(),
        r.state() == db.state(),
        r.opts().path@ == db.opts().path@,
        r.opts().index_type == db.opts().index_type,
        r.opts().sync_writes == db.opts().sync_writes,
        r.opts().async_indexing == async_flag,
        r.pending_view() == (if async_flag {
            Option::Some(Seq::<Node>::empty())
        } else {
            Option::<Seq<Node>>::None
        }),
{
    let mut db2 = db;
    if async_flag {
        db2.pending = Some(BatchQueue::new(100));
    }
    db2.options.async_indexing = async_flag;
    db2
}

/// The message used when replay finds a malformed line.
fn msg_corrupt() -> String {
    let mut out: String = String::new();
    out.append("a log line before the end could not be decoded");
    out
}

/// When every record is consumed and the current line is not blank,
/// the remaining text must be the one tolerated truncated tail: it has
/// no line break, the line covers it whole, and it opens with no
/// record head.
proof fn step_tail_no_record(cs: Seq<char>, pos: int, e: int, line: Seq<char>, tl: Seq<char>)
    requires
        0 <= pos <= e <= cs.len(),
        pos < cs.len(),
        line == cs.subrange(pos, e),
        forall|t: int| pos <= t < e ==> cs[t] != '\n',
        e < cs.len() ==> cs[e] == '\n',
        log_tail_ok(tl),
        blankish(cs.subrange(pos, cs.len() as int)) || cs.subrange(pos, cs.len() as int) == tl,
        !(forall|x: int| 0 <= x < line.len() ==> blank_char(#[trigger] line[x])),
    ensures
        e == cs.len(),
        line =~= cs.subrange(pos, cs.len() as int),
        line.len() > 0,
        line[0] != '{',
{
    let suffix = cs.subrange(pos, cs.len() as int);
    let w = choose|w: int| 0 <= w < line.len() && !blank_char(#[trigger] line[w]);
    assert(line[w] == suffix[w]);
    assert(cs[pos + w] != '\n');
    assert(line[w] != '\n');
    if blankish(suffix) {
        assert(blank_char(suffix[w]) || suffix[w] == '\n');
        assert(false);
    }
    assert(suffix == tl);
    if blankish(tl) {
        assert(blank_char(suffix[w]) || suffix[w] == '\n');
        assert(false);
    }
    assert(crate::wal::no_nl(tl) && tl.len() > 0 && tl[0] != '{');
    assert(e == cs.len()) by {
        if e < cs.len() {
            assert(cs[e] == '\n');
            assert(cs[e] == suffix[e - pos]);
        }
    }
    assert(line =~= suffix);
    assert(line[0] == tl[0]);
}

/// Under the hypothesis that the remaining text is the joined log of
/// the remaining records followed by a tolerated tail, the current line
/// is exactly the next record's encoding, and the text after its
/// newline is the rest of the records with the same tail.
proof fn step_line_is_record(
    text: Seq<char>,
    cs: Seq<char>,
    pos: int,
    e: int,
    line: Seq<char>,
    m: int,
    rs: Seq<WalRecord>,
    tl: Seq<char>,
)
    requires
        eng_records(rs),
        cs == text,
        0 <= pos <= e <= cs.len(),
        pos < cs.len(),
        line == cs.subrange(pos, e),
        forall|t: int| pos <= t < e ==> cs[t] != '\n',
        e < cs.len() ==> cs[e] == '\n',
        0 <= m < rs.len(),
        cs.subrange(pos, cs.len() as int) == wal_join(rs.subrange(m, rs.len() as int)) + tl,
    ensures
        line == enc_record(rs[m]),
        wf_record(rs[m]),
        eng_record(rs[m]),
        e < cs.len() && cs[e] == '\n',
        e == pos + enc_record(rs[m]).len(),
        cs.subrange(e + 1, cs.len() as int) == wal_join(rs.subrange(m + 1, rs.len() as int)) + tl,
        line.len() > 0 && line[0] == '{',
{
    let tail_recs = rs.subrange(m, rs.len() as int);
    assert(tail_recs.len() > 0);
    assert(tail_recs[0] == rs[m]);
    assert(eng_record(rs[m]));
    lemma_no_nl_record(rs[m]);
    let enc = enc_record(rs[m]);
    let rest = wal_join(tail_recs.drop_first());
    assert(wal_join(tail_recs) == enc + (seq!['\n'] + rest));
    let rest2 = rest + tl;
    assert((enc + (seq!['\n'] + rest)) + tl =~= enc + (seq!['\n'] + rest2));
    assert(crate::wal::text_at(cs, pos, enc + (seq!['\n'] + rest2))) by {
        assert(cs.subrange(pos, pos + (enc + (seq!['\n'] + rest2)).len()) == cs.subrange(
            pos,
            cs.len() as int,
        ));
    }
    crate::wal::lemma_split2(cs, pos, enc, seq!['\n'] + rest2);
    crate::wal::lemma_split2(cs, pos + enc.len(), seq!['\n'], rest2);
    crate::wal::lemma_text_char(cs, pos + enc.len(), seq!['\n'], 0);
    assert(cs[pos + enc.len()] == '\n');
    // the scan stopped exactly at the record's end
    assert(e <= pos + enc.len()) by {
        if e > pos + enc.len() {
            assert(cs[pos + enc.len()] != '\n');
        }
    }
    assert(e >= pos + enc.len()) by {
        if e < pos + enc.len() {
            assert(cs[e] == '\n');
            crate::wal::lemma_text_char(cs, pos, enc, e - pos);
            assert(enc[e - pos] != '\n');
        }
    }
    assert(line =~= enc) by {
        assert forall|t: int| 0 <= t < enc.len() implies line[t] == enc[t] by {
            crate::wal::lemma_text_char(cs, pos, enc, t);
        }
    }
    assert(tail_recs.drop_first() =~= rs.subrange(m + 1, rs.len() as int));
    assert(cs.subrange(e + 1, cs.len() as int) =~= rest2) by {
        assert forall|t: int| 0 <= t < rest2.len() implies cs.subrange(
            e + 1,
            cs.len() as int,
        )[t] == rest2[t] by {
            assert(cs.subrange(pos + enc.len() + 1, pos + enc.len() + 1 + rest2.len())[t]
                == rest2[t]);
        }
    }
    assert(enc[0] == '{');
    assert(line[0] == '{');
}

impl BarqGraphDb {
    /// A vector store holding a vector of dimension `d` matches at
    /// least one entry of that dimension.
    pub proof fn lemma_vec_match_count_at_least_one(self, id: NodeId, d: nat)
        requires
            self.wf(),
            self.vec_view().contains_key(id),
            self.vec_view()[id].len() == d,
        ensures
            self.vec_match_count(d) >= 1,
    {
        self.vectors.lemma_match_count_at_least_one(id, d);
    }
}

/// Once a node's embedding is stored, the next nearest-neighbor query
/// for that very vector answers with the node at distance zero —
/// provided no other stored vector of the same dimension coincides
/// with it. `r` stands for what `knn_search` returned for the vector
/// with one result requested, as its contract describes it. With
/// asynchronous indexing this applies only after the pending updates
/// are flushed into the vector store.
pub proof fn lemma_fresh_embedding_nearest(
    db: BarqGraphDb,
    v: Seq<i64>,
    id: NodeId,
    r: Seq<(NodeId, u64)>,
)
    requires
        db.wf(),
        vec_ok(v),
        v.len() > 0,
        db.vec_view().contains_key(id),
        db.vec_view()[id] == v,
        forall|x: NodeId|
            x != id && db.vec_view().contains_key(x) && (#[trigger] db.vec_view()[x]).len()
                == v.len() ==> spec_l2(v, db.vec_view()[x]) != 0,
        r.len() == (if 1 <= db.vec_match_count(v.len()) {
            1int
        } else {
            db.vec_match_count(v.len())
        }),
        forall|a: int|
            0 <= a < r.len() ==> db.vec_view().contains_key((#[trigger] r[a]).0) && db.vec_view()[
                r[a].0
            ].len() == v.len() && r[a].1 == spec_l2(v, db.vec_view()[r[a].0]),
        forall|x: NodeId|
            db.vec_view().contains_key(x) && (#[trigger] db.vec_view()[x]).len() == v.len() && !(
            exists|a: int| 0 <= a < r.len() && (#[trigger] r[a]).0 == x) && r.len() > 0
                ==> spec_l2(v, db.vec_view()[x]) >= r[r.len() - 1].1,
    ensures
        r.len() == 1,
        r[0].0 == id,
        r[0].1 == 0,
{
    db.lemma_vec_match_count_at_least_one(id, v.len() as nat);
    assert(r.len() == 1);
    crate::vector::lemma_l2_self(v);
    if r[0].0 != id {
        assert(!(exists|a: int| 0 <= a < r.len() && (#[trigger] r[a]).0 == id));
        assert(spec_l2(v, db.vec_view()[id]) >= r[0].1);
        assert(r[0].1 == 0);
        assert(spec_l2(v, db.vec_view()[r[0].0]) != 0);
    }
    assert(r[0].1 == spec_l2(v, v));
}


/// With the vector weight at zero, a hybrid result list sorted by
/// descending score is sorted by ascending graph distance, as long as
/// hop counts stay below a thousand. `r` stands for what
/// `hybrid_query` returned, as its contract describes it.
pub proof fn lemma_hybrid_graph_order(
    st: StateV,
    query: Seq<i64>,
    start: NodeId,
    max_hops: int,
    params: HybridParams,
    r: Seq<HybridResult>,
)
    requires
        params.alpha == 0,
        params.beta >= 1,
        max_hops <= 998,
        forall|a: int|
            0 <= a < r.len() ==> hy_valid(st, query, start, max_hops, params, #[trigger] r[a]),
        forall|a: int, b: int| 0 <= a < b < r.len() ==> r[a].score >= r[b].score,
    ensures
        forall|a: int, b: int| 0 <= a < b < r.len() ==> r[a].graph_distance <= r[b].graph_distance,
{
    assert forall|a: int, b: int|
        0 <= a < b < r.len() implies r[a].graph_distance <= r[b].graph_distance by {
        assert(hy_valid(st, query, start, max_hops, params, r[a]));
        assert(hy_valid(st, query, start, max_hops, params, r[b]));
        crate::hybrid::lemma_beta_order(
            params.beta as int,
            r[a].vector_distance as int,
            r[b].vector_distance as int,
            r[a].graph_distance as int,
            r[b].graph_distance as int,
        );
    }
}


} // verus!
