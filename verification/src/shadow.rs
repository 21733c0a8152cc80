//! Shadow-update reconciliation for an append-only proximity index.
//!
//! An approximate nearest-neighbor structure that cannot delete entries
//! is kept honest by an indirection: every insert mints a fresh
//! internal id, and a query filters its raw candidates down to those
//! whose internal id is still the current one for their node.

use std::collections::HashMap;
use std::collections::HashSet;
use vstd::prelude::*;

use crate::NodeId;

verus! {

broadcast use vstd::std_specs::hash::group_hash_axioms;

/// The logical-to-physical indirection of a shadow-updated index.
///
/// `node_to_internal` maps each node to its one current internal id;
/// `internal_to_node` maps every internal id ever minted back to its
/// node. Stale internal ids stay in the second map but are no longer
/// anyone's current id.
pub struct ShadowIndex {
    /// The next internal id to mint.
    next_internal: u64,
    /// Each node's current internal id.
    node_to_internal: HashMap<NodeId, u64>,
    /// Every minted internal id's node.
    internal_to_node: HashMap<u64, NodeId>,
}

impl ShadowIndex {
    /// The current internal id of each node.
    pub closed spec fn current(self) -> Map<NodeId, u64> {
        self.node_to_internal@
    }

    /// The node that each minted internal id was minted for.
    pub closed spec fn owner(self) -> Map<u64, NodeId> {
        self.internal_to_node@
    }

    /// The mint counter.
    pub closed spec fn minted(self) -> u64 {
        self.next_internal
    }

    /// The two maps agree: every current id was minted for its node,
    /// and every minted id is below the counter.
    pub closed spec fn wf(self) -> bool {
        &&& forall|n: NodeId| #[trigger]
            self.current().contains_key(n) ==> self.owner().contains_key(self.current()[n])
                && self.owner()[self.current()[n]] == n
        &&& forall|i: u64| #[trigger] self.owner().contains_key(i) ==> i < self.next_internal
    }

    /// An internal id is live when it is its node's current id.
    pub open spec fn live(self, internal: u64, node: NodeId) -> bool {
        &&& self.owner().contains_key(internal)
        &&& self.owner()[internal] == node
        &&& self.current().contains_key(node)
        &&& self.current()[node] == internal
    }

    /// Creates an empty indirection with the mint counter at one.
    pub fn new() -> (r: ShadowIndex)
        ensures
            r.wf(),
            r.minted() == 1,
            r.current() == Map::<NodeId, u64>::empty(),
            r.owner() == Map::<u64, NodeId>::empty(),
    {
        ShadowIndex {
            next_internal: 1,
            node_to_internal: HashMap::new(),
            internal_to_node: HashMap::new(),
        }
    }

    /// Mints a fresh internal id for a node and publishes it as the
    /// node's current id; any previous id for the node goes stale.
    pub fn publish(&mut self, node: NodeId) -> (internal: u64)
        requires
            old(self).wf(),
            old(self).minted() < u64::MAX,
        ensures
            final(self).wf(),
            !old(self).owner().contains_key(internal),
            final(self).current() == old(self).current().insert(node, internal),
            final(self).owner() == old(self).owner().insert(internal, node),
            final(self).minted() == old(self).minted() + 1,
            final(self).live(internal, node),
    {
        let internal = self.next_internal;
        self.next_internal = self.next_internal + 1;
        self.node_to_internal.insert(node, internal);
        self.internal_to_node.insert(internal, node);
        proof {
            assert forall|n: NodeId| #[trigger]
                self.current().contains_key(n) implies self.owner().contains_key(
                self.current()[n],
            ) && self.owner()[self.current()[n]] == n by {
                if n != node {
                    assert(old(self).current().contains_key(n));
                }
            }
            assert forall|i: u64| #[trigger]
                self.owner().contains_key(i) implies i < self.next_internal by {
                if i != internal {
                    assert(old(self).owner().contains_key(i));
                }
            }
        }
        internal
    }

    /// Returns the current internal id of a node, if any.
    pub fn current_of(&self, node: NodeId) -> (r: Option<u64>)
        ensures
            match r {
                Some(i) => self.current().contains_key(node) && self.current()[node] == i,
                None => !self.current().contains_key(node),
            },
    {
        match self.node_to_internal.get(&node) {
            Some(i) => Some(*i),
            None => None,
        }
    }

    /// Returns how many nodes have a current id.
    pub fn len(&self) -> (n: usize)
        ensures
            n == self.current().dom().len(),
    {
        self.node_to_internal.len()
    }

    /// Checks whether a node has a current id.
    pub fn contains(&self, node: NodeId) -> (r: bool)
        ensures
            r == self.current().contains_key(node),
    {
        self.node_to_internal.contains_key(&node)
    }

    /// The beam plan of a query: fetch five times `k` raw candidates
    /// with a search beam of at least fifty.
    pub fn knn_plan(&self, k: usize) -> (r: (usize, usize))
        requires
            k <= usize::MAX / 5,
        ensures
            r.0 == 5 * k,
            r.1 == (if k > 50 {
                k as int
            } else {
                50int
            }),
    {
        let fetch_k = 5 * k;
        let ef = if k > 50 {
            k
        } else {
            50
        };
        (fetch_k, ef)
    }

    /// True when the pair could have come from a live raw candidate:
    /// some candidate carries the same distance and a live internal id
    /// owned by the pair's node.
    pub open spec fn from_live_cand(self, cands: Seq<(u64, u64)>, p: (NodeId, u64)) -> bool {
        exists|cc: int|
            0 <= cc < cands.len() && p.1 == (#[trigger] cands[cc]).1 && self.live(
                cands[cc].0,
                p.0,
            )
    }

    /// The output row `p` is drawn from candidate `c`: same distance,
    /// and a live internal id owned by the row's node.
    pub open spec fn drawn_from(self, cands: Seq<(u64, u64)>, c: int, p: (NodeId, u64)) -> bool {
        &&& 0 <= c < cands.len()
        &&& p.1 == cands[c].1
        &&& self.live(cands[c].0, p.0)
    }

    /// Filters raw candidates down to live ones: each surviving pair
    /// carries a node whose current internal id produced it, survivors
    /// keep the candidates' order, no node appears twice, at most `k`
    /// survive, and fewer than `k` survive only when every live
    /// candidate's node is among them.
    pub fn filter_candidates(&self, cands: &Vec<(u64, u64)>, k: usize) -> (r: Vec<(NodeId, u64)>)
        requires
            self.wf(),
        ensures
            r@.len() <= k,
            forall|a: int| 0 <= a < r@.len() ==> self.from_live_cand(cands@, #[trigger] r@[a]),
            exists|srcs: Seq<int>|
                #![trigger srcs.len()]
                srcs.len() == r@.len() && (forall|a: int|
                    0 <= a < r@.len() ==> self.drawn_from(cands@, #[trigger] srcs[a], r@[a])) && (
                forall|a: int, b: int|
                    #![trigger srcs[a], srcs[b]]
                    0 <= a < b < r@.len() ==> srcs[a] < srcs[b]),
            forall|a: int, b: int| 0 <= a < b < r@.len() ==> r@[a].0 != r@[b].0,
            r@.len() < k ==> forall|c: int|
                0 <= c < cands@.len() && self.owner().contains_key((#[trigger] cands@[c]).0)
                    && self.live(cands@[c].0, self.owner()[cands@[c].0]) ==> exists|a: int|
                    0 <= a < r@.len() && (#[trigger] r@[a]).0 == self.owner()[cands@[c].0],
    {
        let mut out: Vec<(NodeId, u64)> = Vec::new();
        let mut seen: HashSet<NodeId> = HashSet::new();
        let mut c: usize = 0;
        let ghost mut srcs: Seq<int> = Seq::<int>::empty();
        while c < cands.len() && out.len() < k
            invariant
                self.wf(),
                0 <= c <= cands@.len(),
                out@.len() <= k,
                srcs.len() == out@.len(),
                forall|a: int| 0 <= a < out@.len() ==> self.drawn_from(cands@, #[trigger] srcs[a], out@[a]),
                forall|a: int| 0 <= a < srcs.len() ==> #[trigger] srcs[a] < c,
                forall|a: int, b: int|
                    #![trigger srcs[a], srcs[b]]
                    0 <= a < b < srcs.len() ==> srcs[a] < srcs[b],
                forall|x: NodeId| seen@.contains(x) ==> exists|a: int|
                    0 <= a < out@.len() && (#[trigger] out@[a]).0 == x,
                forall|a: int|
                    0 <= a < out@.len() ==> seen@.contains((#[trigger] out@[a]).0),
                forall|a: int|
                    0 <= a < out@.len() ==> self.from_live_cand(cands@, #[trigger] out@[a]),
                forall|a: int, b: int| 0 <= a < b < out@.len() ==> out@[a].0 != out@[b].0,
                forall|cc: int|
                    0 <= cc < c && self.owner().contains_key((#[trigger] cands@[cc]).0)
                        && self.live(cands@[cc].0, self.owner()[cands@[cc].0]) ==> exists|a: int|
                        0 <= a < out@.len() && (#[trigger] out@[a]).0 == self.owner()[cands@[cc].0],
            decreases cands@.len() - c,
        {
            let ghost old_out = out@;
            let ghost old_seen = seen@;
            let (internal, dist) = cands[c];
            match self.internal_to_node.get(&internal) {
                Some(node_ref) => {
                    let node = *node_ref;
                    match self.node_to_internal.get(&node) {
                        Some(cur) => {
                            if *cur == internal {
                                if !seen.contains(&node) {
                                    seen.insert(node);
                                    out.push((node, dist));
                                    proof {
                                        let na = out@.len() - 1;
                                        assert(out@[na] == (node, dist));
                                        assert(self.live(cands@[c as int].0, node));
                                        srcs = srcs.push(c as int);
                                        assert(self.drawn_from(cands@, srcs[na], out@[na]));
                                    }
                                }
                            }
                        },
                        None => {},
                    }
                },
                None => {},
            }
            proof {
                assert forall|x: NodeId| seen@.contains(x) implies exists|a: int|
                    0 <= a < out@.len() && (#[trigger] out@[a]).0 == x by {
                    if old_seen.contains(x) {
                        let a = choose|a: int|
                            0 <= a < old_out.len() && (#[trigger] old_out[a]).0 == x;
                        assert(out@[a].0 == x);
                    } else {
                        assert(out@[out@.len() - 1].0 == x);
                    }
                }
                assert forall|cc: int|
                    0 <= cc < c + 1 && self.owner().contains_key((#[trigger] cands@[cc]).0)
                        && self.live(cands@[cc].0, self.owner()[cands@[cc].0]) implies exists|
                    a: int,
                |
                    0 <= a < out@.len() && (#[trigger] out@[a]).0 == self.owner()[cands@[cc].0] by {
                    let nd = self.owner()[cands@[cc].0];
                    if cc < c {
                        let a = choose|a: int|
                            0 <= a < old_out.len() && (#[trigger] old_out[a]).0 == nd;
                        assert(out@[a].0 == nd);
                    } else {
                        if old_seen.contains(nd) {
                            let a = choose|a: int|
                                0 <= a < old_out.len() && (#[trigger] old_out[a]).0 == nd;
                            assert(out@[a].0 == nd);
                        } else {
                            assert(out@[out@.len() - 1].0 == nd);
                        }
                    }
                }
                assert forall|a: int|
                    0 <= a < out@.len() implies self.from_live_cand(
                    cands@,
                    #[trigger] out@[a],
                ) by {
                    if a < old_out.len() {
                        assert(out@[a] == old_out[a]);
                        assert(self.from_live_cand(cands@, old_out[a]));
                    } else {
                        assert((out@[a]).1 == cands@[c as int].1 && self.live(
                            cands@[c as int].0,
                            out@[a].0,
                        ));
                    }
                }
            }
            c = c + 1;
        }
        proof {
            assert(srcs.len() == out@.len() && (forall|a: int|
                0 <= a < out@.len() ==> self.drawn_from(cands@, #[trigger] srcs[a], out@[a])) && (
            forall|a: int, b: int|
                #![trigger srcs[a], srcs[b]]
                0 <= a < b < out@.len() ==> srcs[a] < srcs[b]));
        }
        out
    }
}

/// Once a node's embedding is replaced, a query that returns the node
/// can only have drawn it from the new internal id: the old id is no
/// longer live.
pub proof fn lemma_shadow_update(s0: ShadowIndex, s1: ShadowIndex, s2: ShadowIndex, node: NodeId, i1: u64, i2: u64)
    requires
        s0.wf(),
        s0.minted() < u64::MAX,
        s1.minted() < u64::MAX,
        // two publishes for the same node, one after the other
        !s0.owner().contains_key(i1),
        s1.current() == s0.current().insert(node, i1),
        s1.owner() == s0.owner().insert(i1, node),
        !s1.owner().contains_key(i2),
        s2.current() == s1.current().insert(node, i2),
        s2.owner() == s1.owner().insert(i2, node),
    ensures
        !s2.live(i1, node),
        forall|x: NodeId| !s2.live(i1, x),
        i1 != i2,
{
    assert(s2.current()[node] == i2);
    assert(i1 != i2) by {
        assert(s1.owner().contains_key(i1));
    }
    assert forall|x: NodeId| !s2.live(i1, x) by {
        if s2.live(i1, x) {
            assert(s2.owner()[i1] == x);
            assert(s1.owner().contains_key(i1) && s1.owner()[i1] == node);
            assert(x == node);
            assert(s2.current()[node] == i2);
        }
    }
}

} // verus!
