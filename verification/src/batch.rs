//! Staging buffer for deferred vector-index updates.
//!
//! When asynchronous indexing is enabled, writes park their pending
//! vector updates here; a worker drains the buffer on a fixed interval
//! and applies each pending entry with a non-empty, in-range embedding
//! to the vector index.

use vstd::prelude::*;

use crate::vec_ok;
use crate::vector::LinearVectorIndex;
use crate::Node;

verus! {

/// A bounded staging buffer of pending node updates.
pub struct BatchQueue {
    /// The pending updates, oldest first.
    queue: Vec<Node>,
    /// How many pending updates make the buffer full.
    max_batch_size: usize,
}

impl BatchQueue {
    /// The pending updates, oldest first.
    pub closed spec fn pending(self) -> Seq<Node> {
        self.queue@
    }

    /// The configured batch size.
    pub closed spec fn cap(self) -> nat {
        self.max_batch_size as nat
    }

    /// Creates an empty buffer with the given batch size.
    pub fn new(max_batch_size: usize) -> (r: BatchQueue)
        ensures
            r.pending() == Seq::<Node>::empty(),
            r.cap() == max_batch_size,
    {
        BatchQueue { queue: Vec::new(), max_batch_size }
    }

    /// Parks one pending update; true means the buffer is now full and
    /// should be flushed.
    pub fn push(&mut self, node: Node) -> (full: bool)
        ensures
            final(self).pending() == old(self).pending().push(node),
            final(self).cap() == old(self).cap(),
            full == (final(self).pending().len() >= final(self).cap()),
    {
        self.queue.push(node);
        self.queue.len() >= self.max_batch_size
    }

    /// Takes every pending update out of the buffer.
    pub fn flush(&mut self) -> (batch: Vec<Node>)
        ensures
            batch@ == old(self).pending(),
            final(self).pending() == Seq::<Node>::empty(),
            final(self).cap() == old(self).cap(),
    {
        let mut swapped: Vec<Node> = Vec::new();
        std::mem::swap(&mut self.queue, &mut swapped);
        swapped
    }

    /// Returns the number of pending updates.
    pub fn len(&self) -> (n: usize)
        ensures
            n == self.pending().len(),
    {
        self.queue.len()
    }

    /// True when no update is pending.
    pub fn is_empty(&self) -> (r: bool)
        ensures
            r == (self.pending().len() == 0),
    {
        self.queue.len() == 0
    }
}

/// A vector map after applying one pending node: a non-empty, in-range
/// embedding replaces the node's entry; anything else leaves the map
/// unchanged.
pub open spec fn apply_pending_one(m: Map<u64, Seq<i64>>, nd: Node) -> Map<u64, Seq<i64>> {
    if nd.embedding@.len() > 0 && vec_ok(nd.embedding@) {
        m.insert(nd.id, nd.embedding@)
    } else {
        m
    }
}

/// A vector map after applying the first `n` pending nodes in order.
pub open spec fn apply_pending_upto(m: Map<u64, Seq<i64>>, b: Seq<Node>, n: int) -> Map<
    u64,
    Seq<i64>,
>
    decreases n,
{
    if n <= 0 {
        m
    } else {
        apply_pending_one(apply_pending_upto(m, b, n - 1), b[n - 1])
    }
}

/// Applies a drained batch to the vector index, one entry at a time.
pub struct BatchIndexer;

impl BatchIndexer {
    /// Inserts every pending entry with a non-empty, in-range embedding
    /// into the vector index, in batch order.
    pub fn apply_batch(index: &mut LinearVectorIndex, batch: &Vec<Node>)
        requires
            old(index).wf(),
        ensures
            final(index).wf(),
            final(index).contents() == apply_pending_upto(
                old(index).contents(),
                batch@,
                batch@.len() as int,
            ),
    {
        let mut i: usize = 0;
        while i < batch.len()
            invariant
                index.wf(),
                0 <= i <= batch@.len(),
                index.contents() == apply_pending_upto(
                    old(index).contents(),
                    batch@,
                    i as int,
                ),
            decreases batch@.len() - i,
        {
            let nd = &batch[i];
            if nd.embedding.len() > 0 && crate::check_vec_ok(&nd.embedding) {
                index.insert(nd.id, &nd.embedding);
            }
            i = i + 1;
        }
    }
}

} // verus!
