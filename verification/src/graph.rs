//! Graph index for traversal operations.
//!
//! An adjacency-list index over directed edges, with neighbor lookup and
//! a bounded breadth-first traversal.

use std::collections::HashMap;
use std::collections::HashSet;
use std::collections::VecDeque;
use vstd::prelude::*;

use crate::NodeId;

verus! {

broadcast use vstd::std_specs::hash::group_hash_axioms, vstd::std_specs::vecdeque::group_vec_dequeue_axioms;

/// True when the adjacency map records a directed edge from `u` to `v`.
pub open spec fn has_edge(adj: Map<NodeId, Seq<NodeId>>, u: NodeId, v: NodeId) -> bool {
    adj.contains_key(u) && adj[u].contains(v)
}

/// True when `id` can be reached from `start` by following at most
/// `hops` directed edges of `adj`.
pub open spec fn reachable_within(
    adj: Map<NodeId, Seq<NodeId>>,
    start: NodeId,
    id: NodeId,
    hops: nat,
) -> bool
    decreases hops,
{
    id == start || (hops > 0 && exists|u: NodeId|
        reachable_within(adj, start, u, (hops - 1) as nat) && #[trigger] has_edge(adj, u, id))
}

/// Reaching a node within `h` hops also reaches it within any larger bound.
pub proof fn lemma_reachable_monotonic(
    adj: Map<NodeId, Seq<NodeId>>,
    start: NodeId,
    id: NodeId,
    h1: nat,
    h2: nat,
)
    requires
        reachable_within(adj, start, id, h1),
        h1 <= h2,
    ensures
        reachable_within(adj, start, id, h2),
    decreases h1,
{
    if id != start {
        let u = choose|u: NodeId|
            reachable_within(adj, start, u, (h1 - 1) as nat) && #[trigger] has_edge(adj, u, id);
        lemma_reachable_monotonic(adj, start, u, (h1 - 1) as nat, (h2 - 1) as nat);
    }
}

/// True when the traversal queue holds an entry for node `v`.
pub open spec fn in_node_queue(q: Seq<(NodeId, usize)>, v: NodeId) -> bool {
    exists|i: int| 0 <= i < q.len() && (#[trigger] q[i]).0 == v
}

/// A finished traversal's label map is closed: every labeled node
/// either sits at the hop bound, or every neighbor is labeled at most
/// one hop deeper.
pub open spec fn bfs_closed(
    adj: Map<NodeId, Seq<NodeId>>,
    depths: Map<NodeId, int>,
    max_hops: int,
) -> bool {
    forall|v: NodeId| #[trigger]
        depths.contains_key(v) ==> (depths[v] >= max_hops || (forall|w: NodeId|
            #[trigger] has_edge(adj, v, w) ==> depths.contains_key(w) && depths[w] <= depths[v]
                + 1))
}

/// In a closed label map that labels the start with zero, every node
/// reachable within the bound is labeled, no deeper than its hop count.
pub proof fn lemma_bfs_complete(
    adj: Map<NodeId, Seq<NodeId>>,
    depths: Map<NodeId, int>,
    start: NodeId,
    max_hops: int,
    id: NodeId,
    h: int,
)
    requires
        bfs_closed(adj, depths, max_hops),
        depths.contains_key(start),
        depths[start] == 0,
        0 <= h <= max_hops,
        reachable_within(adj, start, id, h as nat),
    ensures
        depths.contains_key(id),
        depths[id] <= h,
    decreases h,
{
    if id != start {
        let u = choose|u: NodeId|
            reachable_within(adj, start, u, (h - 1) as nat) && #[trigger] has_edge(adj, u, id);
        lemma_bfs_complete(adj, depths, start, max_hops, u, h - 1);
        assert(depths[u] < max_hops);
    }
}

/// True when `h` is exactly the hop distance of `id` from `start`: the
/// node is reachable within `h` edges and, unless `h` is zero, not
/// within fewer.
pub open spec fn is_hop_dist(
    adj: Map<NodeId, Seq<NodeId>>,
    start: NodeId,
    id: NodeId,
    h: int,
) -> bool {
    &&& 0 <= h
    &&& reachable_within(adj, start, id, h as nat)
    &&& (h == 0 || !reachable_within(adj, start, id, (h - 1) as nat))
}

/// The hop distance of `id` from `start`, where one exists.
pub open spec fn hop_dist(adj: Map<NodeId, Seq<NodeId>>, start: NodeId, id: NodeId) -> int {
    choose|h: int| is_hop_dist(adj, start, id, h)
}

/// Hop distances are unique.
pub proof fn lemma_hop_dist_unique(
    adj: Map<NodeId, Seq<NodeId>>,
    start: NodeId,
    id: NodeId,
    h1: int,
    h2: int,
)
    requires
        is_hop_dist(adj, start, id, h1),
        is_hop_dist(adj, start, id, h2),
    ensures
        h1 == h2,
{
    if h1 < h2 {
        lemma_reachable_monotonic(adj, start, id, h1 as nat, (h2 - 1) as nat);
    }
    if h2 < h1 {
        lemma_reachable_monotonic(adj, start, id, h2 as nat, (h1 - 1) as nat);
    }
}

/// A node reachable within `h` edges has a hop distance, and it is at
/// most `h`.
pub proof fn lemma_hop_dist_exists(
    adj: Map<NodeId, Seq<NodeId>>,
    start: NodeId,
    id: NodeId,
    h: int,
)
    requires
        0 <= h,
        reachable_within(adj, start, id, h as nat),
    ensures
        is_hop_dist(adj, start, id, hop_dist(adj, start, id)),
        hop_dist(adj, start, id) <= h,
    decreases h,
{
    if h == 0 {
        assert(is_hop_dist(adj, start, id, 0));
        let picked = choose|w: int| is_hop_dist(adj, start, id, w);
        lemma_hop_dist_unique(adj, start, id, picked, 0);
    } else if reachable_within(adj, start, id, (h - 1) as nat) {
        lemma_hop_dist_exists(adj, start, id, h - 1);
    } else {
        assert(is_hop_dist(adj, start, id, h));
        let picked = choose|w: int| is_hop_dist(adj, start, id, w);
        lemma_hop_dist_unique(adj, start, id, picked, h);
    }
}

/// In a closed, sound and complete label map, every label is exactly
/// its node's hop distance.
pub proof fn lemma_labels_are_hop_dists(
    adj: Map<NodeId, Seq<NodeId>>,
    depths: Map<NodeId, int>,
    start: NodeId,
    max_hops: int,
    id: NodeId,
)
    requires
        bfs_closed(adj, depths, max_hops),
        depths.contains_key(start),
        depths[start] == 0,
        depths.contains_key(id),
        0 <= depths[id] <= max_hops,
        reachable_within(adj, start, id, depths[id] as nat),
    ensures
        is_hop_dist(adj, start, id, depths[id]),
        depths[id] == hop_dist(adj, start, id),
{
    lemma_hop_dist_exists(adj, start, id, depths[id]);
    let hd = hop_dist(adj, start, id);
    lemma_bfs_complete(adj, depths, start, max_hops, id, hd);
    lemma_hop_dist_unique(adj, start, id, hd, depths[id]);
}

/// The outgoing list of `u` in `adj`, or the empty sequence when `u` is
/// unknown.
pub open spec fn out_list(adj: Map<NodeId, Seq<NodeId>>, u: NodeId) -> Seq<NodeId> {
    if adj.contains_key(u) {
        adj[u]
    } else {
        Seq::<NodeId>::empty()
    }
}

/// The adjacency map after adding one directed edge from `u` to `v`:
/// `v` is appended to `u`'s list, and `v` gains an empty list when it
/// was unknown.
pub open spec fn edge_added(adj: Map<NodeId, Seq<NodeId>>, u: NodeId, v: NodeId) -> Map<
    NodeId,
    Seq<NodeId>,
> {
    let mid = adj.insert(u, out_list(adj, u).push(v));
    if mid.contains_key(v) {
        mid
    } else {
        mid.insert(v, Seq::<NodeId>::empty())
    }
}

/// In-memory graph index backed by adjacency lists.
///
/// Offers constant-time neighbor lookups and a bounded BFS traversal
/// over nodes connected by directed edges.
pub struct GraphIndex {
    /// Adjacency list mapping each node to its outgoing neighbors.
    adjacency: HashMap<NodeId, Vec<NodeId>>,
    /// Running total of edges ever added, for constant-time counting.
    edges_total: usize,
}

impl GraphIndex {
    /// The adjacency lists as a mathematical map from node to the
    /// ordered sequence of its outgoing neighbors.
    pub closed spec fn adj(self) -> Map<NodeId, Seq<NodeId>> {
        self.adjacency@.map_values(|v: Vec<NodeId>| v@)
    }

    /// The number of edges added so far.
    pub closed spec fn edge_total(self) -> nat {
        self.edges_total as nat
    }

    /// Creates a new empty graph index.
    pub fn new() -> (g: GraphIndex)
        ensures
            g.adj() == Map::<NodeId, Seq<NodeId>>::empty(),
            g.edge_total() == 0,
    {
        let g = GraphIndex { adjacency: HashMap::new(), edges_total: 0 };
        proof {
            assert(g.adj() =~= Map::<NodeId, Seq<NodeId>>::empty());
        }
        g
    }

    /// Adds a directed edge from one node to another. Both endpoints are
    /// recorded in the index afterwards; duplicate edges are allowed and
    /// kept in insertion order.
    pub fn add_edge(&mut self, from: NodeId, to: NodeId)
        requires
            old(self).edge_total() < usize::MAX,
        ensures
            final(self).adj() == edge_added(old(self).adj(), from, to),
            final(self).edge_total() == old(self).edge_total() + 1,
    {
        let list = match self.adjacency.get(&from) {
            Some(v) => {
                let mut v2 = v.clone();
                v2.push(to);
                v2
            },
            None => {
                let mut v2: Vec<NodeId> = Vec::new();
                v2.push(to);
                v2
            },
        };
        self.adjacency.insert(from, list);
        if !self.adjacency.contains_key(&to) {
            self.adjacency.insert(to, Vec::new());
        }
        self.edges_total = self.edges_total + 1;
        proof {
            assert(self.adj() =~= edge_added(old(self).adj(), from, to));
        }
    }

    /// Returns the ordered outgoing neighbors of a node, or `None` when
    /// the node is unknown to the index.
    pub fn neighbors(&self, id: NodeId) -> (r: Option<&Vec<NodeId>>)
        ensures
            match r {
                Some(v) => self.adj().contains_key(id) && v@ == self.adj()[id],
                None => !self.adj().contains_key(id),
            },
    {
        self.adjacency.get(&id)
    }

    /// Performs a BFS traversal from a start node up to a maximum depth.
    ///
    /// When the start node is unknown the result is empty. Otherwise the
    /// result begins with the start node, lists each visited node once in
    /// order of discovery, and holds exactly the nodes reachable from the
    /// start within `max_hops` edges, with hop distances nondecreasing
    /// along the list. Within one hop distance the order is not part of
    /// the contract.
    #[verifier::rlimit(100)]
    pub fn bfs_hops(&self, start: NodeId, max_hops: usize) -> (r: Vec<NodeId>)
        ensures
            !self.adj().contains_key(start) ==> r@ == Seq::<NodeId>::empty(),
            self.adj().contains_key(start) ==> r@.len() >= 1 && r@[0] == start,
            forall|i: int, j: int| 0 <= i < j < r@.len() ==> r@[i] != r@[j],
            forall|i: int|
                0 <= i < r@.len() ==> reachable_within(
                    self.adj(),
                    start,
                    #[trigger] r@[i],
                    max_hops as nat,
                ),
            self.adj().contains_key(start) ==> forall|id: NodeId|
                reachable_within(self.adj(), start, id, max_hops as nat) ==> r@.contains(id),
            forall|i: int, j: int|
                0 <= i < j < r@.len() ==> hop_dist(self.adj(), start, #[trigger] r@[i])
                    <= hop_dist(self.adj(), start, #[trigger] r@[j]),
    {
        if !self.adjacency.contains_key(&start) {
            return Vec::new();
        }
        let mut visited: HashSet<NodeId> = HashSet::new();
        let mut result: Vec<NodeId> = Vec::new();
        let mut queue: VecDeque<(NodeId, usize)> = VecDeque::new();
        let ghost mut depths: Map<NodeId, int> = Map::<NodeId, int>::empty().insert(start, 0);

        queue.push_back((start, 0));
        visited.insert(start);
        result.push(start);

        proof {
            assert(reachable_within(self.adj(), start, start, 0));
            assert(queue@[0].0 == start);
            assert(in_node_queue(queue@, start));
        }

        while queue.len() > 0
            invariant
                self.adj().contains_key(start),
                result@.len() >= 1 && result@[0] == start,
                forall|i: int, j: int| 0 <= i < j < result@.len() ==> result@[i] != result@[j],
                forall|i: int|
                    0 <= i < result@.len() ==> visited@.contains(#[trigger] result@[i]),
                forall|x: NodeId| visited@.contains(x) ==> result@.contains(x),
                forall|x: NodeId| #[trigger] depths.contains_key(x) <==> visited@.contains(x),
                depths.contains_key(start) && depths[start] == 0,
                forall|x: NodeId| #[trigger]
                    depths.contains_key(x) ==> 0 <= depths[x] <= max_hops && reachable_within(
                        self.adj(),
                        start,
                        x,
                        depths[x] as nat,
                    ),
                forall|i: int|
                    0 <= i < queue@.len() ==> depths.contains_key((#[trigger] queue@[i]).0)
                        && depths[queue@[i].0] == queue@[i].1 as int,
                forall|i: int, j: int|
                    0 <= i < j < queue@.len() ==> (#[trigger] queue@[i]).1 <= (
                    #[trigger] queue@[j]).1,
                queue@.len() > 0 ==> queue@[queue@.len() - 1].1 <= queue@[0].1 + 1,
                queue@.len() > 0 ==> forall|x: NodeId| #[trigger]
                    depths.contains_key(x) ==> depths[x] <= queue@[queue@.len() - 1].1 as int,
                forall|x: NodeId| #[trigger]
                    depths.contains_key(x) ==> (in_node_queue(queue@, x) || depths[x] >= max_hops
                        || (forall|w: NodeId| #[trigger]
                        has_edge(self.adj(), x, w) ==> depths.contains_key(w) && depths[w]
                            <= depths[x] + 1)),
                forall|a: int, b: int|
                    0 <= a < b < result@.len() ==> depths[result@[a]] <= depths[result@[b]],
            decreases bfs_measure(result@.len(), queue@.len()),
        {
            let ghost prev_q = queue@;
            let ghost prev_result_len = result@.len();
            let ghost prev_queue_len = queue@.len();
            let popped = queue.pop_front();
            let (current, depth) = match popped {
                Some(p) => p,
                None => {
                    proof {
                        assert(false);
                    }
                    (0, 0)
                },
            };
            proof {
                assert(prev_q[0] == (current, depth));
                assert(queue@ =~= prev_q.drop_first());
                assert forall|i: int|
                    0 <= i < queue@.len() implies depth <= (#[trigger] queue@[i]).1 <= depth
                    + 1 by {
                    assert(queue@[i] == prev_q[i + 1]);
                    assert(prev_q[i + 1].1 <= prev_q[prev_q.len() - 1].1);
                }
                assert forall|x: NodeId| #[trigger]
                    depths.contains_key(x) implies depths[x] <= depth + 1 by {
                    assert(depths[x] <= prev_q[prev_q.len() - 1].1 as int);
                }
                assert forall|x: NodeId| #[trigger]
                    depths.contains_key(x) implies (x == current || in_node_queue(queue@, x)
                    || depths[x] >= max_hops || (forall|w: NodeId| #[trigger]
                    has_edge(self.adj(), x, w) ==> depths.contains_key(w) && depths[w] <= depths[x]
                        + 1)) by {
                    if x != current && in_node_queue(prev_q, x) {
                        let i = choose|i: int|
                            0 <= i < prev_q.len() && (#[trigger] prev_q[i]).0 == x;
                        if i > 0 {
                            assert(queue@[i - 1].0 == x);
                            assert(in_node_queue(queue@, x));
                        } else {
                            assert(prev_q[0].0 == x);
                        }
                    }
                }
            }
            if depth < max_hops {
                match self.adjacency.get(&current) {
                    Some(neighbors) => {
                        let ghost nbs = neighbors@;
                        let mut j: usize = 0;
                        while j < neighbors.len()
                            invariant
                                nbs == neighbors@,
                                0 <= j <= nbs.len(),
                                self.adj().contains_key(current),
                                self.adj()[current] == nbs,
                                depths.contains_key(current) && depths[current] == depth,
                                depth < max_hops,
                                self.adj().contains_key(start),
                                result@.len() >= 1 && result@[0] == start,
                                result@.len() >= prev_result_len,
                                queue@.len() <= prev_queue_len - 1 + j,
                                result@.len() - prev_result_len >= queue@.len() - (prev_queue_len
                                    - 1),
                                forall|a: int, b: int|
                                    0 <= a < b < result@.len() ==> result@[a] != result@[b],
                                forall|a: int|
                                    0 <= a < result@.len() ==> visited@.contains(
                                        #[trigger] result@[a],
                                    ),
                                forall|x: NodeId| visited@.contains(x) ==> result@.contains(x),
                                forall|x: NodeId| #[trigger]
                                    depths.contains_key(x) <==> visited@.contains(x),
                                depths.contains_key(start) && depths[start] == 0,
                                forall|x: NodeId| #[trigger]
                                    depths.contains_key(x) ==> 0 <= depths[x] <= max_hops
                                        && reachable_within(
                                        self.adj(),
                                        start,
                                        x,
                                        depths[x] as nat,
                                    ),
                                forall|x: NodeId| #[trigger]
                                    depths.contains_key(x) ==> depths[x] <= depth + 1,
                                forall|i: int|
                                    0 <= i < queue@.len() ==> depths.contains_key(
                                        (#[trigger] queue@[i]).0,
                                    ) && depths[queue@[i].0] == queue@[i].1 as int && depth <= queue@[i].1
                                        <= depth + 1,
                                forall|a: int, b: int|
                                    0 <= a < b < queue@.len() ==> (#[trigger] queue@[a]).1 <= (
                                    #[trigger] queue@[b]).1,
                                queue@.len() > 0 ==> forall|x: NodeId| #[trigger]
                                    depths.contains_key(x) ==> depths[x] <= queue@[queue@.len()
                                        - 1].1 as int,
                                forall|t: int|
                                    0 <= t < j ==> depths.contains_key(#[trigger] nbs[t])
                                        && depths[nbs[t]] <= depth + 1,
                                forall|x: NodeId| #[trigger]
                                    depths.contains_key(x) ==> (x == current || in_node_queue(
                                        queue@,
                                        x,
                                    ) || depths[x] >= max_hops || (forall|w: NodeId| #[trigger]
                                        has_edge(self.adj(), x, w) ==> depths.contains_key(w)
                                            && depths[w] <= depths[x] + 1)),
                                forall|a: int, b: int|
                                    0 <= a < b < result@.len() ==> depths[result@[a]]
                                        <= depths[result@[b]],
                            decreases nbs.len() - j,
                        {
                            let neighbor = neighbors[j];
                            if !visited.contains(&neighbor) {
                                proof {
                                    assert(has_edge(self.adj(), current, neighbor));
                                    assert(reachable_within(
                                        self.adj(),
                                        start,
                                        neighbor,
                                        (depth + 1) as nat,
                                    ));
                                    assert(!result@.contains(neighbor));
                                }
                                let ghost old_res = result@;
                                let ghost old_q = queue@;
                                visited.insert(neighbor);
                                result.push(neighbor);
                                queue.push_back((neighbor, depth + 1));
                                proof {
                                    let pre_depths = depths;
                                    depths = depths.insert(neighbor, depth + 1);
                                    assert(result@[old_res.len() as int] == neighbor);
                                    assert(result@.contains(neighbor));
                                    assert forall|x: NodeId| old_res.contains(
                                        x,
                                    ) implies result@.contains(x) by {
                                        let w = choose|w: int|
                                            0 <= w < old_res.len() && old_res[w] == x;
                                        assert(result@[w] == x);
                                    }
                                    assert forall|a: int, b: int|
                                        0 <= a < b < result@.len() implies depths[result@[a]]
                                        <= depths[result@[b]] by {
                                        if b == result@.len() - 1 {
                                            assert(result@[a] == old_res[a]);
                                            assert(old_res[a] != neighbor);
                                            assert(pre_depths.contains_key(old_res[a]));
                                            assert(depths[old_res[a]] == pre_depths[old_res[a]]);
                                            assert(pre_depths[old_res[a]] <= depth + 1);
                                            assert(depths[result@[b]] == depth + 1);
                                        } else {
                                            assert(result@[a] == old_res[a]);
                                            assert(result@[b] == old_res[b]);
                                            assert(old_res[a] != neighbor && old_res[b]
                                                != neighbor);
                                            assert(pre_depths[old_res[a]] <= pre_depths[old_res[
                                                b
                                            ]]);
                                            assert(depths[old_res[a]] == pre_depths[old_res[a]]
                                                && depths[old_res[b]] == pre_depths[old_res[b]]);
                                        }
                                    }
                                    assert(queue@[queue@.len() - 1].0 == neighbor && queue@[queue@.len() - 1].1 == depth + 1);
                                    assert forall|x: NodeId| #[trigger]
                                        depths.contains_key(x) implies (x == current
                                        || in_node_queue(queue@, x) || depths[x] >= max_hops || (
                                    forall|w: NodeId| #[trigger]
                                        has_edge(self.adj(), x, w) ==> depths.contains_key(w)
                                            && depths[w] <= depths[x] + 1)) by {
                                        if x == neighbor {
                                            assert(queue@[queue@.len() - 1].0 == x);
                                            assert(in_node_queue(queue@, x));
                                        } else if in_node_queue(old_q, x) {
                                            let i = choose|i: int|
                                                0 <= i < old_q.len() && (#[trigger] old_q[i]).0
                                                    == x;
                                            assert(queue@[i].0 == x);
                                            assert(in_node_queue(queue@, x));
                                        }
                                    }
                                }
                            } else {
                                proof {
                                    assert(visited@.contains(neighbor));
                                    assert(depths.contains_key(neighbor));
                                    assert(depths[neighbor] <= depth + 1);
                                }
                            }
                            j = j + 1;
                        }
                        proof {
                            assert forall|w: NodeId| #[trigger]
                                has_edge(self.adj(), current, w) implies depths.contains_key(w)
                                && depths[w] <= depth + 1 by {
                                let t = choose|t: int| 0 <= t < nbs.len() && nbs[t] == w;
                                assert(depths.contains_key(nbs[t]));
                            }
                            assert(queue@.len() > 0 ==> queue@[queue@.len() - 1].1 <= queue@[0].1
                                + 1);
                        }
                    },
                    None => {
                        proof {
                            assert(!self.adj().contains_key(current));
                            assert forall|x: NodeId| #[trigger]
                                depths.contains_key(x) implies (in_node_queue(queue@, x)
                                || depths[x] >= max_hops || (forall|w: NodeId| #[trigger]
                                has_edge(self.adj(), x, w) ==> depths.contains_key(w) && depths[w]
                                    <= depths[x] + 1)) by {
                                if x == current {
                                    assert(forall|w: NodeId|
                                        !has_edge(self.adj(), current, w));
                                } else if in_node_queue(prev_q, x) {
                                    let i = choose|i: int|
                                        0 <= i < prev_q.len() && (#[trigger] prev_q[i]).0 == x;
                                    if i > 0 {
                                        assert(queue@[i - 1].0 == x);
                                        assert(in_node_queue(queue@, x));
                                    } else {
                                        assert(depths.contains_key(current));
                                        assert(depths[x] == depth);
                                        assert(forall|w: NodeId|
                                            !has_edge(self.adj(), x, w));
                                    }
                                }
                            }
                        }
                    },
                }
            } else {
                proof {
                    assert forall|x: NodeId| #[trigger]
                        depths.contains_key(x) implies (in_node_queue(queue@, x) || depths[x]
                        >= max_hops || (forall|w: NodeId| #[trigger]
                        has_edge(self.adj(), x, w) ==> depths.contains_key(w) && depths[w]
                            <= depths[x] + 1)) by {
                        if x == current {
                            assert(depths[x] == depth);
                        } else if in_node_queue(prev_q, x) {
                            let i = choose|i: int|
                                0 <= i < prev_q.len() && (#[trigger] prev_q[i]).0 == x;
                            if i > 0 {
                                assert(queue@[i - 1].0 == x);
                                assert(in_node_queue(queue@, x));
                            } else {
                                assert(depths[x] == depth);
                            }
                        }
                    }
                }
            }
            let rl = result.len();
            let ql = queue.len();
            proof {
                lemma_decrease_helper(prev_result_len, rl as nat, prev_queue_len, ql as nat);
            }
        }
        proof {
            assert forall|i: int|
                0 <= i < result@.len() implies reachable_within(
                self.adj(),
                start,
                #[trigger] result@[i],
                max_hops as nat,
            ) by {
                assert(depths.contains_key(result@[i]));
                lemma_reachable_monotonic(
                    self.adj(),
                    start,
                    result@[i],
                    depths[result@[i]] as nat,
                    max_hops as nat,
                );
            }
            assert(bfs_closed(self.adj(), depths, max_hops as int));
            assert forall|id: NodeId|
                reachable_within(self.adj(), start, id, max_hops as nat) implies result@.contains(
                id,
            ) by {
                lemma_bfs_complete(
                    self.adj(),
                    depths,
                    start,
                    max_hops as int,
                    id,
                    max_hops as int,
                );
                assert(visited@.contains(id));
            }
            assert forall|i: int, j: int|
                0 <= i < j < result@.len() implies hop_dist(
                self.adj(),
                start,
                #[trigger] result@[i],
            ) <= hop_dist(self.adj(), start, #[trigger] result@[j]) by {
                assert(visited@.contains(result@[i]) && visited@.contains(result@[j]));
                assert(depths.contains_key(result@[i]) && depths.contains_key(result@[j]));
                lemma_labels_are_hop_dists(
                    self.adj(),
                    depths,
                    start,
                    max_hops as int,
                    result@[i],
                );
                lemma_labels_are_hop_dists(
                    self.adj(),
                    depths,
                    start,
                    max_hops as int,
                    result@[j],
                );
            }
        }
        result
    }

    /// Returns the number of nodes known to the graph index.
    pub fn node_count(&self) -> (n: usize)
        ensures
            n == self.adj().dom().len(),
    {
        proof {
            assert(self.adj().dom() =~= self.adjacency@.dom());
        }
        self.adjacency.len()
    }

    /// Returns the total number of edges added to the graph.
    pub fn edge_count(&self) -> (n: usize)
        ensures
            n == self.edge_total(),
    {
        self.edges_total
    }

    /// Checks if a node exists in the graph index.
    pub fn contains_node(&self, id: NodeId) -> (r: bool)
        ensures
            r == self.adj().contains_key(id),
    {
        self.adjacency.contains_key(&id)
    }

    /// Removes every node and edge from the graph index.
    pub fn clear(&mut self)
        ensures
            final(self).adj() == Map::<NodeId, Seq<NodeId>>::empty(),
            final(self).edge_total() == 0,
    {
        self.adjacency.clear();
        self.edges_total = 0;
        proof {
            assert(self.adj() =~= Map::<NodeId, Seq<NodeId>>::empty());
        }
    }
}

/// The BFS termination measure: visiting a new node pays for every
/// queue entry it may add.
pub open spec fn bfs_measure(r: nat, q: nat) -> int {
    if r <= usize::MAX {
        (usize::MAX - r) * (usize::MAX + 1) + q
    } else {
        q as int
    }
}

/// Helps the BFS termination argument: one loop round either grows the
/// result while adding at most that many queue entries, or shrinks the
/// queue by one.
pub proof fn lemma_decrease_helper(r0: nat, r1: nat, q0: nat, q1: nat)
    requires
        r1 >= r0,
        q0 >= 1,
        r1 - r0 >= q1 - (q0 - 1),
        r1 <= usize::MAX,
        q1 <= usize::MAX,
    ensures
        0 <= bfs_measure(r1, q1) < bfs_measure(r0, q0),
{
    let m = usize::MAX as int;
    assert((m - r1) * (m + 1) >= 0) by (nonlinear_arith)
        requires r1 <= m;
    if r1 == r0 {
        assert(q1 < q0);
    } else {
        assert(r1 > r0);
        assert((m - r1) * (m + 1) + (r1 - r0) * (m + 1) == (m - r0) * (m + 1))
            by (nonlinear_arith)
            requires r1 <= m && r0 < r1;
        assert((r1 - r0) * (m + 1) >= (m + 1)) by (nonlinear_arith)
            requires r1 > r0 && m >= 0;
        assert(q1 - q0 + 1 <= r1 - r0);
        assert(q1 <= m);
    }
}

} // verus!
