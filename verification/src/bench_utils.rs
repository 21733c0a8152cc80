//! Utilities that generate workloads for benchmarks and tests.

use vstd::prelude::*;

use crate::Node;
use crate::SCALE;
use rand::Rng;
use vstd::string::StringExecFns;

verus! {

/// Draws a random number below `n`.
///
/// Relies on rand::thread_rng and rand::Rng::gen_range over `0..n`:
/// the result is below `n`; which value comes out depends on the
/// generator, so nothing more is promised.
#[verifier::external_body]
fn random_below(n: u64) -> (r: u64)
    requires
        n > 0,
    ensures
        r < n,
{
    rand::thread_rng().gen_range(0..n)
}

/// Generates `count` nodes with ids `0..count`, labels derived from
/// the id, and, when `embedding_dim` is positive, random fixed-point
/// embeddings with components in `[0, 1)`.
pub fn generate_random_nodes(count: usize, embedding_dim: usize) -> (r: Vec<Node>)
    ensures
        r@.len() == count,
        forall|i: int|
            0 <= i < count ==> (#[trigger] r@[i]).id == i && r@[i].embedding@.len() == (
            if embedding_dim > 0 {
                embedding_dim as int
            } else {
                0int
            }) && (embedding_dim <= crate::DIM_LIMIT ==> crate::vec_ok(r@[i].embedding@)) && (
            forall|t: int| 0 <= t < r@[i].embedding@.len() ==> 0 <= #[trigger] r@[i].embedding@[t]
                < SCALE),
{
    let mut out: Vec<Node> = Vec::new();
    let mut i: usize = 0;
    while i < count
        invariant
            0 <= i <= count,
            out@.len() == i,
            forall|t: int|
                0 <= t < i ==> (#[trigger] out@[t]).id == t && out@[t].embedding@.len() == (
                if embedding_dim > 0 {
                    embedding_dim as int
                } else {
                    0int
                }) && (embedding_dim <= crate::DIM_LIMIT ==> crate::vec_ok(out@[t].embedding@))
                    && (forall|x: int|
                    0 <= x < out@[t].embedding@.len() ==> 0 <= #[trigger] out@[t].embedding@[x]
                        < SCALE),
        decreases count - i,
    {
        let mut embedding: Vec<i64> = Vec::new();
        if embedding_dim > 0 {
            let mut d: usize = 0;
            while d < embedding_dim
                invariant
                    0 <= d <= embedding_dim,
                    embedding@.len() == d,
                    forall|t: int|
                        0 <= t < d ==> crate::coord_ok(#[trigger] embedding@[t]) && 0
                            <= embedding@[t] < SCALE,
                decreases embedding_dim - d,
            {
                let c = random_below(1_000_000);
                embedding.push(c as i64);
                d = d + 1;
            }
        }
        let mut node = Node::with_timestamp(i as u64, label_for(i as u64), 0);
        node.embedding = embedding;
        out.push(node);
        i = i + 1;
    }
    out
}

/// Builds the label `node_<id>`, with the id in decimal.
fn label_for(id: u64) -> String {
    let mut out: String = String::new();
    out.append("node_");
    let digits = crate::wal::decimal_digits(id);
    out.append(digits.as_str());
    out
}

/// Generates random edges: each node draws `edges_per_node` targets at
/// random, keeping those that differ from the source.
pub fn generate_scale_free_edges(nodes: usize, edges_per_node: usize) -> (r: Vec<(u64, u64)>)
    ensures
        forall|t: int|
            0 <= t < r@.len() ==> (#[trigger] r@[t]).0 < nodes && r@[t].1 < nodes && r@[t].0
                != r@[t].1,
        r@.len() <= nodes * edges_per_node,
{
    let mut out: Vec<(u64, u64)> = Vec::new();
    if nodes == 0 {
        return out;
    }
    let mut i: usize = 0;
    while i < nodes
        invariant
            0 < nodes,
            0 <= i <= nodes,
            forall|t: int|
                0 <= t < out@.len() ==> (#[trigger] out@[t]).0 < nodes && out@[t].1 < nodes
                    && out@[t].0 != out@[t].1,
            out@.len() <= i * edges_per_node,
        decreases nodes - i,
    {
        let mut e: usize = 0;
        while e < edges_per_node
            invariant
                0 < nodes,
                0 <= i < nodes,
                0 <= e <= edges_per_node,
                forall|t: int|
                    0 <= t < out@.len() ==> (#[trigger] out@[t]).0 < nodes && out@[t].1 < nodes
                        && out@[t].0 != out@[t].1,
                out@.len() <= i * edges_per_node + e,
            decreases edges_per_node - e,
        {
            let to = random_below(nodes as u64);
            if to != i as u64 {
                out.push((i as u64, to));
            }
            e = e + 1;
        }
        proof {
            assert((i + 1) * edges_per_node == i * edges_per_node + edges_per_node)
                by (nonlinear_arith);
        }
        i = i + 1;
    }
    out
}

/// Generates a linear chain of `count` nodes: edge `t` links node `t`
/// to node `t + 1`.
pub fn generate_linear_chain(count: usize) -> (r: Vec<(u64, u64)>)
    ensures
        r@.len() == (if count > 0 {
            count - 1
        } else {
            0int
        }),
        forall|t: int| 0 <= t < r@.len() ==> #[trigger] r@[t] == (t as u64, (t + 1) as u64),
{
    let mut out: Vec<(u64, u64)> = Vec::new();
    if count == 0 {
        return out;
    }
    let mut i: usize = 0;
    while i < count - 1
        invariant
            count > 0,
            0 <= i <= count - 1,
            out@.len() == i,
            forall|t: int| 0 <= t < i ==> #[trigger] out@[t] == (t as u64, (t + 1) as u64),
        decreases count - 1 - i,
    {
        out.push((i as u64, (i + 1) as u64));
        i = i + 1;
    }
    out
}

/// The number of edges of a complete tree with the given depth and
/// branching factor: the sum of the level sizes.
pub open spec fn tree_edge_count(depth: int, branching: int) -> int
    decreases depth,
{
    if depth <= 0 {
        0
    } else {
        tree_edge_count(depth - 1, branching) * branching + branching
    }
}

/// Generates a complete tree in breadth-first order: edge `t` links
/// node `t / branching` to node `t + 1`.
pub fn generate_tree(depth: usize, branching_factor: usize) -> (r: Vec<(u64, u64)>)
    requires
        tree_edge_count(depth as int, branching_factor as int) < usize::MAX,
    ensures
        r@.len() == tree_edge_count(depth as int, branching_factor as int),
        branching_factor > 0 ==> forall|t: int|
            0 <= t < r@.len() ==> #[trigger] r@[t] == (
                (t / (branching_factor as int)) as u64,
                (t + 1) as u64,
            ),
{
    let mut out: Vec<(u64, u64)> = Vec::new();
    if branching_factor == 0 {
        proof {
            lemma_tree_edge_count_zero(depth as int);
        }
        return out;
    }
    proof {
        lemma_tree_edge_count_mono(depth as int, branching_factor as int);
    }
    let mut level: usize = 0;
    let mut total: usize = 0;
    // how many edges the tree has in all
    while level < depth
        invariant
            branching_factor > 0,
            0 <= level <= depth,
            total == tree_edge_count(level as int, branching_factor as int),
            tree_edge_count(depth as int, branching_factor as int) < usize::MAX,
            tree_edge_count(level as int, branching_factor as int) <= tree_edge_count(
                depth as int,
                branching_factor as int,
            ),
        decreases depth - level,
    {
        proof {
            lemma_tree_edge_count_step(level as int + 1, depth as int, branching_factor as int);
            assert(tree_edge_count(level as int + 1, branching_factor as int) == tree_edge_count(
                level as int,
                branching_factor as int,
            ) * branching_factor + branching_factor);
        }
        total = total * branching_factor + branching_factor;
        level = level + 1;
    }
    let mut t: usize = 0;
    while t < total
        invariant
            branching_factor > 0,
            0 <= t <= total,
            out@.len() == t,
            forall|x: int|
                0 <= x < t ==> #[trigger] out@[x] == (
                    (x / (branching_factor as int)) as u64,
                    (x + 1) as u64,
                ),
        decreases total - t,
    {
        out.push(((t / branching_factor) as u64, (t + 1) as u64));
        t = t + 1;
    }
    out
}

/// With no branching there are no edges at any depth.
proof fn lemma_tree_edge_count_zero(depth: int)
    ensures
        tree_edge_count(depth, 0) == 0,
    decreases depth,
{
    if depth > 0 {
        lemma_tree_edge_count_zero(depth - 1);
    }
}

/// Edge counts grow with depth.
proof fn lemma_tree_edge_count_mono(depth: int, branching: int)
    requires
        branching >= 1,
        depth >= 0,
    ensures
        forall|l: int|
            0 <= l <= depth ==> 0 <= #[trigger] tree_edge_count(l, branching)
                <= tree_edge_count(depth, branching),
    decreases depth,
{
    if depth > 0 {
        lemma_tree_edge_count_mono(depth - 1, branching);
        assert(tree_edge_count(depth - 1, branching) * branching >= tree_edge_count(
            depth - 1,
            branching,
        )) by (nonlinear_arith)
            requires branching >= 1 && tree_edge_count(depth - 1, branching) >= 0;
    }
}

/// Helps unfolding one step of the edge count.
proof fn lemma_tree_edge_count_step(level: int, depth: int, branching: int)
    requires
        1 <= level <= depth,
        branching >= 1,
    ensures
        tree_edge_count(level, branching) == tree_edge_count(level - 1, branching) * branching
            + branching,
        tree_edge_count(level, branching) <= tree_edge_count(depth, branching),
{
    lemma_tree_edge_count_mono(depth, branching);
}

/// Generates a random fixed-point query vector with components in
/// `[0, 1)`.
pub fn generate_random_query(dim: usize) -> (r: Vec<i64>)
    ensures
        r@.len() == dim,
        crate::vec_ok(r@) || dim > crate::DIM_LIMIT,
        forall|t: int| 0 <= t < dim ==> 0 <= #[trigger] r@[t] < SCALE,
{
    let mut out: Vec<i64> = Vec::new();
    let mut d: usize = 0;
    while d < dim
        invariant
            0 <= d <= dim,
            out@.len() == d,
            forall|t: int| 0 <= t < d ==> 0 <= #[trigger] out@[t] < SCALE,
        decreases dim - d,
    {
        let c = random_below(1_000_000);
        out.push(c as i64);
        d = d + 1;
    }
    out
}

} // verus!
