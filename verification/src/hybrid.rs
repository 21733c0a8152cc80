//! Hybrid scoring that fuses vector similarity and graph distance.
//!
//! Weights and scores are fixed-point numbers: a weight of `500_000`
//! stands for `0.5`. A score combines `alpha * (1 - min(1, d))` and
//! `beta * (1 / (1 + h))`, and is reported at the square of the scale,
//! so a real score of `1.0` under `alpha = beta = 0.5` comes out as
//! `1_000_000_000_000`.

use vstd::prelude::*;

use crate::NodeId;
use crate::SCALE;

verus! {

/// Largest weight the fixed-point scoring accepts (1000.0 in real
/// terms).
pub const WEIGHT_LIMIT: u64 = 1_000_000_000;

/// Parameters for hybrid scoring.
#[derive(Debug, Clone, Copy, PartialEq, Eq)]
pub struct HybridParams {
    /// Fixed-point weight for the vector similarity component.
    pub alpha: u64,
    /// Fixed-point weight for the graph distance component.
    pub beta: u64,
}

impl HybridParams {
    /// Both weights are small enough for overflow-free scoring.
    pub open spec fn wf(self) -> bool {
        self.alpha <= WEIGHT_LIMIT && self.beta <= WEIGHT_LIMIT
    }

    /// Creates new hybrid parameters with the given fixed-point
    /// weights.
    pub fn new(alpha: u64, beta: u64) -> (r: HybridParams)
        ensures
            r.alpha == alpha && r.beta == beta,
    {
        HybridParams { alpha, beta }
    }
}

impl Default for HybridParams {
    /// Equal weights of one half for both components.
    fn default() -> (r: HybridParams)
        ensures
            r.alpha == 500_000 && r.beta == 500_000,
    {
        HybridParams { alpha: 500_000, beta: 500_000 }
    }
}

/// Result of a hybrid query, with both raw metrics and the fused score.
#[derive(Debug, Clone, PartialEq, Eq)]
pub struct HybridResult {
    /// Node id of this result.
    pub id: NodeId,
    /// Combined fixed-point score at squared scale; higher is better.
    pub score: u64,
    /// Fixed-point L2 distance from the query vector.
    pub vector_distance: u64,
    /// Number of hops from the start node.
    pub graph_distance: usize,
    /// The breadth-first path from the start node to this node.
    pub path: Vec<NodeId>,
}

impl HybridResult {
    /// Creates a new hybrid result.
    pub fn new(
        id: NodeId,
        score: u64,
        vector_distance: u64,
        graph_distance: usize,
        path: Vec<NodeId>,
    ) -> (r: HybridResult)
        ensures
            r.id == id,
            r.score == score,
            r.vector_distance == vector_distance,
            r.graph_distance == graph_distance,
            r.path == path,
    {
        HybridResult { id, score, vector_distance, graph_distance, path }
    }
}

/// The fused score: the similarity term keeps `scale - min(scale, d)`
/// and the graph term keeps the integer part of `scale / (1 + h)`,
/// each weighted by its fixed-point factor.
pub open spec fn spec_hybrid_score(alpha: int, beta: int, d: int, h: int) -> int {
    alpha * (SCALE as int - (if d < SCALE as int { d } else { SCALE as int })) + beta * (SCALE as int / (1 + h))
}

/// The fused score is bounded by the sum of the weights, at scale.
pub proof fn lemma_hybrid_score_bounds(alpha: int, beta: int, d: int, h: int)
    requires
        0 <= alpha,
        0 <= beta,
        0 <= d,
        0 <= h,
    ensures
        0 <= spec_hybrid_score(alpha, beta, d, h) <= (alpha + beta) * SCALE,
{
    let sim = SCALE - (if d < SCALE { d } else { SCALE as int });
    let g = SCALE as int / (1 + h);
    assert(0 <= sim <= SCALE);
    assert(0 <= g <= SCALE) by {
        assert(SCALE as int / (1 + h) <= SCALE as int / 1) by (nonlinear_arith)
            requires h >= 0;
        assert(SCALE as int / (1 + h) >= 0) by (nonlinear_arith)
            requires h >= 0;
    }
    assert(0 <= alpha * sim <= alpha * SCALE) by (nonlinear_arith)
        requires 0 <= alpha && 0 <= sim <= SCALE;
    assert(0 <= beta * g <= beta * SCALE) by (nonlinear_arith)
        requires 0 <= beta && 0 <= g <= SCALE;
    assert((alpha + beta) * SCALE == alpha * SCALE + beta * SCALE) by (nonlinear_arith);
}

/// Computes the hybrid score for a vector distance and a hop count.
pub fn compute_hybrid_score(vec_dist: u64, graph_dist: usize, params: &HybridParams) -> (r: u64)
    requires
        params.wf(),
        graph_dist < usize::MAX,
    ensures
        r == spec_hybrid_score(
            params.alpha as int,
            params.beta as int,
            vec_dist as int,
            graph_dist as int,
        ),
        r <= (params.alpha + params.beta) * SCALE,
{
    let scale_u: u64 = 1_000_000;
    let sim: u64 = if vec_dist < scale_u {
        scale_u - vec_dist
    } else {
        0
    };
    let g: u64 = scale_u / (graph_dist as u64 + 1);
    proof {
        assert(g <= scale_u) by (nonlinear_arith)
            requires g as int == scale_u as int / (graph_dist as int + 1) && graph_dist as int >= 0 && scale_u == 1_000_000;
        assert(params.alpha as int * sim as int <= WEIGHT_LIMIT as int * SCALE as int)
            by (nonlinear_arith)
            requires
                0 <= params.alpha as int <= WEIGHT_LIMIT as int && 0 <= sim as int
                    <= SCALE as int;
        assert(params.beta as int * g as int <= WEIGHT_LIMIT as int * SCALE as int)
            by (nonlinear_arith)
            requires
                0 <= params.beta as int <= WEIGHT_LIMIT as int && 0 <= g as int <= SCALE as int;
        lemma_hybrid_score_bounds(
            params.alpha as int,
            params.beta as int,
            vec_dist as int,
            graph_dist as int,
        );
    }
    params.alpha * sim + params.beta * g
}


/// With the vector weight at zero and hop counts below a thousand, a
/// higher fused score means a node no further away: descending score
/// order is ascending graph-distance order.
///
/// The hop bound is an artifact of the fixed-point model: the graph
/// term keeps the integer part of `scale / (1 + h)`, and from roughly a
/// thousand hops on, neighboring hop counts can floor to the same
/// value, so the order would no longer be strict there.
pub proof fn lemma_beta_order(beta: int, d1: int, d2: int, h1: int, h2: int)
    requires
        beta >= 1,
        0 <= h1 <= 998,
        0 <= h2 <= 998,
        spec_hybrid_score(0, beta, d1, h1) >= spec_hybrid_score(0, beta, d2, h2),
    ensures
        h1 <= h2,
{
    let sc = SCALE as int;
    if h1 > h2 {
        let a = 1 + h2;
        let b = 1 + h1;
        let qa = sc / a;
        let qb = sc / b;
        assert(1 <= a < b <= 999);
        vstd::arithmetic::div_mod::lemma_fundamental_div_mod(sc, a);
        vstd::arithmetic::div_mod::lemma_fundamental_div_mod(sc, b);
        assert(qb >= 1001) by (nonlinear_arith)
            requires
                sc == 1_000_000 && 1 <= b <= 999 && sc == b * (sc / b) + sc % b && 0 <= sc % b < b
                    && qb == sc / b;
        assert(qa > qb) by (nonlinear_arith)
            requires
                sc == 1_000_000 && 1 <= a && a + 1 <= b && sc == a * qa + sc % a && 0 <= sc % a < a
                    && sc == b * qb + sc % b && 0 <= sc % b < b && qb >= 1001;
        assert(beta * qa > beta * qb) by (nonlinear_arith)
            requires beta >= 1 && qa > qb;
        assert(spec_hybrid_score(0, beta, d1, h1) == beta * qb);
        assert(spec_hybrid_score(0, beta, d2, h2) == beta * qa);
    }
}

} // verus!
