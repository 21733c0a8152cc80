use barq_graphdb::hybrid::{compute_hybrid_score, HybridParams, HybridResult};

// Weights count millionths: 0.5 is 500_000. Scores come at the squared
// scale, so a real score of 1.0 is 1_000_000_000_000.
const W_HALF: u64 = 500_000;
const SCORE_ONE: u64 = 1_000_000_000_000;

#[test]
fn test_default_params() {
    let params = HybridParams::default();
    assert_eq!(params.alpha, W_HALF);
    assert_eq!(params.beta, W_HALF);
}

#[test]
fn test_hybrid_score_identical() {
    let params = HybridParams::new(W_HALF, W_HALF);
    // perfect match: vector distance 0, graph distance 0
    let score = compute_hybrid_score(0, 0, &params);
    // vector similarity 1.0 and graph similarity 1.0 give 1.0
    assert_eq!(score, SCORE_ONE);
}

#[test]
fn test_hybrid_score_far_vector() {
    let params = HybridParams::new(W_HALF, W_HALF);
    // far vector (distance 1.0 or more), close graph
    let score = compute_hybrid_score(1_000_000, 0, &params);
    // 0.5 * 0.0 + 0.5 * 1.0 = 0.5
    assert_eq!(score, SCORE_ONE / 2);
}

#[test]
fn test_hybrid_score_far_graph() {
    let params = HybridParams::new(W_HALF, W_HALF);
    // close vector, far graph
    let score = compute_hybrid_score(0, 9, &params);
    // 0.5 * 1.0 + 0.5 * 0.1 = 0.55
    assert_eq!(score, 550_000_000_000);
}

#[test]
fn test_hybrid_score_alpha_only() {
    let params = HybridParams::new(1_000_000, 0);
    // only the vector matters
    let score = compute_hybrid_score(500_000, 100, &params);
    // vector similarity 0.5, graph ignored
    assert_eq!(score, SCORE_ONE / 2);
}

#[test]
fn test_hybrid_score_beta_only() {
    let params = HybridParams::new(0, 1_000_000);
    // only the graph matters
    let score = compute_hybrid_score(10_000_000, 1, &params);
    // graph similarity 1/2 = 0.5, vector ignored
    assert_eq!(score, SCORE_ONE / 2);
}

#[test]
fn test_hybrid_score_capped_vector() {
    let params = HybridParams::new(1_000_000, 0);
    // a vector distance beyond 1.0 is capped
    let score = compute_hybrid_score(5_000_000, 0, &params);
    assert_eq!(score, 0);
}

#[test]
fn test_hybrid_result_creation() {
    let result = HybridResult::new(42, 850_000_000_000, 150_000, 2, vec![1, 5, 42]);
    assert_eq!(result.id, 42);
    assert_eq!(result.score, 850_000_000_000);
    assert_eq!(result.vector_distance, 150_000);
    assert_eq!(result.graph_distance, 2);
    assert_eq!(result.path, vec![1, 5, 42]);
}
