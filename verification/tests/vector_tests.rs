use barq_graphdb::vector::{cosine_distance, l2_distance, LinearVectorIndex};

// One fixed-point unit is a millionth, so 1.0 is 1_000_000.
const S: i64 = 1_000_000;

#[test]
fn test_l2_distance_identical() {
    let a = vec![1 * S, 2 * S, 3 * S];
    let b = vec![1 * S, 2 * S, 3 * S];
    assert_eq!(l2_distance(&a, &b), 0);
}

#[test]
fn test_l2_distance_simple() {
    let a = vec![0, 0];
    let b = vec![3 * S, 4 * S];
    assert_eq!(l2_distance(&a, &b), 5_000_000);
}

#[test]
fn test_l2_distance_single_dim() {
    let a = vec![0];
    let b = vec![5 * S];
    assert_eq!(l2_distance(&a, &b), 5_000_000);
}

#[test]
fn test_cosine_distance_parallel() {
    let a = vec![1 * S, 0];
    let b = vec![2 * S, 0];
    assert_eq!(cosine_distance(&a, &b), 0);
}

#[test]
fn test_cosine_distance_orthogonal() {
    let a = vec![1 * S, 0];
    let b = vec![0, 1 * S];
    assert_eq!(cosine_distance(&a, &b), 1_000_000);
}

#[test]
fn test_cosine_distance_tiny_parallel() {
    // the smallest representable vectors: flooring the norms would
    // overshoot the ratio, and the cap keeps parallel at zero
    let a = vec![1, 1];
    assert_eq!(cosine_distance(&a, &a), 0);
}

#[test]
fn test_cosine_distance_opposite() {
    let a = vec![1 * S, 0];
    let b = vec![-1 * S, 0];
    assert_eq!(cosine_distance(&a, &b), 2_000_000);
}

#[test]
fn test_cosine_distance_zero_vector() {
    let a = vec![0, 0];
    let b = vec![1 * S, 0];
    assert_eq!(cosine_distance(&a, &b), 1_000_000);
}

#[test]
fn test_linear_index_new() {
    let index = LinearVectorIndex::new();
    assert!(index.is_empty());
    assert_eq!(index.len(), 0);
}

#[test]
fn test_linear_index_insert_and_contains() {
    let mut index = LinearVectorIndex::new();
    index.insert(1, &vec![100_000, 200_000, 300_000]);

    assert!(index.contains(1));
    assert!(!index.contains(2));
    assert_eq!(index.len(), 1);
}

#[test]
fn test_linear_index_get() {
    let mut index = LinearVectorIndex::new();
    let embedding = vec![100_000, 200_000, 300_000];
    index.insert(1, &embedding);

    let retrieved = index.get(1).unwrap();
    assert_eq!(retrieved, &embedding);
    assert!(index.get(999).is_none());
}

#[test]
fn test_knn_simple() {
    let mut index = LinearVectorIndex::new();

    // vectors in 2-D space
    index.insert(1, &vec![0, 0]);
    index.insert(2, &vec![1 * S, 0]);
    index.insert(3, &vec![0, 1 * S]);
    index.insert(4, &vec![1 * S, 1 * S]);
    index.insert(5, &vec![5 * S, 5 * S]);

    // query at the origin: the nearest must be node 1
    let results = index.knn(&vec![0, 0], 3);
    assert_eq!(results.len(), 3);
    assert_eq!(results[0].0, 1); // closest
    assert_eq!(results[0].1, 0); // distance 0

    // nodes 2 and 3 are tied at distance 1
    let next_ids: Vec<u64> = results[1..].iter().map(|(id, _)| *id).collect();
    assert!(next_ids.contains(&2) || next_ids.contains(&3));
}

#[test]
fn test_knn_k_larger_than_dataset() {
    let mut index = LinearVectorIndex::new();
    index.insert(1, &vec![0]);
    index.insert(2, &vec![1 * S]);

    let results = index.knn(&vec![0], 10);
    assert_eq!(results.len(), 2); // only 2 vectors exist
}

#[test]
fn test_knn_empty_index() {
    let index = LinearVectorIndex::new();
    let results = index.knn(&vec![0, 0], 5);
    assert!(results.is_empty());
}

#[test]
fn test_knn_ordering() {
    let mut index = LinearVectorIndex::new();
    index.insert(1, &vec![0]);
    index.insert(2, &vec![3 * S]);
    index.insert(3, &vec![1 * S]);
    index.insert(4, &vec![2 * S]);

    let results = index.knn(&vec![0], 4);

    // ordered by distance: 1, 3, 4, 2
    assert_eq!(results[0].0, 1);
    assert_eq!(results[1].0, 3);
    assert_eq!(results[2].0, 4);
    assert_eq!(results[3].0, 2);

    // the distances come sorted
    for i in 0..results.len() - 1 {
        assert!(results[i].1 <= results[i + 1].1);
    }
}
