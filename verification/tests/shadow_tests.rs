//! Shadow-update reconciliation over a real layered proximity graph.
//!
//! These tests compose the verified indirection with the hnsw_rs index
//! the same way the command-line front end does.

use barq_graphdb::shadow::ShadowIndex;
use hnsw_rs::anndists::dist::distances::DistL2;
use hnsw_rs::hnsw::Hnsw;

const S: f32 = 1_000_000.0;

struct ApproxIndex<'a> {
    graph: Hnsw<'a, f32, DistL2>,
    shadow: ShadowIndex,
}

impl<'a> ApproxIndex<'a> {
    fn new() -> Self {
        ApproxIndex {
            graph: Hnsw::new(16, 10_000, 16, 200, DistL2 {}),
            shadow: ShadowIndex::new(),
        }
    }

    fn insert(&mut self, id: u64, fixed: &[i64]) {
        let v: Vec<f32> = fixed.iter().map(|c| *c as f32 / S).collect();
        let internal = self.shadow.publish(id);
        self.graph.insert((&v, internal as usize));
    }

    fn knn(&self, fixed: &[i64], k: usize) -> Vec<(u64, u64)> {
        let q: Vec<f32> = fixed.iter().map(|c| *c as f32 / S).collect();
        let (fetch_k, ef) = self.shadow.knn_plan(k);
        let raw = self.graph.search(&q, fetch_k.max(1), ef);
        let cands: Vec<(u64, u64)> = raw
            .iter()
            .map(|nb| (nb.d_id as u64, (nb.distance * S) as u64))
            .collect();
        self.shadow.filter_candidates(&cands, k)
    }
}

#[test]
fn test_shadow_update_returns_new_vector() {
    // replace node 1's embedding and check the query reflects it
    let mut index = ApproxIndex::new();
    index.insert(1, &[0, 0]);
    index.insert(1, &[10_000_000, 10_000_000]);

    let results = index.knn(&[10_000_000, 10_000_000], 1);
    assert_eq!(results.len(), 1);
    assert_eq!(results[0].0, 1);
    // distance roughly zero in fixed units
    assert!(results[0].1 < 1_000);
}

#[test]
fn test_shadow_stale_entries_filtered() {
    // the stale physical entry at the old position must never surface
    let mut index = ApproxIndex::new();
    index.insert(1, &[0, 0]);
    index.insert(2, &[5_000_000, 5_000_000]);
    index.insert(1, &[10_000_000, 10_000_000]);

    // a query at the OLD position of node 1 must not claim node 1 is there
    let results = index.knn(&[0, 0], 2);
    for (id, dist) in &results {
        if *id == 1 {
            // the live vector sits at (10, 10): far from the origin
            assert!(*dist > 10_000_000);
        }
    }
}

#[test]
fn test_shadow_dedup_and_len() {
    let mut index = ApproxIndex::new();
    for i in 1..=5u64 {
        index.insert(i, &[i as i64 * 1_000_000, 0]);
    }
    // re-insert everything once to create stale entries
    for i in 1..=5u64 {
        index.insert(i, &[i as i64 * 1_000_000, 0]);
    }
    let results = index.knn(&[0, 0], 5);
    // never more than asked for, never the same node twice, and every
    // reported distance belongs to the node's live vector
    assert!(results.len() <= 5);
    let mut ids: Vec<u64> = results.iter().map(|r| r.0).collect();
    ids.sort();
    ids.dedup();
    assert_eq!(ids.len(), results.len());
    for (id, dist) in &results {
        let expected = *id * 1_000_000;
        assert!((*dist as i64 - expected as i64).abs() < 2_000);
    }
    // the nearest point is reliably found
    assert!(results.iter().any(|r| r.0 == 1));
}
