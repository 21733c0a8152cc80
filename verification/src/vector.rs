//! Vector index for similarity search.
//!
//! Distances are L2 (Euclidean), computed over fixed-point components and
//! reported in the same fixed-point scale: the distance between two
//! vectors is the floor of the square root of the summed squared
//! component differences.

use vstd::map::*;
use vstd::prelude::*;

use crate::coord_ok;
use crate::vec_ok;
use crate::NodeId;
use crate::SCALE;
use crate::COORD_LIMIT;
use crate::DIM_LIMIT;

verus! {

/// The square of an integer.
pub open spec fn sq(x: int) -> int {
    x * x
}

/// The summed squared differences of the first `n` components.
pub open spec fn dist_sq_upto(a: Seq<i64>, b: Seq<i64>, n: int) -> int
    decreases n,
{
    if n <= 0 {
        0
    } else {
        dist_sq_upto(a, b, n - 1) + sq(a[n - 1] - b[n - 1])
    }
}

/// The summed squared component differences of two equally long vectors.
pub open spec fn spec_dist_sq(a: Seq<i64>, b: Seq<i64>) -> int {
    dist_sq_upto(a, b, a.len() as int)
}

/// True when `r` is the floor of the square root of `x`.
pub open spec fn is_sqrt_floor(r: int, x: int) -> bool {
    0 <= r && r * r <= x && (r + 1) * (r + 1) > x
}

/// The floor of the square root of a non-negative `x`.
pub open spec fn sqrt_floor(x: int) -> int {
    choose|r: int| is_sqrt_floor(r, x)
}

/// The fixed-point L2 distance between two equally long vectors.
pub open spec fn spec_l2(a: Seq<i64>, b: Seq<i64>) -> int {
    sqrt_floor(spec_dist_sq(a, b))
}

/// A number has at most one square-root floor.
pub proof fn lemma_sqrt_floor_unique(r1: int, r2: int, x: int)
    requires
        is_sqrt_floor(r1, x),
        is_sqrt_floor(r2, x),
    ensures
        r1 == r2,
{
    if r1 < r2 {
        assert((r1 + 1) * (r1 + 1) <= r2 * r2) by (nonlinear_arith)
            requires 0 <= r1 && r1 < r2;
    }
    if r2 < r1 {
        assert((r2 + 1) * (r2 + 1) <= r1 * r1) by (nonlinear_arith)
            requires 0 <= r2 && r2 < r1;
    }
}

/// Whatever satisfies [`is_sqrt_floor`] equals [`sqrt_floor`].
pub proof fn lemma_sqrt_floor_is(r: int, x: int)
    requires
        is_sqrt_floor(r, x),
    ensures
        sqrt_floor(x) == r,
{
    let picked = choose|p: int| is_sqrt_floor(p, x);
    lemma_sqrt_floor_unique(picked, r, x);
}

/// A square-root floor exists for every non-negative number.
pub proof fn lemma_sqrt_floor_exists(x: int)
    requires
        x >= 0,
    ensures
        is_sqrt_floor(sqrt_floor(x), x),
    decreases x,
{
    if x == 0 {
        assert(is_sqrt_floor(0, 0));
    } else {
        lemma_sqrt_floor_exists(x - 1);
        let r0 = sqrt_floor(x - 1);
        if (r0 + 1) * (r0 + 1) <= x {
            assert((r0 + 1) * (r0 + 1) > x - 1);
            assert((r0 + 1) * (r0 + 1) == x);
            assert((r0 + 2) * (r0 + 2) > (r0 + 1) * (r0 + 1)) by (nonlinear_arith)
                requires r0 >= 0;
            assert(is_sqrt_floor(r0 + 1, x));
        } else {
            assert(is_sqrt_floor(r0, x));
        }
    }
}

/// The fixed-point L2 distance of two in-range vectors is the true
/// square-root floor of their summed squared differences, and fits a
/// 64-bit number.
pub proof fn lemma_l2_range(a: Seq<i64>, b: Seq<i64>)
    requires
        a.len() == b.len(),
        vec_ok(a),
        vec_ok(b),
    ensures
        is_sqrt_floor(spec_l2(a, b), spec_dist_sq(a, b)),
        0 <= spec_l2(a, b) < 0x1_0000_0000_0000_0000,
        spec_l2(a, b) as u64 as int == spec_l2(a, b),
{
    let x = spec_dist_sq(a, b);
    lemma_dist_sq_upto_bound(a, b, a.len() as int);
    let cl = COORD_LIMIT as int;
    assert((a.len() as int) * 4 * cl * cl <= (DIM_LIMIT as int) * 4 * cl * cl) by (nonlinear_arith)
        requires 0 <= a.len() as int <= DIM_LIMIT as int && cl >= 0;
    lemma_sqrt_floor_exists(x);
    let r = sqrt_floor(x);
    let big: int = 0x1_0000_0000_0000_0000;
    if r >= big {
        assert(r * r >= big * big) by (nonlinear_arith)
            requires r >= big && big >= 0;
        assert(big * big > (DIM_LIMIT as int) * 4 * (1_000_000_000int) * 1_000_000_000)
            by (nonlinear_arith)
            requires big == 0x1_0000_0000_0000_0000 && DIM_LIMIT as int == 65536;
    }
}

/// Every prefix sum of squared differences of in-range components is
/// bounded by the number of its terms times the largest square.
proof fn lemma_dist_sq_upto_bound(a: Seq<i64>, b: Seq<i64>, n: int)
    requires
        0 <= n <= a.len(),
        a.len() == b.len(),
        vec_ok(a),
        vec_ok(b),
    ensures
        0 <= dist_sq_upto(a, b, n) <= n * 4 * (COORD_LIMIT as int) * (COORD_LIMIT as int),
    decreases n,
{
    let cl = COORD_LIMIT as int;
    if n > 0 {
        lemma_dist_sq_upto_bound(a, b, n - 1);
        assert(coord_ok(a[n - 1]) && coord_ok(b[n - 1]));
        let d = a[n - 1] - b[n - 1];
        assert(sq(d) <= 4 * cl * cl) by (nonlinear_arith)
            requires -2 * cl <= d <= 2 * cl && cl >= 0;
        assert(sq(d) >= 0) by (nonlinear_arith);
        assert((n - 1) * 4 * cl * cl + 4 * cl * cl == n * 4 * cl * cl) by (nonlinear_arith);
    }
}

/// Computes the summed squared component differences of two equally
/// long, in-range vectors.
pub fn dist_sq(a: &Vec<i64>, b: &Vec<i64>) -> (r: u128)
    requires
        a@.len() == b@.len(),
        vec_ok(a@),
        vec_ok(b@),
    ensures
        r == spec_dist_sq(a@, b@),
{
    let mut acc: u128 = 0;
    let mut i: usize = 0;
    while i < a.len()
        invariant
            0 <= i <= a@.len(),
            a@.len() == b@.len(),
            vec_ok(a@),
            vec_ok(b@),
            acc == dist_sq_upto(a@, b@, i as int),
        decreases a@.len() - i,
    {
        proof {
            lemma_dist_sq_upto_bound(a@, b@, i as int);
            assert(coord_ok(a@[i as int]) && coord_ok(b@[i as int]));
        }
        let d: i128 = (a[i] as i128) - (b[i] as i128);
        proof {
            let cl = COORD_LIMIT as int;
            assert(d * d <= 4 * cl * cl && d * d >= 0) by (nonlinear_arith)
                requires -2 * cl <= d <= 2 * cl && cl >= 0;
            assert((i as int) * 4 * cl * cl <= (DIM_LIMIT as int) * 4 * cl * cl)
                by (nonlinear_arith)
                requires 0 <= i <= DIM_LIMIT && cl >= 0;
        }
        let sqd: i128 = d * d;
        acc = acc + (sqd as u128);
        i = i + 1;
    }
    acc
}

/// Computes the floor of the square root of a 128-bit number.
pub fn isqrt(x: u128) -> (r: u64)
    ensures
        is_sqrt_floor(r as int, x as int),
{
    let top: u128 = u64::MAX as u128;
    if x >= top * top {
        proof {
            let m = u64::MAX as int;
            assert((m + 1) * (m + 1) > u128::MAX as int) by (nonlinear_arith)
                requires m == 0xffff_ffff_ffff_ffff;
            assert(m * m <= x as int);
        }
        return u64::MAX;
    }
    if x == 0 {
        return 0;
    }
    let mut lo: u64 = 0;
    let mut hi: u64 = u64::MAX;
    proof {
        let m = u64::MAX as int;
        assert(m * m > x as int);
    }
    while lo + 1 < hi
        invariant
            lo < hi,
            (lo as int) * (lo as int) <= x as int,
            (hi as int) * (hi as int) > x as int,
        decreases hi - lo,
    {
        let mid: u64 = lo + (hi - lo) / 2;
        proof {
            assert((mid as int) * (mid as int) <= u128::MAX as int) by (nonlinear_arith)
                requires 0 <= mid as int <= 0xffff_ffff_ffff_ffff;
        }
        let midsq: u128 = (mid as u128) * (mid as u128);
        if midsq <= x {
            lo = mid;
        } else {
            hi = mid;
        }
    }
    proof {
        assert(hi == lo + 1);
    }
    lo
}

/// Computes the fixed-point L2 distance between two equally long,
/// in-range vectors.
pub fn l2_distance(a: &Vec<i64>, b: &Vec<i64>) -> (r: u64)
    requires
        a@.len() == b@.len(),
        vec_ok(a@),
        vec_ok(b@),
    ensures
        is_sqrt_floor(r as int, spec_dist_sq(a@, b@)),
        r == spec_l2(a@, b@),
{
    let ds = dist_sq(a, b);
    let r = isqrt(ds);
    proof {
        lemma_sqrt_floor_is(r as int, spec_dist_sq(a@, b@));
    }
    r
}

/// Linear-scan vector index.
///
/// A brute-force index that stores every vector and answers kNN queries
/// by computing the distance to each stored vector of matching
/// dimension. Suitable for small data sets.
pub struct LinearVectorIndex {
    /// The stored node ids, each appearing once.
    ids: Vec<NodeId>,
    /// The stored vectors, parallel to `ids`.
    vecs: Vec<Vec<i64>>,
}

impl LinearVectorIndex {
    /// Well-formedness: the two columns run parallel, ids are unique,
    /// and every stored vector is in range.
    pub closed spec fn wf(self) -> bool {
        &&& self.ids@.len() == self.vecs@.len()
        &&& forall|i: int, j: int|
            0 <= i < j < self.ids@.len() ==> self.ids@[i] != self.ids@[j]
        &&& forall|i: int| 0 <= i < self.vecs@.len() ==> vec_ok((#[trigger] self.vecs@[i])@)
    }

    /// The number of stored vectors.
    pub closed spec fn count(self) -> nat {
        self.ids@.len()
    }

    /// True when `id` is stored at row `i`.
    spec fn has_at(self, id: NodeId, i: int) -> bool {
        0 <= i < self.ids@.len() && self.ids@[i] == id
    }

    /// True when some row stores `id`.
    pub closed spec fn contains_spec(self, id: NodeId) -> bool {
        exists|i: int| self.has_at(id, i)
    }

    /// The row holding `id`.
    spec fn idx_of(self, id: NodeId) -> int {
        choose|i: int| self.has_at(id, i)
    }

    /// The stored association from node id to vector.
    pub closed spec fn contents(self) -> Map<NodeId, Seq<i64>> {
        Map::new(
            |id: NodeId| self.contains_spec(id),
            |id: NodeId| self.vecs@[self.idx_of(id)]@,
        )
    }

    /// A well-formed index stores `id` at one row only.
    proof fn lemma_idx_unique(self, id: NodeId, i: int)
        requires
            self.wf(),
            self.has_at(id, i),
        ensures
            self.idx_of(id) == i,
            self.contains_spec(id),
            self.contents().contains_key(id),
            self.contents()[id] == self.vecs@[i]@,
    {
        let j = self.idx_of(id);
        assert(self.has_at(id, j));
    }

    /// How many of the first `n` stored vectors have dimension `d`.
    pub closed spec fn match_count_upto(self, d: nat, n: int) -> int
        decreases n,
    {
        if n <= 0 {
            0
        } else {
            self.match_count_upto(d, n - 1) + if self.vecs@[n - 1]@.len() == d {
                1int
            } else {
                0int
            }
        }
    }

    /// How many stored vectors have dimension `d`.
    pub closed spec fn match_count(self, d: nat) -> int {
        self.match_count_upto(d, self.ids@.len() as int)
    }

    /// Counting matches reads the stored vectors only.
    proof fn lemma_mc_same(a: LinearVectorIndex, b: LinearVectorIndex, d: nat, n: int)
        requires
            a.vecs@ == b.vecs@,
        ensures
            a.match_count_upto(d, n) == b.match_count_upto(d, n),
        decreases n,
    {
        if n > 0 {
            Self::lemma_mc_same(a, b, d, n - 1);
        }
    }

    /// Counting matches over a shared prefix gives the same count.
    proof fn lemma_mc_prefix(a: LinearVectorIndex, b: LinearVectorIndex, d: nat, n: int)
        requires
            0 <= n <= a.vecs@.len(),
            n <= b.vecs@.len(),
            forall|t: int| 0 <= t < n ==> #[trigger] b.vecs@[t] == a.vecs@[t],
        ensures
            b.match_count_upto(d, n) == a.match_count_upto(d, n),
        decreases n,
    {
        if n > 0 {
            Self::lemma_mc_prefix(a, b, d, n - 1);
        }
    }

    /// Replacing a row swaps its contribution to the count.
    proof fn lemma_mc_update(
        a: LinearVectorIndex,
        b: LinearVectorIndex,
        i: int,
        v: Vec<i64>,
        d: nat,
        n: int,
    )
        requires
            0 <= i < a.vecs@.len(),
            b.vecs@ == a.vecs@.update(i, v),
            0 <= n <= a.vecs@.len(),
        ensures
            b.match_count_upto(d, n) == a.match_count_upto(d, n) + (if i < n {
                (if v@.len() == d {
                    1int
                } else {
                    0int
                }) - (if (a.vecs@[i])@.len() == d {
                    1int
                } else {
                    0int
                })
            } else {
                0int
            }),
        decreases n,
    {
        if n > 0 {
            Self::lemma_mc_update(a, b, i, v, d, n - 1);
            if i != n - 1 {
                assert(b.vecs@[n - 1] == a.vecs@[n - 1]);
            } else {
                assert(b.vecs@[n - 1] == v);
            }
        }
    }

    /// Dropping a row removes its contribution to the count.
    proof fn lemma_mc_remove(a: LinearVectorIndex, b: LinearVectorIndex, i: int, d: nat, n: int)
        requires
            0 <= i < a.vecs@.len(),
            b.vecs@ == a.vecs@.remove(i),
            0 <= n <= a.vecs@.len() - 1,
        ensures
            b.match_count_upto(d, n) == a.match_count_upto(d, if n <= i {
                n
            } else {
                n + 1
            }) - (if n > i && (a.vecs@[i])@.len() == d {
                1int
            } else {
                0int
            }),
        decreases n,
    {
        if n > 0 {
            Self::lemma_mc_remove(a, b, i, d, n - 1);
            if n - 1 < i {
                assert(b.vecs@[n - 1] == a.vecs@[n - 1]);
            } else {
                assert(b.vecs@[n - 1] == a.vecs@[n]);
                if n - 1 == i {
                    assert(a.match_count_upto(d, n + 1) == a.match_count_upto(d, n) + (if (
                    a.vecs@[n])@.len() == d {
                        1int
                    } else {
                        0int
                    }));
                }
            }
        }
    }

    /// Creates a new empty linear vector index.
    pub fn new() -> (r: LinearVectorIndex)
        ensures
            r.wf(),
            r.count() == 0,
            r.contents() == Map::<NodeId, Seq<i64>>::empty(),
            forall|d: nat| #[trigger] r.match_count(d) == 0,
    {
        let r = LinearVectorIndex { ids: Vec::new(), vecs: Vec::new() };
        proof {
            assert(r.contents() =~= Map::<NodeId, Seq<i64>>::empty());
        }
        r
    }

    /// Finds the row storing `id`, if any.
    fn find(&self, id: NodeId) -> (r: Option<usize>)
        requires
            self.wf(),
        ensures
            match r {
                Some(i) => self.has_at(id, i as int),
                None => !self.contains_spec(id),
            },
    {
        let mut i: usize = 0;
        while i < self.ids.len()
            invariant
                0 <= i <= self.ids@.len(),
                forall|j: int| 0 <= j < i ==> self.ids@[j] != id,
            decreases self.ids@.len() - i,
        {
            if self.ids[i] == id {
                return Some(i);
            }
            i = i + 1;
        }
        None
    }

    /// Stores a vector for a node, replacing any previous vector held
    /// for the same node.
    pub fn insert(&mut self, id: NodeId, embedding: &Vec<i64>)
        requires
            old(self).wf(),
            vec_ok(embedding@),
        ensures
            final(self).wf(),
            final(self).contents() == old(self).contents().insert(id, embedding@),
            final(self).count() == old(self).count() + (if old(self).contains_spec(id) {
                0int
            } else {
                1int
            }),
            forall|d: nat| #[trigger]
                final(self).match_count(d) == old(self).match_count(d) + (if embedding@.len()
                    == d {
                    1int
                } else {
                    0int
                }) - (if old(self).contents().contains_key(id) && old(self).contents()[id].len()
                    == d {
                    1int
                } else {
                    0int
                }),
    {
        let found = self.find(id);
        match found {
            Some(i) => {
                let v2 = crate::copy_i64s(embedding);
                self.vecs.set(i, v2);
                proof {
                    let prev = *old(self);
                    assert(prev.wf());
                    assert(self.ids@ == prev.ids@);
                    assert(self.vecs@ == prev.vecs@.update(i as int, v2));
                    assert(self.vecs@[i as int]@ == embedding@);
                    assert(prev.has_at(id, i as int));
                    prev.lemma_idx_unique(id, i as int);
                    assert forall|d: nat| #[trigger]
                        self.match_count(d) == prev.match_count(d) + (if embedding@.len() == d {
                        1int
                    } else {
                        0int
                    }) - (if prev.contents().contains_key(id) && prev.contents()[id].len() == d {
                        1int
                    } else {
                        0int
                    }) by {
                        Self::lemma_mc_update(
                            prev,
                            *self,
                            i as int,
                            self.vecs@[i as int],
                            d,
                            prev.vecs@.len() as int,
                        );
                        assert(prev.contents()[id] == prev.vecs@[i as int]@);
                    }
                    assert(self.wf()) by {
                        assert forall|a: int| 0 <= a < self.vecs@.len() implies vec_ok(
                            (#[trigger] self.vecs@[a])@,
                        ) by {
                            if a != i as int {
                                assert(self.vecs@[a] == prev.vecs@[a]);
                            }
                        }
                    }
                    assert_maps_equal!(self.contents(), prev.contents().insert(id, embedding@), y => {
                        if self.contains_spec(y) {
                            let j = self.idx_of(y);
                            assert(self.has_at(y, j));
                            assert(prev.has_at(y, j));
                            prev.lemma_idx_unique(y, j);
                            self.lemma_idx_unique(y, j);
                            if y == id {
                                assert(j == i as int);
                            } else {
                                assert(j != i as int);
                                assert(self.vecs@[j] == prev.vecs@[j]);
                            }
                        }
                        if prev.contains_spec(y) {
                            let j = prev.idx_of(y);
                            assert(prev.has_at(y, j));
                            assert(self.has_at(y, j));
                        }
                    });
                }
            },
            None => {
                self.ids.push(id);
                self.vecs.push(crate::copy_i64s(embedding));
                proof {
                    let prev = *old(self);
                    let n = prev.ids@.len() as int;
                    assert forall|d: nat| #[trigger]
                        self.match_count(d) == prev.match_count(d) + (if embedding@.len() == d {
                        1int
                    } else {
                        0int
                    }) - (if prev.contents().contains_key(id) && prev.contents()[id].len() == d {
                        1int
                    } else {
                        0int
                    }) by {
                        Self::lemma_mc_prefix(prev, *self, d, n);
                        assert(self.vecs@[n]@ == embedding@);
                        assert(self.match_count(d) == self.match_count_upto(d, n)
                            + (if (self.vecs@[n])@.len() == d {
                            1int
                        } else {
                            0int
                        }));
                    }
                    assert(self.wf()) by {
                        assert forall|a: int, b: int| 0 <= a < b < self.ids@.len() implies self.ids@[a]
                            != self.ids@[b] by {
                            if b == n {
                                assert(!prev.has_at(id, a));
                            }
                        }
                        assert forall|a: int| 0 <= a < self.vecs@.len() implies vec_ok(
                            (#[trigger] self.vecs@[a])@,
                        ) by {
                            if a < n {
                                assert(self.vecs@[a] == prev.vecs@[a]);
                            }
                        }
                    }
                    assert(self.has_at(id, n));
                    assert(self.contents() =~= prev.contents().insert(id, embedding@)) by {
                        assert forall|y: NodeId| y != id && #[trigger] prev.contains_spec(y) implies self.contains_spec(y) by {
                            let j = prev.idx_of(y);
                            assert(prev.has_at(y, j));
                            assert(self.has_at(y, j));
                        }
                        assert forall|y: NodeId| #[trigger] self.contains_spec(y) implies (
                            self.contents()[y] == prev.contents().insert(id, embedding@)[y]
                            && (y == id || prev.contains_spec(y))) by {
                            let j = self.idx_of(y);
                            assert(self.has_at(y, j));
                            self.lemma_idx_unique(y, j);
                            if y == id {
                                assert(j == n);
                            } else {
                                assert(j != n);
                                assert(prev.has_at(y, j));
                                prev.lemma_idx_unique(y, j);
                                assert(self.vecs@[j] == prev.vecs@[j]);
                            }
                        }
                    }
                }
            },
        }
    }

    /// Removes the vector held for a node, if any.
    pub fn remove(&mut self, id: NodeId)
        requires
            old(self).wf(),
        ensures
            final(self).wf(),
            final(self).contents() == old(self).contents().remove(id),
            final(self).count() == old(self).count() - (if old(self).contains_spec(id) {
                1int
            } else {
                0int
            }),
            forall|d: nat| #[trigger]
                final(self).match_count(d) == old(self).match_count(d) - (if old(
                    self,
                ).contents().contains_key(id) && old(self).contents()[id].len() == d {
                    1int
                } else {
                    0int
                }),
    {
        let found = self.find(id);
        match found {
            Some(i) => {
                self.ids.remove(i);
                self.vecs.remove(i);
                proof {
                    let prev = *old(self);
                    let n = prev.ids@.len() as int;
                    assert(self.ids@ == prev.ids@.remove(i as int));
                    assert(self.vecs@ == prev.vecs@.remove(i as int));
                    prev.lemma_idx_unique(id, i as int);
                    assert forall|d: nat| #[trigger]
                        self.match_count(d) == prev.match_count(d) - (if prev.contents().contains_key(
                        id,
                    ) && prev.contents()[id].len() == d {
                        1int
                    } else {
                        0int
                    }) by {
                        Self::lemma_mc_remove(prev, *self, i as int, d, n - 1);
                        if n - 1 <= i as int {
                            assert(i as int == n - 1);
                            assert(prev.match_count_upto(d, n) == prev.match_count_upto(d, n - 1)
                                + (if (prev.vecs@[n - 1])@.len() == d {
                                1int
                            } else {
                                0int
                            }));
                        }
                        assert(prev.contents()[id] == prev.vecs@[i as int]@);
                    }
                    assert forall|a: int| 0 <= a < n - 1 implies (self.ids@[a] == prev.ids@[
                        if a < i as int { a } else { a + 1 }
                    ] && self.vecs@[a] == prev.vecs@[if a < i as int { a } else { a + 1 }]) by {}
                    assert(self.wf()) by {
                        assert forall|a: int, b: int| 0 <= a < b < self.ids@.len() implies self.ids@[a]
                            != self.ids@[b] by {}
                        assert forall|a: int| 0 <= a < self.vecs@.len() implies vec_ok(
                            (#[trigger] self.vecs@[a])@,
                        ) by {
                            let oa: int = if a < i as int { a } else { a + 1 };
                            assert(self.vecs@[a] == prev.vecs@[oa]);
                        }
                    }
                    assert(self.contents() =~= prev.contents().remove(id)) by {
                        assert forall|y: NodeId| #[trigger] self.contains_spec(y) implies (y != id
                            && prev.contains_spec(y) && self.contents()[y] == prev.contents()[y]) by {
                            let j = self.idx_of(y);
                            assert(self.has_at(y, j));
                            let oj: int = if j < i as int { j } else { j + 1 };
                            assert(prev.has_at(y, oj));
                            prev.lemma_idx_unique(y, oj);
                            assert(oj != i as int);
                            assert(prev.has_at(id, i as int));
                            assert(y != id);
                            self.lemma_idx_unique(y, j);
                            assert(self.vecs@[j] == prev.vecs@[oj]);
                        }
                        assert forall|y: NodeId| y != id && #[trigger] prev.contains_spec(y) implies self.contains_spec(y) by {
                            let oj = prev.idx_of(y);
                            assert(prev.has_at(y, oj));
                            assert(oj != i as int);
                            let j: int = if oj < i as int { oj } else { oj - 1 };
                            assert(self.has_at(y, j));
                        }
                    }
                }
            },
            None => {
                proof {
                    assert(!old(self).contents().contains_key(id));
                    assert(self.contents() =~= old(self).contents().remove(id));
                }
            },
        }
    }

    /// Returns the number of vectors stored in the index.
    pub fn len(&self) -> (n: usize)
        ensures
            n == self.count(),
    {
        self.ids.len()
    }

    /// True when the index stores no vector.
    pub fn is_empty(&self) -> (r: bool)
        ensures
            r == (self.count() == 0),
    {
        self.ids.len() == 0
    }

    /// Checks if a node has a vector in the index.
    pub fn contains(&self, id: NodeId) -> (r: bool)
        requires
            self.wf(),
        ensures
            r == self.contents().contains_key(id),
    {
        let found = self.find(id);
        match found {
            Some(i) => {
                proof {
                    self.lemma_idx_unique(id, i as int);
                }
                true
            },
            None => false,
        }
    }

    /// Returns the vector stored for a node, if any.
    pub fn get(&self, id: NodeId) -> (r: Option<&Vec<i64>>)
        requires
            self.wf(),
        ensures
            match r {
                Some(v) => self.contents().contains_key(id) && v@ == self.contents()[id],
                None => !self.contents().contains_key(id),
            },
    {
        let found = self.find(id);
        match found {
            Some(i) => {
                proof {
                    self.lemma_idx_unique(id, i as int);
                }
                Some(&self.vecs[i])
            },
            None => None,
        }
    }
    /// True when `p` is the scored pair for row `j` of this index
    /// against query `q`: it carries the row's id and the fixed-point
    /// L2 distance of its vector from `q`.
    spec fn pair_for_row(self, q: Seq<i64>, j: int, p: (NodeId, u64)) -> bool {
        &&& 0 <= j < self.ids@.len()
        &&& p.0 == self.ids@[j]
        &&& self.vecs@[j]@.len() == q.len()
        &&& p.1 == spec_l2(q, self.vecs@[j]@) as u64
    }

    /// The scored pairs of the first `n` rows whose vectors match the
    /// dimension of `q`, in row order.
    spec fn scored_upto(self, q: Seq<i64>, n: int) -> Seq<(NodeId, u64)>
        decreases n,
    {
        if n <= 0 {
            Seq::<(NodeId, u64)>::empty()
        } else {
            let rest = self.scored_upto(q, n - 1);
            if self.vecs@[n - 1]@.len() == q.len() {
                rest.push((self.ids@[n - 1], spec_l2(q, self.vecs@[n - 1]@) as u64))
            } else {
                rest
            }
        }
    }

    /// The scored pairs are as many as the dimension-matching rows.
    proof fn lemma_scored_len(self, q: Seq<i64>, n: int)
        requires
            0 <= n <= self.ids@.len(),
        ensures
            self.scored_upto(q, n).len() == self.match_count_upto(q.len(), n),
        decreases n,
    {
        if n > 0 {
            self.lemma_scored_len(q, n - 1);
        }
    }

    /// Every scored pair comes from a dimension-matching row.
    proof fn lemma_scored_entry(self, q: Seq<i64>, n: int, a: int) -> (j: int)
        requires
            0 <= n <= self.ids@.len(),
            0 <= a < self.scored_upto(q, n).len(),
        ensures
            0 <= j < n,
            self.pair_for_row(q, j, self.scored_upto(q, n)[a]),
        decreases n,
    {
        let sc = self.scored_upto(q, n);
        let rest = self.scored_upto(q, n - 1);
        if n > 0 && self.vecs@[n - 1]@.len() == q.len() && a == sc.len() - 1 {
            n - 1
        } else {
            let j = self.lemma_scored_entry(q, n - 1, a);
            assert(sc[a] == rest[a]);
            j
        }
    }

    /// Every dimension-matching row appears among the scored pairs.
    proof fn lemma_scored_surj(self, q: Seq<i64>, n: int, j: int) -> (a: int)
        requires
            0 <= j < n <= self.ids@.len(),
            self.vecs@[j]@.len() == q.len(),
        ensures
            0 <= a < self.scored_upto(q, n).len(),
            self.scored_upto(q, n)[a].0 == self.ids@[j],
            self.scored_upto(q, n)[a].1 == spec_l2(q, self.vecs@[j]@) as u64,
        decreases n,
    {
        let sc = self.scored_upto(q, n);
        let rest = self.scored_upto(q, n - 1);
        if j == n - 1 {
            if self.vecs@[n - 1]@.len() == q.len() {
                sc.len() - 1
            } else {
                0
            }
        } else {
            let a = self.lemma_scored_surj(q, n - 1, j);
            assert(sc[a] == rest[a]);
            a
        }
    }

    /// Scored pairs carry pairwise different node ids.
    proof fn lemma_scored_distinct(self, q: Seq<i64>, n: int, a: int, b: int)
        requires
            self.wf(),
            0 <= n <= self.ids@.len(),
            0 <= a < b < self.scored_upto(q, n).len(),
        ensures
            self.scored_upto(q, n)[a].0 != self.scored_upto(q, n)[b].0,
        decreases n,
    {
        let sc = self.scored_upto(q, n);
        let rest = self.scored_upto(q, n - 1);
        if n > 0 && self.vecs@[n - 1]@.len() == q.len() && b == sc.len() - 1 {
            let ja = self.lemma_scored_entry(q, n - 1, a);
            assert(sc[a] == rest[a]);
            assert(sc[a].0 == self.ids@[ja]);
            assert(self.ids@[ja] != self.ids@[n - 1]);
        } else {
            self.lemma_scored_distinct(q, n - 1, a, b);
            assert(sc[a] == rest[a] && sc[b] == rest[b]);
        }
    }

    /// Finds the nearest stored vectors to a query vector.
    ///
    /// Considers every stored vector whose dimension equals the query's,
    /// scores it by fixed-point L2 distance, and returns the `k` closest
    /// as `(id, distance)` pairs in ascending distance order. Ties may
    /// come out in any order. Every matching vector left out is at least
    /// as far as everything returned.
    pub fn knn(&self, query: &Vec<i64>, k: usize) -> (r: Vec<(NodeId, u64)>)
        requires
            self.wf(),
            vec_ok(query@),
        ensures
            r@.len() == if k as int <= self.match_count(query@.len()) {
                k as int
            } else {
                self.match_count(query@.len())
            },
            forall|a: int|
                0 <= a < r@.len() ==> {
                    let p = #[trigger] r@[a];
                    &&& self.contents().contains_key(p.0)
                    &&& self.contents()[p.0].len() == query@.len()
                    &&& p.1 == spec_l2(query@, self.contents()[p.0])
                },
            forall|a: int, b: int| 0 <= a < b < r@.len() ==> r@[a].1 <= r@[b].1,
            forall|a: int, b: int| 0 <= a < b < r@.len() ==> r@[a].0 != r@[b].0,
            forall|id: NodeId|
                self.contents().contains_key(id) && self.contents()[id].len() == query@.len()
                    && !(exists|a: int| 0 <= a < r@.len() && (#[trigger] r@[a]).0 == id) && r@.len()
                    > 0 ==> spec_l2(query@, self.contents()[id]) >= r@[r@.len() - 1].1,
    {
        let q_len = query.len();
        let ghost n_rows = self.ids@.len() as int;
        let mut pairs: Vec<(NodeId, u64)> = Vec::new();
        let mut i: usize = 0;
        while i < self.ids.len()
            invariant
                self.wf(),
                vec_ok(query@),
                q_len == query@.len(),
                0 <= i <= self.ids@.len(),
                pairs@ == self.scored_upto(query@, i as int),
            decreases self.ids@.len() - i,
        {
            if self.vecs[i].len() == q_len {
                let d = l2_distance(query, &self.vecs[i]);
                pairs.push((self.ids[i], d));
                proof {
                    assert(d as int == spec_l2(query@, self.vecs@[i as int]@));
                    assert(d == spec_l2(query@, self.vecs@[i as int]@) as u64);
                    assert(pairs@ =~= self.scored_upto(query@, (i + 1) as int));
                }
            }
            i = i + 1;
        }
        let ghost scored = self.scored_upto(query@, n_rows);
        proof {
            self.lemma_scored_len(query@, n_rows);
            assert(pairs@.len() == self.match_count(query@.len()));
            assert forall|a: int, b: int| 0 <= a < b < pairs@.len() implies pairs@[a].0
                != pairs@[b].0 by {
                self.lemma_scored_distinct(query@, n_rows, a, b);
            }
        }

        // Sort the scored pairs by ascending distance with an in-place
        // selection sort; swapping keeps the collection of pairs intact.
        let ghost orig = pairs@;
        let mut s: usize = 0;
        while s < pairs.len()
            invariant
                pairs@.len() == orig.len(),
                0 <= s <= pairs@.len(),
                forall|a: int|
                    0 <= a < pairs@.len() ==> orig.contains(#[trigger] pairs@[a]),
                forall|b: int|
                    0 <= b < orig.len() ==> pairs@.contains(#[trigger] orig[b]),
                forall|a: int, b: int| 0 <= a < b < pairs@.len() ==> pairs@[a].0 != pairs@[b].0,
                forall|a: int, b: int| 0 <= a < b < s ==> pairs@[a].1 <= pairs@[b].1,
                forall|a: int, b: int|
                    0 <= a < s && s <= b < pairs@.len() ==> pairs@[a].1 <= pairs@[b].1,
            decreases pairs@.len() - s,
        {
            let mut best: usize = s;
            let mut t: usize = s + 1;
            while t < pairs.len()
                invariant
                    0 <= s <= best < t <= pairs@.len(),
                    forall|c: int| s <= c < t ==> pairs@[best as int].1 <= (#[trigger] pairs@[c]).1,
                decreases pairs@.len() - t,
            {
                if pairs[t].1 < pairs[best].1 {
                    best = t;
                }
                t = t + 1;
            }
            let ghost before_swap = pairs@;
            let pb = pairs[best];
            let ps = pairs[s];
            pairs.set(s, pb);
            pairs.set(best, ps);
            proof {
                assert(pairs@ =~= before_swap.update(s as int, before_swap[best as int]).update(
                    best as int,
                    before_swap[s as int],
                ));
                assert forall|a: int| 0 <= a < pairs@.len() implies orig.contains(
                    #[trigger] pairs@[a],
                ) by {
                    let src: int = if a == best as int {
                        s as int
                    } else if a == s as int {
                        best as int
                    } else {
                        a
                    };
                    assert(pairs@[a] == before_swap[src]);
                }
                assert forall|b: int| 0 <= b < orig.len() implies pairs@.contains(
                    #[trigger] orig[b],
                ) by {
                    let w = choose|w: int| 0 <= w < before_swap.len() && before_swap[w] == orig[b];
                    let dst: int = if w == s as int {
                        best as int
                    } else if w == best as int {
                        s as int
                    } else {
                        w
                    };
                    assert(pairs@[dst] == orig[b]);
                }
                assert forall|a: int, b: int| 0 <= a < b < pairs@.len() implies pairs@[a].0
                    != pairs@[b].0 by {
                    let sa: int = if a == best as int {
                        s as int
                    } else if a == s as int {
                        best as int
                    } else {
                        a
                    };
                    let sb: int = if b == best as int {
                        s as int
                    } else if b == s as int {
                        best as int
                    } else {
                        b
                    };
                    assert(pairs@[a] == before_swap[sa] && pairs@[b] == before_swap[sb]);
                    assert(sa != sb);
                }
            }
            s = s + 1;
        }

        // Keep the k closest.
        let ghost full = pairs@;
        if k < pairs.len() {
            pairs.truncate(k);
        }
        proof {
            assert forall|a: int| 0 <= a < pairs@.len() implies {
                let p = #[trigger] pairs@[a];
                &&& self.contents().contains_key(p.0)
                &&& self.contents()[p.0].len() == query@.len()
                &&& p.1 == spec_l2(query@, self.contents()[p.0])
            } by {
                assert(pairs@[a] == full[a]);
                assert(orig.contains(full[a]));
                let w = choose|w: int| 0 <= w < orig.len() && orig[w] == full[a];
                assert(scored[w] == orig[w]);
                let j = self.lemma_scored_entry(query@, n_rows, w);
                self.lemma_idx_unique(orig[w].0, j);
                lemma_l2_range(query@, self.vecs@[j]@);
                assert(pairs@[a].1 as int == spec_l2(query@, self.vecs@[j]@));
            }
            assert forall|id: NodeId|
                self.contents().contains_key(id) && self.contents()[id].len() == query@.len()
                    && !(exists|a: int| 0 <= a < pairs@.len() && (#[trigger] pairs@[a]).0 == id)
                    && pairs@.len() > 0 implies spec_l2(query@, self.contents()[id]) >= pairs@[
                pairs@.len() - 1].1 by {
                let j = self.idx_of(id);
                assert(self.has_at(id, j));
                self.lemma_idx_unique(id, j);
                assert(self.vecs@[j]@.len() == query@.len());
                let a0 = self.lemma_scored_surj(query@, n_rows, j);
                assert(orig[a0] == scored[a0]);
                assert(orig[a0].0 == id);
                assert(full.contains(orig[a0]));
                let w = choose|w: int| 0 <= w < full.len() && full[w] == orig[a0];
                if w < pairs@.len() {
                    assert(pairs@[w] == full[w]);
                    assert((pairs@[w]).0 == id);
                    assert(false);
                }
                assert(full[w].1 >= full[pairs@.len() - 1].1);
                assert(pairs@[pairs@.len() - 1] == full[pairs@.len() - 1]);
                lemma_l2_range(query@, self.vecs@[j]@);
                assert(orig[a0].1 as int == spec_l2(query@, self.vecs@[j]@));
                assert(self.contents()[id] == self.vecs@[j]@);
            }
        }
        pairs
    }

}


/// A vector is at distance zero from itself.
pub proof fn lemma_l2_self(v: Seq<i64>)
    requires
        vec_ok(v),
    ensures
        spec_dist_sq(v, v) == 0,
        spec_l2(v, v) == 0,
{
    lemma_dist_sq_self(v, v.len() as int);
    assert(is_sqrt_floor(0, 0));
    lemma_sqrt_floor_is(0, 0);
}

/// The summed squared differences of a vector against itself vanish.
proof fn lemma_dist_sq_self(v: Seq<i64>, n: int)
    requires
        0 <= n <= v.len(),
    ensures
        dist_sq_upto(v, v, n) == 0,
    decreases n,
{
    if n > 0 {
        lemma_dist_sq_self(v, n - 1);
    }
}

impl LinearVectorIndex {
    /// An index holding a vector of dimension `d` matches at least one
    /// row of that dimension.
    pub proof fn lemma_match_count_at_least_one(self, id: NodeId, d: nat)
        requires
            self.wf(),
            self.contents().contains_key(id),
            self.contents()[id].len() == d,
        ensures
            self.match_count(d) >= 1,
    {
        let j = self.idx_of(id);
        assert(self.has_at(id, j));
        self.lemma_idx_unique(id, j);
        self.lemma_match_count_from(d, j, self.ids@.len() as int);
    }

    /// A matching row below the bound contributes to the count.
    proof fn lemma_match_count_from(self, d: nat, j: int, n: int)
        requires
            0 <= j < n <= self.ids@.len(),
            self.vecs@[j]@.len() == d,
        ensures
            self.match_count_upto(d, n) >= 1,
            self.match_count_upto(d, n) >= 0,
        decreases n,
    {
        if j < n - 1 {
            self.lemma_match_count_from(d, j, n - 1);
        } else {
            self.lemma_match_count_nonneg(d, n - 1);
        }
    }

    /// Counts are never negative.
    pub proof fn lemma_match_count_nonneg(self, d: nat, n: int)
        ensures
            self.match_count_upto(d, n) >= 0,
        decreases n,
    {
        if n > 0 {
            self.lemma_match_count_nonneg(d, n - 1);
        }
    }
}

/// The dot product of the first `n` components.
pub open spec fn dot_upto(a: Seq<i64>, b: Seq<i64>, n: int) -> int
    decreases n,
{
    if n <= 0 {
        0
    } else {
        dot_upto(a, b, n - 1) + a[n - 1] * b[n - 1]
    }
}

/// The summed squares of the first `n` components.
pub open spec fn sq_sum_upto(a: Seq<i64>, n: int) -> int
    decreases n,
{
    if n <= 0 {
        0
    } else {
        sq_sum_upto(a, n - 1) + sq(a[n - 1] as int)
    }
}

/// A scaled similarity ratio, capped at one unit: flooring the two
/// norms separately can push the raw ratio past one for tiny vectors,
/// and the cap keeps the distance inside its documented range.
pub open spec fn clamp_unit(x: int) -> int {
    if x > SCALE as int {
        SCALE as int
    } else {
        x
    }
}

/// The fixed-point cosine distance of two equally long vectors: one
/// minus the dot product over the product of the floored norms, the
/// quotient floored and capped at one unit; a zero denominator gives
/// one.
pub open spec fn spec_cosine(a: Seq<i64>, b: Seq<i64>) -> int {
    let dot = dot_upto(a, b, a.len() as int);
    let mag = sqrt_floor(sq_sum_upto(a, a.len() as int)) * sqrt_floor(
        sq_sum_upto(b, b.len() as int),
    );
    if mag == 0 {
        SCALE as int
    } else if dot >= 0 {
        SCALE as int - clamp_unit((dot * (SCALE as int)) / mag)
    } else {
        SCALE as int + clamp_unit(((-dot) * (SCALE as int)) / mag)
    }
}

/// Bounds for prefix dot products and square sums of in-range vectors.
proof fn lemma_dot_sq_bounds(a: Seq<i64>, b: Seq<i64>, n: int)
    requires
        0 <= n <= a.len(),
        a.len() == b.len(),
        vec_ok(a),
        vec_ok(b),
    ensures
        -(n * (COORD_LIMIT as int) * (COORD_LIMIT as int)) <= dot_upto(a, b, n) <= n * (
        COORD_LIMIT as int) * (COORD_LIMIT as int),
        0 <= sq_sum_upto(a, n) <= n * (COORD_LIMIT as int) * (COORD_LIMIT as int),
        0 <= sq_sum_upto(b, n) <= n * (COORD_LIMIT as int) * (COORD_LIMIT as int),
    decreases n,
{
    let cl = COORD_LIMIT as int;
    if n > 0 {
        lemma_dot_sq_bounds(a, b, n - 1);
        assert(coord_ok(a[n - 1]) && coord_ok(b[n - 1]));
        assert(-(cl * cl) <= a[n - 1] * b[n - 1] <= cl * cl) by (nonlinear_arith)
            requires -cl <= a[n - 1] <= cl && -cl <= b[n - 1] <= cl && cl >= 0;
        assert(0 <= sq(a[n - 1] as int) <= cl * cl) by (nonlinear_arith)
            requires -cl <= a[n - 1] <= cl && cl >= 0;
        assert(0 <= sq(b[n - 1] as int) <= cl * cl) by (nonlinear_arith)
            requires -cl <= b[n - 1] <= cl && cl >= 0;
        assert((n - 1) * cl * cl + cl * cl == n * cl * cl) by (nonlinear_arith);
    }
}

/// Computes the fixed-point cosine distance of two equally long,
/// in-range vectors: zero means parallel, one unit means orthogonal or
/// a zero vector, two units means opposite, and the result never
/// leaves that range.
#[verifier::loop_isolation(false)]
pub fn cosine_distance(a: &Vec<i64>, b: &Vec<i64>) -> (r: i64)
    requires
        a@.len() == b@.len(),
        vec_ok(a@),
        vec_ok(b@),
    ensures
        r == spec_cosine(a@, b@),
        0 <= r <= 2 * SCALE,
{
    let ghost cl = COORD_LIMIT as int;
    let mut dot: i128 = 0;
    let mut na2: i128 = 0;
    let mut nb2: i128 = 0;
    let mut i: usize = 0;
    while i < a.len()
        invariant
            0 <= i <= a@.len(),
            a@.len() == b@.len(),
            vec_ok(a@),
            vec_ok(b@),
            dot == dot_upto(a@, b@, i as int),
            na2 == sq_sum_upto(a@, i as int),
            nb2 == sq_sum_upto(b@, i as int),
        decreases a@.len() - i,
    {
        proof {
            lemma_dot_sq_bounds(a@, b@, i as int);
            assert(coord_ok(a@[i as int]) && coord_ok(b@[i as int]));
            assert((i as int) * cl * cl <= (DIM_LIMIT as int) * cl * cl) by (nonlinear_arith)
                requires 0 <= i <= DIM_LIMIT && cl >= 0;
            assert(-(cl * cl) <= (a@[i as int] as int) * (b@[i as int] as int) <= cl * cl
                && 0 <= sq(a@[i as int] as int) <= cl * cl
                && 0 <= sq(b@[i as int] as int) <= cl * cl) by (nonlinear_arith)
                requires
                    -cl <= a@[i as int] <= cl && -cl <= b@[i as int] <= cl && cl >= 0;
        }
        let x: i128 = a[i] as i128;
        let y: i128 = b[i] as i128;
        dot = dot + x * y;
        na2 = na2 + x * x;
        nb2 = nb2 + y * y;
        i = i + 1;
    }
    proof {
        lemma_dot_sq_bounds(a@, b@, a@.len() as int);
        assert((a@.len() as int) * cl * cl <= (DIM_LIMIT as int) * cl * cl) by (nonlinear_arith)
            requires 0 <= a@.len() <= DIM_LIMIT && cl >= 0;
    }
    let na = isqrt(na2 as u128);
    let nb = isqrt(nb2 as u128);
    proof {
        lemma_sqrt_floor_is(na as int, sq_sum_upto(a@, a@.len() as int));
        lemma_sqrt_floor_is(nb as int, sq_sum_upto(b@, b@.len() as int));
        // the norms are bounded, so their product and the scaled dot fit
        assert((na as int) * (na as int) <= (DIM_LIMIT as int) * cl * cl);
        assert(na as int <= 0x1_0000_0000_0000) by (nonlinear_arith)
            requires
                (na as int) * (na as int) <= (DIM_LIMIT as int) * cl * cl && na as int >= 0
                    && DIM_LIMIT as int == 65536 && cl == 1_000_000_000;
        assert(nb as int <= 0x1_0000_0000_0000) by (nonlinear_arith)
            requires
                (nb as int) * (nb as int) <= (DIM_LIMIT as int) * cl * cl && nb as int >= 0
                    && DIM_LIMIT as int == 65536 && cl == 1_000_000_000;
        assert((na as int) * (nb as int) <= 0x1_0000_0000_0000 * 0x1_0000_0000_0000)
            by (nonlinear_arith)
            requires 0 <= na as int <= 0x1_0000_0000_0000 && 0 <= nb as int <= 0x1_0000_0000_0000;
    }
    let mag: i128 = (na as i128) * (nb as i128);
    if mag == 0 {
        return 1_000_000;
    }
    proof {
        let d = dot as int;
        let m = mag as int;
        assert(d <= (DIM_LIMIT as int) * cl * cl);
        assert(-(DIM_LIMIT as int) * cl * cl <= d);
        assert(d * (SCALE as int) <= (DIM_LIMIT as int) * cl * cl * 1_000_000
            && -((DIM_LIMIT as int) * cl * cl * 1_000_000) <= d * (SCALE as int))
            by (nonlinear_arith)
            requires
                -(DIM_LIMIT as int) * cl * cl <= d <= (DIM_LIMIT as int) * cl * cl && cl >= 0
                    && SCALE as int == 1_000_000;
        assert((DIM_LIMIT as int) * cl * cl * 1_000_000 < i128::MAX as int) by (nonlinear_arith)
            requires DIM_LIMIT as int == 65536 && cl == 1_000_000_000;
        // the quotient of non-negative operands is small
        assert(m >= 1);
    }
    if dot >= 0 {
        let scaled: i128 = dot * 1_000_000;
        let q: i128 = scaled / mag;
        proof {
            let sc = scaled as int;
            let m = mag as int;
            vstd::arithmetic::div_mod::lemma_fundamental_div_mod(sc, m);
            assert(0 <= sc / m <= sc) by (nonlinear_arith)
                requires sc >= 0 && m >= 1 && sc == m * (sc / m) + sc % m && 0 <= sc % m < m;
            assert(q == sc / m);
        }
        let qc: i128 = if q > 1_000_000 {
            1_000_000
        } else {
            q
        };
        (1_000_000 - qc) as i64
    } else {
        let scaled: i128 = (-dot) * 1_000_000;
        let q: i128 = scaled / mag;
        proof {
            let sc = scaled as int;
            let m = mag as int;
            vstd::arithmetic::div_mod::lemma_fundamental_div_mod(sc, m);
            assert(0 <= sc / m <= sc) by (nonlinear_arith)
                requires sc >= 0 && m >= 1 && sc == m * (sc / m) + sc % m && 0 <= sc % m < m;
            assert(q == sc / m);
        }
        let qc: i128 = if q > 1_000_000 {
            1_000_000
        } else {
            q
        };
        (1_000_000 + qc) as i64
    }
}

} // verus!
