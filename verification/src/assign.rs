//! Nearest-centroid assignment.
//!
//! Partitioning always happens in squared-L2 space, whatever metric the
//! index ranks by. The caller computes the squared L2 distance from the
//! vector to every centroid; the choice of the nearest one is made here:
//! the first index whose distance is smaller (`<` of `f32`) than every
//! earlier best, so ties go to the lower index.

use vstd::prelude::*;
use crate::float_bits::{ieee_less, ieee_lt, is_nan_spec};

verus! {

/// The index a left-to-right scan settles on when it replaces its current
/// best only by a strictly smaller (`<` of `f32`) distance, over the first
/// `n` distances.
pub open spec fn scan_best(d: Seq<u32>, n: nat) -> nat
    decreases n,
{
    if n <= 1 {
        0
    } else {
        let b = scan_best(d, (n - 1) as nat);
        if ieee_lt(d[n - 1], d[b as int]) { (n - 1) as nat } else { b }
    }
}

/// The nearest centroid for the given squared distances.
pub open spec fn nearest_index(d: Seq<u32>) -> nat {
    scan_best(d, d.len())
}

/// Without NaNs, the scan settles on the first smallest distance among
/// the first `n`: nothing is smaller, and every earlier distance is larger.
proof fn lemma_scan_best_first_min(d: Seq<u32>, n: nat)
    requires
        1 <= n <= d.len(),
        forall|i: int| 0 <= i < d.len() ==> !is_nan_spec(#[trigger] d[i]),
    ensures
        scan_best(d, n) < n,
        forall|j: int| 0 <= j < n ==> !ieee_lt(#[trigger] d[j], d[scan_best(d, n) as int]),
        forall|j: int| 0 <= j < scan_best(d, n) ==> ieee_lt(d[scan_best(d, n) as int], #[trigger] d[j]),
    decreases n,
{
    if n > 1 {
        lemma_scan_best_first_min(d, (n - 1) as nat);
        let b = scan_best(d, (n - 1) as nat);
        assert(!is_nan_spec(d[n - 1]));
        assert(!is_nan_spec(d[b as int]));
        if ieee_lt(d[n - 1], d[b as int]) {
            assert forall|j: int| 0 <= j < n - 1 implies ieee_lt(d[n - 1], #[trigger] d[j]) by {
                assert(!ieee_lt(d[j], d[b as int]));
                assert(!is_nan_spec(d[j]));
            }
        }
    }
}

/// The nearest centroid is the first smallest squared distance, when no
/// distance is NaN: no centroid is strictly nearer, and every centroid
/// before it is strictly farther (ties go to the lower index).
pub proof fn lemma_nearest_is_first_minimum(d: Seq<u32>)
    requires
        d.len() >= 1,
        forall|i: int| 0 <= i < d.len() ==> !is_nan_spec(#[trigger] d[i]),
    ensures
        nearest_index(d) < d.len(),
        forall|j: int| 0 <= j < d.len() ==> !ieee_lt(#[trigger] d[j], d[nearest_index(d) as int]),
        forall|j: int| 0 <= j < nearest_index(d) ==> ieee_lt(d[nearest_index(d) as int], #[trigger] d[j]),
{
    lemma_scan_best_first_min(d, d.len());
}

/// Index of the nearest centroid, given the squared distance (as an `f32`
/// bit pattern) from the vector to each centroid. Ties go to the lower
/// index: a later centroid wins only if it is strictly nearer.
pub fn nearest_centroid(sq_dists: &[u32]) -> (r: usize)
    requires
        sq_dists@.len() >= 1,
    ensures
        r == nearest_index(sq_dists@),
        r < sq_dists@.len(),
{
    let mut best: usize = 0;
    let mut i: usize = 1;
    proof {
        reveal_with_fuel(scan_best, 2);
    }
    while i < sq_dists.len()
        invariant
            1 <= i <= sq_dists@.len(),
            best == scan_best(sq_dists@, i as nat),
            best < i,
        decreases sq_dists@.len() - i,
    {
        if ieee_less(sq_dists[i], sq_dists[best]) {
            best = i;
        }
        i = i + 1;
    }
    best
}

/// The bit pattern of `-1.0f32`, below every squared distance.
pub open spec fn minus_one_bits() -> u32 {
    0xBF80_0000u32
}

/// A left-to-right scan for the largest value over the first `n` values:
/// the index and value it settles on, starting from index `0` and value
/// `-1.0`, replacing them only by a strictly larger (`>` of `f32`) value.
pub open spec fn far_scan(d: Seq<u32>, n: nat) -> (nat, u32)
    decreases n,
{
    if n == 0 || n > d.len() {
        (0, minus_one_bits())
    } else {
        let (b, v) = far_scan(d, (n - 1) as nat);
        if ieee_lt(v, d[n - 1]) { ((n - 1) as nat, d[n - 1]) } else { (b, v) }
    }
}

/// The scan's index stays within the values it has seen.
proof fn lemma_far_scan_in_range(d: Seq<u32>, n: nat)
    requires
        1 <= n <= d.len(),
    ensures
        far_scan(d, n).0 < n,
    decreases n,
{
    assert(far_scan(d, 0) == (0nat, minus_one_bits()));
    if n > 1 {
        lemma_far_scan_in_range(d, (n - 1) as nat);
    }
}

/// The most isolated point: given each point's squared distance (an `f32`
/// bit pattern) to its nearest centroid, the first point whose distance is
/// the largest (`>` of `f32`, so a NaN never wins), or `0` when no distance
/// exceeds `-1.0`.
pub fn farthest_point(min_dists: &[u32]) -> (r: usize)
    requires
        min_dists@.len() >= 1,
    ensures
        r == far_scan(min_dists@, min_dists@.len()).0,
        r < min_dists@.len(),
{
    let mut best: usize = 0;
    let mut best_dist: u32 = 0xBF80_0000u32;
    let mut i: usize = 0;
    while i < min_dists.len()
        invariant
            i <= min_dists@.len(),
            (best as nat, best_dist) == far_scan(min_dists@, i as nat),
        decreases min_dists@.len() - i,
    {
        if ieee_less(best_dist, min_dists[i]) {
            best = i;
            best_dist = min_dists[i];
        }
        i = i + 1;
    }
    proof {
        lemma_far_scan_in_range(min_dists@, min_dists@.len());
    }
    best
}

/// Without NaNs and with every value above `-1.0`, the scan settles on the
/// first largest value among the first `n`.
proof fn lemma_far_scan_first_max(d: Seq<u32>, n: nat)
    requires
        1 <= n <= d.len(),
        forall|i: int| 0 <= i < d.len() ==> !is_nan_spec(#[trigger] d[i]) && ieee_lt(minus_one_bits(), d[i]),
    ensures
        far_scan(d, n).0 < n,
        far_scan(d, n).1 == d[far_scan(d, n).0 as int],
        forall|j: int| 0 <= j < n ==> !ieee_lt(d[far_scan(d, n).0 as int], #[trigger] d[j]),
        forall|j: int| 0 <= j < far_scan(d, n).0 ==> ieee_lt(#[trigger] d[j], d[far_scan(d, n).0 as int]),
    decreases n,
{
    assert(far_scan(d, 0) == (0nat, minus_one_bits()));
    assert(!is_nan_spec(d[0]) && ieee_lt(minus_one_bits(), d[0]));
    if n > 1 {
        lemma_far_scan_first_max(d, (n - 1) as nat);
        let b = far_scan(d, (n - 1) as nat).0;
        assert(!is_nan_spec(d[n - 1]));
        assert(!is_nan_spec(d[b as int]));
        if ieee_lt(d[b as int], d[n - 1]) {
            assert forall|j: int| 0 <= j < n - 1 implies ieee_lt(#[trigger] d[j], d[n - 1]) by {
                assert(!ieee_lt(d[b as int], d[j]));
                assert(!is_nan_spec(d[j]));
            }
        }
    }
}

/// The most isolated point is the first largest distance, when no distance
/// is NaN and all exceed `-1.0` (as squared distances do): no point is
/// strictly farther, and every point before it is strictly nearer.
pub proof fn lemma_farthest_is_first_maximum(d: Seq<u32>)
    requires
        d.len() >= 1,
        forall|i: int| 0 <= i < d.len() ==> !is_nan_spec(#[trigger] d[i]) && ieee_lt(minus_one_bits(), d[i]),
    ensures
        far_scan(d, d.len()).0 < d.len(),
        forall|j: int| 0 <= j < d.len() ==> !ieee_lt(d[far_scan(d, d.len()).0 as int], #[trigger] d[j]),
        forall|j: int| 0 <= j < far_scan(d, d.len()).0 ==> ieee_lt(#[trigger] d[j], d[far_scan(d, d.len()).0 as int]),
{
    lemma_far_scan_first_max(d, d.len());
}

} // verus!
