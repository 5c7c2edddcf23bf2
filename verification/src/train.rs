//! The decisions of k-means training: which samples are acceptable and which
//! of them form the working set.
//!
//! The k-means arithmetic itself (k-means++ seeding weighted by squared
//! distances, Lloyd's iterations with `f64` accumulation) runs on `f32`
//! data outside this crate, driven by the generator these functions hand
//! out.

use vstd::prelude::*;
use crate::error::IvfError;
use crate::rng::{subsample_indices, subsample_spec, subsample_state, SplitMix64};

verus! {

/// The length of the first sample vector whose length is not `dim`,
/// looking from position `i` on.
pub open spec fn first_wrong_len(lens: Seq<usize>, dim: usize, i: nat) -> Option<usize>
    decreases lens.len() - i,
{
    if i >= lens.len() {
        None
    } else if lens[i as int] != dim {
        Some(lens[i as int])
    } else {
        first_wrong_len(lens, dim, i + 1)
    }
}

/// What the training pre-checks decide for samples of the given lengths.
pub open spec fn training_sample_check(dim: usize, n_clusters: usize, lens: Seq<usize>) -> Result<(), IvfError> {
    if lens.len() == 0 {
        Err(IvfError::InvalidConfig { reason: "IvfIndex::train requires a non-empty sample" })
    } else if first_wrong_len(lens, dim, 0) is Some {
        Err(IvfError::DimensionMismatch { expected: dim, found: first_wrong_len(lens, dim, 0).unwrap() })
    } else if lens.len() < n_clusters {
        Err(IvfError::InvalidConfig { reason: "IvfIndex::train requires sample.len() >= n_clusters" })
    } else {
        Ok(())
    }
}

/// The pre-checks of k-means training, given the length of every sample
/// vector: the sample must be non-empty, every vector must have `dim`
/// components (the first offender is reported), and there must be at least
/// `n_clusters` vectors.
pub fn check_training_sample(dim: usize, n_clusters: usize, lens: &[usize]) -> (r: Result<(), IvfError>)
    ensures
        r == training_sample_check(dim, n_clusters, lens@),
{
    if lens.len() == 0 {
        return Err(IvfError::InvalidConfig { reason: "IvfIndex::train requires a non-empty sample" });
    }
    let mut i: usize = 0;
    while i < lens.len()
        invariant
            i <= lens@.len(),
            first_wrong_len(lens@, dim, 0) == first_wrong_len(lens@, dim, i as nat),
        decreases lens@.len() - i,
    {
        if lens[i] != dim {
            return Err(IvfError::DimensionMismatch { expected: dim, found: lens[i] });
        }
        i = i + 1;
    }
    if lens.len() < n_clusters {
        return Err(IvfError::InvalidConfig { reason: "IvfIndex::train requires sample.len() >= n_clusters" });
    }
    Ok(())
}

/// The working set of k-means: after the pre-checks pass, the positions
/// of at most `training_sample_size` distinct sample vectors (all of them,
/// in order, when the sample is small enough), drawn by a partial
/// Fisher-Yates shuffle with a generator seeded by `seed`; the generator is
/// returned to continue with k-means++ seeding. The working set and the
/// generator are functions of the sample size, the cap and the seed.
pub fn plan_training_set(
    dim: usize,
    n_clusters: usize,
    seed: u64,
    lens: &[usize],
    training_sample_size: usize,
) -> (r: Result<(Vec<usize>, SplitMix64), IvfError>)
    ensures
        match r {
            Ok((w, rng)) => {
                let n = lens@.len();
                &&& training_sample_check(dim, n_clusters, lens@) is Ok
                &&& w@.len() == if training_sample_size < n { training_sample_size as nat } else { n }
                &&& forall|j: int| 0 <= j < w@.len() ==> #[trigger] w@[j] < n
                &&& forall|a: int, b: int| 0 <= a < b < w@.len() ==> #[trigger] w@[a] != #[trigger] w@[b]
                &&& w@ == subsample_spec(n, training_sample_size as nat, seed)
                &&& rng.state() == subsample_state(n, training_sample_size as nat, seed)
            },
            Err(e) => training_sample_check(dim, n_clusters, lens@) == Err::<(), IvfError>(e),
        },
{
    match check_training_sample(dim, n_clusters, lens) {
        Ok(()) => {},
        Err(e) => {
            return Err(e);
        },
    }
    let mut rng = SplitMix64::new(seed);
    let working = subsample_indices(lens.len(), training_sample_size, &mut rng);
    Ok((working, rng))
}

} // verus!
