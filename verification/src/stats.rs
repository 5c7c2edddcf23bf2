//! [`IvfClusterStats`]: a snapshot of inverted-list occupancy.

use vstd::prelude::*;

verus! {

/// Occupancy of the inverted lists.
///
/// `cluster_sizes` is empty before training and holds one live count per
/// list afterwards. The mean and the population variance of the sizes are
/// derived from it by the caller, in floating point.
#[derive(Debug, Clone, PartialEq, Eq)]
pub struct IvfClusterStats {
    /// Number of lists the index was configured with.
    pub n_clusters: usize,
    /// Live vector count per list, indexed by list; empty before training.
    pub cluster_sizes: Vec<usize>,
}

} // verus!
