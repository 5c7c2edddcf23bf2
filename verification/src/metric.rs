//! Distance metrics.

use vstd::prelude::*;

verus! {

/// The distance metric an index ranks by.
///
/// Mirrors `iqdb_types::DistanceMetric`. `DotProduct` is a similarity
/// (larger is more similar); the index negates it so that every reported
/// distance is smaller-is-nearer.
#[derive(Debug, Clone, Copy, PartialEq, Eq, Hash, Structural)]
pub enum Metric {
    /// Cosine distance.
    Cosine,
    /// Inner product (a similarity).
    DotProduct,
    /// Euclidean (L2) distance.
    Euclidean,
    /// Manhattan (L1) distance.
    Manhattan,
    /// Hamming distance.
    Hamming,
}

/// The metrics that the product-quantized variant can score.
pub open spec fn pq_supports_spec(m: Metric) -> bool {
    m == Metric::Euclidean || m == Metric::DotProduct || m == Metric::Manhattan
}

/// Whether raw scores of this metric are similarities that must be negated
/// to become smaller-is-nearer distances.
pub open spec fn negates_spec(m: Metric) -> bool {
    m == Metric::DotProduct
}

impl Metric {
    /// True for the metrics the product-quantized variant supports:
    /// `Euclidean`, `DotProduct` and `Manhattan`.
    pub fn pq_supported(&self) -> (r: bool)
        ensures
            r == pq_supports_spec(*self),
    {
        match self {
            Metric::Euclidean | Metric::DotProduct | Metric::Manhattan => true,
            _ => false,
        }
    }

    /// True when raw scores are similarities (only `DotProduct`).
    pub fn is_similarity(&self) -> (r: bool)
        ensures
            r == negates_spec(*self),
            r == (*self == Metric::DotProduct),
    {
        match self {
            Metric::DotProduct => true,
            _ => false,
        }
    }

    /// Whether two metrics are the same.
    pub fn same_as(&self, other: &Metric) -> (r: bool)
        ensures
            r == (*self == *other),
    {
        *self == *other
    }
}

} // verus!
