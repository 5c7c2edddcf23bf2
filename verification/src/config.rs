//! [`IvfConfig`]: the typed configuration of an [`crate::index::IvfIndex`].

use vstd::prelude::*;
use crate::error::IvfError;

verus! {

/// Configuration of an [`crate::index::IvfIndex`].
///
/// All fields have documented defaults (see [`IvfConfig::default`]).
#[derive(Debug, Clone, Copy, PartialEq, Eq, Structural)]
pub struct IvfConfig {
    /// Number of k-means partitions (inverted lists). Must be at least `1`.
    /// Default `256`.
    pub n_clusters: usize,
    /// Number of clusters scanned per query. Must be at least `1` and at
    /// most `n_clusters`. Default `8`.
    pub n_probes: usize,
    /// Cap on the training sample; larger samples are deterministically
    /// subsampled. Must be at least `1`. Default `65_536`.
    pub training_sample_size: usize,
    /// Enable product quantization within each inverted list. Default
    /// `false`.
    pub use_pq: bool,
    /// Subvector count `M` of the product quantizer; required to be
    /// `Some(m)` with `m >= 1` (and `m | dim`) when `use_pq` is set.
    pub pq_subvectors: Option<usize>,
    /// Product-quantization refine factor: `0` returns the pure ADC top-`k`,
    /// `N >= 1` exact-reranks an `N * k` shortlist. Default `4`.
    pub pq_refine_factor: u32,
    /// Seed of the SplitMix64 generator driving k-means++ seeding and
    /// subsampling. Default `0xDEAD_BEEF_CAFE_F00D`.
    pub seed: u64,
}

/// The outcome of [`IvfConfig::validate`], check by check.
pub open spec fn validate_spec(c: IvfConfig) -> Result<(), IvfError> {
    if c.n_clusters == 0 {
        Err(IvfError::InvalidConfig { reason: "IvfConfig.n_clusters must be greater than zero" })
    } else if c.n_probes == 0 {
        Err(IvfError::InvalidConfig { reason: "IvfConfig.n_probes must be greater than zero" })
    } else if c.n_probes > c.n_clusters {
        Err(IvfError::InvalidConfig { reason: "IvfConfig.n_probes must be <= n_clusters" })
    } else if c.training_sample_size == 0 {
        Err(IvfError::InvalidConfig { reason: "IvfConfig.training_sample_size must be greater than zero" })
    } else if c.use_pq && c.pq_subvectors is None {
        Err(IvfError::InvalidConfig { reason: "IvfConfig.use_pq = true requires pq_subvectors = Some(_)" })
    } else if c.use_pq && c.pq_subvectors == Some(0usize) {
        Err(IvfError::InvalidConfig { reason: "IvfConfig.pq_subvectors must be >= 1 when use_pq = true" })
    } else {
        Ok(())
    }
}

/// The configuration passes every check of [`IvfConfig::validate`].
pub open spec fn config_ok(c: IvfConfig) -> bool {
    &&& c.n_clusters >= 1
    &&& 1 <= c.n_probes <= c.n_clusters
    &&& c.training_sample_size >= 1
    &&& c.use_pq ==> (c.pq_subvectors matches Some(m) && m >= 1)
}

/// `validate` accepts exactly the configurations that satisfy
/// [`config_ok`].
pub proof fn lemma_validate_accepts_exactly_config_ok(c: IvfConfig)
    ensures
        validate_spec(c) is Ok <==> config_ok(c),
{
}

impl IvfConfig {
    /// Override `n_clusters`.
    pub fn with_n_clusters(self, n_clusters: usize) -> (r: Self)
        ensures
            r == (IvfConfig { n_clusters, ..self }),
    {
        IvfConfig { n_clusters, ..self }
    }

    /// Override `n_probes`.
    pub fn with_n_probes(self, n_probes: usize) -> (r: Self)
        ensures
            r == (IvfConfig { n_probes, ..self }),
    {
        IvfConfig { n_probes, ..self }
    }

    /// Override `training_sample_size`.
    pub fn with_training_sample_size(self, training_sample_size: usize) -> (r: Self)
        ensures
            r == (IvfConfig { training_sample_size, ..self }),
    {
        IvfConfig { training_sample_size, ..self }
    }

    /// Override `use_pq`. When `true`, `pq_subvectors` must be set as well;
    /// the metric and divisibility checks happen when the index is built.
    pub fn with_use_pq(self, use_pq: bool) -> (r: Self)
        ensures
            r == (IvfConfig { use_pq, ..self }),
    {
        IvfConfig { use_pq, ..self }
    }

    /// Override `pq_subvectors`.
    pub fn with_pq_subvectors(self, pq_subvectors: Option<usize>) -> (r: Self)
        ensures
            r == (IvfConfig { pq_subvectors, ..self }),
    {
        IvfConfig { pq_subvectors, ..self }
    }

    /// Override `pq_refine_factor`.
    pub fn with_pq_refine_factor(self, pq_refine_factor: u32) -> (r: Self)
        ensures
            r == (IvfConfig { pq_refine_factor, ..self }),
    {
        IvfConfig { pq_refine_factor, ..self }
    }

    /// Override the generator seed.
    pub fn with_seed(self, seed: u64) -> (r: Self)
        ensures
            r == (IvfConfig { seed, ..self }),
    {
        IvfConfig { seed, ..self }
    }

    /// Validate the configuration.
    ///
    /// The error is always [`IvfError::InvalidConfig`] with a `reason`
    /// naming the first check that failed, in this order: `n_clusters == 0`,
    /// `n_probes == 0`, `n_probes > n_clusters`, `training_sample_size == 0`,
    /// and, with `use_pq`, a missing or zero `pq_subvectors`.
    pub fn validate(&self) -> (r: Result<(), IvfError>)
        ensures
            r == validate_spec(*self),
    {
        if self.n_clusters == 0 {
            return Err(IvfError::InvalidConfig { reason: "IvfConfig.n_clusters must be greater than zero" });
        }
        if self.n_probes == 0 {
            return Err(IvfError::InvalidConfig { reason: "IvfConfig.n_probes must be greater than zero" });
        }
        if self.n_probes > self.n_clusters {
            return Err(IvfError::InvalidConfig { reason: "IvfConfig.n_probes must be <= n_clusters" });
        }
        if self.training_sample_size == 0 {
            return Err(IvfError::InvalidConfig { reason: "IvfConfig.training_sample_size must be greater than zero" });
        }
        if self.use_pq {
            match self.pq_subvectors {
                Some(m) => {
                    if m == 0 {
                        return Err(IvfError::InvalidConfig { reason: "IvfConfig.pq_subvectors must be >= 1 when use_pq = true" });
                    }
                }
                None => {
                    return Err(IvfError::InvalidConfig { reason: "IvfConfig.use_pq = true requires pq_subvectors = Some(_)" });
                }
            }
        }
        Ok(())
    }
}

/// The documented operating point.
pub open spec fn default_config() -> IvfConfig {
    IvfConfig {
        n_clusters: 256,
        n_probes: 8,
        training_sample_size: 65_536,
        use_pq: false,
        pq_subvectors: None,
        pq_refine_factor: 4,
        seed: 0xDEAD_BEEF_CAFE_F00D,
    }
}

impl Default for IvfConfig {
    /// `n_clusters = 256`, `n_probes = 8`, `training_sample_size = 65_536`,
    /// `use_pq = false`, `pq_subvectors = None`, `pq_refine_factor = 4`,
    /// `seed = 0xDEAD_BEEF_CAFE_F00D`.
    fn default() -> (r: Self)
        ensures
            r == default_config(),
    {
        IvfConfig {
            n_clusters: 256,
            n_probes: 8,
            training_sample_size: 65_536,
            use_pq: false,
            pq_subvectors: None,
            pq_refine_factor: 4,
            seed: 0xDEAD_BEEF_CAFE_F00D,
        }
    }
}

} // verus!
