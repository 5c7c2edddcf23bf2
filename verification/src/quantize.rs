//! Product-quantization values carried by the index (`iqdb_quantize`).
//!
//! Training a quantizer, encoding a vector and scoring a code all compute
//! on `f32` data and happen outside this crate; the index decides the shape
//! of its quantizer, stores the trained quantizer and one code per entry.

use vstd::prelude::*;
use iqdb_quantize::{PqCode, ProductQuantizer};
use crate::index::IvfIndex;

verus! {

/// A product quantizer (`iqdb_quantize::ProductQuantizer`).
#[verifier::external_type_specification]
#[verifier::external_body]
pub struct ExProductQuantizer(ProductQuantizer);

/// The code of one vector (`iqdb_quantize::PqCode`).
#[verifier::external_type_specification]
#[verifier::external_body]
pub struct ExPqCode(PqCode);

/// Centroids per subspace of the index's quantizer, so that every subvector
/// code fits in one byte.
pub const PQ_K_CENTROIDS: usize = 256;

/// What `ProductQuantizer::with_config` returns for a subvector count, a
/// per-subspace centroid count and a seed: an untrained quantizer of that
/// shape.
pub uninterp spec fn configured_quantizer(n_subvectors: usize, n_centroids: usize, seed: u64) -> ProductQuantizer;

/// `ProductQuantizer::with_config`: an untrained quantizer with the given
/// subvector count, centroid count and seed. The constructor only stores
/// its arguments; the result is named by [`configured_quantizer`].
#[verifier::external_body]
fn quantizer_with_config(n_subvectors: usize, n_centroids: usize, seed: u64) -> (r: ProductQuantizer)
    ensures
        r == configured_quantizer(n_subvectors, n_centroids, seed),
{
    ProductQuantizer::with_config(n_subvectors, n_centroids, seed)
}

impl<V> IvfIndex<V> {
    /// The untrained quantizer an index that quantizes trains on its working
    /// set: `pq_subvectors` subvectors, [`PQ_K_CENTROIDS`] centroids per
    /// subspace, seeded by the configured seed. `None` when the index does
    /// not quantize.
    pub fn new_quantizer(&self) -> (r: Option<ProductQuantizer>)
        requires
            self.wf(),
        ensures
            match r {
                Some(q) => {
                    &&& self.config_spec().use_pq
                    &&& q == configured_quantizer(self.config_spec().pq_subvectors->Some_0, PQ_K_CENTROIDS,
                        self.config_spec().seed)
                },
                None => !self.config_spec().use_pq,
            },
    {
        proof {
            self.lemma_wf_lists();
        }
        let cfg = self.config();
        if !cfg.use_pq {
            return None;
        }
        match cfg.pq_subvectors {
            Some(m) => {
                let q = quantizer_with_config(m, PQ_K_CENTROIDS, cfg.seed);
                assert(q == configured_quantizer(self.config_spec().pq_subvectors->Some_0, PQ_K_CENTROIDS,
                    self.config_spec().seed));
                Some(q)
            },
            None => None,
        }
    }
}

} // verus!
