//! Inverted-file (IVF) approximate nearest-neighbour index.
//!
//! The index partitions the vector space into `n_clusters` inverted lists,
//! one per k-means centroid, and answers a query by scanning only the
//! `n_probes` lists whose centroids are nearest to it.
//!
//! Vector components and distances travel through this crate as the raw
//! IEEE-754 bit patterns of `f32` values (`u32`); every ordering decision is
//! taken on those bit patterns by the functions of [`float_bits`].

pub mod assign;
pub mod config;
pub mod error;
pub mod filter;
pub mod float_bits;
pub mod id;
pub mod index;
pub mod metric;
pub mod probes;
pub mod quantize;
pub mod retrain;
pub mod rng;
pub mod search;
pub mod stats;
pub mod topk;
pub mod train;

use vstd::prelude::*;

pub use crate::config::IvfConfig;
pub use crate::error::IvfError;
pub use crate::index::IvfIndex;
pub use crate::metric::Metric;
pub use crate::stats::IvfClusterStats;

verus! {

/// The crate version.
pub const VERSION: &'static str = "1.0.0";

} // verus!


