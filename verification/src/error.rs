//! The error type of the index.

use vstd::prelude::*;

verus! {

/// Why an index operation was refused.
///
/// The variants mirror the error vocabulary of the iQDB family
/// (`iqdb_types::IqdbError`), so callers can convert one-for-one.
#[derive(Debug, Clone, Copy, PartialEq, Eq)]
pub enum IvfError {
    /// A vector's length does not match the index dimension.
    DimensionMismatch {
        /// The dimension the index expects.
        expected: usize,
        /// The length that was supplied.
        found: usize,
    },
    /// A vector is empty or holds non-finite components.
    InvalidVector,
    /// The configuration or the index state does not allow the operation.
    InvalidConfig {
        /// Which check failed.
        reason: &'static str,
    },
    /// The requested id is not in the index.
    NotFound,
    /// The id is already in the index.
    Duplicate,
    /// The distance metric does not fit the index or the operation.
    InvalidMetric,
    /// A filter expression is malformed or exceeds its limits.
    InvalidFilter,
    /// An input exceeded a configured resource limit.
    ResourceLimitExceeded {
        /// Which limit.
        kind: &'static str,
        /// The limit.
        max: usize,
        /// The value that was supplied.
        found: usize,
    },
}

} // verus!
