//! Metadata and metadata filters, carried through the index and evaluated
//! by `iqdb_filter`.

use vstd::prelude::*;
use iqdb_filter::FilterEvaluator;
use iqdb_types::{Filter, IqdbError, Metadata};
use crate::error::IvfError;

verus! {

/// The metadata attached to a stored vector (`iqdb_types::Metadata`).
#[verifier::external_type_specification]
#[verifier::external_body]
pub struct ExMetadata(Metadata);

/// A metadata predicate (`iqdb_types::Filter`).
#[verifier::external_type_specification]
#[verifier::external_body]
pub struct ExFilter(Filter);

/// A validated filter, ready to evaluate (`iqdb_filter::FilterEvaluator`).
#[verifier::external_type_specification]
#[verifier::external_body]
pub struct ExFilterEvaluator(FilterEvaluator);

/// The error type of the iQDB crates (`iqdb_types::IqdbError`).
#[verifier::external_type_specification]
#[verifier::external_body]
pub struct ExIqdbError(IqdbError);

/// What `FilterEvaluator::new` makes of the filter: the evaluator when the
/// filter's nesting depth and its `In` lists stay within the evaluator's
/// caps, nothing otherwise.
pub uninterp spec fn evaluator_for(filter: Filter) -> Option<FilterEvaluator>;

/// What `FilterEvaluator::evaluate` answers for the given metadata.
pub uninterp spec fn filter_admits(evaluator: FilterEvaluator, metadata: Option<Metadata>) -> bool;

/// `Filter::clone`: a structurally equal copy of the filter.
#[verifier::external_body]
pub(crate) fn filter_copy(f: &Filter) -> (r: Filter)
    ensures
        r == *f,
{
    f.clone()
}

/// `Metadata::clone` on an optional metadata map: an equal copy.
#[verifier::external_body]
pub(crate) fn metadata_copy(m: &Option<Metadata>) -> (r: Option<Metadata>)
    ensures
        r == *m,
{
    m.clone()
}

/// `FilterEvaluator::new`: validates the filter and wraps it for
/// evaluation. The outcome is named by [`evaluator_for`]: the evaluator on
/// success, nothing on an error.
#[verifier::external_body]
fn evaluator_try_new(f: Filter) -> (r: Result<FilterEvaluator, IqdbError>)
    ensures
        match r {
            Ok(ev) => evaluator_for(f) == Some(ev),
            Err(_) => evaluator_for(f) is None,
        },
{
    FilterEvaluator::new(f)
}

/// Validate a filter into an evaluator. The evaluator refuses a filter
/// nested deeper than its depth cap or with an `In` list over its
/// cardinality cap, and reports nothing but that; the refusal is
/// [`IvfError::InvalidFilter`].
pub(crate) fn evaluator_new(f: Filter) -> (r: Result<FilterEvaluator, IvfError>)
    ensures
        match r {
            Ok(ev) => evaluator_for(f) == Some(ev),
            Err(e) => evaluator_for(f) is None && e == IvfError::InvalidFilter,
        },
{
    match evaluator_try_new(f) {
        Ok(ev) => Ok(ev),
        Err(_) => Err(IvfError::InvalidFilter),
    }
}

/// `FilterEvaluator::evaluate`: whether the metadata satisfies the filter;
/// the answer is named by [`filter_admits`].
#[verifier::external_body]
pub(crate) fn evaluator_admits(ev: &FilterEvaluator, m: &Option<Metadata>) -> (r: bool)
    ensures
        r == filter_admits(*ev, *m),
{
    ev.evaluate(m.as_ref())
}

} // verus!
