//! The ways in which a lookup or a merge can be refused.

use vstd::prelude::*;

verus! {

/// Why an operation on a registry or a granularity was refused.
#[derive(Debug, PartialEq, Eq)]
pub enum GranularityError {
    /// A lookup named a dimension that the registry does not hold.
    UnknownDimension(String),
    /// A lookup named a category label that the dimension does not list.
    UnknownCategoryValue { dimension: String, value: String },
    /// Two granularities that had to be structurally equal are not.
    GranularityMismatch,
    /// Two registries bind the named dimension to different value lists.
    DimensionConflict(String),
    /// The registry already holds a dimension of that name.
    DuplicateDimension(String),
}

} // verus!
