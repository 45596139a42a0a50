//! Failures that the catalog reports to its callers.

use vstd::prelude::*;

verus! {

/// What can go wrong when a catalog is built or queried.
#[derive(Clone, Copy, Debug, PartialEq, Eq, Structural)]
pub enum CatalogError {
    /// A code is not made of exactly nineteen decimal digits.
    MalformedCode,
    /// A path names a slot that the tree does not have.
    PathNotFound,
}

} // verus!
