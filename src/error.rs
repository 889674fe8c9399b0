//! Error kinds of the facet core.

use vstd::prelude::*;

verus! {

/// What the facet core reports to its callers.
#[derive(Clone, Copy, Debug, PartialEq, Eq, Structural)]
pub enum FacetError {
    /// The field is not configured as filterable.
    NotFilterable,
    /// Facet search is switched off for the index.
    SearchDisabled,
    /// The query and the field's value type disagree.
    WrongType,
    /// The storage layer, or the ordered-set library writing into it, failed.
    Storage,
}

} // verus!
