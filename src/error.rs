use vstd::prelude::*;

verus! {

/// Errors surfaced by the store's operations.
#[derive(Debug, Clone, Copy, PartialEq, Eq, Structural)]
pub enum Error {
    /// The named index is not a live link.
    NotExists(usize),
    /// A link with this index, source and target already exists.
    AlreadyExists(usize, usize, usize),
    /// The link is still referenced by other links.
    HasUsages(usize),
    /// The backing slab refused to grow.
    AllocationFailed,
    /// The successor of an index does not fit the index type.
    Overflow,
    /// The query was empty where an index is required.
    InvalidQuery,
}

} // verus!
