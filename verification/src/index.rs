//! Identifiers that can be turned into dense `usize` indices and back.

use vstd::prelude::*;

verus! {

/// A type whose values are identified by a dense `usize` index.
///
/// `get_sparse_set_index` is the inverse of `sparse_set_index` for every index
/// that the type can represent (`spec_index_fits`).
pub trait SparseSetIndex: Copy + Eq {
    /// The index of this value.
    spec fn spec_sparse_set_index(&self) -> usize;

    /// Whether `value` can be represented exactly by this type.
    spec fn spec_index_fits(value: usize) -> bool;

    fn sparse_set_index(&self) -> (r: usize)
        ensures
            r == self.spec_sparse_set_index(),
    ;

    fn get_sparse_set_index(value: usize) -> (r: Self)
        ensures
            Self::spec_index_fits(value) ==> r.spec_sparse_set_index() == value,
    ;
}

impl SparseSetIndex for usize {
    open spec fn spec_sparse_set_index(&self) -> usize {
        *self
    }

    open spec fn spec_index_fits(value: usize) -> bool {
        true
    }

    fn sparse_set_index(&self) -> (r: usize) {
        *self
    }

    fn get_sparse_set_index(value: usize) -> (r: Self) {
        value
    }
}

} // verus!
