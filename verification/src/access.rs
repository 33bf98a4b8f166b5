//! Read and write access to indexed elements, used to decide which systems may
//! run at the same time.

use std::marker::PhantomData;

use fixedbitset::FixedBitSet;
use vstd::prelude::*;

use crate::bitset::{
    bitset_clear, bitset_clone, bitset_contains, bitset_count_ones, bitset_default,
    bitset_difference_vec, bitset_extend, bitset_grow, bitset_insert, bitset_intersection_vec,
    bitset_is_disjoint, bitset_len, bitset_ones, bitset_ones_vec, bitset_union_with, bitset_wf,
    ascending_listing,
};
use crate::index::SparseSetIndex;

verus! {

/// Tracks read and write access to specific elements in a collection.
#[derive(Debug, PartialEq, Eq)]
pub struct Access<T: SparseSetIndex> {
    /// The accessed elements.
    reads_and_writes: FixedBitSet,
    /// The exclusively-accessed elements.
    writes: FixedBitSet,
    /// Access to all elements in the collection.
    reads_all: bool,
    /// Exclusive access to all elements in the collection.
    writes_all: bool,
    marker: PhantomData<T>,
}

impl<T: SparseSetIndex> Access<T> {
    /// The indices read or written.
    pub closed spec fn spec_reads_and_writes(&self) -> Set<usize> {
        bitset_ones(self.reads_and_writes)
    }

    /// The indices written.
    pub closed spec fn spec_writes(&self) -> Set<usize> {
        bitset_ones(self.writes)
    }

    /// Whether all elements are read.
    pub closed spec fn spec_reads_all(&self) -> bool {
        self.reads_all
    }

    /// Whether all elements are written.
    pub closed spec fn spec_writes_all(&self) -> bool {
        self.writes_all
    }

    /// The lengths, in bits, of the set of accessed indices and of the set of
    /// written indices.
    pub closed spec fn spec_bit_lens(&self) -> (nat, nat) {
        (bitset_len(self.reads_and_writes), bitset_len(self.writes))
    }

    /// Every written index is also read, all-writing implies all-reading, and
    /// both bit sets keep their bits within their lengths.
    pub closed spec fn wf(&self) -> bool {
        &&& bitset_wf(self.reads_and_writes)
        &&& bitset_wf(self.writes)
        &&& self.spec_writes().subset_of(self.spec_reads_and_writes())
        &&& self.writes_all ==> self.reads_all
    }

    /// Whether the element with index `i` can be read.
    pub open spec fn spec_has_read(&self, i: usize) -> bool {
        self.spec_reads_all() || self.spec_reads_and_writes().contains(i)
    }

    /// Whether the element with index `i` can be written.
    pub open spec fn spec_has_write(&self, i: usize) -> bool {
        self.spec_writes_all() || self.spec_writes().contains(i)
    }
}

impl<T: SparseSetIndex> Default for Access<T> {
    /// An access to nothing.
    fn default() -> (r: Self)
        ensures
            r.wf(),
            r.spec_reads_and_writes() == Set::<usize>::empty(),
            r.spec_writes() == Set::<usize>::empty(),
            !r.spec_reads_all(),
            !r.spec_writes_all(),
    {
        Self {
            reads_and_writes: bitset_default(),
            writes: bitset_default(),
            reads_all: false,
            writes_all: false,
            marker: PhantomData,
        }
    }
}

impl<T: SparseSetIndex> Clone for Access<T> {
    /// The same access.
    fn clone(&self) -> (r: Self)
        ensures
            self.wf() ==> r.wf(),
            r.spec_reads_and_writes() == self.spec_reads_and_writes(),
            r.spec_writes() == self.spec_writes(),
            r.spec_reads_all() == self.spec_reads_all(),
            r.spec_writes_all() == self.spec_writes_all(),
    {
        Self {
            reads_and_writes: bitset_clone(&self.reads_and_writes),
            writes: bitset_clone(&self.writes),
            reads_all: self.reads_all,
            writes_all: self.writes_all,
            marker: PhantomData,
        }
    }
}

/// Whether two accesses can be active at the same time: a world-writer only
/// goes with an access that touches no element, a world-reader only with one
/// that writes none, and otherwise neither may write what the other touches.
pub open spec fn spec_is_compatible<T: SparseSetIndex>(a: Access<T>, b: Access<T>) -> bool {
    if a.spec_writes_all() {
        b.spec_reads_and_writes().is_empty()
    } else if b.spec_writes_all() {
        a.spec_reads_and_writes().is_empty()
    } else if a.spec_reads_all() {
        b.spec_writes().is_empty()
    } else if b.spec_reads_all() {
        a.spec_writes().is_empty()
    } else {
        a.spec_writes().disjoint(b.spec_reads_and_writes()) && a.spec_reads_and_writes().disjoint(
            b.spec_writes(),
        )
    }
}

/// The indices on which two accesses conflict.
pub open spec fn spec_conflicts<T: SparseSetIndex>(a: Access<T>, b: Access<T>) -> Set<usize> {
    let from_world_writers = (if a.spec_writes_all() {
        b.spec_reads_and_writes()
    } else {
        Set::empty()
    }).union(
        if b.spec_writes_all() {
            a.spec_reads_and_writes()
        } else {
            Set::empty()
        },
    );
    if a.spec_writes_all() || b.spec_writes_all() {
        from_world_writers
    } else if !a.spec_reads_all() && !b.spec_reads_all() {
        a.spec_writes().intersect(b.spec_reads_and_writes()).union(
            a.spec_reads_and_writes().intersect(b.spec_writes()),
        )
    } else if !a.spec_reads_all() && b.spec_reads_all() {
        a.spec_writes()
    } else if a.spec_reads_all() && !b.spec_reads_all() {
        b.spec_writes()
    } else {
        Set::empty()
    }
}

impl<T: SparseSetIndex> Access<T> {
    /// Grows both bit sets to at least `bits` bits; the access stays the same.
    pub fn grow(&mut self, bits: usize)
        requires
            old(self).wf(),
        ensures
            final(self).wf(),
            final(self).spec_reads_and_writes() == old(self).spec_reads_and_writes(),
            final(self).spec_writes() == old(self).spec_writes(),
            final(self).spec_reads_all() == old(self).spec_reads_all(),
            final(self).spec_writes_all() == old(self).spec_writes_all(),
            final(self).spec_bit_lens().0 == if bits > old(self).spec_bit_lens().0 {
                bits as nat
            } else {
                old(self).spec_bit_lens().0
            },
            final(self).spec_bit_lens().1 == if bits > old(self).spec_bit_lens().1 {
                bits as nat
            } else {
                old(self).spec_bit_lens().1
            },
    {
        bitset_grow(&mut self.reads_and_writes, bits);
        bitset_grow(&mut self.writes, bits);
    }

    /// Adds access to the element given by `index`.
    pub fn add_read(&mut self, index: T)
        requires
            old(self).wf(),
            index.spec_sparse_set_index() < usize::MAX,
        ensures
            final(self).wf(),
            final(self).spec_reads_and_writes() == old(self).spec_reads_and_writes().insert(
                index.spec_sparse_set_index(),
            ),
            final(self).spec_writes() == old(self).spec_writes(),
            final(self).spec_reads_all() == old(self).spec_reads_all(),
            final(self).spec_writes_all() == old(self).spec_writes_all(),
    {
        bitset_grow(&mut self.reads_and_writes, index.sparse_set_index() + 1);
        bitset_insert(&mut self.reads_and_writes, index.sparse_set_index());
    }

    /// Adds exclusive access to the element given by `index`.
    pub fn add_write(&mut self, index: T)
        requires
            old(self).wf(),
            index.spec_sparse_set_index() < usize::MAX,
        ensures
            final(self).wf(),
            final(self).spec_reads_and_writes() == old(self).spec_reads_and_writes().insert(
                index.spec_sparse_set_index(),
            ),
            final(self).spec_writes() == old(self).spec_writes().insert(
                index.spec_sparse_set_index(),
            ),
            final(self).spec_reads_all() == old(self).spec_reads_all(),
            final(self).spec_writes_all() == old(self).spec_writes_all(),
    {
        bitset_grow(&mut self.reads_and_writes, index.sparse_set_index() + 1);
        bitset_insert(&mut self.reads_and_writes, index.sparse_set_index());
        bitset_grow(&mut self.writes, index.sparse_set_index() + 1);
        bitset_insert(&mut self.writes, index.sparse_set_index());
    }

    /// Returns `true` if this can access the element given by `index`.
    pub fn has_read(&self, index: T) -> (r: bool)
        ensures
            r == self.spec_has_read(index.spec_sparse_set_index()),
    {
        if self.reads_all {
            true
        } else {
            bitset_contains(&self.reads_and_writes, index.sparse_set_index())
        }
    }

    /// Returns `true` if this can exclusively access the element given by `index`.
    pub fn has_write(&self, index: T) -> (r: bool)
        ensures
            r == self.spec_has_write(index.spec_sparse_set_index()),
    {
        if self.writes_all {
            true
        } else {
            bitset_contains(&self.writes, index.sparse_set_index())
        }
    }

    /// Sets this as having access to all indexed elements.
    pub fn read_all(&mut self)
        requires
            old(self).wf(),
        ensures
            final(self).wf(),
            final(self).spec_reads_all(),
            final(self).spec_writes_all() == old(self).spec_writes_all(),
            final(self).spec_reads_and_writes() == old(self).spec_reads_and_writes(),
            final(self).spec_writes() == old(self).spec_writes(),
    {
        self.reads_all = true;
    }

    /// Sets this as having exclusive access to all indexed elements.
    pub fn write_all(&mut self)
        requires
            old(self).wf(),
        ensures
            final(self).wf(),
            final(self).spec_reads_all(),
            final(self).spec_writes_all(),
            final(self).spec_reads_and_writes() == old(self).spec_reads_and_writes(),
            final(self).spec_writes() == old(self).spec_writes(),
    {
        self.reads_all = true;
        self.writes_all = true;
    }

    /// Removes all accesses.
    pub fn clear(&mut self)
        requires
            old(self).wf(),
        ensures
            final(self).wf(),
            final(self).spec_reads_and_writes() == Set::<usize>::empty(),
            final(self).spec_writes() == Set::<usize>::empty(),
            !final(self).spec_reads_all(),
            !final(self).spec_writes_all(),
    {
        self.reads_all = false;
        self.writes_all = false;
        bitset_clear(&mut self.reads_and_writes);
        bitset_clear(&mut self.writes);
    }

    /// Adds all access from `other`.
    pub fn extend(&mut self, other: &Access<T>)
        requires
            old(self).wf(),
            other.wf(),
        ensures
            final(self).wf(),
            final(self).spec_reads_and_writes() == old(self).spec_reads_and_writes().union(
                other.spec_reads_and_writes(),
            ),
            final(self).spec_writes() == old(self).spec_writes().union(other.spec_writes()),
            final(self).spec_reads_all() == (old(self).spec_reads_all()
                || other.spec_reads_all()),
            final(self).spec_writes_all() == (old(self).spec_writes_all()
                || other.spec_writes_all()),
            forall|i: usize|
                #[trigger] final(self).spec_has_read(i) == (old(self).spec_has_read(i)
                    || other.spec_has_read(i)),
            forall|i: usize|
                #[trigger] final(self).spec_has_write(i) == (old(self).spec_has_write(i)
                    || other.spec_has_write(i)),
    {
        self.reads_all = self.reads_all || other.reads_all;
        self.writes_all = self.writes_all || other.writes_all;
        bitset_union_with(&mut self.reads_and_writes, &other.reads_and_writes);
        bitset_union_with(&mut self.writes, &other.writes);
    }

    /// Returns `true` if this and `other` can be active at the same time.
    pub fn is_compatible(&self, other: &Access<T>) -> (r: bool)
        requires
            self.wf(),
            other.wf(),
        ensures
            r == spec_is_compatible(*self, *other),
    {
        proof {
            lemma_usize_sets_finite(*self, *other);
        }
        if self.writes_all {
            return bitset_count_ones(&other.reads_and_writes) == 0;
        }
        if other.writes_all {
            return bitset_count_ones(&self.reads_and_writes) == 0;
        }
        if self.reads_all {
            return bitset_count_ones(&other.writes) == 0;
        }
        if other.reads_all {
            return bitset_count_ones(&self.writes) == 0;
        }
        bitset_is_disjoint(&self.writes, &other.reads_and_writes) && bitset_is_disjoint(
            &self.reads_and_writes,
            &other.writes,
        )
    }
}

/// The keys of a listing of indices: each key has the listed index wherever
/// that index is representable by the key type.
pub open spec fn keys_of<T: SparseSetIndex>(r: Seq<T>, v: Seq<usize>) -> bool {
    &&& r.len() == v.len()
    &&& forall|j: int|
        0 <= j < v.len() && T::spec_index_fits(#[trigger] v[j]) ==> r[j].spec_sparse_set_index()
            == v[j]
}

/// Turns a listing of indices into keys.
fn keys_from_indices<T: SparseSetIndex>(v: Vec<usize>) -> (r: Vec<T>)
    ensures
        keys_of(r@, v@),
{
    let mut r: Vec<T> = Vec::with_capacity(v.len());
    let mut i: usize = 0;
    while i < v.len()
        invariant
            i <= v@.len(),
            r@.len() == i,
            forall|j: int|
                0 <= j < i && T::spec_index_fits(#[trigger] v@[j]) ==> r@[j].spec_sparse_set_index()
                    == v@[j],
        decreases v@.len() - i,
    {
        r.push(T::get_sparse_set_index(v[i]));
        i = i + 1;
    }
    r
}

impl<T: SparseSetIndex> Access<T> {
    /// Returns the elements that this and `other` cannot access at the same
    /// time, in ascending index order.
    pub fn get_conflicts(&self, other: &Access<T>) -> (r: Vec<T>)
        requires
            self.wf(),
            other.wf(),
        ensures
            exists|v: Seq<usize>|
                ascending_listing(v, spec_conflicts(*self, *other)) && #[trigger] keys_of(r@, v),
    {
        let mut conflicts = bitset_default();
        if self.writes_all {
            let v = bitset_ones_vec(&other.reads_and_writes);
            proof {
                lemma_listing_below(v@, other.spec_reads_and_writes());
            }
            bitset_extend(&mut conflicts, v);
        }
        if other.writes_all {
            let v = bitset_ones_vec(&self.reads_and_writes);
            proof {
                lemma_listing_below(v@, self.spec_reads_and_writes());
            }
            bitset_extend(&mut conflicts, v);
        }
        if !(self.writes_all || other.writes_all) {
            match (self.reads_all, other.reads_all) {
                (false, false) => {
                    let v = bitset_intersection_vec(&self.writes, &other.reads_and_writes);
                    proof {
                        lemma_listing_below(
                            v@,
                            self.spec_writes().intersect(other.spec_reads_and_writes()),
                        );
                    }
                    bitset_extend(&mut conflicts, v);
                    let w = bitset_intersection_vec(&self.reads_and_writes, &other.writes);
                    proof {
                        lemma_listing_below(
                            w@,
                            self.spec_reads_and_writes().intersect(other.spec_writes()),
                        );
                    }
                    bitset_extend(&mut conflicts, w);
                },
                (false, true) => {
                    let v = bitset_ones_vec(&self.writes);
                    proof {
                        lemma_listing_below(v@, self.spec_writes());
                    }
                    bitset_extend(&mut conflicts, v);
                },
                (true, false) => {
                    let v = bitset_ones_vec(&other.writes);
                    proof {
                        lemma_listing_below(v@, other.spec_writes());
                    }
                    bitset_extend(&mut conflicts, v);
                },
                (true, true) => {},
            }
        }
        let ones = bitset_ones_vec(&conflicts);
        proof {
            assert(bitset_ones(conflicts) =~= spec_conflicts(*self, *other));
        }
        keys_from_indices(ones)
    }

    /// The elements this has access to, in ascending index order.
    pub fn reads(&self) -> (r: Vec<T>)
        ensures
            exists|v: Seq<usize>|
                ascending_listing(v, self.spec_reads_and_writes()) && #[trigger] keys_of(r@, v),
    {
        keys_from_indices(bitset_ones_vec(&self.reads_and_writes))
    }

    /// The elements this has non-exclusive access to, in ascending index order.
    pub fn only_reads(&self) -> (r: Vec<T>)
        ensures
            exists|v: Seq<usize>|
                ascending_listing(v, self.spec_reads_and_writes().difference(self.spec_writes()))
                    && #[trigger] keys_of(r@, v),
    {
        keys_from_indices(bitset_difference_vec(&self.reads_and_writes, &self.writes))
    }

    /// The elements this has exclusive access to, in ascending index order.
    pub fn writes(&self) -> (r: Vec<T>)
        ensures
            exists|v: Seq<usize>|
                ascending_listing(v, self.spec_writes()) && #[trigger] keys_of(r@, v),
    {
        keys_from_indices(bitset_ones_vec(&self.writes))
    }
}

/// Every element of a listing of a set of indices below `usize::MAX` is below
/// `usize::MAX`.
proof fn lemma_listing_below(v: Seq<usize>, s: Set<usize>)
    requires
        forall|i: int, j: int| 0 <= i < j < v.len() ==> v[i] < v[j],
        forall|x: usize| #[trigger] s.contains(x) <==> v.contains(x),
        forall|b: usize| #[trigger] s.contains(b) ==> b < usize::MAX,
    ensures
        forall|i: int| 0 <= i < v.len() ==> #[trigger] v[i] < usize::MAX,
{
    assert forall|i: int| 0 <= i < v.len() implies #[trigger] v[i] < usize::MAX by {
        assert(v.contains(v[i]));
        assert(s.contains(v[i]));
    }
}

/// The index sets of two accesses are finite.
proof fn lemma_usize_sets_finite<T: SparseSetIndex>(a: Access<T>, b: Access<T>)
    ensures
        a.spec_reads_and_writes().finite(),
        a.spec_writes().finite(),
        b.spec_reads_and_writes().finite(),
        b.spec_writes().finite(),
{
    crate::archetype_maps::lemma_usize_set_finite(a.spec_reads_and_writes());
    crate::archetype_maps::lemma_usize_set_finite(a.spec_writes());
    crate::archetype_maps::lemma_usize_set_finite(b.spec_reads_and_writes());
    crate::archetype_maps::lemma_usize_set_finite(b.spec_writes());
}

} // verus!

verus! {

/// Two accesses that do not both read everything are compatible exactly when
/// they have no conflicting element.
pub proof fn lemma_compatible_iff_no_conflicts<T: SparseSetIndex>(a: Access<T>, b: Access<T>)
    requires
        a.wf(),
        b.wf(),
        !(a.spec_reads_all() && b.spec_reads_all()),
    ensures
        spec_is_compatible(a, b) <==> spec_conflicts(a, b).is_empty(),
{
    if !a.spec_reads_all() && !b.spec_reads_all() {
        let x = a.spec_writes().intersect(b.spec_reads_and_writes());
        let y = a.spec_reads_and_writes().intersect(b.spec_writes());
        if spec_conflicts(a, b).is_empty() {
            assert forall|i: usize| !(#[trigger] a.spec_writes().contains(i) && b.spec_reads_and_writes().contains(i)) by {
                assert(!x.union(y).contains(i));
            }
            assert forall|i: usize| !(#[trigger] a.spec_reads_and_writes().contains(i) && b.spec_writes().contains(i)) by {
                assert(!x.union(y).contains(i));
            }
        }
    }
}

/// Whether two accesses conflict does not depend on their order, and neither
/// does the set of elements they conflict on.
pub proof fn lemma_conflicts_symmetric<T: SparseSetIndex>(a: Access<T>, b: Access<T>)
    ensures
        spec_conflicts(a, b) == spec_conflicts(b, a),
{
    assert(spec_conflicts(a, b) =~= spec_conflicts(b, a));
}

/// Compatibility does not depend on the order of two accesses that do not
/// both read everything.
pub proof fn lemma_compatible_symmetric<T: SparseSetIndex>(a: Access<T>, b: Access<T>)
    requires
        a.wf(),
        b.wf(),
        !(a.spec_reads_all() && b.spec_reads_all()),
    ensures
        spec_is_compatible(a, b) == spec_is_compatible(b, a),
{
    assert(a.spec_writes().disjoint(b.spec_reads_and_writes()) == b.spec_reads_and_writes().disjoint(
        a.spec_writes(),
    ));
    assert(a.spec_reads_and_writes().disjoint(b.spec_writes()) == b.spec_writes().disjoint(
        a.spec_reads_and_writes(),
    ));
}

/// An access with a filter: the components that must be present (`with`) and
/// those that must be absent (`without`) for it to apply.
#[derive(Debug, PartialEq, Eq)]
pub struct FilteredAccess<T: SparseSetIndex> {
    access: Access<T>,
    with: FixedBitSet,
    without: FixedBitSet,
}

impl<T: SparseSetIndex> FilteredAccess<T> {
    /// The unfiltered access.
    pub closed spec fn spec_access(&self) -> Access<T> {
        self.access
    }

    /// The indices that must be present.
    pub closed spec fn spec_with(&self) -> Set<usize> {
        bitset_ones(self.with)
    }

    /// The indices that must be absent.
    pub closed spec fn spec_without(&self) -> Set<usize> {
        bitset_ones(self.without)
    }

    pub closed spec fn wf(&self) -> bool {
        &&& self.access.wf()
        &&& bitset_wf(self.with)
        &&& bitset_wf(self.without)
    }
}

/// Whether two filtered accesses can be active at the same time: their
/// accesses are compatible, or their filters exclude each other.
pub open spec fn spec_filtered_compatible<T: SparseSetIndex>(
    a: FilteredAccess<T>,
    b: FilteredAccess<T>,
) -> bool {
    spec_is_compatible(a.spec_access(), b.spec_access()) || !a.spec_with().intersect(
        b.spec_without(),
    ).is_empty() || !a.spec_without().intersect(b.spec_with()).is_empty()
}

impl<T: SparseSetIndex> Default for FilteredAccess<T> {
    /// No access and no filter.
    fn default() -> (r: Self)
        ensures
            r.wf(),
            r.spec_access().spec_reads_and_writes() == Set::<usize>::empty(),
            r.spec_access().spec_writes() == Set::<usize>::empty(),
            !r.spec_access().spec_reads_all(),
            !r.spec_access().spec_writes_all(),
            r.spec_with() == Set::<usize>::empty(),
            r.spec_without() == Set::<usize>::empty(),
    {
        Self { access: Access::default(), with: bitset_default(), without: bitset_default() }
    }
}

impl<T: SparseSetIndex> Clone for FilteredAccess<T> {
    /// The same access and filter.
    fn clone(&self) -> (r: Self)
        ensures
            self.wf() ==> r.wf(),
            r.spec_access().spec_reads_and_writes() == self.spec_access().spec_reads_and_writes(),
            r.spec_access().spec_writes() == self.spec_access().spec_writes(),
            r.spec_access().spec_reads_all() == self.spec_access().spec_reads_all(),
            r.spec_access().spec_writes_all() == self.spec_access().spec_writes_all(),
            r.spec_with() == self.spec_with(),
            r.spec_without() == self.spec_without(),
    {
        Self {
            access: self.access.clone(),
            with: bitset_clone(&self.with),
            without: bitset_clone(&self.without),
        }
    }
}

impl<T: SparseSetIndex> FilteredAccess<T> {
    /// The unfiltered access.
    pub fn access(&self) -> (r: &Access<T>)
        ensures
            *r == self.spec_access(),
    {
        &self.access
    }

    /// Adds access to the element given by `index`, which must then be present.
    pub fn add_read(&mut self, index: T)
        requires
            old(self).wf(),
            index.spec_sparse_set_index() < usize::MAX,
        ensures
            final(self).wf(),
            final(self).spec_access().spec_reads_and_writes() == old(self).spec_access().spec_reads_and_writes().insert(index.spec_sparse_set_index()),
            final(self).spec_access().spec_writes() == old(self).spec_access().spec_writes(),
            final(self).spec_access().spec_reads_all() == old(self).spec_access().spec_reads_all(),
            final(self).spec_access().spec_writes_all() == old(self).spec_access().spec_writes_all(),
            final(self).spec_with() == old(self).spec_with().insert(index.spec_sparse_set_index()),
            final(self).spec_without() == old(self).spec_without(),
    {
        self.access.add_read(index);
        self.add_with(index);
    }

    /// Adds exclusive access to the element given by `index`, which must then
    /// be present.
    pub fn add_write(&mut self, index: T)
        requires
            old(self).wf(),
            index.spec_sparse_set_index() < usize::MAX,
        ensures
            final(self).wf(),
            final(self).spec_access().spec_reads_and_writes() == old(self).spec_access().spec_reads_and_writes().insert(index.spec_sparse_set_index()),
            final(self).spec_access().spec_writes() == old(self).spec_access().spec_writes().insert(index.spec_sparse_set_index()),
            final(self).spec_access().spec_reads_all() == old(self).spec_access().spec_reads_all(),
            final(self).spec_access().spec_writes_all() == old(self).spec_access().spec_writes_all(),
            final(self).spec_with() == old(self).spec_with().insert(index.spec_sparse_set_index()),
            final(self).spec_without() == old(self).spec_without(),
    {
        self.access.add_write(index);
        self.add_with(index);
    }

    /// Requires the element given by `index` to be present.
    pub fn add_with(&mut self, index: T)
        requires
            old(self).wf(),
            index.spec_sparse_set_index() < usize::MAX,
        ensures
            final(self).wf(),
            final(self).spec_access() == old(self).spec_access(),
            final(self).spec_with() == old(self).spec_with().insert(index.spec_sparse_set_index()),
            final(self).spec_without() == old(self).spec_without(),
    {
        bitset_grow(&mut self.with, index.sparse_set_index() + 1);
        bitset_insert(&mut self.with, index.sparse_set_index());
    }

    /// Requires the element given by `index` to be absent.
    pub fn add_without(&mut self, index: T)
        requires
            old(self).wf(),
            index.spec_sparse_set_index() < usize::MAX,
        ensures
            final(self).wf(),
            final(self).spec_access() == old(self).spec_access(),
            final(self).spec_with() == old(self).spec_with(),
            final(self).spec_without() == old(self).spec_without().insert(
                index.spec_sparse_set_index(),
            ),
    {
        bitset_grow(&mut self.without, index.sparse_set_index() + 1);
        bitset_insert(&mut self.without, index.sparse_set_index());
    }

    /// Returns `true` if this and `other` can be active at the same time.
    pub fn is_compatible(&self, other: &FilteredAccess<T>) -> (r: bool)
        requires
            self.wf(),
            other.wf(),
        ensures
            r == spec_filtered_compatible(*self, *other),
    {
        if self.access.is_compatible(&other.access) {
            true
        } else {
            let a = bitset_intersection_vec(&self.with, &other.without);
            let b = bitset_intersection_vec(&self.without, &other.with);
            proof {
                lemma_listing_empty(a@, self.spec_with().intersect(other.spec_without()));
                lemma_listing_empty(b@, self.spec_without().intersect(other.spec_with()));
            }
            a.len() > 0 || b.len() > 0
        }
    }

    /// Adds the access and the filter of `access`.
    pub fn extend(&mut self, access: &FilteredAccess<T>)
        requires
            old(self).wf(),
            access.wf(),
        ensures
            final(self).wf(),
            final(self).spec_access().spec_reads_and_writes() == old(self).spec_access().spec_reads_and_writes().union(
                access.spec_access().spec_reads_and_writes(),
            ),
            final(self).spec_access().spec_writes() == old(self).spec_access().spec_writes().union(access.spec_access().spec_writes()),
            final(self).spec_access().spec_reads_all() == (old(self).spec_access().spec_reads_all()
                || access.spec_access().spec_reads_all()),
            final(self).spec_access().spec_writes_all() == (old(self).spec_access().spec_writes_all() || access.spec_access().spec_writes_all()),
            final(self).spec_with() == old(self).spec_with().union(access.spec_with()),
            final(self).spec_without() == old(self).spec_without().union(access.spec_without()),
    {
        self.access.extend(&access.access);
        bitset_union_with(&mut self.with, &access.with);
        bitset_union_with(&mut self.without, &access.without);
    }

    /// Sets this as reading all elements.
    pub fn read_all(&mut self)
        requires
            old(self).wf(),
        ensures
            final(self).wf(),
            final(self).spec_access().spec_reads_all(),
            final(self).spec_access().spec_writes_all() == old(self).spec_access().spec_writes_all(),
            final(self).spec_access().spec_reads_and_writes() == old(self).spec_access().spec_reads_and_writes(),
            final(self).spec_access().spec_writes() == old(self).spec_access().spec_writes(),
            final(self).spec_with() == old(self).spec_with(),
            final(self).spec_without() == old(self).spec_without(),
    {
        self.access.read_all();
    }

    /// Sets this as writing all elements.
    pub fn write_all(&mut self)
        requires
            old(self).wf(),
        ensures
            final(self).wf(),
            final(self).spec_access().spec_reads_all(),
            final(self).spec_access().spec_writes_all(),
            final(self).spec_access().spec_reads_and_writes() == old(self).spec_access().spec_reads_and_writes(),
            final(self).spec_access().spec_writes() == old(self).spec_access().spec_writes(),
            final(self).spec_with() == old(self).spec_with(),
            final(self).spec_without() == old(self).spec_without(),
    {
        self.access.write_all();
    }
}

/// Compatibility of filtered accesses does not depend on their order when
/// they do not both read everything.
pub proof fn lemma_filtered_compatible_symmetric<T: SparseSetIndex>(
    a: FilteredAccess<T>,
    b: FilteredAccess<T>,
)
    requires
        a.wf(),
        b.wf(),
        !(a.spec_access().spec_reads_all() && b.spec_access().spec_reads_all()),
    ensures
        spec_filtered_compatible(a, b) == spec_filtered_compatible(b, a),
{
    lemma_compatible_symmetric(a.spec_access(), b.spec_access());
    assert(a.spec_with().intersect(b.spec_without()) =~= b.spec_without().intersect(
        a.spec_with(),
    ));
    assert(a.spec_without().intersect(b.spec_with()) =~= b.spec_with().intersect(
        a.spec_without(),
    ));
}

/// A listing is empty exactly when its set is.
proof fn lemma_listing_empty(v: Seq<usize>, s: Set<usize>)
    requires
        ascending_listing(v, s),
    ensures
        (v.len() == 0) == s.is_empty(),
{
    if v.len() > 0 {
        assert(v.contains(v[0]));
        assert(s.contains(v[0]));
    } else {
        assert forall|x: usize| !s.contains(x) by {
            assert(!v.contains(x));
        }
    }
}

} // verus!

verus! {

/// The indices on which the filtered accesses in `fs` that cannot run beside
/// `fa` conflict with it.
pub open spec fn spec_set_conflicts<T: SparseSetIndex>(
    fs: Seq<FilteredAccess<T>>,
    fa: FilteredAccess<T>,
) -> Set<usize>
    decreases fs.len(),
{
    if fs.len() == 0 {
        Set::empty()
    } else {
        spec_set_conflicts(fs.drop_last(), fa).union(
            if !spec_filtered_compatible(fs.last(), fa) {
                spec_conflicts(fs.last().spec_access(), fa.spec_access())
            } else {
                Set::empty()
            },
        )
    }
}

/// The indices reported against a list of filtered accesses are exactly
/// those on which some filtered access of the list, at any position, cannot
/// run beside `fa` and conflicts with it.
pub proof fn lemma_set_conflicts_at_any_position<T: SparseSetIndex>(
    fs: Seq<FilteredAccess<T>>,
    fa: FilteredAccess<T>,
)
    ensures
        forall|x: usize|
            #[trigger] spec_set_conflicts(fs, fa).contains(x) <==> exists|k: int|
                0 <= k < fs.len() && !spec_filtered_compatible(#[trigger] fs[k], fa) && spec_conflicts(
                    fs[k].spec_access(),
                    fa.spec_access(),
                ).contains(x),
    decreases fs.len(),
{
    if fs.len() > 0 {
        let p = fs.drop_last();
        lemma_set_conflicts_at_any_position(p, fa);
        assert forall|x: usize|
            #[trigger] spec_set_conflicts(fs, fa).contains(x) <==> exists|k: int|
                0 <= k < fs.len() && !spec_filtered_compatible(#[trigger] fs[k], fa) && spec_conflicts(
                    fs[k].spec_access(),
                    fa.spec_access(),
                ).contains(x) by {
            if exists|k: int|
                0 <= k < fs.len() && !spec_filtered_compatible(#[trigger] fs[k], fa) && spec_conflicts(
                    fs[k].spec_access(),
                    fa.spec_access(),
                ).contains(x) {
                let k = choose|k: int|
                    0 <= k < fs.len() && !spec_filtered_compatible(#[trigger] fs[k], fa) && spec_conflicts(
                        fs[k].spec_access(),
                        fa.spec_access(),
                    ).contains(x);
                if k < fs.len() - 1 {
                    assert(p[k] == fs[k]);
                }
            }
            if spec_set_conflicts(p, fa).contains(x) {
                let k = choose|k: int|
                    0 <= k < p.len() && !spec_filtered_compatible(#[trigger] p[k], fa) && spec_conflicts(
                        p[k].spec_access(),
                        fa.spec_access(),
                    ).contains(x);
                assert(fs[k] == p[k]);
            }
        }
    }
}

/// Whether every `usize` is an index of the key type.
pub open spec fn all_indices_fit<T: SparseSetIndex>() -> bool {
    forall|i: usize| #[trigger] T::spec_index_fits(i)
}

/// The indices of a sequence of keys.
pub open spec fn indices_of<T: SparseSetIndex>(r: Seq<T>) -> Seq<usize> {
    r.map_values(|t: T| t.spec_sparse_set_index())
}

/// A set of filtered accesses together with the union of their accesses.
#[derive(Debug)]
pub struct FilteredAccessSet<T: SparseSetIndex> {
    combined_access: Access<T>,
    filtered_accesses: Vec<FilteredAccess<T>>,
}

impl<T: SparseSetIndex> FilteredAccessSet<T> {
    /// The combined access.
    pub closed spec fn spec_combined(&self) -> Access<T> {
        self.combined_access
    }

    /// The filtered accesses, in the order they were added.
    pub closed spec fn spec_filtered(&self) -> Seq<FilteredAccess<T>> {
        self.filtered_accesses@
    }

    pub closed spec fn wf(&self) -> bool {
        &&& self.combined_access.wf()
        &&& forall|i: int|
            0 <= i < self.filtered_accesses@.len() ==> #[trigger] self.filtered_accesses@[i].wf()
    }

    /// The combined access.
    pub fn combined_access(&self) -> (r: &Access<T>)
        ensures
            *r == self.spec_combined(),
    {
        &self.combined_access
    }

    /// The combined access, for changing in place.
    pub fn combined_access_mut(&mut self) -> (r: &mut Access<T>)
        ensures
            *r == old(self).spec_combined(),
            *final(r) == final(self).spec_combined(),
            final(self).spec_filtered() == old(self).spec_filtered(),
    {
        &mut self.combined_access
    }

    /// The elements on which `filtered_access` conflicts with the filtered
    /// accesses of this set that cannot run beside it; none when its access is
    /// compatible with the combined access. Each index is listed once.
    pub fn get_conflicts(&self, filtered_access: &FilteredAccess<T>) -> (r: Vec<T>)
        requires
            self.wf(),
            filtered_access.wf(),
        ensures
            all_indices_fit::<T>() ==> {
                &&& indices_of(r@).no_duplicates()
                &&& forall|x: usize|
                    #[trigger] indices_of(r@).contains(x) <==> (if spec_is_compatible(
                        filtered_access.spec_access(),
                        self.spec_combined(),
                    ) {
                        Set::<usize>::empty()
                    } else {
                        spec_set_conflicts(self.spec_filtered(), *filtered_access)
                    }).contains(x)
                &&& forall|x: usize|
                    #[trigger] indices_of(r@).contains(x) <==> !spec_is_compatible(
                        filtered_access.spec_access(),
                        self.spec_combined(),
                    ) && exists|k: int|
                        0 <= k < self.spec_filtered().len() && !spec_filtered_compatible(
                            #[trigger] self.spec_filtered()[k],
                            *filtered_access,
                        ) && spec_conflicts(
                            self.spec_filtered()[k].spec_access(),
                            filtered_access.spec_access(),
                        ).contains(x)
            },
    {
        let ghost fits = all_indices_fit::<T>();
        let mut conflicts: Vec<usize> = Vec::new();
        if !filtered_access.access.is_compatible(&self.combined_access) {
            let mut i: usize = 0;
            while i < self.filtered_accesses.len()
                invariant
                    self.wf(),
                    filtered_access.wf(),
                    fits == all_indices_fit::<T>(),
                    i <= self.filtered_accesses@.len(),
                    conflicts@.no_duplicates(),
                    fits ==> forall|x: usize|
                        #[trigger] conflicts@.contains(x) <==> spec_set_conflicts(
                            self.filtered_accesses@.subrange(0, i as int),
                            *filtered_access,
                        ).contains(x),
                decreases self.filtered_accesses@.len() - i,
            {
                let current = &self.filtered_accesses[i];
                let ghost before = conflicts@;
                proof {
                    assert(self.filtered_accesses@[i as int].wf());
                    assert(self.filtered_accesses@.subrange(0, i + 1).drop_last()
                        =~= self.filtered_accesses@.subrange(0, i as int));
                    assert(self.filtered_accesses@.subrange(0, i + 1).last()
                        == self.filtered_accesses@[i as int]);
                }
                if !current.is_compatible(filtered_access) {
                    let found = current.access.get_conflicts(&filtered_access.access);
                    let ghost v = choose|v: Seq<usize>|
                        ascending_listing(
                            v,
                            spec_conflicts(current.spec_access(), filtered_access.spec_access()),
                        ) && #[trigger] keys_of(found@, v);
                    let mut j: usize = 0;
                    while j < found.len()
                        invariant
                            fits == all_indices_fit::<T>(),
                            j <= found@.len(),
                            keys_of(found@, v),
                            conflicts@.no_duplicates(),
                            fits ==> forall|x: usize|
                                #[trigger] conflicts@.contains(x) <==> (before.contains(x)
                                    || v.subrange(0, j as int).contains(x)),
                        decreases found@.len() - j,
                    {
                        let index = found[j].sparse_set_index();
                        proof {
                            if fits {
                                assert(T::spec_index_fits(v[j as int]));
                                assert(index == v[j as int]);
                            }
                            assert(v.subrange(0, j + 1) =~= v.subrange(0, j as int).push(
                                v[j as int],
                            ));
                            broadcast use vstd::seq_lib::group_seq_properties;
                        }
                        if !vec_contains(&conflicts, index) {
                            conflicts.push(index);
                        }
                        j = j + 1;
                    }
                    proof {
                        assert(v.subrange(0, v.len() as int) =~= v);
                        assert(fits ==> forall|x: usize|
                            #[trigger] conflicts@.contains(x) <==> spec_set_conflicts(
                                self.filtered_accesses@.subrange(0, i + 1),
                                *filtered_access,
                            ).contains(x));
                    }
                } else {
                    proof {
                        assert(fits ==> forall|x: usize|
                            #[trigger] conflicts@.contains(x) <==> spec_set_conflicts(
                                self.filtered_accesses@.subrange(0, i + 1),
                                *filtered_access,
                            ).contains(x));
                    }
                }
                i = i + 1;
            }
            proof {
                assert(self.filtered_accesses@.subrange(0, i as int) =~= self.filtered_accesses@);
            }
        }
        let r = keys_from_indices(conflicts);
        proof {
            lemma_set_conflicts_at_any_position(self.spec_filtered(), *filtered_access);
            if fits {
                assert(indices_of(r@) =~= conflicts@);
            }
        }
        r
    }

    /// Adds a filtered access, and its access to the combined access.
    pub fn add(&mut self, filtered_access: FilteredAccess<T>)
        requires
            old(self).wf(),
            filtered_access.wf(),
        ensures
            final(self).wf(),
            final(self).spec_filtered() == old(self).spec_filtered().push(filtered_access),
            final(self).spec_combined().spec_reads_and_writes() == old(self).spec_combined().spec_reads_and_writes().union(
                filtered_access.spec_access().spec_reads_and_writes(),
            ),
            final(self).spec_combined().spec_writes() == old(self).spec_combined().spec_writes().union(filtered_access.spec_access().spec_writes()),
            final(self).spec_combined().spec_reads_all() == (old(self).spec_combined().spec_reads_all() || filtered_access.spec_access().spec_reads_all()),
            final(self).spec_combined().spec_writes_all() == (old(self).spec_combined().spec_writes_all() || filtered_access.spec_access().spec_writes_all()),
    {
        self.combined_access.extend(&filtered_access.access);
        self.filtered_accesses.push(filtered_access);
    }

    /// Adds every filtered access of `filtered_access_set`, and its combined
    /// access to the combined access.
    pub fn extend(&mut self, filtered_access_set: FilteredAccessSet<T>)
        requires
            old(self).wf(),
            filtered_access_set.wf(),
        ensures
            final(self).wf(),
            final(self).spec_filtered() == old(self).spec_filtered()
                + filtered_access_set.spec_filtered(),
            final(self).spec_combined().spec_reads_and_writes() == old(self).spec_combined().spec_reads_and_writes().union(
                filtered_access_set.spec_combined().spec_reads_and_writes(),
            ),
            final(self).spec_combined().spec_writes() == old(self).spec_combined().spec_writes().union(
                filtered_access_set.spec_combined().spec_writes(),
            ),
            final(self).spec_combined().spec_reads_all() == (old(self).spec_combined().spec_reads_all()
                || filtered_access_set.spec_combined().spec_reads_all()),
            final(self).spec_combined().spec_writes_all() == (old(self).spec_combined().spec_writes_all()
                || filtered_access_set.spec_combined().spec_writes_all()),
    {
        self.combined_access.extend(&filtered_access_set.combined_access);
        let mut others = filtered_access_set.filtered_accesses;
        self.filtered_accesses.append(&mut others);
    }

    /// Removes every access.
    pub fn clear(&mut self)
        requires
            old(self).wf(),
        ensures
            final(self).wf(),
            final(self).spec_filtered() == Seq::<FilteredAccess<T>>::empty(),
            final(self).spec_combined().spec_reads_and_writes() == Set::<usize>::empty(),
            final(self).spec_combined().spec_writes() == Set::<usize>::empty(),
            !final(self).spec_combined().spec_reads_all(),
            !final(self).spec_combined().spec_writes_all(),
    {
        self.combined_access.clear();
        self.filtered_accesses.clear();
    }
}

impl<T: SparseSetIndex> Default for FilteredAccessSet<T> {
    /// No access.
    fn default() -> (r: Self)
        ensures
            r.wf(),
            r.spec_filtered() == Seq::<FilteredAccess<T>>::empty(),
            r.spec_combined().spec_reads_and_writes() == Set::<usize>::empty(),
            r.spec_combined().spec_writes() == Set::<usize>::empty(),
            !r.spec_combined().spec_reads_all(),
            !r.spec_combined().spec_writes_all(),
    {
        Self { combined_access: Access::default(), filtered_accesses: Vec::new() }
    }
}

/// Whether `x` occurs in `v`.
fn vec_contains(v: &Vec<usize>, x: usize) -> (r: bool)
    ensures
        r == v@.contains(x),
{
    let mut i: usize = 0;
    while i < v.len()
        invariant
            i <= v@.len(),
            forall|j: int| 0 <= j < i ==> v@[j] != x,
        decreases v@.len() - i,
    {
        if v[i] == x {
            return true;
        }
        i = i + 1;
    }
    false
}

} // verus!
