//! Contracts of the `fixedbitset` operations that the access sets use.
//!
//! A `FixedBitSet` is described by two names: the set of its enabled bits and
//! its length in bits. Every contract below is read off the crate's source.

use fixedbitset::FixedBitSet;
use vstd::prelude::*;

verus! {

#[verifier::external_type_specification]
#[verifier::external_body]
pub struct ExFixedBitSet(FixedBitSet);

/// The enabled bits of a bit set.
pub uninterp spec fn bitset_ones(s: FixedBitSet) -> Set<usize>;

/// The length of a bit set in bits (enabled and disabled).
pub uninterp spec fn bitset_len(s: FixedBitSet) -> nat;

/// Every enabled bit lies within the length, and the length is a `usize`.
/// Every bit set built by the
/// operations below keeps this.
pub open spec fn bitset_wf(s: FixedBitSet) -> bool {
    &&& forall|b: usize| #[trigger] bitset_ones(s).contains(b) ==> b < bitset_len(s)
    &&& bitset_len(s) <= usize::MAX
}

/// The sequence lists exactly the elements of `s`, in strictly ascending order.
pub open spec fn ascending_listing(v: Seq<usize>, s: Set<usize>) -> bool {
    &&& forall|i: int, j: int| 0 <= i < j < v.len() ==> v[i] < v[j]
    &&& forall|x: usize| #[trigger] s.contains(x) <==> v.contains(x)
}

/// `FixedBitSet::default`: no bits enabled, length zero.
#[verifier::external_body]
pub(crate) fn bitset_default() -> (r: FixedBitSet)
    ensures
        bitset_ones(r) == Set::<usize>::empty(),
        bitset_len(r) == 0,
        bitset_wf(r),
{
    FixedBitSet::default()
}

/// `FixedBitSet::clone`: the same bits and the same length.
#[verifier::external_body]
pub(crate) fn bitset_clone(s: &FixedBitSet) -> (r: FixedBitSet)
    ensures
        bitset_ones(r) == bitset_ones(*s),
        bitset_len(r) == bitset_len(*s),
        bitset_wf(*s) ==> bitset_wf(r),
{
    s.clone()
}

/// `FixedBitSet::grow`: the length becomes at least `bits`; no bit changes.
#[verifier::external_body]
pub(crate) fn bitset_grow(s: &mut FixedBitSet, bits: usize)
    ensures
        bitset_ones(*final(s)) == bitset_ones(*old(s)),
        bitset_len(*final(s)) == if bits > bitset_len(*old(s)) {
            bits as nat
        } else {
            bitset_len(*old(s))
        },
        bitset_wf(*old(s)) ==> bitset_wf(*final(s)),
{
    s.grow(bits)
}

/// `FixedBitSet::insert`: enables `bit`, which must lie within the length.
#[verifier::external_body]
pub(crate) fn bitset_insert(s: &mut FixedBitSet, bit: usize)
    requires
        bit < bitset_len(*old(s)),
    ensures
        bitset_ones(*final(s)) == bitset_ones(*old(s)).insert(bit),
        bitset_len(*final(s)) == bitset_len(*old(s)),
        bitset_wf(*old(s)) ==> bitset_wf(*final(s)),
{
    s.insert(bit)
}

/// `FixedBitSet::contains`: whether `bit` is enabled.
#[verifier::external_body]
pub(crate) fn bitset_contains(s: &FixedBitSet, bit: usize) -> (r: bool)
    ensures
        r == bitset_ones(*s).contains(bit),
{
    s.contains(bit)
}

/// `FixedBitSet::clear`: disables every bit; the length stays.
#[verifier::external_body]
pub(crate) fn bitset_clear(s: &mut FixedBitSet)
    ensures
        bitset_ones(*final(s)) == Set::<usize>::empty(),
        bitset_len(*final(s)) == bitset_len(*old(s)),
        bitset_wf(*old(s)) ==> bitset_wf(*final(s)),
{
    s.clear()
}

/// `FixedBitSet::union_with`: enables every bit of `other`; the length becomes
/// the larger of the two.
#[verifier::external_body]
pub(crate) fn bitset_union_with(s: &mut FixedBitSet, other: &FixedBitSet)
    ensures
        bitset_ones(*final(s)) == bitset_ones(*old(s)).union(bitset_ones(*other)),
        bitset_len(*final(s)) == if bitset_len(*other) >= bitset_len(*old(s)) {
            bitset_len(*other)
        } else {
            bitset_len(*old(s))
        },
        bitset_wf(*old(s)) && bitset_wf(*other) ==> bitset_wf(*final(s)),
{
    s.union_with(other)
}

/// `FixedBitSet::count_ones` over the whole set: the number of enabled bits.
#[verifier::external_body]
pub(crate) fn bitset_count_ones(s: &FixedBitSet) -> (r: usize)
    requires
        bitset_wf(*s),
    ensures
        r == bitset_ones(*s).len(),
{
    s.count_ones(..)
}

/// `FixedBitSet::is_disjoint`: whether no bit is enabled in both.
#[verifier::external_body]
pub(crate) fn bitset_is_disjoint(a: &FixedBitSet, b: &FixedBitSet) -> (r: bool)
    ensures
        r == bitset_ones(*a).disjoint(bitset_ones(*b)),
{
    a.is_disjoint(b)
}

/// `FixedBitSet::ones`, collected: the enabled bits in ascending order.
#[verifier::external_body]
pub(crate) fn bitset_ones_vec(s: &FixedBitSet) -> (r: Vec<usize>)
    ensures
        ascending_listing(r@, bitset_ones(*s)),
{
    s.ones().collect()
}

/// `FixedBitSet::intersection`, collected: the bits enabled in both, in
/// ascending order.
#[verifier::external_body]
pub(crate) fn bitset_intersection_vec(a: &FixedBitSet, b: &FixedBitSet) -> (r: Vec<usize>)
    ensures
        ascending_listing(r@, bitset_ones(*a).intersect(bitset_ones(*b))),
{
    a.intersection(b).collect()
}

/// `FixedBitSet::difference`, collected: the bits enabled in `a` and not in
/// `b`, in ascending order.
#[verifier::external_body]
pub(crate) fn bitset_difference_vec(a: &FixedBitSet, b: &FixedBitSet) -> (r: Vec<usize>)
    ensures
        ascending_listing(r@, bitset_ones(*a).difference(bitset_ones(*b))),
{
    a.difference(b).collect()
}

/// `FixedBitSet::extend`: enables every listed bit, growing the set where a bit
/// lies beyond its length.
#[verifier::external_body]
pub(crate) fn bitset_extend(s: &mut FixedBitSet, bits: Vec<usize>)
    requires
        forall|i: int| 0 <= i < bits@.len() ==> #[trigger] bits@[i] < usize::MAX,
    ensures
        forall|x: usize|
            #[trigger] bitset_ones(*final(s)).contains(x) <==> (bitset_ones(*old(s)).contains(x)
                || bits@.contains(x)),
        bitset_len(*final(s)) >= bitset_len(*old(s)),
        forall|i: int| 0 <= i < bits@.len() ==> #[trigger] bits@[i] < bitset_len(*final(s)),
        bitset_wf(*old(s)) ==> bitset_wf(*final(s)),
{
    s.extend(bits)
}

/// `FixedBitSet::set`: enables or disables `bit`, which must lie within the
/// length.
#[verifier::external_body]
pub(crate) fn bitset_set(s: &mut FixedBitSet, bit: usize, enabled: bool)
    requires
        bit < bitset_len(*old(s)),
    ensures
        bitset_ones(*final(s)) == if enabled {
            bitset_ones(*old(s)).insert(bit)
        } else {
            bitset_ones(*old(s)).remove(bit)
        },
        bitset_len(*final(s)) == bitset_len(*old(s)),
        bitset_wf(*old(s)) ==> bitset_wf(*final(s)),
{
    s.set(bit, enabled)
}

/// `FixedBitSet::len`: the length in bits.
#[verifier::external_body]
pub(crate) fn bitset_length(s: &FixedBitSet) -> (r: usize)
    ensures
        r == bitset_len(*s),
{
    s.len()
}

/// `FixedBitSet::with_capacity`: no bits enabled, length `bits`.
#[verifier::external_body]
pub(crate) fn bitset_with_capacity(bits: usize) -> (r: FixedBitSet)
    ensures
        bitset_ones(r) == Set::<usize>::empty(),
        bitset_len(r) == bits,
        bitset_wf(r),
{
    FixedBitSet::with_capacity(bits)
}

/// `FixedBitSet::new`: no bits enabled, length zero.
#[verifier::external_body]
pub(crate) fn bitset_new() -> (r: FixedBitSet)
    ensures
        bitset_ones(r) == Set::<usize>::empty(),
        bitset_len(r) == 0,
        bitset_wf(r),
{
    FixedBitSet::new()
}

} // verus!
