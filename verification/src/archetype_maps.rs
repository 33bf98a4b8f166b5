//! Sparse vectors and sparse maps keyed by dense indices.

use std::marker::PhantomData;

use vstd::prelude::*;

use crate::index::SparseSetIndex;

verus! {

/// A key that converts to and from a dense `usize` index.
pub trait Index: Copy + Eq {
    /// The dense index of this key.
    spec fn spec_to_usize(self) -> usize;

    /// Whether `index` is represented exactly by a key.
    spec fn spec_fits(index: usize) -> bool;

    fn from_usize(index: usize) -> (r: Self)
        ensures
            Self::spec_fits(index) ==> r.spec_to_usize() == index,
    ;

    fn to_usize(self) -> (r: usize)
        ensures
            r == self.spec_to_usize(),
    ;
}

impl<T> Index for T where T: Copy + Eq + SparseSetIndex {
    open spec fn spec_to_usize(self) -> usize {
        self.spec_sparse_set_index()
    }

    open spec fn spec_fits(index: usize) -> bool {
        T::spec_index_fits(index)
    }

    fn from_usize(index: usize) -> (r: Self) {
        Self::get_sparse_set_index(index)
    }

    fn to_usize(self) -> (r: usize) {
        self.sparse_set_index()
    }
}

} // verus!

verus! {

/// The `usize` index of a key, as the maps below see it.
pub open spec fn key_index<I: Index>(key: I) -> usize {
    key.spec_to_usize()
}

/// Two indices with the same quotient and remainder by `d` are equal.
proof fn lemma_div_mod_unique(a: usize, b: usize, d: usize)
    requires
        d > 0,
        a / d == b / d,
        a % d == b % d,
    ensures
        a == b,
{
    vstd::arithmetic::div_mod::lemma_fundamental_div_mod(a as int, d as int);
    vstd::arithmetic::div_mod::lemma_fundamental_div_mod(b as int, d as int);
}

/// Every set of `usize` values is finite.
pub proof fn lemma_usize_set_finite(s: Set<usize>)
    ensures
        s.finite(),
{
    broadcast use vstd::set_lib::full_set_properties;
    assert(Set::<usize>::full().finite());
    vstd::set_lib::lemma_set_subset_finite(Set::<usize>::full(), s);
}

/// Number of allocated chunks in a chunk list.
pub open spec fn count_allocated<V>(chunks: Seq<Option<Vec<Option<V>>>>) -> nat
    decreases chunks.len(),
{
    if chunks.len() == 0 {
        0
    } else {
        count_allocated(chunks.drop_last()) + if chunks.last() is Some {
            1nat
        } else {
            0nat
        }
    }
}

/// A vector indexed by sparse keys, stored as lazily allocated chunks of
/// `chunk_len` slots each.
pub struct SparseVec<I: Index, V> {
    chunks: Vec<Option<Vec<Option<V>>>>,
    len: usize,
    chunk_len: usize,
    marker: PhantomData<I>,
}

impl<I: Index, V> View for SparseVec<I, V> {
    type V = Map<usize, V>;

    /// The map from key index to stored value.
    closed spec fn view(&self) -> Map<usize, V> {
        Map::new(|k: usize| self.slot(k) is Some, |k: usize| self.slot(k)->0)
    }
}

impl<I: Index, V> SparseVec<I, V> {
    /// The value stored in the slot of key index `k`, if any.
    closed spec fn slot(&self, k: usize) -> Option<V> {
        if self.chunk_len == 0 {
            None
        } else {
            let ci = (k / self.chunk_len) as int;
            let ii = (k % self.chunk_len) as int;
            if ci < self.chunks@.len() && self.chunks@[ci] is Some && ii
                < self.chunks@[ci]->0@.len() {
                self.chunks@[ci]->0@[ii]
            } else {
                None
            }
        }
    }

    /// The number of slots per chunk.
    pub closed spec fn spec_chunk_len(&self) -> usize {
        self.chunk_len
    }

    /// The entry counter reported by `len`.
    pub closed spec fn spec_len(&self) -> usize {
        self.len
    }

    /// The number of chunks that have been allocated.
    pub closed spec fn spec_allocated_chunks(&self) -> nat {
        count_allocated(self.chunks@)
    }

    /// Every allocated chunk holds `chunk_len` slots, and the entry counter is
    /// at least the number of stored entries.
    pub closed spec fn wf(&self) -> bool {
        &&& forall|i: int|
            0 <= i < self.chunks@.len() && #[trigger] self.chunks@[i] is Some
                ==> self.chunks@[i]->0@.len() == self.chunk_len
        &&& self.len >= self@.dom().len()
    }

    /// Creates an empty vector. Its chunk length is zero whatever `chunk_len`
    /// is given, so no key can be looked up or stored in it.
    pub fn new(chunk_len: usize) -> (r: Self)
        ensures
            r.wf(),
            r@ == Map::<usize, V>::empty(),
            r.spec_len() == 0,
            r.spec_chunk_len() == 0,
            r.spec_allocated_chunks() == 0,
    {
        let r = Self { chunks: Vec::new(), len: 0, chunk_len: 0, marker: PhantomData };
        proof {
            assert(r@ =~= Map::<usize, V>::empty());
        }
        r
    }

    /// Creates an empty vector with chunks of `chunk_len` slots.
    pub fn with_capacity(chunk_len: usize, capacity: usize) -> (r: Self)
        requires
            chunk_len > 0,
        ensures
            r.wf(),
            r@ == Map::<usize, V>::empty(),
            r.spec_len() == 0,
            r.spec_chunk_len() == chunk_len,
            r.spec_allocated_chunks() == 0,
    {
        let num_chunks = capacity / chunk_len;
        let chunks: Vec<Option<Vec<Option<V>>>> = Vec::with_capacity(num_chunks);
        let r = Self { chunks, len: 0, chunk_len, marker: PhantomData };
        proof {
            assert(r@ =~= Map::<usize, V>::empty());
        }
        r
    }

    fn find_chunk(&self, key: I) -> (r: (usize, usize))
        requires
            self.chunk_len > 0,
        ensures
            r.0 == key.spec_to_usize() / self.chunk_len,
            r.1 == key.spec_to_usize() % self.chunk_len,
            r.1 < self.chunk_len,
    {
        let index = key.to_usize();
        (index / self.chunk_len, index % self.chunk_len)
    }

    fn make_chunk(chunk_len: usize) -> (r: Vec<Option<V>>)
        ensures
            r@.len() == chunk_len,
            forall|i: int| 0 <= i < chunk_len ==> #[trigger] r@[i] is None,
    {
        let mut chunk: Vec<Option<V>> = Vec::with_capacity(chunk_len);
        let mut i: usize = 0;
        while i < chunk_len
            invariant
                i <= chunk_len,
                chunk@.len() == i,
                forall|j: int| 0 <= j < i ==> #[trigger] chunk@[j] is None,
            decreases chunk_len - i,
        {
            chunk.push(None);
            i = i + 1;
        }
        chunk
    }

    /// The number of slots in allocated chunks.
    pub fn capacity(&self) -> (r: usize)
        requires
            self.spec_allocated_chunks() * self.spec_chunk_len() <= usize::MAX,
        ensures
            r == self.spec_allocated_chunks() * self.spec_chunk_len(),
    {
        let mut count: usize = 0;
        let mut i: usize = 0;
        while i < self.chunks.len()
            invariant
                i <= self.chunks@.len(),
                count == count_allocated(self.chunks@.subrange(0, i as int)),
                count <= i,
            decreases self.chunks@.len() - i,
        {
            proof {
                assert(self.chunks@.subrange(0, i + 1).drop_last() =~= self.chunks@.subrange(
                    0,
                    i as int,
                ));
            }
            if self.chunks[i].is_some() {
                count = count + 1;
            }
            i = i + 1;
        }
        proof {
            assert(self.chunks@.subrange(0, self.chunks@.len() as int) =~= self.chunks@);
            vstd::arithmetic::mul::lemma_mul_inequality(
                count as int,
                count_allocated(self.chunks@) as int,
                self.chunk_len as int,
            );
        }
        count * self.chunk_len
    }

    /// The entry counter: entries stored since creation, less those removed.
    /// `clear` does not reset it.
    pub fn len(&self) -> (r: usize)
        ensures
            r == self.spec_len(),
    {
        self.len
    }

    pub fn is_empty(&self) -> (r: bool)
        ensures
            r == (self.spec_len() == 0),
    {
        self.len == 0
    }

    /// Empties every slot; allocated chunks stay allocated and the entry
    /// counter is left as it is.
    pub fn clear(&mut self)
        requires
            old(self).wf(),
        ensures
            final(self).wf(),
            final(self)@ == Map::<usize, V>::empty(),
            final(self).spec_len() == old(self).spec_len(),
            final(self).spec_chunk_len() == old(self).spec_chunk_len(),
            final(self).spec_allocated_chunks() == old(self).spec_allocated_chunks(),
    {
        let cl = self.chunk_len;
        let n = self.chunks.len();
        let ghost old_chunks = self.chunks@;
        let mut i: usize = 0;
        while i < n
            invariant
                i <= n,
                n == self.chunks@.len(),
                n == old_chunks.len(),
                cl == self.chunk_len,
                forall|j: int|
                    0 <= j < n ==> (#[trigger] self.chunks@[j] is Some <==> old_chunks[j] is Some),
                forall|j: int|
                    0 <= j < n && #[trigger] self.chunks@[j] is Some ==> self.chunks@[j]->0@.len()
                        == cl,
                forall|j: int, t: int|
                    0 <= j < i && self.chunks@[j] is Some && 0 <= t < cl
                        ==> #[trigger] self.chunks@[j]->0@[t] is None,
                self.len == old(self).len,
            decreases n - i,
        {
            if self.chunks[i].is_some() {
                let fresh = Self::make_chunk(cl);
                self.chunks.set(i, Some(fresh));
            }
            i = i + 1;
        }
        proof {
            assert(self@ =~= Map::<usize, V>::empty());
            lemma_count_allocated_same(old_chunks, self.chunks@);
        }
    }
}

impl<I: Index, V> SparseVec<I, V> {
    /// What a store then a take do, as `insert`, `get` and `remove` state
    /// them: right after `key` gets `value`, the key has that value; after it
    /// is then removed, it has none, and every other key keeps what it had.
    pub proof fn lemma_insert_then_remove(&self, key: I, value: V)
        ensures
            self@.insert(key_index(key), value).dom().contains(key_index(key)),
            self@.insert(key_index(key), value)[key_index(key)] == value,
            !self@.insert(key_index(key), value).remove(key_index(key)).dom().contains(key_index(key)),
            forall|k: usize|
                k != key_index(key) ==> (#[trigger] self@.insert(key_index(key), value).remove(key_index(key)).dom().contains(k)
                    == self@.dom().contains(k)),
    {
    }
}

impl<I: Index, V> SparseVec<I, V> {
    /// Whether a value is stored for `key`.
    pub fn contains(&self, key: I) -> (r: bool)
        requires
            self.spec_chunk_len() > 0,
        ensures
            r == self@.dom().contains(key_index(key)),
    {
        self.get(key).is_some()
    }

    /// The value stored for `key`, if any.
    pub fn get(&self, key: I) -> (r: Option<&V>)
        requires
            self.spec_chunk_len() > 0,
        ensures
            r is Some <==> self@.dom().contains(key_index(key)),
            r is Some ==> *r->0 == self@[key_index(key)],
    {
        let (chunk_index, index_in_chunk) = self.find_chunk(key);
        if chunk_index < self.chunks.len() {
            match &self.chunks[chunk_index] {
                Some(chunk) => {
                    if index_in_chunk < chunk.len() {
                        return chunk[index_in_chunk].as_ref();
                    }
                },
                None => {},
            }
        }
        None
    }

    /// Stores `value` for `key` and returns the value it replaces, if any.
    /// The entry counter grows by one when the key had no value.
    pub fn insert(&mut self, key: I, value: V) -> (r: Option<V>)
        requires
            old(self).wf(),
            old(self).spec_chunk_len() > 0,
            key_index(key) / old(self).spec_chunk_len() < usize::MAX,
            old(self).spec_len() < usize::MAX || old(self)@.dom().contains(key_index(key)),
        ensures
            final(self).wf(),
            final(self)@ == old(self)@.insert(key_index(key), value),
            r is Some <==> old(self)@.dom().contains(key_index(key)),
            r is Some ==> r->0 == old(self)@[key_index(key)],
            final(self).spec_len() == if r is None {
                old(self).spec_len() + 1
            } else {
                old(self).spec_len() as int
            },
            final(self).spec_chunk_len() == old(self).spec_chunk_len(),
    {
        let ghost k = key_index(key);
        let (chunk_index, index_in_chunk) = self.find_chunk(key);
        let cl = self.chunk_len;
        let ghost old_self = *self;
        while self.chunks.len() <= chunk_index
            invariant
                self.chunk_len == cl,
                cl > 0,
                self.len == old_self.len,
                chunk_index < usize::MAX,
                self.chunks@.len() >= old_self.chunks@.len(),
                forall|j: int|
                    0 <= j < old_self.chunks@.len() ==> #[trigger] self.chunks@[j]
                        == old_self.chunks@[j],
                forall|j: int|
                    old_self.chunks@.len() <= j < self.chunks@.len() ==> #[trigger] self.chunks@[j]
                        is None,
            decreases chunk_index + 1 - self.chunks@.len(),
        {
            self.chunks.push(None);
        }
        proof {
            assert forall|k2: usize| #[trigger] self.slot(k2) == old_self.slot(k2) by {}
            assert(self@ =~= old_self@);
        }
        let ghost mid = *self;
        let mut taken: Option<Vec<Option<V>>> = None;
        self.chunks.set_and_swap(chunk_index, &mut taken);
        let mut chunk = match taken {
            Some(c) => c,
            None => Self::make_chunk(cl),
        };
        let mut slot_value = Some(value);
        chunk.set_and_swap(index_in_chunk, &mut slot_value);
        self.chunks.set(chunk_index, Some(chunk));
        proof {
            assert forall|k2: usize| #[trigger] self.slot(k2) == (if k2 == k {
                Some(value)
            } else {
                mid.slot(k2)
            }) by {
                if k2 / cl == chunk_index && k2 % cl == index_in_chunk {
                    lemma_div_mod_unique(k2, k, cl);
                }
                if k2 == k {
                } else if k2 / cl == chunk_index {
                    vstd::arithmetic::div_mod::lemma_mod_bound(k2 as int, cl as int);
                }
            }
            assert(self@ =~= old_self@.insert(k, value));
            lemma_usize_set_finite(old_self@.dom());
            assert(slot_value == old_self.slot(k));
            assert(slot_value is Some <==> old_self@.dom().contains(k));
            if slot_value is Some {
                assert(old_self@.dom().insert(k) =~= old_self@.dom());
            }
            assert(forall|i: int|
                0 <= i < self.chunks@.len() && #[trigger] self.chunks@[i] is Some
                    ==> self.chunks@[i]->0@.len() == self.chunk_len);
        }
        if slot_value.is_none() {
            self.len = self.len + 1;
        }
        proof {
            assert(self@.dom() =~= old_self@.dom().insert(k));
            if slot_value is None {
                assert(self@.dom().len() == old_self@.dom().len() + 1);
            }
        }
        slot_value
    }

    /// Removes the value stored for `key` and returns it, if any.
    /// The entry counter shrinks by one when a value was removed.
    pub fn remove(&mut self, key: I) -> (r: Option<V>)
        requires
            old(self).wf(),
            old(self).spec_chunk_len() > 0,
        ensures
            final(self).wf(),
            final(self)@ == old(self)@.remove(key_index(key)),
            r is Some <==> old(self)@.dom().contains(key_index(key)),
            r is Some ==> r->0 == old(self)@[key_index(key)],
            final(self).spec_len() == if r is Some {
                old(self).spec_len() - 1
            } else {
                old(self).spec_len() as int
            },
            final(self).spec_chunk_len() == old(self).spec_chunk_len(),
            final(self).spec_allocated_chunks() == old(self).spec_allocated_chunks(),
    {
        let ghost k = key_index(key);
        let (chunk_index, index_in_chunk) = self.find_chunk(key);
        let cl = self.chunk_len;
        let ghost old_self = *self;
        if chunk_index < self.chunks.len() && self.chunks[chunk_index].is_some() {
            let mut taken: Option<Vec<Option<V>>> = None;
            self.chunks.set_and_swap(chunk_index, &mut taken);
            let mut chunk = taken.unwrap();
            let mut slot_value: Option<V> = None;
            chunk.set_and_swap(index_in_chunk, &mut slot_value);
            self.chunks.set(chunk_index, Some(chunk));
            proof {
                assert forall|k2: usize| #[trigger] self.slot(k2) == (if k2 == k {
                    None
                } else {
                    old_self.slot(k2)
                }) by {
                    if k2 / cl == chunk_index && k2 % cl == index_in_chunk {
                        lemma_div_mod_unique(k2, k, cl);
                    }
                }
                assert(self@ =~= old_self@.remove(k));
                lemma_usize_set_finite(old_self@.dom());
                lemma_count_allocated_same(old_self.chunks@, self.chunks@);
                assert(slot_value == old_self.slot(k));
                assert(slot_value is Some <==> old_self@.dom().contains(k));
                if slot_value is None {
                    assert(old_self@.dom().remove(k) =~= old_self@.dom());
                }
                assert(forall|i: int|
                    0 <= i < self.chunks@.len() && #[trigger] self.chunks@[i] is Some
                        ==> self.chunks@[i]->0@.len() == self.chunk_len);
            }
            if slot_value.is_some() {
                self.len = self.len - 1;
            }
            proof {
                assert(self@.dom() =~= old_self@.dom().remove(k));
                if slot_value is Some {
                    assert(self@.dom().len() == old_self@.dom().len() - 1);
                }
            }
            slot_value
        } else {
            proof {
                assert(self@ =~= old_self@.remove(k));
            }
            None
        }
    }
}

impl<I: Index, V> SparseVec<I, V> {
    /// The value stored for `key`, which must be present.
    pub fn get_unchecked(&self, key: I) -> (r: &V)
        requires
            self.spec_chunk_len() > 0,
            self@.dom().contains(key_index(key)),
        ensures
            *r == self@[key_index(key)],
    {
        self.get(key).unwrap()
    }


}

/// Chunk lists with the same allocation pattern have the same allocated count.
proof fn lemma_count_allocated_same<V>(a: Seq<Option<Vec<Option<V>>>>, b: Seq<Option<Vec<Option<V>>>>)
    requires
        a.len() == b.len(),
        forall|j: int| 0 <= j < a.len() ==> (#[trigger] a[j] is Some <==> b[j] is Some),
    ensures
        count_allocated(a) == count_allocated(b),
    decreases a.len(),
{
    if a.len() > 0 {
        lemma_count_allocated_same(a.drop_last(), b.drop_last());
    }
}

} // verus!

verus! {

/// A map from sparse keys to values stored densely: `sparse` maps each key to
/// its position in `dense` (the keys) and `data` (the values).
pub struct SparseMap<I: Index, V> {
    sparse: SparseVec<I, I>,
    dense: Vec<I>,
    data: Vec<V>,
}

impl<I: Index, V> View for SparseMap<I, V> {
    type V = Map<usize, V>;

    /// The map from key index to value.
    closed spec fn view(&self) -> Map<usize, V> {
        Map::new(
            |k: usize| self.sparse@.dom().contains(k),
            |k: usize| self.data@[self.sparse@[k].spec_to_usize() as int],
        )
    }
}

impl<I: Index, V> SparseMap<I, V> {
    /// The keys in dense order.
    pub closed spec fn spec_keys(&self) -> Seq<I> {
        self.dense@
    }

    /// The values in dense order.
    pub closed spec fn spec_values(&self) -> Seq<V> {
        self.data@
    }

    /// The chunk length of the key-to-position index.
    pub closed spec fn spec_chunk_len(&self) -> usize {
        self.sparse.spec_chunk_len()
    }

    /// The entry counter of the key-to-position index (see `SparseVec::len`).
    pub closed spec fn spec_counter(&self) -> usize {
        self.sparse.spec_len()
    }

    /// The position index and the dense arrays agree: the key at position `i`
    /// maps to `i`, and every indexed key sits at its position.
    pub closed spec fn wf(&self) -> bool {
        &&& self.sparse.wf()
        &&& self.dense@.len() == self.data@.len()
        &&& forall|i: int|
            #![trigger self.dense@[i]]
            0 <= i < self.dense@.len() ==> {
                &&& self.sparse@.dom().contains(key_index(self.dense@[i]))
                &&& self.sparse@[key_index(self.dense@[i])].spec_to_usize() == i
            }
        &&& forall|k: usize|
            #![trigger self.sparse@[k]]
            self.sparse@.dom().contains(k) ==> {
                &&& self.sparse@[k].spec_to_usize() < self.dense@.len()
                &&& key_index(self.dense@[self.sparse@[k].spec_to_usize() as int]) == k
            }
    }

    /// The dense arrays describe the map: the key indices at the dense
    /// positions are exactly the keys of the map, each once, and the value at a
    /// position is the value of the key there.
    pub proof fn lemma_dense_matches_view(&self)
        requires
            self.wf(),
        ensures
            self.spec_keys().len() == self.spec_values().len(),
            forall|i: int|
                #![trigger self.spec_keys()[i]]
                0 <= i < self.spec_keys().len() ==> self@.dom().contains(
                    key_index(self.spec_keys()[i]),
                ) && self@[key_index(self.spec_keys()[i])] == self.spec_values()[i],
            forall|k: usize|
                #![trigger self@.dom().contains(k)]
                self@.dom().contains(k) ==> exists|i: int|
                    0 <= i < self.spec_keys().len() && key_index(self.spec_keys()[i]) == k,
            forall|i: int, j: int|
                0 <= i < self.spec_keys().len() && 0 <= j < self.spec_keys().len() && i != j
                    ==> key_index(self.spec_keys()[i]) != key_index(self.spec_keys()[j]),
    {
        assert forall|k: usize| #![trigger self@.dom().contains(k)] self@.dom().contains(k) implies exists|i: int|
            0 <= i < self.spec_keys().len() && key_index(self.spec_keys()[i]) == k by {
            assert(self.sparse@.dom().contains(k));
            let i = self.sparse@[k].spec_to_usize() as int;
            assert(0 <= i < self.spec_keys().len() && key_index(self.spec_keys()[i]) == k);
        }
        assert forall|i: int, j: int|
            0 <= i < self.spec_keys().len() && 0 <= j < self.spec_keys().len() && i != j
            implies key_index(self.spec_keys()[i]) != key_index(self.spec_keys()[j]) by {
            assert(self.sparse@[key_index(self.dense@[i])].spec_to_usize() == i);
            assert(self.sparse@[key_index(self.dense@[j])].spec_to_usize() == j);
        }
    }

    /// Creates an empty map. Its index gets chunk length zero whatever
    /// `chunk_len` is given (see `SparseVec::new`), so no key can be looked up
    /// or stored in it.
    pub fn new(chunk_len: usize) -> (r: Self)
        ensures
            r.wf(),
            r@ == Map::<usize, V>::empty(),
            r.spec_keys() == Seq::<I>::empty(),
            r.spec_values() == Seq::<V>::empty(),
            r.spec_chunk_len() == 0,
            r.spec_counter() == 0,
    {
        let r = Self { sparse: SparseVec::new(chunk_len), dense: Vec::new(), data: Vec::new() };
        proof {
            assert(r@ =~= Map::<usize, V>::empty());
        }
        r
    }

    /// Creates an empty map whose index uses chunks of `chunk_len` slots.
    pub fn with_capacity(chunk_len: usize, capacity: usize) -> (r: Self)
        requires
            chunk_len > 0,
        ensures
            r.wf(),
            r@ == Map::<usize, V>::empty(),
            r.spec_keys() == Seq::<I>::empty(),
            r.spec_values() == Seq::<V>::empty(),
            r.spec_chunk_len() == chunk_len,
            r.spec_counter() == 0,
    {
        let r = Self {
            sparse: SparseVec::with_capacity(chunk_len, capacity),
            dense: Vec::with_capacity(capacity),
            data: Vec::with_capacity(capacity),
        };
        proof {
            assert(r@ =~= Map::<usize, V>::empty());
        }
        r
    }

    /// The number of entries that the key array can hold without reallocating:
    /// at least the number of entries; beyond that it depends on the
    /// allocator.
    pub fn capacity(&self) -> (r: usize)
        ensures
            r >= self.spec_keys().len(),
    {
        crate::table::vec_capacity(&self.dense)
    }

    /// The number of entries.
    pub fn len(&self) -> (r: usize)
        requires
            self.wf(),
        ensures
            r == self@.dom().len(),
            r == self.spec_keys().len(),
    {
        proof {
            self.lemma_len();
        }
        self.dense.len()
    }

    proof fn lemma_len(&self)
        requires
            self.wf(),
        ensures
            self@.dom().len() == self.dense@.len(),
    {
        lemma_usize_set_finite(self@.dom());
        let f = |i: int| key_index(self.dense@[i]);
        let dom_seq = Set::new(|i: int| 0 <= i < self.dense@.len());
        assert(dom_seq =~= vstd::set_lib::set_int_range(0, self.dense@.len() as int));
        vstd::set_lib::lemma_int_range(0, self.dense@.len() as int);
        let img = dom_seq.map(f);
        assert forall|a: int, b: int| dom_seq.contains(a) && dom_seq.contains(b) && f(a) == f(b)
            implies a == b by {
            assert(self.sparse@[key_index(self.dense@[a])].spec_to_usize() == a);
            assert(self.sparse@[key_index(self.dense@[b])].spec_to_usize() == b);
        }
        assert(img =~= self@.dom()) by {
            assert forall|k: usize| self@.dom().contains(k) implies img.contains(k) by {
                let i = self.sparse@[k].spec_to_usize() as int;
                assert(dom_seq.contains(i) && f(i) == k);
            }
        }
        vstd::set_lib::lemma_map_size(dom_seq, img, f);
    }

    pub fn is_empty(&self) -> (r: bool)
        requires
            self.wf(),
        ensures
            r == (self@.dom().len() == 0),
    {
        proof {
            self.lemma_len();
        }
        self.dense.len() == 0
    }

    /// Removes every entry; the index keeps its chunk length and its entry
    /// counter.
    pub fn clear(&mut self)
        requires
            old(self).wf(),
        ensures
            final(self).wf(),
            final(self)@ == Map::<usize, V>::empty(),
            final(self).spec_keys() == Seq::<I>::empty(),
            final(self).spec_values() == Seq::<V>::empty(),
            final(self).spec_chunk_len() == old(self).spec_chunk_len(),
            final(self).spec_counter() == old(self).spec_counter(),
    {
        self.sparse.clear();
        self.dense.clear();
        self.data.clear();
        proof {
            assert(self@ =~= Map::<usize, V>::empty());
        }
    }

    /// Whether `key` has a value.
    pub fn contains_key(&self, key: I) -> (r: bool)
        requires
            self.spec_chunk_len() > 0,
        ensures
            r == self@.dom().contains(key_index(key)),
    {
        self.sparse.contains(key)
    }

    /// The dense position of `key`, as a key value, if it has one.
    pub fn get_dense(&self, key: I) -> (r: Option<&I>)
        requires
            self.wf(),
            self.spec_chunk_len() > 0,
        ensures
            r is Some <==> self@.dom().contains(key_index(key)),
            r is Some ==> {
                let i = r->0.spec_to_usize() as int;
                &&& 0 <= i < self.spec_keys().len()
                &&& key_index(self.spec_keys()[i]) == key_index(key)
                &&& self.spec_values()[i] == self@[key_index(key)]
            },
    {
        self.sparse.get(key)
    }

    /// The value of `key`, if it has one.
    pub fn get(&self, key: I) -> (r: Option<&V>)
        requires
            self.wf(),
            self.spec_chunk_len() > 0,
        ensures
            r is Some <==> self@.dom().contains(key_index(key)),
            r is Some ==> *r->0 == self@[key_index(key)],
    {
        match self.sparse.get(key) {
            Some(dense) => Some(&self.data[dense.to_usize()]),
            None => None,
        }
    }

    /// The value of `key`, which must be present.
    pub fn get_unchecked(&self, key: I) -> (r: &V)
        requires
            self.wf(),
            self.spec_chunk_len() > 0,
            self@.dom().contains(key_index(key)),
        ensures
            *r == self@[key_index(key)],
    {
        let dense = self.sparse.get_unchecked(key);
        &self.data[dense.to_usize()]
    }

    /// The value of `key`, to change in place, if it has one. The key keeps
    /// its position, so the map stays well formed and the key gets whatever
    /// value the reference is left holding.
    pub fn get_mut(&mut self, key: I) -> (r: Option<&mut V>)
        requires
            old(self).wf(),
            old(self).spec_chunk_len() > 0,
        ensures
            r is Some <==> old(self)@.dom().contains(key_index(key)),
            r is None ==> *final(self) == *old(self),
            r matches Some(v) ==> {
                &&& *v == old(self)@[key_index(key)]
                &&& final(self).wf()
                &&& final(self)@ == old(self)@.insert(key_index(key), *final(v))
                &&& final(self).spec_keys() == old(self).spec_keys()
                &&& final(self).spec_chunk_len() == old(self).spec_chunk_len()
                &&& final(self).spec_counter() == old(self).spec_counter()
            },
    {
        match self.sparse.get(key) {
            Some(dense) => Some(&mut self.data[dense.to_usize()]),
            None => None,
        }
    }

    /// Sets the value of `key` and returns the value it replaces, if any. A new
    /// key is appended at the end of the dense arrays.
    pub fn insert(&mut self, key: I, value: V) -> (r: Option<V>)
        requires
            old(self).wf(),
            old(self).spec_chunk_len() > 0,
            key_index(key) / old(self).spec_chunk_len() < usize::MAX,
            !old(self)@.dom().contains(key_index(key)) ==> {
                &&& old(self).spec_counter() < usize::MAX
                &&& I::spec_fits(old(self).spec_keys().len() as usize)
            },
        ensures
            final(self).wf(),
            final(self)@ == old(self)@.insert(key_index(key), value),
            r is Some <==> old(self)@.dom().contains(key_index(key)),
            r is Some ==> r->0 == old(self)@[key_index(key)],
            r is Some ==> final(self).spec_keys() == old(self).spec_keys(),
            r is None ==> final(self).spec_keys() == old(self).spec_keys().push(key),
            r is None ==> final(self).spec_values() == old(self).spec_values().push(value),
            final(self).spec_chunk_len() == old(self).spec_chunk_len(),
    {
        let ghost k = key_index(key);
        let ghost old_self = *self;
        let found: Option<I> = match self.sparse.get(key) {
            Some(dense) => Some(*dense),
            None => None,
        };
        match found {
            Some(dense) => {
                let mut slot = value;
                self.data.set_and_swap(dense.to_usize(), &mut slot);
                proof {
                    assert(self@ =~= old_self@.insert(k, value));
                }
                Some(slot)
            },
            None => {
                let dense = I::from_usize(self.dense.len());
                self.sparse.insert(key, dense);
                self.dense.push(key);
                self.data.push(value);
                proof {
                    let n = old_self.dense@.len() as int;
                    assert forall|i: int| #![trigger self.dense@[i]] 0 <= i < self.dense@.len() implies {
                        &&& self.sparse@.dom().contains(key_index(self.dense@[i]))
                        &&& self.sparse@[key_index(self.dense@[i])].spec_to_usize() == i
                    } by {
                        if i < n {
                            assert(old_self.dense@[i] == self.dense@[i]);
                            assert(key_index(self.dense@[i]) != k);
                        }
                    }
                    assert forall|k2: usize| #![trigger self.sparse@[k2]] self.sparse@.dom().contains(k2) implies {
                        &&& self.sparse@[k2].spec_to_usize() < self.dense@.len()
                        &&& key_index(self.dense@[self.sparse@[k2].spec_to_usize() as int]) == k2
                    } by {
                        if k2 != k {
                            assert(old_self.sparse@[k2] == self.sparse@[k2]);
                        }
                    }
                    assert(self@ =~= old_self@.insert(k, value));
                }
                None
            },
        }
    }

    /// Removes the value of `key`. A key that has a value is outside this
    /// contract: the position fix-up after the removal looks up the removed
    /// key itself, which is no longer indexed, and fails.
    pub fn remove(&mut self, key: I) -> (r: Option<V>)
        requires
            old(self).wf(),
            old(self).spec_chunk_len() > 0,
            !old(self)@.dom().contains(key_index(key)),
        ensures
            final(self).wf(),
            r is None,
            final(self)@ == old(self)@,
            final(self).spec_keys() == old(self).spec_keys(),
            final(self).spec_values() == old(self).spec_values(),
            final(self).spec_chunk_len() == old(self).spec_chunk_len(),
            final(self).spec_counter() == old(self).spec_counter(),
    {
        match self.sparse.remove(key) {
            Some(dense) => {
                let index = dense.to_usize();
                let value = self.data.swap_remove(index);
                let swapped_key = self.dense.swap_remove(index);
                let fixed = self.sparse.get(swapped_key);
                proof {
                    assert(fixed is None);
                }
                Some(value)
            },
            None => {
                proof {
                    assert(self.sparse@ =~= old(self).sparse@);
                    assert(self@ =~= old(self)@);
                }
                None
            },
        }
    }



}

impl<I: Index, V> SparseMap<I, V> {
    /// The keys in dense order.
    pub fn keys(&self) -> (r: Vec<I>)
        ensures
            r@ == self.spec_keys(),
    {
        let mut r: Vec<I> = Vec::with_capacity(self.dense.len());
        let mut i: usize = 0;
        while i < self.dense.len()
            invariant
                i <= self.dense@.len(),
                r@ == self.dense@.subrange(0, i as int),
            decreases self.dense@.len() - i,
        {
            r.push(self.dense[i]);
            i = i + 1;
            proof {
                assert(r@ =~= self.dense@.subrange(0, i as int));
            }
        }
        proof {
            assert(r@ =~= self.dense@);
        }
        r
    }

    /// The values in dense order.
    pub fn values(&self) -> (r: &[V])
        ensures
            r@ == self.spec_values(),
    {
        self.data.as_slice()
    }

    /// The values in dense order, for changing in place. The keys stay where
    /// they are; a slice keeps its length, so the map stays well formed.
    pub fn values_mut(&mut self) -> (r: &mut [V])
        requires
            old(self).wf(),
        ensures
            final(r)@.len() == r@.len() ==> final(self).wf(),
            r@ == old(self).spec_values(),
            final(r)@ == final(self).spec_values(),
            final(self).spec_keys() == old(self).spec_keys(),
            final(self).spec_chunk_len() == old(self).spec_chunk_len(),
            final(self).spec_counter() == old(self).spec_counter(),
    {
        self.data.as_mut_slice()
    }

    /// The entries as key and value pairs, in dense order.
    pub fn iter(&self) -> (r: Vec<(I, &V)>)
        requires
            self.wf(),
        ensures
            r@.len() == self.spec_keys().len(),
            forall|i: int|
                #![trigger r@[i]]
                0 <= i < r@.len() ==> r@[i].0 == self.spec_keys()[i] && *r@[i].1
                    == self.spec_values()[i],
    {
        let mut r: Vec<(I, &V)> = Vec::with_capacity(self.dense.len());
        let mut i: usize = 0;
        while i < self.dense.len()
            invariant
                self.wf(),
                i <= self.dense@.len(),
                r@.len() == i,
                forall|j: int|
                    #![trigger r@[j]]
                    0 <= j < i ==> r@[j].0 == self.dense@[j] && *r@[j].1 == self.data@[j],
            decreases self.dense@.len() - i,
        {
            r.push((self.dense[i], &self.data[i]));
            i = i + 1;
        }
        r
    }
}

} // verus!

verus! {

/// `a + b` as a `usize` sum that wraps around past `usize::MAX`.
pub open spec fn wrapping_sum(a: int, b: int) -> int {
    if a + b > usize::MAX {
        a + b - usize::MAX - 1
    } else {
        a + b
    }
}

/// The indices `i < n` at which `lo` holds a value, in ascending order.
pub open spec fn low_key_indices<V>(lo: Seq<Option<V>>, n: int) -> Seq<usize>
    decreases n,
{
    if n <= 0 {
        Seq::empty()
    } else if lo[n - 1] is Some {
        low_key_indices(lo, n - 1).push((n - 1) as usize)
    } else {
        low_key_indices(lo, n - 1)
    }
}

/// The values among the first `n` slots of `lo`, in slot order.
pub open spec fn low_values<V>(lo: Seq<Option<V>>, n: int) -> Seq<V>
    decreases n,
{
    if n <= 0 {
        Seq::empty()
    } else if lo[n - 1] is Some {
        low_values(lo, n - 1).push(lo[n - 1]->0)
    } else {
        low_values(lo, n - 1)
    }
}

/// Slots that are all empty hold no keys and no values.
proof fn lemma_low_all_empty<V>(lo: Seq<Option<V>>, n: int)
    requires
        n <= lo.len(),
        forall|j: int| 0 <= j < n ==> #[trigger] lo[j] is None,
    ensures
        low_key_indices(lo, n) == Seq::<usize>::empty(),
        low_values(lo, n) == Seq::<V>::empty(),
    decreases n,
{
    if n > 0 {
        lemma_low_all_empty(lo, n - 1);
    }
}

proof fn lemma_low_lengths<V>(lo: Seq<Option<V>>, n: int)
    requires
        0 <= n <= lo.len(),
        n <= usize::MAX + 1,
    ensures
        low_key_indices(lo, n).len() == low_values(lo, n).len(),
        low_key_indices(lo, n).len() <= n,
        forall|j: int|
            0 <= j < low_key_indices(lo, n).len() ==> {
                &&& #[trigger] low_key_indices(lo, n)[j] < n
                &&& lo[low_key_indices(lo, n)[j] as int] is Some
                &&& lo[low_key_indices(lo, n)[j] as int]->0 == low_values(lo, n)[j]
            },
    decreases n,
{
    if n > 0 {
        lemma_low_lengths(lo, n - 1);
        let a = low_key_indices(lo, n - 1);
        let b = low_values(lo, n - 1);
        if lo[n - 1] is Some {
            assert forall|j: int| 0 <= j < low_key_indices(lo, n).len() implies {
                &&& #[trigger] low_key_indices(lo, n)[j] < n
                &&& lo[low_key_indices(lo, n)[j] as int] is Some
                &&& lo[low_key_indices(lo, n)[j] as int]->0 == low_values(lo, n)[j]
            } by {
                if j < a.len() {
                    assert(low_key_indices(lo, n)[j] == a[j]);
                    assert(low_values(lo, n)[j] == b[j]);
                }
            }
        }
    }
}

/// The filled slots among the first `n` are all listed, in ascending order.
proof fn lemma_low_complete<V>(lo: Seq<Option<V>>, n: int)
    requires
        0 <= n <= lo.len(),
        n <= usize::MAX + 1,
    ensures
        forall|k: int| 0 <= k < n && lo[k] is Some ==> #[trigger] low_key_indices(lo, n).contains(k as usize),
        forall|i: int, j: int|
            0 <= i < j < low_key_indices(lo, n).len() ==> #[trigger] low_key_indices(lo, n)[i] < #[trigger] low_key_indices(
                lo,
                n,
            )[j],
    decreases n,
{
    if n > 0 {
        lemma_low_complete(lo, n - 1);
        lemma_low_lengths(lo, n - 1);
        let a = low_key_indices(lo, n - 1);
        let t = low_key_indices(lo, n);
        if lo[n - 1] is Some {
            assert(t == a.push((n - 1) as usize));
            assert forall|k: int| 0 <= k < n && lo[k] is Some implies #[trigger] t.contains(k as usize) by {
                if k < n - 1 {
                    assert(a.contains(k as usize));
                    let w = choose|w: int| 0 <= w < a.len() && a[w] == k as usize;
                    assert(t[w] == k as usize);
                } else {
                    assert(t[t.len() - 1] == k as usize);
                }
            }
            assert forall|i: int, j: int| 0 <= i < j < t.len() implies #[trigger] t[i] < #[trigger] t[j] by {
                if j < a.len() {
                    assert(t[i] == a[i] && t[j] == a[j]);
                } else {
                    assert(t[i] == a[i]);
                    assert(a[i] < n - 1);
                }
            }
        }
    }
}

/// The number of slots of `lo` that hold a value.
pub open spec fn count_low<V>(lo: Seq<Option<V>>) -> nat {
    low_key_indices(lo, lo.len() as int).len()
}

/// The number of low slots: keys below it are held in a flat array.
pub open spec fn low_slot_count() -> usize {
    256
}

/// A sparse map whose keys below 256 are held in a flat array and whose other
/// keys go to a `SparseMap`.
pub struct OptimizedSparseMap<I: Index, V: Copy> {
    lo: Vec<Option<V>>,
    hi: SparseMap<I, V>,
}

impl<I: Index, V: Copy> View for OptimizedSparseMap<I, V> {
    type V = Map<usize, V>;

    /// The map from key index to value.
    closed spec fn view(&self) -> Map<usize, V> {
        Map::new(
            |k: usize|
                if k < self.lo@.len() {
                    self.lo@[k as int] is Some
                } else {
                    self.hi@.dom().contains(k)
                },
            |k: usize|
                if k < self.lo@.len() {
                    self.lo@[k as int]->0
                } else {
                    self.hi@[k]
                },
        )
    }
}

impl<I: Index, V: Copy> OptimizedSparseMap<I, V> {
    /// The chunk length of the map that holds the high keys.
    pub closed spec fn spec_hi_chunk_len(&self) -> usize {
        self.hi.spec_chunk_len()
    }

    /// The entry counter of the map that holds the high keys.
    pub closed spec fn spec_hi_counter(&self) -> usize {
        self.hi.spec_counter()
    }

    /// The number of entries of the map that holds the high keys.
    pub closed spec fn spec_hi_len(&self) -> nat {
        self.hi.spec_keys().len()
    }

    /// The key indices in the order `keys` gives them: low keys ascending,
    /// then high keys in their dense order.
    pub closed spec fn spec_key_indices(&self) -> Seq<usize> {
        low_key_indices(self.lo@, self.lo@.len() as int) + self.hi.spec_keys().map_values(
            |k: I| key_index(k),
        )
    }

    /// The values in the order `values` gives them.
    pub closed spec fn spec_values(&self) -> Seq<V> {
        low_values(self.lo@, self.lo@.len() as int) + self.hi.spec_values()
    }

    /// The flat array has its 256 slots, and the high map is well formed and
    /// holds only keys from 256 up.
    pub closed spec fn wf(&self) -> bool {
        &&& self.lo@.len() == low_slot_count()
        &&& self.hi.wf()
        &&& forall|k: usize| #[trigger] self.hi@.dom().contains(k) ==> k >= low_slot_count()
    }

    /// The listings describe the map: the key indices that `keys` gives are
    /// exactly the keys of the map, each once, and the value that `values`
    /// gives at a position is the value of the key there.
    pub proof fn lemma_listing_matches_view(&self)
        requires
            self.wf(),
        ensures
            self.spec_key_indices().len() == self.spec_values().len(),
            self.spec_key_indices().no_duplicates(),
            forall|j: int|
                #![trigger self.spec_key_indices()[j]]
                0 <= j < self.spec_key_indices().len() ==> self@.dom().contains(self.spec_key_indices()[j])
                    && self@[self.spec_key_indices()[j]] == self.spec_values()[j],
            forall|k: usize| #[trigger] self@.dom().contains(k) ==> self.spec_key_indices().contains(k),
    {
        let n = self.lo@.len() as int;
        lemma_low_lengths(self.lo@, n);
        lemma_low_complete(self.lo@, n);
        self.hi.lemma_dense_matches_view();
        let low = low_key_indices(self.lo@, n);
        let high = self.hi.spec_keys().map_values(|k: I| key_index(k));
        let ki = self.spec_key_indices();
        assert(ki == low + high);
        assert forall|j: int|
            #![trigger ki[j]]
            0 <= j < ki.len() implies self@.dom().contains(ki[j]) && self@[ki[j]] == self.spec_values()[j] by {
            if j < low.len() {
                assert(ki[j] == low[j]);
            } else {
                let jj = j - low.len();
                assert(ki[j] == key_index(self.hi.spec_keys()[jj]));
                assert(self.hi@.dom().contains(key_index(self.hi.spec_keys()[jj])));
            }
        }
        assert forall|k: usize| #[trigger] self@.dom().contains(k) implies ki.contains(k) by {
            if k < n {
                assert(self.lo@[k as int] is Some);
                assert(low_key_indices(self.lo@, n).contains((k as int) as usize));
                assert(low.contains(k));
                let w = choose|w: int| 0 <= w < low.len() && low[w] == k;
                assert(ki[w] == k);
            } else {
                assert(self.hi@.dom().contains(k));
                let i = choose|i: int| 0 <= i < self.hi.spec_keys().len() && key_index(self.hi.spec_keys()[i]) == k;
                assert(ki[low.len() + i] == k);
            }
        }
        assert forall|a: int, b: int| 0 <= a < ki.len() && 0 <= b < ki.len() && a != b implies ki[a] != ki[b] by {
            if a < low.len() && b < low.len() {
                if a < b {
                    assert(low[a] < low[b]);
                } else {
                    assert(low[b] < low[a]);
                }
            } else if a < low.len() {
                let bb = b - low.len();
                assert(self.hi@.dom().contains(key_index(self.hi.spec_keys()[bb])));
                assert(ki[a] == low[a]);
            } else if b < low.len() {
                let aa = a - low.len();
                assert(self.hi@.dom().contains(key_index(self.hi.spec_keys()[aa])));
                assert(ki[b] == low[b]);
            } else {
                assert(ki[a] == key_index(self.hi.spec_keys()[a - low.len()]));
                assert(ki[b] == key_index(self.hi.spec_keys()[b - low.len()]));
            }
        }
    }

    /// Creates an empty map. The high map gets chunk length zero (see
    /// `SparseMap::new`), so keys from 256 up cannot be looked up or stored.
    pub fn new(chunk_len: usize) -> (r: Self)
        ensures
            r.wf(),
            r@ == Map::<usize, V>::empty(),
            r.spec_key_indices() == Seq::<usize>::empty(),
            r.spec_values() == Seq::<V>::empty(),
            r.spec_hi_chunk_len() == 0,
            r.spec_hi_counter() == 0,
    {
        let mut lo: Vec<Option<V>> = Vec::with_capacity(256);
        let mut i: usize = 0;
        while i < 256
            invariant
                i <= 256,
                lo@.len() == i,
                forall|j: int| 0 <= j < i ==> #[trigger] lo@[j] is None,
            decreases 256 - i,
        {
            lo.push(None);
            i = i + 1;
        }
        let r = Self { lo, hi: SparseMap::new(chunk_len) };
        proof {
            assert(r@ =~= Map::<usize, V>::empty());
            lemma_low_all_empty(r.lo@, r.lo@.len() as int);
            assert(r.hi.spec_keys().map_values(|k: I| key_index(k)) =~= Seq::<usize>::empty());
            assert(r.spec_key_indices() =~= Seq::<usize>::empty());
            assert(r.spec_values() =~= Seq::<V>::empty());
        }
        r
    }

    fn is_low_index(&self, index: I) -> (r: bool)
        ensures
            r == (key_index(index) < self.lo@.len()),
    {
        index.to_usize() < self.lo.len()
    }

    /// The number of slots of the flat array plus the capacity of the high
    /// map, which is at least the number of its entries; beyond that it
    /// depends on the allocator. The sum wraps around past `usize::MAX`.
    pub fn capacity(&self) -> (r: usize)
        requires
            self.wf(),
        ensures
            exists|c: usize|
                c >= self.spec_hi_len() && r == #[trigger] wrapping_sum(low_slot_count() as int, c as int),
    {
        let lo_cap = self.lo.len();
        let hi_cap = self.hi.capacity();
        let r = lo_cap.wrapping_add(hi_cap);
        proof {
            assert(r == wrapping_sum(low_slot_count() as int, hi_cap as int));
        }
        r
    }

    proof fn lemma_len(&self)
        requires
            self.wf(),
        ensures
            self@.dom().len() == count_low(self.lo@) + self.hi@.dom().len(),
            self@.dom().finite(),
    {
        lemma_usize_set_finite(self@.dom());
        lemma_usize_set_finite(self.hi@.dom());
        let lows = Set::new(|k: usize| k < self.lo@.len() && self.lo@[k as int] is Some);
        lemma_usize_set_finite(lows);
        assert(self@.dom() =~= lows + self.hi@.dom());
        assert(lows.disjoint(self.hi@.dom()));
        vstd::set_lib::lemma_set_disjoint_lens(lows, self.hi@.dom());
        lemma_low_set_len(self.lo@, self.lo@.len() as int);
        assert(lows =~= low_set(self.lo@, self.lo@.len() as int));
    }

    /// The number of entries.
    pub fn len(&self) -> (r: usize)
        requires
            self.wf(),
            self@.dom().len() <= usize::MAX,
        ensures
            r == self@.dom().len(),
    {
        let mut count: usize = 0;
        let mut i: usize = 0;
        while i < self.lo.len()
            invariant
                i <= self.lo@.len(),
                count == low_key_indices(self.lo@, i as int).len(),
                count <= i,
            decreases self.lo@.len() - i,
        {
            if self.lo[i].is_some() {
                count = count + 1;
            }
            i = i + 1;
        }
        proof {
            self.lemma_len();
            self.hi.lemma_len();
        }
        count + self.hi.len()
    }

    pub fn is_empty(&self) -> (r: bool)
        requires
            self.wf(),
            self@.dom().len() <= usize::MAX,
        ensures
            r == (self@.dom().len() == 0),
    {
        self.len() == 0
    }

    /// Removes every entry.
    pub fn clear(&mut self)
        requires
            old(self).wf(),
        ensures
            final(self).wf(),
            final(self)@ == Map::<usize, V>::empty(),
            final(self).spec_hi_chunk_len() == old(self).spec_hi_chunk_len(),
            final(self).spec_hi_counter() == old(self).spec_hi_counter(),
    {
        let mut i: usize = 0;
        while i < self.lo.len()
            invariant
                i <= self.lo@.len(),
                self.lo@.len() == low_slot_count(),
                forall|j: int| 0 <= j < i ==> #[trigger] self.lo@[j] is None,
                self.hi == old(self).hi,
            decreases self.lo@.len() - i,
        {
            self.lo.set(i, None);
            i = i + 1;
        }
        self.hi.clear();
        proof {
            assert(self@ =~= Map::<usize, V>::empty());
        }
    }

    /// Whether `key` has a value.
    pub fn contains_key(&self, key: I) -> (r: bool)
        requires
            self.wf(),
            key_index(key) >= low_slot_count() ==> self.spec_hi_chunk_len() > 0,
        ensures
            r == self@.dom().contains(key_index(key)),
    {
        self.get(key).is_some()
    }

    /// The value of `key`, if it has one.
    pub fn get(&self, key: I) -> (r: Option<&V>)
        requires
            self.wf(),
            key_index(key) >= low_slot_count() ==> self.spec_hi_chunk_len() > 0,
        ensures
            r is Some <==> self@.dom().contains(key_index(key)),
            r is Some ==> *r->0 == self@[key_index(key)],
    {
        if self.is_low_index(key) {
            self.lo[key.to_usize()].as_ref()
        } else {
            self.hi.get(key)
        }
    }

    /// The value of `key`, to change in place, if it has one; the key gets
    /// whatever value the reference is left holding.
    pub fn get_mut(&mut self, key: I) -> (r: Option<&mut V>)
        requires
            old(self).wf(),
            key_index(key) >= low_slot_count() ==> old(self).spec_hi_chunk_len() > 0,
        ensures
            r is Some <==> old(self)@.dom().contains(key_index(key)),
            r is None ==> *final(self) == *old(self),
            r matches Some(v) ==> {
                &&& *v == old(self)@[key_index(key)]
                &&& final(self).wf()
                &&& final(self)@ == old(self)@.insert(key_index(key), *final(v))
                &&& final(self).spec_hi_chunk_len() == old(self).spec_hi_chunk_len()
                &&& final(self).spec_hi_counter() == old(self).spec_hi_counter()
            },
    {
        if self.is_low_index(key) {
            if self.lo[key.to_usize()].is_none() {
                return None;
            }
            match &mut self.lo[key.to_usize()] {
                Some(v) => Some(v),
                None => {
                    proof {
                        assert(false);
                    }
                    None
                },
            }
        } else {
            self.hi.get_mut(key)
        }
    }

    /// Sets the value of `key` and returns the value it replaces, if any.
    pub fn insert(&mut self, key: I, value: V) -> (r: Option<V>)
        requires
            old(self).wf(),
            key_index(key) >= low_slot_count() ==> {
                &&& old(self).spec_hi_chunk_len() > 0
                &&& key_index(key) / old(self).spec_hi_chunk_len() < usize::MAX
                &&& !old(self)@.dom().contains(key_index(key)) ==> {
                    &&& old(self).spec_hi_counter() < usize::MAX
                    &&& I::spec_fits(old(self).spec_hi_len() as usize)
                }
            },
        ensures
            final(self).wf(),
            final(self)@ == old(self)@.insert(key_index(key), value),
            r is Some <==> old(self)@.dom().contains(key_index(key)),
            r is Some ==> r->0 == old(self)@[key_index(key)],
            final(self)@.dom().finite(),
            final(self)@.dom().len() == old(self)@.dom().len() + if r is None {
                1int
            } else {
                0int
            },
            final(self).spec_hi_chunk_len() == old(self).spec_hi_chunk_len(),
    {
        proof {
            lemma_usize_set_finite(self@.dom());
            lemma_usize_set_finite(self@.dom().insert(key_index(key)));
        }
        let ghost old_self = *self;
        if self.is_low_index(key) {
            let mut slot = Some(value);
            self.lo.set_and_swap(key.to_usize(), &mut slot);
            proof {
                assert(self@ =~= old_self@.insert(key_index(key), value));
            }
            slot
        } else {
            let r = self.hi.insert(key, value);
            proof {
                assert(self@ =~= old_self@.insert(key_index(key), value));
            }
            r
        }
    }

    /// Removes the value of `key` and returns it, if any. A high key that has a
    /// value is outside this contract (see `SparseMap::remove`).
    pub fn remove(&mut self, key: I) -> (r: Option<V>)
        requires
            old(self).wf(),
            key_index(key) >= low_slot_count() ==> {
                &&& old(self).spec_hi_chunk_len() > 0
                &&& !old(self)@.dom().contains(key_index(key))
            },
        ensures
            final(self).wf(),
            final(self)@ == old(self)@.remove(key_index(key)),
            r is Some <==> old(self)@.dom().contains(key_index(key)),
            final(self)@.dom().finite(),
            final(self)@.dom().len() == old(self)@.dom().len() - if r is Some {
                1int
            } else {
                0int
            },
            r is Some ==> r->0 == old(self)@[key_index(key)],
            final(self).spec_hi_chunk_len() == old(self).spec_hi_chunk_len(),
    {
        proof {
            lemma_usize_set_finite(self@.dom());
            lemma_usize_set_finite(self@.dom().remove(key_index(key)));
        }
        let ghost old_self = *self;
        if self.is_low_index(key) {
            let mut slot: Option<V> = None;
            self.lo.set_and_swap(key.to_usize(), &mut slot);
            proof {
                assert(self@ =~= old_self@.remove(key_index(key)));
            }
            slot
        } else {
            let r = self.hi.remove(key);
            proof {
                assert(self@ =~= old_self@.remove(key_index(key)));
            }
            r
        }
    }
}

impl<I: Index, V: Copy> OptimizedSparseMap<I, V> {
    /// The keys: those below 256 in ascending order, then the high keys in
    /// their dense order.
    pub fn keys(&self) -> (r: Vec<I>)
        requires
            self.wf(),
            forall|i: usize| i < low_slot_count() ==> #[trigger] I::spec_fits(i),
        ensures
            r@.len() == self.spec_key_indices().len(),
            forall|j: int|
                #![trigger r@[j]]
                0 <= j < r@.len() ==> key_index(r@[j]) == self.spec_key_indices()[j],
    {
        let mut r: Vec<I> = Vec::new();
        let mut i: usize = 0;
        while i < self.lo.len()
            invariant
                self.wf(),
                forall|i: usize| i < low_slot_count() ==> #[trigger] I::spec_fits(i),
                i <= self.lo@.len(),
                r@.len() == low_key_indices(self.lo@, i as int).len(),
                forall|j: int|
                    #![trigger r@[j]]
                    0 <= j < r@.len() ==> key_index(r@[j]) == low_key_indices(self.lo@, i as int)[j],
            decreases self.lo@.len() - i,
        {
            if self.lo[i].is_some() {
                r.push(I::from_usize(i));
            }
            i = i + 1;
        }
        let hi_keys = self.hi.keys();
        let ghost lows = low_key_indices(self.lo@, self.lo@.len() as int);
        let ghost n = r@.len();
        let mut t: usize = 0;
        while t < hi_keys.len()
            invariant
                t <= hi_keys@.len(),
                hi_keys@ == self.hi.spec_keys(),
                n == lows.len(),
                r@.len() == n + t,
                forall|j: int| #![trigger r@[j]] 0 <= j < n ==> key_index(r@[j]) == lows[j],
                forall|j: int|
                    #![trigger r@[j]]
                    n <= j < n + t ==> key_index(r@[j]) == key_index(hi_keys@[j - n]),
            decreases hi_keys@.len() - t,
        {
            r.push(hi_keys[t]);
            t = t + 1;
        }
        r
    }

    /// The values, in the order of `keys`.
    pub fn values(&self) -> (r: Vec<&V>)
        requires
            self.wf(),
        ensures
            r@.len() == self.spec_values().len(),
            forall|j: int| #![trigger r@[j]] 0 <= j < r@.len() ==> *r@[j] == self.spec_values()[j],
    {
        let mut r: Vec<&V> = Vec::new();
        let mut i: usize = 0;
        while i < self.lo.len()
            invariant
                i <= self.lo@.len(),
                r@.len() == low_values(self.lo@, i as int).len(),
                forall|j: int|
                    #![trigger r@[j]]
                    0 <= j < r@.len() ==> *r@[j] == low_values(self.lo@, i as int)[j],
            decreases self.lo@.len() - i,
        {
            match &self.lo[i] {
                Some(v) => r.push(v),
                None => {},
            }
            i = i + 1;
        }
        let hi_values = self.hi.values();
        let ghost lows = low_values(self.lo@, self.lo@.len() as int);
        let ghost n = r@.len();
        let mut t: usize = 0;
        while t < hi_values.len()
            invariant
                t <= hi_values@.len(),
                hi_values@ == self.hi.spec_values(),
                n == lows.len(),
                r@.len() == n + t,
                forall|j: int| #![trigger r@[j]] 0 <= j < n ==> *r@[j] == lows[j],
                forall|j: int| #![trigger r@[j]] n <= j < n + t ==> *r@[j] == hi_values@[j - n],
            decreases hi_values@.len() - t,
        {
            r.push(&hi_values[t]);
            t = t + 1;
        }
        r
    }

    /// The entries as key and value pairs, in the order of `keys`.
    pub fn iter(&self) -> (r: Vec<(I, &V)>)
        requires
            self.wf(),
            forall|i: usize| i < low_slot_count() ==> #[trigger] I::spec_fits(i),
        ensures
            r@.len() == self.spec_key_indices().len(),
            forall|j: int|
                #![trigger r@[j]]
                0 <= j < r@.len() ==> key_index(r@[j].0) == self.spec_key_indices()[j] && *r@[j].1
                    == self.spec_values()[j],
    {
        let mut r: Vec<(I, &V)> = Vec::new();
        let mut i: usize = 0;
        proof {
            lemma_low_lengths(self.lo@, self.lo@.len() as int);
        }
        while i < self.lo.len()
            invariant
                self.wf(),
                forall|i: usize| i < low_slot_count() ==> #[trigger] I::spec_fits(i),
                i <= self.lo@.len(),
                r@.len() == low_key_indices(self.lo@, i as int).len(),
                forall|j: int|
                    #![trigger r@[j]]
                    0 <= j < r@.len() ==> key_index(r@[j].0) == low_key_indices(self.lo@, i as int)[j]
                        && *r@[j].1 == low_values(self.lo@, i as int)[j],
            decreases self.lo@.len() - i,
        {
            proof {
                lemma_low_lengths(self.lo@, i as int);
            }
            match &self.lo[i] {
                Some(v) => r.push((I::from_usize(i), v)),
                None => {},
            }
            i = i + 1;
        }
        proof {
            lemma_low_lengths(self.lo@, self.lo@.len() as int);
            self.hi.lemma_dense_matches_view();
        }
        let hi_entries = self.hi.iter();
        let ghost lows = low_key_indices(self.lo@, self.lo@.len() as int);
        let ghost lowv = low_values(self.lo@, self.lo@.len() as int);
        let ghost n = r@.len();
        let mut t: usize = 0;
        while t < hi_entries.len()
            invariant
                t <= hi_entries@.len(),
                hi_entries@.len() == self.hi.spec_keys().len(),
                forall|j: int|
                    #![trigger hi_entries@[j]]
                    0 <= j < hi_entries@.len() ==> hi_entries@[j].0 == self.hi.spec_keys()[j]
                        && *hi_entries@[j].1 == self.hi.spec_values()[j],
                n == lows.len(),
                n == lowv.len(),
                r@.len() == n + t,
                forall|j: int|
                    #![trigger r@[j]]
                    0 <= j < n ==> key_index(r@[j].0) == lows[j] && *r@[j].1 == lowv[j],
                forall|j: int|
                    #![trigger r@[j]]
                    n <= j < n + t ==> r@[j] == hi_entries@[j - n],
            decreases hi_entries@.len() - t,
        {
            r.push(hi_entries[t]);
            t = t + 1;
        }
        r
    }
}

/// The set of indices `i < n` at which `lo` holds a value.
pub open spec fn low_set<V>(lo: Seq<Option<V>>, n: int) -> Set<usize> {
    Set::new(|k: usize| k < n && k < lo.len() && lo[k as int] is Some)
}

proof fn lemma_low_set_len<V>(lo: Seq<Option<V>>, n: int)
    requires
        0 <= n <= lo.len(),
        n <= usize::MAX + 1,
    ensures
        low_set(lo, n).finite(),
        low_set(lo, n).len() == low_key_indices(lo, n).len(),
    decreases n,
{
    lemma_usize_set_finite(low_set(lo, n));
    if n > 0 {
        lemma_low_set_len(lo, n - 1);
        let k = (n - 1) as usize;
        if lo[n - 1] is Some {
            assert(low_set(lo, n) =~= low_set(lo, n - 1).insert(k));
        } else {
            assert(low_set(lo, n) =~= low_set(lo, n - 1));
        }
    } else {
        assert(low_set(lo, n) =~= Set::<usize>::empty());
    }
}

} // verus!
