//! Sorted sets of component ids that describe an entity's type, and the
//! difference between two such sets.

use vstd::prelude::*;

use crate::component::ComponentId;

verus! {

/// The ids are strictly ascending.
pub open spec fn strictly_sorted(s: Seq<ComponentId>) -> bool {
    forall|i: int, j: int| 0 <= i < j < s.len() ==> s[i].spec_index() < s[j].spec_index()
}

/// Two strictly ascending sequences of ids with the same elements are equal.
pub proof fn lemma_sorted_unique(a: Seq<ComponentId>, b: Seq<ComponentId>)
    requires
        strictly_sorted(a),
        strictly_sorted(b),
        forall|x: ComponentId| a.contains(x) <==> b.contains(x),
    ensures
        a == b,
    decreases a.len() + b.len(),
{
    if a.len() == 0 {
        if b.len() > 0 {
            assert(b.contains(b[0]));
        }
        assert(a =~= b);
    } else if b.len() == 0 {
        assert(a.contains(a[0]));
    } else {
        // the first elements agree: each is the least of the common set
        assert(a.contains(a[0]));
        assert(b.contains(b[0]));
        let i = choose|i: int| 0 <= i < b.len() && b[i] == a[0];
        let j = choose|j: int| 0 <= j < a.len() && a[j] == b[0];
        if i > 0 {
            assert(b[0].spec_index() < b[i].spec_index());
            if j > 0 {
                assert(a[0].spec_index() < a[j].spec_index());
            }
        }
        if j > 0 {
            assert(a[0].spec_index() < a[j].spec_index());
        }
        assert(a[0] == b[0]) by {
            if i > 0 && j > 0 {
                assert(false);
            } else if i == 0 {
            } else {
                assert(j == 0);
            }
        }
        let a1 = a.drop_first();
        let b1 = b.drop_first();
        assert forall|x: ComponentId| a1.contains(x) <==> b1.contains(x) by {
            if a1.contains(x) {
                let k = choose|k: int| 0 <= k < a1.len() && a1[k] == x;
                assert(a[k + 1] == x);
                assert(a.contains(x));
                assert(x.spec_index() > a[0].spec_index());
                let m = choose|m: int| 0 <= m < b.len() && b[m] == x;
                assert(m != 0);
                assert(b1[m - 1] == x);
            }
            if b1.contains(x) {
                let k = choose|k: int| 0 <= k < b1.len() && b1[k] == x;
                assert(b[k + 1] == x);
                assert(b.contains(x));
                assert(x.spec_index() > b[0].spec_index());
                let m = choose|m: int| 0 <= m < a.len() && a[m] == x;
                assert(m != 0);
                assert(a1[m - 1] == x);
            }
        }
        lemma_sorted_unique(a1, b1);
        assert(a =~= seq![a[0]] + a1);
        assert(b =~= seq![b[0]] + b1);
    }
}

/// A set of component ids, kept sorted and free of duplicates.
#[derive(Clone, Debug, Hash, PartialEq, Eq)]
pub struct TypeDef {
    ids: Vec<ComponentId>,
}

impl TypeDef {
    /// The ids, ascending.
    pub closed spec fn spec_ids(&self) -> Seq<ComponentId> {
        self.ids@
    }

    pub closed spec fn wf(&self) -> bool {
        strictly_sorted(self.ids@)
    }

    /// The type without components.
    pub fn empty() -> (r: TypeDef)
        ensures
            r.wf(),
            r.spec_ids() == Seq::<ComponentId>::empty(),
    {
        TypeDef { ids: Vec::new() }
    }

    /// The ids, ascending.
    pub fn ids(&self) -> (r: &[ComponentId])
        ensures
            r@ == self.spec_ids(),
    {
        self.ids.as_slice()
    }

    /// Searches from position `start` for where `id_to_add` would go. `None`
    /// when it is there already; otherwise the offset from `start` of the
    /// first larger id, or the length when there is none.
    pub fn find_insert(&self, id_to_add: ComponentId, start: usize) -> (r: Option<usize>)
        requires
            self.wf(),
        ensures
            ({
                let s = self.spec_ids();
                let k = first_not_below(s, start as int, id_to_add);
                &&& k < s.len() && s[k] == id_to_add ==> r is None
                &&& k < s.len() && s[k] != id_to_add ==> r == Some((k - start) as usize)
                &&& k >= s.len() ==> r == Some(s.len() as usize)
            }),
    {
        let ghost s = self.ids@;
        if start >= self.ids.len() {
            return Some(self.ids.len());
        }
        let mut i: usize = start;
        while i < self.ids.len()
            invariant
                start <= i <= self.ids@.len(),
                s == self.ids@,
                forall|j: int| start <= j < i ==> s[j].spec_index() < id_to_add.spec_index(),
            decreases self.ids@.len() - i,
        {
            let id = self.ids[i];
            if id.index() == id_to_add.index() {
                proof {
                    ComponentId::lemma_index_injective(id, id_to_add);
                    lemma_first_not_below(s, start as int, id_to_add, i as int);
                }
                return None;
            } else if id.index() > id_to_add.index() {
                proof {
                    lemma_first_not_below(s, start as int, id_to_add, i as int);
                }
                return Some(i - start);
            }
            i = i + 1;
        }
        proof {
            lemma_first_not_below_none(s, start as int, id_to_add);
        }
        Some(self.ids.len())
    }

    /// Searches from position `start` for `id_to_remove`: the offset from
    /// `start` of its position, or `None` when it is not there.
    pub fn find(&self, id_to_remove: ComponentId, start: usize) -> (r: Option<usize>)
        requires
            self.wf(),
        ensures
            ({
                let s = self.spec_ids();
                let k = first_not_below(s, start as int, id_to_remove);
                &&& k < s.len() && s[k] == id_to_remove ==> r == Some((k - start) as usize)
                &&& !(k < s.len() && s[k] == id_to_remove) ==> r is None
            }),
    {
        let ghost s = self.ids@;
        if start >= self.ids.len() {
            return None;
        }
        let mut i: usize = start;
        while i < self.ids.len()
            invariant
                start <= i <= self.ids@.len(),
                s == self.ids@,
                forall|j: int| start <= j < i ==> s[j].spec_index() < id_to_remove.spec_index(),
            decreases self.ids@.len() - i,
        {
            let id = self.ids[i];
            if id.index() == id_to_remove.index() {
                proof {
                    ComponentId::lemma_index_injective(id, id_to_remove);
                    lemma_first_not_below(s, start as int, id_to_remove, i as int);
                }
                return Some(i - start);
            } else if id.index() > id_to_remove.index() {
                proof {
                    lemma_first_not_below(s, start as int, id_to_remove, i as int);
                }
                return None;
            }
            i = i + 1;
        }
        proof {
            lemma_first_not_below_none(s, start as int, id_to_remove);
        }
        None
    }
}

/// The first position from `start` on whose id is not below `id`, or the
/// length when there is none.
pub open spec fn first_not_below(s: Seq<ComponentId>, start: int, id: ComponentId) -> int
    decreases s.len() - start,
{
    if start >= s.len() {
        s.len() as int
    } else if start < 0 {
        first_not_below(s, 0, id)
    } else if s[start].spec_index() >= id.spec_index() {
        start
    } else {
        first_not_below(s, start + 1, id)
    }
}

proof fn lemma_first_not_below(s: Seq<ComponentId>, start: int, id: ComponentId, i: int)
    requires
        0 <= start <= i < s.len(),
        forall|j: int| start <= j < i ==> s[j].spec_index() < id.spec_index(),
        s[i].spec_index() >= id.spec_index(),
    ensures
        first_not_below(s, start, id) == i,
    decreases i - start,
{
    if start < i {
        lemma_first_not_below(s, start + 1, id, i);
    }
}

proof fn lemma_first_not_below_none(s: Seq<ComponentId>, start: int, id: ComponentId)
    requires
        0 <= start,
        forall|j: int| start <= j < s.len() ==> s[j].spec_index() < id.spec_index(),
    ensures
        first_not_below(s, start, id) >= s.len(),
    decreases s.len() - start,
{
    if start < s.len() {
        lemma_first_not_below_none(s, start + 1, id);
    }
}

/// Where the first position from `start` on lies and what surrounds it.
proof fn lemma_first_not_below_bounds(s: Seq<ComponentId>, start: int, id: ComponentId)
    requires
        0 <= start,
    ensures
        start <= s.len() ==> start <= first_not_below(s, start, id),
        first_not_below(s, start, id) <= s.len() || s.len() < start,
        forall|j: int|
            start <= j < first_not_below(s, start, id) && j < s.len() ==> s[j].spec_index()
                < id.spec_index(),
        first_not_below(s, start, id) < s.len() ==> s[first_not_below(s, start, id)].spec_index()
            >= id.spec_index(),
    decreases s.len() - start,
{
    if start < s.len() && s[start].spec_index() < id.spec_index() {
        lemma_first_not_below_bounds(s, start + 1, id);
    }
}

/// The ids of `s` with `id` put in its place.
pub open spec fn spec_with(s: Seq<ComponentId>, id: ComponentId) -> Seq<ComponentId> {
    s.insert(first_not_below(s, 0, id), id)
}

/// The ids of `s` without the one at the place of `id`.
pub open spec fn spec_without(s: Seq<ComponentId>, id: ComponentId) -> Seq<ComponentId> {
    s.remove(first_not_below(s, 0, id))
}

/// In a strictly ascending sequence, `id` occurs exactly when it stands at its
/// place.
proof fn lemma_contains_at_place(s: Seq<ComponentId>, id: ComponentId)
    requires
        strictly_sorted(s),
    ensures
        0 <= first_not_below(s, 0, id) <= s.len(),
        s.contains(id) <==> (first_not_below(s, 0, id) < s.len() && s[first_not_below(
            s,
            0,
            id,
        )] == id),
{
    lemma_first_not_below_bounds(s, 0, id);
    let k = first_not_below(s, 0, id);
    if s.contains(id) {
        let j = choose|j: int| 0 <= j < s.len() && s[j] == id;
        if j < k {
            assert(s[j].spec_index() < id.spec_index());
        } else if j > k {
            assert(s[k].spec_index() < s[j].spec_index());
        }
    }
}

/// Putting a new id in its place keeps the ids strictly ascending.
proof fn lemma_with_sorted(s: Seq<ComponentId>, id: ComponentId)
    requires
        strictly_sorted(s),
        !s.contains(id),
    ensures
        strictly_sorted(spec_with(s, id)),
        forall|x: ComponentId| spec_with(s, id).contains(x) <==> (s.contains(x) || x == id),
{
    lemma_contains_at_place(s, id);
    lemma_first_not_below_bounds(s, 0, id);
    let k = first_not_below(s, 0, id);
    let t = spec_with(s, id);
    assert(t.len() == s.len() + 1);
    assert forall|i: int, j: int| 0 <= i < j < t.len() implies t[i].spec_index()
        < t[j].spec_index() by {
        if k < s.len() {
            assert(s[k] != id);
            if s[k].spec_index() == id.spec_index() {
                ComponentId::lemma_index_injective(s[k], id);
            }
        }
        if j < k {
        } else if j == k {
        } else if i < k {
            assert(t[j] == s[j - 1]);
            if j - 1 > k {
                assert(s[k].spec_index() < s[j - 1].spec_index());
            }
        } else if i == k {
            assert(t[j] == s[j - 1]);
            if j - 1 > k {
                assert(s[k].spec_index() < s[j - 1].spec_index());
            }
        } else {
            assert(t[i] == s[i - 1]);
            assert(t[j] == s[j - 1]);
        }
    }
    assert forall|x: ComponentId| t.contains(x) <==> (s.contains(x) || x == id) by {
        if t.contains(x) {
            let j = choose|j: int| 0 <= j < t.len() && t[j] == x;
            if j < k {
                assert(s[j] == x);
            } else if j > k {
                assert(s[j - 1] == x);
            }
        }
        if s.contains(x) {
            let j = choose|j: int| 0 <= j < s.len() && s[j] == x;
            if j < k {
                assert(t[j] == x);
            } else {
                assert(t[j + 1] == x);
            }
        }
        if x == id {
            assert(t[k] == x);
        }
    }
}

/// Taking an id out keeps the ids strictly ascending.
proof fn lemma_without_sorted(s: Seq<ComponentId>, id: ComponentId)
    requires
        strictly_sorted(s),
        s.contains(id),
    ensures
        strictly_sorted(spec_without(s, id)),
        forall|x: ComponentId| spec_without(s, id).contains(x) <==> (s.contains(x) && x != id),
{
    lemma_contains_at_place(s, id);
    let k = first_not_below(s, 0, id);
    let t = spec_without(s, id);
    assert forall|i: int, j: int| 0 <= i < j < t.len() implies t[i].spec_index()
        < t[j].spec_index() by {
        let ii = if i < k { i } else { i + 1 };
        let jj = if j < k { j } else { j + 1 };
        assert(t[i] == s[ii]);
        assert(t[j] == s[jj]);
    }
    assert forall|x: ComponentId| t.contains(x) <==> (s.contains(x) && x != id) by {
        if t.contains(x) {
            let j = choose|j: int| 0 <= j < t.len() && t[j] == x;
            let jj = if j < k { j } else { j + 1 };
            assert(s[jj] == x);
            assert(jj != k);
            assert(s[jj].spec_index() != s[k].spec_index());
        }
        if s.contains(x) && x != id {
            let j = choose|j: int| 0 <= j < s.len() && s[j] == x;
            assert(j != k);
            if j < k {
                assert(t[j] == x);
            } else {
                assert(t[j - 1] == x);
            }
        }
    }
}

/// Adding an id that is not there and then removing it gives back the ids one
/// started with.
pub proof fn lemma_without_after_with(s: Seq<ComponentId>, id: ComponentId)
    requires
        strictly_sorted(s),
        !s.contains(id),
    ensures
        spec_without(spec_with(s, id), id) == s,
{
    lemma_with_sorted(s, id);
    lemma_without_sorted(spec_with(s, id), id);
    assert(spec_with(s, id).contains(id));
    lemma_sorted_unique(spec_without(spec_with(s, id), id), s);
}

/// Removing an id that is there and then adding it back gives back the ids one
/// started with.
pub proof fn lemma_with_after_without(s: Seq<ComponentId>, id: ComponentId)
    requires
        strictly_sorted(s),
        s.contains(id),
    ensures
        spec_with(spec_without(s, id), id) == s,
{
    lemma_without_sorted(s, id);
    assert(!spec_without(s, id).contains(id));
    lemma_with_sorted(spec_without(s, id), id);
    lemma_sorted_unique(spec_with(spec_without(s, id), id), s);
}

/// Puts `x` in its place in the strictly ascending `v`, unless it is there.
fn insert_sorted(v: &mut Vec<ComponentId>, x: ComponentId)
    requires
        strictly_sorted(old(v)@),
    ensures
        strictly_sorted(final(v)@),
        forall|y: ComponentId| final(v)@.contains(y) <==> (old(v)@.contains(y) || y == x),
{
    let ghost s = v@;
    let mut i: usize = 0;
    while i < v.len() && v[i].index() < x.index()
        invariant
            i <= v@.len(),
            v@ == s,
            strictly_sorted(s),
            forall|j: int| 0 <= j < i ==> s[j].spec_index() < x.spec_index(),
        decreases v@.len() - i,
    {
        i = i + 1;
    }
    proof {
        if i < s.len() {
            lemma_first_not_below(s, 0, x, i as int);
        } else {
            lemma_first_not_below_none(s, 0, x);
        }
        lemma_contains_at_place(s, x);
    }
    if i < v.len() && v[i].index() == x.index() {
        proof {
            ComponentId::lemma_index_injective(s[i as int], x);
        }
        return;
    }
    proof {
        if i < s.len() && s[i as int] == x {
            assert(s[i as int].spec_index() == x.spec_index());
        }
        lemma_with_sorted(s, x);
    }
    v.insert(i, x);
    assert(v@ == spec_with(s, x));
}

/// The ids of `ids`, ascending, each once.
pub(crate) fn sorted_unique(ids: &Vec<ComponentId>) -> (r: Vec<ComponentId>)
    ensures
        strictly_sorted(r@),
        forall|x: ComponentId| r@.contains(x) <==> ids@.contains(x),
{
    let mut r: Vec<ComponentId> = Vec::new();
    let mut i: usize = 0;
    while i < ids.len()
        invariant
            i <= ids@.len(),
            strictly_sorted(r@),
            forall|x: ComponentId| r@.contains(x) <==> ids@.subrange(0, i as int).contains(x),
        decreases ids@.len() - i,
    {
        let ghost before = r@;
        insert_sorted(&mut r, ids[i]);
        proof {
            assert forall|x: ComponentId| r@.contains(x) <==> ids@.subrange(
                0,
                i + 1,
            ).contains(x) by {
                let p = ids@.subrange(0, i as int);
                let q = ids@.subrange(0, i + 1);
                if p.contains(x) {
                    let j = choose|j: int| 0 <= j < p.len() && p[j] == x;
                    assert(q[j] == x);
                }
                if q.contains(x) {
                    let j = choose|j: int| 0 <= j < q.len() && q[j] == x;
                    if j < i {
                        assert(p[j] == x);
                    }
                }
                if x == ids@[i as int] {
                    assert(q[i as int] == x);
                }
            }
        }
        i = i + 1;
    }
    assert(ids@.subrange(0, ids@.len() as int) == ids@);
    r
}

/// Collects component ids, in any order and with repeats, for a [`TypeDef`].
#[derive(Clone)]
pub struct TypeDefBuilder {
    ids: Vec<ComponentId>,
}

impl TypeDefBuilder {
    /// The ids collected so far, in the order they came.
    pub closed spec fn spec_ids(&self) -> Seq<ComponentId> {
        self.ids@
    }

    /// A builder with no ids.
    pub fn new() -> (r: TypeDefBuilder)
        ensures
            r.spec_ids() == Seq::<ComponentId>::empty(),
    {
        TypeDefBuilder { ids: Vec::new() }
    }

    /// A builder with no ids and room for `capacity` of them.
    pub fn with_capacity(capacity: usize) -> (r: TypeDefBuilder)
        ensures
            r.spec_ids() == Seq::<ComponentId>::empty(),
    {
        TypeDefBuilder { ids: Vec::with_capacity(capacity) }
    }

    /// The set of the collected ids, sorted and without repeats.
    pub fn build(self) -> (r: TypeDef)
        ensures
            r.wf(),
            forall|x: ComponentId| r.spec_ids().contains(x) <==> self.spec_ids().contains(x),
    {
        TypeDef { ids: sorted_unique(&self.ids) }
    }
}

impl TypeDef {
    /// Whether the type has `id`.
    pub open spec fn spec_contains(&self, id: ComponentId) -> bool {
        self.spec_ids().contains(id)
    }

    /// The type with `id` added; `None` when it has `id` already.
    pub fn new_with(&self, id: ComponentId) -> (r: Option<TypeDef>)
        requires
            self.wf(),
            self.spec_ids().len() < usize::MAX,
        ensures
            r is Some <==> !self.spec_contains(id),
            r matches Some(t) ==> t.wf() && t.spec_ids() == spec_with(self.spec_ids(), id),
    {
        let ghost s = self.ids@;
        proof {
            lemma_contains_at_place(s, id);
            lemma_first_not_below_bounds(s, 0, id);
        }
        if let Some(index) = self.find_insert(id, 0) {
            let ghost k = first_not_below(s, 0, id);
            assert(index == k);
            let n = self.ids.len();
            let mut new = TypeDefBuilder::with_capacity(n + 1);
            let mut i: usize = 0;
            while i < index
                invariant
                    i <= index <= n,
                    n == s.len(),
                    s == self.ids@,
                    new.ids@ == s.subrange(0, i as int),
                decreases index - i,
            {
                new.ids.push(self.ids[i]);
                i = i + 1;
            }
            new.ids.push(id);
            let mut j: usize = index;
            while j < n
                invariant
                    index <= j <= n,
                    n == s.len(),
                    s == self.ids@,
                    new.ids@ == s.subrange(0, index as int).push(id) + s.subrange(
                        index as int,
                        j as int,
                    ),
                decreases n - j,
            {
                new.ids.push(self.ids[j]);
                proof {
                    assert(s.subrange(index as int, j + 1) == s.subrange(index as int, j as int).push(
                        s[j as int],
                    ));
                }
                j = j + 1;
            }
            proof {
                assert(new.ids@ == spec_with(s, id));
                if s.contains(id) {
                    assert(s[k] == id);
                    assert(s[k].spec_index() == id.spec_index());
                }
                lemma_with_sorted(s, id);
            }
            let t = new.build();
            proof {
                lemma_sorted_unique(t.spec_ids(), spec_with(s, id));
            }
            Some(t)
        } else {
            None
        }
    }

    /// The type with `id` taken out; `None` when it does not have `id`.
    pub fn new_without(&self, id: ComponentId) -> (r: Option<TypeDef>)
        requires
            self.wf(),
        ensures
            r is Some <==> self.spec_contains(id),
            r matches Some(t) ==> t.wf() && t.spec_ids() == spec_without(self.spec_ids(), id),
    {
        let ghost s = self.ids@;
        proof {
            lemma_contains_at_place(s, id);
        }
        let n = self.ids.len();
        let index = self.find(id, 0);
        if index.is_none() {
            return None;
        } else if n == 1 {
            proof {
                assert(spec_without(s, id) =~= Seq::<ComponentId>::empty());
            }
            return Some(TypeDef::empty());
        }
        let i = index.unwrap();
        let mut dst = TypeDefBuilder::with_capacity(n - 1);
        let mut a: usize = 0;
        while a < i
            invariant
                a <= i < n,
                n == s.len(),
                s == self.ids@,
                dst.ids@ == s.subrange(0, a as int),
            decreases i - a,
        {
            dst.ids.push(self.ids[a]);
            a = a + 1;
        }
        let mut b: usize = i + 1;
        while b < n
            invariant
                i < n,
                i + 1 <= b <= n,
                n == s.len(),
                s == self.ids@,
                dst.ids@ == s.subrange(0, i as int) + s.subrange(i + 1, b as int),
            decreases n - b,
        {
            dst.ids.push(self.ids[b]);
            proof {
                assert(s.subrange(i + 1, b + 1) == s.subrange(i + 1, b as int).push(s[b as int]));
            }
            b = b + 1;
        }
        proof {
            assert(dst.ids@ == spec_without(s, id));
            lemma_without_sorted(s, id);
        }
        let t = dst.build();
        proof {
            lemma_sorted_unique(t.spec_ids(), spec_without(s, id));
        }
        Some(t)
    }
}

/// `x` occurs among the first `n` ids of `s`.
pub open spec fn prefix_has(s: Seq<ComponentId>, n: int, x: ComponentId) -> bool {
    exists|j: int| 0 <= j < n && j < s.len() && s[j] == x
}

/// `x` is in the destination ids and not in the source ids.
pub open spec fn is_added(src: Seq<ComponentId>, dst: Seq<ComponentId>, x: ComponentId) -> bool {
    dst.contains(x) && !src.contains(x)
}

/// `x` is in the source ids and not in the destination ids.
pub open spec fn is_removed(src: Seq<ComponentId>, dst: Seq<ComponentId>, x: ComponentId) -> bool {
    src.contains(x) && !dst.contains(x)
}

/// `x` is in exactly one of the two lists of ids.
pub open spec fn is_changed(src: Seq<ComponentId>, dst: Seq<ComponentId>, x: ComponentId) -> bool {
    is_added(src, dst, x) || is_removed(src, dst, x)
}

/// A change that is met before either ascending list runs out: an added id
/// below some source id, or a removed id below some destination id.
pub open spec fn met_before_end(
    src: Seq<ComponentId>,
    dst: Seq<ComponentId>,
    x: ComponentId,
) -> bool {
    ||| is_added(src, dst, x) && exists|j: int|
        0 <= j < src.len() && x.spec_index() < #[trigger] src[j].spec_index()
    ||| is_removed(src, dst, x) && exists|k: int|
        0 <= k < dst.len() && x.spec_index() < #[trigger] dst[k].spec_index()
}

/// Whether the move from `src` to `dst` is more than adding or removing the
/// single component `id`: more than one id changes, or a change other than
/// `id` is met before either list runs out.
pub open spec fn edge_is_complex(
    src: Seq<ComponentId>,
    dst: Seq<ComponentId>,
    id: ComponentId,
) -> bool {
    ||| exists|x: ComponentId, y: ComponentId|
        x != y && is_changed(src, dst, x) && is_changed(src, dst, y)
    ||| exists|x: ComponentId| met_before_end(src, dst, x) && x != id
}

/// The first `si` source ids and the first `di` destination ids have been
/// walked by a merge of the two ascending lists.
spec fn merge_ord(src: Seq<ComponentId>, dst: Seq<ComponentId>, si: int, di: int) -> bool {
    &&& 0 <= si <= src.len()
    &&& 0 <= di <= dst.len()
    &&& forall|j: int, k: int|
        0 <= j < si && di <= k < dst.len() ==> src[j].spec_index() < dst[k].spec_index()
    &&& forall|j: int, k: int|
        0 <= k < di && si <= j < src.len() ==> dst[k].spec_index() < src[j].spec_index()
}

/// `diffs` lists, ascending, the changes among the walked ids, each met
/// before the end, and each below the ids not walked yet.
spec fn diff_prefix(
    src: Seq<ComponentId>,
    dst: Seq<ComponentId>,
    si: int,
    di: int,
    diffs: Seq<ComponentId>,
) -> bool {
    &&& strictly_sorted(diffs)
    &&& forall|x: ComponentId|
        diffs.contains(x) <==> (is_changed(src, dst, x) && (prefix_has(src, si, x)
            || prefix_has(dst, di, x)))
    &&& forall|x: ComponentId| diffs.contains(x) ==> met_before_end(src, dst, x)
    &&& forall|i: int, j: int|
        0 <= i < diffs.len() && si <= j < src.len() ==> diffs[i].spec_index()
            < src[j].spec_index()
    &&& forall|i: int, k: int|
        0 <= i < diffs.len() && di <= k < dst.len() ==> diffs[i].spec_index()
            < dst[k].spec_index()
}

/// One step of the merge keeps it ordered and classifies the smaller id.
proof fn lemma_merge_step(src: Seq<ComponentId>, dst: Seq<ComponentId>, si: int, di: int)
    requires
        strictly_sorted(src),
        strictly_sorted(dst),
        merge_ord(src, dst, si, di),
        si < src.len(),
        di < dst.len(),
    ensures
        dst[di].spec_index() < src[si].spec_index() ==> is_added(src, dst, dst[di])
            && merge_ord(src, dst, si, di + 1),
        src[si].spec_index() < dst[di].spec_index() ==> is_removed(src, dst, src[si])
            && merge_ord(src, dst, si + 1, di),
        src[si].spec_index() == dst[di].spec_index() ==> src[si] == dst[di] && !is_changed(
            src,
            dst,
            src[si],
        ) && merge_ord(src, dst, si + 1, di + 1),
{
    let a = src[si];
    let b = dst[di];
    assert(dst.contains(b));
    assert(src.contains(a));
    if b.spec_index() < a.spec_index() {
        if src.contains(b) {
            let j = choose|j: int| 0 <= j < src.len() && src[j] == b;
            if j < si {
                assert(src[j].spec_index() < dst[di].spec_index());
            } else if j > si {
                assert(src[si].spec_index() < src[j].spec_index());
            }
        }
        assert forall|k: int, j: int| 0 <= k < di + 1 && si <= j < src.len() implies dst[k].spec_index()
            < src[j].spec_index() by {
            if k == di && j > si {
                assert(src[si].spec_index() < src[j].spec_index());
            }
        }
    }
    if a.spec_index() < b.spec_index() {
        if dst.contains(a) {
            let k = choose|k: int| 0 <= k < dst.len() && dst[k] == a;
            if k < di {
                assert(dst[k].spec_index() < src[si].spec_index());
            } else if k > di {
                assert(dst[di].spec_index() < dst[k].spec_index());
            }
        }
        assert forall|j: int, k: int| 0 <= j < si + 1 && di <= k < dst.len() implies src[j].spec_index()
            < dst[k].spec_index() by {
            if j == si && k > di {
                assert(dst[di].spec_index() < dst[k].spec_index());
            }
        }
    }
    if a.spec_index() == b.spec_index() {
        ComponentId::lemma_index_injective(a, b);
        assert forall|j: int, k: int| 0 <= j < si + 1 && di + 1 <= k < dst.len() implies src[j].spec_index()
            < dst[k].spec_index() by {
            if j == si {
                assert(dst[di].spec_index() < dst[k].spec_index());
            }
        }
        assert forall|k: int, j: int| 0 <= k < di + 1 && si + 1 <= j < src.len() implies dst[k].spec_index()
            < src[j].spec_index() by {
            if k == di {
                assert(src[si].spec_index() < src[j].spec_index());
            }
        }
    }
}

/// One step of the merge, as seen by the list of changes met so far.
proof fn lemma_diff_step(
    src: Seq<ComponentId>,
    dst: Seq<ComponentId>,
    si: int,
    di: int,
    diffs: Seq<ComponentId>,
)
    requires
        strictly_sorted(src),
        strictly_sorted(dst),
        merge_ord(src, dst, si, di),
        diff_prefix(src, dst, si, di, diffs),
        si < src.len(),
        di < dst.len(),
    ensures
        dst[di].spec_index() < src[si].spec_index() ==> diff_prefix(
            src,
            dst,
            si,
            di + 1,
            diffs.push(dst[di]),
        ),
        src[si].spec_index() < dst[di].spec_index() ==> diff_prefix(
            src,
            dst,
            si + 1,
            di,
            diffs.push(src[si]),
        ),
        src[si].spec_index() == dst[di].spec_index() ==> diff_prefix(
            src,
            dst,
            si + 1,
            di + 1,
            diffs,
        ),
{
    lemma_merge_step(src, dst, si, di);
    let a = src[si];
    let b = dst[di];
    if b.spec_index() < a.spec_index() {
        let d = diffs.push(b);
        assert forall|x: ComponentId| d.contains(x) <==> (is_changed(src, dst, x) && (prefix_has(
            src,
            si,
            x,
        ) || prefix_has(dst, di + 1, x))) by {
            if d.contains(x) {
                let i = choose|i: int| 0 <= i < d.len() && d[i] == x;
                if i < diffs.len() {
                    assert(diffs.contains(x));
                    if prefix_has(dst, di, x) {
                        let j = choose|j: int| 0 <= j < di && j < dst.len() && dst[j] == x;
                        assert(0 <= j < di + 1);
                    }
                } else {
                    assert(dst[di] == x);
                }
            }
            if is_changed(src, dst, x) && prefix_has(dst, di + 1, x) {
                let j = choose|j: int| 0 <= j < di + 1 && j < dst.len() && dst[j] == x;
                if j < di {
                    assert(prefix_has(dst, di, x));
                    assert(diffs.contains(x));
                    let i = choose|i: int| 0 <= i < diffs.len() && diffs[i] == x;
                    assert(d[i] == x);
                } else {
                    assert(d[diffs.len() as int] == x);
                }
            }
            if is_changed(src, dst, x) && prefix_has(src, si, x) {
                assert(diffs.contains(x));
                let i = choose|i: int| 0 <= i < diffs.len() && diffs[i] == x;
                assert(d[i] == x);
            }
        }
        assert forall|x: ComponentId| d.contains(x) implies met_before_end(src, dst, x) by {
            let i = choose|i: int| 0 <= i < d.len() && d[i] == x;
            if i < diffs.len() {
                assert(diffs.contains(x));
            } else {
                assert(x.spec_index() < src[si].spec_index());
            }
        }
        assert forall|i: int, k: int| 0 <= i < d.len() && di + 1 <= k < dst.len() implies d[i].spec_index()
            < dst[k].spec_index() by {
            if i == diffs.len() {
                assert(dst[di].spec_index() < dst[k].spec_index());
            }
        }
        assert forall|i: int, j: int| 0 <= i < d.len() && si <= j < src.len() implies d[i].spec_index()
            < src[j].spec_index() by {
            if i == diffs.len() && j > si {
                assert(src[si].spec_index() < src[j].spec_index());
            }
        }
    }
    if a.spec_index() < b.spec_index() {
        let d = diffs.push(a);
        assert forall|x: ComponentId| d.contains(x) <==> (is_changed(src, dst, x) && (prefix_has(
            src,
            si + 1,
            x,
        ) || prefix_has(dst, di, x))) by {
            if d.contains(x) {
                let i = choose|i: int| 0 <= i < d.len() && d[i] == x;
                if i < diffs.len() {
                    assert(diffs.contains(x));
                    if prefix_has(src, si, x) {
                        let j = choose|j: int| 0 <= j < si && j < src.len() && src[j] == x;
                        assert(0 <= j < si + 1);
                    }
                } else {
                    assert(src[si] == x);
                }
            }
            if is_changed(src, dst, x) && prefix_has(src, si + 1, x) {
                let j = choose|j: int| 0 <= j < si + 1 && j < src.len() && src[j] == x;
                if j < si {
                    assert(prefix_has(src, si, x));
                    assert(diffs.contains(x));
                    let i = choose|i: int| 0 <= i < diffs.len() && diffs[i] == x;
                    assert(d[i] == x);
                } else {
                    assert(d[diffs.len() as int] == x);
                }
            }
            if is_changed(src, dst, x) && prefix_has(dst, di, x) {
                assert(diffs.contains(x));
                let i = choose|i: int| 0 <= i < diffs.len() && diffs[i] == x;
                assert(d[i] == x);
            }
        }
        assert forall|x: ComponentId| d.contains(x) implies met_before_end(src, dst, x) by {
            let i = choose|i: int| 0 <= i < d.len() && d[i] == x;
            if i < diffs.len() {
                assert(diffs.contains(x));
            } else {
                assert(x.spec_index() < dst[di].spec_index());
            }
        }
        assert forall|i: int, j: int| 0 <= i < d.len() && si + 1 <= j < src.len() implies d[i].spec_index()
            < src[j].spec_index() by {
            if i == diffs.len() {
                assert(src[si].spec_index() < src[j].spec_index());
            }
        }
        assert forall|i: int, k: int| 0 <= i < d.len() && di <= k < dst.len() implies d[i].spec_index()
            < dst[k].spec_index() by {
            if i == diffs.len() && k > di {
                assert(dst[di].spec_index() < dst[k].spec_index());
            }
        }
    }
    if a.spec_index() == b.spec_index() {
        assert forall|x: ComponentId| diffs.contains(x) <==> (is_changed(src, dst, x) && (
        prefix_has(src, si + 1, x) || prefix_has(dst, di + 1, x))) by {
            if is_changed(src, dst, x) && prefix_has(src, si + 1, x) {
                let j = choose|j: int| 0 <= j < si + 1 && j < src.len() && src[j] == x;
                if j < si {
                    assert(prefix_has(src, si, x));
                }
            }
            if is_changed(src, dst, x) && prefix_has(dst, di + 1, x) {
                let j = choose|j: int| 0 <= j < di + 1 && j < dst.len() && dst[j] == x;
                if j < di {
                    assert(prefix_has(dst, di, x));
                }
            }
            if diffs.contains(x) {
                if prefix_has(src, si, x) {
                    let j = choose|j: int| 0 <= j < si && j < src.len() && src[j] == x;
                    assert(0 <= j < si + 1);
                } else {
                    let j = choose|j: int| 0 <= j < di && j < dst.len() && dst[j] == x;
                    assert(0 <= j < di + 1);
                }
            }
        }
    }
}

proof fn lemma_push_contains(s: Seq<ComponentId>, v: ComponentId)
    ensures
        forall|x: ComponentId| s.push(v).contains(x) <==> (s.contains(x) || x == v),
{
    assert forall|x: ComponentId| s.push(v).contains(x) <==> (s.contains(x) || x == v) by {
        if s.push(v).contains(x) {
            let i = choose|i: int| 0 <= i < s.push(v).len() && s.push(v)[i] == x;
            if i < s.len() {
                assert(s[i] == x);
            }
        }
        if s.contains(x) {
            let i = choose|i: int| 0 <= i < s.len() && s[i] == x;
            assert(s.push(v)[i] == x);
        }
        if x == v {
            assert(s.push(v)[s.len() as int] == x);
        }
    }
}

pub(crate) proof fn lemma_prefix_has_step(s: Seq<ComponentId>, n: int)
    requires
        0 <= n < s.len(),
    ensures
        forall|x: ComponentId| prefix_has(s, n + 1, x) <==> (prefix_has(s, n, x) || x == s[n]),
{
    assert forall|x: ComponentId| prefix_has(s, n + 1, x) <==> (prefix_has(s, n, x) || x == s[n]) by {
        if prefix_has(s, n + 1, x) {
            let j = choose|j: int| 0 <= j < n + 1 && j < s.len() && s[j] == x;
            if j < n {
                assert(prefix_has(s, n, x));
            }
        }
        if prefix_has(s, n, x) {
            let j = choose|j: int| 0 <= j < n && j < s.len() && s[j] == x;
            assert(0 <= j < n + 1);
        }
        if x == s[n] {
            assert(0 <= n < n + 1 && s[n] == x);
        }
    }
}

/// Once one list has run out, what is left of the other is all change.
proof fn lemma_merge_tails(src: Seq<ComponentId>, dst: Seq<ComponentId>, si: int, di: int)
    requires
        strictly_sorted(src),
        strictly_sorted(dst),
        merge_ord(src, dst, si, di),
        si == src.len() || di == dst.len(),
    ensures
        forall|k: int| di <= k < dst.len() ==> is_added(src, dst, #[trigger] dst[k]),
        forall|j: int| si <= j < src.len() ==> is_removed(src, dst, #[trigger] src[j]),
{
    assert forall|k: int| di <= k < dst.len() implies is_added(src, dst, #[trigger] dst[k]) by {
        assert(dst.contains(dst[k]));
        if src.contains(dst[k]) {
            let j = choose|j: int| 0 <= j < src.len() && src[j] == dst[k];
            assert(src[j].spec_index() < dst[k].spec_index());
        }
    }
    assert forall|j: int| si <= j < src.len() implies is_removed(src, dst, #[trigger] src[j]) by {
        assert(src.contains(src[j]));
        if dst.contains(src[j]) {
            let k = choose|k: int| 0 <= k < dst.len() && dst[k] == src[j];
            assert(dst[k].spec_index() < src[j].spec_index());
        }
    }
}

/// At the end of the merge, the changes met and the tails left over tell
/// whether the edge is complex.
proof fn lemma_diff_end(
    src: Seq<ComponentId>,
    dst: Seq<ComponentId>,
    si: int,
    di: int,
    diffs: Seq<ComponentId>,
    id: ComponentId,
)
    requires
        strictly_sorted(src),
        strictly_sorted(dst),
        merge_ord(src, dst, si, di),
        diff_prefix(src, dst, si, di, diffs),
        si == src.len() || di == dst.len(),
    ensures
        (exists|x: ComponentId, y: ComponentId|
            x != y && is_changed(src, dst, x) && is_changed(src, dst, y)) <==> diffs.len() + (
        dst.len() - di) + (src.len() - si) > 1,
        (exists|x: ComponentId| met_before_end(src, dst, x) && x != id) <==> (exists|i: int|
            0 <= i < diffs.len() && diffs[i] != id),
{
    lemma_merge_tails(src, dst, si, di);
    let tail = if si == src.len() {
        dst.subrange(di, dst.len() as int)
    } else {
        src.subrange(si, src.len() as int)
    };
    let full = diffs + tail;
    assert(full.len() == diffs.len() + (dst.len() - di) + (src.len() - si));
    assert forall|i: int, j: int| 0 <= i < j < full.len() implies full[i].spec_index()
        < full[j].spec_index() by {
        if j < diffs.len() {
        } else if i < diffs.len() {
            if si == src.len() {
                assert(full[j] == dst[di + j - diffs.len()]);
            } else {
                assert(full[j] == src[si + j - diffs.len()]);
            }
        } else {
            if si == src.len() {
                assert(full[i] == dst[di + i - diffs.len()]);
                assert(full[j] == dst[di + j - diffs.len()]);
            } else {
                assert(full[i] == src[si + i - diffs.len()]);
                assert(full[j] == src[si + j - diffs.len()]);
            }
        }
    }
    assert forall|x: ComponentId| full.contains(x) <==> is_changed(src, dst, x) by {
        if full.contains(x) {
            let i = choose|i: int| 0 <= i < full.len() && full[i] == x;
            if i < diffs.len() {
                assert(diffs.contains(x));
            } else if si == src.len() {
                assert(full[i] == dst[di + i - diffs.len()]);
            } else {
                assert(full[i] == src[si + i - diffs.len()]);
            }
        }
        if is_changed(src, dst, x) {
            if prefix_has(src, si, x) || prefix_has(dst, di, x) {
                assert(diffs.contains(x));
                let i = choose|i: int| 0 <= i < diffs.len() && diffs[i] == x;
                assert(full[i] == x);
            } else if src.contains(x) {
                let j = choose|j: int| 0 <= j < src.len() && src[j] == x;
                assert(j >= si);
                assert(si < src.len());
                assert(full[diffs.len() + j - si] == x);
            } else {
                let k = choose|k: int| 0 <= k < dst.len() && dst[k] == x;
                assert(k >= di);
                assert(di < dst.len());
                assert(si == src.len());
                assert(full[diffs.len() + k - di] == x);
            }
        }
    }
    if full.len() > 1 {
        assert(full.contains(full[0]));
        assert(full.contains(full[1]));
        assert(full[0] != full[1]);
    }
    if exists|x: ComponentId, y: ComponentId|
        x != y && is_changed(src, dst, x) && is_changed(src, dst, y) {
        let (x, y) = choose|x: ComponentId, y: ComponentId|
            x != y && is_changed(src, dst, x) && is_changed(src, dst, y);
        assert(full.contains(x));
        assert(full.contains(y));
        let i = choose|i: int| 0 <= i < full.len() && full[i] == x;
        let j = choose|j: int| 0 <= j < full.len() && full[j] == y;
        assert(i != j);
    }
    if exists|x: ComponentId| met_before_end(src, dst, x) && x != id {
        let x = choose|x: ComponentId| met_before_end(src, dst, x) && x != id;
        if !diffs.contains(x) {
            assert(!(prefix_has(src, si, x) || prefix_has(dst, di, x)));
            if is_added(src, dst, x) {
                let k = choose|k: int| 0 <= k < dst.len() && dst[k] == x;
                assert(k >= di);
                let j = choose|j: int|
                    0 <= j < src.len() && x.spec_index() < #[trigger] src[j].spec_index();
                assert(si == src.len());
                assert(src[j].spec_index() < dst[k].spec_index());
            } else {
                let j = choose|j: int| 0 <= j < src.len() && src[j] == x;
                assert(j >= si);
                let k = choose|k: int|
                    0 <= k < dst.len() && x.spec_index() < #[trigger] dst[k].spec_index();
                assert(di == dst.len());
                assert(dst[k].spec_index() < src[j].spec_index());
            }
        }
        let i = choose|i: int| 0 <= i < diffs.len() && diffs[i] == x;
        assert(diffs[i] != id);
    }
    if exists|i: int| 0 <= i < diffs.len() && diffs[i] != id {
        let i = choose|i: int| 0 <= i < diffs.len() && diffs[i] != id;
        assert(diffs.contains(diffs[i]));
        assert(met_before_end(src, dst, diffs[i]));
    }
}

/// Collects the ids that an entity gains and loses, in any order and with
/// repeats.
#[derive(Clone)]
pub struct TypeDiffBuilder {
    pub added: Vec<ComponentId>,
    pub removed: Vec<ComponentId>,
}

impl TypeDiffBuilder {
    /// A builder with nothing added or removed.
    pub fn new() -> (r: TypeDiffBuilder)
        ensures
            r.added@ == Seq::<ComponentId>::empty(),
            r.removed@ == Seq::<ComponentId>::empty(),
    {
        TypeDiffBuilder { added: Vec::new(), removed: Vec::new() }
    }

    /// A builder with nothing added or removed, and room for the given
    /// numbers of ids.
    pub fn with_capacity(added: usize, removed: usize) -> (r: TypeDiffBuilder)
        ensures
            r.added@ == Seq::<ComponentId>::empty(),
            r.removed@ == Seq::<ComponentId>::empty(),
    {
        TypeDiffBuilder { added: Vec::with_capacity(added), removed: Vec::with_capacity(removed) }
    }

    /// The added and the removed ids, each sorted and without repeats.
    pub fn build(self) -> (r: TypeDiff)
        ensures
            strictly_sorted(r.added@),
            strictly_sorted(r.removed@),
            forall|x: ComponentId| r.added@.contains(x) <==> self.added@.contains(x),
            forall|x: ComponentId| r.removed@.contains(x) <==> self.removed@.contains(x),
    {
        TypeDiff { added: sorted_unique(&self.added), removed: sorted_unique(&self.removed) }
    }
}

/// The ids that an entity gains and loses on a move between two types.
#[derive(Clone)]
pub struct TypeDiff {
    pub added: Vec<ComponentId>,
    pub removed: Vec<ComponentId>,
}

/// What an edge between two types carries.
pub enum EdgeContent {
    /// The edge adds or removes this one component.
    Component(ComponentId),
    /// The edge changes more, as listed.
    Diff(TypeDiff),
}

/// What the edge from the type with ids `src_ids` to the type with ids
/// `dst_ids` carries, for an edge taken for the component `id`: `id` alone
/// when the edge is not complex, otherwise the full difference.
pub fn compute_table_diff(
    src_ids: &[ComponentId],
    dst_ids: &[ComponentId],
    id: ComponentId,
) -> (r: EdgeContent)
    requires
        strictly_sorted(src_ids@),
        strictly_sorted(dst_ids@),
        src_ids@.len() + dst_ids@.len() <= usize::MAX,
    ensures
        !edge_is_complex(src_ids@, dst_ids@, id) ==> r == EdgeContent::Component(id),
        edge_is_complex(src_ids@, dst_ids@, id) ==> (r matches EdgeContent::Diff(d) && strictly_sorted(d.added@)
            && strictly_sorted(d.removed@) && (forall|x: ComponentId|
            d.added@.contains(x) <==> is_added(src_ids@, dst_ids@, x)) && (forall|x: ComponentId|
            d.removed@.contains(x) <==> is_removed(src_ids@, dst_ids@, x))),
{
    let ghost src = src_ids@;
    let ghost dst = dst_ids@;
    let mut src_index: usize = 0;
    let src_count = src_ids.len();
    let mut dst_index: usize = 0;
    let dst_count = dst_ids.len();
    let mut added_count: usize = 0;
    let mut removed_count: usize = 0;
    let mut edge_is_complex_now = false;
    let ghost mut diffs: Seq<ComponentId> = Seq::empty();
    // First the size of the difference, so that it is allocated once.
    while src_index < src_count && dst_index < dst_count
        invariant
            src == src_ids@,
            dst == dst_ids@,
            src_count == src.len(),
            dst_count == dst.len(),
            strictly_sorted(src),
            strictly_sorted(dst),
            merge_ord(src, dst, src_index as int, dst_index as int),
            diff_prefix(src, dst, src_index as int, dst_index as int, diffs),
            added_count + removed_count == diffs.len(),
            added_count <= dst_index,
            removed_count <= src_index,
            edge_is_complex_now <==> (exists|i: int| 0 <= i < diffs.len() && diffs[i] != id),
        decreases (src_count - src_index) + (dst_count - dst_index),
    {
        let src_id = src_ids[src_index];
        let dst_id = dst_ids[dst_index];
        // `dst_id` is missing from the source.
        let added = dst_id.index() < src_id.index();
        // `src_id` is missing from the destination.
        let removed = src_id.index() < dst_id.index();
        proof {
            lemma_merge_step(src, dst, src_index as int, dst_index as int);
            lemma_diff_step(src, dst, src_index as int, dst_index as int, diffs);
        }
        // The edge is complex if it adds or removes a component other than `id`.
        edge_is_complex_now = edge_is_complex_now || (added && dst_id.index() != id.index());
        edge_is_complex_now = edge_is_complex_now || (removed && src_id.index() != id.index());
        proof {
            if added {
                let d = diffs.push(dst_id);
                if dst_id.spec_index() == id.spec_index() {
                    ComponentId::lemma_index_injective(dst_id, id);
                }
                assert((exists|i: int| 0 <= i < d.len() && d[i] != id) <==> ((exists|i: int|
                    0 <= i < diffs.len() && diffs[i] != id) || dst_id != id)) by {
                    if exists|i: int| 0 <= i < diffs.len() && diffs[i] != id {
                        let i = choose|i: int| 0 <= i < diffs.len() && diffs[i] != id;
                        assert(d[i] != id);
                    }
                    if dst_id != id {
                        assert(d[diffs.len() as int] != id);
                    }
                }
                diffs = d;
            } else if removed {
                let d = diffs.push(src_id);
                if src_id.spec_index() == id.spec_index() {
                    ComponentId::lemma_index_injective(src_id, id);
                }
                assert((exists|i: int| 0 <= i < d.len() && d[i] != id) <==> ((exists|i: int|
                    0 <= i < diffs.len() && diffs[i] != id) || src_id != id)) by {
                    if exists|i: int| 0 <= i < diffs.len() && diffs[i] != id {
                        let i = choose|i: int| 0 <= i < diffs.len() && diffs[i] != id;
                        assert(d[i] != id);
                    }
                    if src_id != id {
                        assert(d[diffs.len() as int] != id);
                    }
                }
                diffs = d;
            }
        }
        if added {
            added_count = added_count + 1;
        }
        if removed {
            removed_count = removed_count + 1;
        }
        if src_id.index() <= dst_id.index() {
            src_index = src_index + 1;
        }
        if dst_id.index() <= src_id.index() {
            dst_index = dst_index + 1;
        }
    }
    // What is left of one list once the other has run out is all change.
    let dst_remaining = dst_count - dst_index;
    let src_remaining = src_count - src_index;
    added_count = added_count + dst_remaining;
    removed_count = removed_count + src_remaining;
    // The edge is complex if more than one component changes.
    edge_is_complex_now = edge_is_complex_now || (added_count + removed_count) > 1;
    proof {
        lemma_diff_end(src, dst, src_index as int, dst_index as int, diffs, id);
    }
    if !edge_is_complex_now {
        return EdgeContent::Component(id);
    }
    let mut builder = TypeDiffBuilder::with_capacity(added_count, removed_count);
    src_index = 0;
    dst_index = 0;
    while src_index < src_count && dst_index < dst_count
        invariant
            src == src_ids@,
            dst == dst_ids@,
            src_count == src.len(),
            dst_count == dst.len(),
            strictly_sorted(src),
            strictly_sorted(dst),
            merge_ord(src, dst, src_index as int, dst_index as int),
            forall|x: ComponentId|
                builder.added@.contains(x) <==> (is_added(src, dst, x) && prefix_has(
                    dst,
                    dst_index as int,
                    x,
                )),
            forall|x: ComponentId|
                builder.removed@.contains(x) <==> (is_removed(src, dst, x) && prefix_has(
                    src,
                    src_index as int,
                    x,
                )),
        decreases (src_count - src_index) + (dst_count - dst_index),
    {
        let src_id = src_ids[src_index];
        let dst_id = dst_ids[dst_index];
        proof {
            lemma_merge_step(src, dst, src_index as int, dst_index as int);
            lemma_prefix_has_step(src, src_index as int);
            lemma_prefix_has_step(dst, dst_index as int);
            lemma_push_contains(builder.added@, dst_id);
            lemma_push_contains(builder.removed@, src_id);
        }
        let ghost si = src_index as int;
        let ghost di = dst_index as int;
        let ghost old_added = builder.added@;
        let ghost old_removed = builder.removed@;
        if dst_id.index() < src_id.index() {
            builder.added.push(dst_id);
        } else if src_id.index() < dst_id.index() {
            builder.removed.push(src_id);
        }
        if src_id.index() <= dst_id.index() {
            src_index = src_index + 1;
        }
        if dst_id.index() <= src_id.index() {
            dst_index = dst_index + 1;
        }
        proof {
            assert forall|x: ComponentId|
                builder.added@.contains(x) <==> (is_added(src, dst, x) && prefix_has(
                    dst,
                    dst_index as int,
                    x,
                )) by {
                if dst_index as int == di + 1 {
                    assert(prefix_has(dst, di + 1, x) <==> (prefix_has(dst, di, x) || x == dst_id));
                }
            }
            assert forall|x: ComponentId|
                builder.removed@.contains(x) <==> (is_removed(src, dst, x) && prefix_has(
                    src,
                    src_index as int,
                    x,
                )) by {
                if src_index as int == si + 1 {
                    assert(prefix_has(src, si + 1, x) <==> (prefix_has(src, si, x) || x == src_id));
                }
            }
        }
    }
    proof {
        lemma_merge_tails(src, dst, src_index as int, dst_index as int);
    }
    let mut k: usize = dst_index;
    while k < dst_count
        invariant
            dst == dst_ids@,
            dst_count == dst.len(),
            dst_index <= k <= dst_count,
            forall|j: int| dst_index <= j < dst.len() ==> is_added(src, dst, #[trigger] dst[j]),
            forall|x: ComponentId|
                builder.added@.contains(x) <==> (is_added(src, dst, x) && prefix_has(
                    dst,
                    k as int,
                    x,
                )),
            forall|x: ComponentId|
                builder.removed@.contains(x) <==> (is_removed(src, dst, x) && prefix_has(
                    src,
                    src_index as int,
                    x,
                )),
        decreases dst_count - k,
    {
        proof {
            lemma_prefix_has_step(dst, k as int);
            lemma_push_contains(builder.added@, dst[k as int]);
        }
        let ghost old_added = builder.added@;
        let v = dst_ids[k];
        builder.added.push(v);
        let ghost old_k = k as int;
        k = k + 1;
        proof {
            assert(is_added(src, dst, dst[old_k]));
            assert forall|x: ComponentId|
                builder.added@.contains(x) <==> (is_added(src, dst, x) && prefix_has(
                    dst,
                    k as int,
                    x,
                )) by {
                assert(builder.added@.contains(x) <==> (old_added.contains(x) || x == v));
                assert(prefix_has(dst, old_k + 1, x) <==> (prefix_has(dst, old_k, x) || x == v));
            }
        }
    }
    let mut j: usize = src_index;
    while j < src_count
        invariant
            src == src_ids@,
            src_count == src.len(),
            src_index <= j <= src_count,
            forall|i: int| src_index <= i < src.len() ==> is_removed(src, dst, #[trigger] src[i]),
            forall|x: ComponentId|
                builder.added@.contains(x) <==> (is_added(src, dst, x) && prefix_has(
                    dst,
                    dst_count as int,
                    x,
                )),
            forall|x: ComponentId|
                builder.removed@.contains(x) <==> (is_removed(src, dst, x) && prefix_has(
                    src,
                    j as int,
                    x,
                )),
        decreases src_count - j,
    {
        proof {
            lemma_prefix_has_step(src, j as int);
            lemma_push_contains(builder.removed@, src[j as int]);
        }
        let ghost old_removed = builder.removed@;
        let v = src_ids[j];
        builder.removed.push(v);
        let ghost old_j = j as int;
        j = j + 1;
        proof {
            assert(is_removed(src, dst, src[old_j]));
            assert forall|x: ComponentId|
                builder.removed@.contains(x) <==> (is_removed(src, dst, x) && prefix_has(
                    src,
                    j as int,
                    x,
                )) by {
                assert(builder.removed@.contains(x) <==> (old_removed.contains(x) || x == v));
                assert(prefix_has(src, old_j + 1, x) <==> (prefix_has(src, old_j, x) || x == v));
            }
        }
    }
    proof {
        assert forall|x: ComponentId| is_added(src, dst, x) implies prefix_has(
            dst,
            dst.len() as int,
            x,
        ) by {
            let i = choose|i: int| 0 <= i < dst.len() && dst[i] == x;
        }
        assert forall|x: ComponentId| is_removed(src, dst, x) implies prefix_has(
            src,
            src.len() as int,
            x,
        ) by {
            let i = choose|i: int| 0 <= i < src.len() && src[i] == x;
        }
    }
    let diff = builder.build();
    EdgeContent::Diff(diff)
}

} // verus!
