//! Component identifiers, storage kinds and change ticks.

use std::alloc::Layout;

use vstd::prelude::*;

use crate::archetype::{ArchetypeComponentId, ArchetypeId};
use crate::index::SparseSetIndex;
use crate::table::TableId;

verus! {

#[verifier::external_type_specification]
#[verifier::external_body]
pub struct ExLayout(Layout);

/// The identifier of a component type.
#[derive(Clone, Copy, Debug, PartialEq, Eq, Hash, PartialOrd, Ord)]
pub struct ComponentId(usize);

impl ComponentId {
    pub closed spec fn spec_index(&self) -> usize {
        self.0
    }

    /// The component id with the given index.
    pub fn new(index: usize) -> (r: ComponentId)
        ensures
            r.spec_index() == index,
    {
        ComponentId(index)
    }

    /// The index of the component id.
    pub fn index(self) -> (r: usize)
        ensures
            r == self.spec_index(),
    {
        self.0
    }

    /// Component ids with the same index are the same.
    pub proof fn lemma_index_injective(a: ComponentId, b: ComponentId)
        requires
            a.spec_index() == b.spec_index(),
        ensures
            a == b,
    {
    }
}

impl SparseSetIndex for ComponentId {
    closed spec fn spec_sparse_set_index(&self) -> usize {
        self.0
    }

    open spec fn spec_index_fits(value: usize) -> bool {
        true
    }

    fn sparse_set_index(&self) -> (r: usize) {
        self.0
    }

    fn get_sparse_set_index(value: usize) -> (r: Self) {
        ComponentId(value)
    }
}

/// Where the values of a component are stored.
#[derive(Clone, Copy, Debug, PartialEq, Eq, Hash)]
pub enum StorageType {
    /// In the table of the entity's archetype.
    Table,
    /// In a sparse set of the component.
    SparseSet,
}

/// A change tick.
#[derive(Clone, Copy, Debug, PartialEq, Eq, Hash)]
pub struct Tick {
    tick: u32,
}

impl Tick {
    pub closed spec fn spec_get(&self) -> u32 {
        self.tick
    }

    /// The tick with the given value.
    pub closed spec fn spec_new(tick: u32) -> Tick {
        Tick { tick }
    }

    /// The tick zero.
    pub open spec fn spec_zero() -> Tick {
        Tick::spec_new(0)
    }

    /// The tick with the given value.
    pub fn new(tick: u32) -> (r: Tick)
        ensures
            r.spec_get() == tick,
            r == Tick::spec_new(tick),
    {
        Tick { tick }
    }

    /// The value of the tick.
    pub fn get(self) -> (r: u32)
        ensures
            r == self.spec_get(),
    {
        self.tick
    }
}

/// The ticks at which a component value was added and last changed.
#[derive(Clone, Copy, Debug, PartialEq, Eq)]
pub struct ComponentTicks {
    pub added: Tick,
    pub changed: Tick,
}

/// What a table needs to know of a component: its id, the layout of its
/// values and where they are stored.
#[derive(Clone, Copy, Debug)]
pub struct ComponentInfo {
    id: ComponentId,
    layout: Layout,
    storage_type: StorageType,
}

impl ComponentInfo {
    pub closed spec fn spec_id(&self) -> ComponentId {
        self.id
    }

    pub closed spec fn spec_layout(&self) -> Layout {
        self.layout
    }

    pub closed spec fn spec_storage_type(&self) -> StorageType {
        self.storage_type
    }

    pub fn new(id: ComponentId, layout: Layout, storage_type: StorageType) -> (r: ComponentInfo)
        ensures
            r.spec_id() == id,
            r.spec_layout() == layout,
            r.spec_storage_type() == storage_type,
    {
        ComponentInfo { id, layout, storage_type }
    }

    pub fn id(&self) -> (r: ComponentId)
        ensures
            r == self.spec_id(),
    {
        self.id
    }

    pub fn layout(&self) -> (r: Layout)
        ensures
            r == self.spec_layout(),
    {
        self.layout
    }

    pub fn storage_type(&self) -> (r: StorageType)
        ensures
            r == self.spec_storage_type(),
    {
        self.storage_type
    }
}

/// Where a component's values live in one archetype: its archetype
/// component id and its column among the archetype's components.
#[derive(Clone, Copy, Debug, PartialEq, Eq)]
pub struct ComponentArchetypeInfo {
    pub id: ArchetypeComponentId,
    pub column: usize,
}

/// Where a component's values live in one table: its column.
#[derive(Clone, Copy, Debug, PartialEq, Eq)]
pub struct ComponentTableInfo {
    pub column: usize,
}

/// The archetypes and tables that hold one component.
pub struct ComponentLocations {
    archetypes: Vec<(ArchetypeId, ComponentArchetypeInfo)>,
    tables: Vec<(TableId, ComponentTableInfo)>,
}

/// The value that an association list with distinct keys gives `k`.
pub open spec fn assoc_get<K, V>(s: Seq<(K, V)>, k: K) -> Option<V> {
    if exists|i: int| 0 <= i < s.len() && (#[trigger] s[i]).0 == k {
        Some(s[choose|i: int| 0 <= i < s.len() && (#[trigger] s[i]).0 == k].1)
    } else {
        None
    }
}

/// The keys of an association list are distinct.
pub open spec fn assoc_keys_distinct<K, V>(s: Seq<(K, V)>) -> bool {
    forall|i: int, j: int| 0 <= i < j < s.len() ==> (#[trigger] s[i]).0 != (#[trigger] s[j]).0
}

/// In an association list with distinct keys, the entry at `i` is what its key
/// gives.
pub(crate) proof fn lemma_assoc_get_at<K, V>(s: Seq<(K, V)>, i: int)
    requires
        assoc_keys_distinct(s),
        0 <= i < s.len(),
    ensures
        assoc_get(s, s[i].0) == Some(s[i].1),
{
    let k = s[i].0;
    assert(exists|j: int| 0 <= j < s.len() && (#[trigger] s[j]).0 == k);
    let j = choose|j: int| 0 <= j < s.len() && (#[trigger] s[j]).0 == k;
    if j != i {
        if j < i {
            assert(s[j].0 != s[i].0);
        } else {
            assert(s[i].0 != s[j].0);
        }
    }
}

impl ComponentLocations {
    /// Where the component lives in archetype `a`.
    pub closed spec fn spec_archetype(&self, a: ArchetypeId) -> Option<ComponentArchetypeInfo> {
        assoc_get(self.archetypes@, a)
    }

    /// Where the component lives in table `t`.
    pub closed spec fn spec_table(&self, t: TableId) -> Option<ComponentTableInfo> {
        assoc_get(self.tables@, t)
    }

    pub closed spec fn wf(&self) -> bool {
        &&& assoc_keys_distinct(self.archetypes@)
        &&& assoc_keys_distinct(self.tables@)
    }

    /// A component that lives nowhere yet.
    fn new() -> (r: ComponentLocations)
        ensures
            r.wf(),
            forall|a: ArchetypeId| #[trigger] r.spec_archetype(a) is None,
            forall|t: TableId| #[trigger] r.spec_table(t) is None,
    {
        ComponentLocations { archetypes: Vec::new(), tables: Vec::new() }
    }

    /// Where the component lives in archetype `a`.
    pub fn archetype(&self, a: ArchetypeId) -> (r: Option<ComponentArchetypeInfo>)
        requires
            self.wf(),
        ensures
            r == self.spec_archetype(a),
    {
        let mut i: usize = 0;
        while i < self.archetypes.len()
            invariant
                i <= self.archetypes@.len(),
                self.wf(),
                forall|j: int| 0 <= j < i ==> (#[trigger] self.archetypes@[j]).0 != a,
            decreases self.archetypes@.len() - i,
        {
            if self.archetypes[i].0.index() == a.index() {
                proof {
                    ArchetypeId::lemma_index_injective(self.archetypes@[i as int].0, a);
                    lemma_assoc_get_at(self.archetypes@, i as int);
                }
                return Some(self.archetypes[i].1);
            }
            i = i + 1;
        }
        None
    }

    /// Where the component lives in table `t`.
    pub fn table(&self, t: TableId) -> (r: Option<ComponentTableInfo>)
        requires
            self.wf(),
        ensures
            r == self.spec_table(t),
    {
        let mut i: usize = 0;
        while i < self.tables.len()
            invariant
                i <= self.tables@.len(),
                self.wf(),
                forall|j: int| 0 <= j < i ==> (#[trigger] self.tables@[j]).0 != t,
            decreases self.tables@.len() - i,
        {
            if self.tables[i].0.index() == t.index() {
                proof {
                    TableId::lemma_index_injective(self.tables@[i as int].0, t);
                    lemma_assoc_get_at(self.tables@, i as int);
                }
                return Some(self.tables[i].1);
            }
            i = i + 1;
        }
        None
    }

    /// Records where the component lives in archetype `a`.
    fn insert_archetype(&mut self, a: ArchetypeId, info: ComponentArchetypeInfo)
        requires
            old(self).wf(),
        ensures
            final(self).wf(),
            final(self).spec_archetype(a) == Some(info),
            forall|b: ArchetypeId| b != a ==> #[trigger] final(self).spec_archetype(b) == old(self).spec_archetype(b),
            forall|t: TableId| #[trigger] final(self).spec_table(t) == old(self).spec_table(t),
    {
        let mut i: usize = 0;
        while i < self.archetypes.len()
            invariant
                i <= self.archetypes@.len(),
                self.archetypes@ == old(self).archetypes@,
                self.tables@ == old(self).tables@,
                old(self).wf(),
                forall|j: int| 0 <= j < i ==> (#[trigger] self.archetypes@[j]).0 != a,
            decreases self.archetypes@.len() - i,
        {
            if self.archetypes[i].0.index() == a.index() {
                proof {
                    ArchetypeId::lemma_index_injective(self.archetypes@[i as int].0, a);
                }
                self.archetypes.set(i, (a, info));
                proof {
                    let s = self.archetypes@;
                    let o = old(self).archetypes@;
                    assert forall|x: int, y: int| 0 <= x < y < s.len() implies (#[trigger] s[x]).0 != (#[trigger] s[y]).0 by {
                        assert(o[x].0 != o[y].0);
                    }
                    lemma_assoc_get_at(s, i as int);
                    assert forall|b: ArchetypeId| b != a implies #[trigger] assoc_get(s, b) == assoc_get(o, b) by {
                        if exists|j: int| 0 <= j < o.len() && (#[trigger] o[j]).0 == b {
                            let j = choose|j: int| 0 <= j < o.len() && (#[trigger] o[j]).0 == b;
                            lemma_assoc_get_at(o, j);
                            assert(s[j] == o[j]);
                            lemma_assoc_get_at(s, j);
                        } else {
                            assert forall|j: int| 0 <= j < s.len() implies (#[trigger] s[j]).0 != b by {
                                if j != i {
                                    assert(s[j] == o[j]);
                                }
                            }
                        }
                    }
                }
                return;
            }
            i = i + 1;
        }
        self.archetypes.push((a, info));
        proof {
            let s = self.archetypes@;
            let o = old(self).archetypes@;
            let n = o.len() as int;
            assert forall|x: int, y: int| 0 <= x < y < s.len() implies (#[trigger] s[x]).0 != (#[trigger] s[y]).0 by {
                if y < n {
                    assert(o[x].0 != o[y].0);
                } else {
                    assert(o[x].0 != a);
                }
            }
            lemma_assoc_get_at(s, n);
            assert forall|b: ArchetypeId| b != a implies #[trigger] assoc_get(s, b) == assoc_get(o, b) by {
                if exists|j: int| 0 <= j < o.len() && (#[trigger] o[j]).0 == b {
                    let j = choose|j: int| 0 <= j < o.len() && (#[trigger] o[j]).0 == b;
                    lemma_assoc_get_at(o, j);
                    assert(s[j] == o[j]);
                    lemma_assoc_get_at(s, j);
                } else {
                    assert forall|j: int| 0 <= j < s.len() implies (#[trigger] s[j]).0 != b by {
                        if j < n {
                            assert(s[j] == o[j]);
                        }
                    }
                }
            }
        }
    }

    /// Records where the component lives in table `t`.
    fn insert_table(&mut self, t: TableId, info: ComponentTableInfo)
        requires
            old(self).wf(),
        ensures
            final(self).wf(),
            final(self).spec_table(t) == Some(info),
            forall|u: TableId| u != t ==> #[trigger] final(self).spec_table(u) == old(self).spec_table(u),
            forall|a: ArchetypeId| #[trigger] final(self).spec_archetype(a) == old(self).spec_archetype(a),
    {
        let mut i: usize = 0;
        while i < self.tables.len()
            invariant
                i <= self.tables@.len(),
                self.tables@ == old(self).tables@,
                self.archetypes@ == old(self).archetypes@,
                old(self).wf(),
                forall|j: int| 0 <= j < i ==> (#[trigger] self.tables@[j]).0 != t,
            decreases self.tables@.len() - i,
        {
            if self.tables[i].0.index() == t.index() {
                proof {
                    TableId::lemma_index_injective(self.tables@[i as int].0, t);
                }
                self.tables.set(i, (t, info));
                proof {
                    let s = self.tables@;
                    let o = old(self).tables@;
                    assert forall|x: int, y: int| 0 <= x < y < s.len() implies (#[trigger] s[x]).0 != (#[trigger] s[y]).0 by {
                        assert(o[x].0 != o[y].0);
                    }
                    lemma_assoc_get_at(s, i as int);
                    assert forall|u: TableId| u != t implies #[trigger] assoc_get(s, u) == assoc_get(o, u) by {
                        if exists|j: int| 0 <= j < o.len() && (#[trigger] o[j]).0 == u {
                            let j = choose|j: int| 0 <= j < o.len() && (#[trigger] o[j]).0 == u;
                            lemma_assoc_get_at(o, j);
                            assert(s[j] == o[j]);
                            lemma_assoc_get_at(s, j);
                        } else {
                            assert forall|j: int| 0 <= j < s.len() implies (#[trigger] s[j]).0 != u by {
                                if j != i {
                                    assert(s[j] == o[j]);
                                }
                            }
                        }
                    }
                }
                return;
            }
            i = i + 1;
        }
        self.tables.push((t, info));
        proof {
            let s = self.tables@;
            let o = old(self).tables@;
            let n = o.len() as int;
            assert forall|x: int, y: int| 0 <= x < y < s.len() implies (#[trigger] s[x]).0 != (#[trigger] s[y]).0 by {
                if y < n {
                    assert(o[x].0 != o[y].0);
                } else {
                    assert(o[x].0 != t);
                }
            }
            lemma_assoc_get_at(s, n);
            assert forall|u: TableId| u != t implies #[trigger] assoc_get(s, u) == assoc_get(o, u) by {
                if exists|j: int| 0 <= j < o.len() && (#[trigger] o[j]).0 == u {
                    let j = choose|j: int| 0 <= j < o.len() && (#[trigger] o[j]).0 == u;
                    lemma_assoc_get_at(o, j);
                    assert(s[j] == o[j]);
                    lemma_assoc_get_at(s, j);
                } else {
                    assert forall|j: int| 0 <= j < s.len() implies (#[trigger] s[j]).0 != u by {
                        if j < n {
                            assert(s[j] == o[j]);
                        }
                    }
                }
            }
        }
    }
}

/// The registry of component types: the info of each, by index, and where
/// its values live.
pub struct Components {
    infos: Vec<ComponentInfo>,
    location_index: Vec<ComponentLocations>,
}

impl Components {
    /// The info of each registered component, by index.
    pub closed spec fn spec_infos(&self) -> Seq<ComponentInfo> {
        self.infos@
    }

    /// Whether `id` names a registered component.
    pub open spec fn spec_has(&self, id: ComponentId) -> bool {
        id.spec_index() < self.spec_infos().len()
    }

    /// The info of a registered component carries its id.
    pub proof fn lemma_info_id(&self, id: ComponentId)
        requires
            self.wf(),
            self.spec_has(id),
        ensures
            self.spec_infos()[id.spec_index() as int].spec_id() == id,
    {
        let i = id.spec_index() as int;
        assert(self.infos@[i].spec_id().spec_index() == i);
        ComponentId::lemma_index_injective(self.infos@[i].spec_id(), id);
    }

    /// Where the component of index `i` lives.
    pub closed spec fn spec_locations(&self, i: int) -> ComponentLocations {
        self.location_index@[i]
    }

    /// Each info sits at the index of its id, and each component has its
    /// locations.
    pub closed spec fn wf(&self) -> bool {
        &&& self.infos@.len() == self.location_index@.len()
        &&& forall|i: int|
            0 <= i < self.infos@.len() ==> (#[trigger] self.infos@[i]).spec_id().spec_index() == i
        &&& forall|i: int|
            0 <= i < self.location_index@.len() ==> (#[trigger] self.location_index@[i]).wf()
    }

    /// A registry without components.
    pub fn new() -> (r: Components)
        ensures
            r.wf(),
            r.spec_infos() == Seq::<ComponentInfo>::empty(),
    {
        Components { infos: Vec::new(), location_index: Vec::new() }
    }

    /// The number of registered components.
    pub fn len(&self) -> (r: usize)
        ensures
            r == self.spec_infos().len(),
    {
        self.infos.len()
    }

    /// Registers a component with the given layout and storage type, under
    /// the next index.
    pub fn init_component_info(&mut self, layout: Layout, storage_type: StorageType) -> (r:
        ComponentId)
        requires
            old(self).wf(),
        ensures
            final(self).wf(),
            r.spec_index() == old(self).spec_infos().len(),
            final(self).spec_infos() == old(self).spec_infos().push(
                final(self).spec_infos()[r.spec_index() as int],
            ),
            final(self).spec_infos()[r.spec_index() as int].spec_id() == r,
            final(self).spec_infos()[r.spec_index() as int].spec_layout() == layout,
            final(self).spec_infos()[r.spec_index() as int].spec_storage_type() == storage_type,
            forall|i: int|
                0 <= i < old(self).spec_infos().len() ==> #[trigger] final(self).spec_locations(i)
                    == old(self).spec_locations(i),
    {
        let id = ComponentId::new(self.infos.len());
        self.infos.push(ComponentInfo::new(id, layout, storage_type));
        self.location_index.push(ComponentLocations::new());
        proof {
            let n = old(self).infos@.len() as int;
            assert(self.infos@[n].spec_id() == id);
            assert(self.location_index@[n].wf());
            assert forall|i: int| 0 <= i < self.infos@.len() implies (#[trigger] self.infos@[i]).spec_id().spec_index() == i by {
                if i < n {
                    assert(self.infos@[i] == old(self).infos@[i]);
                }
            }
            assert forall|i: int| 0 <= i < self.location_index@.len() implies (#[trigger] self.location_index@[i]).wf() by {
                if i < n {
                    assert(self.location_index@[i] == old(self).location_index@[i]);
                }
            }
            assert(self.infos@ =~= old(self).infos@.push(self.infos@[n]));
        }
        id
    }

    /// The info of the component, if it is registered.
    pub fn get_info(&self, id: ComponentId) -> (r: Option<&ComponentInfo>)
        ensures
            r is Some <==> self.spec_has(id),
            r matches Some(info) ==> *info == self.spec_infos()[id.spec_index() as int],
    {
        if id.index() < self.infos.len() {
            Some(&self.infos[id.index()])
        } else {
            None
        }
    }

    /// Where the component lives, if it is registered.
    pub fn locations(&self, id: ComponentId) -> (r: Option<&ComponentLocations>)
        requires
            self.wf(),
        ensures
            r is Some <==> self.spec_has(id),
            r matches Some(l) ==> *l == self.spec_locations(id.spec_index() as int) && l.wf(),
    {
        if id.index() < self.location_index.len() {
            Some(&self.location_index[id.index()])
        } else {
            None
        }
    }

    /// Records where the registered component `id` lives in archetype `a`.
    pub(crate) fn record_archetype(&mut self, id: ComponentId, a: ArchetypeId, info: ComponentArchetypeInfo)
        requires
            old(self).wf(),
            old(self).spec_has(id),
        ensures
            final(self).wf(),
            final(self).spec_infos() == old(self).spec_infos(),
            final(self).spec_locations(id.spec_index() as int).spec_archetype(a) == Some(info),
            forall|b: ArchetypeId|
                b != a ==> #[trigger] final(self).spec_locations(id.spec_index() as int).spec_archetype(b)
                    == old(self).spec_locations(id.spec_index() as int).spec_archetype(b),
            forall|t: TableId|
                #[trigger] final(self).spec_locations(id.spec_index() as int).spec_table(t)
                    == old(self).spec_locations(id.spec_index() as int).spec_table(t),
            forall|i: int|
                0 <= i < old(self).spec_infos().len() && i != id.spec_index()
                    ==> #[trigger] final(self).spec_locations(i) == old(self).spec_locations(i),
    {
        let k = id.index();
        proof {
            assert(self.location_index@[k as int].wf());
        }
        self.location_index[k].insert_archetype(a, info);
        proof {
            assert forall|i: int| 0 <= i < self.location_index@.len() implies (#[trigger] self.location_index@[i]).wf() by {
                if i != k {
                    assert(self.location_index@[i] == old(self).location_index@[i]);
                }
            }
        }
    }

    /// Records where the registered component `id` lives in table `t`.
    pub(crate) fn record_table(&mut self, id: ComponentId, t: TableId, info: ComponentTableInfo)
        requires
            old(self).wf(),
            old(self).spec_has(id),
        ensures
            final(self).wf(),
            final(self).spec_infos() == old(self).spec_infos(),
            final(self).spec_locations(id.spec_index() as int).spec_table(t) == Some(info),
            forall|u: TableId|
                u != t ==> #[trigger] final(self).spec_locations(id.spec_index() as int).spec_table(u)
                    == old(self).spec_locations(id.spec_index() as int).spec_table(u),
            forall|a: ArchetypeId|
                #[trigger] final(self).spec_locations(id.spec_index() as int).spec_archetype(a)
                    == old(self).spec_locations(id.spec_index() as int).spec_archetype(a),
            forall|i: int|
                0 <= i < old(self).spec_infos().len() && i != id.spec_index()
                    ==> #[trigger] final(self).spec_locations(i) == old(self).spec_locations(i),
    {
        let k = id.index();
        proof {
            assert(self.location_index@[k as int].wf());
        }
        self.location_index[k].insert_table(t, info);
        proof {
            assert forall|i: int| 0 <= i < self.location_index@.len() implies (#[trigger] self.location_index@[i]).wf() by {
                if i != k {
                    assert(self.location_index@[i] == old(self).location_index@[i]);
                }
            }
        }
    }
}

} // verus!
