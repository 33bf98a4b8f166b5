//! Archetypes: the groups of entities that have the same set of components.

use vstd::prelude::*;
use vstd::slice::slice_to_vec;

use fixedbitset::FixedBitSet;
use crate::bitset::{bitset_len, bitset_ones, bitset_set, bitset_with_capacity, bitset_wf};

use crate::bundle::{BundleId, BundleInfo};
use crate::component::{ComponentArchetypeInfo, ComponentId, ComponentInfo, ComponentTableInfo, Components, StorageType};
use crate::entity::{Entity, EntityLocation};
use crate::index::SparseSetIndex;
use crate::table::{same_ids, swapped_in, swap_removed, TableId, TableRow, Tables};
use crate::type_def::{lemma_sorted_unique, sorted_unique, strictly_sorted};

verus! {

/// The identifier of an archetype.
#[derive(Clone, Copy, Debug, Eq, Hash, Ord, PartialEq, PartialOrd)]
pub struct ArchetypeId(u32);

impl ArchetypeId {
    pub closed spec fn spec_index(&self) -> u32 {
        self.0
    }

    /// The id of the archetype without components.
    pub fn empty() -> (r: ArchetypeId)
        ensures
            r.spec_index() == 0,
    {
        ArchetypeId(0)
    }

    /// An id that names no archetype (all bits set).
    pub fn invalid() -> (r: ArchetypeId)
        ensures
            r.spec_index() == u32::MAX,
    {
        ArchetypeId(u32::MAX)
    }

    /// The archetype id of the given index, which must fit in 32 bits.
    pub fn new(index: usize) -> (r: Self)
        requires
            index <= u32::MAX,
        ensures
            r.spec_index() == index,
    {
        ArchetypeId(index as u32)
    }

    /// The index of the archetype.
    pub fn index(self) -> (r: usize)
        ensures
            r == self.spec_index(),
    {
        self.0 as usize
    }

    /// Archetype ids with the same index are the same.
    pub proof fn lemma_index_injective(a: ArchetypeId, b: ArchetypeId)
        requires
            a.spec_index() == b.spec_index(),
        ensures
            a == b,
    {
    }
}

impl SparseSetIndex for ArchetypeId {
    closed spec fn spec_sparse_set_index(&self) -> usize {
        self.0 as usize
    }

    open spec fn spec_index_fits(value: usize) -> bool {
        value <= u32::MAX
    }

    fn sparse_set_index(&self) -> (r: usize) {
        self.0 as usize
    }

    fn get_sparse_set_index(value: usize) -> (r: Self) {
        Self(value as u32)
    }
}

/// The identifier of a component's data in one archetype.
#[derive(Clone, Copy, Debug, Hash, Eq, Ord, PartialEq, PartialOrd)]
pub struct ArchetypeComponentId(usize);

impl ArchetypeComponentId {
    pub closed spec fn spec_index(&self) -> usize {
        self.0
    }

    /// The archetype component id of the given index.
    pub fn new(index: usize) -> (r: Self)
        ensures
            r.spec_index() == index,
    {
        Self(index)
    }

    /// The index of the id.
    pub fn index(self) -> (r: usize)
        ensures
            r == self.spec_index(),
    {
        self.0
    }
}

impl SparseSetIndex for ArchetypeComponentId {
    closed spec fn spec_sparse_set_index(&self) -> usize {
        self.0
    }

    open spec fn spec_index_fits(value: usize) -> bool {
        true
    }

    fn sparse_set_index(&self) -> (r: usize) {
        self.0
    }

    fn get_sparse_set_index(value: usize) -> (r: Self) {
        Self(value)
    }
}

/// A row of an archetype.
#[derive(Debug, Copy, Clone, Eq, PartialEq)]
pub struct ArchetypeRow(u32);

impl ArchetypeRow {
    pub closed spec fn spec_index(&self) -> u32 {
        self.0
    }

    /// A row that names no row (all bits set).
    pub fn invalid() -> (r: Self)
        ensures
            r.spec_index() == u32::MAX,
    {
        ArchetypeRow(u32::MAX)
    }

    /// The row of the given index, truncated to 32 bits.
    pub fn new(index: usize) -> (r: Self)
        ensures
            r.spec_index() == index as u32,
    {
        Self(index as u32)
    }

    /// The index of the row.
    pub fn index(self) -> (r: usize)
        ensures
            r == self.spec_index(),
    {
        self.0 as usize
    }
}

/// An entity of an archetype and the table row where its components live.
#[derive(Debug, Copy, Clone, PartialEq, Eq)]
pub struct ArchetypeEntity {
    entity: Entity,
    table_row: TableRow,
}

impl ArchetypeEntity {
    pub closed spec fn spec_entity(&self) -> Entity {
        self.entity
    }

    pub closed spec fn spec_table_row(&self) -> TableRow {
        self.table_row
    }

    /// The ID of the entity.
    pub fn entity(&self) -> (r: Entity)
        ensures
            r == self.spec_entity(),
    {
        self.entity
    }

    /// The row in the table where the entity's components are stored.
    pub fn table_row(&self) -> (r: TableRow)
        ensures
            r == self.spec_table_row(),
    {
        self.table_row
    }
}

/// A count that increments every time an archetype is created or destroyed.
#[derive(Debug, Copy, Clone, Eq, PartialEq, Ord, PartialOrd)]
pub struct ArchetypeGeneration(usize);

impl ArchetypeGeneration {
    pub closed spec fn spec_value(&self) -> usize {
        self.0
    }

    /// The generation before any archetype exists.
    pub fn initial() -> (r: Self)
        ensures
            r.spec_value() == 0,
    {
        ArchetypeGeneration(0)
    }

    /// The count.
    pub fn value(self) -> (r: usize)
        ensures
            r == self.spec_value(),
    {
        self.0
    }
}

impl Default for ArchetypeGeneration {
    fn default() -> (r: Self)
        ensures
            r.spec_value() == 0,
    {
        Self::initial()
    }
}

/// How an archetype holds one of its components.
#[derive(Debug, Copy, Clone, PartialEq, Eq)]
pub struct ArchetypeComponentInfo {
    pub storage_type: StorageType,
    pub archetype_component_id: ArchetypeComponentId,
}

/// What a swap-remove out of an archetype reports: the entity moved into the
/// freed row, if any, and the table row of the removed entity.
#[derive(Debug, Copy, Clone, PartialEq, Eq)]
pub struct ArchetypeSwapRemoveResult {
    pub swapped_entity: Option<Entity>,
    pub table_row: TableRow,
}

/// The group of entities that share one set of components.
pub struct Archetype {
    id: ArchetypeId,
    table_id: TableId,
    entities: Vec<ArchetypeEntity>,
    component_ids: Vec<ComponentId>,
    component_infos: Vec<ArchetypeComponentInfo>,
    edges: ArchetypeEdges,
}

/// The id of an edge of the archetype graph.
#[derive(Clone, Copy, Debug, PartialEq, Eq, Hash)]
pub struct ArchetypeEdgeId(u32);

impl ArchetypeEdgeId {
    pub closed spec fn spec_index(&self) -> u32 {
        self.0
    }

    /// The edge id of the given index, truncated to 32 bits.
    pub fn new(index: usize) -> (r: Self)
        ensures
            r.spec_index() == index as u32,
    {
        ArchetypeEdgeId(index as u32)
    }

    /// The index of the edge.
    pub fn index(self) -> (r: usize)
        ensures
            r == self.spec_index(),
    {
        self.0 as usize
    }
}

/// What an edge adds or removes.
pub enum ArchetypeEdgeContents {
    /// One component.
    Component(ComponentId),
    /// The components of a bundle.
    Bundle(BundleInfo),
}

/// Whether an edge adds or removes, and what the source archetype had of it.
pub enum ArchetypeEdgeAction {
    /// A component is added; `true` when the source did not have it yet.
    Insert(bool),
    /// A component is removed; `true` when the source had it.
    Remove(bool),
    /// A bundle is added; a bit is set for each of its components the source
    /// did not have yet.
    InsertBundle(FixedBitSet),
    /// A bundle is removed; `true` when the source had all of it.
    RemoveBundle(bool),
}

/// A move from one archetype to another that has happened, kept so that the
/// same move is not worked out again.
pub struct ArchetypeEdge {
    src: ArchetypeId,
    dst: ArchetypeId,
    id: ArchetypeEdgeId,
    contents: ArchetypeEdgeContents,
    action: ArchetypeEdgeAction,
    /// The previous edge in the destination's list of incoming edges.
    prev_incoming: Option<ArchetypeEdgeId>,
    /// The next edge in the destination's list of incoming edges.
    next_incoming: Option<ArchetypeEdgeId>,
}

/// The edges that start at or lead to an archetype. The outgoing edges are
/// found by what they add or remove, keyed by the index of the component or
/// bundle; the incoming ones form two lists, through the edges themselves.
pub struct ArchetypeEdges {
    outgoing_insert: Vec<ArchetypeEdgeId>,
    outgoing_remove: Vec<ArchetypeEdgeId>,
    outgoing_insert_index: Vec<(usize, ArchetypeEdgeId)>,
    outgoing_remove_index: Vec<(usize, ArchetypeEdgeId)>,
    outgoing_insert_bundle_index: Vec<(usize, ArchetypeEdgeId)>,
    outgoing_remove_bundle_index: Vec<(usize, ArchetypeEdgeId)>,
    incoming_insert: Option<ArchetypeEdgeId>,
    incoming_remove: Option<ArchetypeEdgeId>,
}

/// The position of `id` in `ids`, if it occurs.
fn find_component(ids: &Vec<ComponentId>, id: ComponentId) -> (r: Option<usize>)
    ensures
        r is Some <==> ids@.contains(id),
        r matches Some(i) ==> i < ids@.len() && ids@[i as int] == id,
{
    let mut i: usize = 0;
    while i < ids.len()
        invariant
            i <= ids@.len(),
            forall|j: int| 0 <= j < i ==> ids@[j] != id,
        decreases ids@.len() - i,
    {
        if ids[i].index() == id.index() {
            proof {
                ComponentId::lemma_index_injective(ids@[i as int], id);
            }
            return Some(i);
        }
        i = i + 1;
    }
    None
}

/// The ids of `ids` whose info in `infos` has storage type `storage`, in order.
pub open spec fn ids_with_storage(
    ids: Seq<ComponentId>,
    infos: Seq<ArchetypeComponentInfo>,
    storage: StorageType,
) -> Seq<ComponentId>
    decreases ids.len(),
{
    if ids.len() == 0 || infos.len() == 0 {
        Seq::empty()
    } else {
        let rest = ids_with_storage(ids.drop_last(), infos.drop_last(), storage);
        if infos.last().storage_type == storage {
            rest.push(ids.last())
        } else {
            rest
        }
    }
}

impl Archetype {
    pub closed spec fn spec_id(&self) -> ArchetypeId {
        self.id
    }

    pub closed spec fn spec_table_id(&self) -> TableId {
        self.table_id
    }

    /// The entities, by row.
    pub closed spec fn spec_entities(&self) -> Seq<ArchetypeEntity> {
        self.entities@
    }

    /// The component ids, in the order they were given.
    pub closed spec fn spec_component_ids(&self) -> Seq<ComponentId> {
        self.component_ids@
    }

    /// The info of each component, in the order of `spec_component_ids`.
    pub closed spec fn spec_component_infos(&self) -> Seq<ArchetypeComponentInfo> {
        self.component_infos@
    }

    /// The edges that start at or lead to the archetype.
    pub closed spec fn spec_edges(&self) -> ArchetypeEdges {
        self.edges
    }

    /// One info per component, each component once.
    pub closed spec fn wf(&self) -> bool {
        &&& self.component_ids@.len() == self.component_infos@.len()
        &&& self.component_ids@.no_duplicates()
        &&& self.edges.wf()
    }

    /// The info of `id`, if the archetype has that component.
    pub open spec fn spec_info(&self, id: ComponentId) -> Option<ArchetypeComponentInfo> {
        if self.spec_component_ids().contains(id) {
            Some(self.spec_component_infos()[self.spec_component_ids().index_of(id)])
        } else {
            None
        }
    }

    /// Adds `id` with `info`; an id that is there already keeps its place and
    /// takes the new info.
    fn insert_component(&mut self, id: ComponentId, info: ArchetypeComponentInfo)
        requires
            old(self).wf(),
        ensures
            final(self).wf(),
            final(self).spec_id() == old(self).spec_id(),
            final(self).spec_table_id() == old(self).spec_table_id(),
            final(self).spec_entities() == old(self).spec_entities(),
            old(self).spec_component_ids().contains(id) ==> final(self).spec_component_ids()
                == old(self).spec_component_ids(),
            !old(self).spec_component_ids().contains(id) ==> final(self).spec_component_ids()
                == old(self).spec_component_ids().push(id),
            !old(self).spec_component_ids().contains(id) ==> final(self).spec_component_infos()
                == old(self).spec_component_infos().push(info),
            final(self).spec_edges() == old(self).spec_edges(),
            forall|x: ComponentId|
                #[trigger] final(self).spec_info(x) == if x == id {
                    Some(info)
                } else {
                    old(self).spec_info(x)
                },
    {
        match find_component(&self.component_ids, id) {
            Some(i) => {
                self.component_infos.set(i, info);
                proof {
                    assert forall|x: ComponentId| #[trigger] self.spec_info(x) == if x == id {
                        Some(info)
                    } else {
                        old(self).spec_info(x)
                    } by {
                        if self.component_ids@.contains(x) {
                            let k = self.component_ids@.index_of(x);
                            if x == id {
                                assert(k == i) by {
                                    assert(self.component_ids@.no_duplicates());
                                }
                            } else {
                                assert(k != i);
                            }
                        }
                    }
                }
            },
            None => {
                self.component_ids.push(id);
                self.component_infos.push(info);
                proof {
                    let old_ids = old(self).component_ids@;
                    assert forall|a: int, b: int| 0 <= a < b < self.component_ids@.len() implies self.component_ids@[a]
                        != self.component_ids@[b] by {
                        if b == old_ids.len() {
                            assert(old_ids.contains(self.component_ids@[a]) || true);
                            if self.component_ids@[a] == id {
                                assert(old_ids[a] == id);
                                assert(old_ids.contains(id));
                            }
                        }
                    }
                    assert forall|x: ComponentId| #[trigger] self.spec_info(x) == if x == id {
                        Some(info)
                    } else {
                        old(self).spec_info(x)
                    } by {
                        let ids = self.component_ids@;
                        if x == id {
                            assert(ids[old_ids.len() as int] == id);
                            let k = ids.index_of(x);
                            if k < old_ids.len() {
                                assert(old_ids[k] == id);
                                assert(old_ids.contains(id));
                            }
                        } else if ids.contains(x) {
                            let k = ids.index_of(x);
                            assert(k < old_ids.len());
                            assert(old_ids[k] == x);
                            assert(old_ids.contains(x));
                            let k2 = old_ids.index_of(x);
                            assert(ids[k2] == x);
                            assert(k == k2) by {
                                assert(ids.no_duplicates());
                            }
                        } else {
                            if old_ids.contains(x) {
                                let k = choose|k: int| 0 <= k < old_ids.len() && old_ids[k] == x;
                                assert(ids[k] == x);
                            }
                        }
                    }
                }
            },
        }
    }
}

/// The component ids of a list of (component, archetype component) pairs.
pub open spec fn pair_ids(p: Seq<(ComponentId, ArchetypeComponentId)>) -> Seq<ComponentId> {
    p.map_values(|e: (ComponentId, ArchetypeComponentId)| e.0)
}

/// The archetype component id that the last pair for `x` in `p` gives.
pub open spec fn last_given(
    p: Seq<(ComponentId, ArchetypeComponentId)>,
    x: ComponentId,
) -> Option<ArchetypeComponentId>
    decreases p.len(),
{
    if p.len() == 0 {
        None
    } else if p.last().0 == x {
        Some(p.last().1)
    } else {
        last_given(p.drop_last(), x)
    }
}

/// The info that an archetype built from `table` and `sparse` holds for `x`:
/// a sparse-set component wins over a table component of the same id.
pub open spec fn built_info(
    table: Seq<(ComponentId, ArchetypeComponentId)>,
    sparse: Seq<(ComponentId, ArchetypeComponentId)>,
    x: ComponentId,
) -> Option<ArchetypeComponentInfo> {
    match last_given(sparse, x) {
        Some(a) => Some(
            ArchetypeComponentInfo { storage_type: StorageType::SparseSet, archetype_component_id: a },
        ),
        None => match last_given(table, x) {
            Some(a) => Some(
                ArchetypeComponentInfo { storage_type: StorageType::Table, archetype_component_id: a },
            ),
            None => None,
        },
    }
}

/// The infos of a list of pairs, all with storage type `st`.
pub open spec fn infos_of(
    p: Seq<(ComponentId, ArchetypeComponentId)>,
    st: StorageType,
) -> Seq<ArchetypeComponentInfo> {
    p.map_values(
        |e: (ComponentId, ArchetypeComponentId)|
            ArchetypeComponentInfo { storage_type: st, archetype_component_id: e.1 },
    )
}

/// The table components of table pairs followed by sparse-set pairs are the
/// table pairs' ids, and the sparse-set components the sparse-set pairs' ids.
pub proof fn lemma_ids_with_storage_split(
    t: Seq<(ComponentId, ArchetypeComponentId)>,
    sp: Seq<(ComponentId, ArchetypeComponentId)>,
)
    ensures
        ids_with_storage(
            pair_ids(t) + pair_ids(sp),
            infos_of(t, StorageType::Table) + infos_of(sp, StorageType::SparseSet),
            StorageType::Table,
        ) == pair_ids(t),
        ids_with_storage(
            pair_ids(t) + pair_ids(sp),
            infos_of(t, StorageType::Table) + infos_of(sp, StorageType::SparseSet),
            StorageType::SparseSet,
        ) == pair_ids(sp),
    decreases t.len() + sp.len(),
{
    let ids = pair_ids(t) + pair_ids(sp);
    let infos = infos_of(t, StorageType::Table) + infos_of(sp, StorageType::SparseSet);
    if sp.len() > 0 {
        let sp1 = sp.drop_last();
        lemma_ids_with_storage_split(t, sp1);
        assert(ids.drop_last() =~= pair_ids(t) + pair_ids(sp1));
        assert(infos.drop_last() =~= infos_of(t, StorageType::Table) + infos_of(sp1, StorageType::SparseSet));
        assert(pair_ids(sp) =~= pair_ids(sp1).push(sp.last().0));
        assert(infos.last().storage_type == StorageType::SparseSet);
        assert(ids.last() == sp.last().0);
    } else if t.len() > 0 {
        let t1 = t.drop_last();
        lemma_ids_with_storage_split(t1, sp);
        assert(ids.drop_last() =~= pair_ids(t1) + pair_ids(sp));
        assert(infos.drop_last() =~= infos_of(t1, StorageType::Table) + infos_of(sp, StorageType::SparseSet));
        assert(pair_ids(t) =~= pair_ids(t1).push(t.last().0));
        assert(infos.last().storage_type == StorageType::Table);
        assert(ids.last() == t.last().0);
        assert(pair_ids(sp) =~= Seq::<ComponentId>::empty());
    } else {
        assert(pair_ids(t) =~= Seq::<ComponentId>::empty());
        assert(pair_ids(sp) =~= Seq::<ComponentId>::empty());
        assert(ids.len() == 0);
    }
}

/// The archetype keeps no edges.
pub open spec fn no_edges(e: ArchetypeEdges) -> bool {
    &&& forall|c: usize| #[trigger] e.spec_insert_edge(c) is None
    &&& forall|c: usize| #[trigger] e.spec_remove_edge(c) is None
    &&& forall|b: usize| #[trigger] e.spec_insert_bundle_edge(b) is None
    &&& forall|b: usize| #[trigger] e.spec_remove_bundle_edge(b) is None
    &&& e.spec_incoming_insert() is None
    &&& e.spec_incoming_remove() is None
    &&& e.spec_outgoing_insert() == Seq::<ArchetypeEdgeId>::empty()
    &&& e.spec_outgoing_remove() == Seq::<ArchetypeEdgeId>::empty()
}

proof fn lemma_take_step<A>(p: Seq<A>, k: int)
    requires
        0 <= k < p.len(),
    ensures
        p.take(k + 1).drop_last() == p.take(k),
        p.take(k + 1).last() == p[k],
        p.take(k + 1).len() == k + 1,
{
    assert(p.take(k + 1).drop_last() =~= p.take(k));
}

impl Archetype {
    /// An archetype without entities, holding the given table components and
    /// then the given sparse-set components, each with its archetype
    /// component id. A component given twice keeps its first place and takes
    /// what it was given last, sparse-set over table.
    pub fn new(
        id: ArchetypeId,
        table_id: TableId,
        table_components: Vec<(ComponentId, ArchetypeComponentId)>,
        sparse_set_components: Vec<(ComponentId, ArchetypeComponentId)>,
    ) -> (r: Archetype)
        ensures
            r.wf(),
            r.spec_id() == id,
            r.spec_table_id() == table_id,
            r.spec_entities() == Seq::<ArchetypeEntity>::empty(),
            forall|x: ComponentId|
                #[trigger] r.spec_info(x) == built_info(table_components@, sparse_set_components@, x),
            (pair_ids(table_components@) + pair_ids(sparse_set_components@)).no_duplicates()
                ==> r.spec_component_ids() == pair_ids(table_components@) + pair_ids(
                sparse_set_components@,
            ),
            (pair_ids(table_components@) + pair_ids(sparse_set_components@)).no_duplicates()
                ==> r.spec_component_infos() == infos_of(table_components@, StorageType::Table)
                + infos_of(sparse_set_components@, StorageType::SparseSet),
            no_edges(r.spec_edges()),
    {
        let ghost tp = table_components@;
        let ghost sp = sparse_set_components@;
        let mut archetype = Archetype {
            id,
            table_id,
            entities: Vec::new(),
            component_ids: Vec::new(),
            component_infos: Vec::new(),
            edges: ArchetypeEdges::new(),
        };
        proof {
            assert forall|x: ComponentId| #[trigger] archetype.spec_info(x) == None::<ArchetypeComponentInfo> by {
            }
        }
        let mut k: usize = 0;
        while k < table_components.len()
            invariant
                tp == table_components@,
                k <= tp.len(),
                archetype.wf(),
                archetype.spec_id() == id,
                archetype.spec_table_id() == table_id,
                archetype.spec_entities() == Seq::<ArchetypeEntity>::empty(),
                forall|x: ComponentId|
                    #[trigger] archetype.spec_info(x) == match last_given(tp.take(k as int), x) {
                        Some(a) => Some(
                            ArchetypeComponentInfo {
                                storage_type: StorageType::Table,
                                archetype_component_id: a,
                            },
                        ),
                        None => None,
                    },
                pair_ids(tp.take(k as int)).no_duplicates() ==> archetype.spec_component_ids()
                    == pair_ids(tp.take(k as int)),
                pair_ids(tp.take(k as int)).no_duplicates() ==> archetype.spec_component_infos()
                    == infos_of(tp.take(k as int), StorageType::Table),
                no_edges(archetype.spec_edges()),
            decreases tp.len() - k,
        {
            let (cid, acid) = table_components[k];
            let ghost before = archetype.spec_component_ids();
            archetype.insert_component(
                cid,
                ArchetypeComponentInfo {
                    storage_type: StorageType::Table,
                    archetype_component_id: acid,
                },
            );
            proof {
                lemma_take_step(tp, k as int);
                let q = tp.take(k as int);
                let q1 = tp.take(k + 1);
                assert(pair_ids(q1) =~= pair_ids(q).push(cid));
                assert(infos_of(q1, StorageType::Table) =~= infos_of(q, StorageType::Table).push(
                    ArchetypeComponentInfo { storage_type: StorageType::Table, archetype_component_id: acid },
                ));
                if pair_ids(q1).no_duplicates() {
                    assert(pair_ids(q).no_duplicates()) by {
                        assert forall|a: int, b: int| 0 <= a < b < pair_ids(q).len() implies pair_ids(q)[a] != pair_ids(q)[b] by {
                            assert(pair_ids(q)[a] == pair_ids(q1)[a]);
                            assert(pair_ids(q)[b] == pair_ids(q1)[b]);
                        }
                    }
                    if before.contains(cid) {
                        let a = choose|a: int| 0 <= a < before.len() && before[a] == cid;
                        assert(pair_ids(q1)[a] == cid);
                        assert(pair_ids(q1)[k as int] == cid);
                    }
                }
            }
            k = k + 1;
        }
        proof {
            assert(tp.take(tp.len() as int) =~= tp);
        }
        let mut k: usize = 0;
        while k < sparse_set_components.len()
            invariant
                tp == table_components@,
                sp == sparse_set_components@,
                k <= sp.len(),
                archetype.wf(),
                archetype.spec_id() == id,
                archetype.spec_table_id() == table_id,
                archetype.spec_entities() == Seq::<ArchetypeEntity>::empty(),
                forall|x: ComponentId|
                    #[trigger] archetype.spec_info(x) == built_info(tp, sp.take(k as int), x),
                (pair_ids(tp) + pair_ids(sp.take(k as int))).no_duplicates()
                    ==> archetype.spec_component_ids() == pair_ids(tp) + pair_ids(
                    sp.take(k as int),
                ),
                (pair_ids(tp) + pair_ids(sp.take(k as int))).no_duplicates()
                    ==> archetype.spec_component_infos() == infos_of(tp, StorageType::Table)
                    + infos_of(sp.take(k as int), StorageType::SparseSet),
                no_edges(archetype.spec_edges()),
            decreases sp.len() - k,
        {
            let (cid, acid) = sparse_set_components[k];
            let ghost before = archetype.spec_component_ids();
            archetype.insert_component(
                cid,
                ArchetypeComponentInfo {
                    storage_type: StorageType::SparseSet,
                    archetype_component_id: acid,
                },
            );
            proof {
                lemma_take_step(sp, k as int);
                let q = pair_ids(tp) + pair_ids(sp.take(k as int));
                let q1 = pair_ids(tp) + pair_ids(sp.take(k + 1));
                assert(pair_ids(sp.take(k + 1)) =~= pair_ids(sp.take(k as int)).push(cid));
                assert(q1 =~= q.push(cid));
                assert(infos_of(tp, StorageType::Table) + infos_of(sp.take(k + 1), StorageType::SparseSet)
                    =~= (infos_of(tp, StorageType::Table) + infos_of(sp.take(k as int), StorageType::SparseSet)).push(
                    ArchetypeComponentInfo { storage_type: StorageType::SparseSet, archetype_component_id: acid },
                ));
                if q1.no_duplicates() {
                    assert(q.no_duplicates()) by {
                        assert forall|a: int, b: int| 0 <= a < b < q.len() implies q[a] != q[b] by {
                            assert(q[a] == q1[a]);
                            assert(q[b] == q1[b]);
                        }
                    }
                    if before.contains(cid) {
                        let a = choose|a: int| 0 <= a < before.len() && before[a] == cid;
                        assert(q1[a] == cid);
                        assert(q1[q.len() as int] == cid);
                    }
                }
            }
            k = k + 1;
        }
        proof {
            assert(sp.take(sp.len() as int) =~= sp);
        }
        archetype
    }

    /// The id of the archetype.
    pub fn id(&self) -> (r: ArchetypeId)
        ensures
            r == self.spec_id(),
    {
        self.id
    }

    /// The table that holds the table components of the archetype's entities.
    pub fn table_id(&self) -> (r: TableId)
        ensures
            r == self.spec_table_id(),
    {
        self.table_id
    }

    /// The number of entities.
    pub fn len(&self) -> (r: usize)
        ensures
            r == self.spec_entities().len(),
    {
        self.entities.len()
    }

    /// Whether the archetype has no entities.
    pub fn is_empty(&self) -> (r: bool)
        ensures
            r == (self.spec_entities().len() == 0),
    {
        self.entities.len() == 0
    }

    /// The entities, by row.
    pub fn entities(&self) -> (r: &[ArchetypeEntity])
        ensures
            r@ == self.spec_entities(),
    {
        self.entities.as_slice()
    }

    /// The component ids, each once.
    pub fn components(&self) -> (r: Vec<ComponentId>)
        ensures
            r@ == self.spec_component_ids(),
    {
        let mut r: Vec<ComponentId> = Vec::with_capacity(self.component_ids.len());
        let mut i: usize = 0;
        while i < self.component_ids.len()
            invariant
                i <= self.component_ids@.len(),
                r@ == self.component_ids@.take(i as int),
            decreases self.component_ids@.len() - i,
        {
            r.push(self.component_ids[i]);
            proof {
                lemma_take_step(self.component_ids@, i as int);
                assert(self.component_ids@.take(i + 1) =~= self.component_ids@.take(i as int).push(self.component_ids@[i as int]));
            }
            i = i + 1;
        }
        proof {
            assert(self.component_ids@.take(self.component_ids@.len() as int) =~= self.component_ids@);
        }
        r
    }

    /// The ids of the components held with storage type `storage`, in order.
    fn components_with_storage(&self, storage: StorageType) -> (r: Vec<ComponentId>)
        requires
            self.wf(),
        ensures
            r@ == ids_with_storage(self.spec_component_ids(), self.spec_component_infos(), storage),
    {
        let mut r: Vec<ComponentId> = Vec::new();
        let mut i: usize = 0;
        while i < self.component_ids.len()
            invariant
                self.wf(),
                i <= self.component_ids@.len(),
                r@ == ids_with_storage(
                    self.component_ids@.take(i as int),
                    self.component_infos@.take(i as int),
                    storage,
                ),
            decreases self.component_ids@.len() - i,
        {
            let same = match (self.component_infos[i].storage_type, storage) {
                (StorageType::Table, StorageType::Table) => true,
                (StorageType::SparseSet, StorageType::SparseSet) => true,
                _ => false,
            };
            proof {
                lemma_take_step(self.component_ids@, i as int);
                lemma_take_step(self.component_infos@, i as int);
            }
            if same {
                r.push(self.component_ids[i]);
            }
            i = i + 1;
        }
        proof {
            assert(self.component_ids@.take(self.component_ids@.len() as int) =~= self.component_ids@);
            assert(self.component_infos@.take(self.component_infos@.len() as int) =~= self.component_infos@);
        }
        r
    }

    /// The ids of the components stored in the archetype's table, in order.
    pub fn table_components(&self) -> (r: Vec<ComponentId>)
        requires
            self.wf(),
        ensures
            r@ == ids_with_storage(
                self.spec_component_ids(),
                self.spec_component_infos(),
                StorageType::Table,
            ),
    {
        self.components_with_storage(StorageType::Table)
    }

    /// The ids of the components stored in sparse sets, in order.
    pub fn sparse_set_components(&self) -> (r: Vec<ComponentId>)
        requires
            self.wf(),
        ensures
            r@ == ids_with_storage(
                self.spec_component_ids(),
                self.spec_component_infos(),
                StorageType::SparseSet,
            ),
    {
        self.components_with_storage(StorageType::SparseSet)
    }

    /// The table row of the entity at `row`.
    pub fn entity_table_row(&self, row: ArchetypeRow) -> (r: TableRow)
        requires
            row.spec_index() < self.spec_entities().len(),
        ensures
            r == self.spec_entities()[row.spec_index() as int].spec_table_row(),
    {
        self.entities[row.index()].table_row
    }

    /// Records that the entity at `row` now has its components at `table_row`.
    pub fn set_entity_table_row(&mut self, row: ArchetypeRow, table_row: TableRow)
        requires
            row.spec_index() < old(self).spec_entities().len(),
        ensures
            final(self).spec_entities().len() == old(self).spec_entities().len(),
            forall|j: int|
                0 <= j < old(self).spec_entities().len() && j != row.spec_index()
                    ==> #[trigger] final(self).spec_entities()[j] == old(self).spec_entities()[j],
            final(self).spec_entities()[row.spec_index() as int].spec_entity()
                == old(self).spec_entities()[row.spec_index() as int].spec_entity(),
            final(self).spec_entities()[row.spec_index() as int].spec_table_row() == table_row,
            final(self).spec_id() == old(self).spec_id(),
            final(self).spec_table_id() == old(self).spec_table_id(),
            final(self).spec_component_ids() == old(self).spec_component_ids(),
            final(self).spec_component_infos() == old(self).spec_component_infos(),
            final(self).spec_edges() == old(self).spec_edges(),
            final(self).wf() == old(self).wf(),
    {
        let entity = self.entities[row.index()].entity;
        self.entities.set(row.index(), ArchetypeEntity { entity, table_row });
    }

    /// Adds `entity`, whose components are at `table_row`, and returns where it
    /// now lives.
    pub fn allocate(&mut self, entity: Entity, table_row: TableRow) -> (r: EntityLocation)
        ensures
            final(self).spec_entities().drop_last() == old(self).spec_entities(),
            final(self).spec_entities().len() == old(self).spec_entities().len() + 1,
            final(self).spec_entities().last().spec_entity() == entity,
            final(self).spec_entities().last().spec_table_row() == table_row,
            r.archetype_id == old(self).spec_id(),
            r.archetype_row.spec_index() == old(self).spec_entities().len() as u32,
            r.table_id == old(self).spec_table_id(),
            r.table_row == table_row,
            final(self).spec_id() == old(self).spec_id(),
            final(self).spec_table_id() == old(self).spec_table_id(),
            final(self).spec_component_ids() == old(self).spec_component_ids(),
            final(self).spec_component_infos() == old(self).spec_component_infos(),
            final(self).spec_edges() == old(self).spec_edges(),
            final(self).wf() == old(self).wf(),
    {
        let archetype_row = ArchetypeRow::new(self.entities.len());
        self.entities.push(ArchetypeEntity { entity, table_row });
        assert(self.entities@.drop_last() =~= old(self).entities@);
        EntityLocation { archetype_id: self.id, archetype_row, table_id: self.table_id, table_row }
    }

    /// Makes room for `additional` more entities; nothing else changes.
    pub fn reserve(&mut self, additional: usize)
        ensures
            final(self).spec_entities() == old(self).spec_entities(),
            final(self).spec_id() == old(self).spec_id(),
            final(self).spec_table_id() == old(self).spec_table_id(),
            final(self).spec_component_ids() == old(self).spec_component_ids(),
            final(self).spec_component_infos() == old(self).spec_component_infos(),
            final(self).spec_edges() == old(self).spec_edges(),
            final(self).wf() == old(self).wf(),
    {
        self.entities.reserve(additional);
    }

    /// Removes the entity at `row`; the last entity takes its place. Reports
    /// the entity moved into the row, if any, and the table row of the
    /// removed entity.
    pub fn swap_remove(&mut self, row: ArchetypeRow) -> (r: ArchetypeSwapRemoveResult)
        requires
            row.spec_index() < old(self).spec_entities().len(),
        ensures
            final(self).spec_entities() == swap_removed(
                old(self).spec_entities(),
                row.spec_index() as int,
            ),
            r.table_row == old(self).spec_entities()[row.spec_index() as int].spec_table_row(),
            r.swapped_entity == match swapped_in(
                old(self).spec_entities().map_values(|e: ArchetypeEntity| e.spec_entity()),
                row.spec_index() as int,
            ) {
                Some(e) => Some(e),
                None => None,
            },
            final(self).spec_id() == old(self).spec_id(),
            final(self).spec_table_id() == old(self).spec_table_id(),
            final(self).spec_component_ids() == old(self).spec_component_ids(),
            final(self).spec_component_infos() == old(self).spec_component_infos(),
            final(self).spec_edges() == old(self).spec_edges(),
            final(self).wf() == old(self).wf(),
    {
        let is_last = row.index() == self.entities.len() - 1;
        let entity = self.entities.swap_remove(row.index());
        ArchetypeSwapRemoveResult {
            swapped_entity: if is_last {
                None
            } else {
                Some(self.entities[row.index()].entity)
            },
            table_row: entity.table_row,
        }
    }

    /// Whether the archetype has the component.
    pub fn contains(&self, component_id: ComponentId) -> (r: bool)
        ensures
            r == self.spec_component_ids().contains(component_id),
    {
        find_component(&self.component_ids, component_id).is_some()
    }

    /// The info of the component, if the archetype has it.
    fn get_info(&self, component_id: ComponentId) -> (r: Option<ArchetypeComponentInfo>)
        requires
            self.wf(),
        ensures
            r == self.spec_info(component_id),
    {
        match find_component(&self.component_ids, component_id) {
            Some(i) => {
                proof {
                    let k = self.component_ids@.index_of(component_id);
                    assert(k == i as int) by {
                        assert(self.component_ids@.no_duplicates());
                    }
                }
                Some(self.component_infos[i])
            },
            None => None,
        }
    }

    /// How the component is stored, if the archetype has it.
    pub fn get_storage_type(&self, component_id: ComponentId) -> (r: Option<StorageType>)
        requires
            self.wf(),
        ensures
            r == match self.spec_info(component_id) {
                Some(info) => Some(info.storage_type),
                None => None,
            },
    {
        match self.get_info(component_id) {
            Some(info) => Some(info.storage_type),
            None => None,
        }
    }

    /// The archetype component id of the component, if the archetype has it.
    pub fn get_archetype_component_id(&self, component_id: ComponentId) -> (r: Option<
        ArchetypeComponentId,
    >)
        requires
            self.wf(),
        ensures
            r == match self.spec_info(component_id) {
                Some(info) => Some(info.archetype_component_id),
                None => None,
            },
    {
        match self.get_info(component_id) {
            Some(info) => Some(info.archetype_component_id),
            None => None,
        }
    }

    /// Removes every entity.
    pub fn clear_entities(&mut self)
        ensures
            final(self).spec_entities() == Seq::<ArchetypeEntity>::empty(),
            final(self).spec_id() == old(self).spec_id(),
            final(self).spec_table_id() == old(self).spec_table_id(),
            final(self).spec_component_ids() == old(self).spec_component_ids(),
            final(self).spec_component_infos() == old(self).spec_component_infos(),
            final(self).spec_edges() == old(self).spec_edges(),
            final(self).wf() == old(self).wf(),
    {
        self.entities.clear();
    }
}

/// The value that an association list with distinct keys gives `k`.
pub open spec fn index_get(s: Seq<(usize, ArchetypeEdgeId)>, k: usize) -> Option<ArchetypeEdgeId> {
    crate::component::assoc_get(s, k)
}

/// Looks `k` up in an association list with distinct keys.
fn index_lookup(s: &Vec<(usize, ArchetypeEdgeId)>, k: usize) -> (r: Option<ArchetypeEdgeId>)
    requires
        crate::component::assoc_keys_distinct(s@),
    ensures
        r == index_get(s@, k),
{
    let mut i: usize = 0;
    while i < s.len()
        invariant
            i <= s@.len(),
            crate::component::assoc_keys_distinct(s@),
            forall|j: int| 0 <= j < i ==> (#[trigger] s@[j]).0 != k,
        decreases s@.len() - i,
    {
        if s[i].0 == k {
            proof {
                crate::component::lemma_assoc_get_at(s@, i as int);
            }
            return Some(s[i].1);
        }
        i = i + 1;
    }
    None
}

/// Makes `k` give `v` in an association list with distinct keys.
fn index_insert(s: &mut Vec<(usize, ArchetypeEdgeId)>, k: usize, v: ArchetypeEdgeId)
    requires
        crate::component::assoc_keys_distinct(old(s)@),
    ensures
        crate::component::assoc_keys_distinct(final(s)@),
        index_get(final(s)@, k) == Some(v),
        forall|j: usize| j != k ==> #[trigger] index_get(final(s)@, j) == index_get(old(s)@, j),
        forall|i: int| 0 <= i < final(s)@.len() ==> (#[trigger] final(s)@[i]).1 == v || old(s)@.contains(final(s)@[i]),
{
    let ghost o = s@;
    let mut i: usize = 0;
    while i < s.len()
        invariant
            i <= s@.len(),
            s@ == o,
            o == old(s)@,
            crate::component::assoc_keys_distinct(o),
            forall|j: int| 0 <= j < i ==> (#[trigger] s@[j]).0 != k,
        decreases s@.len() - i,
    {
        if s[i].0 == k {
            s.set(i, (k, v));
            proof {
                let n = s@;
                assert forall|x: int, y: int| 0 <= x < y < n.len() implies (#[trigger] n[x]).0 != (#[trigger] n[y]).0 by {
                    assert(o[x].0 != o[y].0);
                }
                crate::component::lemma_assoc_get_at(n, i as int);
                assert forall|j: usize| j != k implies #[trigger] index_get(n, j) == index_get(o, j) by {
                    if exists|x: int| 0 <= x < o.len() && (#[trigger] o[x]).0 == j {
                        let x = choose|x: int| 0 <= x < o.len() && (#[trigger] o[x]).0 == j;
                        crate::component::lemma_assoc_get_at(o, x);
                        assert(n[x] == o[x]);
                        crate::component::lemma_assoc_get_at(n, x);
                    } else {
                        assert forall|x: int| 0 <= x < n.len() implies (#[trigger] n[x]).0 != j by {
                            if x != i {
                                assert(n[x] == o[x]);
                            }
                        }
                    }
                }
                assert forall|x: int| 0 <= x < n.len() implies (#[trigger] n[x]).1 == v || o.contains(n[x]) by {
                    if x != i {
                        assert(n[x] == o[x]);
                    }
                }
            }
            return;
        }
        i = i + 1;
    }
    s.push((k, v));
    proof {
        let n = s@;
        let m = o.len() as int;
        assert forall|x: int, y: int| 0 <= x < y < n.len() implies (#[trigger] n[x]).0 != (#[trigger] n[y]).0 by {
            if y < m {
                assert(o[x].0 != o[y].0);
            } else {
                assert(o[x].0 != k);
            }
        }
        crate::component::lemma_assoc_get_at(n, m);
        assert forall|j: usize| j != k implies #[trigger] index_get(n, j) == index_get(o, j) by {
            if exists|x: int| 0 <= x < o.len() && (#[trigger] o[x]).0 == j {
                let x = choose|x: int| 0 <= x < o.len() && (#[trigger] o[x]).0 == j;
                crate::component::lemma_assoc_get_at(o, x);
                assert(n[x] == o[x]);
                crate::component::lemma_assoc_get_at(n, x);
            } else {
                assert forall|x: int| 0 <= x < n.len() implies (#[trigger] n[x]).0 != j by {
                    if x < m {
                        assert(n[x] == o[x]);
                    }
                }
            }
        }
        assert forall|x: int| 0 <= x < n.len() implies (#[trigger] n[x]).1 == v || o.contains(n[x]) by {
            if x < m {
                assert(n[x] == o[x]);
            }
        }
    }
}

impl ArchetypeEdges {
    /// The edge that adds the component of index `c`, if one is kept.
    pub closed spec fn spec_insert_edge(&self, c: usize) -> Option<ArchetypeEdgeId> {
        index_get(self.outgoing_insert_index@, c)
    }

    /// The edge that removes the component of index `c`, if one is kept.
    pub closed spec fn spec_remove_edge(&self, c: usize) -> Option<ArchetypeEdgeId> {
        index_get(self.outgoing_remove_index@, c)
    }

    /// The edge that adds the bundle of index `b`, if one is kept.
    pub closed spec fn spec_insert_bundle_edge(&self, b: usize) -> Option<ArchetypeEdgeId> {
        index_get(self.outgoing_insert_bundle_index@, b)
    }

    /// The edge that removes the bundle of index `b`, if one is kept.
    pub closed spec fn spec_remove_bundle_edge(&self, b: usize) -> Option<ArchetypeEdgeId> {
        index_get(self.outgoing_remove_bundle_index@, b)
    }

    /// The first incoming edge that adds.
    pub closed spec fn spec_incoming_insert(&self) -> Option<ArchetypeEdgeId> {
        self.incoming_insert
    }

    /// The first incoming edge that removes.
    pub closed spec fn spec_incoming_remove(&self) -> Option<ArchetypeEdgeId> {
        self.incoming_remove
    }

    /// The outgoing edges that add.
    pub closed spec fn spec_outgoing_insert(&self) -> Seq<ArchetypeEdgeId> {
        self.outgoing_insert@
    }

    /// The outgoing edges that remove.
    pub closed spec fn spec_outgoing_remove(&self) -> Seq<ArchetypeEdgeId> {
        self.outgoing_remove@
    }

    /// Each index has distinct keys.
    pub closed spec fn wf(&self) -> bool {
        &&& crate::component::assoc_keys_distinct(self.outgoing_insert_index@)
        &&& crate::component::assoc_keys_distinct(self.outgoing_remove_index@)
        &&& crate::component::assoc_keys_distinct(self.outgoing_insert_bundle_index@)
        &&& crate::component::assoc_keys_distinct(self.outgoing_remove_bundle_index@)
    }

    /// No edges.
    pub fn new() -> (r: ArchetypeEdges)
        ensures
            r.wf(),
            forall|c: usize| #[trigger] r.spec_insert_edge(c) is None,
            forall|c: usize| #[trigger] r.spec_remove_edge(c) is None,
            forall|b: usize| #[trigger] r.spec_insert_bundle_edge(b) is None,
            forall|b: usize| #[trigger] r.spec_remove_bundle_edge(b) is None,
            r.spec_incoming_insert() is None,
            r.spec_incoming_remove() is None,
            r.spec_outgoing_insert() == Seq::<ArchetypeEdgeId>::empty(),
            r.spec_outgoing_remove() == Seq::<ArchetypeEdgeId>::empty(),
    {
        ArchetypeEdges {
            outgoing_insert: Vec::new(),
            outgoing_remove: Vec::new(),
            outgoing_insert_index: Vec::new(),
            outgoing_remove_index: Vec::new(),
            outgoing_insert_bundle_index: Vec::new(),
            outgoing_remove_bundle_index: Vec::new(),
            incoming_insert: None,
            incoming_remove: None,
        }
    }

    /// The edge that adds the component, if one is kept.
    pub fn get_edge_for_insert(&self, component: ComponentId) -> (r: Option<ArchetypeEdgeId>)
        requires
            self.wf(),
        ensures
            r == self.spec_insert_edge(component.spec_index()),
    {
        index_lookup(&self.outgoing_insert_index, component.index())
    }

    /// The edge that removes the component, if one is kept.
    pub fn get_edge_for_remove(&self, component: ComponentId) -> (r: Option<ArchetypeEdgeId>)
        requires
            self.wf(),
        ensures
            r == self.spec_remove_edge(component.spec_index()),
    {
        index_lookup(&self.outgoing_remove_index, component.index())
    }

    /// The edge that adds the bundle, if one is kept.
    pub fn get_edge_for_insert_bundle(&self, bundle: BundleId) -> (r: Option<ArchetypeEdgeId>)
        requires
            self.wf(),
        ensures
            r == self.spec_insert_bundle_edge(bundle.spec_index()),
    {
        index_lookup(&self.outgoing_insert_bundle_index, bundle.index())
    }

    /// The edge that removes the bundle, if one is kept.
    pub fn get_edge_for_remove_bundle(&self, bundle: BundleId) -> (r: Option<ArchetypeEdgeId>)
        requires
            self.wf(),
        ensures
            r == self.spec_remove_bundle_edge(bundle.spec_index()),
    {
        index_lookup(&self.outgoing_remove_bundle_index, bundle.index())
    }
}

/// The set of components that makes an archetype: its table components and
/// its sparse-set components.
pub struct ArchetypeDef {
    table_components: Vec<ComponentId>,
    sparse_set_components: Vec<ComponentId>,
}

/// The archetypes of a world, by id; the id of the archetype of each set of
/// components; and the edges between archetypes that moves have taken.
pub struct Archetypes {
    archetypes: Vec<Archetype>,
    edges: Vec<ArchetypeEdge>,
    archetype_ids: Vec<(ArchetypeDef, ArchetypeId)>,
    generation: ArchetypeGeneration,
    archetype_component_count: usize,
}

/// `n` ids numbered from `start`: the i-th pairs `ids[i]` with the archetype
/// component id `start + i`.
pub open spec fn numbered_from(
    p: Seq<(ComponentId, ArchetypeComponentId)>,
    ids: Seq<ComponentId>,
    start: int,
) -> bool {
    &&& p.len() == ids.len()
    &&& forall|i: int|
        0 <= i < p.len() ==> (#[trigger] p[i]).0 == ids[i] && p[i].1.spec_index() == start + i
}

impl Archetypes {
    /// The archetypes, by id.
    pub closed spec fn spec_archetypes(&self) -> Seq<Archetype> {
        self.archetypes@
    }

    /// The edges, by id.
    pub closed spec fn spec_edges(&self) -> Seq<ArchetypeEdge> {
        self.edges@
    }

    /// The table components of archetype `k`, as it was made.
    pub closed spec fn spec_def_table(&self, k: int) -> Seq<ComponentId> {
        self.archetype_ids@[k].0.table_components@
    }

    /// The sparse-set components of archetype `k`, as it was made.
    pub closed spec fn spec_def_sparse(&self, k: int) -> Seq<ComponentId> {
        self.archetype_ids@[k].0.sparse_set_components@
    }

    pub closed spec fn spec_generation(&self) -> ArchetypeGeneration {
        self.generation
    }

    /// How many archetype component ids have been handed out.
    pub closed spec fn spec_archetype_component_count(&self) -> usize {
        self.archetype_component_count
    }

    /// The id of the archetype made of the given components, if there is one.
    pub open spec fn spec_id_of(&self, table: Seq<ComponentId>, sparse: Seq<ComponentId>) -> Option<
        int,
    > {
        if exists|k: int|
            0 <= k < self.spec_archetypes().len() && #[trigger] self.spec_def_table(k) == table
                && self.spec_def_sparse(k) == sparse {
            Some(
                choose|k: int|
                    0 <= k < self.spec_archetypes().len() && #[trigger] self.spec_def_table(k)
                        == table && self.spec_def_sparse(k) == sparse,
            )
        } else {
            None
        }
    }

    /// The components of archetype `k`, as a set.
    pub open spec fn spec_comps(&self, k: int) -> Set<ComponentId> {
        (self.spec_def_table(k) + self.spec_def_sparse(k)).to_set()
    }

    /// Moving from `src` to `dst` does what an edge with these contents and
    /// this action records: adding or removing the component or the bundle,
    /// with what the source had of it.
    pub open spec fn move_sound(
        &self,
        src: ArchetypeId,
        dst: ArchetypeId,
        contents: ArchetypeEdgeContents,
        action: ArchetypeEdgeAction,
    ) -> bool {
        let before = self.spec_comps(src.spec_index() as int);
        let after = self.spec_comps(dst.spec_index() as int);
        match contents {
            ArchetypeEdgeContents::Component(c) => match action {
                ArchetypeEdgeAction::Insert(added) => added == !before.contains(c) && after == before.insert(c) && (added
                    || dst == src),
                ArchetypeEdgeAction::Remove(has) => has == before.contains(c) && after == before.remove(c) && (has
                    || dst == src),
                _ => false,
            },
            ArchetypeEdgeContents::Bundle(b) => {
                let ids = b.spec_components();
                match action {
                    ArchetypeEdgeAction::InsertBundle(had) => {
                        &&& after == before.union(ids.to_set())
                        &&& forall|i: int|
                            0 <= i < ids.len() ==> (bitset_ones(had).contains(i as usize)
                                <==> !before.contains(#[trigger] ids[i]))
                    },
                    ArchetypeEdgeAction::RemoveBundle(has_all) => {
                        &&& after == before.difference(ids.to_set())
                        &&& has_all == ids.to_set().subset_of(before)
                    },
                    _ => false,
                }
            },
        }
    }

    /// Every kept edge records what its move does, and each index of an
    /// archetype finds edges that leave that archetype with what the key
    /// names. No edge is filed among those that add a bundle.
    pub closed spec fn edges_sound(&self) -> bool {
        &&& forall|j: int|
            0 <= j < self.edges@.len() ==> {
                let e = #[trigger] self.edges@[j];
                self.move_sound(e.src, e.dst, e.contents, e.action)
            }
        &&& forall|k: int, c: usize|
            0 <= k < self.archetypes@.len() ==> (#[trigger] self.archetypes@[k].spec_edges().spec_insert_edge(c)
                matches Some(e) ==> {
                let edge = self.edges@[e.spec_index() as int];
                &&& edge.src.spec_index() == k
                &&& edge.contents matches ArchetypeEdgeContents::Component(cc) && cc.spec_index() == c
            })
        &&& forall|k: int, c: usize|
            0 <= k < self.archetypes@.len() ==> (#[trigger] self.archetypes@[k].spec_edges().spec_remove_edge(c)
                matches Some(e) ==> {
                let edge = self.edges@[e.spec_index() as int];
                &&& edge.src.spec_index() == k
                &&& edge.contents matches ArchetypeEdgeContents::Component(cc) && cc.spec_index() == c
            })
        &&& forall|k: int, b: usize|
            0 <= k < self.archetypes@.len() ==> (#[trigger] self.archetypes@[k].spec_edges().spec_remove_bundle_edge(b)
                matches Some(e) ==> {
                let edge = self.edges@[e.spec_index() as int];
                &&& e.spec_index() < self.edges@.len()
                &&& edge.src.spec_index() == k
                &&& edge.contents matches ArchetypeEdgeContents::Bundle(bi) && bi.spec_id().spec_index() == b
            })
        &&& forall|k: int, b: usize|
            0 <= k < self.archetypes@.len() ==> #[trigger] self.archetypes@[k].spec_edges().spec_insert_bundle_edge(b)
                is None
    }

    /// Every archetype sits at the index of its id and holds the components
    /// it was made of; no two archetypes are made of the same components;
    /// every edge sits at the index of its id and joins archetypes that exist.
    pub closed spec fn wf(&self) -> bool {
        &&& self.archetypes@.len() == self.archetype_ids@.len()
        &&& self.archetypes@.len() <= u32::MAX + 1
        &&& self.archetypes@.len() >= 1
        &&& self.spec_def_table(0) == Seq::<ComponentId>::empty()
        &&& self.spec_def_sparse(0) == Seq::<ComponentId>::empty()
        &&& forall|k: int|
            0 <= k < self.archetypes@.len() ==> {
                let a = #[trigger] self.archetypes@[k];
                &&& a.wf()
                &&& a.spec_id().spec_index() == k
                &&& self.archetype_ids@[k].1 == a.spec_id()
                &&& a.spec_component_ids() == self.spec_def_table(k) + self.spec_def_sparse(k)
                &&& ids_with_storage(a.spec_component_ids(), a.spec_component_infos(), StorageType::Table)
                    == self.spec_def_table(k)
                &&& ids_with_storage(
                    a.spec_component_ids(),
                    a.spec_component_infos(),
                    StorageType::SparseSet,
                ) == self.spec_def_sparse(k)
            }
        &&& forall|k: int, l: int|
            0 <= k < l < self.archetypes@.len() ==> !(#[trigger] self.spec_def_table(k)
                == #[trigger] self.spec_def_table(l) && self.spec_def_sparse(k) == self.spec_def_sparse(l))
        &&& forall|j: int|
            0 <= j < self.edges@.len() ==> {
                let e = #[trigger] self.edges@[j];
                &&& e.id.spec_index() == j
                &&& e.src.spec_index() < self.archetypes@.len()
                &&& e.dst.spec_index() < self.archetypes@.len()
            }
        &&& forall|k: int|
            0 <= k < self.archetypes@.len() ==> {
                let edges = (#[trigger] self.archetypes@[k]).spec_edges();
                &&& edges.spec_incoming_insert() matches Some(h) ==> h.spec_index() < self.edges@.len()
                &&& edges.spec_incoming_remove() matches Some(h) ==> h.spec_index() < self.edges@.len()
            }
        &&& forall|k: int, c: usize|
            0 <= k < self.archetypes@.len() ==> (#[trigger] self.archetypes@[k].spec_edges().spec_insert_edge(c)
                matches Some(e) ==> {
                &&& e.spec_index() < self.edges@.len()
                &&& self.edges@[e.spec_index() as int].action is Insert
            })
        &&& forall|k: int, c: usize|
            0 <= k < self.archetypes@.len() ==> (#[trigger] self.archetypes@[k].spec_edges().spec_remove_edge(c)
                matches Some(e) ==> {
                &&& e.spec_index() < self.edges@.len()
                &&& self.edges@[e.spec_index() as int].action is Remove
            })
        &&& self.edges_sound()
    }
}

impl Archetypes {
    /// Hands out the next archetype component id.
    fn next_archetype_component(&mut self) -> (r: ArchetypeComponentId)
        requires
            old(self).archetype_component_count < usize::MAX,
        ensures
            r.spec_index() == old(self).archetype_component_count,
            final(self).archetype_component_count == old(self).archetype_component_count + 1,
            final(self).archetypes@ == old(self).archetypes@,
            final(self).edges@ == old(self).edges@,
            final(self).archetype_ids@ == old(self).archetype_ids@,
            final(self).generation == old(self).generation,
    {
        let n = self.archetype_component_count;
        self.archetype_component_count = n + 1;
        ArchetypeComponentId::new(n)
    }

    /// The position of the archetype made of the given components, if any.
    fn find_def(&self, table_components: &Vec<ComponentId>, sparse_set_components: &Vec<ComponentId>) -> (r:
        Option<usize>)
        requires
            self.wf(),
        ensures
            r matches Some(k) ==> k < self.spec_archetypes().len() && self.spec_id_of(
                table_components@,
                sparse_set_components@,
            ) == Some(k as int),
            r is None ==> self.spec_id_of(table_components@, sparse_set_components@) is None,
    {
        let mut k: usize = 0;
        while k < self.archetype_ids.len()
            invariant
                k <= self.archetype_ids@.len(),
                self.wf(),
                forall|j: int|
                    0 <= j < k ==> !(#[trigger] self.spec_def_table(j) == table_components@
                        && self.spec_def_sparse(j) == sparse_set_components@),
            decreases self.archetype_ids@.len() - k,
        {
            let same = same_ids(&self.archetype_ids[k].0.table_components, table_components.as_slice())
                && same_ids(
                &self.archetype_ids[k].0.sparse_set_components,
                sparse_set_components.as_slice(),
            );
            if same {
                proof {
                    let t = table_components@;
                    let sp = sparse_set_components@;
                    assert(self.spec_def_table(k as int) == t && self.spec_def_sparse(k as int) == sp);
                    let c = choose|c: int|
                        0 <= c < self.spec_archetypes().len() && #[trigger] self.spec_def_table(c) == t
                            && self.spec_def_sparse(c) == sp;
                    if c != k {
                        if c < k {
                        } else {
                            assert(!(self.spec_def_table(k as int) == self.spec_def_table(c)
                                && self.spec_def_sparse(k as int) == self.spec_def_sparse(c)));
                        }
                    }
                }
                return Some(k);
            }
            k = k + 1;
        }
        None
    }
}

/// Some id of `s` has index `c`.
pub open spec fn has_index(s: Seq<ComponentId>, c: int) -> bool {
    exists|k: int| 0 <= k < s.len() && (#[trigger] s[k]).spec_index() == c
}

/// `a` is the archetype `id` made on table `table_id` from the table
/// components `t` and the sparse-set components `sp`, whose archetype
/// component ids are numbered from `start` in that order.
pub open spec fn archetype_made(
    a: Archetype,
    id: ArchetypeId,
    table_id: TableId,
    t: Seq<ComponentId>,
    sp: Seq<ComponentId>,
    start: int,
) -> bool {
    &&& a.wf()
    &&& a.spec_id() == id
    &&& a.spec_table_id() == table_id
    &&& a.spec_entities() == Seq::<ArchetypeEntity>::empty()
    &&& no_edges(a.spec_edges())
    &&& a.spec_component_ids() == t + sp
    &&& forall|i: int|
        0 <= i < t.len() ==> ((#[trigger] a.spec_info(t[i])) matches Some(info) && info.storage_type
            == StorageType::Table && info.archetype_component_id.spec_index() == start + i)
    &&& forall|i: int|
        0 <= i < sp.len() ==> ((#[trigger] a.spec_info(sp[i])) matches Some(info) && info.storage_type
            == StorageType::SparseSet && info.archetype_component_id.spec_index() == start + t.len()
            + i)
}

/// `nc` is `oc` with the places of the components of archetype `id` recorded:
/// the table components `t` at their columns of table `table_id`, and all of
/// `t` then `sp` at their columns of the archetype, with archetype component
/// ids numbered from `start`. Other components are as they were.
pub open spec fn locations_recorded(
    oc: Components,
    nc: Components,
    id: ArchetypeId,
    table_id: TableId,
    t: Seq<ComponentId>,
    sp: Seq<ComponentId>,
    start: int,
) -> bool {
    &&& nc.spec_infos() == oc.spec_infos()
    &&& forall|i: int|
        0 <= i < t.len() ==> {
            let l = #[trigger] nc.spec_locations(t[i].spec_index() as int);
            &&& l.spec_archetype(id) matches Some(info) && info.id.spec_index() == start + i
                && info.column == i
            &&& l.spec_table(table_id) == Some(ComponentTableInfo { column: i as usize })
        }
    &&& forall|i: int|
        0 <= i < sp.len() ==> ((#[trigger] nc.spec_locations(sp[i].spec_index() as int)).spec_archetype(
            id,
        ) matches Some(info) && info.id.spec_index() == start + t.len() + i && info.column == t.len()
            + i)
    &&& forall|c: int|
        0 <= c < oc.spec_infos().len() && !has_index(t + sp, c) ==> #[trigger] nc.spec_locations(c)
            == oc.spec_locations(c)
}

impl Archetypes {
    /// The id of the archetype made of the table components
    /// `table_components` (on table `table_id`) and the sparse-set components
    /// `sparse_set_components`; when there is none, it is made, each of its
    /// components gets the next archetype component id, and `components`
    /// records where each lives.
    pub fn get_id_or_insert(
        &mut self,
        components: &mut Components,
        table_id: TableId,
        table_components: Vec<ComponentId>,
        sparse_set_components: Vec<ComponentId>,
    ) -> (r: ArchetypeId)
        requires
            old(self).wf(),
            old(components).wf(),
            (table_components@ + sparse_set_components@).no_duplicates(),
            forall|i: int|
                0 <= i < table_components@.len() ==> old(components).spec_has(
                    #[trigger] table_components@[i],
                ),
            forall|i: int|
                0 <= i < sparse_set_components@.len() ==> old(components).spec_has(
                    #[trigger] sparse_set_components@[i],
                ),
            old(self).spec_archetype_component_count() + table_components@.len()
                + sparse_set_components@.len() <= usize::MAX,
            old(self).spec_archetypes().len() <= u32::MAX,
        ensures
            final(self).wf(),
            final(components).wf(),
            final(self).spec_generation() == old(self).spec_generation(),
            old(self).spec_id_of(table_components@, sparse_set_components@) matches Some(k) ==> {
                &&& r.spec_index() == k
                &&& *final(self) == *old(self)
                &&& *final(components) == *old(components)
            },
            old(self).spec_id_of(table_components@, sparse_set_components@) is None ==> {
                &&& r.spec_index() == old(self).spec_archetypes().len()
                &&& final(self).spec_archetypes().len() == old(self).spec_archetypes().len() + 1
                &&& final(self).spec_archetypes().drop_last() == old(self).spec_archetypes()
                &&& final(self).spec_edges() == old(self).spec_edges()
                &&& archetype_made(
                    final(self).spec_archetypes().last(),
                    r,
                    table_id,
                    table_components@,
                    sparse_set_components@,
                    old(self).spec_archetype_component_count() as int,
                )
                &&& final(self).spec_archetype_component_count() == old(
                    self,
                ).spec_archetype_component_count() + table_components@.len()
                    + sparse_set_components@.len()
                &&& locations_recorded(
                    *old(components),
                    *final(components),
                    r,
                    table_id,
                    table_components@,
                    sparse_set_components@,
                    old(self).spec_archetype_component_count() as int,
                )
            },
            final(self).spec_id_of(table_components@, sparse_set_components@) == Some(
                r.spec_index() as int,
            ),
            forall|k: int|
                0 <= k < old(self).spec_archetypes().len() ==> #[trigger] final(self).spec_def_table(k)
                    == old(self).spec_def_table(k) && final(self).spec_def_sparse(k)
                    == old(self).spec_def_sparse(k),
    {
        match self.find_def(&table_components, &sparse_set_components) {
            Some(k) => {
                proof {
                    assert(self.archetypes@[k as int].wf());
                }
                return self.archetype_ids[k].1;
            },
            None => {},
        }
        let ghost t = table_components@;
        let ghost sp = sparse_set_components@;
        let ghost start = self.archetype_component_count as int;
        let ghost old_components = *components;
        let archetype_id = ArchetypeId::new(self.archetypes.len());
        let mut table_pairs: Vec<(ComponentId, ArchetypeComponentId)> = Vec::with_capacity(
            table_components.len(),
        );
        let mut i: usize = 0;
        while i < table_components.len()
            invariant
                t == table_components@,
                sp == sparse_set_components@,
                (t + sp).no_duplicates(),
                i <= t.len(),
                self.archetypes@ == old(self).archetypes@,
                self.edges@ == old(self).edges@,
                self.archetype_ids@ == old(self).archetype_ids@,
                self.generation == old(self).generation,
                self.archetype_component_count == start + i,
                start + t.len() + sp.len() <= usize::MAX,
                0 <= start,
                components.wf(),
                components.spec_infos() == old_components.spec_infos(),
                forall|x: int| 0 <= x < t.len() ==> components.spec_has(#[trigger] t[x]),
                numbered_from(table_pairs@, t.take(i as int), start),
                forall|x: int|
                    0 <= x < i ==> {
                        let l = #[trigger] components.spec_locations(t[x].spec_index() as int);
                        &&& l.spec_archetype(archetype_id) matches Some(info) && info.id.spec_index()
                            == start + x && info.column == x
                        &&& l.spec_table(table_id) == Some(ComponentTableInfo { column: x as usize })
                    },
                forall|c: int|
                    0 <= c < old_components.spec_infos().len() && !has_index(t.take(i as int), c)
                        ==> #[trigger] components.spec_locations(c) == old_components.spec_locations(c),
            decreases t.len() - i,
        {
            let component_id = table_components[i];
            let ghost before = *components;
            let archetype_component_id = self.next_archetype_component();
            components.record_archetype(
                component_id,
                archetype_id,
                ComponentArchetypeInfo { id: archetype_component_id, column: i },
            );
            components.record_table(component_id, table_id, ComponentTableInfo { column: i });
            table_pairs.push((component_id, archetype_component_id));
            proof {
                let ci = component_id.spec_index() as int;
                assert(t.take(i + 1) =~= t.take(i as int).push(component_id));
                assert forall|x: int| 0 <= x < i implies (#[trigger] t[x]).spec_index() != ci by {
                    assert((t + sp)[x] == t[x]);
                    assert((t + sp)[i as int] == component_id);
                    if t[x].spec_index() == ci {
                        ComponentId::lemma_index_injective(t[x], component_id);
                    }
                }
                assert forall|c: int|
                    0 <= c < old_components.spec_infos().len() && !has_index(t.take(i + 1), c) implies #[trigger] components.spec_locations(c)
                    == old_components.spec_locations(c) by {
                    assert(t.take(i + 1)[i as int] == component_id);
                    assert(c != ci);
                    if has_index(t.take(i as int), c) {
                        let k = choose|k: int| 0 <= k < t.take(i as int).len() && (#[trigger] t.take(i as int)[k]).spec_index() == c;
                        assert(t.take(i + 1)[k] == t.take(i as int)[k]);
                    }
                }
            }
            i = i + 1;
        }
        let mut sparse_pairs: Vec<(ComponentId, ArchetypeComponentId)> = Vec::with_capacity(
            sparse_set_components.len(),
        );
        let mut j: usize = 0;
        while j < sparse_set_components.len()
            invariant
                t == table_components@,
                sp == sparse_set_components@,
                (t + sp).no_duplicates(),
                j <= sp.len(),
                self.archetypes@ == old(self).archetypes@,
                self.edges@ == old(self).edges@,
                self.archetype_ids@ == old(self).archetype_ids@,
                self.generation == old(self).generation,
                self.archetype_component_count == start + t.len() + j,
                start + t.len() + sp.len() <= usize::MAX,
                0 <= start,
                components.wf(),
                components.spec_infos() == old_components.spec_infos(),
                forall|x: int| 0 <= x < sp.len() ==> components.spec_has(#[trigger] sp[x]),
                forall|x: int| 0 <= x < t.len() ==> components.spec_has(#[trigger] t[x]),
                numbered_from(table_pairs@, t, start),
                numbered_from(sparse_pairs@, sp.take(j as int), start + t.len()),
                forall|x: int|
                    0 <= x < t.len() ==> {
                        let l = #[trigger] components.spec_locations(t[x].spec_index() as int);
                        &&& l.spec_archetype(archetype_id) matches Some(info) && info.id.spec_index()
                            == start + x && info.column == x
                        &&& l.spec_table(table_id) == Some(ComponentTableInfo { column: x as usize })
                    },
                forall|x: int|
                    0 <= x < j ==> ((#[trigger] components.spec_locations(sp[x].spec_index() as int)).spec_archetype(
                        archetype_id,
                    ) matches Some(info) && info.id.spec_index() == start + t.len() + x && info.column
                        == t.len() + x),
                forall|c: int|
                    0 <= c < old_components.spec_infos().len() && !has_index(t + sp.take(j as int), c)
                        ==> #[trigger] components.spec_locations(c) == old_components.spec_locations(c),
            decreases sp.len() - j,
        {
            let component_id = sparse_set_components[j];
            let ghost before = *components;
            let tlen = table_components.len();
            assert(tlen + j <= usize::MAX);
            let archetype_component_id = self.next_archetype_component();
            components.record_archetype(
                component_id,
                archetype_id,
                ComponentArchetypeInfo {
                    id: archetype_component_id,
                    column: tlen + j,
                },
            );
            sparse_pairs.push((component_id, archetype_component_id));
            proof {
                let ci = component_id.spec_index() as int;
                let tl = t.len() as int;
                assert(sp.take(j + 1) =~= sp.take(j as int).push(component_id));
                assert((t + sp)[tl + j] == component_id);
                assert forall|x: int| 0 <= x < t.len() implies (#[trigger] t[x]).spec_index() != ci by {
                    assert((t + sp)[x] == t[x]);
                    if t[x].spec_index() == ci {
                        ComponentId::lemma_index_injective(t[x], component_id);
                    }
                }
                assert forall|x: int| 0 <= x < t.len() implies #[trigger] components.spec_locations(t[x].spec_index() as int)
                    == before.spec_locations(t[x].spec_index() as int) by {
                    assert(components.spec_has(t[x]));
                    assert(t[x].spec_index() != ci);
                }
                assert forall|x: int| 0 <= x < j implies (#[trigger] sp[x]).spec_index() != ci by {
                    assert((t + sp)[tl + x] == sp[x]);
                    if sp[x].spec_index() == ci {
                        ComponentId::lemma_index_injective(sp[x], component_id);
                    }
                }
                assert forall|c: int|
                    0 <= c < old_components.spec_infos().len() && !has_index(t + sp.take(j + 1), c) implies #[trigger] components.spec_locations(c)
                    == old_components.spec_locations(c) by {
                    assert((t + sp.take(j + 1))[tl + j] == component_id);
                    assert(c != ci);
                    if has_index(t + sp.take(j as int), c) {
                        let k = choose|k: int| 0 <= k < (t + sp.take(j as int)).len() && (#[trigger] (t + sp.take(j as int))[k]).spec_index() == c;
                        assert((t + sp.take(j + 1))[k] == (t + sp.take(j as int))[k]);
                    }
                }
            }
            j = j + 1;
        }
        proof {
            assert(t.take(t.len() as int) =~= t);
            assert(sp.take(sp.len() as int) =~= sp);
            assert(pair_ids(table_pairs@) =~= t);
            assert(pair_ids(sparse_pairs@) =~= sp);
        }
        let archetype = Archetype::new(archetype_id, table_id, table_pairs, sparse_pairs);
        proof {
            lemma_ids_with_storage_split(table_pairs@, sparse_pairs@);
        }
        self.archetypes.push(archetype);
        self.archetype_ids.push(
            (
                ArchetypeDef { table_components, sparse_set_components },
                archetype_id,
            ),
        );
        proof {
            let n = old(self).archetypes@.len() as int;
            let tp = table_pairs@;
            let spp = sparse_pairs@;
            let a = self.archetypes@[n];
            assert(self.archetypes@.drop_last() =~= old(self).archetypes@);
            assert(a.spec_component_ids() == t + sp);
            assert(self.spec_def_table(n) == t);
            assert(self.spec_def_sparse(n) == sp);
            assert forall|k: int| 0 <= k < n implies #[trigger] self.spec_def_table(k)
                == old(self).spec_def_table(k) && self.spec_def_sparse(k) == old(self).spec_def_sparse(k) by {
                assert(self.archetype_ids@[k] == old(self).archetype_ids@[k]);
            }
            assert(self.spec_def_table(0) == old(self).spec_def_table(0));
            assert(self.spec_def_sparse(0) == old(self).spec_def_sparse(0));
            assert forall|k: int| 0 <= k < self.archetypes@.len() implies {
                let a = #[trigger] self.archetypes@[k];
                &&& a.wf()
                &&& a.spec_id().spec_index() == k
                &&& self.archetype_ids@[k].1 == a.spec_id()
                &&& a.spec_component_ids() == self.spec_def_table(k) + self.spec_def_sparse(k)
                &&& ids_with_storage(a.spec_component_ids(), a.spec_component_infos(), StorageType::Table)
                    == self.spec_def_table(k)
                &&& ids_with_storage(
                    a.spec_component_ids(),
                    a.spec_component_infos(),
                    StorageType::SparseSet,
                ) == self.spec_def_sparse(k)
            } by {
                if k < n {
                    assert(self.archetypes@[k] == old(self).archetypes@[k]);
                    assert(self.archetype_ids@[k] == old(self).archetype_ids@[k]);
                    assert(old(self).archetypes@[k].wf());
                }
            }
            assert forall|k: int, l: int| 0 <= k < l < self.archetypes@.len() implies !(#[trigger] self.spec_def_table(k)
                == #[trigger] self.spec_def_table(l) && self.spec_def_sparse(k) == self.spec_def_sparse(l)) by {
                if l < n {
                    assert(!(old(self).spec_def_table(k) == old(self).spec_def_table(l)
                        && old(self).spec_def_sparse(k) == old(self).spec_def_sparse(l)));
                } else {
                    assert(!(old(self).spec_def_table(k) == t && old(self).spec_def_sparse(k) == sp));
                }
            }
            assert forall|k: int| 0 <= k < self.archetypes@.len() implies {
                let edges = (#[trigger] self.archetypes@[k]).spec_edges();
                &&& edges.spec_incoming_insert() matches Some(h) ==> h.spec_index() < self.edges@.len()
                &&& edges.spec_incoming_remove() matches Some(h) ==> h.spec_index() < self.edges@.len()
            } by {
                if k < n {
                    assert(self.archetypes@[k] == old(self).archetypes@[k]);
                }
            }
            assert forall|k: int, c: usize| 0 <= k < self.archetypes@.len() implies (#[trigger] self.archetypes@[k].spec_edges().spec_insert_edge(c)
                matches Some(e) ==> {
                &&& e.spec_index() < self.edges@.len()
                &&& self.edges@[e.spec_index() as int].action is Insert
            }) by {
                if k < n {
                    assert(self.archetypes@[k] == old(self).archetypes@[k]);
                }
            }
            assert forall|k: int, c: usize| 0 <= k < self.archetypes@.len() implies (#[trigger] self.archetypes@[k].spec_edges().spec_remove_edge(c)
                matches Some(e) ==> {
                &&& e.spec_index() < self.edges@.len()
                &&& self.edges@[e.spec_index() as int].action is Remove
            }) by {
                if k < n {
                    assert(self.archetypes@[k] == old(self).archetypes@[k]);
                }
            }
            let c = choose|c: int|
                0 <= c < self.spec_archetypes().len() && #[trigger] self.spec_def_table(c) == t
                    && self.spec_def_sparse(c) == sp;
            if c != n {
                assert(!(old(self).spec_def_table(c) == t && old(self).spec_def_sparse(c) == sp));
            }
            assert((t + sp).no_duplicates());
            assert(t.no_duplicates()) by {
                assert forall|x: int, y: int| 0 <= x < y < t.len() implies t[x] != t[y] by {
                    assert((t + sp)[x] == t[x]);
                    assert((t + sp)[y] == t[y]);
                }
            }
            assert(sp.no_duplicates()) by {
                assert forall|x: int, y: int| 0 <= x < y < sp.len() implies sp[x] != sp[y] by {
                    assert((t + sp)[t.len() + x] == sp[x]);
                    assert((t + sp)[t.len() + y] == sp[y]);
                }
            }
            assert forall|i: int| 0 <= i < t.len() implies ((#[trigger] a.spec_info(t[i])) matches Some(info) && info.storage_type
                == StorageType::Table && info.archetype_component_id.spec_index() == start + i) by {
                lemma_last_given_numbered(tp, t, start, t[i]);
                lemma_last_given_numbered(spp, sp, start + t.len(), t[i]);
                assert(t.contains(t[i]));
                if sp.contains(t[i]) {
                    let y = choose|y: int| 0 <= y < sp.len() && sp[y] == t[i];
                    assert((t + sp)[i] == (t + sp)[t.len() + y]);
                }
                let k = choose|k: int| 0 <= k < t.len() && t[k] == t[i];
                assert(k == i);
            }
            assert forall|i: int| 0 <= i < sp.len() implies ((#[trigger] a.spec_info(sp[i])) matches Some(info) && info.storage_type
                == StorageType::SparseSet && info.archetype_component_id.spec_index() == start + t.len() + i) by {
                lemma_last_given_numbered(spp, sp, start + t.len(), sp[i]);
                assert(sp.contains(sp[i]));
                let k = choose|k: int| 0 <= k < sp.len() && sp[k] == sp[i];
                assert(k == i);
            }
            assert(t + sp.take(sp.len() as int) == t + sp);
        }
        archetype_id
    }
}

/// In a list of pairs numbered from `start` over distinct ids, the last pair
/// for an id is its only one.
proof fn lemma_last_given_numbered(
    p: Seq<(ComponentId, ArchetypeComponentId)>,
    ids: Seq<ComponentId>,
    start: int,
    x: ComponentId,
)
    requires
        numbered_from(p, ids, start),
        ids.no_duplicates(),
    ensures
        !ids.contains(x) ==> last_given(p, x) is None,
        ids.contains(x) ==> (last_given(p, x) matches Some(a) && a.spec_index() == start
            + choose|k: int| 0 <= k < ids.len() && ids[k] == x),
    decreases p.len(),
{
    if p.len() > 0 {
        let p1 = p.drop_last();
        let ids1 = ids.drop_last();
        assert(numbered_from(p1, ids1, start)) by {
            assert forall|i: int| 0 <= i < p1.len() implies (#[trigger] p1[i]).0 == ids1[i] && p1[i].1.spec_index() == start + i by {
                assert(p1[i] == p[i]);
                assert(ids1[i] == ids[i]);
            }
        }
        assert(ids1.no_duplicates()) by {
            assert forall|a: int, b: int| 0 <= a < b < ids1.len() implies ids1[a] != ids1[b] by {
                assert(ids1[a] == ids[a]);
                assert(ids1[b] == ids[b]);
            }
        }
        lemma_last_given_numbered(p1, ids1, start, x);
        let last = p.len() - 1;
        assert(p.last() == p[last]);
        if ids.contains(x) {
            let k = choose|k: int| 0 <= k < ids.len() && ids[k] == x;
            if k == last {
                assert(p.last().0 == x);
            } else {
                assert(ids1[k] == x);
                assert(ids1.contains(x));
                let k1 = choose|k1: int| 0 <= k1 < ids1.len() && ids1[k1] == x;
                assert(ids[k1] == x);
                assert(k1 == k);
                assert(ids[last] != x);
            }
        } else {
            assert(p.last().0 == ids[last]);
            if ids1.contains(x) {
                let k1 = choose|k1: int| 0 <= k1 < ids1.len() && ids1[k1] == x;
                assert(ids[k1] == x);
            }
        }
    }
}

impl ArchetypeEdge {
    pub closed spec fn spec_src(&self) -> ArchetypeId {
        self.src
    }

    pub closed spec fn spec_dst(&self) -> ArchetypeId {
        self.dst
    }

    pub closed spec fn spec_id(&self) -> ArchetypeEdgeId {
        self.id
    }

    pub closed spec fn spec_contents(&self) -> &ArchetypeEdgeContents {
        &self.contents
    }

    pub closed spec fn spec_action(&self) -> &ArchetypeEdgeAction {
        &self.action
    }

    /// The previous edge in the destination's list of incoming edges.
    pub closed spec fn spec_prev_incoming(&self) -> Option<ArchetypeEdgeId> {
        self.prev_incoming
    }

    /// The next edge in the destination's list of incoming edges.
    pub closed spec fn spec_next_incoming(&self) -> Option<ArchetypeEdgeId> {
        self.next_incoming
    }

    /// The source archetype.
    pub fn src(&self) -> (r: ArchetypeId)
        ensures
            r == self.spec_src(),
    {
        self.src
    }

    /// The destination archetype.
    pub fn dst(&self) -> (r: ArchetypeId)
        ensures
            r == self.spec_dst(),
    {
        self.dst
    }

    /// What the edge adds or removes.
    pub fn contents(&self) -> (r: &ArchetypeEdgeContents)
        ensures
            r == self.spec_contents(),
    {
        &self.contents
    }

    /// Whether the edge adds or removes, and what the source had of it.
    pub fn action(&self) -> (r: &ArchetypeEdgeAction)
        ensures
            r == self.spec_action(),
    {
        &self.action
    }
}

/// Whether an edge with this action is filed among the edges that add: only
/// an edge that adds a single component is.
pub open spec fn filed_as_insert(action: &ArchetypeEdgeAction) -> bool {
    action is Insert
}

impl ArchetypeEdges {
    /// Files the outgoing edge `id`, found by the component or bundle index
    /// `key`, among the edges that add (`is_insert`) or remove.
    fn add_outgoing(&mut self, is_insert: bool, is_bundle: bool, key: usize, id: ArchetypeEdgeId)
        requires
            old(self).wf(),
        ensures
            final(self).wf(),
            final(self).spec_incoming_insert() == old(self).spec_incoming_insert(),
            final(self).spec_incoming_remove() == old(self).spec_incoming_remove(),
            is_insert ==> final(self).spec_outgoing_insert() == old(self).spec_outgoing_insert().push(id)
                && final(self).spec_outgoing_remove() == old(self).spec_outgoing_remove(),
            !is_insert ==> final(self).spec_outgoing_remove() == old(self).spec_outgoing_remove().push(id)
                && final(self).spec_outgoing_insert() == old(self).spec_outgoing_insert(),
            forall|c: usize|
                #[trigger] final(self).spec_insert_edge(c) == if is_insert && !is_bundle && c == key {
                    Some(id)
                } else {
                    old(self).spec_insert_edge(c)
                },
            forall|c: usize|
                #[trigger] final(self).spec_remove_edge(c) == if !is_insert && !is_bundle && c == key {
                    Some(id)
                } else {
                    old(self).spec_remove_edge(c)
                },
            forall|b: usize|
                #[trigger] final(self).spec_insert_bundle_edge(b) == if is_insert && is_bundle && b
                    == key {
                    Some(id)
                } else {
                    old(self).spec_insert_bundle_edge(b)
                },
            forall|b: usize|
                #[trigger] final(self).spec_remove_bundle_edge(b) == if !is_insert && is_bundle && b
                    == key {
                    Some(id)
                } else {
                    old(self).spec_remove_bundle_edge(b)
                },
    {
        if is_insert {
            self.outgoing_insert.push(id);
            if is_bundle {
                index_insert(&mut self.outgoing_insert_bundle_index, key, id);
            } else {
                index_insert(&mut self.outgoing_insert_index, key, id);
            }
        } else {
            self.outgoing_remove.push(id);
            if is_bundle {
                index_insert(&mut self.outgoing_remove_bundle_index, key, id);
            } else {
                index_insert(&mut self.outgoing_remove_index, key, id);
            }
        }
    }

    /// Makes `head` the first incoming edge that adds (`is_insert`) or removes.
    fn set_incoming_head(&mut self, is_insert: bool, head: Option<ArchetypeEdgeId>)
        ensures
            final(self).wf() == old(self).wf(),
            final(self).spec_incoming_insert() == if is_insert {
                head
            } else {
                old(self).spec_incoming_insert()
            },
            final(self).spec_incoming_remove() == if is_insert {
                old(self).spec_incoming_remove()
            } else {
                head
            },
            final(self).spec_outgoing_insert() == old(self).spec_outgoing_insert(),
            final(self).spec_outgoing_remove() == old(self).spec_outgoing_remove(),
            forall|c: usize| #[trigger] final(self).spec_insert_edge(c) == old(self).spec_insert_edge(c),
            forall|c: usize| #[trigger] final(self).spec_remove_edge(c) == old(self).spec_remove_edge(c),
            forall|b: usize|
                #[trigger] final(self).spec_insert_bundle_edge(b) == old(self).spec_insert_bundle_edge(b),
            forall|b: usize|
                #[trigger] final(self).spec_remove_bundle_edge(b) == old(self).spec_remove_bundle_edge(b),
    {
        if is_insert {
            self.incoming_insert = head;
        } else {
            self.incoming_remove = head;
        }
    }
}

/// `a` and `b` are the same archetype, but for the edges they keep.
pub open spec fn same_but_edges(a: Archetype, b: Archetype) -> bool {
    &&& a.spec_id() == b.spec_id()
    &&& a.spec_table_id() == b.spec_table_id()
    &&& a.spec_entities() == b.spec_entities()
    &&& a.spec_component_ids() == b.spec_component_ids()
    &&& a.spec_component_infos() == b.spec_component_infos()
}

/// The index by which an edge with these contents is found: that of its
/// component or of its bundle.
pub open spec fn contents_key(contents: &ArchetypeEdgeContents) -> usize {
    match contents {
        ArchetypeEdgeContents::Component(c) => c.spec_index(),
        ArchetypeEdgeContents::Bundle(b) => b.spec_id().spec_index(),
    }
}

impl Archetypes {
    /// The first incoming edge of archetype `k` that adds (`is_insert`) or
    /// removes.
    pub open spec fn spec_incoming_head(&self, k: int, is_insert: bool) -> Option<ArchetypeEdgeId> {
        if is_insert {
            self.spec_archetypes()[k].spec_edges().spec_incoming_insert()
        } else {
            self.spec_archetypes()[k].spec_edges().spec_incoming_remove()
        }
    }

    /// Keeps the move from `src` to `dst` as a new edge: the source finds it by
    /// what it adds or removes, and it becomes the first of the destination's
    /// incoming edges of its kind. Only an edge that adds one component counts
    /// as adding here; every other edge is filed among those that remove.
    pub fn insert_edge(
        &mut self,
        src: ArchetypeId,
        dst: ArchetypeId,
        contents: ArchetypeEdgeContents,
        action: ArchetypeEdgeAction,
    )
        requires
            old(self).wf(),
            src.spec_index() < old(self).spec_archetypes().len(),
            dst.spec_index() < old(self).spec_archetypes().len(),
            old(self).spec_edges().len() < u32::MAX,
            contents is Component ==> action is Insert || action is Remove,
            contents is Bundle ==> action is InsertBundle || action is RemoveBundle,
            old(self).move_sound(src, dst, contents, action),
        ensures
            final(self).wf(),
            ({
                let n = old(self).spec_edges().len() as int;
                let is_insert = filed_as_insert(&action);
                let head = old(self).spec_incoming_head(dst.spec_index() as int, is_insert);
                let e = final(self).spec_edges()[n];
                &&& final(self).spec_edges().len() == n + 1
                &&& e.spec_src() == src
                &&& e.spec_dst() == dst
                &&& e.spec_id().spec_index() == n
                &&& e.spec_contents() == contents
                &&& e.spec_action() == action
                &&& e.spec_prev_incoming() is None
                &&& e.spec_next_incoming() == head
                &&& forall|j: int|
                    0 <= j < n && head != Some(old(self).spec_edges()[j].spec_id())
                        ==> #[trigger] final(self).spec_edges()[j] == old(self).spec_edges()[j]
                &&& head matches Some(h) ==> {
                    let he = final(self).spec_edges()[h.spec_index() as int];
                    let ho = old(self).spec_edges()[h.spec_index() as int];
                    &&& he.spec_prev_incoming() == Some(e.spec_id())
                    &&& he.spec_next_incoming() == ho.spec_next_incoming()
                    &&& he.spec_src() == ho.spec_src()
                    &&& he.spec_dst() == ho.spec_dst()
                    &&& he.spec_id() == ho.spec_id()
                }
                &&& final(self).spec_incoming_head(dst.spec_index() as int, is_insert) == Some(e.spec_id())
                &&& forall|c: usize|
                    #[trigger] final(self).spec_archetypes()[src.spec_index() as int].spec_edges().spec_insert_edge(c)
                        == if is_insert && contents is Component && c == contents_key(&contents) {
                        Some(e.spec_id())
                    } else {
                        old(self).spec_archetypes()[src.spec_index() as int].spec_edges().spec_insert_edge(c)
                    }
                &&& forall|c: usize|
                    #[trigger] final(self).spec_archetypes()[src.spec_index() as int].spec_edges().spec_remove_edge(c)
                        == if !is_insert && contents is Component && c == contents_key(&contents) {
                        Some(e.spec_id())
                    } else {
                        old(self).spec_archetypes()[src.spec_index() as int].spec_edges().spec_remove_edge(c)
                    }
                &&& forall|b: usize|
                    #[trigger] final(self).spec_archetypes()[src.spec_index() as int].spec_edges().spec_remove_bundle_edge(b)
                        == if !is_insert && contents is Bundle && b == contents_key(&contents) {
                        Some(e.spec_id())
                    } else {
                        old(self).spec_archetypes()[src.spec_index() as int].spec_edges().spec_remove_bundle_edge(b)
                    }
            }),
            final(self).spec_archetypes().len() == old(self).spec_archetypes().len(),
            forall|k: int|
                0 <= k < final(self).spec_archetypes().len() ==> same_but_edges(
                    #[trigger] final(self).spec_archetypes()[k],
                    old(self).spec_archetypes()[k],
                ),
            forall|k: int|
                0 <= k < final(self).spec_archetypes().len() && k != src.spec_index() && k
                    != dst.spec_index()
                    ==> #[trigger] final(self).spec_archetypes()[k] == old(self).spec_archetypes()[k],
            forall|k: int|
                0 <= k < final(self).spec_archetypes().len() ==> #[trigger] final(self).spec_def_table(k)
                    == old(self).spec_def_table(k) && final(self).spec_def_sparse(k)
                    == old(self).spec_def_sparse(k),
            final(self).spec_generation() == old(self).spec_generation(),
            final(self).spec_archetype_component_count() == old(self).spec_archetype_component_count(),
    {
        let is_bundle = match &contents {
            ArchetypeEdgeContents::Bundle(_) => true,
            ArchetypeEdgeContents::Component(_) => false,
        };
        let is_insert = match &action {
            ArchetypeEdgeAction::Insert(_) => true,
            _ => false,
        };
        let key = match &contents {
            ArchetypeEdgeContents::Component(component_id) => component_id.index(),
            ArchetypeEdgeContents::Bundle(bundle) => bundle.id().index(),
        };
        let id = ArchetypeEdgeId::new(self.edges.len());
        let ghost old_archetypes = self.archetypes@;
        // file the edge among the source's outgoing edges
        let s = src.index();
        proof {
            assert(self.archetypes@[s as int].wf());
        }
        self.archetypes[s].edges.add_outgoing(is_insert, is_bundle, key, id);
        // make it the first of the destination's incoming edges
        let d = dst.index();
        let head = if is_insert {
            self.archetypes[d].edges.incoming_insert
        } else {
            self.archetypes[d].edges.incoming_remove
        };
        match head {
            Some(h) => {
                self.edges[h.index()].prev_incoming = Some(id);
            },
            None => {},
        }
        self.archetypes[d].edges.set_incoming_head(is_insert, Some(id));
        let ghost mid_edges = self.edges@;
        self.edges.push(
            ArchetypeEdge {
                src,
                dst,
                id,
                contents,
                action,
                prev_incoming: None,
                next_incoming: head,
            },
        );
        proof {
            let n = old(self).edges@.len() as int;
            assert forall|j: int| 0 <= j < n implies {
                let e = #[trigger] self.edges@[j];
                let o = old(self).edges@[j];
                &&& e.id == o.id
                &&& e.src == o.src
                &&& e.dst == o.dst
                &&& e.action == o.action
            } by {
                assert(self.edges@[j] == mid_edges[j]);
            }
            assert forall|j: int| 0 <= j < self.edges@.len() implies {
                let e = #[trigger] self.edges@[j];
                &&& e.id.spec_index() == j
                &&& e.src.spec_index() < self.archetypes@.len()
                &&& e.dst.spec_index() < self.archetypes@.len()
            } by {
                if j < n {
                    assert(old(self).edges@[j].id.spec_index() == j);
                }
            }
            assert forall|k: int| 0 <= k < self.archetypes@.len() implies {
                let a = #[trigger] self.archetypes@[k];
                &&& a.wf()
                &&& a.spec_id().spec_index() == k
                &&& self.archetype_ids@[k].1 == a.spec_id()
                &&& a.spec_component_ids() == self.spec_def_table(k) + self.spec_def_sparse(k)
                &&& ids_with_storage(a.spec_component_ids(), a.spec_component_infos(), StorageType::Table)
                    == self.spec_def_table(k)
                &&& ids_with_storage(
                    a.spec_component_ids(),
                    a.spec_component_infos(),
                    StorageType::SparseSet,
                ) == self.spec_def_sparse(k)
            } by {
                assert(old(self).archetypes@[k].wf());
            }
            assert forall|k: int| 0 <= k < self.archetypes@.len() implies {
                let edges = (#[trigger] self.archetypes@[k]).spec_edges();
                &&& edges.spec_incoming_insert() matches Some(h) ==> h.spec_index() < self.edges@.len()
                &&& edges.spec_incoming_remove() matches Some(h) ==> h.spec_index() < self.edges@.len()
            } by {
                assert(old(self).archetypes@[k].wf());
            }
            assert forall|k: int, c: usize| 0 <= k < self.archetypes@.len() implies (#[trigger] self.archetypes@[k].spec_edges().spec_insert_edge(c)
                matches Some(e) ==> {
                &&& e.spec_index() < self.edges@.len()
                &&& self.edges@[e.spec_index() as int].action is Insert
            }) by {
                let o = old(self).archetypes@[k].spec_edges().spec_insert_edge(c);
                if self.archetypes@[k].spec_edges().spec_insert_edge(c) != o {
                    assert(self.archetypes@[k].spec_edges().spec_insert_edge(c) == Some(id));
                }
            }
            assert forall|k: int, c: usize| 0 <= k < self.archetypes@.len() implies (#[trigger] self.archetypes@[k].spec_edges().spec_remove_edge(c)
                matches Some(e) ==> {
                &&& e.spec_index() < self.edges@.len()
                &&& self.edges@[e.spec_index() as int].action is Remove
            }) by {
                let o = old(self).archetypes@[k].spec_edges().spec_remove_edge(c);
                if self.archetypes@[k].spec_edges().spec_remove_edge(c) != o {
                    assert(self.archetypes@[k].spec_edges().spec_remove_edge(c) == Some(id));
                }
            }
            assert(self.archetype_ids@ == old(self).archetype_ids@);
            assert(self.archetypes@.len() == self.archetype_ids@.len());
            assert forall|k: int, l: int| 0 <= k < l < self.archetypes@.len() implies !(#[trigger] self.spec_def_table(k)
                == #[trigger] self.spec_def_table(l) && self.spec_def_sparse(k) == self.spec_def_sparse(l)) by {
                assert(!(old(self).spec_def_table(k) == old(self).spec_def_table(l)
                    && old(self).spec_def_sparse(k) == old(self).spec_def_sparse(l)));
            }
            assert forall|j: int| 0 <= j < self.edges@.len() implies {
                let e = #[trigger] self.edges@[j];
                self.move_sound(e.src, e.dst, e.contents, e.action)
            } by {
                if j < n {
                    let o = old(self).edges@[j];
                    assert(old(self).move_sound(o.src, o.dst, o.contents, o.action));
                    assert(self.edges@[j] == mid_edges[j]);
                }
            }
            assert forall|k: int, c: usize| 0 <= k < self.archetypes@.len() implies (#[trigger] self.archetypes@[k].spec_edges().spec_insert_edge(c)
                matches Some(e) ==> {
                let edge = self.edges@[e.spec_index() as int];
                &&& edge.src.spec_index() == k
                &&& edge.contents matches ArchetypeEdgeContents::Component(cc) && cc.spec_index() == c
            }) by {
                let o = old(self).archetypes@[k].spec_edges().spec_insert_edge(c);
                if self.archetypes@[k].spec_edges().spec_insert_edge(c) != o {
                    assert(self.archetypes@[k].spec_edges().spec_insert_edge(c) == Some(id));
                } else if let Some(e) = o {
                    assert(self.edges@[e.spec_index() as int] == mid_edges[e.spec_index() as int]);
                }
            }
            assert forall|k: int, c: usize| 0 <= k < self.archetypes@.len() implies (#[trigger] self.archetypes@[k].spec_edges().spec_remove_edge(c)
                matches Some(e) ==> {
                let edge = self.edges@[e.spec_index() as int];
                &&& edge.src.spec_index() == k
                &&& edge.contents matches ArchetypeEdgeContents::Component(cc) && cc.spec_index() == c
            }) by {
                let o = old(self).archetypes@[k].spec_edges().spec_remove_edge(c);
                if self.archetypes@[k].spec_edges().spec_remove_edge(c) != o {
                    assert(self.archetypes@[k].spec_edges().spec_remove_edge(c) == Some(id));
                } else if let Some(e) = o {
                    assert(self.edges@[e.spec_index() as int] == mid_edges[e.spec_index() as int]);
                }
            }
            assert forall|k: int, b: usize| 0 <= k < self.archetypes@.len() implies (#[trigger] self.archetypes@[k].spec_edges().spec_remove_bundle_edge(b)
                matches Some(e) ==> {
                let edge = self.edges@[e.spec_index() as int];
                &&& e.spec_index() < self.edges@.len()
                &&& edge.src.spec_index() == k
                &&& edge.contents matches ArchetypeEdgeContents::Bundle(bi) && bi.spec_id().spec_index() == b
            }) by {
                let o = old(self).archetypes@[k].spec_edges().spec_remove_bundle_edge(b);
                if self.archetypes@[k].spec_edges().spec_remove_bundle_edge(b) != o {
                    assert(self.archetypes@[k].spec_edges().spec_remove_bundle_edge(b) == Some(id));
                } else if let Some(e) = o {
                    assert(self.edges@[e.spec_index() as int] == mid_edges[e.spec_index() as int]);
                }
            }
            assert forall|k: int, b: usize| 0 <= k < self.archetypes@.len() implies #[trigger] self.archetypes@[k].spec_edges().spec_insert_bundle_edge(b)
                is None by {
                assert(old(self).archetypes@[k].spec_edges().spec_insert_bundle_edge(b) is None);
            }
        }
    }
}

impl Archetypes {
    /// The archetypes with just the archetype without components, on the
    /// table without components, under id zero.
    pub fn new(components: &mut Components) -> (r: Archetypes)
        requires
            old(components).wf(),
        ensures
            r.wf(),
            *final(components) == *old(components),
            r.spec_archetypes().len() == 1,
            r.spec_edges().len() == 0,
            r.spec_archetype_component_count() == 0,
            r.spec_generation().spec_value() == 0,
            archetype_made(
                r.spec_archetypes()[0],
                r.spec_archetypes()[0].spec_id(),
                r.spec_archetypes()[0].spec_table_id(),
                Seq::<ComponentId>::empty(),
                Seq::<ComponentId>::empty(),
                0,
            ),
            r.spec_archetypes()[0].spec_id().spec_index() == 0,
            r.spec_archetypes()[0].spec_table_id().spec_index() == 0,
            r.spec_def_table(0) == Seq::<ComponentId>::empty(),
            r.spec_def_sparse(0) == Seq::<ComponentId>::empty(),
            forall|infos: Seq<ComponentInfo>| #[trigger] stored_as_declared(r, infos),
    {
        let id = ArchetypeId::new(0);
        let table_pairs: Vec<(ComponentId, ArchetypeComponentId)> = Vec::new();
        let sparse_pairs: Vec<(ComponentId, ArchetypeComponentId)> = Vec::new();
        proof {
            assert(pair_ids(table_pairs@) =~= Seq::<ComponentId>::empty());
            assert(pair_ids(sparse_pairs@) =~= Seq::<ComponentId>::empty());
            assert((pair_ids(table_pairs@) + pair_ids(sparse_pairs@)).no_duplicates());
            lemma_ids_with_storage_split(table_pairs@, sparse_pairs@);
        }
        let archetype = Archetype::new(id, TableId::empty(), table_pairs, sparse_pairs);
        let mut archetypes: Vec<Archetype> = Vec::with_capacity(1);
        archetypes.push(archetype);
        let mut archetype_ids: Vec<(ArchetypeDef, ArchetypeId)> = Vec::new();
        archetype_ids.push(
            (ArchetypeDef { table_components: Vec::new(), sparse_set_components: Vec::new() }, id),
        );
        let r = Archetypes {
            archetypes,
            edges: Vec::new(),
            archetype_ids,
            generation: ArchetypeGeneration::initial(),
            archetype_component_count: 0,
        };
        proof {
            assert(r.spec_def_table(0) =~= Seq::<ComponentId>::empty());
            assert(r.spec_def_sparse(0) =~= Seq::<ComponentId>::empty());
            assert(r.archetypes@[0].spec_component_ids() =~= Seq::<ComponentId>::empty() + Seq::<ComponentId>::empty());
        }
        r
    }

    /// The generation of the archetypes.
    pub fn generation(&self) -> (r: ArchetypeGeneration)
        ensures
            r == self.spec_generation(),
    {
        self.generation
    }

    /// The number of archetypes.
    pub fn len(&self) -> (r: usize)
        ensures
            r == self.spec_archetypes().len(),
    {
        self.archetypes.len()
    }

    /// The number of edges.
    pub fn edge_count(&self) -> (r: usize)
        ensures
            r == self.spec_edges().len(),
    {
        self.edges.len()
    }

    /// How many archetype component ids have been handed out.
    pub fn archetype_component_count(&self) -> (r: usize)
        ensures
            r == self.spec_archetype_component_count(),
    {
        self.archetype_component_count
    }

    /// The archetype without components.
    pub fn empty(&self) -> (r: &Archetype)
        requires
            self.wf(),
        ensures
            *r == self.spec_archetypes()[0],
            r.spec_component_ids() == Seq::<ComponentId>::empty(),
    {
        proof {
            assert(self.archetypes@[0].wf());
            assert(self.archetypes@[0].spec_component_ids() =~= Seq::<ComponentId>::empty());
        }
        &self.archetypes[0]
    }

    /// The archetype with id `id`, if it exists.
    pub fn get(&self, id: ArchetypeId) -> (r: Option<&Archetype>)
        ensures
            r is Some <==> id.spec_index() < self.spec_archetypes().len(),
            r matches Some(a) ==> *a == self.spec_archetypes()[id.spec_index() as int],
    {
        if id.index() < self.archetypes.len() {
            Some(&self.archetypes[id.index()])
        } else {
            None
        }
    }

    /// The archetype with id `id`, to change in place, if it exists.
    pub fn get_mut(&mut self, id: ArchetypeId) -> (r: Option<&mut Archetype>)
        ensures
            r is Some <==> id.spec_index() < old(self).spec_archetypes().len(),
            r is None ==> *final(self) == *old(self),
            r matches Some(a) ==> *a == old(self).spec_archetypes()[id.spec_index() as int]
                && final(self).spec_archetypes() == old(self).spec_archetypes().update(
                id.spec_index() as int,
                *final(a),
            ) && final(self).spec_edges() == old(self).spec_edges(),
    {
        if id.index() < self.archetypes.len() {
            Some(&mut self.archetypes[id.index()])
        } else {
            None
        }
    }

    /// The archetypes, by id.
    pub fn iter(&self) -> (r: Vec<&Archetype>)
        ensures
            r@.len() == self.spec_archetypes().len(),
            forall|i: int| 0 <= i < r@.len() ==> *#[trigger] r@[i] == self.spec_archetypes()[i],
    {
        let mut r: Vec<&Archetype> = Vec::with_capacity(self.archetypes.len());
        let mut i: usize = 0;
        while i < self.archetypes.len()
            invariant
                i <= self.archetypes@.len(),
                r@.len() == i,
                forall|j: int| 0 <= j < i ==> *#[trigger] r@[j] == self.archetypes@[j],
            decreases self.archetypes@.len() - i,
        {
            r.push(&self.archetypes[i]);
            i = i + 1;
        }
        r
    }

    /// Removes every entity of every archetype.
    pub fn clear_entities(&mut self)
        requires
            old(self).wf(),
        ensures
            final(self).wf(),
            final(self).spec_archetypes().len() == old(self).spec_archetypes().len(),
            final(self).spec_edges() == old(self).spec_edges(),
            forall|k: int|
                0 <= k < final(self).spec_archetypes().len() ==> (#[trigger] final(self).spec_archetypes()[k]).spec_entities()
                    == Seq::<ArchetypeEntity>::empty(),
    {
        let n = self.archetypes.len();
        let mut i: usize = 0;
        while i < n
            invariant
                n == self.archetypes@.len(),
                n == old(self).archetypes@.len(),
                i <= n,
                self.edges@ == old(self).edges@,
                self.archetype_ids@ == old(self).archetype_ids@,
                self.generation == old(self).generation,
                self.archetype_component_count == old(self).archetype_component_count,
                old(self).wf(),
                forall|j: int| i <= j < n ==> #[trigger] self.archetypes@[j] == old(self).archetypes@[j],
                forall|j: int|
                    0 <= j < i ==> {
                        let a = #[trigger] self.archetypes@[j];
                        let o = old(self).archetypes@[j];
                        &&& a.spec_entities() == Seq::<ArchetypeEntity>::empty()
                        &&& a.spec_id() == o.spec_id()
                        &&& a.spec_table_id() == o.spec_table_id()
                        &&& a.spec_component_ids() == o.spec_component_ids()
                        &&& a.spec_component_infos() == o.spec_component_infos()
                        &&& a.spec_edges() == o.spec_edges()
                        &&& a.wf() == o.wf()
                    },
            decreases n - i,
        {
            self.archetypes[i].clear_entities();
            i = i + 1;
        }
        proof {
            assert forall|k: int| 0 <= k < n implies {
                let a = #[trigger] self.archetypes@[k];
                &&& a.wf()
                &&& a.spec_id().spec_index() == k
                &&& self.archetype_ids@[k].1 == a.spec_id()
                &&& a.spec_component_ids() == self.spec_def_table(k) + self.spec_def_sparse(k)
                &&& ids_with_storage(a.spec_component_ids(), a.spec_component_infos(), StorageType::Table)
                    == self.spec_def_table(k)
                &&& ids_with_storage(
                    a.spec_component_ids(),
                    a.spec_component_infos(),
                    StorageType::SparseSet,
                ) == self.spec_def_sparse(k)
            } by {
                assert(old(self).archetypes@[k].wf());
            }
            assert forall|k: int| 0 <= k < n implies {
                let edges = (#[trigger] self.archetypes@[k]).spec_edges();
                &&& edges.spec_incoming_insert() matches Some(h) ==> h.spec_index() < self.edges@.len()
                &&& edges.spec_incoming_remove() matches Some(h) ==> h.spec_index() < self.edges@.len()
            } by {
                assert(old(self).archetypes@[k].wf());
            }
            assert forall|k: int, c: usize| 0 <= k < n implies (#[trigger] self.archetypes@[k].spec_edges().spec_insert_edge(c)
                matches Some(e) ==> {
                &&& e.spec_index() < self.edges@.len()
                &&& self.edges@[e.spec_index() as int].action is Insert
            }) by {
                assert(old(self).archetypes@[k].wf());
            }
            assert forall|k: int, c: usize| 0 <= k < n implies (#[trigger] self.archetypes@[k].spec_edges().spec_remove_edge(c)
                matches Some(e) ==> {
                &&& e.spec_index() < self.edges@.len()
                &&& self.edges@[e.spec_index() as int].action is Remove
            }) by {
                assert(old(self).archetypes@[k].wf());
            }
            assert forall|k: int, l: int| 0 <= k < l < self.archetypes@.len() implies !(#[trigger] self.spec_def_table(k)
                == #[trigger] self.spec_def_table(l) && self.spec_def_sparse(k) == self.spec_def_sparse(l)) by {
                assert(!(old(self).spec_def_table(k) == old(self).spec_def_table(l)
                    && old(self).spec_def_sparse(k) == old(self).spec_def_sparse(l)));
            }
        }
    }

    /// The edge kept for adding the component to the archetype, if any.
    pub fn get_edge_for_insert(&self, archetype_id: ArchetypeId, component_id: ComponentId) -> (r:
        Option<&ArchetypeEdge>)
        requires
            self.wf(),
        ensures
            r matches Some(e) ==> archetype_id.spec_index() < self.spec_archetypes().len() && (
            self.spec_archetypes()[archetype_id.spec_index() as int].spec_edges().spec_insert_edge(
                component_id.spec_index(),
            ) matches Some(eid) && *e == self.spec_edges()[eid.spec_index() as int]),
            r is None ==> archetype_id.spec_index() >= self.spec_archetypes().len()
                || self.spec_archetypes()[archetype_id.spec_index() as int].spec_edges().spec_insert_edge(
                component_id.spec_index(),
            ) is None,
    {
        if archetype_id.index() < self.archetypes.len() {
            proof {
                assert(self.archetypes@[archetype_id.spec_index() as int].wf());
            }
            match self.archetypes[archetype_id.index()].edges.get_edge_for_insert(component_id) {
                Some(edge_id) => {
                    proof {
                        assert(edge_id.spec_index() < self.edges@.len());
                    }
                    return Some(&self.edges[edge_id.index()]);
                },
                None => {},
            }
        }
        None
    }

    /// The edge kept for removing the component from the archetype, if any.
    pub fn get_edge_for_remove(&self, archetype_id: ArchetypeId, component_id: ComponentId) -> (r:
        Option<&ArchetypeEdge>)
        requires
            self.wf(),
        ensures
            r matches Some(e) ==> archetype_id.spec_index() < self.spec_archetypes().len() && (
            self.spec_archetypes()[archetype_id.spec_index() as int].spec_edges().spec_remove_edge(
                component_id.spec_index(),
            ) matches Some(eid) && *e == self.spec_edges()[eid.spec_index() as int]),
            r is None ==> archetype_id.spec_index() >= self.spec_archetypes().len()
                || self.spec_archetypes()[archetype_id.spec_index() as int].spec_edges().spec_remove_edge(
                component_id.spec_index(),
            ) is None,
    {
        if archetype_id.index() < self.archetypes.len() {
            proof {
                assert(self.archetypes@[archetype_id.spec_index() as int].wf());
            }
            match self.archetypes[archetype_id.index()].edges.get_edge_for_remove(component_id) {
                Some(edge_id) => {
                    proof {
                        assert(edge_id.spec_index() < self.edges@.len());
                    }
                    return Some(&self.edges[edge_id.index()]);
                },
                None => {},
            }
        }
        None
    }
}

/// Two lists without repeats that hold the same ids are equally long.
proof fn lemma_same_elements_same_len(a: Seq<ComponentId>, b: Seq<ComponentId>)
    requires
        a.no_duplicates(),
        b.no_duplicates(),
        forall|x: ComponentId| a.contains(x) <==> b.contains(x),
    ensures
        a.len() == b.len(),
{
    a.unique_seq_to_set();
    b.unique_seq_to_set();
    assert(a.to_set() =~= b.to_set());
}

/// A concatenation without repeats is made of two lists without repeats and
/// without common ids.
proof fn lemma_split_no_dup(t: Seq<ComponentId>, sp: Seq<ComponentId>)
    requires
        (t + sp).no_duplicates(),
    ensures
        t.no_duplicates(),
        sp.no_duplicates(),
        forall|x: ComponentId| t.contains(x) ==> !sp.contains(x),
{
    assert forall|x: int, y: int| 0 <= x < y < t.len() implies t[x] != t[y] by {
        assert((t + sp)[x] == t[x]);
        assert((t + sp)[y] == t[y]);
    }
    assert forall|x: int, y: int| 0 <= x < y < sp.len() implies sp[x] != sp[y] by {
        assert((t + sp)[t.len() + x] == sp[x]);
        assert((t + sp)[t.len() + y] == sp[y]);
    }
    assert forall|x: ComponentId| t.contains(x) implies !sp.contains(x) by {
        if sp.contains(x) {
            let i = choose|i: int| 0 <= i < t.len() && t[i] == x;
            let j = choose|j: int| 0 <= j < sp.len() && sp[j] == x;
            assert((t + sp)[i] == (t + sp)[t.len() + j]);
        }
    }
}

/// `t2` is `t` with `c` added, strictly ascending.
pub open spec fn sorted_with(t: Seq<ComponentId>, t2: Seq<ComponentId>, c: ComponentId) -> bool {
    &&& strictly_sorted(t2)
    &&& forall|x: ComponentId| t2.contains(x) <==> (t.contains(x) || x == c)
}

/// The components an archetype made of table components `t` and sparse-set
/// components `sp` has once `c`, stored as `storage`, is added: `t2` and `sp2`.
pub open spec fn added_def(
    t: Seq<ComponentId>,
    sp: Seq<ComponentId>,
    c: ComponentId,
    storage: StorageType,
    t2: Seq<ComponentId>,
    sp2: Seq<ComponentId>,
) -> bool {
    match storage {
        StorageType::Table => sorted_with(t, t2, c) && sp2 == sp,
        StorageType::SparseSet => t2 == t && sorted_with(sp, sp2, c),
    }
}

/// The ids of a concatenation are those of its two parts.
proof fn lemma_concat_to_set(a: Seq<ComponentId>, b: Seq<ComponentId>)
    ensures
        (a + b).to_set() == a.to_set().union(b.to_set()),
{
    assert forall|x: ComponentId| (a + b).to_set().contains(x) <==> a.to_set().union(b.to_set()).contains(x) by {
        if (a + b).contains(x) {
            let i = choose|i: int| 0 <= i < (a + b).len() && (a + b)[i] == x;
            if i < a.len() {
                assert(a[i] == x);
            } else {
                assert(b[i - a.len()] == x);
            }
        }
        if a.contains(x) {
            let i = choose|i: int| 0 <= i < a.len() && a[i] == x;
            assert((a + b)[i] == x);
        }
        if b.contains(x) {
            let i = choose|i: int| 0 <= i < b.len() && b[i] == x;
            assert((a + b)[a.len() + i] == x);
        }
    }
    assert((a + b).to_set() =~= a.to_set().union(b.to_set()));
}

/// Adding `c` as `added_def` describes adds `c` to the set of ids.
proof fn lemma_added_comps(
    t: Seq<ComponentId>,
    sp: Seq<ComponentId>,
    c: ComponentId,
    storage: StorageType,
    t2: Seq<ComponentId>,
    sp2: Seq<ComponentId>,
)
    requires
        added_def(t, sp, c, storage, t2, sp2),
    ensures
        (t2 + sp2).to_set() == (t + sp).to_set().insert(c),
{
    lemma_concat_to_set(t, sp);
    lemma_concat_to_set(t2, sp2);
    match storage {
        StorageType::Table => {
            assert(t2.to_set() =~= t.to_set().insert(c));
        },
        StorageType::SparseSet => {
            assert(sp2.to_set() =~= sp.to_set().insert(c));
        },
    }
    assert((t2 + sp2).to_set() =~= (t + sp).to_set().insert(c));
}

/// The table and sparse-set components of every archetype are registered in
/// `infos` and stored the way `infos` says.
pub open spec fn stored_as_declared(x: Archetypes, infos: Seq<ComponentInfo>) -> bool {
    &&& forall|k: int, i: int|
        0 <= k < x.spec_archetypes().len() && 0 <= i < x.spec_def_table(k).len() ==> {
            let c = #[trigger] x.spec_def_table(k)[i];
            &&& c.spec_index() < infos.len()
            &&& infos[c.spec_index() as int].spec_storage_type() == StorageType::Table
        }
    &&& forall|k: int, i: int|
        0 <= k < x.spec_archetypes().len() && 0 <= i < x.spec_def_sparse(k).len() ==> {
            let c = #[trigger] x.spec_def_sparse(k)[i];
            &&& c.spec_index() < infos.len()
            &&& infos[c.spec_index() as int].spec_storage_type() == StorageType::SparseSet
        }
}

/// Archetypes that gain at most the archetype `t2`, `s2` (component `c`,
/// stored as `storage`, added to archetype `a`) keep their components stored
/// as declared.
proof fn lemma_stored_after_add(
    o: Archetypes,
    n: Archetypes,
    infos: Seq<ComponentInfo>,
    a: int,
    c: ComponentId,
    storage: StorageType,
    t2: Seq<ComponentId>,
    s2: Seq<ComponentId>,
)
    requires
        stored_as_declared(o, infos),
        0 <= a < o.spec_archetypes().len(),
        o.spec_archetypes().len() <= n.spec_archetypes().len() <= o.spec_archetypes().len() + 1,
        forall|k: int|
            0 <= k < o.spec_archetypes().len() ==> #[trigger] n.spec_def_table(k) == o.spec_def_table(k)
                && n.spec_def_sparse(k) == o.spec_def_sparse(k),
        n.spec_archetypes().len() == o.spec_archetypes().len() + 1 ==> n.spec_def_table(
            o.spec_archetypes().len() as int,
        ) == t2 && n.spec_def_sparse(o.spec_archetypes().len() as int) == s2,
        added_def(o.spec_def_table(a), o.spec_def_sparse(a), c, storage, t2, s2),
        c.spec_index() < infos.len(),
        infos[c.spec_index() as int].spec_storage_type() == storage,
    ensures
        stored_as_declared(n, infos),
{
    let t = o.spec_def_table(a);
    let sp = o.spec_def_sparse(a);
    assert forall|k: int, i: int| 0 <= k < n.spec_archetypes().len() && 0 <= i < n.spec_def_table(k).len() implies {
        let x = #[trigger] n.spec_def_table(k)[i];
        &&& x.spec_index() < infos.len()
        &&& infos[x.spec_index() as int].spec_storage_type() == StorageType::Table
    } by {
        if k < o.spec_archetypes().len() {
            assert(n.spec_def_table(k) == o.spec_def_table(k));
            assert(o.spec_def_table(k)[i] == n.spec_def_table(k)[i]);
        } else {
            let x = t2[i];
            assert(t2.contains(x));
            if storage == StorageType::Table {
                if x != c {
                    assert(t.contains(x));
                    let j = choose|j: int| 0 <= j < t.len() && t[j] == x;
                    assert(o.spec_def_table(a)[j] == x);
                }
            } else {
                assert(t2 == t);
                assert(o.spec_def_table(a)[i] == x);
            }
        }
    }
    assert forall|k: int, i: int| 0 <= k < n.spec_archetypes().len() && 0 <= i < n.spec_def_sparse(k).len() implies {
        let x = #[trigger] n.spec_def_sparse(k)[i];
        &&& x.spec_index() < infos.len()
        &&& infos[x.spec_index() as int].spec_storage_type() == StorageType::SparseSet
    } by {
        if k < o.spec_archetypes().len() {
            assert(n.spec_def_table(k) == o.spec_def_table(k));
            assert(n.spec_def_sparse(k) == o.spec_def_sparse(k));
            assert(o.spec_def_sparse(k)[i] == n.spec_def_sparse(k)[i]);
        } else {
            let x = s2[i];
            assert(s2.contains(x));
            if storage == StorageType::SparseSet {
                if x != c {
                    assert(sp.contains(x));
                    let j = choose|j: int| 0 <= j < sp.len() && sp[j] == x;
                    assert(o.spec_def_sparse(a)[j] == x);
                }
            } else {
                assert(s2 == sp);
                assert(o.spec_def_sparse(a)[i] == x);
            }
        }
    }
}

/// Archetypes made of the same components keep them stored as declared.
proof fn lemma_stored_same_defs(o: Archetypes, n: Archetypes, infos: Seq<ComponentInfo>)
    requires
        stored_as_declared(o, infos),
        n.spec_archetypes().len() == o.spec_archetypes().len(),
        defs_kept(o, n),
    ensures
        stored_as_declared(n, infos),
{
    assert forall|k: int, i: int| 0 <= k < n.spec_archetypes().len() && 0 <= i < n.spec_def_table(k).len() implies {
        let x = #[trigger] n.spec_def_table(k)[i];
        &&& x.spec_index() < infos.len()
        &&& infos[x.spec_index() as int].spec_storage_type() == StorageType::Table
    } by {
        assert(n.spec_def_table(k) == o.spec_def_table(k));
        assert(o.spec_def_table(k)[i] == n.spec_def_table(k)[i]);
    }
    assert forall|k: int, i: int| 0 <= k < n.spec_archetypes().len() && 0 <= i < n.spec_def_sparse(k).len() implies {
        let x = #[trigger] n.spec_def_sparse(k)[i];
        &&& x.spec_index() < infos.len()
        &&& infos[x.spec_index() as int].spec_storage_type() == StorageType::SparseSet
    } by {
        assert(n.spec_def_table(k) == o.spec_def_table(k));
        assert(o.spec_def_sparse(k)[i] == n.spec_def_sparse(k)[i]);
    }
}

impl Archetypes {
    /// The archetype reached by adding the component `component_id` to
    /// archetype `archetype_id`, and whether the archetype did not have the
    /// component yet (so that adding it changes the archetype). A kept edge answers at once; otherwise the archetype with the
    /// component added (its ids kept sorted) is found or made, with its table
    /// when the component is stored in tables, and the move is kept as an
    /// edge when `cache_edge` is set.
    #[verifier::spinoff_prover]
    #[verifier::rlimit(40)]
    pub fn insert_component_into_archetype(
        &mut self,
        component_id: ComponentId,
        archetype_id: ArchetypeId,
        components: &mut Components,
        tables: &mut Tables,
        cache_edge: bool,
    ) -> (r: (ArchetypeId, bool))
        requires
            old(self).wf(),
            old(components).wf(),
            old(tables).wf(),
            archetype_id.spec_index() < old(self).spec_archetypes().len(),
            old(components).spec_has(component_id),
            forall|i: int|
                0 <= i < old(self).spec_archetypes()[archetype_id.spec_index() as int].spec_component_ids().len()
                    ==> old(components).spec_has(
                    #[trigger] old(self).spec_archetypes()[archetype_id.spec_index() as int].spec_component_ids()[i],
                ),
            old(self).spec_archetype_component_count() + old(self).spec_archetypes()[archetype_id.spec_index() as int].spec_component_ids().len()
                + 1 <= usize::MAX,
            old(self).spec_archetypes().len() <= u32::MAX,
            old(self).spec_edges().len() < u32::MAX,
            old(tables).spec_tables().len() <= u32::MAX,
        ensures
            final(self).wf(),
            final(components).wf(),
            final(tables).wf(),
            final(components).spec_infos() == old(components).spec_infos(),
            r.0.spec_index() < final(self).spec_archetypes().len(),
            defs_kept(*old(self), *final(self)),
            ({
                let a = archetype_id.spec_index() as int;
                let o = *old(self);
                let cached = o.spec_archetypes()[a].spec_edges().spec_insert_edge(
                    component_id.spec_index(),
                );
                let storage = old(components).spec_infos()[component_id.spec_index() as int].spec_storage_type();
                &&& cached matches Some(eid) ==> {
                    let e = o.spec_edges()[eid.spec_index() as int];
                    &&& r.0 == e.spec_dst()
                    &&& e.spec_action() matches ArchetypeEdgeAction::Insert(has) && has == r.1
                    &&& *final(self) == *old(self)
                    &&& *final(components) == *old(components)
                    &&& *final(tables) == *old(tables)
                }
                &&& cached is None ==> {
                    &&& r.1 == !o.spec_archetypes()[a].spec_component_ids().contains(component_id)
                    &&& !r.1 ==> r.0 == archetype_id
                    &&& r.1 ==> added_def(
                        o.spec_def_table(a),
                        o.spec_def_sparse(a),
                        component_id,
                        storage,
                        final(self).spec_def_table(r.0.spec_index() as int),
                        final(self).spec_def_sparse(r.0.spec_index() as int),
                    )
                    &&& cache_edge ==> (final(self).spec_archetypes()[a].spec_edges().spec_insert_edge(
                        component_id.spec_index(),
                    ) matches Some(eid) && final(self).spec_edges()[eid.spec_index() as int].spec_dst() == r.0)
                }
            }),
            r.1 == !old(self).spec_comps(archetype_id.spec_index() as int).contains(component_id),
            (r.0 == archetype_id) == !r.1,
            final(self).spec_comps(r.0.spec_index() as int) == old(self).spec_comps(
                archetype_id.spec_index() as int,
            ).insert(component_id),
            old(self).spec_archetypes().len() <= final(self).spec_archetypes().len()
                <= old(self).spec_archetypes().len() + 1,
            final(self).spec_edges().len() <= old(self).spec_edges().len() + 1,
            final(tables).spec_tables().len() <= old(tables).spec_tables().len() + 1,
            final(self).spec_archetype_component_count() <= old(self).spec_archetype_component_count()
                + old(self).spec_archetypes()[archetype_id.spec_index() as int].spec_component_ids().len() + 1,
            stored_as_declared(*old(self), old(components).spec_infos()) ==> stored_as_declared(
                *final(self),
                final(components).spec_infos(),
            ),
    {
        let ghost a = archetype_id.spec_index() as int;
        // check the kept edges
        match self.get_edge_for_insert(archetype_id, component_id) {
            Some(edge) => {
                let new_archetype_id = edge.dst;
                let has = match edge.action {
                    ArchetypeEdgeAction::Insert(has) => has,
                    _ => {
                        proof {
                            assert(false);
                        }
                        false
                    },
                };
                proof {
                    let eid = self.archetypes@[a].spec_edges().spec_insert_edge(component_id.spec_index())->0;
                    let e = self.edges@[eid.spec_index() as int];
                    assert(self.move_sound(e.src, e.dst, e.contents, e.action));
                    if let ArchetypeEdgeContents::Component(cc) = e.contents {
                        ComponentId::lemma_index_injective(cc, component_id);
                    }
                    ArchetypeId::lemma_index_injective(e.src, archetype_id);
                }
                return (new_archetype_id, has);
            },
            None => {},
        }
        let component_storage = match components.get_info(component_id) {
            Some(info) => info.storage_type(),
            None => {
                proof {
                    assert(false);
                }
                StorageType::Table
            },
        };
        proof {
            assert(self.archetypes@[a].wf());
            lemma_split_no_dup(self.spec_def_table(a), self.spec_def_sparse(a));
        }
        let ghost t = self.spec_def_table(a);
        let ghost sp = self.spec_def_sparse(a);
        let contains = self.archetypes[archetype_id.index()].contains(component_id);
        let (new_archetype_id, has) = if contains {
            (archetype_id, false)
        } else {
            let mut new_table_components = self.archetypes[archetype_id.index()].table_components();
            let mut new_sparse_set_components = self.archetypes[archetype_id.index()].sparse_set_components();
            let table_id = self.archetypes[archetype_id.index()].table_id();
            proof {
                assert(!(t + sp).contains(component_id));
                assert forall|x: ComponentId| (t + sp).contains(x) implies components.spec_has(x) by {
                    let i = choose|i: int| 0 <= i < (t + sp).len() && (t + sp)[i] == x;
                    assert(self.archetypes@[a].spec_component_ids()[i] == x);
                }
            }
            let new_table_id = match component_storage {
                StorageType::Table => {
                    new_table_components.push(component_id);
                    let sorted = sorted_unique(&new_table_components);
                    proof {
                        let t1 = new_table_components@;
                        assert(t1 == t.push(component_id));
                        assert forall|x: ComponentId| t1.contains(x) <==> (t.contains(x) || x == component_id) by {
                            if t1.contains(x) {
                                let i = choose|i: int| 0 <= i < t1.len() && t1[i] == x;
                                if i < t.len() {
                                    assert(t[i] == x);
                                }
                            }
                            if t.contains(x) {
                                let i = choose|i: int| 0 <= i < t.len() && t[i] == x;
                                assert(t1[i] == x);
                            }
                            if x == component_id {
                                assert(t1[t.len() as int] == x);
                            }
                        }
                        assert(t1.no_duplicates()) by {
                            assert forall|i: int, j: int| 0 <= i < j < t1.len() implies t1[i] != t1[j] by {
                                if j == t.len() {
                                    assert(t1[i] == t[i]);
                                    assert((t + sp)[i] == t[i]);
                                }
                            }
                        }
                        assert(sorted@.no_duplicates()) by {
                            assert forall|i: int, j: int| 0 <= i < j < sorted@.len() implies sorted@[i] != sorted@[j] by {
                                assert(sorted@[i].spec_index() < sorted@[j].spec_index());
                            }
                        }
                        lemma_same_elements_same_len(sorted@, t1);
                        assert forall|i: int| 0 <= i < sorted@.len() implies components.spec_has(#[trigger] sorted@[i]) by {
                            assert(sorted@.contains(sorted@[i]));
                            if sorted@[i] != component_id {
                                assert((t + sp).contains(sorted@[i])) by {
                                    let j = choose|j: int| 0 <= j < t.len() && t[j] == sorted@[i];
                                    assert((t + sp)[j] == t[j]);
                                }
                            }
                        }
                    }
                    new_table_components = sorted;
                    tables.get_id_or_insert(new_table_components.as_slice(), components)
                },
                StorageType::SparseSet => {
                    new_sparse_set_components.push(component_id);
                    let sorted = sorted_unique(&new_sparse_set_components);
                    proof {
                        let s1 = new_sparse_set_components@;
                        assert(s1 == sp.push(component_id));
                        assert forall|x: ComponentId| s1.contains(x) <==> (sp.contains(x) || x == component_id) by {
                            if s1.contains(x) {
                                let i = choose|i: int| 0 <= i < s1.len() && s1[i] == x;
                                if i < sp.len() {
                                    assert(sp[i] == x);
                                }
                            }
                            if sp.contains(x) {
                                let i = choose|i: int| 0 <= i < sp.len() && sp[i] == x;
                                assert(s1[i] == x);
                            }
                            if x == component_id {
                                assert(s1[sp.len() as int] == x);
                            }
                        }
                        assert(s1.no_duplicates()) by {
                            assert forall|i: int, j: int| 0 <= i < j < s1.len() implies s1[i] != s1[j] by {
                                if j == sp.len() {
                                    assert(s1[i] == sp[i]);
                                    assert((t + sp)[t.len() + i] == sp[i]);
                                }
                            }
                        }
                        assert(sorted@.no_duplicates()) by {
                            assert forall|i: int, j: int| 0 <= i < j < sorted@.len() implies sorted@[i] != sorted@[j] by {
                                assert(sorted@[i].spec_index() < sorted@[j].spec_index());
                            }
                        }
                        lemma_same_elements_same_len(sorted@, s1);
                    }
                    new_sparse_set_components = sorted;
                    table_id
                },
            };
            proof {
                let t2 = new_table_components@;
                let s2 = new_sparse_set_components@;
                assert(t2.no_duplicates()) by {
                    assert forall|i: int, j: int| 0 <= i < j < t2.len() implies t2[i] != t2[j] by {
                        if component_storage == StorageType::Table {
                            assert(t2[i].spec_index() < t2[j].spec_index());
                        }
                    }
                }
                assert(s2.no_duplicates()) by {
                    assert forall|i: int, j: int| 0 <= i < j < s2.len() implies s2[i] != s2[j] by {
                        if component_storage == StorageType::SparseSet {
                            assert(s2[i].spec_index() < s2[j].spec_index());
                        }
                    }
                }
                assert forall|i: int, j: int| 0 <= i < t2.len() && 0 <= j < s2.len() implies t2[i] != s2[j] by {
                    assert(t2.contains(t2[i]));
                    assert(s2.contains(s2[j]));
                    if t2[i] == s2[j] {
                        let x = t2[i];
                        if component_storage == StorageType::Table {
                            assert(s2 == sp);
                            assert(sp.contains(x));
                            if t.contains(x) {
                            } else {
                                assert(x == component_id);
                                let k = choose|k: int| 0 <= k < sp.len() && sp[k] == x;
                                assert((t + sp)[t.len() + k] == x);
                            }
                        } else {
                            assert(t2 == t);
                            assert(t.contains(x));
                            if sp.contains(x) {
                            } else {
                                assert(x == component_id);
                                let k = choose|k: int| 0 <= k < t.len() && t[k] == x;
                                assert((t + sp)[k] == x);
                            }
                        }
                    }
                }
                vstd::seq_lib::lemma_no_dup_in_concat(t2, s2);
                assert forall|i: int| 0 <= i < t2.len() implies components.spec_has(#[trigger] t2[i]) by {
                    assert(t2.contains(t2[i]));
                    if t2[i] != component_id {
                        let j = choose|j: int| 0 <= j < t.len() && t[j] == t2[i];
                        assert((t + sp)[j] == t[j]);
                    }
                }
                assert forall|i: int| 0 <= i < s2.len() implies components.spec_has(#[trigger] s2[i]) by {
                    assert(s2.contains(s2[i]));
                    if s2[i] != component_id {
                        let j = choose|j: int| 0 <= j < sp.len() && sp[j] == s2[i];
                        assert((t + sp)[t.len() + j] == sp[j]);
                    }
                }
            }
            let ghost t2 = new_table_components@;
            let ghost s2 = new_sparse_set_components@;
            let id = self.get_id_or_insert(
                components,
                new_table_id,
                new_table_components,
                new_sparse_set_components,
            );
            proof {
                lemma_added_comps(t, sp, component_id, component_storage, t2, s2);
                assert(self.spec_def_table(id.spec_index() as int) == t2);
                assert(self.spec_def_sparse(id.spec_index() as int) == s2);
                if stored_as_declared(*old(self), old(components).spec_infos()) {
                    lemma_stored_after_add(
                        *old(self),
                        *self,
                        old(components).spec_infos(),
                        a,
                        component_id,
                        component_storage,
                        t2,
                        s2,
                    );
                }
            }
            (id, true)
        };
        proof {
            assert(self.spec_comps(a) == old(self).spec_comps(a));
            assert(old(self).archetypes@[a].wf());
            assert((t + sp).to_set().contains(component_id) == (t + sp).contains(component_id));
            if has == false {
                assert(self.spec_comps(a).insert(component_id) =~= self.spec_comps(a));
            }
        }
        let ghost before = *self;
        proof {
            assert(has || new_archetype_id == archetype_id);
            assert(self.move_sound(
                archetype_id,
                new_archetype_id,
                ArchetypeEdgeContents::Component(component_id),
                ArchetypeEdgeAction::Insert(has),
            ));
        }
        if cache_edge {
            self.insert_edge(
                archetype_id,
                new_archetype_id,
                ArchetypeEdgeContents::Component(component_id),
                ArchetypeEdgeAction::Insert(has),
            );
        }
        proof {
            assert forall|k: int| 0 <= k < before.spec_archetypes().len() implies #[trigger] self.spec_def_table(k)
                == before.spec_def_table(k) && self.spec_def_sparse(k) == before.spec_def_sparse(k) by {
                if cache_edge {
                    assert(self.spec_def_table(k) == before.spec_def_table(k));
                }
            }
            assert(defs_kept(before, *self));
            if stored_as_declared(*old(self), old(components).spec_infos()) {
                lemma_stored_same_defs(before, *self, components.spec_infos());
            }
            assert forall|k: int| 0 <= k < old(self).spec_archetypes().len() implies #[trigger] self.spec_def_table(k)
                == old(self).spec_def_table(k) && self.spec_def_sparse(k) == old(self).spec_def_sparse(k) by {
                assert(before.spec_def_table(k) == old(self).spec_def_table(k));
                assert(self.spec_def_table(k) == before.spec_def_table(k));
            }
            assert(defs_kept(*old(self), *self));
        }
        (new_archetype_id, has)
    }
}

/// The components an archetype made of table components `t` and sparse-set
/// components `sp` has once `c`, stored as `storage`, is taken out: `t2` and
/// `sp2`, each in the order it had.
pub open spec fn removed_def(
    t: Seq<ComponentId>,
    sp: Seq<ComponentId>,
    c: ComponentId,
    storage: StorageType,
    t2: Seq<ComponentId>,
    sp2: Seq<ComponentId>,
) -> bool {
    match storage {
        StorageType::Table => sp2 == sp && exists|i: int| 0 <= i < t.len() && t[i] == c && t2 == t.remove(i),
        StorageType::SparseSet => t2 == t && exists|i: int|
            0 <= i < sp.len() && sp[i] == c && sp2 == sp.remove(i),
    }
}

/// Taking an entry out of a list without repeats leaves a list without
/// repeats, holding the other entries.
proof fn lemma_remove_no_dup(s: Seq<ComponentId>, i: int)
    requires
        s.no_duplicates(),
        0 <= i < s.len(),
    ensures
        s.remove(i).no_duplicates(),
        forall|x: ComponentId| s.remove(i).contains(x) <==> (s.contains(x) && x != s[i]),
{
    let r = s.remove(i);
    assert forall|a: int, b: int| 0 <= a < b < r.len() implies r[a] != r[b] by {
        let aa = if a < i { a } else { a + 1 };
        let bb = if b < i { b } else { b + 1 };
        assert(r[a] == s[aa]);
        assert(r[b] == s[bb]);
    }
    assert forall|x: ComponentId| r.contains(x) <==> (s.contains(x) && x != s[i]) by {
        if r.contains(x) {
            let a = choose|a: int| 0 <= a < r.len() && r[a] == x;
            let aa = if a < i { a } else { a + 1 };
            assert(s[aa] == x);
            assert(aa != i);
        }
        if s.contains(x) && x != s[i] {
            let a = choose|a: int| 0 <= a < s.len() && s[a] == x;
            if a < i {
                assert(r[a] == x);
            } else {
                assert(a != i);
                assert(r[a - 1] == x);
            }
        }
    }
}

/// Taking `c` out as `removed_def` describes takes `c` out of the set of ids.
proof fn lemma_removed_comps(
    t: Seq<ComponentId>,
    sp: Seq<ComponentId>,
    c: ComponentId,
    storage: StorageType,
    t2: Seq<ComponentId>,
    s2: Seq<ComponentId>,
)
    requires
        removed_def(t, sp, c, storage, t2, s2),
        (t + sp).no_duplicates(),
    ensures
        (t2 + s2).to_set() == (t + sp).to_set().remove(c),
        t2.len() + s2.len() + 1 == t.len() + sp.len(),
{
    lemma_split_no_dup(t, sp);
    lemma_concat_to_set(t, sp);
    lemma_concat_to_set(t2, s2);
    match storage {
        StorageType::Table => {
            let i = choose|i: int| 0 <= i < t.len() && t[i] == c && t2 == t.remove(i);
            lemma_remove_no_dup(t, i);
            assert(t2.to_set() =~= t.to_set().remove(c));
            assert(!sp.contains(c));
        },
        StorageType::SparseSet => {
            let i = choose|i: int| 0 <= i < sp.len() && sp[i] == c && s2 == sp.remove(i);
            lemma_remove_no_dup(sp, i);
            assert(s2.to_set() =~= sp.to_set().remove(c));
            assert(!t.contains(c));
        },
    }
    assert((t2 + s2).to_set() =~= (t + sp).to_set().remove(c));
}

/// Archetypes that gain at most the archetype `t2`, `s2` (a component taken
/// out of archetype `a`) keep their components stored as declared.
proof fn lemma_stored_after_remove(
    o: Archetypes,
    n: Archetypes,
    infos: Seq<ComponentInfo>,
    a: int,
    c: ComponentId,
    storage: StorageType,
    t2: Seq<ComponentId>,
    s2: Seq<ComponentId>,
)
    requires
        stored_as_declared(o, infos),
        0 <= a < o.spec_archetypes().len(),
        o.spec_archetypes().len() <= n.spec_archetypes().len() <= o.spec_archetypes().len() + 1,
        forall|k: int|
            0 <= k < o.spec_archetypes().len() ==> #[trigger] n.spec_def_table(k) == o.spec_def_table(k)
                && n.spec_def_sparse(k) == o.spec_def_sparse(k),
        n.spec_archetypes().len() == o.spec_archetypes().len() + 1 ==> n.spec_def_table(
            o.spec_archetypes().len() as int,
        ) == t2 && n.spec_def_sparse(o.spec_archetypes().len() as int) == s2,
        removed_def(o.spec_def_table(a), o.spec_def_sparse(a), c, storage, t2, s2),
    ensures
        stored_as_declared(n, infos),
{
    let t = o.spec_def_table(a);
    let sp = o.spec_def_sparse(a);
    assert forall|k: int, i: int| 0 <= k < n.spec_archetypes().len() && 0 <= i < n.spec_def_table(k).len() implies {
        let x = #[trigger] n.spec_def_table(k)[i];
        &&& x.spec_index() < infos.len()
        &&& infos[x.spec_index() as int].spec_storage_type() == StorageType::Table
    } by {
        if k < o.spec_archetypes().len() {
            assert(n.spec_def_table(k) == o.spec_def_table(k));
            assert(o.spec_def_table(k)[i] == n.spec_def_table(k)[i]);
        } else {
            if storage == StorageType::Table {
                let j = choose|j: int| 0 <= j < t.len() && t[j] == c && t2 == t.remove(j);
                let jj = if i < j { i } else { i + 1 };
                assert(t2[i] == t[jj]);
                assert(o.spec_def_table(a)[jj] == t2[i]);
            } else {
                assert(t2 == t);
                assert(o.spec_def_table(a)[i] == t2[i]);
            }
        }
    }
    assert forall|k: int, i: int| 0 <= k < n.spec_archetypes().len() && 0 <= i < n.spec_def_sparse(k).len() implies {
        let x = #[trigger] n.spec_def_sparse(k)[i];
        &&& x.spec_index() < infos.len()
        &&& infos[x.spec_index() as int].spec_storage_type() == StorageType::SparseSet
    } by {
        if k < o.spec_archetypes().len() {
            assert(n.spec_def_table(k) == o.spec_def_table(k));
            assert(o.spec_def_sparse(k)[i] == n.spec_def_sparse(k)[i]);
        } else {
            if storage == StorageType::SparseSet {
                let j = choose|j: int| 0 <= j < sp.len() && sp[j] == c && s2 == sp.remove(j);
                let jj = if i < j { i } else { i + 1 };
                assert(s2[i] == sp[jj]);
                assert(o.spec_def_sparse(a)[jj] == s2[i]);
            } else {
                assert(s2 == sp);
                assert(o.spec_def_sparse(a)[i] == s2[i]);
            }
        }
    }
}

impl Archetypes {
    /// The archetype reached by taking the component `component_id` out of
    /// archetype `archetype_id`, and whether the archetype had the component.
    /// A kept edge answers at once; otherwise the archetype without the
    /// component is found or made, with its table when the component is
    /// stored in tables, and the move is kept as an edge when `cache_edge` is
    /// set. The component must be held the way `components` says it is
    /// stored.
    #[verifier::spinoff_prover]
    #[verifier::rlimit(40)]
    pub fn remove_component_from_archetype(
        &mut self,
        component_id: ComponentId,
        archetype_id: ArchetypeId,
        components: &mut Components,
        tables: &mut Tables,
        cache_edge: bool,
    ) -> (r: (ArchetypeId, bool))
        requires
            old(self).wf(),
            old(components).wf(),
            old(tables).wf(),
            archetype_id.spec_index() < old(self).spec_archetypes().len(),
            old(components).spec_has(component_id),
            forall|i: int|
                0 <= i < old(self).spec_archetypes()[archetype_id.spec_index() as int].spec_component_ids().len()
                    ==> old(components).spec_has(
                    #[trigger] old(self).spec_archetypes()[archetype_id.spec_index() as int].spec_component_ids()[i],
                ),
            old(self).spec_archetypes()[archetype_id.spec_index() as int].spec_component_ids().contains(
                component_id,
            ) ==> match old(components).spec_infos()[component_id.spec_index() as int].spec_storage_type() {
                StorageType::Table => old(self).spec_def_table(archetype_id.spec_index() as int).contains(
                    component_id,
                ),
                StorageType::SparseSet => old(self).spec_def_sparse(
                    archetype_id.spec_index() as int,
                ).contains(component_id),
            },
            old(self).spec_archetype_component_count() + old(self).spec_archetypes()[archetype_id.spec_index() as int].spec_component_ids().len()
                <= usize::MAX,
            old(self).spec_archetypes().len() <= u32::MAX,
            old(self).spec_edges().len() < u32::MAX,
            old(tables).spec_tables().len() <= u32::MAX,
        ensures
            final(self).wf(),
            final(components).wf(),
            final(tables).wf(),
            final(components).spec_infos() == old(components).spec_infos(),
            r.0.spec_index() < final(self).spec_archetypes().len(),
            defs_kept(*old(self), *final(self)),
            ({
                let a = archetype_id.spec_index() as int;
                let o = *old(self);
                let cached = o.spec_archetypes()[a].spec_edges().spec_remove_edge(
                    component_id.spec_index(),
                );
                let storage = old(components).spec_infos()[component_id.spec_index() as int].spec_storage_type();
                &&& cached matches Some(eid) ==> {
                    let e = o.spec_edges()[eid.spec_index() as int];
                    &&& r.0 == e.spec_dst()
                    &&& e.spec_action() matches ArchetypeEdgeAction::Remove(has) && has == r.1
                    &&& *final(self) == *old(self)
                    &&& *final(components) == *old(components)
                    &&& *final(tables) == *old(tables)
                }
                &&& cached is None ==> {
                    &&& r.1 == o.spec_archetypes()[a].spec_component_ids().contains(component_id)
                    &&& !r.1 ==> r.0 == archetype_id
                    &&& r.1 ==> removed_def(
                        o.spec_def_table(a),
                        o.spec_def_sparse(a),
                        component_id,
                        storage,
                        final(self).spec_def_table(r.0.spec_index() as int),
                        final(self).spec_def_sparse(r.0.spec_index() as int),
                    )
                    &&& cache_edge ==> (final(self).spec_archetypes()[a].spec_edges().spec_remove_edge(
                        component_id.spec_index(),
                    ) matches Some(eid) && final(self).spec_edges()[eid.spec_index() as int].spec_dst() == r.0)
                }
            }),
            r.1 == old(self).spec_comps(archetype_id.spec_index() as int).contains(component_id),
            (r.0 == archetype_id) == !r.1,
            final(self).spec_comps(r.0.spec_index() as int) == old(self).spec_comps(
                archetype_id.spec_index() as int,
            ).remove(component_id),
            old(self).spec_archetypes().len() <= final(self).spec_archetypes().len()
                <= old(self).spec_archetypes().len() + 1,
            final(self).spec_edges().len() <= old(self).spec_edges().len() + 1,
            final(tables).spec_tables().len() <= old(tables).spec_tables().len() + 1,
            final(self).spec_archetype_component_count() <= old(self).spec_archetype_component_count()
                + old(self).spec_archetypes()[archetype_id.spec_index() as int].spec_component_ids().len(),
            stored_as_declared(*old(self), old(components).spec_infos()) ==> stored_as_declared(
                *final(self),
                final(components).spec_infos(),
            ),
    {
        let ghost a = archetype_id.spec_index() as int;
        // check the kept edges
        match self.get_edge_for_remove(archetype_id, component_id) {
            Some(edge) => {
                let new_archetype_id = edge.dst;
                let has = match edge.action {
                    ArchetypeEdgeAction::Remove(has) => has,
                    _ => {
                        proof {
                            assert(false);
                        }
                        false
                    },
                };
                proof {
                    let eid = self.archetypes@[a].spec_edges().spec_remove_edge(component_id.spec_index())->0;
                    let e = self.edges@[eid.spec_index() as int];
                    assert(self.move_sound(e.src, e.dst, e.contents, e.action));
                    if let ArchetypeEdgeContents::Component(cc) = e.contents {
                        ComponentId::lemma_index_injective(cc, component_id);
                    }
                    ArchetypeId::lemma_index_injective(e.src, archetype_id);
                }
                return (new_archetype_id, has);
            },
            None => {},
        }
        let component_storage = match components.get_info(component_id) {
            Some(info) => info.storage_type(),
            None => {
                proof {
                    assert(false);
                }
                StorageType::Table
            },
        };
        proof {
            assert(self.archetypes@[a].wf());
            lemma_split_no_dup(self.spec_def_table(a), self.spec_def_sparse(a));
        }
        let ghost t = self.spec_def_table(a);
        let ghost sp = self.spec_def_sparse(a);
        let contains = self.archetypes[archetype_id.index()].contains(component_id);
        let (new_archetype_id, has) = if contains {
            let mut new_table_components = self.archetypes[archetype_id.index()].table_components();
            let mut new_sparse_set_components = self.archetypes[archetype_id.index()].sparse_set_components();
            let table_id = self.archetypes[archetype_id.index()].table_id();
            proof {
                assert forall|x: ComponentId| (t + sp).contains(x) implies components.spec_has(x) by {
                    let i = choose|i: int| 0 <= i < (t + sp).len() && (t + sp)[i] == x;
                    assert(self.archetypes@[a].spec_component_ids()[i] == x);
                }
            }
            let new_table_id = match component_storage {
                StorageType::Table => {
                    let index = match find_component(&new_table_components, component_id) {
                        Some(i) => i,
                        None => {
                            proof {
                                assert(false);
                            }
                            0
                        },
                    };
                    new_table_components.remove(index);
                    proof {
                        lemma_remove_no_dup(t, index as int);
                        assert forall|i: int| 0 <= i < new_table_components@.len() implies components.spec_has(#[trigger] new_table_components@[i]) by {
                            assert(new_table_components@.contains(new_table_components@[i]));
                            let j = choose|j: int| 0 <= j < t.len() && t[j] == new_table_components@[i];
                            assert((t + sp)[j] == t[j]);
                        }
                    }
                    tables.get_id_or_insert(new_table_components.as_slice(), components)
                },
                StorageType::SparseSet => {
                    let index = match find_component(&new_sparse_set_components, component_id) {
                        Some(i) => i,
                        None => {
                            proof {
                                assert(false);
                            }
                            0
                        },
                    };
                    new_sparse_set_components.remove(index);
                    proof {
                        lemma_remove_no_dup(sp, index as int);
                    }
                    table_id
                },
            };
            proof {
                let t2 = new_table_components@;
                let s2 = new_sparse_set_components@;
                if component_storage == StorageType::Table {
                    assert(s2 == sp);
                } else {
                    assert(t2 == t);
                }
                assert(t2.no_duplicates());
                assert(s2.no_duplicates());
                assert forall|i: int, j: int| 0 <= i < t2.len() && 0 <= j < s2.len() implies t2[i] != s2[j] by {
                    assert(t2.contains(t2[i]));
                    assert(s2.contains(s2[j]));
                }
                vstd::seq_lib::lemma_no_dup_in_concat(t2, s2);
                assert forall|i: int| 0 <= i < t2.len() implies components.spec_has(#[trigger] t2[i]) by {
                    assert(t2.contains(t2[i]));
                    let j = choose|j: int| 0 <= j < t.len() && t[j] == t2[i];
                    assert((t + sp)[j] == t[j]);
                }
                assert forall|i: int| 0 <= i < s2.len() implies components.spec_has(#[trigger] s2[i]) by {
                    assert(s2.contains(s2[i]));
                    let j = choose|j: int| 0 <= j < sp.len() && sp[j] == s2[i];
                    assert((t + sp)[t.len() + j] == sp[j]);
                }
            }
            let ghost t2 = new_table_components@;
            let ghost s2 = new_sparse_set_components@;
            let id = self.get_id_or_insert(
                components,
                new_table_id,
                new_table_components,
                new_sparse_set_components,
            );
            proof {
                assert(removed_def(t, sp, component_id, component_storage, t2, s2));
                lemma_removed_comps(t, sp, component_id, component_storage, t2, s2);
                assert(self.spec_def_table(id.spec_index() as int) == t2);
                assert(self.spec_def_sparse(id.spec_index() as int) == s2);
                if stored_as_declared(*old(self), old(components).spec_infos()) {
                    lemma_stored_after_remove(
                        *old(self),
                        *self,
                        old(components).spec_infos(),
                        a,
                        component_id,
                        component_storage,
                        t2,
                        s2,
                    );
                }
            }
            (id, true)
        } else {
            (archetype_id, false)
        };
        proof {
            assert(self.spec_comps(a) == old(self).spec_comps(a));
            assert(old(self).archetypes@[a].wf());
            assert((t + sp).to_set().contains(component_id) == (t + sp).contains(component_id));
            if has == false {
                assert(self.spec_comps(a).remove(component_id) =~= self.spec_comps(a));
            }
        }
        let ghost before = *self;
        proof {
            assert(has || new_archetype_id == archetype_id);
            assert(self.move_sound(
                archetype_id,
                new_archetype_id,
                ArchetypeEdgeContents::Component(component_id),
                ArchetypeEdgeAction::Remove(has),
            ));
        }
        if cache_edge {
            self.insert_edge(
                archetype_id,
                new_archetype_id,
                ArchetypeEdgeContents::Component(component_id),
                ArchetypeEdgeAction::Remove(has),
            );
        }
        proof {
            assert forall|k: int| 0 <= k < before.spec_archetypes().len() implies #[trigger] self.spec_def_table(k)
                == before.spec_def_table(k) && self.spec_def_sparse(k) == before.spec_def_sparse(k) by {
                if cache_edge {
                    assert(self.spec_def_table(k) == before.spec_def_table(k));
                }
            }
            assert(defs_kept(before, *self));
            if stored_as_declared(*old(self), old(components).spec_infos()) {
                lemma_stored_same_defs(before, *self, components.spec_infos());
            }
            assert forall|k: int| 0 <= k < old(self).spec_archetypes().len() implies #[trigger] self.spec_def_table(k)
                == old(self).spec_def_table(k) && self.spec_def_sparse(k) == old(self).spec_def_sparse(k) by {
                assert(before.spec_def_table(k) == old(self).spec_def_table(k));
                assert(self.spec_def_table(k) == before.spec_def_table(k));
            }
            assert(defs_kept(*old(self), *self));
        }
        (new_archetype_id, has)
    }
}

/// Every archetype of `o` is made of the same components in `n`.
pub open spec fn defs_kept(o: Archetypes, n: Archetypes) -> bool {
    forall|k: int|
        0 <= k < o.spec_archetypes().len() ==> #[trigger] n.spec_def_table(k) == o.spec_def_table(k)
            && n.spec_def_sparse(k) == o.spec_def_sparse(k)
}

/// Every edge that well-formed archetypes keep records what its move does:
/// following it leads to the archetype that adding or removing its component
/// or bundle leads to, and it knows what the source had of it.
pub proof fn lemma_kept_edge_sound(x: Archetypes, j: int)
    requires
        x.wf(),
        0 <= j < x.spec_edges().len(),
    ensures
        ({
            let e = x.spec_edges()[j];
            x.move_sound(e.spec_src(), e.spec_dst(), *e.spec_contents(), *e.spec_action())
        }),
{
    let e = x.edges@[j];
    assert(x.move_sound(e.src, e.dst, e.contents, e.action));
}

/// The ids among the first `i + 1` entries of `s` are those among the first
/// `i` and `s[i]`.
proof fn lemma_take_step_to_set(s: Seq<ComponentId>, i: int)
    requires
        0 <= i < s.len(),
    ensures
        s.take(i + 1).to_set() == s.take(i).to_set().insert(s[i]),
{
    assert(s.take(i + 1) =~= s.take(i).push(s[i]));
    assert forall|x: ComponentId| s.take(i + 1).to_set().contains(x) <==> s.take(i).to_set().insert(s[i]).contains(x) by {
        if s.take(i + 1).contains(x) {
            let j = choose|j: int| 0 <= j < i + 1 && #[trigger] s.take(i + 1)[j] == x;
            if j < i {
                assert(s.take(i)[j] == x);
            }
        }
        if s.take(i).contains(x) {
            let j = choose|j: int| 0 <= j < i && #[trigger] s.take(i)[j] == x;
            assert(s.take(i + 1)[j] == x);
        }
        if x == s[i] {
            assert(s.take(i + 1)[i] == x);
        }
    }
    assert(s.take(i + 1).to_set() =~= s.take(i).to_set().insert(s[i]));
}

/// An entry of a list without repeats is not among the entries before it.
proof fn lemma_not_in_prefix(s: Seq<ComponentId>, i: int)
    requires
        s.no_duplicates(),
        0 <= i < s.len(),
    ensures
        !s.take(i).to_set().contains(s[i]),
{
    if s.take(i).contains(s[i]) {
        let j = choose|j: int| 0 <= j < i && #[trigger] s.take(i)[j] == s[i];
        assert(s[j] == s[i]);
    }
}

/// Every component id of an archetype is registered in `infos`.
pub proof fn lemma_archetype_ids_registered(x: Archetypes, infos: Seq<ComponentInfo>, k: int)
    requires
        x.wf(),
        stored_as_declared(x, infos),
        0 <= k < x.spec_archetypes().len(),
    ensures
        forall|i: int|
            0 <= i < x.spec_archetypes()[k].spec_component_ids().len() ==> (#[trigger] x.spec_archetypes()[k].spec_component_ids()[i]).spec_index()
                < infos.len(),
        x.spec_archetypes()[k].spec_component_ids().len() == x.spec_comps(k).len(),
        x.spec_comps(k).finite(),
{
    let t = x.spec_def_table(k);
    let sp = x.spec_def_sparse(k);
    assert(x.spec_archetypes()[k].wf());
    let ids = x.spec_archetypes()[k].spec_component_ids();
    assert(ids == t + sp);
    assert forall|i: int| 0 <= i < ids.len() implies (#[trigger] ids[i]).spec_index() < infos.len() by {
        if i < t.len() {
            assert(t[i] == ids[i]);
        } else {
            assert(sp[i - t.len()] == ids[i]);
        }
    }
    ids.unique_seq_to_set();
}

impl Archetypes {
    /// The edge kept for adding the bundle `bundle_id` to the archetype, if
    /// any. Edges that add a bundle are filed among those that remove, so
    /// this lookup never finds one.
    pub fn get_edge_for_insert_bundle(&self, archetype_id: ArchetypeId, bundle_id: BundleId) -> (r: Option<
        &ArchetypeEdge,
    >)
        requires
            self.wf(),
        ensures
            r is None,
    {
        if archetype_id.index() < self.archetypes.len() {
            proof {
                assert(self.archetypes@[archetype_id.spec_index() as int].wf());
            }
            match self.archetypes[archetype_id.index()].edges.get_edge_for_insert_bundle(bundle_id) {
                Some(edge_id) => {
                    proof {
                        assert(false);
                    }
                    return Some(&self.edges[edge_id.index()]);
                },
                None => {},
            }
        }
        None
    }

    /// The edge kept for removing the bundle `bundle_id` from the archetype
    /// (or, as they are filed together, for adding it), if any.
    pub fn get_edge_for_remove_bundle(&self, archetype_id: ArchetypeId, bundle_id: BundleId) -> (r: Option<
        &ArchetypeEdge,
    >)
        requires
            self.wf(),
        ensures
            r matches Some(e) ==> archetype_id.spec_index() < self.spec_archetypes().len() && (
            self.spec_archetypes()[archetype_id.spec_index() as int].spec_edges().spec_remove_bundle_edge(
                bundle_id.spec_index(),
            ) matches Some(eid) && *e == self.spec_edges()[eid.spec_index() as int]),
            r is None ==> archetype_id.spec_index() >= self.spec_archetypes().len()
                || self.spec_archetypes()[archetype_id.spec_index() as int].spec_edges().spec_remove_bundle_edge(
                bundle_id.spec_index(),
            ) is None,
    {
        if archetype_id.index() < self.archetypes.len() {
            proof {
                assert(self.archetypes@[archetype_id.spec_index() as int].wf());
            }
            match self.archetypes[archetype_id.index()].edges.get_edge_for_remove_bundle(bundle_id) {
                Some(edge_id) => {
                    return Some(&self.edges[edge_id.index()]);
                },
                None => {},
            }
        }
        None
    }

    /// The archetype reached by adding the components of `bundle`, one after
    /// the other, to archetype `archetype_id`: it holds the archetype's
    /// components and the bundle's. Each step goes as
    /// `insert_component_into_archetype` does; with `cache_edges` the steps
    /// are kept as edges, and so is the whole move, recording which of the
    /// bundle's components the archetype did not have yet.
    pub fn insert_bundle_into_archetype(
        &mut self,
        bundle: &BundleInfo,
        archetype_id: ArchetypeId,
        components: &mut Components,
        tables: &mut Tables,
        cache_edges: bool,
    ) -> (r: ArchetypeId)
        requires
            old(self).wf(),
            old(components).wf(),
            old(tables).wf(),
            archetype_id.spec_index() < old(self).spec_archetypes().len(),
            bundle.spec_components().no_duplicates(),
            forall|i: int|
                0 <= i < bundle.spec_components().len() ==> old(components).spec_has(
                    #[trigger] bundle.spec_components()[i],
                ),
            stored_as_declared(*old(self), old(components).spec_infos()),
            old(self).spec_archetype_component_count() + (bundle.spec_components().len() + 1) * (
            old(self).spec_archetypes()[archetype_id.spec_index() as int].spec_component_ids().len()
                + bundle.spec_components().len() + 1) <= usize::MAX,
            old(self).spec_archetypes().len() + bundle.spec_components().len() <= u32::MAX,
            old(self).spec_edges().len() + bundle.spec_components().len() + 1 < u32::MAX,
            old(tables).spec_tables().len() + bundle.spec_components().len() <= u32::MAX,
        ensures
            final(self).wf(),
            final(components).wf(),
            final(tables).wf(),
            final(components).spec_infos() == old(components).spec_infos(),
            r.spec_index() < final(self).spec_archetypes().len(),
            final(self).spec_comps(r.spec_index() as int) == old(self).spec_comps(
                archetype_id.spec_index() as int,
            ).union(bundle.spec_components().to_set()),
            defs_kept(*old(self), *final(self)),
            stored_as_declared(*final(self), final(components).spec_infos()),
            cache_edges ==> (final(self).spec_archetypes()[archetype_id.spec_index() as int].spec_edges().spec_remove_bundle_edge(
                bundle.spec_id().spec_index(),
            ) matches Some(eid) && final(self).spec_edges()[eid.spec_index() as int].spec_dst() == r
                && final(self).spec_edges()[eid.spec_index() as int].spec_action() is InsertBundle),
            old(self).spec_archetypes().len() <= final(self).spec_archetypes().len()
                <= old(self).spec_archetypes().len() + bundle.spec_components().len(),
            final(self).spec_edges().len() <= old(self).spec_edges().len() + bundle.spec_components().len() + 1,
            final(tables).spec_tables().len() <= old(tables).spec_tables().len() + bundle.spec_components().len(),
            final(self).spec_archetype_component_count() <= old(self).spec_archetype_component_count()
                + bundle.spec_components().len() * (
            old(self).spec_archetypes()[archetype_id.spec_index() as int].spec_component_ids().len()
                + bundle.spec_components().len() + 1),
    {
        let ghost a = archetype_id.spec_index() as int;
        let ghost ids = bundle.spec_components();
        let ghost base = old(self).spec_comps(a);
        let ghost l = old(self).spec_archetypes()[a].spec_component_ids().len();
        let ghost m = l + ids.len() + 1;
        // check the kept edges
        match self.get_edge_for_insert_bundle(archetype_id, bundle.id()) {
            Some(edge) => {
                proof {
                    assert(false);
                }
                return edge.dst;
            },
            None => {},
        }
        let n = bundle.components().len();
        let mut changed = bitset_with_capacity(n);
        let mut new_archetype_id = archetype_id;
        let mut i: usize = 0;
        proof {
            lemma_archetype_ids_registered(*self, components.spec_infos(), a);
            assert(ids.take(0).to_set() =~= Set::<ComponentId>::empty());
            assert(base.union(ids.take(0).to_set()) =~= base);
        }
        while i < n
            invariant
                n == ids.len(),
                ids == bundle.spec_components(),
                ids.no_duplicates(),
                i <= n,
                self.wf(),
                components.wf(),
                tables.wf(),
                components.spec_infos() == old(components).spec_infos(),
                forall|j: int| 0 <= j < ids.len() ==> components.spec_has(#[trigger] ids[j]),
                0 <= a < old(self).spec_archetypes().len(),
                base == old(self).spec_comps(a),
                base.len() == l,
                base.finite(),
                m == l + ids.len() + 1,
                new_archetype_id.spec_index() < self.spec_archetypes().len(),
                self.spec_comps(new_archetype_id.spec_index() as int) == base.union(ids.take(i as int).to_set()),
                forall|k: int|
                    0 <= k < old(self).spec_archetypes().len() ==> #[trigger] self.spec_def_table(k)
                        == old(self).spec_def_table(k) && self.spec_def_sparse(k)
                        == old(self).spec_def_sparse(k),
                stored_as_declared(*self, components.spec_infos()),
                old(self).spec_archetypes().len() <= self.spec_archetypes().len()
                    <= old(self).spec_archetypes().len() + i,
                self.spec_edges().len() <= old(self).spec_edges().len() + i,
                tables.spec_tables().len() <= old(tables).spec_tables().len() + i,
                self.spec_archetype_component_count() <= old(self).spec_archetype_component_count() + i * m,
                old(self).spec_archetype_component_count() + (n + 1) * m <= usize::MAX,
                old(self).spec_archetypes().len() + n <= u32::MAX,
                old(self).spec_edges().len() + n + 1 < u32::MAX,
                old(tables).spec_tables().len() + n <= u32::MAX,
                bitset_len(changed) == n,
                bitset_wf(changed),
                forall|j: int| 0 <= j < i ==> (bitset_ones(changed).contains(j as usize) <==> !base.contains(#[trigger] ids[j])),
            decreases n - i,
        {
            let component_id = bundle.components()[i];
            let ghost cur = new_archetype_id.spec_index() as int;
            proof {
                lemma_archetype_ids_registered(*self, components.spec_infos(), cur);
                lemma_take_step_to_set(ids, i as int);
                lemma_not_in_prefix(ids, i as int);
                ids.take(i as int).lemma_cardinality_of_set();
                vstd::set_lib::lemma_len_union(base, ids.take(i as int).to_set());
                vstd::arithmetic::mul::lemma_mul_is_distributive_add_other_way(m as int, i as int, 1);
                vstd::arithmetic::mul::lemma_mul_inequality(i + 1, n + 1, m as int);
            }
            let ghost pre = *self;
            let (next, has) = self.insert_component_into_archetype(
                component_id,
                new_archetype_id,
                components,
                tables,
                cache_edges,
            );
            proof {
                assert forall|k: int| 0 <= k < old(self).spec_archetypes().len() implies #[trigger] self.spec_def_table(k)
                    == old(self).spec_def_table(k) && self.spec_def_sparse(k) == old(self).spec_def_sparse(k) by {
                    assert(pre.spec_def_table(k) == old(self).spec_def_table(k));
                    assert(self.spec_def_table(k) == pre.spec_def_table(k));
                }
                assert(base.union(ids.take(i as int).to_set()).insert(component_id) =~= base.union(
                    ids.take(i + 1).to_set(),
                ));
            }
            new_archetype_id = next;
            bitset_set(&mut changed, i, has);
            i = i + 1;
        }
        proof {
            assert(ids.take(n as int) =~= ids);
        }
        let ghost looped = *self;
        if cache_edges {
            let copy = BundleInfo::new(slice_to_vec(bundle.components()), bundle.id());
            let ghost before = *self;
            self.insert_edge(
                archetype_id,
                new_archetype_id,
                ArchetypeEdgeContents::Bundle(copy),
                ArchetypeEdgeAction::InsertBundle(changed),
            );
            proof {
                assert forall|k: int| 0 <= k < before.spec_archetypes().len() implies #[trigger] self.spec_def_table(k)
                    == before.spec_def_table(k) && self.spec_def_sparse(k) == before.spec_def_sparse(k) by {
                    assert(self.spec_def_table(k) == before.spec_def_table(k));
                }
                assert(defs_kept(before, *self));
                lemma_stored_same_defs(before, *self, components.spec_infos());
                let key = bundle.spec_id().spec_index();
                assert(self.spec_archetypes()[a].spec_edges().spec_remove_bundle_edge(key) == Some(
                    self.spec_edges()[before.spec_edges().len() as int].spec_id(),
                ));
            }
        }
        proof {
            assert forall|k: int| 0 <= k < old(self).spec_archetypes().len() implies #[trigger] self.spec_def_table(k)
                == old(self).spec_def_table(k) && self.spec_def_sparse(k) == old(self).spec_def_sparse(k) by {
                assert(looped.spec_def_table(k) == old(self).spec_def_table(k));
                assert(self.spec_def_table(k) == looped.spec_def_table(k));
            }
            assert(defs_kept(*old(self), *self));
        }
        new_archetype_id
    }
}

/// The component ids of an archetype are its set of components, and each of
/// them, when its components are stored as declared, is in the list of its
/// storage kind.
pub proof fn lemma_stored_placement(x: Archetypes, infos: Seq<ComponentInfo>, k: int, c: ComponentId)
    requires
        x.wf(),
        stored_as_declared(x, infos),
        0 <= k < x.spec_archetypes().len(),
    ensures
        x.spec_archetypes()[k].spec_component_ids().contains(c) <==> x.spec_comps(k).contains(c),
        x.spec_comps(k).contains(c) ==> c.spec_index() < infos.len() && match infos[c.spec_index() as int].spec_storage_type() {
            StorageType::Table => x.spec_def_table(k).contains(c),
            StorageType::SparseSet => x.spec_def_sparse(k).contains(c),
        },
{
    let t = x.spec_def_table(k);
    let sp = x.spec_def_sparse(k);
    assert(x.spec_archetypes()[k].wf());
    let ids = x.spec_archetypes()[k].spec_component_ids();
    assert(ids == t + sp);
    if ids.contains(c) {
        let i = choose|i: int| 0 <= i < ids.len() && ids[i] == c;
        if i < t.len() {
            assert(t[i] == c);
        } else {
            assert(sp[i - t.len()] == c);
        }
    }
}

impl Archetypes {
    /// The archetype reached by taking the components of `bundle`, one after
    /// the other, out of archetype `archetype_id`, and whether the archetype
    /// had all of them. A kept edge for the bundle answers at once, and must
    /// be one that removes; otherwise each step goes as
    /// `remove_component_from_archetype` does, and with `cache_edges` the
    /// steps are kept as edges, and so is the whole move.
    pub fn remove_bundle_from_archetype(
        &mut self,
        bundle: &BundleInfo,
        archetype_id: ArchetypeId,
        components: &mut Components,
        tables: &mut Tables,
        cache_edges: bool,
    ) -> (r: (ArchetypeId, bool))
        requires
            old(self).wf(),
            old(components).wf(),
            old(tables).wf(),
            archetype_id.spec_index() < old(self).spec_archetypes().len(),
            bundle.spec_components().no_duplicates(),
            forall|i: int|
                0 <= i < bundle.spec_components().len() ==> old(components).spec_has(
                    #[trigger] bundle.spec_components()[i],
                ),
            stored_as_declared(*old(self), old(components).spec_infos()),
            old(self).spec_archetypes()[archetype_id.spec_index() as int].spec_edges().spec_remove_bundle_edge(
                bundle.spec_id().spec_index(),
            ) matches Some(eid) ==> old(self).spec_edges()[eid.spec_index() as int].spec_action() is RemoveBundle,
            old(self).spec_archetype_component_count() + (bundle.spec_components().len() + 1) * (
            old(self).spec_archetypes()[archetype_id.spec_index() as int].spec_component_ids().len()
                + bundle.spec_components().len() + 1) <= usize::MAX,
            old(self).spec_archetypes().len() + bundle.spec_components().len() <= u32::MAX,
            old(self).spec_edges().len() + bundle.spec_components().len() + 1 < u32::MAX,
            old(tables).spec_tables().len() + bundle.spec_components().len() <= u32::MAX,
        ensures
            final(self).wf(),
            final(components).wf(),
            final(tables).wf(),
            final(components).spec_infos() == old(components).spec_infos(),
            r.0.spec_index() < final(self).spec_archetypes().len(),
            defs_kept(*old(self), *final(self)),
            stored_as_declared(*final(self), final(components).spec_infos()),
            old(self).spec_archetypes().len() <= final(self).spec_archetypes().len()
                <= old(self).spec_archetypes().len() + bundle.spec_components().len(),
            final(self).spec_edges().len() <= old(self).spec_edges().len() + bundle.spec_components().len() + 1,
            final(tables).spec_tables().len() <= old(tables).spec_tables().len() + bundle.spec_components().len(),
            final(self).spec_archetype_component_count() <= old(self).spec_archetype_component_count()
                + bundle.spec_components().len() * (
            old(self).spec_archetypes()[archetype_id.spec_index() as int].spec_component_ids().len()
                + bundle.spec_components().len() + 1),
            ({
                let a = archetype_id.spec_index() as int;
                let base = old(self).spec_comps(a);
                let kept = old(self).spec_archetypes()[a].spec_edges().spec_remove_bundle_edge(
                    bundle.spec_id().spec_index(),
                );
                &&& kept matches Some(eid) ==> {
                    let e = old(self).spec_edges()[eid.spec_index() as int];
                    &&& r.0 == e.spec_dst()
                    &&& e.spec_action() matches ArchetypeEdgeAction::RemoveBundle(h) && h == r.1
                    &&& *final(self) == *old(self)
                    &&& *final(components) == *old(components)
                    &&& *final(tables) == *old(tables)
                    &&& e.spec_contents() matches ArchetypeEdgeContents::Bundle(kb) && {
                        &&& kb.spec_id() == bundle.spec_id()
                        &&& final(self).spec_comps(r.0.spec_index() as int) == base.difference(
                            kb.spec_components().to_set(),
                        )
                        &&& r.1 == kb.spec_components().to_set().subset_of(base)
                    }
                }
                &&& kept is None ==> {
                    &&& final(self).spec_comps(r.0.spec_index() as int) == base.difference(
                        bundle.spec_components().to_set(),
                    )
                    &&& r.1 == bundle.spec_components().to_set().subset_of(base)
                    &&& cache_edges ==> (final(self).spec_archetypes()[a].spec_edges().spec_remove_bundle_edge(
                        bundle.spec_id().spec_index(),
                    ) matches Some(eid) && final(self).spec_edges()[eid.spec_index() as int].spec_dst() == r.0
                        && final(self).spec_edges()[eid.spec_index() as int].spec_action() is RemoveBundle)
                }
            }),
    {
        let ghost a = archetype_id.spec_index() as int;
        let ghost ids = bundle.spec_components();
        let ghost base = old(self).spec_comps(a);
        let ghost l = old(self).spec_archetypes()[a].spec_component_ids().len();
        let ghost m = l + ids.len() + 1;
        // check the kept edges
        match self.get_edge_for_remove_bundle(archetype_id, bundle.id()) {
            Some(edge) => {
                let new_archetype_id = edge.dst;
                let has_all = match edge.action {
                    ArchetypeEdgeAction::RemoveBundle(has_all) => has_all,
                    _ => {
                        proof {
                            assert(false);
                        }
                        false
                    },
                };
                proof {
                    let eid = self.archetypes@[a].spec_edges().spec_remove_bundle_edge(bundle.spec_id().spec_index())->0;
                    let e = self.edges@[eid.spec_index() as int];
                    assert(self.move_sound(e.src, e.dst, e.contents, e.action));
                    if let ArchetypeEdgeContents::Bundle(kb) = e.contents {
                        BundleId::lemma_index_injective(kb.spec_id(), bundle.spec_id());
                    }
                }
                return (new_archetype_id, has_all);
            },
            None => {},
        }
        let n = bundle.components().len();
        let mut new_archetype_id = archetype_id;
        let mut has_all = true;
        let mut i: usize = 0;
        proof {
            lemma_archetype_ids_registered(*self, components.spec_infos(), a);
            assert(ids.take(0).to_set() =~= Set::<ComponentId>::empty());
            assert(base.difference(ids.take(0).to_set()) =~= base);
        }
        while i < n
            invariant
                n == ids.len(),
                ids == bundle.spec_components(),
                ids.no_duplicates(),
                i <= n,
                self.wf(),
                components.wf(),
                tables.wf(),
                components.spec_infos() == old(components).spec_infos(),
                forall|j: int| 0 <= j < ids.len() ==> components.spec_has(#[trigger] ids[j]),
                0 <= a < old(self).spec_archetypes().len(),
                base == old(self).spec_comps(a),
                base.len() == l,
                base.finite(),
                m == l + ids.len() + 1,
                new_archetype_id.spec_index() < self.spec_archetypes().len(),
                self.spec_comps(new_archetype_id.spec_index() as int) == base.difference(ids.take(i as int).to_set()),
                has_all == ids.take(i as int).to_set().subset_of(base),
                defs_kept(*old(self), *self),
                stored_as_declared(*self, components.spec_infos()),
                old(self).spec_archetypes().len() <= self.spec_archetypes().len()
                    <= old(self).spec_archetypes().len() + i,
                self.spec_edges().len() <= old(self).spec_edges().len() + i,
                tables.spec_tables().len() <= old(tables).spec_tables().len() + i,
                self.spec_archetype_component_count() <= old(self).spec_archetype_component_count() + i * m,
                old(self).spec_archetype_component_count() + (n + 1) * m <= usize::MAX,
                old(self).spec_archetypes().len() + n <= u32::MAX,
                old(self).spec_edges().len() + n + 1 < u32::MAX,
                old(tables).spec_tables().len() + n <= u32::MAX,
            decreases n - i,
        {
            let component_id = bundle.components()[i];
            let ghost cur = new_archetype_id.spec_index() as int;
            proof {
                lemma_archetype_ids_registered(*self, components.spec_infos(), cur);
                lemma_stored_placement(*self, components.spec_infos(), cur, component_id);
                lemma_take_step_to_set(ids, i as int);
                lemma_not_in_prefix(ids, i as int);
                vstd::set_lib::lemma_len_subset(self.spec_comps(cur), base);
                vstd::arithmetic::mul::lemma_mul_is_distributive_add_other_way(m as int, i as int, 1);
                vstd::arithmetic::mul::lemma_mul_inequality(i + 1, n + 1, m as int);
            }
            let ghost pre = *self;
            let (next, has) = self.remove_component_from_archetype(
                component_id,
                new_archetype_id,
                components,
                tables,
                cache_edges,
            );
            proof {
                assert forall|k: int| 0 <= k < old(self).spec_archetypes().len() implies #[trigger] self.spec_def_table(k)
                    == old(self).spec_def_table(k) && self.spec_def_sparse(k) == old(self).spec_def_sparse(k) by {
                    assert(pre.spec_def_table(k) == old(self).spec_def_table(k));
                    assert(self.spec_def_table(k) == pre.spec_def_table(k));
                }
                assert(base.difference(ids.take(i as int).to_set()).remove(component_id) =~= base.difference(
                    ids.take(i + 1).to_set(),
                ));
                assert(ids.take(i + 1).to_set().subset_of(base) == (ids.take(i as int).to_set().subset_of(base)
                    && base.contains(component_id)));
            }
            new_archetype_id = next;
            has_all = has_all && has;
            i = i + 1;
        }
        proof {
            assert(ids.take(n as int) =~= ids);
        }
        let ghost looped = *self;
        if cache_edges {
            let copy = BundleInfo::new(slice_to_vec(bundle.components()), bundle.id());
            let ghost before = *self;
            self.insert_edge(
                archetype_id,
                new_archetype_id,
                ArchetypeEdgeContents::Bundle(copy),
                ArchetypeEdgeAction::RemoveBundle(has_all),
            );
            proof {
                assert forall|k: int| 0 <= k < before.spec_archetypes().len() implies #[trigger] self.spec_def_table(k)
                    == before.spec_def_table(k) && self.spec_def_sparse(k) == before.spec_def_sparse(k) by {
                    assert(self.spec_def_table(k) == before.spec_def_table(k));
                }
                assert(defs_kept(before, *self));
                lemma_stored_same_defs(before, *self, components.spec_infos());
                let key = bundle.spec_id().spec_index();
                assert(self.spec_archetypes()[a].spec_edges().spec_remove_bundle_edge(key) == Some(
                    self.spec_edges()[before.spec_edges().len() as int].spec_id(),
                ));
            }
        }
        proof {
            assert forall|k: int| 0 <= k < old(self).spec_archetypes().len() implies #[trigger] self.spec_def_table(k)
                == old(self).spec_def_table(k) && self.spec_def_sparse(k) == old(self).spec_def_sparse(k) by {
                assert(looped.spec_def_table(k) == old(self).spec_def_table(k));
                assert(self.spec_def_table(k) == looped.spec_def_table(k));
            }
            assert(defs_kept(*old(self), *self));
        }
        (new_archetype_id, has_all)
    }
}

/// Taking `c` out of a strictly ascending list with `c` added gives back the
/// list.
proof fn lemma_sorted_remove_added(t: Seq<ComponentId>, t2: Seq<ComponentId>, c: ComponentId, i: int)
    requires
        strictly_sorted(t),
        !t.contains(c),
        sorted_with(t, t2, c),
        0 <= i < t2.len(),
        t2[i] == c,
    ensures
        t2.remove(i) == t,
{
    let t3 = t2.remove(i);
    assert(t2.no_duplicates()) by {
        assert forall|a: int, b: int| 0 <= a < b < t2.len() implies t2[a] != t2[b] by {
            assert(t2[a].spec_index() < t2[b].spec_index());
        }
    }
    lemma_remove_no_dup(t2, i);
    assert forall|a: int, b: int| 0 <= a < b < t3.len() implies t3[a].spec_index() < t3[b].spec_index() by {
        let aa = if a < i { a } else { a + 1 };
        let bb = if b < i { b } else { b + 1 };
        assert(t3[a] == t2[aa]);
        assert(t3[b] == t2[bb]);
    }
    assert forall|x: ComponentId| t3.contains(x) <==> t.contains(x) by {
        if t.contains(x) {
            assert(x != c);
        }
    }
    lemma_sorted_unique(t3, t);
}

/// Taking a component out of the archetype reached by adding it to an
/// archetype that lacked it leads back to that archetype, when the list of
/// the component's storage kind is sorted there.
pub proof fn lemma_remove_undoes_insert(
    x: Archetypes,
    a: int,
    b: int,
    d: int,
    c: ComponentId,
    storage: StorageType,
)
    requires
        x.wf(),
        0 <= a < x.spec_archetypes().len(),
        0 <= b < x.spec_archetypes().len(),
        0 <= d < x.spec_archetypes().len(),
        storage == StorageType::Table ==> strictly_sorted(x.spec_def_table(a)),
        storage == StorageType::SparseSet ==> strictly_sorted(x.spec_def_sparse(a)),
        !(x.spec_def_table(a) + x.spec_def_sparse(a)).contains(c),
        added_def(x.spec_def_table(a), x.spec_def_sparse(a), c, storage, x.spec_def_table(b), x.spec_def_sparse(b)),
        removed_def(x.spec_def_table(b), x.spec_def_sparse(b), c, storage, x.spec_def_table(d), x.spec_def_sparse(d)),
    ensures
        d == a,
{
    let t = x.spec_def_table(a);
    let sp = x.spec_def_sparse(a);
    if !t.contains(c) {
    } else {
        let i = choose|i: int| 0 <= i < t.len() && t[i] == c;
        assert((t + sp)[i] == c);
    }
    if !sp.contains(c) {
    } else {
        let i = choose|i: int| 0 <= i < sp.len() && sp[i] == c;
        assert((t + sp)[t.len() + i] == c);
    }
    match storage {
        StorageType::Table => {
            let i = choose|i: int|
                0 <= i < x.spec_def_table(b).len() && x.spec_def_table(b)[i] == c && x.spec_def_table(d)
                    == x.spec_def_table(b).remove(i);
            lemma_sorted_remove_added(t, x.spec_def_table(b), c, i);
        },
        StorageType::SparseSet => {
            let i = choose|i: int|
                0 <= i < x.spec_def_sparse(b).len() && x.spec_def_sparse(b)[i] == c && x.spec_def_sparse(d)
                    == x.spec_def_sparse(b).remove(i);
            lemma_sorted_remove_added(sp, x.spec_def_sparse(b), c, i);
        },
    }
    x.lemma_defs_distinct(a, d);
}

impl Archetypes {
    /// Two archetypes made of the same components are the same.
    pub proof fn lemma_defs_distinct(&self, a: int, d: int)
        requires
            self.wf(),
            0 <= a < self.spec_archetypes().len(),
            0 <= d < self.spec_archetypes().len(),
            self.spec_def_table(a) == self.spec_def_table(d),
            self.spec_def_sparse(a) == self.spec_def_sparse(d),
        ensures
            a == d,
    {
        if a < d {
            assert(!(self.spec_def_table(a) == self.spec_def_table(d) && self.spec_def_sparse(a)
                == self.spec_def_sparse(d)));
        } else if d < a {
            assert(!(self.spec_def_table(d) == self.spec_def_table(a) && self.spec_def_sparse(d)
                == self.spec_def_sparse(a)));
        }
    }
}

} // verus!
