//! Bundles: fixed sets of components that are inserted together.

use vstd::prelude::*;
use vstd::slice::slice_to_vec;

use crate::component::{assoc_get, assoc_keys_distinct, ComponentId, ComponentInfo, Components, StorageType};
use crate::index::SparseSetIndex;

verus! {

/// The identifier of a bundle type.
#[derive(Debug, Clone, Copy, Eq, PartialEq, Hash)]
pub struct BundleId(usize);

impl BundleId {
    pub closed spec fn spec_index(&self) -> usize {
        self.0
    }

    /// The bundle id of the given index.
    pub fn new(index: usize) -> (r: BundleId)
        ensures
            r.spec_index() == index,
            r.spec_sparse_set_index() == index,
    {
        BundleId(index)
    }

    /// The index of the bundle type.
    pub fn index(self) -> (r: usize)
        ensures
            r == self.spec_index(),
    {
        self.0
    }

    /// Bundle ids with the same index are the same.
    pub proof fn lemma_index_injective(a: BundleId, b: BundleId)
        requires
            a.spec_index() == b.spec_index(),
        ensures
            a == b,
    {
    }
}

impl SparseSetIndex for BundleId {
    closed spec fn spec_sparse_set_index(&self) -> usize {
        self.0
    }

    open spec fn spec_index_fits(value: usize) -> bool {
        true
    }

    fn sparse_set_index(&self) -> (r: usize) {
        self.index()
    }

    fn get_sparse_set_index(value: usize) -> (r: Self) {
        Self(value)
    }
}

/// A bundle's id and its components, in the order of the bundle type.
#[derive(Clone)]
pub struct BundleInfo {
    id: BundleId,
    component_ids: Vec<ComponentId>,
}

impl BundleInfo {
    pub closed spec fn spec_id(&self) -> BundleId {
        self.id
    }

    pub closed spec fn spec_components(&self) -> Seq<ComponentId> {
        self.component_ids@
    }

    /// The bundle with the given components, which must be distinct: a bundle
    /// type that names a component twice is refused.
    pub fn new(component_ids: Vec<ComponentId>, id: BundleId) -> (r: BundleInfo)
        requires
            component_ids@.no_duplicates(),
        ensures
            r.spec_id() == id,
            r.spec_components() == component_ids@,
    {
        BundleInfo { id, component_ids }
    }

    /// The bundle's id.
    pub fn id(&self) -> (r: BundleId)
        ensures
            r == self.spec_id(),
    {
        self.id
    }

    /// The bundle's components.
    pub fn components(&self) -> (r: &[ComponentId])
        ensures
            r@ == self.spec_components(),
    {
        self.component_ids.as_slice()
    }
}

/// The storage kinds of the components `ids`, as `infos` declares them.
pub open spec fn storage_types_of(ids: Seq<ComponentId>, infos: Seq<ComponentInfo>) -> Seq<StorageType> {
    Seq::new(ids.len(), |i: int| infos[ids[i].spec_index() as int].spec_storage_type())
}

/// The bundles known to a world: the info of each bundle by its id, the id
/// of each bundle type by the key of the type, and the id of each list of
/// components (and of each single component) brought in as a bundle of its
/// own, with the storage kinds of its components.
pub struct Bundles {
    bundle_infos: Vec<BundleInfo>,
    bundle_ids: Vec<(u64, BundleId)>,
    dynamic_bundle_ids: Vec<(Vec<ComponentId>, BundleId, Vec<StorageType>)>,
    dynamic_component_bundle_ids: Vec<(ComponentId, BundleId, StorageType)>,
}

impl Bundles {
    /// The bundle infos, by id.
    pub closed spec fn spec_infos(&self) -> Seq<BundleInfo> {
        self.bundle_infos@
    }

    /// The id given to the bundle type with key `key`, if any.
    pub closed spec fn spec_type_id(&self, key: u64) -> Option<BundleId> {
        assoc_get(self.bundle_ids@, key)
    }

    /// The lists of components brought in as bundles, with their ids and the
    /// storage kinds recorded for them.
    pub closed spec fn spec_dynamic(&self) -> Seq<(Seq<ComponentId>, BundleId, Seq<StorageType>)> {
        self.dynamic_bundle_ids@.map_values(
            |e: (Vec<ComponentId>, BundleId, Vec<StorageType>)| (e.0@, e.1, e.2@),
        )
    }

    /// The id and the recorded storage kinds of the list `ids` brought in as
    /// a bundle, if it was.
    pub open spec fn spec_dynamic_id(&self, ids: Seq<ComponentId>) -> Option<(BundleId, Seq<StorageType>)> {
        let d = self.spec_dynamic();
        if exists|i: int| 0 <= i < d.len() && (#[trigger] d[i]).0 == ids {
            let i = choose|i: int| 0 <= i < d.len() && (#[trigger] d[i]).0 == ids;
            Some((d[i].1, d[i].2))
        } else {
            None
        }
    }

    /// The single components brought in as bundles, with their ids and
    /// storage kinds.
    pub closed spec fn spec_component_entries(&self) -> Seq<(ComponentId, BundleId, StorageType)> {
        self.dynamic_component_bundle_ids@
    }

    /// The id and the recorded storage kind of the component `c` brought in
    /// as a bundle, if it was.
    pub open spec fn spec_component_id(&self, c: ComponentId) -> Option<(BundleId, StorageType)> {
        let d = self.spec_component_entries();
        if exists|i: int| 0 <= i < d.len() && (#[trigger] d[i]).0 == c {
            let i = choose|i: int| 0 <= i < d.len() && (#[trigger] d[i]).0 == c;
            Some((d[i].1, d[i].2))
        } else {
            None
        }
    }

    /// Each info sits at the index of its id and names no component twice;
    /// every key is given once, to a bundle that exists and, for lists of
    /// components, holds that list.
    pub closed spec fn wf(&self) -> bool {
        &&& forall|i: int|
            0 <= i < self.bundle_infos@.len() ==> {
                let b = #[trigger] self.bundle_infos@[i];
                &&& b.spec_id().spec_index() == i
                &&& b.spec_components().no_duplicates()
            }
        &&& assoc_keys_distinct(self.bundle_ids@)
        &&& forall|i: int|
            0 <= i < self.bundle_ids@.len() ==> (#[trigger] self.bundle_ids@[i]).1.spec_index()
                < self.bundle_infos@.len()
        &&& forall|i: int, j: int|
            0 <= i < j < self.dynamic_bundle_ids@.len() ==> (#[trigger] self.dynamic_bundle_ids@[i]).0@
                != (#[trigger] self.dynamic_bundle_ids@[j]).0@
        &&& forall|i: int|
            0 <= i < self.dynamic_bundle_ids@.len() ==> {
                let e = #[trigger] self.dynamic_bundle_ids@[i];
                &&& e.1.spec_index() < self.bundle_infos@.len()
                &&& self.bundle_infos@[e.1.spec_index() as int].spec_components() == e.0@
                &&& e.2@.len() == e.0@.len()
            }
        &&& forall|i: int, j: int|
            0 <= i < j < self.dynamic_component_bundle_ids@.len()
                ==> (#[trigger] self.dynamic_component_bundle_ids@[i]).0
                != (#[trigger] self.dynamic_component_bundle_ids@[j]).0
        &&& forall|i: int|
            0 <= i < self.dynamic_component_bundle_ids@.len() ==> {
                let e = #[trigger] self.dynamic_component_bundle_ids@[i];
                &&& e.1.spec_index() < self.bundle_infos@.len()
                &&& self.bundle_infos@[e.1.spec_index() as int].spec_components() == seq![e.0]
            }
    }

    /// The storage kinds recorded for lists of components and single
    /// components are those that `infos` declares.
    pub open spec fn storage_recorded(&self, infos: Seq<ComponentInfo>) -> bool {
        &&& forall|i: int|
            0 <= i < self.spec_dynamic().len() ==> {
                let e = #[trigger] self.spec_dynamic()[i];
                &&& forall|j: int| 0 <= j < e.0.len() ==> (#[trigger] e.0[j]).spec_index() < infos.len()
                &&& e.2 == storage_types_of(e.0, infos)
            }
        &&& forall|i: int|
            0 <= i < self.spec_component_entries().len() ==> {
                let e = #[trigger] self.spec_component_entries()[i];
                &&& e.0.spec_index() < infos.len()
                &&& e.2 == infos[e.0.spec_index() as int].spec_storage_type()
            }
    }

    /// No bundles.
    pub fn new() -> (r: Bundles)
        ensures
            r.wf(),
            r.spec_infos() == Seq::<BundleInfo>::empty(),
            forall|key: u64| #[trigger] r.spec_type_id(key) is None,
            r.spec_dynamic() == Seq::<(Seq<ComponentId>, BundleId, Seq<StorageType>)>::empty(),
            r.spec_component_entries() == Seq::<(ComponentId, BundleId, StorageType)>::empty(),
    {
        let r = Bundles {
            bundle_infos: Vec::new(),
            bundle_ids: Vec::new(),
            dynamic_bundle_ids: Vec::new(),
            dynamic_component_bundle_ids: Vec::new(),
        };
        proof {
            assert(r.spec_dynamic() =~= Seq::<(Seq<ComponentId>, BundleId, Seq<StorageType>)>::empty());
        }
        r
    }

    /// The info of the bundle `bundle_id`, if there is one.
    pub fn get(&self, bundle_id: BundleId) -> (r: Option<&BundleInfo>)
        ensures
            r is Some <==> bundle_id.spec_index() < self.spec_infos().len(),
            r matches Some(info) ==> *info == self.spec_infos()[bundle_id.spec_index() as int],
    {
        if bundle_id.index() < self.bundle_infos.len() {
            Some(&self.bundle_infos[bundle_id.index()])
        } else {
            None
        }
    }

    /// The id of the bundle type with key `type_key`, if it is known.
    pub fn get_id(&self, type_key: u64) -> (r: Option<BundleId>)
        requires
            self.wf(),
        ensures
            r == self.spec_type_id(type_key),
    {
        let mut i: usize = 0;
        while i < self.bundle_ids.len()
            invariant
                i <= self.bundle_ids@.len(),
                self.wf(),
                forall|j: int| 0 <= j < i ==> (#[trigger] self.bundle_ids@[j]).0 != type_key,
            decreases self.bundle_ids@.len() - i,
        {
            if self.bundle_ids[i].0 == type_key {
                proof {
                    crate::component::lemma_assoc_get_at(self.bundle_ids@, i as int);
                }
                return Some(self.bundle_ids[i].1);
            }
            i = i + 1;
        }
        None
    }
}

/// Records a new bundle of the components `component_ids` under the next id,
/// and gives that id with the storage kinds of the components.
fn initialize_dynamic_bundle(
    bundle_infos: &mut Vec<BundleInfo>,
    components: &Components,
    component_ids: Vec<ComponentId>,
) -> (r: (BundleId, Vec<StorageType>))
    requires
        component_ids@.no_duplicates(),
        forall|i: int| 0 <= i < component_ids@.len() ==> components.spec_has(#[trigger] component_ids@[i]),
        old(bundle_infos)@.len() < usize::MAX,
    ensures
        r.0.spec_index() == old(bundle_infos)@.len(),
        final(bundle_infos)@.len() == old(bundle_infos)@.len() + 1,
        final(bundle_infos)@.drop_last() == old(bundle_infos)@,
        final(bundle_infos)@.last().spec_id() == r.0,
        final(bundle_infos)@.last().spec_components() == component_ids@,
        r.1@ == storage_types_of(component_ids@, components.spec_infos()),
{
    let mut storage_types: Vec<StorageType> = Vec::with_capacity(component_ids.len());
    let mut i: usize = 0;
    while i < component_ids.len()
        invariant
            i <= component_ids@.len(),
            storage_types@.len() == i,
            forall|j: int| 0 <= j < component_ids@.len() ==> components.spec_has(#[trigger] component_ids@[j]),
            forall|j: int|
                0 <= j < i ==> #[trigger] storage_types@[j] == components.spec_infos()[component_ids@[j].spec_index() as int].spec_storage_type(),
        decreases component_ids@.len() - i,
    {
        let storage_type = match components.get_info(component_ids[i]) {
            Some(info) => info.storage_type(),
            None => {
                proof {
                    assert(components.spec_has(component_ids@[i as int]));
                }
                StorageType::Table
            },
        };
        storage_types.push(storage_type);
        i = i + 1;
    }
    let id = BundleId::new(bundle_infos.len());
    let ghost ids = component_ids@;
    bundle_infos.push(BundleInfo::new(component_ids, id));
    proof {
        assert(bundle_infos@.drop_last() =~= old(bundle_infos)@);
        assert(storage_types@ =~= storage_types_of(ids, components.spec_infos()));
    }
    (id, storage_types)
}

impl Bundles {
    /// The id of the bundle type with key `type_key`; when the type is new,
    /// its bundle, made of `component_ids` in the order of the type, is
    /// recorded under the next id. The components of a new bundle type must
    /// be registered and distinct: a bundle type that names a component twice
    /// is refused.
    pub fn init_info(&mut self, type_key: u64, components: &Components, component_ids: Vec<ComponentId>) -> (r:
        BundleId)
        requires
            old(self).wf(),
            old(self).spec_type_id(type_key) is None ==> {
                &&& component_ids@.no_duplicates()
                &&& forall|i: int|
                    0 <= i < component_ids@.len() ==> components.spec_has(#[trigger] component_ids@[i])
                &&& old(self).spec_infos().len() < usize::MAX
            },
        ensures
            final(self).wf(),
            old(self).spec_type_id(type_key) matches Some(id) ==> r == id && *final(self) == *old(self),
            old(self).spec_type_id(type_key) is None ==> {
                &&& r.spec_index() == old(self).spec_infos().len()
                &&& final(self).spec_infos().drop_last() == old(self).spec_infos()
                &&& final(self).spec_infos().len() == old(self).spec_infos().len() + 1
                &&& final(self).spec_infos().last().spec_components() == component_ids@
                &&& forall|k: u64| k != type_key ==> #[trigger] final(self).spec_type_id(k) == old(self).spec_type_id(k)
                &&& final(self).spec_dynamic() == old(self).spec_dynamic()
                &&& final(self).spec_component_entries() == old(self).spec_component_entries()
            },
            final(self).spec_type_id(type_key) == Some(r),
            r.spec_index() < final(self).spec_infos().len(),
            final(self).spec_infos()[r.spec_index() as int].spec_id() == r,
            forall|infos: Seq<ComponentInfo>| #[trigger] old(self).storage_recorded(infos) ==> final(self).storage_recorded(infos),
    {
        match self.get_id(type_key) {
            Some(id) => {
                proof {
                    let i = choose|i: int| 0 <= i < self.bundle_ids@.len() && (#[trigger] self.bundle_ids@[i]).0 == type_key;
                    assert(self.bundle_infos@[id.spec_index() as int].spec_id().spec_index() == id.spec_index());
                    BundleId::lemma_index_injective(self.bundle_infos@[id.spec_index() as int].spec_id(), id);
                }
                return id;
            },
            None => {},
        }
        let ghost ids = component_ids@;
        let id = BundleId::new(self.bundle_infos.len());
        self.bundle_infos.push(BundleInfo::new(component_ids, id));
        let ghost mid = self.bundle_ids@;
        self.bundle_ids.push((type_key, id));
        proof {
            let n = self.bundle_ids@;
            let m = mid.len() as int;
            assert forall|x: int, y: int| 0 <= x < y < n.len() implies (#[trigger] n[x]).0 != (#[trigger] n[y]).0 by {
                if y == m {
                    assert(n[x] == mid[x]);
                    if mid[x].0 == type_key {
                        assert(exists|i: int| 0 <= i < mid.len() && (#[trigger] mid[i]).0 == type_key);
                    }
                } else {
                    assert(n[x] == mid[x] && n[y] == mid[y]);
                }
            }
            crate::component::lemma_assoc_get_at(n, m);
            assert forall|k: u64| k != type_key implies #[trigger] assoc_get(n, k) == assoc_get(mid, k) by {
                if exists|i: int| 0 <= i < mid.len() && (#[trigger] mid[i]).0 == k {
                    let i = choose|i: int| 0 <= i < mid.len() && (#[trigger] mid[i]).0 == k;
                    crate::component::lemma_assoc_get_at(mid, i);
                    assert(n[i] == mid[i]);
                    crate::component::lemma_assoc_get_at(n, i);
                } else {
                    assert forall|i: int| 0 <= i < n.len() implies (#[trigger] n[i]).0 != k by {
                        if i < m {
                            assert(n[i] == mid[i]);
                        }
                    }
                }
            }
            assert(self.bundle_infos@.drop_last() =~= old(self).bundle_infos@);
            assert(self.spec_dynamic() =~= old(self).spec_dynamic());
            assert forall|i: int| 0 <= i < self.bundle_infos@.len() implies {
                let b = #[trigger] self.bundle_infos@[i];
                &&& b.spec_id().spec_index() == i
                &&& b.spec_components().no_duplicates()
            } by {
                if i < m {
                }
            }
            assert forall|i: int| 0 <= i < self.dynamic_bundle_ids@.len() implies {
                let e = #[trigger] self.dynamic_bundle_ids@[i];
                &&& e.1.spec_index() < self.bundle_infos@.len()
                &&& self.bundle_infos@[e.1.spec_index() as int].spec_components() == e.0@
                &&& e.2@.len() == e.0@.len()
            } by {
                let e = self.dynamic_bundle_ids@[i];
                assert(self.bundle_infos@[e.1.spec_index() as int] == old(self).bundle_infos@[e.1.spec_index() as int]);
            }
            assert forall|i: int| 0 <= i < self.dynamic_component_bundle_ids@.len() implies {
                let e = #[trigger] self.dynamic_component_bundle_ids@[i];
                &&& e.1.spec_index() < self.bundle_infos@.len()
                &&& self.bundle_infos@[e.1.spec_index() as int].spec_components() == seq![e.0]
            } by {
                let e = self.dynamic_component_bundle_ids@[i];
                assert(self.bundle_infos@[e.1.spec_index() as int] == old(self).bundle_infos@[e.1.spec_index() as int]);
            }
        }
        id
    }
}

impl Bundles {
    /// The bundle brought in for the list of components `component_ids`, and
    /// the storage kinds of its components; when the list is new, a bundle of
    /// it is recorded under the next id. The components of a new list must be
    /// registered and distinct.
    pub fn init_dynamic_info(&mut self, components: &Components, component_ids: &[ComponentId]) -> (r: (
        BundleId,
        Vec<StorageType>,
    ))
        requires
            old(self).wf(),
            old(self).spec_dynamic_id(component_ids@) is None ==> {
                &&& component_ids@.no_duplicates()
                &&& forall|i: int|
                    0 <= i < component_ids@.len() ==> components.spec_has(#[trigger] component_ids@[i])
                &&& old(self).spec_infos().len() < usize::MAX
            },
        ensures
            final(self).wf(),
            old(self).spec_dynamic_id(component_ids@) matches Some(found) ==> r.0 == found.0 && r.1@
                == found.1 && *final(self) == *old(self),
            old(self).spec_dynamic_id(component_ids@) is None ==> {
                &&& r.0.spec_index() == old(self).spec_infos().len()
                &&& final(self).spec_infos().drop_last() == old(self).spec_infos()
                &&& final(self).spec_infos().len() == old(self).spec_infos().len() + 1
                &&& r.1@ == storage_types_of(component_ids@, components.spec_infos())
                &&& final(self).spec_dynamic() == old(self).spec_dynamic().push((component_ids@, r.0, r.1@))
                &&& forall|k: u64| #[trigger] final(self).spec_type_id(k) == old(self).spec_type_id(k)
                &&& final(self).spec_component_entries() == old(self).spec_component_entries()
            },
            final(self).spec_dynamic_id(component_ids@) == Some((r.0, r.1@)),
            r.0.spec_index() < final(self).spec_infos().len(),
            final(self).spec_infos()[r.0.spec_index() as int].spec_id() == r.0,
            final(self).spec_infos()[r.0.spec_index() as int].spec_components() == component_ids@,
            old(self).storage_recorded(components.spec_infos()) ==> final(self).storage_recorded(
                components.spec_infos(),
            ),
    {
        let ghost d = self.spec_dynamic();
        let mut i: usize = 0;
        while i < self.dynamic_bundle_ids.len()
            invariant
                i <= self.dynamic_bundle_ids@.len(),
                self.wf(),
                *self == *old(self),
                d == self.spec_dynamic(),
                forall|j: int| 0 <= j < i ==> (#[trigger] d[j]).0 != component_ids@,
            decreases self.dynamic_bundle_ids@.len() - i,
        {
            if crate::table::same_ids(&self.dynamic_bundle_ids[i].0, component_ids) {
                let id = self.dynamic_bundle_ids[i].1;
                let storage_types = slice_to_vec(self.dynamic_bundle_ids[i].2.as_slice());
                proof {
                    assert(d[i as int].0 == component_ids@);
                    let c = choose|c: int| 0 <= c < d.len() && (#[trigger] d[c]).0 == component_ids@;
                    if c != i {
                        if c < i {
                        } else {
                            assert(self.dynamic_bundle_ids@[i as int].0@ != self.dynamic_bundle_ids@[c].0@);
                        }
                    }
                    let e = self.dynamic_bundle_ids@[i as int];
                    assert(self.bundle_infos@[e.1.spec_index() as int].spec_id().spec_index() == e.1.spec_index());
                    BundleId::lemma_index_injective(self.bundle_infos@[e.1.spec_index() as int].spec_id(), e.1);
                }
                return (id, storage_types);
            }
            proof {
                assert(d[i as int].0 == self.dynamic_bundle_ids@[i as int].0@);
            }
            i = i + 1;
        }
        let ids = slice_to_vec(component_ids);
        let (id, storage_types) = initialize_dynamic_bundle(&mut self.bundle_infos, components, ids);
        let recorded = slice_to_vec(storage_types.as_slice());
        let key = slice_to_vec(component_ids);
        let ghost mid = self.dynamic_bundle_ids@;
        self.dynamic_bundle_ids.push((key, id, recorded));
        proof {
            let n = self.dynamic_bundle_ids@;
            let m = mid.len() as int;
            assert(self.spec_dynamic() =~= d.push((component_ids@, id, storage_types@)));
            assert forall|x: int, y: int| 0 <= x < y < n.len() implies (#[trigger] n[x]).0@ != (#[trigger] n[y]).0@ by {
                assert(n[x] == mid[x]);
                if y == m {
                    assert(d[x].0 == mid[x].0@);
                } else {
                    assert(n[y] == mid[y]);
                }
            }
            assert forall|x: int| 0 <= x < n.len() implies {
                let e = #[trigger] n[x];
                &&& e.1.spec_index() < self.bundle_infos@.len()
                &&& self.bundle_infos@[e.1.spec_index() as int].spec_components() == e.0@
                &&& e.2@.len() == e.0@.len()
            } by {
                if x < m {
                    let e = mid[x];
                    assert(n[x] == mid[x]);
                    assert(self.bundle_infos@[e.1.spec_index() as int] == old(self).bundle_infos@[e.1.spec_index() as int]);
                }
            }
            assert forall|x: int| 0 <= x < self.bundle_infos@.len() implies {
                let b = #[trigger] self.bundle_infos@[x];
                &&& b.spec_id().spec_index() == x
                &&& b.spec_components().no_duplicates()
            } by {
                if x < old(self).bundle_infos@.len() {
                    assert(self.bundle_infos@[x] == old(self).bundle_infos@[x]);
                }
            }
            assert forall|x: int| 0 <= x < self.bundle_ids@.len() implies (#[trigger] self.bundle_ids@[x]).1.spec_index()
                < self.bundle_infos@.len() by {
            }
            assert forall|x: int| 0 <= x < self.dynamic_component_bundle_ids@.len() implies {
                let e = #[trigger] self.dynamic_component_bundle_ids@[x];
                &&& e.1.spec_index() < self.bundle_infos@.len()
                &&& self.bundle_infos@[e.1.spec_index() as int].spec_components() == seq![e.0]
            } by {
                let e = self.dynamic_component_bundle_ids@[x];
                assert(self.bundle_infos@[e.1.spec_index() as int] == old(self).bundle_infos@[e.1.spec_index() as int]);
            }
            let nd = self.spec_dynamic();
            assert(nd[m].0 == component_ids@);
            let c = choose|c: int| 0 <= c < nd.len() && (#[trigger] nd[c]).0 == component_ids@;
            if c != m {
                assert(nd[c] == d[c]);
            }
        }
        (id, storage_types)
    }
}

impl Bundles {
    /// The bundle brought in for the single component `component_id`, and
    /// the component's storage kind; when the component is new here, a bundle
    /// of it alone is recorded under the next id. A new component must be
    /// registered.
    pub fn init_component_info(&mut self, components: &Components, component_id: ComponentId) -> (r: (
        BundleId,
        StorageType,
    ))
        requires
            old(self).wf(),
            old(self).spec_component_id(component_id) is None ==> {
                &&& components.spec_has(component_id)
                &&& old(self).spec_infos().len() < usize::MAX
            },
        ensures
            final(self).wf(),
            old(self).spec_component_id(component_id) matches Some(found) ==> r == found && *final(self)
                == *old(self),
            old(self).spec_component_id(component_id) is None ==> {
                &&& r.0.spec_index() == old(self).spec_infos().len()
                &&& final(self).spec_infos().drop_last() == old(self).spec_infos()
                &&& final(self).spec_infos().len() == old(self).spec_infos().len() + 1
                &&& r.1 == components.spec_infos()[component_id.spec_index() as int].spec_storage_type()
                &&& final(self).spec_component_entries() == old(self).spec_component_entries().push(
                    (component_id, r.0, r.1),
                )
                &&& forall|k: u64| #[trigger] final(self).spec_type_id(k) == old(self).spec_type_id(k)
                &&& final(self).spec_dynamic() == old(self).spec_dynamic()
            },
            final(self).spec_component_id(component_id) == Some(r),
            r.0.spec_index() < final(self).spec_infos().len(),
            final(self).spec_infos()[r.0.spec_index() as int].spec_id() == r.0,
            final(self).spec_infos()[r.0.spec_index() as int].spec_components() == seq![component_id],
            old(self).storage_recorded(components.spec_infos()) ==> final(self).storage_recorded(
                components.spec_infos(),
            ),
    {
        let ghost d = self.spec_component_entries();
        let mut i: usize = 0;
        while i < self.dynamic_component_bundle_ids.len()
            invariant
                i <= self.dynamic_component_bundle_ids@.len(),
                self.wf(),
                *self == *old(self),
                d == self.spec_component_entries(),
                forall|j: int| 0 <= j < i ==> (#[trigger] d[j]).0 != component_id,
            decreases self.dynamic_component_bundle_ids@.len() - i,
        {
            let entry = self.dynamic_component_bundle_ids[i];
            if entry.0.index() == component_id.index() {
                proof {
                    ComponentId::lemma_index_injective(entry.0, component_id);
                    let c = choose|c: int| 0 <= c < d.len() && (#[trigger] d[c]).0 == component_id;
                    if c != i {
                        if c < i {
                        } else {
                            assert(d[i as int].0 != d[c].0);
                        }
                    }
                    assert(self.bundle_infos@[entry.1.spec_index() as int].spec_id().spec_index()
                        == entry.1.spec_index());
                    BundleId::lemma_index_injective(
                        self.bundle_infos@[entry.1.spec_index() as int].spec_id(),
                        entry.1,
                    );
                }
                return (entry.1, entry.2);
            }
            i = i + 1;
        }
        let (id, storage_types) = initialize_dynamic_bundle(
            &mut self.bundle_infos,
            components,
            vec![component_id],
        );
        let storage_type = storage_types[0];
        let ghost mid = self.dynamic_component_bundle_ids@;
        self.dynamic_component_bundle_ids.push((component_id, id, storage_type));
        proof {
            let n = self.dynamic_component_bundle_ids@;
            let m = mid.len() as int;
            assert forall|x: int, y: int| 0 <= x < y < n.len() implies (#[trigger] n[x]).0 != (#[trigger] n[y]).0 by {
                assert(n[x] == mid[x]);
                if y < m {
                    assert(n[y] == mid[y]);
                }
            }
            assert forall|x: int| 0 <= x < n.len() implies {
                let e = #[trigger] n[x];
                &&& e.1.spec_index() < self.bundle_infos@.len()
                &&& self.bundle_infos@[e.1.spec_index() as int].spec_components() == seq![e.0]
            } by {
                if x < m {
                    let e = mid[x];
                    assert(n[x] == mid[x]);
                    assert(self.bundle_infos@[e.1.spec_index() as int] == old(self).bundle_infos@[e.1.spec_index() as int]);
                } else {
                    assert(self.bundle_infos@[id.spec_index() as int] == self.bundle_infos@.last());
                }
            }
            assert forall|x: int| 0 <= x < self.bundle_infos@.len() implies {
                let b = #[trigger] self.bundle_infos@[x];
                &&& b.spec_id().spec_index() == x
                &&& b.spec_components().no_duplicates()
            } by {
                if x < old(self).bundle_infos@.len() {
                    assert(self.bundle_infos@[x] == old(self).bundle_infos@[x]);
                } else {
                    assert(seq![component_id].no_duplicates());
                }
            }
            assert forall|x: int| 0 <= x < self.dynamic_bundle_ids@.len() implies {
                let e = #[trigger] self.dynamic_bundle_ids@[x];
                &&& e.1.spec_index() < self.bundle_infos@.len()
                &&& self.bundle_infos@[e.1.spec_index() as int].spec_components() == e.0@
                &&& e.2@.len() == e.0@.len()
            } by {
                let e = self.dynamic_bundle_ids@[x];
                assert(self.bundle_infos@[e.1.spec_index() as int] == old(self).bundle_infos@[e.1.spec_index() as int]);
            }
            assert(self.spec_dynamic() =~= old(self).spec_dynamic());
            let nd = self.spec_component_entries();
            assert(nd[m].0 == component_id);
            let c = choose|i: int| 0 <= i < nd.len() && (#[trigger] nd[i]).0 == component_id;
            if c != m {
                assert(nd[c] == mid[c]);
                assert(d[c].0 != component_id);
            }
            assert(c == m);
        }
        (id, storage_type)
    }
}

/// What the bundles recorded of their components' storage kinds stays true
/// as more components are registered after them.
pub proof fn lemma_storage_recorded_extends(b: Bundles, infos: Seq<ComponentInfo>, more: Seq<ComponentInfo>)
    requires
        b.storage_recorded(infos),
        infos.is_prefix_of(more),
    ensures
        b.storage_recorded(more),
{
    assert forall|i: int| 0 <= i < b.spec_dynamic().len() implies {
        let e = #[trigger] b.spec_dynamic()[i];
        &&& forall|j: int| 0 <= j < e.0.len() ==> (#[trigger] e.0[j]).spec_index() < more.len()
        &&& e.2 == storage_types_of(e.0, more)
    } by {
        let e = b.spec_dynamic()[i];
        assert forall|j: int| 0 <= j < e.0.len() implies (#[trigger] e.0[j]).spec_index() < more.len() by {
            assert(e.0[j].spec_index() < infos.len());
        }
        assert forall|j: int| 0 <= j < e.0.len() implies #[trigger] storage_types_of(e.0, more)[j]
            == storage_types_of(e.0, infos)[j] by {
            assert(e.0[j].spec_index() < infos.len());
            assert(more[e.0[j].spec_index() as int] == infos[e.0[j].spec_index() as int]);
        }
        assert(storage_types_of(e.0, more) =~= storage_types_of(e.0, infos));
    }
    assert forall|i: int| 0 <= i < b.spec_component_entries().len() implies {
        let e = #[trigger] b.spec_component_entries()[i];
        &&& e.0.spec_index() < more.len()
        &&& e.2 == more[e.0.spec_index() as int].spec_storage_type()
    } by {
        let e = b.spec_component_entries()[i];
        assert(more[e.0.spec_index() as int] == infos[e.0.spec_index() as int]);
    }
}

} // verus!
