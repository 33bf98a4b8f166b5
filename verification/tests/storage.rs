use std::alloc::Layout;

use bevy_ecs::archetype::{ArchetypeEdgeAction, ArchetypeId, Archetypes};
use bevy_ecs::bundle::{BundleId, BundleInfo, Bundles};
use bevy_ecs::archetype_maps::{OptimizedSparseMap, SparseMap, SparseVec};
use bevy_ecs::component::{ComponentId, Components, StorageType, Tick};
use bevy_ecs::entity::Entity;
use bevy_ecs::table::{TableBuilder, TableId, TableRow, Tables};
use bevy_ecs::type_def::{compute_table_diff, EdgeContent, TypeDef, TypeDefBuilder, TypeDiffBuilder};

#[test]
fn table() {
    let mut components = Components::new();
    let component_id = components.init_component_info(Layout::new::<TableRow>(), StorageType::Table);
    let columns = [component_id];
    let mut builder = TableBuilder::with_capacity(0, columns.len());
    builder.add_column(components.get_info(component_id).unwrap());
    let mut table = builder.build();
    let entities = (0..200).map(Entity::from_raw).collect::<Vec<_>>();
    for entity in &entities {
        let row = table.allocate(*entity);
        let value = row.index().to_le_bytes().to_vec();
        table
            .get_column_mut(component_id)
            .unwrap()
            .initialize(row, value, Tick::new(0));
    }

    assert_eq!(table.entity_capacity(), 256);
    assert_eq!(table.entity_count(), 200);
}

#[test]
fn table_rows_move_and_swap_remove() {
    let mut components = Components::new();
    let a = components.init_component_info(Layout::new::<u32>(), StorageType::Table);
    let b = components.init_component_info(Layout::new::<u64>(), StorageType::Table);
    let mut small = TableBuilder::with_capacity(4, 1);
    small.add_column(components.get_info(a).unwrap());
    let mut small = small.build();
    let mut big = TableBuilder::with_capacity(4, 2);
    big.add_column(components.get_info(a).unwrap());
    big.add_column(components.get_info(b).unwrap());
    let mut big = big.build();

    for i in 0..3u32 {
        let row = small.allocate(Entity::from_raw(i));
        small
            .get_column_mut(a)
            .unwrap()
            .initialize(row, vec![i as u8], Tick::new(i));
    }
    assert_eq!(small.entity_count(), 3);

    let moved = small.move_to_superset_unchecked(TableRow::new(0), &mut big);
    assert_eq!(moved.table_row, TableRow::new(0));
    assert_eq!(moved.swapped_entity, Some(Entity::from_raw(2)));
    assert_eq!(small.entity_count(), 2);
    assert_eq!(small.entities()[0], Entity::from_raw(2));
    assert_eq!(big.entities(), &[Entity::from_raw(0)]);
    let (data, _) = big.get_column(a).unwrap().get(TableRow::new(0)).unwrap();
    assert_eq!(data, &Some(vec![0u8]));

    let swapped = small.swap_remove_unchecked(TableRow::new(1));
    assert_eq!(swapped, None);
    assert_eq!(small.entities(), &[Entity::from_raw(2)]);
    assert!(small.has_column(a));
    assert!(!small.has_column(b));
}

#[test]
fn tables_find_or_make_a_table_once() {
    let mut components = Components::new();
    let a = components.init_component_info(Layout::new::<u32>(), StorageType::Table);
    let b = components.init_component_info(Layout::new::<u8>(), StorageType::Table);
    let mut tables = Tables::new();
    assert_eq!(tables.len(), 1);
    let first = tables.get_id_or_insert(&[a, b], &components);
    assert_eq!(first, TableId::new(1));
    let again = tables.get_id_or_insert(&[a, b], &components);
    assert_eq!(again, first);
    assert_eq!(tables.len(), 2);
    let other = tables.get_id_or_insert(&[b], &components);
    assert_eq!(other, TableId::new(2));
    assert_eq!(tables.get(first).unwrap().component_count(), 2);
    assert!(tables.get(TableId::new(7)).is_none());
    assert_eq!(TableId::empty().index(), 0);
}

#[test]
fn inserting_then_removing_a_component_returns_to_the_archetype() {
    let mut components = Components::new();
    let a = components.init_component_info(Layout::new::<u32>(), StorageType::Table);
    let s = components.init_component_info(Layout::new::<u32>(), StorageType::SparseSet);
    let mut tables = Tables::new();
    let mut archetypes = Archetypes::new(&mut components);
    assert_eq!(archetypes.len(), 1);

    let (with_a, added) = archetypes.insert_component_into_archetype(
        a,
        ArchetypeId::empty(),
        &mut components,
        &mut tables,
        true,
    );
    assert!(added);
    assert_eq!(with_a, ArchetypeId::new(1));
    assert_eq!(archetypes.len(), 2);
    assert!(archetypes.get(with_a).unwrap().contains(a));
    assert_eq!(archetypes.get(with_a).unwrap().get_storage_type(a), Some(StorageType::Table));

    // the edge is cached: the same answer, nothing new made
    let edges = archetypes.edge_count();
    let (again, added) = archetypes.insert_component_into_archetype(
        a,
        ArchetypeId::empty(),
        &mut components,
        &mut tables,
        true,
    );
    assert_eq!(again, with_a);
    assert!(added);
    assert_eq!(archetypes.edge_count(), edges);

    // inserting what is there already stays put
    let (same, added) =
        archetypes.insert_component_into_archetype(a, with_a, &mut components, &mut tables, false);
    assert_eq!(same, with_a);
    assert!(!added);

    let (with_both, _) =
        archetypes.insert_component_into_archetype(s, with_a, &mut components, &mut tables, true);
    assert_eq!(archetypes.get(with_both).unwrap().sparse_set_components(), vec![s]);
    assert_eq!(archetypes.get(with_both).unwrap().table_components(), vec![a]);

    let (back, had) =
        archetypes.remove_component_from_archetype(s, with_both, &mut components, &mut tables, true);
    assert!(had);
    assert_eq!(back, with_a);
    let (empty, had) =
        archetypes.remove_component_from_archetype(a, with_a, &mut components, &mut tables, false);
    assert!(had);
    assert_eq!(empty, ArchetypeId::empty());
    // removing what is not there stays put
    let (same, had) = archetypes.remove_component_from_archetype(
        a,
        ArchetypeId::empty(),
        &mut components,
        &mut tables,
        false,
    );
    assert!(!had);
    assert_eq!(same, ArchetypeId::empty());
}

#[test]
fn bundles_are_added_and_taken_out_component_by_component() {
    let mut components = Components::new();
    let a = components.init_component_info(Layout::new::<u32>(), StorageType::Table);
    let b = components.init_component_info(Layout::new::<u8>(), StorageType::Table);
    let s = components.init_component_info(Layout::new::<u16>(), StorageType::SparseSet);
    let mut tables = Tables::new();
    let mut archetypes = Archetypes::new(&mut components);
    let (with_a, _) = archetypes.insert_component_into_archetype(
        a,
        ArchetypeId::empty(),
        &mut components,
        &mut tables,
        true,
    );

    // the bundle names its components out of order; the archetype keeps them sorted
    let bundle = BundleInfo::new(vec![s, b, a], BundleId::new(0));
    let with_all =
        archetypes.insert_bundle_into_archetype(&bundle, with_a, &mut components, &mut tables, true);
    let archetype = archetypes.get(with_all).unwrap();
    assert_eq!(archetype.table_components(), vec![a, b]);
    assert_eq!(archetype.sparse_set_components(), vec![s]);

    // the whole move is kept, recording that `s` and `b` were added and `a` (third) was there already
    let edge = archetypes.get_edge_for_remove_bundle(with_a, BundleId::new(0)).unwrap();
    assert_eq!(edge.dst(), with_all);
    match edge.action() {
        ArchetypeEdgeAction::InsertBundle(added) => {
            assert!(added.contains(0));
            assert!(added.contains(1));
            assert!(!added.contains(2));
        }
        _ => panic!("expected the edge of an added bundle"),
    }
    // the lookup for adding a bundle never finds an edge
    assert!(archetypes.get_edge_for_insert_bundle(with_a, BundleId::new(0)).is_none());

    // taking the bundle out of the archetype that has all of it leaves nothing
    let (empty, had_all) =
        archetypes.remove_bundle_from_archetype(&bundle, with_all, &mut components, &mut tables, true);
    assert!(had_all);
    assert_eq!(empty, ArchetypeId::empty());
    // and the kept edge answers the second time
    let edges = archetypes.edge_count();
    let (again, had_all) =
        archetypes.remove_bundle_from_archetype(&bundle, with_all, &mut components, &mut tables, true);
    assert_eq!(again, empty);
    assert!(had_all);
    assert_eq!(archetypes.edge_count(), edges);

    // taking out of an archetype that lacks part of the bundle
    let other = BundleInfo::new(vec![b, s], BundleId::new(1));
    let (left, had_all) =
        archetypes.remove_bundle_from_archetype(&other, with_a, &mut components, &mut tables, false);
    assert!(!had_all);
    assert_eq!(left, with_a);
}

#[test]
fn bundles_are_registered_once_per_key() {
    let mut components = Components::new();
    let a = components.init_component_info(Layout::new::<u32>(), StorageType::Table);
    let s = components.init_component_info(Layout::new::<u8>(), StorageType::SparseSet);
    let mut bundles = Bundles::new();
    assert_eq!(bundles.get_id(7), None);

    let first = bundles.init_info(7, &components, vec![s, a]);
    assert_eq!(first, BundleId::new(0));
    assert_eq!(bundles.get_id(7), Some(first));
    assert_eq!(bundles.get(first).unwrap().components(), &[s, a]);
    assert_eq!(bundles.get(first).unwrap().id(), first);
    // a known type keeps its bundle, whatever components are offered
    assert_eq!(bundles.init_info(7, &components, vec![a]), first);
    assert!(bundles.get(BundleId::new(1)).is_none());

    let (dynamic, storage) = bundles.init_dynamic_info(&components, &[a, s]);
    assert_eq!(dynamic, BundleId::new(1));
    assert_eq!(storage, vec![StorageType::Table, StorageType::SparseSet]);
    let (again, storage_again) = bundles.init_dynamic_info(&components, &[a, s]);
    assert_eq!(again, dynamic);
    assert_eq!(storage_again, storage);
    // the same components in another order are another list
    let (reordered, _) = bundles.init_dynamic_info(&components, &[s, a]);
    assert_eq!(reordered, BundleId::new(2));

    let (single, kind) = bundles.init_component_info(&components, s);
    assert_eq!(single, BundleId::new(3));
    assert_eq!(kind, StorageType::SparseSet);
    assert_eq!(bundles.init_component_info(&components, s), (single, kind));
    assert_eq!(bundles.get(single).unwrap().components(), &[s]);
}

#[test]
fn archetype_ids_are_found_again() {
    let mut components = Components::new();
    let a = components.init_component_info(Layout::new::<u32>(), StorageType::Table);
    let mut tables = Tables::new();
    let table = tables.get_id_or_insert(&[a], &components);
    let mut archetypes = Archetypes::new(&mut components);
    let id = archetypes.get_id_or_insert(&mut components, table, vec![a], vec![]);
    assert_eq!(id, ArchetypeId::new(1));
    assert_eq!(archetypes.get_id_or_insert(&mut components, table, vec![a], vec![]), id);
    assert_eq!(archetypes.archetype_component_count(), 1);
    assert_eq!(archetypes.get(id).unwrap().table_id(), table);
    assert_eq!(archetypes.empty().id(), ArchetypeId::empty());
}

#[test]
fn archetype_entities_are_allocated_and_swap_removed() {
    let mut components = Components::new();
    let mut archetypes = Archetypes::new(&mut components);
    let archetype = archetypes.get_mut(ArchetypeId::empty()).unwrap();
    let first = archetype.allocate(Entity::from_raw(5), TableRow::new(0));
    let second = archetype.allocate(Entity::from_raw(6), TableRow::new(1));
    assert_eq!(first.archetype_row.index(), 0);
    assert_eq!(second.archetype_row.index(), 1);
    assert_eq!(archetype.len(), 2);
    let removed = archetype.swap_remove(first.archetype_row);
    assert_eq!(removed.swapped_entity, Some(Entity::from_raw(6)));
    assert_eq!(removed.table_row, TableRow::new(0));
    assert_eq!(archetype.len(), 1);
    assert_eq!(archetype.entity_table_row(first.archetype_row), TableRow::new(1));
    archetypes.clear_entities();
    assert!(archetypes.get(ArchetypeId::empty()).unwrap().is_empty());
}

#[test]
fn type_def_adds_and_removes_in_order() {
    let mut builder = TypeDefBuilder::with_capacity(3);
    let empty = builder.clone().build();
    assert_eq!(empty.ids(), &[]);
    builder = TypeDefBuilder::new();
    let _ = &mut builder;
    let t = TypeDef::empty();
    let t = t.new_with(ComponentId::new(3)).unwrap();
    let t = t.new_with(ComponentId::new(1)).unwrap();
    let t = t.new_with(ComponentId::new(2)).unwrap();
    assert_eq!(t.ids(), &[ComponentId::new(1), ComponentId::new(2), ComponentId::new(3)]);
    assert!(t.new_with(ComponentId::new(2)).is_none());
    let u = t.new_without(ComponentId::new(2)).unwrap();
    assert_eq!(u.ids(), &[ComponentId::new(1), ComponentId::new(3)]);
    assert!(u.new_without(ComponentId::new(2)).is_none());
    // adding then removing gives the type back
    assert_eq!(u.new_with(ComponentId::new(9)).unwrap().new_without(ComponentId::new(9)).unwrap(), u);
    assert_eq!(t.find_insert(ComponentId::new(2), 0), None);
    assert_eq!(u.find_insert(ComponentId::new(2), 0), Some(1));
    assert_eq!(t.find(ComponentId::new(3), 0), Some(2));
}

#[test]
fn type_diff_builder_sorts_and_dedups() {
    let mut builder = TypeDiffBuilder::with_capacity(2, 2);
    builder.added.push(ComponentId::new(5));
    builder.added.push(ComponentId::new(1));
    builder.added.push(ComponentId::new(5));
    builder.removed.push(ComponentId::new(2));
    let diff = builder.build();
    assert_eq!(diff.added, vec![ComponentId::new(1), ComponentId::new(5)]);
    assert_eq!(diff.removed, vec![ComponentId::new(2)]);
    assert!(TypeDiffBuilder::new().build().added.is_empty());
}

#[test]
fn table_diff_is_simple_for_one_change() {
    let c = |i: usize| ComponentId::new(i);
    match compute_table_diff(&[c(1), c(3)], &[c(1), c(2), c(3)], c(2)) {
        EdgeContent::Component(id) => assert_eq!(id, c(2)),
        EdgeContent::Diff(_) => panic!("expected a single component"),
    }
    match compute_table_diff(&[c(1), c(3)], &[c(2), c(3), c(4)], c(2)) {
        EdgeContent::Diff(d) => {
            assert_eq!(d.added, vec![c(2), c(4)]);
            assert_eq!(d.removed, vec![c(1)]);
        }
        EdgeContent::Component(_) => panic!("expected a full difference"),
    }
}

#[test]
fn sparse_vec_stores_by_index() {
    let mut v = SparseVec::<usize, u32>::with_capacity(4, 8);
    assert!(v.is_empty());
    assert_eq!(v.insert(9, 90), None);
    assert_eq!(v.insert(2, 20), None);
    assert_eq!(v.insert(9, 91), Some(90));
    assert_eq!(v.len(), 2);
    assert_eq!(v.get(9), Some(&91));
    assert!(v.contains(2));
    assert!(!v.contains(3));
    assert_eq!(v.remove(2), Some(20));
    assert_eq!(v.get(2), None);
    v.clear();
    // clearing empties the slots but keeps the entry counter
    assert_eq!(v.get(9), None);
    assert_eq!(v.len(), 1);
    let empty = SparseVec::<usize, u32>::new(4);
    assert!(empty.is_empty());
}

#[test]
fn sparse_map_keeps_insertion_order() {
    let mut m = SparseMap::<usize, &str>::with_capacity(4, 4);
    assert_eq!(m.insert(7, "seven"), None);
    assert_eq!(m.insert(1, "one"), None);
    assert_eq!(m.insert(7, "SEVEN"), Some("seven"));
    assert_eq!(m.keys(), vec![7, 1]);
    assert_eq!(m.values(), &["SEVEN", "one"]);
    assert_eq!(m.get(1), Some(&"one"));
    assert_eq!(m.get_dense(1), Some(&1));
    assert!(m.contains_key(7));
    assert!(!m.contains_key(2));
    assert_eq!(m.len(), 2);
    assert_eq!(m.iter(), vec![(7, &"SEVEN"), (1, &"one")]);
    *m.get_mut(1).unwrap() = "uno";
    assert_eq!(m.get(1), Some(&"uno"));
    assert!(m.get_mut(2).is_none());
    assert_eq!(m.keys(), vec![7, 1]);
    m.clear();
    assert!(m.is_empty());
}

#[test]
fn optimized_sparse_map_handles_low_and_high_keys() {
    let mut m = OptimizedSparseMap::<usize, u8>::new(0);
    assert_eq!(m.insert(3, 30), None);
    assert_eq!(m.insert(3, 31), Some(30));
    assert_eq!(m.get(3), Some(&31));
    *m.get_mut(3).unwrap() += 1;
    assert_eq!(m.get(3), Some(&32));
    assert!(m.get_mut(4).is_none());
    assert!(!m.contains_key(4));
    assert_eq!(m.len(), 1);
    assert_eq!(m.remove(3), Some(32));
    assert!(m.is_empty());
}
