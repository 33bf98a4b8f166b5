use bevy_ecs::access::Access;
use bevy_ecs::component::ComponentId;
use bevy_ecs::descriptor::{sort_pair, Order, RegId};
use bevy_ecs::hierarchy::{
    flatten, intersecting_sets, intersection_pairs, node_accesses, redundant_edges, sub_hierarchy,
    unordered_pairs, walk_down, walk_up,
};
use bevy_ecs::registry::{add_to_graphs, check_scheduling, index_scheduling, IndexedScheduling, Scheduling};
use bevy_ecs::schedule::{
    check_ambiguous, check_conflicts, check_graph_cycles, check_hierarchy, combined_access,
    conflicting_pairs, cyclic_components, find_cycles, Cycle, ScheduleBuildError,
};

const S1: RegId = RegId::SystemSet(1);
const S2: RegId = RegId::SystemSet(2);
const S3: RegId = RegId::SystemSet(3);
const A: RegId = RegId::System(10);
const B: RegId = RegId::System(11);
const C: RegId = RegId::System(12);

#[test]
fn a_two_node_cycle_is_found_in_either_graph() {
    let edges = vec![(S1, S2), (S2, S1)];
    assert_eq!(
        find_cycles(&vec![], &edges, Cycle::Hierarchy),
        Err(ScheduleBuildError::HierarchyCycle)
    );
    assert_eq!(
        find_cycles(&vec![], &edges, Cycle::Dependency),
        Err(ScheduleBuildError::DependencyCycle)
    );
}

#[test]
fn an_acyclic_graph_has_no_cycle() {
    let edges = vec![(A, B), (B, C), (A, C)];
    assert_eq!(find_cycles(&vec![A], &edges, Cycle::Dependency), Ok(()));
    assert_eq!(find_cycles(&vec![], &vec![], Cycle::Hierarchy), Ok(()));
}

#[test]
fn cycle_check_compares_component_count_with_node_count() {
    let sccs = vec![vec![A], vec![B, C]];
    assert_eq!(check_graph_cycles(3, &sccs, Cycle::Dependency), Err(ScheduleBuildError::DependencyCycle));
    assert_eq!(check_graph_cycles(2, &sccs, Cycle::Hierarchy), Ok(()));
    assert_eq!(cyclic_components(&sccs), vec![vec![B, C]]);
    assert_eq!(cyclic_components(&vec![vec![A], vec![B]]), Vec::<Vec<RegId>>::new());
}

#[test]
fn redundant_hierarchy_edges_are_refused() {
    assert_eq!(check_hierarchy(&vec![]), Ok(()));
    assert_eq!(check_hierarchy(&vec![(S1, A)]), Err(ScheduleBuildError::InvalidHierarchy));
}

#[test]
fn intersecting_sets_must_be_left_unordered() {
    assert_eq!(sort_pair(S2, S1), (S1, S2));
    assert_eq!(sort_pair(A, S1), (A, S1));
    let intersecting = vec![(S1, S2)];
    assert_eq!(check_ambiguous(&intersecting, &vec![(S2, S1)]), Ok(()));
    assert_eq!(
        check_ambiguous(&intersecting, &vec![(S1, A), (A, S2)]),
        Err(ScheduleBuildError::MissingAmbiguity)
    );
    assert_eq!(check_ambiguous(&vec![], &vec![]), Ok(()));
}

fn access_writing(index: usize) -> Access<ComponentId> {
    let mut a = Access::<ComponentId>::default();
    a.add_write(ComponentId::new(index));
    a
}

fn access_reading(index: usize) -> Access<ComponentId> {
    let mut a = Access::<ComponentId>::default();
    a.add_read(ComponentId::new(index));
    a
}

#[test]
fn unordered_nodes_with_conflicting_access_are_reported() {
    let accesses = vec![(A, access_writing(0)), (B, access_reading(0)), (C, access_reading(1))];
    let pairs = conflicting_pairs(&vec![(A, B), (B, C)], &vec![], &accesses);
    assert_eq!(pairs.len(), 1);
    assert_eq!(pairs[0].0, A);
    assert_eq!(pairs[0].1, B);
    assert_eq!(pairs[0].2, vec![ComponentId::new(0)]);
    assert_eq!(
        check_conflicts(&vec![(A, B)], &vec![], &accesses),
        Err(ScheduleBuildError::Ambiguity)
    );
    assert_eq!(check_conflicts(&vec![(B, C)], &vec![], &accesses), Ok(()));
}

#[test]
fn sets_that_share_members_are_not_checked_for_conflicts() {
    let accesses = vec![(S1, access_writing(2)), (S2, access_writing(2))];
    assert_eq!(check_conflicts(&vec![(S2, S1)], &vec![(S1, S2)], &accesses), Ok(()));
    assert_eq!(
        check_conflicts(&vec![(S2, S1)], &vec![], &accesses),
        Err(ScheduleBuildError::Ambiguity)
    );
}

#[test]
fn combined_access_joins_a_node_and_its_conditions() {
    let parts = vec![access_reading(1), access_writing(3)];
    let combined = combined_access(&parts);
    assert!(combined.has_read(ComponentId::new(1)));
    assert!(combined.has_write(ComponentId::new(3)));
    assert!(!combined.has_write(ComponentId::new(1)));
    assert_eq!(combined.get_conflicts(&access_reading(3)), vec![ComponentId::new(3)]);
    let empty = combined_access(&vec![]);
    assert!(!empty.has_read(ComponentId::new(0)));
}

#[test]
fn walk_up_marks_every_set_above() {
    let hier = vec![(S1, A), (S2, S1), (S3, B)];
    assert_eq!(walk_up(&hier, A, &vec![]), vec![S1, S2]);
    assert_eq!(walk_up(&hier, S1, &vec![]), vec![S1, S2]);
    assert_eq!(walk_up(&hier, B, &vec![]), vec![S3]);
}

#[test]
fn walk_up_stops_at_a_set_already_marked() {
    let hier = vec![(S1, A), (S2, S1)];
    assert_eq!(walk_up(&hier, A, &vec![S1]), Vec::<RegId>::new());
    assert_eq!(walk_up(&hier, A, &vec![S2]), vec![S1]);
}

#[test]
fn sub_hierarchy_takes_the_edges_below_a_set() {
    let hier = vec![(S1, S2), (S2, A), (S3, B), (S1, C)];
    assert_eq!(sub_hierarchy(&hier, S1), vec![(S1, S2), (S2, A), (S1, C)]);
    assert_eq!(sub_hierarchy(&hier, S3), vec![(S3, B)]);
    assert_eq!(sub_hierarchy(&hier, S2), vec![(S2, A)]);
}

#[test]
fn sets_sharing_a_member_intersect() {
    let sub = vec![(S2, A), (S1, A), (S1, B)];
    let inter = intersecting_sets(&sub);
    assert_eq!(inter, vec![((S1, S2), A)]);
    assert_eq!(intersection_pairs(&inter), vec![(S1, S2)]);
    assert_eq!(intersecting_sets(&vec![(S1, A), (S2, B)]), vec![]);
}

#[test]
fn walk_down_reports_the_first_failed_check() {
    let hier = vec![(S1, S2), (S1, S3), (S2, A), (S3, A)];
    let (sub, unordered, result) = walk_down(&hier, S1, &vec![]);
    assert_eq!(sub.len(), 4);
    assert!(unordered.contains(&(S2, S3)) || unordered.contains(&(S3, S2)));
    assert!(!unordered.contains(&(S1, A)) && !unordered.contains(&(A, S1)));
    assert_eq!(result, Ok(()));
    // S2 runs before S3, so the two sets sharing A are ordered
    let (_, unordered, result) = walk_down(&hier, S1, &vec![(S2, S3)]);
    assert!(!unordered.contains(&(S2, S3)) && !unordered.contains(&(S3, S2)));
    assert_eq!(result, Err(ScheduleBuildError::MissingAmbiguity));
    // A is below S1 through S2, so an edge from S1 straight to A is redundant
    let redundant = vec![(S1, S2), (S1, S3), (S2, A), (S3, A), (S1, A)];
    let (_, _, result) = walk_down(&redundant, S1, &vec![]);
    assert_eq!(result, Err(ScheduleBuildError::InvalidHierarchy));
    let cyclic = vec![(S1, S2), (S2, S1)];
    let (_, _, result) = walk_down(&cyclic, S1, &vec![]);
    assert_eq!(result, Err(ScheduleBuildError::HierarchyCycle));
}

#[test]
fn redundant_edges_are_those_below_a_longer_path() {
    let hier = vec![(S1, S2), (S2, S3), (S1, S3), (S3, A)];
    assert_eq!(redundant_edges(&hier), vec![(S1, S3)]);
    assert_eq!(redundant_edges(&vec![(S1, S2), (S2, A)]), vec![]);
}

#[test]
fn unordered_pairs_leave_out_nodes_on_one_path() {
    let sub = vec![(S1, A), (S1, B), (S1, C)];
    let pairs = unordered_pairs(&sub, &vec![(S1, A), (S1, B), (S1, C), (A, B)]);
    assert!(pairs.contains(&(A, C)) || pairs.contains(&(C, A)));
    assert!(pairs.contains(&(B, C)) || pairs.contains(&(C, B)));
    assert!(!pairs.contains(&(A, B)) && !pairs.contains(&(B, A)));
    assert!(!pairs.contains(&(S1, A)) && !pairs.contains(&(A, S1)));
    assert_eq!(pairs.len(), 2);
}

#[test]
fn a_set_gets_the_accesses_of_the_systems_below_it() {
    let mut read = Access::<ComponentId>::default();
    read.add_read(ComponentId::new(1));
    let mut write = Access::<ComponentId>::default();
    write.add_write(ComponentId::new(2));
    let sub = vec![(S1, S2), (S2, A), (S1, B)];
    let acc = node_accesses(&sub, &vec![(A, read), (B, write)]);
    let of = |id: RegId| acc.iter().find(|entry| entry.0 == id).map(|entry| entry.1.clone()).unwrap();
    assert!(of(S1).has_read(ComponentId::new(1)));
    assert!(of(S1).has_write(ComponentId::new(2)));
    assert!(of(S2).has_read(ComponentId::new(1)));
    assert!(!of(S2).has_write(ComponentId::new(2)));
    assert!(!of(A).has_write(ComponentId::new(2)));
}

#[test]
fn flatten_replaces_sets_by_their_systems() {
    let nodes = vec![A, S1];
    let edges = vec![(A, S1)];
    let subsets = vec![(S1, vec![B, C], vec![(B, C)])];
    let (flat_nodes, flat_edges) = flatten(&nodes, &edges, &subsets);
    assert_eq!(flat_nodes, vec![A, B, C]);
    assert_eq!(flat_edges, vec![(B, C), (A, B), (A, C)]);
}

#[test]
fn flatten_orders_two_sets_member_by_member() {
    let nodes = vec![S1, S2];
    let edges = vec![(S1, S2)];
    let subsets = vec![(S1, vec![A], vec![]), (S2, vec![B, C], vec![])];
    let (flat_nodes, flat_edges) = flatten(&nodes, &edges, &subsets);
    assert_eq!(flat_edges, vec![(A, B), (A, C)]);
    assert_eq!(flat_nodes, vec![A, B, C]);
}

fn scheduling(name: u64, sets: Vec<u64>, edges: Vec<(Order, u64)>) -> Scheduling {
    Scheduling { name: Some(name), sets, edges }
}

#[test]
fn scheduling_labels_are_checked_in_order() {
    let ids = vec![(1, S1), (10, A), (11, B)];
    assert_eq!(check_scheduling(&vec![scheduling(10, vec![1], vec![(Order::Before, 11)])], &ids), Ok(()));
    assert_eq!(
        check_scheduling(&vec![scheduling(1, vec![1], vec![])], &ids),
        Err(ScheduleBuildError::HierarchyLoop)
    );
    assert_eq!(
        check_scheduling(&vec![scheduling(10, vec![7], vec![])], &ids),
        Err(ScheduleBuildError::UnknownSetLabel)
    );
    assert_eq!(
        check_scheduling(&vec![scheduling(10, vec![11], vec![])], &ids),
        Err(ScheduleBuildError::InvalidSetLabel)
    );
    assert_eq!(
        check_scheduling(&vec![scheduling(10, vec![], vec![(Order::After, 10)])], &ids),
        Err(ScheduleBuildError::DependencyLoop)
    );
    assert_eq!(
        check_scheduling(&vec![scheduling(10, vec![], vec![(Order::After, 99)])], &ids),
        Err(ScheduleBuildError::UnknownDependencyLabel)
    );
    assert_eq!(
        check_scheduling(&vec![scheduling(10, vec![7], vec![(Order::After, 10)])], &ids),
        Err(ScheduleBuildError::UnknownSetLabel)
    );
}

#[test]
fn indexed_nodes_are_added_to_the_graphs() {
    let ids = vec![(1, S1), (10, A), (11, B)];
    let nodes = vec![
        scheduling(10, vec![1], vec![(Order::Before, 11)]),
        scheduling(11, vec![1], vec![]),
        scheduling(1, vec![], vec![]),
    ];
    let indexed = index_scheduling(&nodes, &ids);
    assert_eq!(indexed[0].0, A);
    assert_eq!(indexed[0].1.sets, vec![S1]);
    assert_eq!(indexed[0].1.edges, vec![(Order::Before, B)]);
    let added = add_to_graphs(&indexed).ok().unwrap();
    assert_eq!(added.hier_edges, vec![(S1, A), (S1, B)]);
    assert_eq!(added.set_edges, vec![(S1, (A, B))]);
}

#[test]
fn ordering_nodes_without_a_common_set_is_refused() {
    let indexed = vec![
        (A, IndexedScheduling { sets: vec![S1], edges: vec![(Order::After, B)] }),
        (B, IndexedScheduling { sets: vec![S2], edges: vec![] }),
    ];
    assert!(matches!(add_to_graphs(&indexed), Err(ScheduleBuildError::CrossDependency)));
}
