use bevy_ecs::access::Access;
use bevy_ecs::component::ComponentId;
use bevy_ecs::descriptor::{Order, RegId};
use bevy_ecs::groups::{new_set, new_system, scheduled_name, Chain, Group};
use bevy_ecs::registry::SystemRegistry;
use bevy_ecs::schedule::ScheduleBuildError;

const ROOT: u64 = 1;
const INNER: u64 = 2;
const FOO: u64 = 10;
const BAR: u64 = 11;
const BAZ: u64 = 12;

#[test]
fn scheduling_builders_record_sets_and_orderings() {
    let s = new_system().named(FOO).to(ROOT).to(ROOT).before(BAR).after(BAZ);
    assert_eq!(s.name, Some(FOO));
    assert_eq!(s.sets, vec![ROOT]);
    assert_eq!(s.edges, vec![(Order::Before, BAR), (Order::After, BAZ)]);
    assert_eq!(scheduled_name(&s), FOO);
    let set = new_set(ROOT);
    assert_eq!(set.name, Some(ROOT));
    assert!(set.sets.is_empty());
    assert!(new_system().name.is_none());
}

#[test]
fn group_configures_every_node() {
    let g = Group::new(vec![new_system().named(FOO), new_set(INNER)]).to(ROOT).before(BAZ);
    assert_eq!(g.0.len(), 2);
    for node in &g.0 {
        assert_eq!(node.sets, vec![ROOT]);
        assert_eq!(node.edges, vec![(Order::Before, BAZ)]);
    }
    let g = Group::new(vec![new_system().named(FOO)]).after(BAR);
    assert_eq!(g.0[0].edges, vec![(Order::After, BAR)]);
}

#[test]
fn chain_orders_nodes_one_after_another() {
    let c = Chain::new(vec![
        new_system().named(FOO),
        new_system().named(BAR),
        new_system().named(BAZ),
    ]);
    assert_eq!(c.0[0].edges, vec![(Order::Before, BAR)]);
    assert_eq!(c.0[1].edges, vec![(Order::Before, BAZ)]);
    assert!(c.0[2].edges.is_empty());
    let c = c.before(ROOT).after(INNER).to(ROOT);
    assert_eq!(c.0[2].edges, vec![(Order::Before, ROOT)]);
    assert_eq!(c.0[0].edges, vec![(Order::Before, BAR), (Order::After, INNER)]);
    assert_eq!(c.0[1].sets, vec![ROOT]);
}

#[test]
fn registry_hands_out_ids_in_order() {
    let mut reg = SystemRegistry::new();
    let root = reg.add_set(new_set(ROOT));
    let foo = reg.add_system(new_system().named(FOO).to(ROOT));
    assert_eq!(root, RegId::SystemSet(0));
    assert_eq!(foo, RegId::System(1));
    assert!(reg.contains(FOO));
    assert!(!reg.contains(BAR));
    assert_eq!(reg.id_of(ROOT), Some(root));
    let ids = reg.add_many(vec![
        (true, new_system().named(BAR).to(ROOT).after(FOO)),
        (false, new_set(INNER).to(ROOT)),
    ]);
    assert_eq!(ids, vec![RegId::System(2), RegId::SystemSet(3)]);
}

#[test]
fn initialize_builds_the_graphs_and_marks_sets() {
    let mut reg = SystemRegistry::new();
    let root = reg.add_set(new_set(ROOT));
    let inner = reg.add_set(new_set(INNER).to(ROOT));
    let foo = reg.add_system(new_system().named(FOO).to(INNER));
    let bar = reg.add_system(new_system().named(BAR).to(INNER).after(FOO));
    assert_eq!(reg.initialize(), Ok(()));
    assert_eq!(reg.hier_edges(), vec![(root, inner), (inner, foo), (inner, bar)]);
    assert_eq!(reg.set_edges(), &vec![(inner, (foo, bar))]);
    assert!(reg.is_modified(root));
    assert!(reg.is_modified(inner));
    assert!(!reg.is_modified(foo));
    assert_eq!(reg.refresh(INNER, &Vec::new()), Ok((inner, true)));
    assert_eq!(reg.refresh(FOO, &Vec::new()), Ok((foo, false)));
}

#[test]
fn initialize_reports_label_errors_and_cross_dependencies() {
    let mut reg = SystemRegistry::new();
    reg.add_system(new_system().named(FOO).to(BAZ));
    assert_eq!(reg.initialize(), Err(ScheduleBuildError::UnknownSetLabel));

    let mut reg = SystemRegistry::new();
    reg.add_set(new_set(ROOT));
    reg.add_set(new_set(INNER));
    reg.add_system(new_system().named(FOO).to(ROOT));
    reg.add_system(new_system().named(BAR).to(INNER).after(FOO));
    assert_eq!(reg.initialize(), Err(ScheduleBuildError::CrossDependency));
    assert!(reg.hier_edges().is_empty());
}

// Labels of the sets and systems in the registry scenarios below.
const ALL: u64 = 20;
const SET_A: u64 = 21;
const SET_B: u64 = 22;
const SET_C: u64 = 23;
const SET_X: u64 = 24;

#[test]
fn system() {
    let mut reg = SystemRegistry::new();
    reg.add_system(new_system().named(FOO));
    let result = reg.refresh(FOO, &Vec::new());
    assert!(result.is_ok());
}

#[test]
fn invalid_set_label() {
    let mut reg = SystemRegistry::new();
    reg.add_set(new_set(SET_X));
    reg.add_system(new_system().named(FOO));
    reg.add_system(new_system().named(BAR).to(FOO));
    let result = reg.refresh(SET_X, &Vec::new());
    assert!(matches!(result, Err(ScheduleBuildError::InvalidSetLabel)));
}

#[test]
fn mod_dependency_loop() {
    let mut reg = SystemRegistry::new();
    reg.add_system(new_system().named(FOO).after(FOO));
    let result = reg.refresh(FOO, &Vec::new());
    assert!(matches!(result, Err(ScheduleBuildError::DependencyLoop)));
}

#[test]
fn mod_dependency_cycle() {
    let mut reg = SystemRegistry::new();
    reg.add_set(new_set(ALL));
    reg.add_system(new_system().named(FOO).after(BAZ).to(ALL));
    reg.add_system(new_system().named(BAR).after(FOO).to(ALL));
    reg.add_system(new_system().named(BAZ).after(BAR).to(ALL));
    let result = reg.refresh(ALL, &Vec::new());
    assert!(matches!(result, Err(ScheduleBuildError::DependencyCycle)));
}

#[test]
fn cross_dependencies() {
    let mut reg = SystemRegistry::new();
    reg.add_set(new_set(ALL));
    reg.add_set(new_set(SET_A).to(ALL));
    reg.add_set(new_set(SET_B).to(ALL));
    reg.add_system(new_system().named(FOO).to(SET_A));
    reg.add_system(new_system().named(BAR).after(FOO).to(SET_B));
    let result = reg.refresh(ALL, &Vec::new());
    // Foo and Bar do not belong to the same set.
    assert!(matches!(result, Err(ScheduleBuildError::CrossDependency)));
}

#[test]
fn mod_hierarchy_loop() {
    let mut reg = SystemRegistry::new();
    reg.add_set(new_set(SET_X).to(SET_X));
    let result = reg.refresh(SET_X, &Vec::new());
    assert!(matches!(result, Err(ScheduleBuildError::HierarchyLoop)));
}

#[test]
fn hierarchy_invalid() {
    let mut reg = SystemRegistry::new();
    reg.add_set(new_set(SET_A));
    reg.add_set(new_set(SET_B).to(SET_A));
    reg.add_set(new_set(SET_C).to(SET_B).to(SET_A));
    let result = reg.refresh(SET_A, &Vec::new());
    // A cannot be parent and grandparent to C at same time.
    assert!(matches!(result, Err(ScheduleBuildError::InvalidHierarchy)));
}

#[test]
fn mod_hierarchy_cycle() {
    let mut reg = SystemRegistry::new();
    reg.add_set(new_set(SET_A).to(SET_C));
    reg.add_set(new_set(SET_B).to(SET_A));
    reg.add_set(new_set(SET_C).to(SET_B));
    let result = reg.refresh(SET_A, &Vec::new());
    assert!(matches!(result, Err(ScheduleBuildError::HierarchyCycle)));
}

#[test]
fn missing_ambiguity() {
    let mut reg = SystemRegistry::new();
    reg.add_set(new_set(ALL));
    reg.add_set(new_set(SET_A).to(ALL).before(SET_B));
    reg.add_set(new_set(SET_B).to(ALL));
    reg.add_system(new_system().named(FOO).to(SET_A).to(SET_B));
    let result = reg.refresh(ALL, &Vec::new());
    // How is A supposed to run before B if Foo is in both A and B?
    assert!(matches!(result, Err(ScheduleBuildError::MissingAmbiguity)));
}

#[test]
fn a_set_whose_checks_pass_is_rebuilt() {
    let mut reg = SystemRegistry::new();
    let all = reg.add_set(new_set(ALL));
    reg.add_set(new_set(SET_A).to(ALL));
    reg.add_set(new_set(SET_B).to(ALL));
    reg.add_system(new_system().named(FOO).to(SET_A).to(SET_B));
    // A and B are left unordered, so sharing Foo is allowed.
    let result = reg.refresh(ALL, &Vec::new());
    assert_eq!(result, Ok((all, true)));
}

#[test]
fn ambiguity() {
    let mut reg = SystemRegistry::new();
    reg.add_set(new_set(SET_X));
    let foo = reg.add_system(new_system().named(FOO).to(SET_X));
    let bar = reg.add_system(new_system().named(BAR).to(SET_X));
    // Foo reads component A, Bar writes it.
    let component_a = ComponentId::new(0);
    let mut foo_reader = Access::<ComponentId>::default();
    foo_reader.add_read(component_a);
    let mut bar_writer = Access::<ComponentId>::default();
    bar_writer.add_write(component_a);
    let result = reg.refresh(SET_X, &vec![(foo, foo_reader), (bar, bar_writer)]);
    assert!(matches!(result, Err(ScheduleBuildError::Ambiguity)));
}

#[test]
fn ordered_systems_with_conflicting_access_are_no_ambiguity() {
    let mut reg = SystemRegistry::new();
    let x = reg.add_set(new_set(SET_X));
    let foo = reg.add_system(new_system().named(FOO).to(SET_X));
    let bar = reg.add_system(new_system().named(BAR).to(SET_X).after(FOO));
    let component_a = ComponentId::new(0);
    let mut foo_reader = Access::<ComponentId>::default();
    foo_reader.add_read(component_a);
    let mut bar_writer = Access::<ComponentId>::default();
    bar_writer.add_write(component_a);
    let result = reg.refresh(SET_X, &vec![(foo, foo_reader), (bar, bar_writer)]);
    assert_eq!(result, Ok((x, true)));
}
