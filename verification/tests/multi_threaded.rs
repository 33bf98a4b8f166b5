use bevy_ecs::access::Access;
use bevy_ecs::archetype::ArchetypeComponentId;
use bevy_ecs::multi_threaded::MultiThreadedRunner;
use fixedbitset::FixedBitSet;

/// System 0 comes before 1 and 2, and 1 before 2.
fn chain() -> MultiThreadedRunner {
    let deps = vec![(0, vec![1, 2]), (1, vec![2]), (2, vec![])];
    let mut runner = MultiThreadedRunner::new();
    runner.init(&deps, &vec![false, false, false], 1);
    runner.start();
    runner
}

#[test]
fn dependents_become_ready_as_their_dependencies_finish() {
    let mut runner = chain();
    assert_eq!(runner.next_ready(), Some(0));
    assert!(runner.system_can_run(0, &Access::<ArchetypeComponentId>::default()));
    runner.start_system(0);
    assert_eq!(runner.next_ready(), None);
    assert!(!runner.is_finished());
    runner.finish_system_and_signal_dependents(0);
    assert_eq!(runner.next_ready(), Some(1));
    runner.start_system(1);
    assert_eq!(runner.next_ready(), None);
    runner.finish_system_and_signal_dependents(1);
    assert_eq!(runner.next_ready(), Some(2));
    runner.start_system(2);
    runner.finish_system_and_signal_dependents(2);
    assert!(runner.is_finished());
    assert_eq!(runner.check_apply_buffers(true), vec![0, 1, 2]);
    assert_eq!(runner.check_apply_buffers(true), Vec::<usize>::new());
    runner.finish_pass();
}

#[test]
fn skipped_systems_signal_their_dependents() {
    let mut runner = chain();
    runner.skip_system_and_signal_dependents(0);
    assert_eq!(runner.next_ready(), Some(1));
    let mut below = FixedBitSet::with_capacity(3);
    below.insert(1);
    below.insert(2);
    runner.skip_set_systems(&below);
    assert_eq!(runner.next_ready(), None);
    assert!(runner.is_finished());
    // nothing ran, so no buffers wait
    assert_eq!(runner.check_apply_buffers(true), Vec::<usize>::new());
}

#[test]
fn sets_are_visited_once() {
    let mut runner = chain();
    assert!(runner.visit_set(0));
    assert!(!runner.visit_set(0));
}

#[test]
fn thread_bound_systems_do_not_run_together() {
    let deps = vec![(0, vec![]), (0, vec![])];
    let mut runner = MultiThreadedRunner::new();
    runner.init(&deps, &vec![true, true], 0);
    runner.start();
    let none = Access::<ArchetypeComponentId>::default();
    assert!(runner.system_can_run(0, &none));
    runner.start_system(0);
    assert!(!runner.system_can_run(1, &none));
    runner.finish_system_and_signal_dependents(0);
    assert!(runner.system_can_run(1, &none));
}

#[test]
fn conflicting_access_waits_for_the_running_system() {
    let deps = vec![(0, vec![]), (0, vec![])];
    let mut runner = MultiThreadedRunner::new();
    runner.init(&deps, &vec![false, false], 0);
    runner.start();
    runner.start_system(0);
    runner.rebuild_active_access();
    let mut writer = Access::<ArchetypeComponentId>::default();
    writer.add_write(ArchetypeComponentId::new(3));
    // the running system holds no access here, so a writer may start
    assert!(runner.system_can_run(1, &writer));
    assert_eq!(runner.next_ready(), Some(1));
}
