use bevy_ecs::scheduled::{ScheduledAction, ScheduledEvent, ScheduledRun};
use bevy_ecs::descriptor::RegId;
use bevy_ecs::runner::{RunnerAction, RunnerEvent, SimpleRunner, SingleThreadedRunner};
use bevy_ecs::set_executor::rebuild_set_executor;
use fixedbitset::FixedBitSet;

fn bits(len: usize, ones: &[usize]) -> FixedBitSet {
    let mut b = FixedBitSet::with_capacity(len);
    for &i in ones {
        b.insert(i);
    }
    b
}

fn ones(b: &FixedBitSet) -> Vec<usize> {
    b.ones().collect()
}

/// Two systems below one set.
fn one_set_two_systems() -> (Vec<FixedBitSet>, Vec<FixedBitSet>) {
    (vec![bits(1, &[0]), bits(1, &[0])], vec![bits(2, &[0, 1])])
}

#[test]
fn single_threaded_runner_asks_set_then_system_conditions() {
    let (system_sets, set_systems) = one_set_two_systems();
    let mut runner = SingleThreadedRunner::with(system_sets, set_systems);
    assert!(matches!(runner.run(), RunnerAction::EvaluateSetConditions(0)));
    assert!(matches!(
        runner.step(RunnerEvent::ConditionsMet(true)),
        RunnerAction::EvaluateSystemConditions(0)
    ));
    assert!(matches!(runner.step(RunnerEvent::ConditionsMet(true)), RunnerAction::RunSystem(0)));
    assert!(matches!(runner.step(RunnerEvent::SystemRan), RunnerAction::CheckApplyBuffers));
    // the set's conditions are not asked about again for the second system
    assert!(matches!(
        runner.step(RunnerEvent::ApplyBuffersRequested(false)),
        RunnerAction::EvaluateSystemConditions(1)
    ));
    // a system whose own conditions fail is skipped
    assert!(matches!(runner.step(RunnerEvent::ConditionsMet(false)), RunnerAction::CheckApplyBuffers));
    match runner.step(RunnerEvent::ApplyBuffersRequested(true)) {
        RunnerAction::ApplyBuffers(v) => assert_eq!(v, vec![0]),
        other => panic!("unexpected {:?}", other),
    }
    assert!(matches!(runner.step(RunnerEvent::BuffersApplied), RunnerAction::Finished));
}

#[test]
fn failed_set_conditions_skip_every_system_below() {
    let (system_sets, set_systems) = one_set_two_systems();
    let mut runner = SingleThreadedRunner::with(system_sets, set_systems);
    assert!(matches!(runner.run(), RunnerAction::EvaluateSetConditions(0)));
    assert!(matches!(runner.step(RunnerEvent::ConditionsMet(false)), RunnerAction::CheckApplyBuffers));
    assert!(matches!(runner.step(RunnerEvent::ApplyBuffersRequested(false)), RunnerAction::Finished));
}

#[test]
fn a_finished_pass_leaves_every_system_completed() {
    let (system_sets, set_systems) = one_set_two_systems();
    let mut runner = SingleThreadedRunner::with(system_sets, set_systems);
    assert!(matches!(runner.run(), RunnerAction::EvaluateSetConditions(0)));
    assert!(matches!(
        runner.step(RunnerEvent::ConditionsMet(true)),
        RunnerAction::EvaluateSystemConditions(0)
    ));
    // the first system's own conditions fail: it is skipped
    assert!(matches!(
        runner.step(RunnerEvent::ConditionsMet(false)),
        RunnerAction::EvaluateSystemConditions(1)
    ));
    assert!(matches!(runner.step(RunnerEvent::ConditionsMet(true)), RunnerAction::RunSystem(1)));
    assert!(matches!(runner.step(RunnerEvent::SystemRan), RunnerAction::CheckApplyBuffers));
    assert!(matches!(runner.step(RunnerEvent::ApplyBuffersRequested(false)), RunnerAction::CheckApplyBuffers));
    assert!(matches!(runner.step(RunnerEvent::ApplyBuffersRequested(false)), RunnerAction::Finished));
    // every system is completed: another pass of the same runner has none left to turn to
    assert!(matches!(runner.run(), RunnerAction::CheckApplyBuffers));
}

#[test]
fn systems_without_sets_run_in_order() {
    let mut runner = SingleThreadedRunner::with(vec![bits(0, &[]), bits(0, &[])], vec![]);
    assert!(matches!(runner.run(), RunnerAction::EvaluateSystemConditions(0)));
    assert!(matches!(runner.step(RunnerEvent::ConditionsMet(true)), RunnerAction::RunSystem(0)));
    assert!(matches!(runner.step(RunnerEvent::SystemRan), RunnerAction::CheckApplyBuffers));
    assert!(matches!(
        runner.step(RunnerEvent::ApplyBuffersRequested(true)),
        RunnerAction::ApplyBuffers(_)
    ));
    assert!(matches!(runner.step(RunnerEvent::BuffersApplied), RunnerAction::EvaluateSystemConditions(1)));
    assert!(matches!(runner.step(RunnerEvent::ConditionsMet(true)), RunnerAction::RunSystem(1)));
    assert!(matches!(runner.step(RunnerEvent::SystemRan), RunnerAction::CheckApplyBuffers));
    assert!(matches!(runner.step(RunnerEvent::ApplyBuffersRequested(false)), RunnerAction::CheckApplyBuffers));
    match runner.step(RunnerEvent::ApplyBuffersRequested(true)) {
        RunnerAction::ApplyBuffers(v) => assert_eq!(v, vec![1]),
        other => panic!("unexpected {:?}", other),
    }
    assert!(matches!(runner.step(RunnerEvent::BuffersApplied), RunnerAction::Finished));
}

#[test]
fn empty_schedule_finishes_after_polling() {
    let mut runner = SingleThreadedRunner::with(vec![], vec![]);
    assert!(matches!(runner.run(), RunnerAction::CheckApplyBuffers));
    assert!(matches!(runner.step(RunnerEvent::ApplyBuffersRequested(false)), RunnerAction::Finished));
}

#[test]
fn simple_runner_applies_buffers_after_each_system() {
    let (system_sets, set_systems) = one_set_two_systems();
    let mut runner = SimpleRunner::with(system_sets, set_systems);
    assert!(matches!(runner.run(), RunnerAction::EvaluateSetConditions(0)));
    assert!(matches!(
        runner.step(RunnerEvent::ConditionsMet(true)),
        RunnerAction::EvaluateSystemConditions(0)
    ));
    assert!(matches!(runner.step(RunnerEvent::ConditionsMet(true)), RunnerAction::RunSystem(0)));
    match runner.step(RunnerEvent::SystemRan) {
        RunnerAction::ApplyBuffers(v) => assert_eq!(v, vec![0]),
        other => panic!("unexpected {:?}", other),
    }
    assert!(matches!(runner.step(RunnerEvent::BuffersApplied), RunnerAction::EvaluateSystemConditions(1)));
    assert!(matches!(runner.step(RunnerEvent::ConditionsMet(true)), RunnerAction::RunSystem(1)));
    match runner.step(RunnerEvent::SystemRan) {
        RunnerAction::ApplyBuffers(v) => assert_eq!(v, vec![1]),
        other => panic!("unexpected {:?}", other),
    }
    assert!(matches!(runner.step(RunnerEvent::BuffersApplied), RunnerAction::Finished));
}

const ROOT: RegId = RegId::SystemSet(1);
const INNER: RegId = RegId::SystemSet(2);
const A: RegId = RegId::System(10);
const B: RegId = RegId::System(11);

#[test]
fn set_layout_counts_dependencies_and_places_systems() {
    // ROOT holds INNER and B; INNER holds A; A runs before B
    let flat_topsort = vec![A, B];
    let flat_edges = vec![(A, B)];
    let hier_topsort = vec![ROOT, INNER, A, B];
    let hier_edges = vec![(ROOT, INNER), (INNER, A), (ROOT, B)];
    let set_members = vec![(ROOT, vec![A, B]), (INNER, vec![A])];
    // entry (i, j) at i * (2 + 4) + j: ROOT reaches INNER
    let reachable = bits(24, &[1]);
    let schedule = rebuild_set_executor(
        &flat_topsort,
        &flat_edges,
        &hier_topsort,
        &hier_edges,
        &set_members,
        &reachable,
    );
    assert_eq!(schedule.systems_topsort, vec![A, B]);
    assert_eq!(schedule.sets_topsort, vec![ROOT, INNER]);
    assert_eq!(schedule.system_deps, vec![(0, vec![1]), (1, vec![])]);
    assert_eq!(ones(&schedule.set_systems[0]), vec![0, 1]);
    assert_eq!(ones(&schedule.set_systems[1]), vec![0]);
    assert_eq!(schedule.set_systems[0].len(), 2);
    // A lies directly in INNER, which lies below ROOT
    assert_eq!(ones(&schedule.system_sets[0]), vec![0]);
    assert_eq!(ones(&schedule.system_sets[1]), Vec::<usize>::new());
    assert_eq!(schedule.system_sets[0].len(), 4);

    // the layout drives a runner as it is
    let mut runner = SingleThreadedRunner::with(schedule.system_sets, schedule.set_systems);
    assert!(matches!(runner.run(), RunnerAction::EvaluateSetConditions(0)));
    assert!(matches!(runner.step(RunnerEvent::ConditionsMet(false)), RunnerAction::CheckApplyBuffers));
}

#[test]
fn a_scheduled_system_evaluates_every_condition_before_deciding() {
    let (mut run, first) = ScheduledRun::start(3);
    assert_eq!(first, ScheduledAction::EvaluateCondition(0));
    assert_eq!(run.step(ScheduledEvent::ConditionHeld(false)), ScheduledAction::EvaluateCondition(1));
    assert_eq!(run.step(ScheduledEvent::ConditionHeld(true)), ScheduledAction::EvaluateCondition(2));
    assert_eq!(run.step(ScheduledEvent::ConditionHeld(true)), ScheduledAction::Done);
    assert_eq!(run.step(ScheduledEvent::SystemRan), ScheduledAction::Done);
}

#[test]
fn a_scheduled_system_runs_and_applies_its_buffers_when_all_conditions_hold() {
    let (mut run, first) = ScheduledRun::start(2);
    assert_eq!(first, ScheduledAction::EvaluateCondition(0));
    assert_eq!(run.step(ScheduledEvent::ConditionHeld(true)), ScheduledAction::EvaluateCondition(1));
    assert_eq!(run.step(ScheduledEvent::ConditionHeld(true)), ScheduledAction::RunSystem);
    // an event that does not fit leaves the run asking for the same thing
    assert_eq!(run.step(ScheduledEvent::BuffersApplied), ScheduledAction::RunSystem);
    assert_eq!(run.step(ScheduledEvent::SystemRan), ScheduledAction::ApplyBuffers);
    assert_eq!(run.step(ScheduledEvent::BuffersApplied), ScheduledAction::Done);
    assert_eq!(run.pending(), ScheduledAction::Done);
}

#[test]
fn a_scheduled_system_without_conditions_runs_at_once() {
    let (_, first) = ScheduledRun::start(0);
    assert_eq!(first, ScheduledAction::RunSystem);
}
