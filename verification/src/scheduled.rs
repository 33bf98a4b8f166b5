//! The decisions of running one scheduled system on its own: every run
//! condition is evaluated, each one whatever the others gave, and the system
//! runs, then has its buffers applied, only when all of them held. Running a
//! condition or the system is left to the caller: the run is a state machine
//! that says what to do next and is told what came of it.

use vstd::prelude::*;

verus! {

/// Where the run of a scheduled system stands.
#[derive(Clone, Copy, Debug, PartialEq, Eq, Structural)]
pub enum ScheduledStage {
    /// Waiting for the result of a run condition.
    Conditions,
    /// Waiting for the system to have run.
    Running,
    /// Waiting for the system's buffers to have been applied.
    Applying,
    /// The run is over.
    Done,
}

/// What the run asks to be done next.
#[derive(Clone, Copy, Debug, PartialEq, Eq, Structural)]
pub enum ScheduledAction {
    /// Evaluate the run condition with this index and report whether it held.
    EvaluateCondition(usize),
    /// Run the system.
    RunSystem,
    /// Apply the system's buffers.
    ApplyBuffers,
    /// Nothing more to do.
    Done,
}

/// What the caller reports after doing what the run asked.
#[derive(Clone, Copy, Debug, PartialEq, Eq, Structural)]
pub enum ScheduledEvent {
    /// The condition asked about held (`true`) or not.
    ConditionHeld(bool),
    /// The system has run.
    SystemRan,
    /// The system's buffers have been applied.
    BuffersApplied,
}

/// The state of a run as plain values: how many conditions the system has,
/// how many were evaluated, whether all of those held, and the stage.
pub struct ScheduledModel {
    pub condition_count: nat,
    pub evaluated: nat,
    pub all_held: bool,
    pub stage: ScheduledStage,
}

/// The run of one scheduled system.
pub struct ScheduledRun {
    condition_count: usize,
    evaluated: usize,
    all_held: bool,
    stage: ScheduledStage,
}

/// What the run asks for in the state `m`, again if need be.
pub open spec fn pending_action(m: ScheduledModel) -> ScheduledAction {
    match m.stage {
        ScheduledStage::Conditions => ScheduledAction::EvaluateCondition(m.evaluated as usize),
        ScheduledStage::Running => ScheduledAction::RunSystem,
        ScheduledStage::Applying => ScheduledAction::ApplyBuffers,
        ScheduledStage::Done => ScheduledAction::Done,
    }
}

/// Where the run goes once the conditions evaluated so far are known: on to
/// the next condition while there is one, then to the system if all held,
/// else to the end.
pub open spec fn after_conditions(count: nat, evaluated: nat, all_held: bool) -> ScheduledModel {
    ScheduledModel {
        condition_count: count,
        evaluated,
        all_held,
        stage: if evaluated < count {
            ScheduledStage::Conditions
        } else if all_held {
            ScheduledStage::Running
        } else {
            ScheduledStage::Done
        },
    }
}

/// One step of the run: the state after `event` in the state `m`. A result
/// of the awaited condition counts towards the others; the system having run
/// leads to its buffers, and those having been applied to the end. Any other
/// event changes nothing.
pub open spec fn step_model(m: ScheduledModel, event: ScheduledEvent) -> ScheduledModel {
    match (m.stage, event) {
        (ScheduledStage::Conditions, ScheduledEvent::ConditionHeld(held)) => after_conditions(
            m.condition_count,
            m.evaluated + 1,
            m.all_held && held,
        ),
        (ScheduledStage::Running, ScheduledEvent::SystemRan) => ScheduledModel {
            stage: ScheduledStage::Applying,
            ..m
        },
        (ScheduledStage::Applying, ScheduledEvent::BuffersApplied) => ScheduledModel {
            stage: ScheduledStage::Done,
            ..m
        },
        _ => m,
    }
}

/// The state after the conditions report `results`, one after the other,
/// from the state `m`.
pub open spec fn after_results(m: ScheduledModel, results: Seq<bool>) -> ScheduledModel
    decreases results.len(),
{
    if results.len() == 0 {
        m
    } else {
        after_results(step_model(m, ScheduledEvent::ConditionHeld(results[0])), results.drop_first())
    }
}

/// Whether every result held.
pub open spec fn all_true(results: Seq<bool>) -> bool {
    forall|i: int| 0 <= i < results.len() ==> #[trigger] results[i]
}

impl ScheduledRun {
    /// The run as plain values.
    pub closed spec fn model(&self) -> ScheduledModel {
        ScheduledModel {
            condition_count: self.condition_count as nat,
            evaluated: self.evaluated as nat,
            all_held: self.all_held,
            stage: self.stage,
        }
    }

    /// No more conditions were evaluated than there are, and one is awaited
    /// only while some is left.
    pub closed spec fn wf(&self) -> bool {
        &&& self.evaluated <= self.condition_count
        &&& self.stage == ScheduledStage::Conditions ==> self.evaluated < self.condition_count
    }

    /// Starts the run of a system with `condition_count` run conditions: the
    /// first condition is asked for, or the system itself when it has none.
    pub fn start(condition_count: usize) -> (r: (Self, ScheduledAction))
        ensures
            r.0.wf(),
            r.0.model() == after_conditions(condition_count as nat, 0, true),
            r.1 == pending_action(r.0.model()),
    {
        let run = ScheduledRun {
            condition_count,
            evaluated: 0,
            all_held: true,
            stage: if condition_count > 0 {
                ScheduledStage::Conditions
            } else {
                ScheduledStage::Running
            },
        };
        let action = run.pending();
        (run, action)
    }

    /// What the run asks for now.
    pub fn pending(&self) -> (r: ScheduledAction)
        ensures
            r == pending_action(self.model()),
    {
        match self.stage {
            ScheduledStage::Conditions => ScheduledAction::EvaluateCondition(self.evaluated),
            ScheduledStage::Running => ScheduledAction::RunSystem,
            ScheduledStage::Applying => ScheduledAction::ApplyBuffers,
            ScheduledStage::Done => ScheduledAction::Done,
        }
    }

    /// Takes in what came of the last action and says what to do next.
    pub fn step(&mut self, event: ScheduledEvent) -> (r: ScheduledAction)
        requires
            old(self).wf(),
        ensures
            final(self).wf(),
            final(self).model() == step_model(old(self).model(), event),
            r == pending_action(final(self).model()),
    {
        match (self.stage, event) {
            (ScheduledStage::Conditions, ScheduledEvent::ConditionHeld(held)) => {
                self.evaluated = self.evaluated + 1;
                self.all_held = self.all_held && held;
                self.stage = if self.evaluated < self.condition_count {
                    ScheduledStage::Conditions
                } else if self.all_held {
                    ScheduledStage::Running
                } else {
                    ScheduledStage::Done
                };
            },
            (ScheduledStage::Running, ScheduledEvent::SystemRan) => {
                self.stage = ScheduledStage::Applying;
            },
            (ScheduledStage::Applying, ScheduledEvent::BuffersApplied) => {
                self.stage = ScheduledStage::Done;
            },
            _ => {},
        }
        self.pending()
    }
}

/// Every condition is evaluated, whatever the others gave: from the start of
/// a run of a system with `results.len()` conditions, reporting their
/// results one after the other leaves every condition evaluated, and the run
/// goes on to the system exactly when all of them held (else it is over).
pub proof fn lemma_conditions_decide(results: Seq<bool>)
    ensures
        after_results(after_conditions(results.len(), 0, true), results).evaluated == results.len(),
        after_results(after_conditions(results.len(), 0, true), results).stage == if all_true(results) {
            ScheduledStage::Running
        } else {
            ScheduledStage::Done
        },
{
    lemma_results_from(results, 0, true);
    assert(results.subrange(0, results.len() as int) =~= results);
}

/// Reporting the results from `k` on, after the first `k` were taken in with
/// `all_held` telling whether they all held.
proof fn lemma_results_from(results: Seq<bool>, k: nat, all_held: bool)
    requires
        k <= results.len(),
        all_held == all_true(results.subrange(0, k as int)),
    ensures
        after_results(after_conditions(results.len(), k, all_held), results.subrange(k as int, results.len() as int)).evaluated
            == results.len(),
        after_results(after_conditions(results.len(), k, all_held), results.subrange(k as int, results.len() as int)).stage
            == if all_true(results) {
            ScheduledStage::Running
        } else {
            ScheduledStage::Done
        },
    decreases results.len() - k,
{
    let n = results.len();
    let rest = results.subrange(k as int, n as int);
    if k == n {
        assert(rest.len() == 0);
        assert(results.subrange(0, k as int) =~= results);
    } else {
        let next = all_held && results[k as int];
        assert(all_true(results.subrange(0, (k + 1) as int)) == next) by {
            if next {
                assert forall|i: int| 0 <= i < (k + 1) as int implies #[trigger] results.subrange(0, (k + 1) as int)[i] by {
                    if i < k {
                        assert(results.subrange(0, k as int)[i] == results[i]);
                    }
                }
            } else if !all_held {
                let i = choose|i: int| 0 <= i < k && !#[trigger] results.subrange(0, k as int)[i];
                assert(!results.subrange(0, (k + 1) as int)[i]);
            } else {
                assert(!results.subrange(0, (k + 1) as int)[k as int]);
            }
        }
        assert(step_model(after_conditions(n, k, all_held), ScheduledEvent::ConditionHeld(rest[0]))
            == after_conditions(n, k + 1, next));
        assert(rest.drop_first() =~= results.subrange((k + 1) as int, n as int));
        lemma_results_from(results, k + 1, next);
    }
}

} // verus!
