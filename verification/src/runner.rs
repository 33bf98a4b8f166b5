//! The decisions of the runners that run the systems of a set one after the
//! other. Running a condition, a system or its buffers is left to the caller:
//! the runner is a state machine that says what to do next and is told what
//! came of it.

use fixedbitset::FixedBitSet;
use vstd::prelude::*;

use crate::bitset::{
    ascending_listing, bitset_clear, bitset_contains, bitset_difference_vec, bitset_grow,
    bitset_len, bitset_new, bitset_ones, bitset_ones_vec, bitset_set, bitset_union_with,
};

verus! {

/// Where a runner is in its pass over the systems.
#[derive(Clone, Copy, Debug, PartialEq, Eq)]
pub enum RunnerStage {
    /// Not started.
    Ready,
    /// Waiting for the result of the conditions of a set above the current
    /// system.
    SetConditions,
    /// Waiting for the result of the current system's own conditions.
    SystemConditions,
    /// Waiting for the current system to have run.
    Running,
    /// Waiting to learn, after a system ran, whether buffers must be applied.
    Polling,
    /// Waiting for buffers to have been applied after a system ran.
    Applying,
    /// Waiting to learn, after the last system, whether buffers must be
    /// applied.
    FinalPolling,
    /// Waiting for buffers to have been applied after the last system.
    FinalApplying,
    /// The pass is over.
    Finished,
}

/// What the runner asks to be done next.
#[derive(Debug)]
pub enum RunnerAction {
    /// Run the conditions of this set and report whether all of them held.
    EvaluateSetConditions(usize),
    /// Run the conditions of this system and report whether all of them held.
    EvaluateSystemConditions(usize),
    /// Run this system.
    RunSystem(usize),
    /// Report whether buffers were asked to be applied, and reset that request.
    CheckApplyBuffers,
    /// Apply the buffers of these systems, in this order.
    ApplyBuffers(Vec<usize>),
    /// Nothing more to do in this pass.
    Finished,
}

/// What the caller reports after doing what the runner asked.
#[derive(Clone, Copy, Debug, PartialEq, Eq)]
pub enum RunnerEvent {
    /// The conditions asked about held (`true`) or not.
    ConditionsMet(bool),
    /// The system asked for has run.
    SystemRan,
    /// Buffers were asked to be applied (`true`) or not.
    ApplyBuffersRequested(bool),
    /// The buffers asked for have been applied.
    BuffersApplied,
}

/// The first system index from `from` on, below `n`, that has not completed;
/// `n` when there is none.
pub open spec fn first_pending(completed: Set<usize>, from: int, n: int) -> int
    decreases n - from,
{
    if from >= n || from < 0 {
        n
    } else if !completed.contains(from as usize) {
        from
    } else {
        first_pending(completed, from + 1, n)
    }
}

/// The system the runner turns to next has not completed, and every system
/// it passes over on the way has.
pub proof fn lemma_first_pending(completed: Set<usize>, from: int, n: int)
    requires
        0 <= from <= n,
    ensures
        from <= first_pending(completed, from, n) <= n,
        first_pending(completed, from, n) < n ==> !completed.contains(
            first_pending(completed, from, n) as usize,
        ),
        forall|j: usize|
            from <= j < first_pending(completed, from, n) ==> #[trigger] completed.contains(j),
    decreases n - from,
{
    if from < n && completed.contains(from as usize) {
        lemma_first_pending(completed, from + 1, n);
    }
}

/// The state shared by both runners: which systems lie below which sets, and
/// how far the current pass has come.
pub struct RunnerCore {
    /// For each system, the sets above it.
    system_sets: Vec<FixedBitSet>,
    /// For each set, the systems below it.
    set_systems: Vec<FixedBitSet>,
    /// Sets whose conditions have been evaluated or skipped.
    visited_sets: FixedBitSet,
    /// Systems that are done with (run, or skipped for good).
    completed_systems: FixedBitSet,
    /// Systems that have run and whose buffers have not been applied.
    unapplied_systems: FixedBitSet,
    stage: RunnerStage,
    current: usize,
    pending_sets: Vec<usize>,
    pending_pos: usize,
    should_run: bool,
}

impl RunnerCore {
    pub closed spec fn spec_system_count(&self) -> nat {
        self.system_sets@.len()
    }

    pub closed spec fn spec_set_count(&self) -> nat {
        self.set_systems@.len()
    }

    /// The sets above system `i`.
    pub closed spec fn spec_system_sets(&self, i: int) -> Set<usize> {
        bitset_ones(self.system_sets@[i])
    }

    /// The systems below set `s`.
    pub closed spec fn spec_set_systems(&self, s: int) -> Set<usize> {
        bitset_ones(self.set_systems@[s])
    }

    pub closed spec fn spec_visited(&self) -> Set<usize> {
        bitset_ones(self.visited_sets)
    }

    pub closed spec fn spec_completed(&self) -> Set<usize> {
        bitset_ones(self.completed_systems)
    }

    pub closed spec fn spec_unapplied(&self) -> Set<usize> {
        bitset_ones(self.unapplied_systems)
    }

    pub closed spec fn spec_stage(&self) -> RunnerStage {
        self.stage
    }

    /// The system the pass is at.
    pub closed spec fn spec_current(&self) -> usize {
        self.current
    }

    /// The sets above the current system whose conditions are evaluated for it,
    /// in order.
    pub closed spec fn spec_pending(&self) -> Seq<usize> {
        self.pending_sets@
    }

    /// How many of the pending sets have been evaluated.
    pub closed spec fn spec_pos(&self) -> nat {
        self.pending_pos as nat
    }

    /// Whether every set condition evaluated so far for the current system held.
    pub closed spec fn spec_should_run(&self) -> bool {
        self.should_run
    }

    /// Every set above a system is a set of the runner.
    pub closed spec fn config_ok(&self) -> bool {
        forall|i: int, s: usize|
            0 <= i < self.system_sets@.len() && #[trigger] bitset_ones(self.system_sets@[i]).contains(s)
                ==> s < self.set_systems@.len()
    }

    /// The configuration is consistent and the bookkeeping fits the current
    /// stage.
    pub closed spec fn wf(&self) -> bool {
        &&& self.config_ok()
        &&& self.stage != RunnerStage::Ready ==> {
            &&& bitset_len(self.visited_sets) >= self.set_systems@.len()
            &&& bitset_len(self.completed_systems) >= self.system_sets@.len()
            &&& bitset_len(self.unapplied_systems) >= self.system_sets@.len()
        }
        &&& match self.stage {
            RunnerStage::SetConditions => {
                &&& self.current < self.system_sets@.len()
                &&& self.pending_pos < self.pending_sets@.len()
                &&& forall|k: int|
                    0 <= k < self.pending_sets@.len() ==> #[trigger] self.pending_sets@[k]
                        < self.set_systems@.len()
            },
            RunnerStage::SystemConditions | RunnerStage::Running | RunnerStage::Polling
            | RunnerStage::Applying => self.current < self.system_sets@.len(),
            _ => true,
        }
    }

    /// The configuration is the same in `a` and `b`.
    pub open spec fn same_config(a: RunnerCore, b: RunnerCore) -> bool {
        &&& a.spec_system_count() == b.spec_system_count()
        &&& a.spec_set_count() == b.spec_set_count()
        &&& forall|i: int|
            0 <= i < a.spec_system_count() ==> #[trigger] a.spec_system_sets(i)
                == b.spec_system_sets(i)
        &&& forall|s: int|
            0 <= s < a.spec_set_count() ==> #[trigger] a.spec_set_systems(s)
                == b.spec_set_systems(s)
    }

    /// `n` has turned, with `completed` and `visited` as they stood, to the
    /// first system from `from` on that has not completed and asks `a` for
    /// it; at the end of the systems it polls for buffers, or, when
    /// `apply_immediately`, finishes.
    pub open spec fn scanned(
        n: RunnerCore,
        completed: Set<usize>,
        visited: Set<usize>,
        from: int,
        apply_immediately: bool,
        a: RunnerAction,
    ) -> bool {
        let i = first_pending(completed, from, n.spec_system_count() as int);
        &&& n.spec_completed() == completed
        &&& if i >= n.spec_system_count() {
            &&& n.spec_visited() == visited
            &&& if apply_immediately {
                n.spec_stage() == RunnerStage::Finished && a is Finished
            } else {
                n.spec_stage() == RunnerStage::FinalPolling && a is CheckApplyBuffers
            }
        } else {
            &&& n.spec_current() == i
            &&& ascending_listing(n.spec_pending(), n.spec_system_sets(i).difference(visited))
            &&& n.spec_visited() == visited.union(n.spec_system_sets(i))
            &&& n.spec_pos() == 0
            &&& n.spec_should_run()
            &&& if n.spec_pending().len() > 0 {
                n.spec_stage() == RunnerStage::SetConditions && a
                    == RunnerAction::EvaluateSetConditions(n.spec_pending()[0])
            } else {
                n.spec_stage() == RunnerStage::SystemConditions && a
                    == RunnerAction::EvaluateSystemConditions(i as usize)
            }
        }
    }

    /// Whether the runner, at stage `stage`, waits for event `e`.
    pub open spec fn expects(stage: RunnerStage, e: RunnerEvent) -> bool {
        match stage {
            RunnerStage::SetConditions | RunnerStage::SystemConditions => e is ConditionsMet,
            RunnerStage::Running => e is SystemRan,
            RunnerStage::Polling | RunnerStage::FinalPolling => e is ApplyBuffersRequested,
            RunnerStage::Applying | RunnerStage::FinalApplying => e is BuffersApplied,
            _ => false,
        }
    }

    /// One step of a runner: from `o`, told `e`, it becomes `n` and asks `a`.
    /// With `apply_immediately` a system's buffers are applied right after
    /// it runs; otherwise they are applied, in system order, whenever the
    /// caller reports that they were asked for.
    pub open spec fn step_relation(
        o: RunnerCore,
        e: RunnerEvent,
        n: RunnerCore,
        a: RunnerAction,
        apply_immediately: bool,
    ) -> bool {
        &&& RunnerCore::same_config(o, n)
        &&& match (o.spec_stage(), e) {
            (RunnerStage::SetConditions, RunnerEvent::ConditionsMet(met)) => {
                let s = o.spec_pending()[o.spec_pos() as int];
                let completed = if met {
                    o.spec_completed()
                } else {
                    o.spec_completed().union(o.spec_set_systems(s as int))
                };
                let should_run = o.spec_should_run() && met;
                let pos = o.spec_pos() + 1;
                &&& n.spec_unapplied() == o.spec_unapplied()
                &&& if pos < o.spec_pending().len() {
                    &&& n.spec_stage() == RunnerStage::SetConditions
                    &&& n.spec_current() == o.spec_current()
                    &&& n.spec_pending() == o.spec_pending()
                    &&& n.spec_pos() == pos
                    &&& n.spec_should_run() == should_run
                    &&& n.spec_completed() == completed
                    &&& n.spec_visited() == o.spec_visited()
                    &&& a == RunnerAction::EvaluateSetConditions(o.spec_pending()[pos as int])
                } else if should_run {
                    &&& n.spec_stage() == RunnerStage::SystemConditions
                    &&& n.spec_current() == o.spec_current()
                    &&& n.spec_completed() == completed
                    &&& n.spec_visited() == o.spec_visited()
                    &&& a == RunnerAction::EvaluateSystemConditions(o.spec_current())
                } else {
                    RunnerCore::scanned(
                        n,
                        completed,
                        o.spec_visited(),
                        o.spec_current() + 1,
                        apply_immediately,
                        a,
                    )
                }
            },
            (RunnerStage::SystemConditions, RunnerEvent::ConditionsMet(met)) => {
                let completed = o.spec_completed().insert(o.spec_current());
                &&& n.spec_unapplied() == o.spec_unapplied()
                &&& if met {
                    &&& n.spec_stage() == RunnerStage::Running
                    &&& n.spec_current() == o.spec_current()
                    &&& n.spec_completed() == completed
                    &&& n.spec_visited() == o.spec_visited()
                    &&& a == RunnerAction::RunSystem(o.spec_current())
                } else {
                    RunnerCore::scanned(
                        n,
                        completed,
                        o.spec_visited(),
                        o.spec_current() + 1,
                        apply_immediately,
                        a,
                    )
                }
            },
            (RunnerStage::Running, RunnerEvent::SystemRan) => {
                &&& n.spec_current() == o.spec_current()
                &&& n.spec_completed() == o.spec_completed()
                &&& n.spec_visited() == o.spec_visited()
                &&& if apply_immediately {
                    &&& n.spec_unapplied() == o.spec_unapplied()
                    &&& n.spec_stage() == RunnerStage::Applying
                    &&& a matches RunnerAction::ApplyBuffers(v) && v@ == seq![o.spec_current()]
                } else {
                    &&& n.spec_unapplied() == o.spec_unapplied().insert(o.spec_current())
                    &&& n.spec_stage() == RunnerStage::Polling
                    &&& a is CheckApplyBuffers
                }
            },
            (RunnerStage::Polling, RunnerEvent::ApplyBuffersRequested(flag)) => {
                if flag {
                    &&& n.spec_unapplied() == Set::<usize>::empty()
                    &&& n.spec_stage() == RunnerStage::Applying
                    &&& n.spec_current() == o.spec_current()
                    &&& n.spec_completed() == o.spec_completed()
                    &&& n.spec_visited() == o.spec_visited()
                    &&& a matches RunnerAction::ApplyBuffers(v) && ascending_listing(
                        v@,
                        o.spec_unapplied(),
                    )
                } else {
                    &&& n.spec_unapplied() == o.spec_unapplied()
                    &&& RunnerCore::scanned(
                        n,
                        o.spec_completed(),
                        o.spec_visited(),
                        o.spec_current() + 1,
                        apply_immediately,
                        a,
                    )
                }
            },
            (RunnerStage::Applying, RunnerEvent::BuffersApplied) => {
                &&& n.spec_unapplied() == o.spec_unapplied()
                &&& RunnerCore::scanned(
                    n,
                    o.spec_completed(),
                    o.spec_visited(),
                    o.spec_current() + 1,
                    apply_immediately,
                    a,
                )
            },
            (RunnerStage::FinalPolling, RunnerEvent::ApplyBuffersRequested(flag)) => {
                &&& n.spec_completed() == o.spec_completed()
                &&& n.spec_visited() == o.spec_visited()
                &&& if flag {
                    &&& n.spec_unapplied() == Set::<usize>::empty()
                    &&& n.spec_stage() == RunnerStage::FinalApplying
                    &&& a matches RunnerAction::ApplyBuffers(v) && ascending_listing(
                        v@,
                        o.spec_unapplied(),
                    )
                } else {
                    &&& n.spec_unapplied() == o.spec_unapplied()
                    &&& n.spec_stage() == RunnerStage::Finished
                    &&& a is Finished
                }
            },
            (RunnerStage::FinalApplying, RunnerEvent::BuffersApplied) => {
                &&& n.spec_completed() == o.spec_completed()
                &&& n.spec_visited() == o.spec_visited()
                &&& n.spec_unapplied() == o.spec_unapplied()
                &&& n.spec_stage() == RunnerStage::Finished
                &&& a is Finished
            },
            _ => false,
        }
    }
}

/// `x` is among the first `k` entries of `v`.
pub open spec fn listed_before(v: Seq<usize>, k: int, x: usize) -> bool {
    exists|j: int| 0 <= j < k && #[trigger] v[j] == x
}

proof fn lemma_first_pending_at(completed: Set<usize>, from: int, n: int, i: int)
    requires
        0 <= from <= i <= n,
        n <= usize::MAX,
        forall|j: usize| from <= j < i ==> #[trigger] completed.contains(j),
        i < n ==> !completed.contains(i as usize),
    ensures
        first_pending(completed, from, n) == i,
    decreases i - from,
{
    if from < i {
        assert(completed.contains(from as usize));
        lemma_first_pending_at(completed, from + 1, n, i);
    }
}

impl RunnerCore {
    /// A runner over the given sets above each system and systems below each
    /// set, not started.
    fn new(system_sets: Vec<FixedBitSet>, set_systems: Vec<FixedBitSet>) -> (r: RunnerCore)
        requires
            forall|i: int, s: usize|
                0 <= i < system_sets@.len() && #[trigger] bitset_ones(system_sets@[i]).contains(s)
                    ==> s < set_systems@.len(),
        ensures
            r.wf(),
            r.spec_stage() == RunnerStage::Ready,
            r.spec_system_count() == system_sets@.len(),
            r.spec_set_count() == set_systems@.len(),
            forall|i: int|
                0 <= i < system_sets@.len() ==> #[trigger] r.spec_system_sets(i) == bitset_ones(
                    system_sets@[i],
                ),
            forall|s: int|
                0 <= s < set_systems@.len() ==> #[trigger] r.spec_set_systems(s) == bitset_ones(
                    set_systems@[s],
                ),
            r.spec_visited() == Set::<usize>::empty(),
            r.spec_completed() == Set::<usize>::empty(),
            r.spec_unapplied() == Set::<usize>::empty(),
    {
        RunnerCore {
            system_sets,
            set_systems,
            visited_sets: bitset_new(),
            completed_systems: bitset_new(),
            unapplied_systems: bitset_new(),
            stage: RunnerStage::Ready,
            current: 0,
            pending_sets: Vec::new(),
            pending_pos: 0,
            should_run: true,
        }
    }

    /// Makes the bookkeeping large enough for every set and system.
    fn rebuild_metadata(&mut self)
        requires
            old(self).wf(),
        ensures
            final(self).config_ok(),
            RunnerCore::same_config(*old(self), *final(self)),
            final(self).system_sets@ == old(self).system_sets@,
            final(self).set_systems@ == old(self).set_systems@,
            final(self).spec_visited() == old(self).spec_visited(),
            final(self).spec_completed() == old(self).spec_completed(),
            final(self).spec_unapplied() == old(self).spec_unapplied(),
            final(self).stage == old(self).stage,
            bitset_len(final(self).visited_sets) >= final(self).set_systems@.len(),
            bitset_len(final(self).completed_systems) >= final(self).system_sets@.len(),
            bitset_len(final(self).unapplied_systems) >= final(self).system_sets@.len(),
    {
        let sys_count = self.system_sets.len();
        let set_count = self.set_systems.len();
        bitset_grow(&mut self.visited_sets, set_count);
        bitset_grow(&mut self.completed_systems, sys_count);
        bitset_grow(&mut self.unapplied_systems, sys_count);
    }

    /// Turns to the first system from `from` on that has not completed.
    fn scan(&mut self, from: usize, apply_immediately: bool) -> (r: RunnerAction)
        requires
            old(self).config_ok(),
            from <= old(self).system_sets@.len(),
            bitset_len(old(self).visited_sets) >= old(self).set_systems@.len(),
            bitset_len(old(self).completed_systems) >= old(self).system_sets@.len(),
            bitset_len(old(self).unapplied_systems) >= old(self).system_sets@.len(),
        ensures
            final(self).wf(),
            final(self).spec_stage() != RunnerStage::Ready,
            RunnerCore::same_config(*old(self), *final(self)),
            final(self).spec_unapplied() == old(self).spec_unapplied(),
            RunnerCore::scanned(
                *final(self),
                old(self).spec_completed(),
                old(self).spec_visited(),
                from as int,
                apply_immediately,
                r,
            ),
    {
        let n = self.system_sets.len();
        let mut i: usize = from;
        while i < n && bitset_contains(&self.completed_systems, i)
            invariant
                from <= i <= n,
                n == self.system_sets@.len(),
                forall|j: usize| from <= j < i ==> #[trigger] bitset_ones(self.completed_systems).contains(j),
            decreases n - i,
        {
            i = i + 1;
        }
        proof {
            lemma_first_pending_at(self.spec_completed(), from as int, n as int, i as int);
        }
        if i >= n {
            if apply_immediately {
                self.stage = RunnerStage::Finished;
                return RunnerAction::Finished;
            } else {
                self.stage = RunnerStage::FinalPolling;
                return RunnerAction::CheckApplyBuffers;
            }
        }
        self.current = i;
        let pending = bitset_difference_vec(&self.system_sets[i], &self.visited_sets);
        let ghost visited0 = self.spec_visited();
        let ghost above = self.spec_system_sets(i as int);
        let mut k: usize = 0;
        while k < pending.len()
            invariant
                k <= pending@.len(),
                ascending_listing(pending@, above.difference(visited0)),
                self.config_ok(),
                self.system_sets@ == old(self).system_sets@,
                self.set_systems@ == old(self).set_systems@,
                self.completed_systems == old(self).completed_systems,
                self.unapplied_systems == old(self).unapplied_systems,
                self.current == i,
                i < n,
                n == self.system_sets@.len(),
                above == bitset_ones(self.system_sets@[i as int]),
                bitset_len(self.visited_sets) >= self.set_systems@.len(),
                forall|x: usize|
                    #[trigger] bitset_ones(self.visited_sets).contains(x) <==> (visited0.contains(x)
                        || listed_before(pending@, k as int, x)),
            decreases pending@.len() - k,
        {
            let set_idx = pending[k];
            proof {
                assert(pending@.contains(set_idx));
                assert(above.difference(visited0).contains(set_idx));
                assert(above.contains(set_idx));
            }
            bitset_set(&mut self.visited_sets, set_idx, true);
            proof {
                assert forall|x: usize| #[trigger] bitset_ones(self.visited_sets).contains(x) <==> (
                visited0.contains(x) || listed_before(pending@, k + 1, x)) by {
                    if listed_before(pending@, k + 1, x) && !listed_before(pending@, k as int, x) {
                        let j = choose|j: int| 0 <= j < k + 1 && pending@[j] == x;
                        assert(j == k);
                    }
                    if listed_before(pending@, k as int, x) {
                        let j = choose|j: int| 0 <= j < k && pending@[j] == x;
                        assert(0 <= j < k + 1 && pending@[j] == x);
                    }
                    if x == set_idx {
                        assert(0 <= k < k + 1 && pending@[k as int] == x);
                    }
                }
            }
            k = k + 1;
        }
        proof {
            assert forall|x: usize| listed_before(pending@, pending@.len() as int, x) <==> pending@.contains(x) by {
                if pending@.contains(x) {
                    let j = choose|j: int| 0 <= j < pending@.len() && pending@[j] == x;
                    assert(0 <= j < pending@.len() as int && pending@[j] == x);
                }
            }
            assert forall|x: usize| #[trigger] self.spec_visited().contains(x) <==> visited0.union(above).contains(x) by {
                assert(above.difference(visited0).contains(x) <==> pending@.contains(x));
            }
            assert(self.spec_visited() =~= visited0.union(above));
            assert forall|kk: int| 0 <= kk < pending@.len() implies #[trigger] pending@[kk]
                < self.set_systems@.len() by {
                assert(pending@.contains(pending@[kk]));
                assert(above.difference(visited0).contains(pending@[kk]));
                assert(above.contains(pending@[kk]));
            }
        }
        self.pending_sets = pending;
        self.pending_pos = 0;
        self.should_run = true;
        if self.pending_sets.len() > 0 {
            self.stage = RunnerStage::SetConditions;
            RunnerAction::EvaluateSetConditions(self.pending_sets[0])
        } else {
            self.stage = RunnerStage::SystemConditions;
            RunnerAction::EvaluateSystemConditions(i)
        }
    }
}

impl RunnerCore {
    /// Starts a pass: makes room in the bookkeeping and turns to the first
    /// system that has not completed.
    fn start(&mut self, apply_immediately: bool) -> (r: RunnerAction)
        requires
            old(self).wf(),
        ensures
            final(self).wf(),
            final(self).spec_stage() != RunnerStage::Ready,
            RunnerCore::same_config(*old(self), *final(self)),
            final(self).spec_unapplied() == old(self).spec_unapplied(),
            RunnerCore::scanned(
                *final(self),
                old(self).spec_completed(),
                old(self).spec_visited(),
                0,
                apply_immediately,
                r,
            ),
    {
        self.rebuild_metadata();
        self.scan(0, apply_immediately)
    }

    /// Takes in what came of the last action and says what to do next.
    fn step(&mut self, event: RunnerEvent, apply_immediately: bool) -> (r: RunnerAction)
        requires
            old(self).wf(),
            RunnerCore::expects(old(self).spec_stage(), event),
            apply_immediately ==> old(self).spec_stage() != RunnerStage::Polling
                && old(self).spec_stage() != RunnerStage::FinalPolling
                && old(self).spec_stage() != RunnerStage::FinalApplying,
        ensures
            final(self).wf(),
            final(self).spec_stage() != RunnerStage::Ready,
            apply_immediately ==> final(self).spec_stage() != RunnerStage::Polling
                && final(self).spec_stage() != RunnerStage::FinalPolling
                && final(self).spec_stage() != RunnerStage::FinalApplying,
            RunnerCore::step_relation(*old(self), event, *final(self), r, apply_immediately),
    {
        let _system_count = self.system_sets.len();
        match self.stage {
            RunnerStage::SetConditions => match event {
                RunnerEvent::ConditionsMet(met) => {
                    proof {
                        assert(self.stage == RunnerStage::SetConditions);
                        assert(self.pending_pos < self.pending_sets@.len());
                    }
                    let pos = self.pending_pos;
                    let _pending_len = self.pending_sets.len();
                    let _system_count = self.system_sets.len();
                    let set_idx = self.pending_sets[pos];
                    if !met {
                        // skip every system below the set
                        let ghost before = *self;
                        bitset_union_with(&mut self.completed_systems, &self.set_systems[set_idx]);
                        proof {
                            assert(self.pending_pos == before.pending_pos);
                        }
                    }
                    self.should_run = self.should_run && met;
                    self.pending_pos = pos + 1;
                    proof {
                        let o = *old(self);
                        let completed = if met {
                            o.spec_completed()
                        } else {
                            o.spec_completed().union(o.spec_set_systems(set_idx as int))
                        };
                        assert(self.spec_completed() == completed);
                        assert(self.spec_unapplied() == o.spec_unapplied());
                        assert(self.spec_visited() == o.spec_visited());
                        assert(RunnerCore::same_config(o, *self));
                    }
                    if self.pending_pos < self.pending_sets.len() {
                        let r = RunnerAction::EvaluateSetConditions(self.pending_sets[self.pending_pos]);
                        assert(self.spec_pending() == old(self).spec_pending());
                        assert(self.spec_pos() == old(self).spec_pos() + 1);
                        assert(self.spec_should_run() == (old(self).spec_should_run() && met));
                        assert(r == RunnerAction::EvaluateSetConditions(old(self).spec_pending()[old(self).spec_pos() + 1 as int]));
                        assert(RunnerCore::step_relation(*old(self), event, *self, r, apply_immediately));
                        r
                    } else if self.should_run {
                        self.stage = RunnerStage::SystemConditions;
                        let r = RunnerAction::EvaluateSystemConditions(self.current);
                        assert(RunnerCore::step_relation(*old(self), event, *self, r, apply_immediately));
                        r
                    } else {
                        let next = self.current + 1;
                        let ghost mid = *self;
                        let r = self.scan(next, apply_immediately);
                        assert(RunnerCore::same_config(mid, *self));
                        assert(RunnerCore::same_config(*old(self), *self));
                        assert(RunnerCore::step_relation(*old(self), event, *self, r, apply_immediately));
                        r
                    }
                },
                _ => {
                    proof {
                        assert(false);
                    }
                    RunnerAction::Finished
                },
            },
            RunnerStage::SystemConditions => match event {
                RunnerEvent::ConditionsMet(met) => {
                    let _system_count = self.system_sets.len();
                    // the system is done with, whether it runs or not
                    bitset_set(&mut self.completed_systems, self.current, true);
                    if met {
                        self.stage = RunnerStage::Running;
                        let r = RunnerAction::RunSystem(self.current);
                        assert(RunnerCore::step_relation(*old(self), event, *self, r, apply_immediately));
                        r
                    } else {
                        let next = self.current + 1;
                        let ghost mid = *self;
                        assert(RunnerCore::same_config(*old(self), mid));
                        let r = self.scan(next, apply_immediately);
                        assert(RunnerCore::same_config(mid, *self));
                        assert(RunnerCore::same_config(*old(self), *self));
                        assert(RunnerCore::step_relation(*old(self), event, *self, r, apply_immediately));
                        r
                    }
                },
                _ => {
                    proof {
                        assert(false);
                    }
                    RunnerAction::Finished
                },
            },
            RunnerStage::Running => match event {
                RunnerEvent::SystemRan => {
                    if apply_immediately {
                        self.stage = RunnerStage::Applying;
                        let mut v: Vec<usize> = Vec::new();
                        v.push(self.current);
                        assert(v@ =~= seq![self.current]);
                        let r = RunnerAction::ApplyBuffers(v);
                        assert(RunnerCore::step_relation(*old(self), event, *self, r, apply_immediately));
                        r
                    } else {
                        // the system may have pending commands
                        bitset_set(&mut self.unapplied_systems, self.current, true);
                        self.stage = RunnerStage::Polling;
                        let r = RunnerAction::CheckApplyBuffers;
                        assert(RunnerCore::step_relation(*old(self), event, *self, r, apply_immediately));
                        r
                    }
                },
                _ => {
                    proof {
                        assert(false);
                    }
                    RunnerAction::Finished
                },
            },
            RunnerStage::Polling => match event {
                RunnerEvent::ApplyBuffersRequested(flag) => {
                    if flag {
                        let v = bitset_ones_vec(&self.unapplied_systems);
                        bitset_clear(&mut self.unapplied_systems);
                        self.stage = RunnerStage::Applying;
                        RunnerAction::ApplyBuffers(v)
                    } else {
                        let next = self.current + 1;
                        self.scan(next, apply_immediately)
                    }
                },
                _ => {
                    proof {
                        assert(false);
                    }
                    RunnerAction::Finished
                },
            },
            RunnerStage::Applying => match event {
                RunnerEvent::BuffersApplied => {
                    let next = self.current + 1;
                    self.scan(next, apply_immediately)
                },
                _ => {
                    proof {
                        assert(false);
                    }
                    RunnerAction::Finished
                },
            },
            RunnerStage::FinalPolling => match event {
                RunnerEvent::ApplyBuffersRequested(flag) => {
                    if flag {
                        let v = bitset_ones_vec(&self.unapplied_systems);
                        bitset_clear(&mut self.unapplied_systems);
                        self.stage = RunnerStage::FinalApplying;
                        RunnerAction::ApplyBuffers(v)
                    } else {
                        self.stage = RunnerStage::Finished;
                        RunnerAction::Finished
                    }
                },
                _ => {
                    proof {
                        assert(false);
                    }
                    RunnerAction::Finished
                },
            },
            RunnerStage::FinalApplying => match event {
                RunnerEvent::BuffersApplied => {
                    self.stage = RunnerStage::Finished;
                    RunnerAction::Finished
                },
                _ => {
                    proof {
                        assert(false);
                    }
                    RunnerAction::Finished
                },
            },
            _ => {
                proof {
                    assert(false);
                }
                RunnerAction::Finished
            },
        }
    }
}

/// A step never takes a system out of the completed ones.
pub proof fn lemma_completed_only_grows(
    o: RunnerCore,
    e: RunnerEvent,
    n: RunnerCore,
    a: RunnerAction,
    apply_immediately: bool,
)
    requires
        RunnerCore::step_relation(o, e, n, a, apply_immediately),
    ensures
        o.spec_completed().subset_of(n.spec_completed()),
{
}

/// A system is run only right after its own conditions held, and it is
/// completed by then, so that no later step of the pass turns to it again.
pub proof fn lemma_run_marks_completed(
    o: RunnerCore,
    e: RunnerEvent,
    n: RunnerCore,
    a: RunnerAction,
    apply_immediately: bool,
    i: usize,
)
    requires
        RunnerCore::step_relation(o, e, n, a, apply_immediately),
        a == RunnerAction::RunSystem(i),
    ensures
        o.spec_stage() == RunnerStage::SystemConditions,
        e == RunnerEvent::ConditionsMet(true),
        i == o.spec_current(),
        n.spec_completed().contains(i),
{
}

/// When the runner turns to a system, that system has not completed, and
/// every system it passed over on the way had.
pub proof fn lemma_scan_picks_pending(
    n: RunnerCore,
    completed: Set<usize>,
    visited: Set<usize>,
    from: int,
    apply_immediately: bool,
    a: RunnerAction,
)
    requires
        RunnerCore::scanned(n, completed, visited, from, apply_immediately, a),
        0 <= from <= n.spec_system_count(),
        !(a is Finished) && !(a is CheckApplyBuffers),
    ensures
        from <= n.spec_current() < n.spec_system_count(),
        !completed.contains(n.spec_current()),
        forall|j: usize| from <= j < n.spec_current() ==> #[trigger] completed.contains(j),
{
    lemma_first_pending(completed, from, n.spec_system_count() as int);
}

/// When the conditions of a set fail, every system below the set is
/// completed, so none of them runs later in the pass.
pub proof fn lemma_failed_set_skips_its_systems(
    o: RunnerCore,
    n: RunnerCore,
    a: RunnerAction,
    apply_immediately: bool,
)
    requires
        o.spec_stage() == RunnerStage::SetConditions,
        RunnerCore::step_relation(o, RunnerEvent::ConditionsMet(false), n, a, apply_immediately),
    ensures
        o.spec_set_systems(o.spec_pending()[o.spec_pos() as int] as int).subset_of(
            n.spec_completed(),
        ),
{
}

/// The pass moves forward: a step that asks about or runs a system names a
/// system at or after the one the runner was at.
pub proof fn lemma_pass_moves_forward(
    o: RunnerCore,
    e: RunnerEvent,
    n: RunnerCore,
    a: RunnerAction,
    apply_immediately: bool,
)
    requires
        RunnerCore::step_relation(o, e, n, a, apply_immediately),
        a is EvaluateSetConditions || a is EvaluateSystemConditions || a is RunSystem,
        o.spec_current() < o.spec_system_count(),
    ensures
        n.spec_current() >= o.spec_current(),
{
    let from = o.spec_current() + 1;
    if from <= o.spec_system_count() {
        lemma_first_pending(n.spec_completed(), from, n.spec_system_count() as int);
    }
}

/// Every set above a system lists that system among the systems below it.
pub open spec fn sets_list_members(c: RunnerCore) -> bool {
    forall|i: int, s: usize|
        0 <= i < c.spec_system_count() && #[trigger] c.spec_system_sets(i).contains(s)
            ==> c.spec_set_systems(s as int).contains(i as usize)
}

/// How far a pass has come: every system before the one it is at has
/// completed; so has that one once its own conditions were asked about, or
/// once a set above it failed; and once the pass has gone past the last
/// system, every system has. The sets still to be asked about lie above the
/// current system.
pub open spec fn pass_invariant(c: RunnerCore) -> bool {
    let done = c.spec_completed();
    let cur = c.spec_current();
    match c.spec_stage() {
        RunnerStage::Ready => true,
        RunnerStage::SetConditions => {
            &&& forall|j: usize| j < cur ==> #[trigger] done.contains(j)
            &&& !c.spec_should_run() ==> done.contains(cur)
            &&& forall|k: int|
                0 <= k < c.spec_pending().len() ==> c.spec_system_sets(cur as int).contains(
                    #[trigger] c.spec_pending()[k],
                )
        },
        RunnerStage::SystemConditions => forall|j: usize| j < cur ==> #[trigger] done.contains(j),
        RunnerStage::Running | RunnerStage::Polling | RunnerStage::Applying => forall|j: usize|
            j <= cur ==> #[trigger] done.contains(j),
        RunnerStage::FinalPolling | RunnerStage::FinalApplying | RunnerStage::Finished => forall|
            j: usize,
        |
            j < c.spec_system_count() ==> #[trigger] done.contains(j),
    }
}

/// A runner that has turned, from `from` on, to the next system that has not
/// completed, with every system before `from` completed, stands where a pass
/// stands.
proof fn lemma_scanned_keeps_pass(
    n: RunnerCore,
    completed: Set<usize>,
    visited: Set<usize>,
    from: int,
    apply_immediately: bool,
    a: RunnerAction,
)
    requires
        RunnerCore::scanned(n, completed, visited, from, apply_immediately, a),
        0 <= from <= n.spec_system_count(),
        forall|j: usize| j < from ==> #[trigger] completed.contains(j),
    ensures
        pass_invariant(n),
{
    lemma_first_pending(completed, from, n.spec_system_count() as int);
    let i = first_pending(completed, from, n.spec_system_count() as int);
    assert forall|j: usize| j < i implies #[trigger] completed.contains(j) by {
        if j >= from {
        }
    }
    if i < n.spec_system_count() {
        assert forall|k: int| 0 <= k < n.spec_pending().len() implies n.spec_system_sets(
            n.spec_current() as int,
        ).contains(#[trigger] n.spec_pending()[k]) by {
            assert(n.spec_pending().contains(n.spec_pending()[k]));
            assert(n.spec_system_sets(i).difference(visited).contains(n.spec_pending()[k]));
        }
    }
}

/// No system's buffers are lost: every system whose buffers wait to be
/// applied before a step still waits after it or is handed out by it; a
/// system that has just run joins those that wait or is handed out at once;
/// what a step hands out comes in ascending order and is only what waited or
/// the system that just ran; and when buffers are asked for, exactly the
/// systems that waited are handed out, and none waits any more.
pub proof fn lemma_buffers_never_dropped(
    o: RunnerCore,
    e: RunnerEvent,
    n: RunnerCore,
    a: RunnerAction,
    apply_immediately: bool,
)
    requires
        RunnerCore::step_relation(o, e, n, a, apply_immediately),
    ensures
        forall|x: usize|
            #[trigger] o.spec_unapplied().contains(x) ==> n.spec_unapplied().contains(x) || (a matches RunnerAction::ApplyBuffers(
                v,
            ) && v@.contains(x)),
        o.spec_stage() == RunnerStage::Running && e == RunnerEvent::SystemRan ==> n.spec_unapplied().contains(
            o.spec_current(),
        ) || (a matches RunnerAction::ApplyBuffers(v) && v@.contains(o.spec_current())),
        a matches RunnerAction::ApplyBuffers(v) ==> forall|i: int, j: int| 0 <= i < j < v@.len() ==> v@[i] < v@[j],
        a matches RunnerAction::ApplyBuffers(v) ==> forall|x: usize|
            #[trigger] v@.contains(x) ==> o.spec_unapplied().contains(x) || (o.spec_stage() == RunnerStage::Running
                && x == o.spec_current()),
        (o.spec_stage() == RunnerStage::Polling || o.spec_stage() == RunnerStage::FinalPolling) && e
            == RunnerEvent::ApplyBuffersRequested(true) ==> n.spec_unapplied() == Set::<usize>::empty() && (
        a matches RunnerAction::ApplyBuffers(v) && forall|x: usize|
            #[trigger] v@.contains(x) <==> o.spec_unapplied().contains(x)),
{
    if let RunnerAction::ApplyBuffers(v) = a {
        if o.spec_stage() == RunnerStage::Running {
            assert(v@ == seq![o.spec_current()]);
            assert(v@[0] == o.spec_current());
            assert(v@.contains(o.spec_current()));
        }
    }
}

/// A pass keeps track of how far it has come: if every set lists the
/// systems below it, a step from a runner that stands where a pass stands
/// leads to one that does too. So when a pass is over, every system has
/// completed, run or skipped, and none is left out.
pub proof fn lemma_step_keeps_pass(
    o: RunnerCore,
    e: RunnerEvent,
    n: RunnerCore,
    a: RunnerAction,
    apply_immediately: bool,
)
    requires
        RunnerCore::step_relation(o, e, n, a, apply_immediately),
        o.wf(),
        sets_list_members(o),
        pass_invariant(o),
    ensures
        pass_invariant(n),
        sets_list_members(n),
        n.spec_stage() == RunnerStage::Finished ==> forall|j: usize|
            j < n.spec_system_count() ==> #[trigger] n.spec_completed().contains(j),
{
    let cur = o.spec_current();
    assert forall|i: int, s: usize| 0 <= i < n.spec_system_count() && #[trigger] n.spec_system_sets(i).contains(s)
        implies n.spec_set_systems(s as int).contains(i as usize) by {
        assert(o.spec_system_sets(i) == n.spec_system_sets(i));
        assert(o.spec_system_sets(i).contains(s));
        assert(s < o.spec_set_count()) by {
            assert(o.config_ok());
        }
        assert(o.spec_set_systems(s as int) == n.spec_set_systems(s as int));
    }
    match (o.spec_stage(), e) {
        (RunnerStage::SetConditions, RunnerEvent::ConditionsMet(met)) => {
            let s = o.spec_pending()[o.spec_pos() as int];
            assert(o.spec_system_sets(cur as int).contains(s));
            let completed = if met {
                o.spec_completed()
            } else {
                o.spec_completed().union(o.spec_set_systems(s as int))
            };
            assert(!met ==> completed.contains(cur));
            let pos = o.spec_pos() + 1;
            if pos < o.spec_pending().len() {
                assert(n.spec_system_sets(cur as int) == o.spec_system_sets(cur as int));
            } else if o.spec_should_run() && met {
            } else {
                assert(completed.contains(cur));
                lemma_scanned_keeps_pass(n, completed, o.spec_visited(), cur + 1, apply_immediately, a);
            }
        },
        (RunnerStage::SystemConditions, RunnerEvent::ConditionsMet(met)) => {
            let completed = o.spec_completed().insert(cur);
            if !met {
                lemma_scanned_keeps_pass(n, completed, o.spec_visited(), cur + 1, apply_immediately, a);
            }
        },
        (RunnerStage::Polling, RunnerEvent::ApplyBuffersRequested(flag)) => {
            if !flag {
                lemma_scanned_keeps_pass(
                    n,
                    o.spec_completed(),
                    o.spec_visited(),
                    cur + 1,
                    apply_immediately,
                    a,
                );
            }
        },
        (RunnerStage::Applying, RunnerEvent::BuffersApplied) => {
            lemma_scanned_keeps_pass(
                n,
                o.spec_completed(),
                o.spec_visited(),
                cur + 1,
                apply_immediately,
                a,
            );
        },
        _ => {},
    }
}

/// A pass that starts, with every set listing the systems below it, stands
/// where a pass stands.
pub proof fn lemma_start_keeps_pass(
    n: RunnerCore,
    completed: Set<usize>,
    visited: Set<usize>,
    apply_immediately: bool,
    a: RunnerAction,
)
    requires
        RunnerCore::scanned(n, completed, visited, 0, apply_immediately, a),
    ensures
        pass_invariant(n),
{
    lemma_scanned_keeps_pass(n, completed, visited, 0, apply_immediately, a);
}

/// Runs the systems of a set on one thread, one after the other, and applies
/// their buffers when asked to, in system order.
pub struct SingleThreadedRunner {
    core: RunnerCore,
}

impl SingleThreadedRunner {
    /// The state of the runner.
    pub closed spec fn spec_core(&self) -> RunnerCore {
        self.core
    }

    pub open spec fn wf(&self) -> bool {
        self.spec_core().wf()
    }

    /// A runner over the given sets above each system and systems below each
    /// set, where every set above a system is one of the sets.
    pub fn with(system_sets: Vec<FixedBitSet>, set_systems: Vec<FixedBitSet>) -> (r: Self)
        requires
            forall|i: int, s: usize|
                0 <= i < system_sets@.len() && #[trigger] bitset_ones(system_sets@[i]).contains(s)
                    ==> s < set_systems@.len(),
        ensures
            r.wf(),
            r.spec_core().spec_stage() == RunnerStage::Ready,
            r.spec_core().spec_system_count() == system_sets@.len(),
            r.spec_core().spec_set_count() == set_systems@.len(),
            forall|i: int|
                0 <= i < system_sets@.len() ==> #[trigger] r.spec_core().spec_system_sets(i)
                    == bitset_ones(system_sets@[i]),
            forall|s: int|
                0 <= s < set_systems@.len() ==> #[trigger] r.spec_core().spec_set_systems(s)
                    == bitset_ones(set_systems@[s]),
            r.spec_core().spec_visited() == Set::<usize>::empty(),
            r.spec_core().spec_completed() == Set::<usize>::empty(),
            r.spec_core().spec_unapplied() == Set::<usize>::empty(),
    {
        SingleThreadedRunner { core: RunnerCore::new(system_sets, set_systems) }
    }

    /// Starts a pass over the systems and says what to do first.
    pub fn run(&mut self) -> (r: RunnerAction)
        requires
            old(self).wf(),
        ensures
            final(self).wf(),
            final(self).spec_core().spec_stage() != RunnerStage::Ready,
            RunnerCore::same_config(old(self).spec_core(), final(self).spec_core()),
            final(self).spec_core().spec_unapplied() == old(self).spec_core().spec_unapplied(),
            RunnerCore::scanned(
                final(self).spec_core(),
                old(self).spec_core().spec_completed(),
                old(self).spec_core().spec_visited(),
                0,
                false,
                r,
            ),
    {
        self.core.start(false)
    }

    /// Takes in what came of the last action and says what to do next.
    pub fn step(&mut self, event: RunnerEvent) -> (r: RunnerAction)
        requires
            old(self).wf(),
            RunnerCore::expects(old(self).spec_core().spec_stage(), event),
        ensures
            final(self).wf(),
            RunnerCore::step_relation(old(self).spec_core(), event, final(self).spec_core(), r, false),
    {
        self.core.step(event, false)
    }
}

/// Runs the systems of a set on one thread, one after the other, and applies
/// each system's buffers right after it runs.
pub struct SimpleRunner {
    core: RunnerCore,
}

impl SimpleRunner {
    /// The state of the runner.
    pub closed spec fn spec_core(&self) -> RunnerCore {
        self.core
    }

    /// The state is consistent, and the runner never waits on a request to
    /// apply buffers.
    pub open spec fn wf(&self) -> bool {
        &&& self.spec_core().wf()
        &&& self.spec_core().spec_stage() != RunnerStage::Polling
        &&& self.spec_core().spec_stage() != RunnerStage::FinalPolling
        &&& self.spec_core().spec_stage() != RunnerStage::FinalApplying
    }

    /// A runner over the given sets above each system and systems below each
    /// set, where every set above a system is one of the sets.
    pub fn with(system_sets: Vec<FixedBitSet>, set_systems: Vec<FixedBitSet>) -> (r: Self)
        requires
            forall|i: int, s: usize|
                0 <= i < system_sets@.len() && #[trigger] bitset_ones(system_sets@[i]).contains(s)
                    ==> s < set_systems@.len(),
        ensures
            r.wf(),
            r.spec_core().spec_stage() == RunnerStage::Ready,
            r.spec_core().spec_system_count() == system_sets@.len(),
            r.spec_core().spec_set_count() == set_systems@.len(),
            forall|i: int|
                0 <= i < system_sets@.len() ==> #[trigger] r.spec_core().spec_system_sets(i)
                    == bitset_ones(system_sets@[i]),
            forall|s: int|
                0 <= s < set_systems@.len() ==> #[trigger] r.spec_core().spec_set_systems(s)
                    == bitset_ones(set_systems@[s]),
            r.spec_core().spec_visited() == Set::<usize>::empty(),
            r.spec_core().spec_completed() == Set::<usize>::empty(),
    {
        SimpleRunner { core: RunnerCore::new(system_sets, set_systems) }
    }

    /// Starts a pass over the systems and says what to do first.
    pub fn run(&mut self) -> (r: RunnerAction)
        requires
            old(self).wf(),
        ensures
            final(self).wf(),
            final(self).spec_core().spec_stage() != RunnerStage::Ready,
            RunnerCore::same_config(old(self).spec_core(), final(self).spec_core()),
            RunnerCore::scanned(
                final(self).spec_core(),
                old(self).spec_core().spec_completed(),
                old(self).spec_core().spec_visited(),
                0,
                true,
                r,
            ),
    {
        self.core.start(true)
    }

    /// Takes in what came of the last action and says what to do next.
    pub fn step(&mut self, event: RunnerEvent) -> (r: RunnerAction)
        requires
            old(self).wf(),
            RunnerCore::expects(old(self).spec_core().spec_stage(), event),
        ensures
            final(self).wf(),
            RunnerCore::step_relation(old(self).spec_core(), event, final(self).spec_core(), r, true),
    {
        self.core.step(event, true)
    }
}

/// The request, made from within a system, that the runner apply the
/// buffers of every system that has run and whose buffers are not applied.
#[derive(Debug, Clone, Copy, PartialEq, Eq)]
pub struct RunnerApplyBuffers(pub bool);

impl Default for RunnerApplyBuffers {
    /// No request.
    fn default() -> (r: Self)
        ensures
            !r.0,
    {
        RunnerApplyBuffers(false)
    }
}

/// Asks the runner to apply the buffers of the systems that have run. A
/// request still pending means that buffers were not applied when they
/// should have been, and is refused.
pub fn apply_buffers(request: &mut RunnerApplyBuffers)
    requires
        !old(request).0,
    ensures
        final(request).0,
{
    request.0 = true;
}

} // verus!
