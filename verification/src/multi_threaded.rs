//! The bookkeeping of a runner that runs systems concurrently: which systems
//! are ready, running and completed, how many of its dependencies each system
//! still waits for, and which accesses the running systems hold. Spawning
//! tasks and waiting for them is left to the caller, who reports what
//! started and what finished.

use fixedbitset::FixedBitSet;
use vstd::prelude::*;

use crate::access::{spec_is_compatible, Access};
use crate::archetype::ArchetypeComponentId;
use crate::bitset::{
    ascending_listing, bitset_clear, bitset_contains, bitset_count_ones, bitset_grow, bitset_len,
    bitset_length, bitset_new, bitset_ones, bitset_ones_vec, bitset_set, bitset_wf,
};

verus! {

/// How often `x` occurs in `s`.
pub open spec fn occurrences(s: Seq<usize>, x: usize) -> nat
    decreases s.len(),
{
    if s.len() == 0 {
        0
    } else {
        occurrences(s.drop_last(), x) + if s.last() == x {
            1nat
        } else {
            0nat
        }
    }
}

/// How many dependency signals `x` still waits for: its occurrences among
/// the dependents of the first `k` systems that have not completed.
pub open spec fn pending(deps: Seq<Seq<usize>>, completed: Set<usize>, x: usize, k: nat) -> nat
    decreases k,
{
    if k == 0 {
        0
    } else {
        let rest = pending(deps, completed, x, (k - 1) as nat);
        if completed.contains((k - 1) as usize) {
            rest
        } else {
            rest + occurrences(deps[k - 1], x)
        }
    }
}

/// Completing one more system takes its dependents off what is pending.
proof fn lemma_pending_complete(
    deps: Seq<Seq<usize>>,
    completed: Set<usize>,
    j: usize,
    x: usize,
    k: nat,
)
    requires
        !completed.contains(j),
        k <= usize::MAX,
    ensures
        pending(deps, completed, x, k) == pending(deps, completed.insert(j), x, k) + if j < k {
            occurrences(deps[j as int], x)
        } else {
            0nat
        },
    decreases k,
{
    if k > 0 {
        lemma_pending_complete(deps, completed, j, x, (k - 1) as nat);
    }
}

/// With nothing completed, what is pending is every occurrence.
proof fn lemma_pending_zero_means_no_waiting(
    deps: Seq<Seq<usize>>,
    completed: Set<usize>,
    x: usize,
    k: nat,
)
    requires
        pending(deps, completed, x, k) == 0,
    ensures
        forall|j: usize| j < k && !completed.contains(j) ==> occurrences(#[trigger] deps[j as int], x) == 0,
    decreases k,
{
    if k > 0 {
        lemma_pending_zero_means_no_waiting(deps, completed, x, (k - 1) as nat);
    }
}

/// A prefix holds no more occurrences than the whole.
proof fn lemma_occurrences_prefix(s: Seq<usize>, x: usize, k: int)
    requires
        0 <= k <= s.len(),
    ensures
        occurrences(s.subrange(0, k), x) <= occurrences(s, x),
        k < s.len() ==> occurrences(s.subrange(0, k + 1), x) == occurrences(s.subrange(0, k), x)
            + if s[k] == x {
            1nat
        } else {
            0nat
        },
    decreases s.len(),
{
    if k < s.len() {
        assert(s.subrange(0, k + 1).drop_last() =~= s.subrange(0, k));
        lemma_occurrences_prefix(s.drop_last(), x, k);
        if k < s.len() - 1 {
            assert(s.drop_last().subrange(0, k) =~= s.subrange(0, k));
            assert(s.drop_last().subrange(0, k + 1) =~= s.subrange(0, k + 1));
        } else {
            assert(s.drop_last() =~= s.subrange(0, k));
            assert(s.subrange(0, k + 1) =~= s);
        }
    } else {
        assert(s.subrange(0, k) =~= s);
    }
}

/// An element occurs in a sequence when its count is positive.
proof fn lemma_occurrences_contains(s: Seq<usize>, x: usize)
    ensures
        occurrences(s, x) > 0 <==> s.contains(x),
    decreases s.len(),
{
    if s.len() > 0 {
        lemma_occurrences_contains(s.drop_last(), x);
        if s.drop_last().contains(x) {
            let i = choose|i: int| 0 <= i < s.drop_last().len() && s.drop_last()[i] == x;
            assert(s[i] == x);
        }
        if s.contains(x) {
            let i = choose|i: int| 0 <= i < s.len() && s[i] == x;
            if i < s.len() - 1 {
                assert(s.drop_last()[i] == x);
            }
        }
    }
}

/// The bookkeeping of the concurrent runner for one schedule.
pub struct MultiThreadedRunner {
    /// For each system, the systems that directly depend on it.
    dependents: Vec<Vec<usize>>,
    /// For each system, the number of its dependencies.
    dependencies_total: Vec<usize>,
    /// For each system, the number of its dependencies not completed.
    dependencies_remaining: Vec<usize>,
    /// For each system, the access it holds while it runs.
    archetype_component_access: Vec<Access<ArchetypeComponentId>>,
    /// For each system, whether it touches data of one thread only.
    non_send_access: Vec<bool>,
    /// The union of the accesses of the running systems.
    active_archetype_component_access: Access<ArchetypeComponentId>,
    /// Whether a system that touches data of one thread only is running.
    non_send_task_running: bool,
    /// Sets whose conditions have been evaluated or skipped.
    visited_sets: FixedBitSet,
    /// Systems with no dependency left that wait to run.
    ready_systems: FixedBitSet,
    /// Systems that are running.
    running_systems: FixedBitSet,
    /// Systems that have completed (run, or skipped).
    completed_systems: FixedBitSet,
    /// Systems that have run and whose buffers have not been applied.
    unapplied_systems: FixedBitSet,
}

impl MultiThreadedRunner {
    /// The number of systems.
    pub closed spec fn spec_count(&self) -> nat {
        self.dependents@.len()
    }

    /// The dependents of each system.
    pub closed spec fn spec_dependents(&self) -> Seq<Seq<usize>> {
        self.dependents@.map_values(|d: Vec<usize>| d@)
    }

    pub closed spec fn spec_total(&self, i: int) -> usize {
        self.dependencies_total@[i]
    }

    pub closed spec fn spec_remaining(&self, i: int) -> usize {
        self.dependencies_remaining@[i]
    }

    /// The access that system `i` holds while it runs.
    pub closed spec fn spec_system_access(&self, i: int) -> Access<ArchetypeComponentId> {
        self.archetype_component_access@[i]
    }

    pub closed spec fn spec_non_send(&self, i: int) -> bool {
        self.non_send_access@[i]
    }

    pub closed spec fn spec_non_send_running(&self) -> bool {
        self.non_send_task_running
    }

    pub closed spec fn spec_active(&self) -> Access<ArchetypeComponentId> {
        self.active_archetype_component_access
    }

    pub closed spec fn spec_visited(&self) -> Set<usize> {
        bitset_ones(self.visited_sets)
    }

    pub closed spec fn spec_visited_len(&self) -> nat {
        bitset_len(self.visited_sets)
    }

    pub closed spec fn spec_ready(&self) -> Set<usize> {
        bitset_ones(self.ready_systems)
    }

    pub closed spec fn spec_running(&self) -> Set<usize> {
        bitset_ones(self.running_systems)
    }

    pub closed spec fn spec_completed(&self) -> Set<usize> {
        bitset_ones(self.completed_systems)
    }

    pub closed spec fn spec_completed_len(&self) -> nat {
        bitset_len(self.completed_systems)
    }

    pub closed spec fn spec_unapplied(&self) -> Set<usize> {
        bitset_ones(self.unapplied_systems)
    }

    /// The parts of the bookkeeping line up, and the bit sets hold the
    /// systems' bits.
    pub closed spec fn shape_ok(&self) -> bool {
        let n = self.dependents@.len();
        &&& self.dependencies_total@.len() == n
        &&& self.dependencies_remaining@.len() == n
        &&& self.archetype_component_access@.len() == n
        &&& self.non_send_access@.len() == n
        &&& forall|i: int| 0 <= i < n ==> (#[trigger] self.archetype_component_access@[i]).wf()
        &&& self.active_archetype_component_access.wf()
        &&& bitset_wf(self.visited_sets)
        &&& bitset_wf(self.ready_systems)
        &&& bitset_wf(self.running_systems)
        &&& bitset_wf(self.completed_systems)
        &&& bitset_wf(self.unapplied_systems)
        &&& bitset_len(self.ready_systems) >= n
        &&& bitset_len(self.running_systems) >= n
        &&& bitset_len(self.completed_systems) >= n
        &&& bitset_len(self.unapplied_systems) >= n
        &&& n <= usize::MAX
    }

    /// Nothing is ready, running or completed.
    pub closed spec fn idle(&self) -> bool {
        &&& self.shape_ok()
        &&& self.spec_ready() == Set::<usize>::empty()
        &&& self.spec_running() == Set::<usize>::empty()
        &&& self.spec_completed() == Set::<usize>::empty()
    }

    /// During a pass: every dependent is a system, each system waits for
    /// exactly the dependency signals still pending, a ready system waits
    /// for none, and ready, running and completed systems are apart.
    pub closed spec fn wf(&self) -> bool {
        let n = self.dependents@.len();
        let deps = self.spec_dependents();
        &&& self.shape_ok()
        &&& forall|i: int, k: int|
            0 <= i < n && 0 <= k < deps[i].len() ==> (#[trigger] deps[i][k]) < n
        &&& forall|x: usize|
            x < n ==> self.dependencies_remaining@[x as int] == #[trigger] pending(
                deps,
                self.spec_completed(),
                x,
                n,
            )
        &&& forall|x: usize|
            #[trigger] self.spec_ready().contains(x) ==> x < n && self.dependencies_remaining@[x as int]
                == 0 && !self.spec_completed().contains(x) && !self.spec_running().contains(x)
        &&& forall|x: usize|
            #[trigger] self.spec_running().contains(x) ==> x < n && !self.spec_completed().contains(x)
                && self.dependencies_remaining@[x as int] == 0
        &&& forall|x: usize| #[trigger] self.spec_completed().contains(x) ==> x < n
    }

    /// A runner for no systems.
    pub fn new() -> (r: Self)
        ensures
            r.idle(),
            r.spec_count() == 0,
            r.spec_unapplied() == Set::<usize>::empty(),
            r.spec_visited() == Set::<usize>::empty(),
            !r.spec_non_send_running(),
    {
        MultiThreadedRunner {
            dependents: Vec::new(),
            dependencies_total: Vec::new(),
            dependencies_remaining: Vec::new(),
            archetype_component_access: Vec::new(),
            non_send_access: Vec::new(),
            active_archetype_component_access: Access::default(),
            non_send_task_running: false,
            visited_sets: bitset_new(),
            ready_systems: bitset_new(),
            running_systems: bitset_new(),
            completed_systems: bitset_new(),
            unapplied_systems: bitset_new(),
        }
    }
}

/// The number of dependencies of each system is the number of times it is
/// named as a dependent, and every dependent is a system.
pub open spec fn deps_consistent(system_deps: Seq<(usize, Vec<usize>)>) -> bool {
    let deps = system_deps.map_values(|d: (usize, Vec<usize>)| d.1@);
    &&& forall|i: int, k: int|
        0 <= i < deps.len() && 0 <= k < deps[i].len() ==> (#[trigger] deps[i][k]) < deps.len()
    &&& forall|x: usize|
        x < system_deps.len() ==> system_deps[x as int].0 == #[trigger] pending(
            deps,
            Set::<usize>::empty(),
            x,
            deps.len(),
        )
}

impl MultiThreadedRunner {
    /// Prepares the bookkeeping for a schedule: for each system, its number
    /// of dependencies and its dependents, and whether it touches data of
    /// one thread only. Every system waits for all its dependencies, and
    /// none holds any access yet.
    pub fn init(&mut self, system_deps: &Vec<(usize, Vec<usize>)>, non_send: &Vec<bool>, set_count: usize)
        requires
            old(self).idle(),
            non_send@.len() == system_deps@.len(),
            deps_consistent(system_deps@),
        ensures
            final(self).wf(),
            final(self).spec_count() == system_deps@.len(),
            final(self).spec_dependents() == system_deps@.map_values(|d: (usize, Vec<usize>)| d.1@),
            forall|i: int|
                0 <= i < system_deps@.len() ==> #[trigger] final(self).spec_total(i) == system_deps@[i].0
                    && final(self).spec_remaining(i) == system_deps@[i].0 && final(self).spec_non_send(i)
                    == non_send@[i],
            final(self).spec_completed() == Set::<usize>::empty(),
            final(self).spec_ready() == Set::<usize>::empty(),
            final(self).spec_running() == Set::<usize>::empty(),
            final(self).spec_visited_len() >= set_count,
            final(self).spec_active() == old(self).spec_active(),
            final(self).spec_non_send_running() == old(self).spec_non_send_running(),
    {
        let n = system_deps.len();
        bitset_grow(&mut self.visited_sets, set_count);
        bitset_grow(&mut self.ready_systems, n);
        bitset_grow(&mut self.running_systems, n);
        bitset_grow(&mut self.completed_systems, n);
        bitset_grow(&mut self.unapplied_systems, n);
        let mut dependents: Vec<Vec<usize>> = Vec::new();
        let mut totals: Vec<usize> = Vec::new();
        let mut accesses: Vec<Access<ArchetypeComponentId>> = Vec::new();
        let mut flags: Vec<bool> = Vec::new();
        let mut i: usize = 0;
        while i < n
            invariant
                i <= n,
                n == system_deps@.len(),
                non_send@.len() == n,
                dependents@.len() == i,
                totals@.len() == i,
                accesses@.len() == i,
                flags@.len() == i,
                forall|j: int| 0 <= j < i ==> (#[trigger] dependents@[j])@ == system_deps@[j].1@,
                forall|j: int| 0 <= j < i ==> #[trigger] totals@[j] == system_deps@[j].0,
                forall|j: int| 0 <= j < i ==> (#[trigger] accesses@[j]).wf(),
                forall|j: int| 0 <= j < i ==> #[trigger] flags@[j] == non_send@[j],
            decreases n - i,
        {
            dependents.push(system_deps[i].1.clone());
            totals.push(system_deps[i].0);
            accesses.push(Access::default());
            flags.push(non_send[i]);
            i = i + 1;
        }
        self.dependents = dependents;
        self.dependencies_remaining = totals.clone();
        self.dependencies_total = totals;
        self.archetype_component_access = accesses;
        self.non_send_access = flags;
        proof {
            assert(self.spec_dependents() =~= system_deps@.map_values(|d: (usize, Vec<usize>)| d.1@));
        }
    }

    /// Starts a pass: every system without dependencies is ready.
    pub fn start(&mut self)
        requires
            old(self).wf(),
            old(self).spec_completed() == Set::<usize>::empty(),
            old(self).spec_running() == Set::<usize>::empty(),
            forall|i: int| 0 <= i < old(self).spec_count() ==> old(self).spec_remaining(i) == old(self).spec_total(i),
        ensures
            final(self).wf(),
            final(self).spec_count() == old(self).spec_count(),
            final(self).spec_dependents() == old(self).spec_dependents(),
            forall|x: usize|
                #[trigger] final(self).spec_ready().contains(x) <==> (old(self).spec_ready().contains(x)
                    || (x < old(self).spec_count() && old(self).spec_total(x as int) == 0)),
            final(self).spec_completed() == old(self).spec_completed(),
            final(self).spec_running() == old(self).spec_running(),
            final(self).spec_unapplied() == old(self).spec_unapplied(),
    {
        let n = self.dependents.len();
        let mut i: usize = 0;
        while i < n
            invariant
                i <= n,
                n == self.dependents@.len(),
                self.wf(),
                self.spec_dependents() == old(self).spec_dependents(),
                self.dependencies_total@ == old(self).dependencies_total@,
                self.dependencies_remaining@ == old(self).dependencies_remaining@,
                forall|j: int| 0 <= j < n ==> old(self).spec_remaining(j) == old(self).spec_total(j),
                forall|x: usize|
                    #[trigger] self.spec_ready().contains(x) <==> (old(self).spec_ready().contains(x)
                        || (x < i && old(self).spec_total(x as int) == 0)),
                self.spec_completed() == Set::<usize>::empty(),
                self.spec_running() == Set::<usize>::empty(),
                self.spec_unapplied() == old(self).spec_unapplied(),
            decreases n - i,
        {
            let ghost before = *self;
            let ghost ready0 = self.spec_ready();
            if self.dependencies_total[i] == 0 {
                bitset_set(&mut self.ready_systems, i, true);
            }
            proof {
                assert(self.spec_ready() == if before.dependencies_total@[i as int] == 0 {
                    ready0.insert(i)
                } else {
                    ready0
                });
                assert forall|x: usize| #[trigger] self.spec_ready().contains(x) <==> (old(self).spec_ready().contains(x)
                    || (x < i + 1 && old(self).spec_total(x as int) == 0)) by {
                    assert(ready0.contains(x) <==> (old(self).spec_ready().contains(x) || (x < i
                        && old(self).spec_total(x as int) == 0)));
                }
                assert(self.spec_completed() == before.spec_completed());
                assert(self.spec_running() == before.spec_running());
                assert(self.spec_dependents() == before.spec_dependents());
                assert forall|x: usize| #[trigger] self.spec_ready().contains(x) implies x < self.dependents@.len()
                    && self.dependencies_remaining@[x as int] == 0 && !self.spec_completed().contains(x)
                    && !self.spec_running().contains(x) by {
                    if ready0.contains(x) {
                        assert(before.spec_ready().contains(x));
                    }
                }
                assert(self.wf());
            }
            i = i + 1;
        }
    }

    /// The first ready system, if any.
    pub fn next_ready(&self) -> (r: Option<usize>)
        requires
            self.wf(),
        ensures
            r is None <==> self.spec_ready() == Set::<usize>::empty(),
            r matches Some(i) ==> self.spec_ready().contains(i) && forall|j: usize|
                j < i ==> !#[trigger] self.spec_ready().contains(j),
    {
        let ones = bitset_ones_vec(&self.ready_systems);
        if ones.len() == 0 {
            proof {
                assert forall|x: usize| !self.spec_ready().contains(x) by {
                    if self.spec_ready().contains(x) {
                        assert(ones@.contains(x));
                    }
                }
                assert(self.spec_ready() =~= Set::<usize>::empty());
            }
            None
        } else {
            proof {
                assert(ones@.contains(ones@[0]));
                assert forall|j: usize| j < ones@[0] implies !#[trigger] self.spec_ready().contains(j) by {
                    if self.spec_ready().contains(j) {
                        let k = choose|k: int| 0 <= k < ones@.len() && ones@[k] == j;
                        if k > 0 {
                            assert(ones@[0] < ones@[k]);
                        }
                    }
                }
            }
            proof {
                assert(self.spec_ready().contains(ones@[0]));
                assert(!Set::<usize>::empty().contains(ones@[0]));
                assert(self.spec_ready() != Set::<usize>::empty());
            }
            Some(ones[0])
        }
    }

    /// Whether the system can start now, given its access together with
    /// that of its conditions and of the conditions of the sets above it not
    /// yet visited: not while another system touching data of one thread
    /// only runs, if it does too, and only if its access is compatible with
    /// that of the running systems.
    pub fn system_can_run(&self, index: usize, access: &Access<ArchetypeComponentId>) -> (r: bool)
        requires
            self.wf(),
            index < self.spec_count(),
            access.wf(),
            !self.spec_active().spec_writes_all(),
        ensures
            r == (!(self.spec_non_send_running() && self.spec_non_send(index as int))
                && spec_is_compatible(*access, self.spec_active())),
    {
        if self.non_send_task_running && self.non_send_access[index] {
            return false;
        }
        access.is_compatible(&self.active_archetype_component_access)
    }

    /// Marks a set as visited; returns whether it had not been.
    pub fn visit_set(&mut self, set_idx: usize) -> (r: bool)
        requires
            old(self).wf(),
            set_idx < old(self).spec_visited_len(),
        ensures
            final(self).wf(),
            r == !old(self).spec_visited().contains(set_idx),
            final(self).spec_visited() == old(self).spec_visited().insert(set_idx),
            final(self).spec_visited_len() == old(self).spec_visited_len(),
            final(self).spec_completed() == old(self).spec_completed(),
            final(self).spec_ready() == old(self).spec_ready(),
            final(self).spec_running() == old(self).spec_running(),
            final(self).spec_count() == old(self).spec_count(),
            final(self).spec_dependents() == old(self).spec_dependents(),
    {
        if bitset_contains(&self.visited_sets, set_idx) {
            proof {
                assert(self.spec_visited().insert(set_idx) =~= self.spec_visited());
            }
            false
        } else {
            let ghost before = *self;
            bitset_set(&mut self.visited_sets, set_idx, true);
            proof {
                assert(self.dependents == before.dependents);
                assert(self.ready_systems == before.ready_systems);
                assert(self.spec_ready() == before.spec_ready());
                assert(self.spec_completed() == before.spec_completed());
                assert(self.spec_running() == before.spec_running());
                assert(self.spec_dependents() == before.spec_dependents());
                assert(self.shape_ok());
                assert(self.wf());
            }
            true
        }
    }
}

impl MultiThreadedRunner {
    /// Takes the completion of `index`, already marked, off the counters of
    /// its dependents; a dependent left waiting for nothing and not
    /// completed becomes ready.
    fn signal_dependents(&mut self, index: usize)
        requires
            old(self).shape_ok(),
            index < old(self).dependents@.len(),
            old(self).spec_completed().contains(index),
            forall|i: int, k: int|
                0 <= i < old(self).dependents@.len() && 0 <= k < old(self).spec_dependents()[i].len()
                    ==> (#[trigger] old(self).spec_dependents()[i][k]) < old(self).dependents@.len(),
            forall|x: usize|
                x < old(self).dependents@.len() ==> old(self).dependencies_remaining@[x as int]
                    == #[trigger] pending(
                    old(self).spec_dependents(),
                    old(self).spec_completed().remove(index),
                    x,
                    old(self).dependents@.len(),
                ),
            forall|x: usize|
                #[trigger] old(self).spec_ready().contains(x) ==> x < old(self).dependents@.len()
                    && old(self).dependencies_remaining@[x as int] == 0 && !old(self).spec_completed().contains(x)
                    && !old(self).spec_running().contains(x),
            forall|x: usize|
                #[trigger] old(self).spec_running().contains(x) ==> x < old(self).dependents@.len()
                    && !old(self).spec_completed().contains(x) && old(self).dependencies_remaining@[x as int] == 0,
            forall|x: usize| #[trigger] old(self).spec_completed().contains(x) ==> x < old(self).dependents@.len(),
        ensures
            final(self).wf(),
            final(self).dependents == old(self).dependents,
            final(self).dependencies_total == old(self).dependencies_total,
            final(self).archetype_component_access == old(self).archetype_component_access,
            final(self).non_send_access == old(self).non_send_access,
            final(self).active_archetype_component_access == old(self).active_archetype_component_access,
            final(self).non_send_task_running == old(self).non_send_task_running,
            final(self).visited_sets == old(self).visited_sets,
            final(self).running_systems == old(self).running_systems,
            final(self).completed_systems == old(self).completed_systems,
            final(self).unapplied_systems == old(self).unapplied_systems,
            forall|x: usize|
                #[trigger] final(self).spec_ready().contains(x) <==> (old(self).spec_ready().contains(x) || (
                old(self).spec_dependents()[index as int].contains(x) && final(self).dependencies_remaining@[x as int]
                    == 0 && !old(self).spec_completed().contains(x))),
    {
        let ghost deps = self.spec_dependents();
        let ghost c = self.spec_completed();
        let ghost ready0 = self.spec_ready();
        let ghost n = self.dependents@.len();
        let ghost full = deps[index as int];
        proof {
            assert(c.remove(index).insert(index) =~= c);
            assert forall|x: usize| x < n implies self.dependencies_remaining@[x as int] == pending(deps, c, x, n)
                + occurrences(full, x) by {
                lemma_pending_complete(deps, c.remove(index), index, x, n);
            }
        }
        let len = self.dependents[index].len();
        proof {
            assert(self.dependents@[index as int]@ == full);
        }
        let mut k: usize = 0;
        while k < len
            invariant
                self.shape_ok(),
                k <= len,
                len == full.len(),
                n == self.dependents@.len(),
                index < n,
                deps == self.spec_dependents(),
                full == deps[index as int],
                c == self.spec_completed(),
                c.contains(index),
                self.dependents == old(self).dependents,
                self.dependencies_total == old(self).dependencies_total,
                self.archetype_component_access == old(self).archetype_component_access,
                self.non_send_access == old(self).non_send_access,
                self.active_archetype_component_access == old(self).active_archetype_component_access,
                self.non_send_task_running == old(self).non_send_task_running,
                self.visited_sets == old(self).visited_sets,
                self.running_systems == old(self).running_systems,
                self.completed_systems == old(self).completed_systems,
                self.unapplied_systems == old(self).unapplied_systems,
                ready0 == old(self).spec_ready(),
                forall|i: int, kk: int|
                    0 <= i < n && 0 <= kk < deps[i].len() ==> (#[trigger] deps[i][kk]) < n,
                forall|x: usize|
                    x < n ==> self.dependencies_remaining@[x as int] + occurrences(full.subrange(0, k as int), x)
                        == pending(deps, c, x, n) + occurrences(full, x),
                forall|x: usize|
                    #[trigger] self.spec_ready().contains(x) <==> (ready0.contains(x) || (full.subrange(
                        0,
                        k as int,
                    ).contains(x) && self.dependencies_remaining@[x as int] == 0 && !c.contains(x))),
                forall|x: usize|
                    #[trigger] ready0.contains(x) ==> x < n && old(self).dependencies_remaining@[x as int] == 0
                        && !c.contains(x) && !old(self).spec_running().contains(x),
                forall|x: usize|
                    x < n ==> old(self).dependencies_remaining@[x as int] == pending(deps, c, x, n)
                        + occurrences(full, x),
            decreases len - k,
        {
            let dep = self.dependents[index][k];
            proof {
                assert(full[k as int] == dep);
                assert(dep < n);
                lemma_occurrences_prefix(full, dep, k as int);
                lemma_occurrences_prefix(full, dep, k + 1);
                assert(self.dependencies_remaining@[dep as int] + occurrences(full.subrange(0, k as int), dep)
                    == pending(deps, c, dep, n) + occurrences(full, dep));
            }
            let r = self.dependencies_remaining[dep] - 1;
            let ghost before = *self;
            self.dependencies_remaining.set(dep, r);
            let done = bitset_contains(&self.completed_systems, dep);
            if r == 0 && !done {
                bitset_set(&mut self.ready_systems, dep, true);
            }
            proof {
                assert(full.subrange(0, k + 1) =~= full.subrange(0, k as int).push(dep));
                assert forall|x: usize| x < n implies self.dependencies_remaining@[x as int] + occurrences(
                    full.subrange(0, k + 1),
                    x,
                ) == pending(deps, c, x, n) + occurrences(full, x) by {
                    lemma_occurrences_prefix(full, x, k as int);
                }
                assert forall|x: usize| #[trigger] self.spec_ready().contains(x) <==> (ready0.contains(x) || (
                full.subrange(0, k + 1).contains(x) && self.dependencies_remaining@[x as int] == 0 && !c.contains(
                    x,
                ))) by {
                    assert(before.spec_ready().contains(x) <==> (ready0.contains(x) || (full.subrange(
                        0,
                        k as int,
                    ).contains(x) && before.dependencies_remaining@[x as int] == 0 && !c.contains(x))));
                    if full.subrange(0, k + 1).contains(x) && x != dep {
                        let j = choose|j: int| 0 <= j < k + 1 && #[trigger] full.subrange(0, k + 1)[j] == x;
                        assert(full.subrange(0, k as int)[j] == x);
                    }
                    if full.subrange(0, k as int).contains(x) {
                        let j = choose|j: int| 0 <= j < k && #[trigger] full.subrange(0, k as int)[j] == x;
                        assert(full.subrange(0, k + 1)[j] == x);
                    }
                    if x == dep {
                        assert(full.subrange(0, k + 1)[k as int] == x);
                        if ready0.contains(x) {
                            assert(old(self).dependencies_remaining@[x as int] == 0);
                            lemma_occurrences_prefix(full, x, k as int);
                            assert(false);
                        }
                    }
                }
            }
            k = k + 1;
        }
        proof {
            assert(full.subrange(0, len as int) =~= full);
            assert forall|x: usize| #[trigger] self.spec_ready().contains(x) implies x < n
                && self.dependencies_remaining@[x as int] == 0 && !self.spec_completed().contains(x)
                && !self.spec_running().contains(x) by {
                if ready0.contains(x) {
                    assert(old(self).dependencies_remaining@[x as int] == pending(deps, c, x, n) + occurrences(
                        full,
                        x,
                    ));
                } else {
                    let j = choose|j: int| 0 <= j < full.len() && full[j] == x;
                    assert(deps[index as int][j] == x);
                    if self.spec_running().contains(x) {
                        assert(old(self).spec_running().contains(x));
                        assert(old(self).dependencies_remaining@[x as int] == 0);
                        lemma_occurrences_contains(full, x);
                        assert(false);
                    }
                }
            }
            assert forall|x: usize| #[trigger] self.spec_running().contains(x) implies x < n
                && !self.spec_completed().contains(x) && self.dependencies_remaining@[x as int] == 0 by {
                assert(old(self).spec_running().contains(x));
                assert(old(self).dependencies_remaining@[x as int] == 0);
                lemma_occurrences_contains(full, x);
            }
            assert forall|x: usize| x < n implies self.dependencies_remaining@[x as int] == #[trigger] pending(
                deps,
                self.spec_completed(),
                x,
                n,
            ) by {
                assert(self.dependencies_remaining@[x as int] + occurrences(full.subrange(0, len as int), x)
                    == pending(deps, c, x, n) + occurrences(full, x));
            }
            assert(self.wf());
        }
    }

    /// Records that the running system `index` finished: it is completed,
    /// its buffers wait to be applied, and its dependents are signalled.
    pub fn finish_system_and_signal_dependents(&mut self, index: usize)
        requires
            old(self).wf(),
            old(self).spec_running().contains(index),
        ensures
            final(self).wf(),
            final(self).spec_count() == old(self).spec_count(),
            final(self).spec_dependents() == old(self).spec_dependents(),
            final(self).spec_completed() == old(self).spec_completed().insert(index),
            final(self).spec_running() == old(self).spec_running().remove(index),
            final(self).spec_unapplied() == old(self).spec_unapplied().insert(index),
            final(self).spec_visited() == old(self).spec_visited(),
            final(self).spec_active() == old(self).spec_active(),
            final(self).spec_non_send_running() == (old(self).spec_non_send_running() && !old(self).spec_non_send(index as int)),
            forall|x: usize|
                #[trigger] final(self).spec_ready().contains(x) <==> (old(self).spec_ready().contains(x) || (
                old(self).spec_dependents()[index as int].contains(x) && final(self).spec_remaining(x as int) == 0
                    && !final(self).spec_completed().contains(x))),
    {
        let ghost o = *self;
        if self.non_send_access[index] {
            self.non_send_task_running = false;
        }
        bitset_set(&mut self.running_systems, index, false);
        bitset_set(&mut self.completed_systems, index, true);
        bitset_set(&mut self.unapplied_systems, index, true);
        proof {
            assert(self.spec_completed().remove(index) =~= o.spec_completed());
            assert(self.spec_dependents() == o.spec_dependents());
            assert(self.spec_ready() == o.spec_ready());
            assert forall|x: usize| x < self.dependents@.len() implies self.dependencies_remaining@[x as int]
                == #[trigger] pending(self.spec_dependents(), self.spec_completed().remove(index), x, self.dependents@.len()) by {
                assert(o.dependencies_remaining@[x as int] == pending(o.spec_dependents(), o.spec_completed(), x, o.dependents@.len()));
            }
            assert forall|x: usize| #[trigger] self.spec_ready().contains(x) implies x < self.dependents@.len()
                && self.dependencies_remaining@[x as int] == 0 && !self.spec_completed().contains(x)
                && !self.spec_running().contains(x) by {
                assert(o.spec_ready().contains(x));
            }
            assert forall|x: usize| #[trigger] self.spec_running().contains(x) implies x < self.dependents@.len()
                && !self.spec_completed().contains(x) && self.dependencies_remaining@[x as int] == 0 by {
                assert(o.spec_running().contains(x));
            }
            assert forall|x: usize| #[trigger] self.spec_completed().contains(x) implies x < self.dependents@.len() by {
                if x != index {
                    assert(o.spec_completed().contains(x));
                }
            }
        }
        self.signal_dependents(index);
    }

    /// Skips the system `index`, which is neither completed nor running: it
    /// is completed without running, and its dependents are signalled.
    pub fn skip_system_and_signal_dependents(&mut self, index: usize)
        requires
            old(self).wf(),
            index < old(self).spec_count(),
            !old(self).spec_completed().contains(index),
            !old(self).spec_running().contains(index),
        ensures
            final(self).wf(),
            final(self).spec_count() == old(self).spec_count(),
            final(self).spec_dependents() == old(self).spec_dependents(),
            final(self).spec_completed() == old(self).spec_completed().insert(index),
            final(self).spec_running() == old(self).spec_running(),
            final(self).spec_unapplied() == old(self).spec_unapplied(),
            final(self).spec_visited() == old(self).spec_visited(),
            final(self).spec_visited_len() == old(self).spec_visited_len(),
            final(self).spec_active() == old(self).spec_active(),
            final(self).spec_non_send_running() == old(self).spec_non_send_running(),
            forall|x: usize|
                #[trigger] final(self).spec_ready().contains(x) <==> ((old(self).spec_ready().contains(x)
                && x != index) || (old(self).spec_dependents()[index as int].contains(x)
                    && final(self).spec_remaining(x as int) == 0 && !old(self).spec_completed().contains(x)
                    && x != index)),
    {
        let ghost o = *self;
        bitset_set(&mut self.ready_systems, index, false);
        bitset_set(&mut self.completed_systems, index, true);
        let ghost mid = *self;
        proof {
            assert(self.spec_completed().remove(index) =~= o.spec_completed());
            assert(self.spec_dependents() == o.spec_dependents());
            assert(self.spec_running() == o.spec_running());
            assert forall|x: usize| x < self.dependents@.len() implies self.dependencies_remaining@[x as int]
                == #[trigger] pending(self.spec_dependents(), self.spec_completed().remove(index), x, self.dependents@.len()) by {
                assert(o.dependencies_remaining@[x as int] == pending(o.spec_dependents(), o.spec_completed(), x, o.dependents@.len()));
            }
            assert forall|x: usize| #[trigger] self.spec_ready().contains(x) implies x < self.dependents@.len()
                && self.dependencies_remaining@[x as int] == 0 && !self.spec_completed().contains(x)
                && !self.spec_running().contains(x) by {
                assert(o.spec_ready().contains(x));
            }
            assert forall|x: usize| #[trigger] self.spec_running().contains(x) implies x < self.dependents@.len()
                && !self.spec_completed().contains(x) && self.dependencies_remaining@[x as int] == 0 by {
                assert(o.spec_running().contains(x));
            }
            assert forall|x: usize| #[trigger] self.spec_completed().contains(x) implies x < self.dependents@.len() by {
                if x != index {
                    assert(o.spec_completed().contains(x));
                }
            }
        }
        self.signal_dependents(index);
        proof {
            assert forall|x: usize|
                #[trigger] self.spec_ready().contains(x) <==> ((o.spec_ready().contains(x) && x != index) || (
                o.spec_dependents()[index as int].contains(x) && self.spec_remaining(x as int) == 0
                    && !o.spec_completed().contains(x) && x != index)) by {
                assert(mid.spec_ready().contains(x) <==> (o.spec_ready().contains(x) && x != index));
                if self.spec_ready().contains(x) {
                    assert(!self.spec_completed().contains(x));
                }
            }
        }
    }

    /// Starts the ready system `index`: it runs, holding its access.
    pub fn start_system(&mut self, index: usize)
        requires
            old(self).wf(),
            old(self).spec_ready().contains(index),
        ensures
            final(self).wf(),
            final(self).spec_count() == old(self).spec_count(),
            final(self).spec_dependents() == old(self).spec_dependents(),
            final(self).spec_ready() == old(self).spec_ready().remove(index),
            final(self).spec_running() == old(self).spec_running().insert(index),
            final(self).spec_completed() == old(self).spec_completed(),
            final(self).spec_unapplied() == old(self).spec_unapplied(),
            final(self).spec_visited() == old(self).spec_visited(),
            final(self).spec_non_send_running() == (old(self).spec_non_send_running()
                || old(self).spec_non_send(index as int)),
    {
        let ghost o = *self;
        self.active_archetype_component_access.extend(&self.archetype_component_access[index]);
        if self.non_send_access[index] {
            self.non_send_task_running = true;
        }
        bitset_set(&mut self.ready_systems, index, false);
        bitset_set(&mut self.running_systems, index, true);
        proof {
            assert(self.spec_dependents() == o.spec_dependents());
            assert(self.spec_completed() == o.spec_completed());
            assert forall|x: usize| x < self.dependents@.len() implies self.dependencies_remaining@[x as int]
                == #[trigger] pending(self.spec_dependents(), self.spec_completed(), x, self.dependents@.len()) by {
                assert(o.dependencies_remaining@[x as int] == pending(o.spec_dependents(), o.spec_completed(), x, o.dependents@.len()));
            }
            assert forall|x: usize| #[trigger] self.spec_ready().contains(x) implies x < self.dependents@.len()
                && self.dependencies_remaining@[x as int] == 0 && !self.spec_completed().contains(x)
                && !self.spec_running().contains(x) by {
                assert(o.spec_ready().contains(x));
            }
            assert forall|x: usize| #[trigger] self.spec_running().contains(x) implies x < self.dependents@.len()
                && !self.spec_completed().contains(x) && self.dependencies_remaining@[x as int] == 0 by {
                if x != index {
                    assert(o.spec_running().contains(x));
                } else {
                    assert(o.spec_ready().contains(x));
                }
            }
            assert forall|x: usize| #[trigger] self.spec_completed().contains(x) implies x < self.dependents@.len() by {
                assert(o.spec_completed().contains(x));
            }
        }
    }
}

/// A system becomes ready only once every system it depends on has
/// completed: while it is ready, no system that has not completed names it
/// as a dependent.
pub proof fn lemma_ready_waits_for_nothing(r: MultiThreadedRunner, x: usize, j: usize)
    requires
        r.wf(),
        r.spec_ready().contains(x),
        j < r.spec_count(),
        !r.spec_completed().contains(j),
    ensures
        !r.spec_dependents()[j as int].contains(x),
{
    let n = r.dependents@.len();
    assert(r.dependencies_remaining@[x as int] == pending(r.spec_dependents(), r.spec_completed(), x, n));
    lemma_pending_zero_means_no_waiting(r.spec_dependents(), r.spec_completed(), x, n);
    assert(occurrences(r.spec_dependents()[j as int], x) == 0);
    lemma_occurrences_contains(r.spec_dependents()[j as int], x);
}

/// What is pending is nothing once every system that names `x` as a
/// dependent among the first `k` has completed.
proof fn lemma_pending_zero_when_waiting_for_nothing(
    deps: Seq<Seq<usize>>,
    completed: Set<usize>,
    x: usize,
    k: nat,
)
    requires
        k <= usize::MAX,
        forall|j: usize| j < k && #[trigger] deps[j as int].contains(x) ==> completed.contains(j),
    ensures
        pending(deps, completed, x, k) == 0,
    decreases k,
{
    if k > 0 {
        lemma_pending_zero_when_waiting_for_nothing(deps, completed, x, (k - 1) as nat);
        let j = (k - 1) as usize;
        lemma_occurrences_contains(deps[j as int], x);
    }
}

/// Skipping the systems of a set releases their dependents: a system that
/// some skipped, not yet completed system names as a dependent, that has not
/// completed itself, and whose every dependency has now completed or been
/// skipped, is ready afterwards. A system that still waits for a dependency
/// that neither completed nor was skipped is not ready afterwards.
pub proof fn lemma_skip_set_releases_dependents(
    o: MultiThreadedRunner,
    n: MultiThreadedRunner,
    set: Set<usize>,
    x: usize,
)
    requires
        o.wf(),
        n.wf(),
        n.spec_count() == o.spec_count(),
        n.spec_dependents() == o.spec_dependents(),
        n.spec_completed() == o.spec_completed().union(set),
        forall|y: usize|
            #[trigger] n.spec_ready().contains(y) <==> ((o.spec_ready().contains(y) && !set.contains(y))
                || (y < o.spec_count() && n.spec_remaining(y as int) == 0 && !n.spec_completed().contains(y)
                && exists|s: usize|
                set.contains(s) && !o.spec_completed().contains(s)
                    && #[trigger] o.spec_dependents()[s as int].contains(y))),
        x < o.spec_count(),
    ensures
        (!n.spec_completed().contains(x) && (exists|s: usize|
            set.contains(s) && !o.spec_completed().contains(s) && #[trigger] o.spec_dependents()[s as int].contains(x))
            && (forall|j: usize|
            j < o.spec_count() && #[trigger] o.spec_dependents()[j as int].contains(x) ==> o.spec_completed().contains(j)
                || set.contains(j))) ==> n.spec_ready().contains(x),
        (exists|j: usize|
            j < o.spec_count() && #[trigger] o.spec_dependents()[j as int].contains(x) && !o.spec_completed().contains(j)
                && !set.contains(j)) ==> !n.spec_ready().contains(x),
{
    let cnt = n.dependents@.len();
    let deps = n.spec_dependents();
    if !n.spec_completed().contains(x) && (exists|s: usize|
        set.contains(s) && !o.spec_completed().contains(s) && #[trigger] o.spec_dependents()[s as int].contains(x))
        && (forall|j: usize|
        j < o.spec_count() && #[trigger] o.spec_dependents()[j as int].contains(x) ==> o.spec_completed().contains(j)
            || set.contains(j)) {
        assert forall|j: usize| j < cnt && #[trigger] deps[j as int].contains(x) implies n.spec_completed().contains(j) by {
            assert(o.spec_dependents()[j as int].contains(x));
        }
        lemma_pending_zero_when_waiting_for_nothing(deps, n.spec_completed(), x, cnt as nat);
        assert(n.dependencies_remaining@[x as int] == pending(deps, n.spec_completed(), x, cnt as nat));
        assert(n.spec_ready().contains(x));
    }
    if exists|j: usize|
        j < o.spec_count() && #[trigger] o.spec_dependents()[j as int].contains(x) && !o.spec_completed().contains(j)
            && !set.contains(j) {
        let j = choose|j: usize|
            j < o.spec_count() && #[trigger] o.spec_dependents()[j as int].contains(x) && !o.spec_completed().contains(j)
                && !set.contains(j);
        if n.spec_ready().contains(x) {
            lemma_ready_waits_for_nothing(n, x, j);
        }
    }
}

/// Whether some system among the first `k` of `systems`, not completed in
/// `o`, has `x` as a dependent.
pub open spec fn depends_on_skipped(o: MultiThreadedRunner, systems: Seq<usize>, k: int, x: usize) -> bool {
    exists|s: usize|
        (exists|j: int| 0 <= j < k && systems[j] == s) && !o.spec_completed().contains(s)
            && #[trigger] o.spec_dependents()[s as int].contains(x)
}

/// Readiness after skipping the first `k` of `systems` from `o`, reaching
/// `c`: a system is ready when it was ready and is not one of them, or it
/// depends on one of them that had not completed, waits for nothing more, and
/// has not completed.
pub open spec fn ready_after_skips(
    o: MultiThreadedRunner,
    c: MultiThreadedRunner,
    systems: Seq<usize>,
    k: int,
    x: usize,
) -> bool {
    ||| (o.spec_ready().contains(x) && !(exists|j: int| 0 <= j < k && systems[j] == x))
    ||| (x < o.spec_count() && c.spec_remaining(x as int) == 0 && !c.spec_completed().contains(x)
        && depends_on_skipped(o, systems, k, x))
}

impl MultiThreadedRunner {
    /// Skips every system below a set whose conditions failed, each that
    /// has not completed yet; none of them may be running.
    pub fn skip_set_systems(&mut self, set_systems: &FixedBitSet)
        requires
            old(self).wf(),
            forall|x: usize| #[trigger] bitset_ones(*set_systems).contains(x) ==> x < old(self).spec_count()
                && !old(self).spec_running().contains(x),
        ensures
            final(self).wf(),
            final(self).spec_count() == old(self).spec_count(),
            final(self).spec_dependents() == old(self).spec_dependents(),
            final(self).spec_completed() == old(self).spec_completed().union(bitset_ones(*set_systems)),
            final(self).spec_running() == old(self).spec_running(),
            final(self).spec_unapplied() == old(self).spec_unapplied(),
            final(self).spec_visited() == old(self).spec_visited(),
            final(self).spec_visited_len() == old(self).spec_visited_len(),
            final(self).spec_active() == old(self).spec_active(),
            final(self).spec_non_send_running() == old(self).spec_non_send_running(),
            forall|x: usize|
                #[trigger] final(self).spec_ready().contains(x) <==> ((old(self).spec_ready().contains(x)
                    && !bitset_ones(*set_systems).contains(x)) || (x < old(self).spec_count() && final(self).spec_remaining(x as int) == 0
                    && !final(self).spec_completed().contains(x) && exists|s: usize|
                    bitset_ones(*set_systems).contains(s) && !old(self).spec_completed().contains(s)
                        && #[trigger] old(self).spec_dependents()[s as int].contains(x))),
    {
        let systems = bitset_ones_vec(set_systems);
        let mut k: usize = 0;
        while k < systems.len()
            invariant
                self.wf(),
                old(self).wf(),
                k <= systems@.len(),
                ascending_listing(systems@, bitset_ones(*set_systems)),
                self.spec_count() == old(self).spec_count(),
                self.spec_dependents() == old(self).spec_dependents(),
                forall|x: usize| #[trigger] bitset_ones(*set_systems).contains(x) ==> x < old(self).spec_count()
                    && !old(self).spec_running().contains(x),
                forall|x: usize|
                    #[trigger] self.spec_completed().contains(x) <==> (old(self).spec_completed().contains(x)
                        || exists|j: int| 0 <= j < k && systems@[j] == x),
                self.spec_running() == old(self).spec_running(),
                self.spec_unapplied() == old(self).spec_unapplied(),
                self.spec_visited() == old(self).spec_visited(),
                self.spec_visited_len() == old(self).spec_visited_len(),
                self.spec_active() == old(self).spec_active(),
                self.spec_non_send_running() == old(self).spec_non_send_running(),
                forall|x: usize|
                    #[trigger] self.spec_ready().contains(x) <==> ready_after_skips(
                        *old(self),
                        *self,
                        systems@,
                        k as int,
                        x,
                    ),
            decreases systems@.len() - k,
        {
            let sys = systems[k];
            proof {
                assert(systems@.contains(sys));
                assert(bitset_ones(*set_systems).contains(sys));
            }
            let ghost before = self.spec_completed();
            let ghost p = *self;
            if !bitset_contains(&self.completed_systems, sys) {
                self.skip_system_and_signal_dependents(sys);
                proof {
                    self.lemma_skip_keeps_readiness(p, *old(self), systems@, k as int, sys);
                }
            } else {
                proof {
                    assert(!old(self).spec_completed().contains(sys)
                        ==> exists|j: int| 0 <= j < k && systems@[j] == sys);
                    assert forall|x: usize| #[trigger] self.spec_ready().contains(x) <==> ready_after_skips(
                        *old(self),
                        *self,
                        systems@,
                        k + 1,
                        x,
                    ) by {
                        if exists|j: int| 0 <= j < k + 1 && systems@[j] == x {
                            let j = choose|j: int| 0 <= j < k + 1 && systems@[j] == x;
                            if j == k && old(self).spec_ready().contains(x) {
                                assert(!old(self).spec_completed().contains(sys));
                                let jj = choose|jj: int| 0 <= jj < k && systems@[jj] == sys;
                                assert(systems@[jj] < systems@[k as int]);
                            }
                        }
                        if depends_on_skipped(*old(self), systems@, k + 1, x) {
                            let s = choose|s: usize|
                                (exists|j: int| 0 <= j < k + 1 && systems@[j] == s) && !old(self).spec_completed().contains(s)
                                    && #[trigger] old(self).spec_dependents()[s as int].contains(x);
                            let j = choose|j: int| 0 <= j < k + 1 && systems@[j] == s;
                            if j == k {
                                let jj = choose|jj: int| 0 <= jj < k && systems@[jj] == sys;
                                assert(systems@[jj] < systems@[k as int]);
                            }
                            assert(depends_on_skipped(*old(self), systems@, k as int, x));
                        }
                        if depends_on_skipped(*old(self), systems@, k as int, x) {
                            let s = choose|s: usize|
                                (exists|j: int| 0 <= j < k && systems@[j] == s) && !old(self).spec_completed().contains(s)
                                    && #[trigger] old(self).spec_dependents()[s as int].contains(x);
                            let j = choose|j: int| 0 <= j < k && systems@[j] == s;
                            assert(0 <= j < k + 1 && systems@[j] == s);
                        }
                    }
                }
            }
            proof {
                assert forall|x: usize|
                    #[trigger] self.spec_completed().contains(x) <==> (old(self).spec_completed().contains(x)
                        || exists|j: int| 0 <= j < k + 1 && systems@[j] == x) by {
                    if exists|j: int| 0 <= j < k + 1 && systems@[j] == x {
                        let j = choose|j: int| 0 <= j < k + 1 && systems@[j] == x;
                        if j < k {
                            assert(before.contains(x));
                        }
                    }
                    if before.contains(x) && !old(self).spec_completed().contains(x) {
                        let j = choose|j: int| 0 <= j < k && systems@[j] == x;
                        assert(0 <= j < k + 1 && systems@[j] == x);
                    }
                }
            }
            k = k + 1;
        }
        proof {
            assert forall|x: usize| #[trigger] self.spec_completed().contains(x) <==> old(self).spec_completed().union(
                bitset_ones(*set_systems),
            ).contains(x) by {
                if bitset_ones(*set_systems).contains(x) {
                    assert(systems@.contains(x));
                }
            }
            assert(self.spec_completed() =~= old(self).spec_completed().union(bitset_ones(*set_systems)));
            assert forall|x: usize| (exists|j: int| 0 <= j < systems@.len() && systems@[j] == x) <==> #[trigger] bitset_ones(
                *set_systems,
            ).contains(x) by {
                if bitset_ones(*set_systems).contains(x) {
                    assert(systems@.contains(x));
                }
            }
            assert forall|x: usize|
                #[trigger] self.spec_ready().contains(x) <==> ((old(self).spec_ready().contains(x)
                    && !bitset_ones(*set_systems).contains(x)) || (x < old(self).spec_count()
                    && self.spec_remaining(x as int) == 0 && !self.spec_completed().contains(x) && exists|s: usize|
                    bitset_ones(*set_systems).contains(s) && !old(self).spec_completed().contains(s)
                        && #[trigger] old(self).spec_dependents()[s as int].contains(x))) by {
                assert(ready_after_skips(*old(self), *self, systems@, systems@.len() as int, x) == self.spec_ready().contains(x));
                if depends_on_skipped(*old(self), systems@, systems@.len() as int, x) {
                    let s = choose|s: usize|
                        (exists|j: int| 0 <= j < systems@.len() && systems@[j] == s) && !old(self).spec_completed().contains(s)
                            && #[trigger] old(self).spec_dependents()[s as int].contains(x);
                    assert(bitset_ones(*set_systems).contains(s));
                }
                if exists|s: usize|
                    bitset_ones(*set_systems).contains(s) && !old(self).spec_completed().contains(s)
                        && #[trigger] old(self).spec_dependents()[s as int].contains(x) {
                    let s = choose|s: usize|
                        bitset_ones(*set_systems).contains(s) && !old(self).spec_completed().contains(s)
                            && #[trigger] old(self).spec_dependents()[s as int].contains(x);
                    assert(exists|j: int| 0 <= j < systems@.len() && systems@[j] == s);
                    assert(depends_on_skipped(*old(self), systems@, systems@.len() as int, x));
                }
            }
        }
    }

    /// One skip within `skip_set_systems` keeps readiness as
    /// `ready_after_skips` says, one system further.
    proof fn lemma_skip_keeps_readiness(
        &self,
        p: MultiThreadedRunner,
        o: MultiThreadedRunner,
        systems: Seq<usize>,
        k: int,
        sys: usize,
    )
        requires
            p.wf(),
            self.wf(),
            0 <= k < systems.len(),
            systems[k] == sys,
            forall|i: int, j: int| 0 <= i < j < systems.len() ==> systems[i] < systems[j],
            sys < p.spec_count(),
            !p.spec_completed().contains(sys),
            p.spec_count() == o.spec_count(),
            p.spec_dependents() == o.spec_dependents(),
            forall|x: usize|
                #[trigger] p.spec_completed().contains(x) <==> (o.spec_completed().contains(x) || exists|j: int|
                    0 <= j < k && systems[j] == x),
            forall|x: usize| #[trigger] p.spec_ready().contains(x) <==> ready_after_skips(o, p, systems, k, x),
            self.spec_count() == p.spec_count(),
            self.spec_dependents() == p.spec_dependents(),
            self.spec_completed() == p.spec_completed().insert(sys),
            forall|x: usize|
                #[trigger] self.spec_ready().contains(x) <==> ((p.spec_ready().contains(x) && x != sys) || (
                p.spec_dependents()[sys as int].contains(x) && self.spec_remaining(x as int) == 0
                    && !p.spec_completed().contains(x) && x != sys)),
        ensures
            forall|x: usize| #[trigger] self.spec_ready().contains(x) <==> ready_after_skips(o, *self, systems, k + 1, x),
    {
        let deps = p.spec_dependents();
        let n = p.spec_count();
        assert(!o.spec_completed().contains(sys));
        assert forall|x: usize| x < n implies #[trigger] self.spec_remaining(x as int) + occurrences(
            deps[sys as int],
            x,
        ) == p.spec_remaining(x as int) by {
            lemma_pending_complete(deps, p.spec_completed(), sys, x, n);
            assert(p.dependencies_remaining@[x as int] == pending(p.spec_dependents(), p.spec_completed(), x, p.dependents@.len()));
            assert(self.dependencies_remaining@[x as int] == pending(self.spec_dependents(), self.spec_completed(), x, self.dependents@.len()));
        }
        assert forall|x: usize| #[trigger] self.spec_ready().contains(x) <==> ready_after_skips(o, *self, systems, k + 1, x) by {
            if self.spec_ready().contains(x) {
                if p.spec_ready().contains(x) && x != sys {
                    assert(ready_after_skips(o, p, systems, k, x));
                    if o.spec_ready().contains(x) && !(exists|j: int| 0 <= j < k && systems[j] == x) {
                        assert(!(exists|j: int| 0 <= j < k + 1 && systems[j] == x));
                    } else {
                        assert(x < n && p.spec_remaining(x as int) == 0);
                        assert(self.spec_remaining(x as int) == 0);
                        let s = choose|s: usize|
                            (exists|j: int| 0 <= j < k && systems[j] == s) && !o.spec_completed().contains(s)
                                && #[trigger] o.spec_dependents()[s as int].contains(x);
                        let j = choose|j: int| 0 <= j < k && systems[j] == s;
                        assert(0 <= j < k + 1 && systems[j] == s);
                        assert(depends_on_skipped(o, systems, k + 1, x));
                    }
                } else {
                    assert(deps[sys as int].contains(x));
                    let w = choose|w: int| 0 <= w < deps[sys as int].len() && deps[sys as int][w] == x;
                    assert(x < n);
                    assert(0 <= k < k + 1 && systems[k] == sys);
                    assert(depends_on_skipped(o, systems, k + 1, x));
                }
            }
            if ready_after_skips(o, *self, systems, k + 1, x) {
                if o.spec_ready().contains(x) && !(exists|j: int| 0 <= j < k + 1 && systems[j] == x) {
                    assert(!(exists|j: int| 0 <= j < k && systems[j] == x));
                    assert(ready_after_skips(o, p, systems, k, x));
                    assert(x != sys);
                } else {
                    let s = choose|s: usize|
                        (exists|j: int| 0 <= j < k + 1 && systems[j] == s) && !o.spec_completed().contains(s)
                            && #[trigger] o.spec_dependents()[s as int].contains(x);
                    let j = choose|j: int| 0 <= j < k + 1 && systems[j] == s;
                    assert(x != sys);
                    assert(!p.spec_completed().contains(x));
                    if s == sys {
                        assert(deps[sys as int].contains(x));
                    } else {
                        assert(j < k);
                        lemma_occurrences_contains(deps[sys as int], x);
                        if p.spec_remaining(x as int) == 0 {
                            assert(depends_on_skipped(o, systems, k, x));
                            assert(ready_after_skips(o, p, systems, k, x));
                        } else {
                            assert(occurrences(deps[sys as int], x) > 0);
                            assert(deps[sys as int].contains(x));
                        }
                    }
                }
            }
        }
    }

    /// When asked to, hands out the systems whose buffers wait to be
    /// applied, in ascending order, and forgets them; otherwise hands out
    /// none.
    pub fn check_apply_buffers(&mut self, requested: bool) -> (r: Vec<usize>)
        requires
            old(self).wf(),
        ensures
            final(self).wf(),
            final(self).spec_count() == old(self).spec_count(),
            final(self).spec_dependents() == old(self).spec_dependents(),
            final(self).spec_completed() == old(self).spec_completed(),
            final(self).spec_ready() == old(self).spec_ready(),
            final(self).spec_running() == old(self).spec_running(),
            final(self).spec_visited() == old(self).spec_visited(),
            requested ==> ascending_listing(r@, old(self).spec_unapplied()) && final(self).spec_unapplied()
                == Set::<usize>::empty(),
            !requested ==> r@.len() == 0 && final(self).spec_unapplied() == old(self).spec_unapplied(),
    {
        if requested {
            let v = bitset_ones_vec(&self.unapplied_systems);
            let ghost o = *self;
            bitset_clear(&mut self.unapplied_systems);
            proof {
                assert(self.spec_dependents() == o.spec_dependents());
                assert(self.spec_completed() == o.spec_completed());
                assert(self.spec_ready() == o.spec_ready());
                assert(self.spec_running() == o.spec_running());
                assert forall|x: usize| x < self.dependents@.len() implies self.dependencies_remaining@[x as int]
                    == #[trigger] pending(self.spec_dependents(), self.spec_completed(), x, self.dependents@.len()) by {
                    assert(o.dependencies_remaining@[x as int] == pending(o.spec_dependents(), o.spec_completed(), x, o.dependents@.len()));
                }
                assert forall|x: usize| #[trigger] self.spec_ready().contains(x) implies x < self.dependents@.len()
                    && self.dependencies_remaining@[x as int] == 0 && !self.spec_completed().contains(x)
                    && !self.spec_running().contains(x) by {
                    assert(o.spec_ready().contains(x));
                }
                assert forall|x: usize| #[trigger] self.spec_running().contains(x) implies x < self.dependents@.len()
                    && !self.spec_completed().contains(x) && self.dependencies_remaining@[x as int] == 0 by {
                    assert(o.spec_running().contains(x));
                }
                assert forall|x: usize| #[trigger] self.spec_completed().contains(x) implies x < self.dependents@.len() by {
                    assert(o.spec_completed().contains(x));
                }
            }
            v
        } else {
            Vec::new()
        }
    }

    /// Whether every bit of the completed set is on, which ends a pass.
    pub fn is_finished(&self) -> (r: bool)
        requires
            self.wf(),
        ensures
            r == (self.spec_completed().len() == self.spec_completed_len()),
    {
        bitset_count_ones(&self.completed_systems) == bitset_length(&self.completed_systems)
    }

    /// Ends a pass in which nothing is ready or running any more: the
    /// visited sets and the completed systems are forgotten.
    pub fn finish_pass(&mut self)
        requires
            old(self).shape_ok(),
            old(self).spec_ready() == Set::<usize>::empty(),
            old(self).spec_running() == Set::<usize>::empty(),
        ensures
            final(self).idle(),
            final(self).spec_visited() == Set::<usize>::empty(),
            final(self).spec_count() == old(self).spec_count(),
            final(self).spec_unapplied() == old(self).spec_unapplied(),
    {
        bitset_clear(&mut self.visited_sets);
        bitset_clear(&mut self.completed_systems);
    }
}

impl MultiThreadedRunner {
    /// Sets the access of the running systems to the union of what each of
    /// them holds.
    pub fn rebuild_active_access(&mut self)
        requires
            old(self).wf(),
        ensures
            final(self).wf(),
            final(self).spec_count() == old(self).spec_count(),
            final(self).spec_dependents() == old(self).spec_dependents(),
            final(self).spec_completed() == old(self).spec_completed(),
            final(self).spec_ready() == old(self).spec_ready(),
            final(self).spec_running() == old(self).spec_running(),
            final(self).spec_unapplied() == old(self).spec_unapplied(),
            final(self).spec_visited() == old(self).spec_visited(),
            final(self).spec_non_send_running() == old(self).spec_non_send_running(),
            forall|i: usize|
                #[trigger] final(self).spec_active().spec_reads_and_writes().contains(i) <==> exists|j: usize|
                    old(self).spec_running().contains(j) && old(self).spec_system_access(
                        j as int,
                    ).spec_reads_and_writes().contains(i),
            forall|i: usize|
                #[trigger] final(self).spec_active().spec_writes().contains(i) <==> exists|j: usize|
                    old(self).spec_running().contains(j) && old(self).spec_system_access(
                        j as int,
                    ).spec_writes().contains(i),
            final(self).spec_active().spec_reads_all() <==> exists|j: usize|
                old(self).spec_running().contains(j) && #[trigger] old(self).spec_system_access(
                    j as int,
                ).spec_reads_all(),
            final(self).spec_active().spec_writes_all() <==> exists|j: usize|
                old(self).spec_running().contains(j) && #[trigger] old(self).spec_system_access(
                    j as int,
                ).spec_writes_all(),
    {
        let ghost o = *self;
        let running = bitset_ones_vec(&self.running_systems);
        self.active_archetype_component_access.clear();
        let mut k: usize = 0;
        while k < running.len()
            invariant
                k <= running@.len(),
                ascending_listing(running@, o.spec_running()),
                self.shape_ok(),
                self.dependents == o.dependents,
                self.dependencies_total == o.dependencies_total,
                self.dependencies_remaining == o.dependencies_remaining,
                self.archetype_component_access == o.archetype_component_access,
                self.non_send_access == o.non_send_access,
                self.non_send_task_running == o.non_send_task_running,
                self.visited_sets == o.visited_sets,
                self.ready_systems == o.ready_systems,
                self.running_systems == o.running_systems,
                self.completed_systems == o.completed_systems,
                self.unapplied_systems == o.unapplied_systems,
                forall|x: usize| #[trigger] o.spec_running().contains(x) ==> x < o.dependents@.len(),
                forall|i: usize|
                    #[trigger] self.active_archetype_component_access.spec_reads_and_writes().contains(i) <==> exists|j: int|
                        0 <= j < k && o.archetype_component_access@[running@[j] as int].spec_reads_and_writes().contains(i),
                forall|i: usize|
                    #[trigger] self.active_archetype_component_access.spec_writes().contains(i) <==> exists|j: int|
                        0 <= j < k && o.archetype_component_access@[running@[j] as int].spec_writes().contains(i),
                self.active_archetype_component_access.spec_reads_all() <==> exists|j: int|
                    0 <= j < k && o.archetype_component_access@[running@[j] as int].spec_reads_all(),
                self.active_archetype_component_access.spec_writes_all() <==> exists|j: int|
                    0 <= j < k && o.archetype_component_access@[running@[j] as int].spec_writes_all(),
            decreases running@.len() - k,
        {
            let sys = running[k];
            proof {
                assert(running@.contains(sys));
                assert(o.spec_running().contains(sys));
            }
            let ghost before = self.active_archetype_component_access;
            self.active_archetype_component_access.extend(&self.archetype_component_access[sys]);
            proof {
                let acc = o.archetype_component_access@[sys as int];
                assert forall|i: usize|
                    #[trigger] self.active_archetype_component_access.spec_reads_and_writes().contains(i) <==> exists|j: int|
                        0 <= j < k + 1 && o.archetype_component_access@[running@[j] as int].spec_reads_and_writes().contains(i) by {
                    if exists|j: int| 0 <= j < k + 1 && o.archetype_component_access@[running@[j] as int].spec_reads_and_writes().contains(i) {
                        let j = choose|j: int| 0 <= j < k + 1 && o.archetype_component_access@[running@[j] as int].spec_reads_and_writes().contains(i);
                        if j < k {
                            assert(before.spec_reads_and_writes().contains(i));
                        }
                    }
                }
                assert forall|i: usize|
                    #[trigger] self.active_archetype_component_access.spec_writes().contains(i) <==> exists|j: int|
                        0 <= j < k + 1 && o.archetype_component_access@[running@[j] as int].spec_writes().contains(i) by {
                    if exists|j: int| 0 <= j < k + 1 && o.archetype_component_access@[running@[j] as int].spec_writes().contains(i) {
                        let j = choose|j: int| 0 <= j < k + 1 && o.archetype_component_access@[running@[j] as int].spec_writes().contains(i);
                        if j < k {
                            assert(before.spec_writes().contains(i));
                        }
                    }
                }
                if exists|j: int| 0 <= j < k + 1 && o.archetype_component_access@[running@[j] as int].spec_reads_all() {
                    let j = choose|j: int| 0 <= j < k + 1 && o.archetype_component_access@[running@[j] as int].spec_reads_all();
                    if j < k {
                        assert(before.spec_reads_all());
                    }
                }
                if exists|j: int| 0 <= j < k + 1 && o.archetype_component_access@[running@[j] as int].spec_writes_all() {
                    let j = choose|j: int| 0 <= j < k + 1 && o.archetype_component_access@[running@[j] as int].spec_writes_all();
                    if j < k {
                        assert(before.spec_writes_all());
                    }
                }
            }
            k = k + 1;
        }
        proof {
            assert(self.spec_dependents() == o.spec_dependents());
            assert(self.spec_ready() == o.spec_ready());
            assert(self.spec_running() == o.spec_running());
            assert(self.spec_completed() == o.spec_completed());
            assert forall|x: usize| x < self.dependents@.len() implies self.dependencies_remaining@[x as int]
                == #[trigger] pending(self.spec_dependents(), self.spec_completed(), x, self.dependents@.len()) by {
                assert(o.dependencies_remaining@[x as int] == pending(o.spec_dependents(), o.spec_completed(), x, o.dependents@.len()));
            }
            assert forall|x: usize| #[trigger] self.spec_ready().contains(x) implies x < self.dependents@.len()
                && self.dependencies_remaining@[x as int] == 0 && !self.spec_completed().contains(x)
                && !self.spec_running().contains(x) by {
                assert(o.spec_ready().contains(x));
            }
            assert forall|x: usize| #[trigger] self.spec_running().contains(x) implies x < self.dependents@.len()
                && !self.spec_completed().contains(x) && self.dependencies_remaining@[x as int] == 0 by {
                assert(o.spec_running().contains(x));
            }
            assert forall|x: usize| #[trigger] self.spec_completed().contains(x) implies x < self.dependents@.len() by {
                assert(o.spec_completed().contains(x));
            }
            assert forall|i: usize|
                #[trigger] self.spec_active().spec_reads_and_writes().contains(i) <==> exists|j: usize|
                    o.spec_running().contains(j) && o.spec_system_access(j as int).spec_reads_and_writes().contains(i) by {
                if exists|j: usize| o.spec_running().contains(j) && o.spec_system_access(j as int).spec_reads_and_writes().contains(i) {
                    let j = choose|j: usize| o.spec_running().contains(j) && o.spec_system_access(j as int).spec_reads_and_writes().contains(i);
                    assert(running@.contains(j));
                    let w = choose|w: int| 0 <= w < running@.len() && running@[w] == j;
                }
                if self.spec_active().spec_reads_and_writes().contains(i) {
                    let w = choose|w: int| 0 <= w < running@.len() && o.archetype_component_access@[running@[w] as int].spec_reads_and_writes().contains(i);
                    assert(running@.contains(running@[w]));
                    assert(o.spec_running().contains(running@[w]));
                }
            }
            assert forall|i: usize|
                #[trigger] self.spec_active().spec_writes().contains(i) <==> exists|j: usize|
                    o.spec_running().contains(j) && o.spec_system_access(j as int).spec_writes().contains(i) by {
                if exists|j: usize| o.spec_running().contains(j) && o.spec_system_access(j as int).spec_writes().contains(i) {
                    let j = choose|j: usize| o.spec_running().contains(j) && o.spec_system_access(j as int).spec_writes().contains(i);
                    assert(running@.contains(j));
                    let w = choose|w: int| 0 <= w < running@.len() && running@[w] == j;
                }
                if self.spec_active().spec_writes().contains(i) {
                    let w = choose|w: int| 0 <= w < running@.len() && o.archetype_component_access@[running@[w] as int].spec_writes().contains(i);
                    assert(running@.contains(running@[w]));
                    assert(o.spec_running().contains(running@[w]));
                }
            }
            if exists|j: usize| o.spec_running().contains(j) && #[trigger] o.spec_system_access(j as int).spec_reads_all() {
                let j = choose|j: usize| o.spec_running().contains(j) && #[trigger] o.spec_system_access(j as int).spec_reads_all();
                assert(running@.contains(j));
                let w = choose|w: int| 0 <= w < running@.len() && running@[w] == j;
                assert(o.archetype_component_access@[running@[w] as int].spec_reads_all());
            }
            if self.spec_active().spec_reads_all() {
                let w = choose|w: int| 0 <= w < running@.len() && o.archetype_component_access@[running@[w] as int].spec_reads_all();
                assert(running@.contains(running@[w]));
                assert(o.spec_running().contains(running@[w]));
                assert(o.spec_system_access(running@[w] as int).spec_reads_all());
            }
            if exists|j: usize| o.spec_running().contains(j) && #[trigger] o.spec_system_access(j as int).spec_writes_all() {
                let j = choose|j: usize| o.spec_running().contains(j) && #[trigger] o.spec_system_access(j as int).spec_writes_all();
                assert(running@.contains(j));
                let w = choose|w: int| 0 <= w < running@.len() && running@[w] == j;
                assert(o.archetype_component_access@[running@[w] as int].spec_writes_all());
            }
            if self.spec_active().spec_writes_all() {
                let w = choose|w: int| 0 <= w < running@.len() && o.archetype_component_access@[running@[w] as int].spec_writes_all();
                assert(running@.contains(running@[w]));
                assert(o.spec_running().contains(running@[w]));
                assert(o.spec_system_access(running@[w] as int).spec_writes_all());
            }
            assert(self.wf());
        }
    }
}

} // verus!
