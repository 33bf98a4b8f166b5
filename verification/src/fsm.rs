//! A finite-state machine whose transitions are queued and applied later.

use std::fmt::Debug;
use std::hash::Hash;

use vstd::prelude::*;

verus! {

/// Types that can define states in a finite-state machine.
pub trait State: 'static + Send + Sync + Clone + PartialEq + Eq + Debug + Hash {

}

impl<T> State for T where T: 'static + Send + Sync + Clone + PartialEq + Eq + Debug + Hash {

}

/// The label of the systems that run when a state is entered.
#[derive(Debug, Clone, Hash, PartialEq, Eq)]
pub struct OnEnter<S: State>(pub S);

/// The label of the systems that run when a state is left.
#[derive(Debug, Clone, Hash, PartialEq, Eq)]
pub struct OnExit<S: State>(pub S);

/// A simple finite-state machine: its current state, the state queued to
/// come next, and the state it left last.
#[derive(Debug, Clone)]
pub struct Fsm<S: State> {
    current_state: S,
    next_state: Option<S>,
    prev_state: Option<S>,
}

impl<S: State> Fsm<S> {
    pub closed spec fn spec_current(&self) -> S {
        self.current_state
    }

    pub closed spec fn spec_next(&self) -> Option<S> {
        self.next_state
    }

    pub closed spec fn spec_previous(&self) -> Option<S> {
        self.prev_state
    }

    /// A machine in `initial_state`, with nothing queued and no previous state.
    pub fn new(initial_state: S) -> (r: Self)
        ensures
            r.spec_current() == initial_state,
            r.spec_next() is None,
            r.spec_previous() is None,
    {
        Self { current_state: initial_state, next_state: None, prev_state: None }
    }

    /// The machine's current state.
    pub fn current_state(&self) -> (r: &S)
        ensures
            *r == self.spec_current(),
    {
        &self.current_state
    }

    /// The machine's next state, if one is queued.
    pub fn next_state(&self) -> (r: Option<&S>)
        ensures
            r is Some <==> self.spec_next() is Some,
            r is Some ==> *r->0 == self.spec_next()->0,
    {
        self.next_state.as_ref()
    }

    /// The machine's previous state, if it has left one.
    pub fn previous_state(&self) -> (r: Option<&S>)
        ensures
            r is Some <==> self.spec_previous() is Some,
            r is Some ==> *r->0 == self.spec_previous()->0,
    {
        self.prev_state.as_ref()
    }

    /// Queues `state` as the next state; a state queued before is replaced and
    /// returned.
    pub fn queue_transition(&mut self, state: S) -> (r: Option<S>)
        ensures
            r == old(self).spec_next(),
            final(self).spec_next() == Some(state),
            final(self).spec_current() == old(self).spec_current(),
            final(self).spec_previous() == old(self).spec_previous(),
    {
        let mut slot = Some(state);
        std::mem::swap(&mut self.next_state, &mut slot);
        slot
    }
}

/// A schedule that a transition runs.
#[derive(Debug, Clone, PartialEq, Eq)]
pub enum StateSchedule<S: State> {
    /// The systems of the state that is left.
    Exit(OnExit<S>),
    /// The systems of the state that is entered.
    Enter(OnEnter<S>),
}

/// If a transition is queued, applies it and returns the schedules to run,
/// in the order they run: `OnExit` of the old state, then `OnEnter` of the
/// new one. Otherwise changes nothing and returns no schedule. The new
/// current state and the recorded previous state are clones of the states
/// involved.
pub fn apply_state_transition<S: State>(fsm: &mut Fsm<S>) -> (r: Vec<StateSchedule<S>>)
    ensures
        old(fsm).spec_next() is None ==> r@ == Seq::<StateSchedule<S>>::empty() && *final(fsm) == *old(fsm),
        old(fsm).spec_next() matches Some(next) ==> {
            &&& r@ == seq![
                StateSchedule::Exit(OnExit(old(fsm).spec_current())),
                StateSchedule::Enter(OnEnter(next)),
            ]
            &&& cloned(next, final(fsm).spec_current())
            &&& final(fsm).spec_previous() matches Some(p) && cloned(old(fsm).spec_current(), p)
            &&& final(fsm).spec_next() is None
        },
{
    let mut r: Vec<StateSchedule<S>> = Vec::new();
    match fsm.next_state.take() {
        Some(new_state) => {
            let mut old_state = new_state.clone();
            std::mem::swap(&mut fsm.current_state, &mut old_state);
            fsm.prev_state = Some(old_state.clone());
            r.push(StateSchedule::Exit(OnExit(old_state)));
            r.push(StateSchedule::Enter(OnEnter(new_state)));
            proof {
                assert(r@ =~= seq![
                    StateSchedule::Exit(OnExit(old(fsm).spec_current())),
                    StateSchedule::Enter(OnEnter(old(fsm).spec_next()->0)),
                ]);
            }
        },
        None => {
            proof {
                assert(r@ =~= Seq::<StateSchedule<S>>::empty());
            }
        },
    }
    r
}

} // verus!
