use vstd::prelude::*;

use crate::messages::CounterSize;
use crate::model::{ActorState, GlobalState, GlobalView};

verus! {

/// Whether an actor's state is a supervisor's that has recorded success.
pub open spec fn success_spec(s: ActorState) -> bool {
    match s {
        ActorState::Supervisor(v) => v.success,
        _ => false,
    }
}

/// Whether `s` is a supervisor's state that has recorded success.
pub fn state_filter_success(s: &ActorState) -> (r: bool)
    ensures
        r == success_spec(*s),
{
    match s {
        ActorState::Supervisor(v) => v.success,
        ActorState::Counter(_) => false,
        ActorState::Input(_) => false,
    }
}

/// A condition on one actor's state.
#[derive(Clone, Copy, Debug, PartialEq, Eq, Hash, Structural)]
pub enum Predicate {
    /// A supervisor has recorded success.
    SupervisorSuccess,
    /// A counter holds at least this count.
    CounterAtLeast(CounterSize),
    /// A stimulus has seen a count at its threshold.
    StimulusDone,
}

/// How a property's predicate is to hold of the reachable states.
#[derive(Clone, Copy, Debug, PartialEq, Eq, Hash, Structural)]
pub enum Expectation {
    /// In every reachable state; a discovery is a counterexample.
    Always,
    /// In some reachable state; a discovery is a witness.
    Sometimes,
    /// Reached along some path; a discovery is a witness.
    Eventually,
}

/// A property of the model: a predicate that holds of a global state when
/// it holds of some actor's state, and how it is expected to hold.
#[derive(Clone, Copy, Debug, PartialEq, Eq, Hash, Structural)]
pub struct Property {
    pub expectation: Expectation,
    pub predicate: Predicate,
}

pub open spec fn actor_satisfies(p: Predicate, s: ActorState) -> bool {
    match p {
        Predicate::SupervisorSuccess => success_spec(s),
        Predicate::CounterAtLeast(n) => s matches ActorState::Counter(c) && c.counter >= n,
        Predicate::StimulusDone => s matches ActorState::Input(i) && i.done,
    }
}

/// Whether the predicate holds of `g`: of some actor's state in it.
pub open spec fn holds(p: Predicate, g: GlobalView) -> bool {
    exists|i: int| 0 <= i < g.actor_states.len() && actor_satisfies(p, #[trigger] g.actor_states[i])
}

/// Whether `g` is what the explorer looks for on behalf of `prop`: a state
/// that breaks an `Always` property, or one that meets any other.
pub open spec fn sought(prop: Property, g: GlobalView) -> bool {
    match prop.expectation {
        Expectation::Always => !holds(prop.predicate, g),
        _ => holds(prop.predicate, g),
    }
}

impl Predicate {
    /// Whether the predicate holds of one actor's state.
    pub fn satisfied_by(self, s: &ActorState) -> (r: bool)
        ensures
            r == actor_satisfies(self, *s),
    {
        match self {
            Predicate::SupervisorSuccess => state_filter_success(s),
            Predicate::CounterAtLeast(n) => match s {
                ActorState::Counter(c) => c.counter >= n,
                _ => false,
            },
            Predicate::StimulusDone => match s {
                ActorState::Input(i) => i.done,
                _ => false,
            },
        }
    }

    /// Whether the predicate holds of `g`.
    pub fn holds_in(self, g: &GlobalState) -> (r: bool)
        ensures
            r == holds(self, g@),
    {
        let mut i: usize = 0;
        while i < g.actor_states.len()
            invariant
                i <= g.actor_states@.len(),
                forall|j: int| 0 <= j < i ==> !actor_satisfies(self, #[trigger] g@.actor_states[j]),
            decreases g.actor_states@.len() - i,
        {
            if self.satisfied_by(&g.actor_states[i]) {
                assert(actor_satisfies(self, g@.actor_states[i as int]));
                return true;
            }
            i = i + 1;
        }
        false
    }
}

impl Property {
    /// Whether `g` settles the property: breaks it if it is `Always`,
    /// meets it otherwise.
    pub fn settled_by(self, g: &GlobalState) -> (r: bool)
        ensures
            r == sought(self, g@),
    {
        let h = self.predicate.holds_in(g);
        match self.expectation {
            Expectation::Always => !h,
            _ => h,
        }
    }
}

} // verus!
