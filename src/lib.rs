//! Actors as Mealy machines, and a bounded explorer of the states that a
//! network of such actors can reach.

pub mod example;
pub mod deepening;
pub mod explorer;
pub mod laws;
pub mod machines;
pub mod messages;
pub mod model;
pub mod properties;

pub use example::{check_counter_supervisor_by_discovery, counter_supervisor_model};
pub use explorer::SearchOutcome;
pub use machines::{
    BaseActor, CounterMachine, CounterState, ExternalInputActor, InputState, MealyMachine, SupervisorMachine,
    SupervisorState,
};
pub use messages::{Address, CounterSize, Effect, InputTimer, MsgsCounterToSupervisor, MsgsSupervisorToCounter, PolyMsg};
pub use model::{Action, ActorState, Envelope, GlobalState, ModelActor, ModelError, SystemModel, TimerHandle};
pub use properties::{state_filter_success, Expectation, Predicate, Property};
