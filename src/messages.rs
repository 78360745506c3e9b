use vstd::prelude::*;

verus! {

/// Identifies an actor: its index in the model's list of actors.
pub type Address = u64;

/// The width of a counter and of the numbers carried by messages.
pub type CounterSize = u32;

/// Every message that the example actors exchange.
#[derive(Clone, Copy, Debug, PartialEq, Eq, PartialOrd, Ord, Hash, Structural)]
pub enum PolyMsg {
    SupervisorIncrementRequest(CounterSize),
    SupervisorReportRequest(),
    CounterReplyCount(CounterSize),
}

/// What a counter tells its supervisor.
#[derive(Clone, Copy, Debug, PartialEq, Eq, Hash, Structural)]
pub enum MsgsCounterToSupervisor {
    ReplyCount(CounterSize),
}

/// What a supervisor asks of its counter.
#[derive(Clone, Copy, Debug, PartialEq, Eq, Hash, Structural)]
pub enum MsgsSupervisorToCounter {
    /// Add the number to the counter.
    IncrementRequest(CounterSize),
    /// Reply with the current count.
    ReportRequest(),
}

/// Logical timers: they carry no delay, a pending one may fire at any step.
#[derive(Clone, Copy, Debug, PartialEq, Eq, PartialOrd, Ord, Hash, Structural)]
pub enum InputTimer {
    RequestIncrement,
    RequestSuccess,
}

/// A side effect that an actor asks for; the explorer carries it out on the
/// model, never as real I/O.
#[derive(Clone, Copy, Debug, PartialEq, Eq, Hash, Structural)]
pub enum Effect {
    /// Put a message for `dst` on the network.
    Send { dst: Address, msg: PolyMsg },
    /// Arm a timer of the acting actor.
    SetTimer { timer: InputTimer },
}

impl MsgsCounterToSupervisor {
    /// The same message in the shared alphabet.
    pub fn to_poly(self) -> (r: PolyMsg)
        ensures
            r == (match self {
                MsgsCounterToSupervisor::ReplyCount(n) => PolyMsg::CounterReplyCount(n),
            }),
    {
        match self {
            MsgsCounterToSupervisor::ReplyCount(n) => PolyMsg::CounterReplyCount(n),
        }
    }
}

impl MsgsSupervisorToCounter {
    /// The same message in the shared alphabet.
    pub fn to_poly(self) -> (r: PolyMsg)
        ensures
            r == (match self {
                MsgsSupervisorToCounter::IncrementRequest(n) => PolyMsg::SupervisorIncrementRequest(n),
                MsgsSupervisorToCounter::ReportRequest() => PolyMsg::SupervisorReportRequest(),
            }),
    {
        match self {
            MsgsSupervisorToCounter::IncrementRequest(n) => PolyMsg::SupervisorIncrementRequest(n),
            MsgsSupervisorToCounter::ReportRequest() => PolyMsg::SupervisorReportRequest(),
        }
    }
}

} // verus!
