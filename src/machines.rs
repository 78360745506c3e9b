use vstd::prelude::*;

use crate::messages::{Address, CounterSize, Effect, InputTimer, PolyMsg};

verus! {

/// The address at which the external stimulus actor stands; a supervisor
/// forwards what comes from there to its counter.
pub const INPUT_ACTOR_ADDR: Address = 2;

/// An actor written as a Mealy machine: a pure, total transition and output
/// function over its state and input alphabet.
pub trait MealyMachine {
    /// Input alphabet.
    type InputMsgs;
    /// Output alphabet.
    type OutputMsgs;
    /// The set of states.
    type MealyState;

    /// The initial state: the configured one, or the kind's default.
    spec fn initial_spec(state: Option<Self::MealyState>) -> Self::MealyState;

    /// The next state and the messages sent, as `(destination, message)`.
    spec fn respond_spec(
        dest: Address,
        state: Self::MealyState,
        src: Address,
        msg: Self::InputMsgs,
    ) -> (Self::MealyState, Seq<(Address, Self::OutputMsgs)>);

    /// Sets the initial state from the configuration, or to the default.
    fn initialize(state: Option<Self::MealyState>) -> (r: Self::MealyState)
        ensures
            r == Self::initial_spec(state),
    ;

    /// The transition and output function in one: the same arguments give
    /// the same next state and the same outputs.
    fn respond_to_msg(
        dest: Address,
        state: Self::MealyState,
        src: Address,
        msg: Self::InputMsgs,
    ) -> (r: (Self::MealyState, Vec<(Address, Self::OutputMsgs)>))
        ensures
            r.0 == Self::respond_spec(dest, state, src, msg).0,
            r.1@ == Self::respond_spec(dest, state, src, msg).1,
    ;
}

/// An actor configured with its initial state.
#[derive(Clone, Copy, Debug, PartialEq, Eq)]
pub struct BaseActor<T> {
    pub initial_state: T,
}

#[derive(Clone, Copy, Debug, PartialEq, Eq, Hash, Structural)]
pub struct CounterState {
    pub addr: Address,
    pub counter: CounterSize,
}

#[derive(Clone, Copy, Debug, PartialEq, Eq, Hash, Structural)]
pub struct SupervisorState {
    pub addr: Address,
    pub threshold: CounterSize,
    pub counter_addr: Address,
    pub success: bool,
}

/// A counter: adds what it is asked to add, reports its count on request.
pub type CounterMachine = BaseActor<CounterState>;

/// A supervisor: records success once its counter reports a count at or
/// above the threshold.
pub type SupervisorMachine = BaseActor<SupervisorState>;

/// `a + b`, held at the largest counter value.
pub open spec fn saturated_sum(a: CounterSize, b: CounterSize) -> CounterSize {
    if a + b > CounterSize::MAX {
        CounterSize::MAX
    } else {
        (a + b) as CounterSize
    }
}

/// The counter's rule. An increment saturates at the largest count.
pub open spec fn counter_respond(state: CounterState, src: Address, msg: PolyMsg) -> (
    CounterState,
    Seq<(Address, PolyMsg)>,
) {
    match msg {
        PolyMsg::SupervisorIncrementRequest(n) => (
            CounterState { counter: saturated_sum(state.counter, n), ..state },
            Seq::empty(),
        ),
        PolyMsg::SupervisorReportRequest() => (
            state,
            seq![(src, PolyMsg::CounterReplyCount(state.counter))],
        ),
        _ => (state, Seq::empty()),
    }
}

/// The supervisor's rule: success once a reported count reaches the
/// threshold (`>=`).
pub open spec fn supervisor_respond(state: SupervisorState, msg: PolyMsg) -> (
    SupervisorState,
    Seq<(Address, PolyMsg)>,
) {
    match msg {
        PolyMsg::CounterReplyCount(n) => if n >= state.threshold {
            (SupervisorState { success: true, ..state }, Seq::empty())
        } else {
            (state, Seq::empty())
        },
        _ => (state, Seq::empty()),
    }
}

/// The effects that carry out a list of `(destination, message)` outputs.
pub open spec fn sends_of(outputs: Seq<(Address, PolyMsg)>) -> Seq<Effect> {
    outputs.map_values(|p: (Address, PolyMsg)| Effect::Send { dst: p.0, msg: p.1 })
}

/// Appends to `o` one send effect per output, in order.
fn push_sends(outputs: Vec<(Address, PolyMsg)>, o: &mut Vec<Effect>)
    ensures
        final(o)@ == old(o)@ + sends_of(outputs@),
{
    let ghost start = old(o)@;
    let mut i: usize = 0;
    while i < outputs.len()
        invariant
            i <= outputs@.len(),
            o@ == start + sends_of(outputs@.subrange(0, i as int)),
        decreases outputs@.len() - i,
    {
        let (dst, msg) = outputs[i];
        o.push(Effect::Send { dst, msg });
        proof {
            assert(outputs@.subrange(0, i + 1) == outputs@.subrange(0, i as int).push(outputs@[i as int]));
            assert(sends_of(outputs@.subrange(0, i + 1)) == sends_of(outputs@.subrange(0, i as int)).push(
                Effect::Send { dst, msg },
            ));
        }
        i = i + 1;
    }
    assert(outputs@.subrange(0, i as int) == outputs@);
}

impl MealyMachine for CounterMachine {
    type InputMsgs = PolyMsg;
    type OutputMsgs = PolyMsg;
    type MealyState = CounterState;

    open spec fn initial_spec(state: Option<CounterState>) -> CounterState {
        match state {
            Some(s) => s,
            None => CounterState { addr: 1, counter: 0 },
        }
    }

    open spec fn respond_spec(
        dest: Address,
        state: CounterState,
        src: Address,
        msg: PolyMsg,
    ) -> (CounterState, Seq<(Address, PolyMsg)>) {
        counter_respond(state, src, msg)
    }

    fn initialize(state: Option<CounterState>) -> (r: CounterState) {
        match state {
            Some(s) => s,
            None => CounterState { addr: 1, counter: 0 },
        }
    }

    fn respond_to_msg(
        dest: Address,
        state: CounterState,
        src: Address,
        msg: PolyMsg,
    ) -> (r: (CounterState, Vec<(Address, PolyMsg)>)) {
        match msg {
            PolyMsg::SupervisorIncrementRequest(n) => (
                CounterState { counter: state.counter.saturating_add(n), ..state },
                Vec::new(),
            ),
            PolyMsg::SupervisorReportRequest() => {
                let r = (state, vec![(src, PolyMsg::CounterReplyCount(state.counter))]);
                assert(r.1@ == counter_respond(state, src, msg).1);
                r
            },
            _ => (state, Vec::new()),
        }
    }
}

impl MealyMachine for SupervisorMachine {
    type InputMsgs = PolyMsg;
    type OutputMsgs = PolyMsg;
    type MealyState = SupervisorState;

    open spec fn initial_spec(state: Option<SupervisorState>) -> SupervisorState {
        match state {
            Some(s) => s,
            None => SupervisorState { addr: 0, threshold: 5, counter_addr: 1, success: false },
        }
    }

    open spec fn respond_spec(
        dest: Address,
        state: SupervisorState,
        src: Address,
        msg: PolyMsg,
    ) -> (SupervisorState, Seq<(Address, PolyMsg)>) {
        supervisor_respond(state, msg)
    }

    fn initialize(state: Option<SupervisorState>) -> (r: SupervisorState) {
        match state {
            Some(s) => s,
            None => SupervisorState { addr: 0, threshold: 5, counter_addr: 1, success: false },
        }
    }

    fn respond_to_msg(
        dest: Address,
        state: SupervisorState,
        src: Address,
        msg: PolyMsg,
    ) -> (r: (SupervisorState, Vec<(Address, PolyMsg)>)) {
        match msg {
            PolyMsg::CounterReplyCount(n) => {
                if n >= state.threshold {
                    (SupervisorState { success: true, ..state }, Vec::new())
                } else {
                    (state, Vec::new())
                }
            },
            _ => (state, Vec::new()),
        }
    }
}

/// What a counter does with a delivered message: its rule, with each output
/// turned into a send.
pub open spec fn counter_on_msg_spec(id: Address, state: CounterState, src: Address, msg: PolyMsg) -> (
    CounterState,
    Seq<Effect>,
) {
    let r = CounterMachine::respond_spec(id, state, src, msg);
    (r.0, sends_of(r.1))
}

/// What a supervisor does with a delivered message: what comes from the
/// stimulus actor goes on to the counter unchanged; anything else goes
/// through the supervisor's rule.
pub open spec fn supervisor_on_msg_spec(
    id: Address,
    state: SupervisorState,
    src: Address,
    msg: PolyMsg,
) -> (SupervisorState, Seq<Effect>) {
    if src == INPUT_ACTOR_ADDR {
        (state, seq![Effect::Send { dst: state.counter_addr, msg }])
    } else {
        let r = SupervisorMachine::respond_spec(id, state, src, msg);
        (r.0, sends_of(r.1))
    }
}

impl CounterMachine {
    /// The state the counter starts in: the configured one. It arms no timer.
    pub fn on_start(&self, id: Address, o: &mut Vec<Effect>) -> (r: CounterState)
        ensures
            r == CounterMachine::initial_spec(Some(self.initial_state)),
            final(o)@ == old(o)@,
    {
        CounterMachine::initialize(Some(self.initial_state))
    }

    /// Delivers `msg` from `src`: replaces the state and appends the sends.
    pub fn on_msg(&self, id: Address, state: &mut CounterState, src: Address, msg: PolyMsg, o: &mut Vec<Effect>)
        ensures
            *final(state) == counter_on_msg_spec(id, *old(state), src, msg).0,
            final(o)@ == old(o)@ + counter_on_msg_spec(id, *old(state), src, msg).1,
    {
        let (new_state, outputs) = CounterMachine::respond_to_msg(id, *state, src, msg);
        *state = new_state;
        push_sends(outputs, o);
    }
}

impl SupervisorMachine {
    /// The state the supervisor starts in: the configured one. It arms no timer.
    pub fn on_start(&self, id: Address, o: &mut Vec<Effect>) -> (r: SupervisorState)
        ensures
            r == SupervisorMachine::initial_spec(Some(self.initial_state)),
            final(o)@ == old(o)@,
    {
        SupervisorMachine::initialize(Some(self.initial_state))
    }

    /// Delivers `msg` from `src`: forwards stimuli to the counter, and runs
    /// the supervisor's rule on everything else.
    pub fn on_msg(
        &self,
        id: Address,
        state: &mut SupervisorState,
        src: Address,
        msg: PolyMsg,
        o: &mut Vec<Effect>,
    )
        ensures
            *final(state) == supervisor_on_msg_spec(id, *old(state), src, msg).0,
            final(o)@ == old(o)@ + supervisor_on_msg_spec(id, *old(state), src, msg).1,
    {
        if src == INPUT_ACTOR_ADDR {
            o.push(Effect::Send { dst: state.counter_addr, msg });
        } else {
            let (new_state, outputs) = SupervisorMachine::respond_to_msg(id, *state, src, msg);
            *state = new_state;
            push_sends(outputs, o);
        }
    }
}

/// A stimulus: on timers, asks the supervisor to increment and then to
/// report.
#[derive(Clone, Copy, Debug, PartialEq, Eq)]
pub struct ExternalInputActor {
    pub threshold: CounterSize,
    pub supervisor_addr: Address,
}

#[derive(Clone, Copy, Debug, PartialEq, Eq, Hash, Structural)]
pub struct InputState {
    pub cycles: u32,
    pub done: bool,
}

/// The amount by which the stimulus asks for an increment.
pub const INCREMENT_STEP: CounterSize = 3;

/// `c + 1`, held at the largest value.
pub open spec fn next_cycle(c: u32) -> u32 {
    if c == u32::MAX {
        c
    } else {
        (c + 1) as u32
    }
}

/// What the stimulus does when one of its timers fires.
pub open spec fn input_on_timeout_spec(a: ExternalInputActor, state: InputState, timer: InputTimer) -> (
    InputState,
    Seq<Effect>,
) {
    let next = InputState { cycles: next_cycle(state.cycles), ..state };
    match timer {
        InputTimer::RequestIncrement => (
            next,
            seq![
                Effect::SetTimer { timer: InputTimer::RequestSuccess },
                Effect::Send {
                    dst: a.supervisor_addr,
                    msg: PolyMsg::SupervisorIncrementRequest(INCREMENT_STEP),
                },
            ],
        ),
        InputTimer::RequestSuccess => (
            next,
            seq![Effect::Send { dst: a.supervisor_addr, msg: PolyMsg::SupervisorReportRequest() }],
        ),
    }
}

/// What the stimulus does with a delivered message: a count at or above its
/// threshold marks it done.
pub open spec fn input_on_msg_spec(a: ExternalInputActor, state: InputState, msg: PolyMsg) -> InputState {
    match msg {
        PolyMsg::CounterReplyCount(n) => if n >= a.threshold {
            InputState { done: true, ..state }
        } else {
            state
        },
        _ => state,
    }
}

impl ExternalInputActor {
    /// Starts with no cycles, not done, and arms the increment timer.
    pub fn on_start(&self, id: Address, o: &mut Vec<Effect>) -> (r: InputState)
        ensures
            r == (InputState { cycles: 0, done: false }),
            final(o)@ == old(o)@.push(Effect::SetTimer { timer: InputTimer::RequestIncrement }),
    {
        o.push(Effect::SetTimer { timer: InputTimer::RequestIncrement });
        InputState { cycles: 0, done: false }
    }

    /// Delivers `msg`; the stimulus sends nothing in reply.
    pub fn on_msg(&self, id: Address, state: &mut InputState, src: Address, msg: PolyMsg, o: &mut Vec<Effect>)
        ensures
            *final(state) == input_on_msg_spec(*self, *old(state), msg),
            final(o)@ == old(o)@,
    {
        match msg {
            PolyMsg::CounterReplyCount(n) => {
                if n >= self.threshold {
                    state.done = true;
                }
            },
            _ => {},
        }
    }

    /// Fires `timer`: the increment timer arms the report timer and asks for
    /// an increment; the report timer asks for a report. Each counts a cycle.
    pub fn on_timeout(&self, id: Address, state: &mut InputState, timer: InputTimer, o: &mut Vec<Effect>)
        ensures
            *final(state) == input_on_timeout_spec(*self, *old(state), timer).0,
            final(o)@ == old(o)@ + input_on_timeout_spec(*self, *old(state), timer).1,
    {
        let ghost o0 = o@;
        match timer {
            InputTimer::RequestIncrement => {
                o.push(Effect::SetTimer { timer: InputTimer::RequestSuccess });
                o.push(
                    Effect::Send {
                        dst: self.supervisor_addr,
                        msg: PolyMsg::SupervisorIncrementRequest(INCREMENT_STEP),
                    },
                );
            },
            InputTimer::RequestSuccess => {
                o.push(Effect::Send { dst: self.supervisor_addr, msg: PolyMsg::SupervisorReportRequest() });
            },
        }
        state.cycles = state.cycles.saturating_add(1);
        assert(o@ == o0 + input_on_timeout_spec(*self, *old(state), timer).1);
    }
}

} // verus!
