use mealy_actors::{
    check_counter_supervisor_by_discovery, counter_supervisor_model, state_filter_success, Action, ActorState,
    BaseActor, CounterMachine, CounterState, Effect, Envelope, ExternalInputActor, GlobalState, InputState,
    Expectation, InputTimer, MealyMachine, ModelActor, ModelError, MsgsCounterToSupervisor, MsgsSupervisorToCounter,
    PolyMsg, Predicate, Property, SearchOutcome, SupervisorMachine, SupervisorState, SystemModel, TimerHandle,
};

const SUCCESS: Property = Property { expectation: Expectation::Eventually, predicate: Predicate::SupervisorSuccess };

fn supervisor(threshold: u32) -> SupervisorState {
    SupervisorState { addr: 0, threshold, counter_addr: 1, success: false }
}

fn two_actor_model(threshold: u32) -> SystemModel {
    SystemModel::new(vec![
        ModelActor::Supervisor(BaseActor { initial_state: supervisor(threshold) }),
        ModelActor::Counter(BaseActor { initial_state: CounterState { addr: 1, counter: 0 } }),
    ])
}

fn state_with(actors: Vec<ActorState>, network: Vec<Envelope>) -> GlobalState {
    GlobalState { actor_states: actors, network, timers: Vec::new() }
}

fn counter_of(g: &GlobalState, i: usize) -> u32 {
    match g.actor_states[i] {
        ActorState::Counter(c) => c.counter,
        _ => panic!("not a counter"),
    }
}

fn success_of(g: &GlobalState, i: usize) -> bool {
    match g.actor_states[i] {
        ActorState::Supervisor(s) => s.success,
        _ => panic!("not a supervisor"),
    }
}

fn after_increment() -> (SystemModel, GlobalState) {
    let model = two_actor_model(3);
    let g = model.init_state().unwrap();
    let inc = Envelope { src: 0, dst: 1, msg: PolyMsg::SupervisorIncrementRequest(3) };
    let g = state_with(g.actor_states, vec![inc]);
    let g1 = model.next_state(&g, &Action::Deliver(inc)).unwrap();
    (model, g1)
}

#[test]
fn increment_request_sets_counter() {
    let (_, g1) = after_increment();
    assert_eq!(counter_of(&g1, 1), 3);
    assert!(g1.network.is_empty());
}

#[test]
fn report_request_replies_to_requester() {
    let (model, g1) = after_increment();
    let report = Envelope { src: 0, dst: 1, msg: PolyMsg::SupervisorReportRequest() };
    let g = state_with(g1.actor_states, vec![report]);
    let g2 = model.next_state(&g, &Action::Deliver(report)).unwrap();
    assert_eq!(g2.network, vec![Envelope { src: 1, dst: 0, msg: PolyMsg::CounterReplyCount(3) }]);
    assert_eq!(counter_of(&g2, 1), 3);
}

fn reply_to_supervisor(threshold: u32, n: u32) -> bool {
    let model = two_actor_model(threshold);
    let g = model.init_state().unwrap();
    let reply = Envelope { src: 1, dst: 0, msg: PolyMsg::CounterReplyCount(n) };
    let g = state_with(g.actor_states, vec![reply]);
    let g2 = model.next_state(&g, &Action::Deliver(reply)).unwrap();
    assert!(g2.network.is_empty());
    success_of(&g2, 0)
}

#[test]
fn reply_at_threshold_is_success() {
    assert!(reply_to_supervisor(3, 3));
}

#[test]
fn reply_below_threshold_is_not_success() {
    assert!(!reply_to_supervisor(3, 2));
}

#[test]
fn reply_above_threshold_is_success() {
    assert!(reply_to_supervisor(3, 4));
}

fn discovered(r: Result<SearchOutcome, ModelError>) -> Vec<Action> {
    match r {
        Ok(SearchOutcome::Discovered(path)) => path,
        other => panic!("no discovery: {:?}", other),
    }
}

fn replay(model: &SystemModel, path: &[Action]) -> Vec<GlobalState> {
    let mut states = vec![model.init_state().unwrap()];
    for a in path {
        let next = model.next_state(states.last().unwrap(), a).unwrap();
        states.push(next);
    }
    states
}

#[test]
fn discovery_finds_success_and_repeats() {
    let first = check_counter_supervisor_by_discovery();
    let second = check_counter_supervisor_by_discovery();
    assert_eq!(first, second);
    assert_eq!(first.len(), 7);
    let states = replay(&counter_supervisor_model(), &first);
    let last = states.last().unwrap();
    assert!(last.actor_states.iter().any(state_filter_success));
    assert!(!states[..states.len() - 1].iter().any(|g| g.actor_states.iter().any(state_filter_success)));
}

#[test]
fn counter_never_decreases_along_discovery() {
    let path = check_counter_supervisor_by_discovery();
    let states = replay(&counter_supervisor_model(), &path);
    for w in states.windows(2) {
        assert!(counter_of(&w[1], 1) >= counter_of(&w[0], 1));
    }
    assert_eq!(counter_of(states.last().unwrap(), 1), 3);
}

#[test]
fn same_increment_delivered_twice_counts_twice() {
    let model = two_actor_model(3);
    let g = model.init_state().unwrap();
    let inc = Envelope { src: 0, dst: 1, msg: PolyMsg::SupervisorIncrementRequest(3) };
    let g = state_with(g.actor_states, vec![inc, inc]);
    let g1 = model.next_state(&g, &Action::Deliver(inc)).unwrap();
    assert_eq!(g1.network, vec![inc]);
    assert_eq!(counter_of(&g1, 1), 3);
    let g2 = model.next_state(&g1, &Action::Deliver(inc)).unwrap();
    assert!(g2.network.is_empty());
    assert_eq!(counter_of(&g2, 1), 6);
    assert_eq!(model.next_state(&g2, &Action::Deliver(inc)).unwrap_err(), ModelError::NotEnabled);
}

#[test]
fn transition_is_deterministic() {
    let s = CounterState { addr: 1, counter: 7 };
    let a = CounterMachine::respond_to_msg(1, s, 0, PolyMsg::SupervisorReportRequest());
    let b = CounterMachine::respond_to_msg(1, s, 0, PolyMsg::SupervisorReportRequest());
    assert_eq!(a, b);
    assert_eq!(a.1, vec![(0, PolyMsg::CounterReplyCount(7))]);
    let model = counter_supervisor_model();
    let g = model.init_state().unwrap();
    let act = Action::Timeout(TimerHandle { owner: 2, timer: InputTimer::RequestIncrement });
    let x = model.next_state(&g, &act).unwrap();
    let y = model.next_state(&g, &act).unwrap();
    assert!(x.same_as(&y));
}

#[test]
fn counter_ignores_reply_count() {
    let s = CounterState { addr: 1, counter: 4 };
    let (t, out) = CounterMachine::respond_to_msg(1, s, 0, PolyMsg::CounterReplyCount(9));
    assert_eq!(t, s);
    assert!(out.is_empty());
}

#[test]
fn counter_saturates_at_largest_count() {
    let s = CounterState { addr: 1, counter: u32::MAX - 1 };
    let (t, _) = CounterMachine::respond_to_msg(1, s, 0, PolyMsg::SupervisorIncrementRequest(3));
    assert_eq!(t.counter, u32::MAX);
}

#[test]
fn supervisor_ignores_requests() {
    let s = supervisor(3);
    let (t, out) = SupervisorMachine::respond_to_msg(0, s, 1, PolyMsg::SupervisorIncrementRequest(5));
    assert_eq!(t, s);
    assert!(out.is_empty());
}

#[test]
fn defaults_when_no_state_given() {
    assert_eq!(CounterMachine::initialize(None), CounterState { addr: 1, counter: 0 });
    let s = SupervisorMachine::initialize(None);
    assert_eq!(s.threshold, 5);
    assert!(!s.success);
    let given = CounterState { addr: 4, counter: 2 };
    assert_eq!(CounterMachine::initialize(Some(given)), given);
}

#[test]
fn supervisor_forwards_stimulus_to_counter() {
    let m = BaseActor { initial_state: supervisor(3) };
    let mut st = supervisor(3);
    let mut o = Vec::new();
    m.on_msg(0, &mut st, 2, PolyMsg::SupervisorIncrementRequest(3), &mut o);
    assert_eq!(st, supervisor(3));
    assert_eq!(o, vec![Effect::Send { dst: 1, msg: PolyMsg::SupervisorIncrementRequest(3) }]);
}

#[test]
fn stimulus_timers_send_requests() {
    let a = ExternalInputActor { threshold: 3, supervisor_addr: 0 };
    let mut o = Vec::new();
    let mut st = a.on_start(2, &mut o);
    assert_eq!(o, vec![Effect::SetTimer { timer: InputTimer::RequestIncrement }]);
    let mut o = Vec::new();
    a.on_timeout(2, &mut st, InputTimer::RequestIncrement, &mut o);
    assert_eq!(
        o,
        vec![
            Effect::SetTimer { timer: InputTimer::RequestSuccess },
            Effect::Send { dst: 0, msg: PolyMsg::SupervisorIncrementRequest(3) },
        ]
    );
    let mut o = Vec::new();
    a.on_timeout(2, &mut st, InputTimer::RequestSuccess, &mut o);
    assert_eq!(o, vec![Effect::Send { dst: 0, msg: PolyMsg::SupervisorReportRequest() }]);
    assert_eq!(st, InputState { cycles: 2, done: false });
    a.on_msg(2, &mut st, 1, PolyMsg::CounterReplyCount(3), &mut o);
    assert!(st.done);
}

#[test]
fn initial_state_arms_stimulus_timer() {
    let g = counter_supervisor_model().init_state().unwrap();
    assert_eq!(g.timers, vec![TimerHandle { owner: 2, timer: InputTimer::RequestIncrement }]);
    assert!(g.network.is_empty());
    assert_eq!(g.actor_states[2], ActorState::Input(InputState { cycles: 0, done: false }));
    assert_eq!(counter_of(&g, 1), 0);
}

#[test]
fn actions_list_deliveries_then_timeouts() {
    let model = counter_supervisor_model();
    let mut g = model.init_state().unwrap();
    let e = Envelope { src: 2, dst: 0, msg: PolyMsg::SupervisorReportRequest() };
    g.network.push(e);
    let t = TimerHandle { owner: 2, timer: InputTimer::RequestIncrement };
    assert_eq!(model.actions(&g), vec![Action::Deliver(e), Action::Timeout(t)]);
}

#[test]
fn timer_is_removed_when_fired_and_set_once() {
    let model = counter_supervisor_model();
    let g = model.init_state().unwrap();
    let t = TimerHandle { owner: 2, timer: InputTimer::RequestIncrement };
    let g1 = model.next_state(&g, &Action::Timeout(t)).unwrap();
    assert_eq!(g1.timers, vec![TimerHandle { owner: 2, timer: InputTimer::RequestSuccess }]);
    assert_eq!(g1.network, vec![Envelope { src: 2, dst: 0, msg: PolyMsg::SupervisorIncrementRequest(3) }]);
    assert_eq!(model.next_state(&g1, &Action::Timeout(t)).unwrap_err(), ModelError::NotEnabled);
    let mut g2 = g1.copy();
    g2.timers.push(t);
    let g3 = model.next_state(&g2, &Action::Timeout(t)).unwrap();
    assert_eq!(g3.timers, vec![TimerHandle { owner: 2, timer: InputTimer::RequestSuccess }]);
}

#[test]
fn send_to_unknown_address_is_an_error() {
    let model = SystemModel::new(vec![ModelActor::Counter(BaseActor {
        initial_state: CounterState { addr: 0, counter: 0 },
    })]);
    let g = model.init_state().unwrap();
    let report = Envelope { src: 9, dst: 0, msg: PolyMsg::SupervisorReportRequest() };
    let g = state_with(g.actor_states, vec![report]);
    assert_eq!(model.next_state(&g, &Action::Deliver(report)).unwrap_err(), ModelError::UnknownAddress(9));
    let lost = Envelope { src: 0, dst: 5, msg: PolyMsg::SupervisorReportRequest() };
    let g = state_with(g.actor_states, vec![lost]);
    assert_eq!(model.next_state(&g, &Action::Deliver(lost)).unwrap_err(), ModelError::UnknownAddress(5));
}

#[test]
fn state_of_wrong_kind_is_an_error() {
    let model = two_actor_model(3);
    let inc = Envelope { src: 0, dst: 1, msg: PolyMsg::SupervisorIncrementRequest(1) };
    let g = state_with(vec![ActorState::Supervisor(supervisor(3)), ActorState::Supervisor(supervisor(3))], vec![inc]);
    assert_eq!(model.next_state(&g, &Action::Deliver(inc)).unwrap_err(), ModelError::KindMismatch(1));
}

#[test]
fn discovery_stops_at_depth_bound() {
    let model = counter_supervisor_model();
    assert_eq!(model.discover(SUCCESS, 6, 100000), Ok(SearchOutcome::DepthBounded));
    assert_eq!(discovered(model.discover(SUCCESS, 7, 100000)).len(), 7);
    assert_eq!(model.discover(SUCCESS, 30, 1), Ok(SearchOutcome::StateLimit));
}

#[test]
fn discovery_of_initial_success_is_empty_path() {
    let mut s = supervisor(3);
    s.success = true;
    let model = SystemModel::new(vec![ModelActor::Supervisor(BaseActor { initial_state: s })]);
    assert_eq!(model.discover(SUCCESS, 5, 10), Ok(SearchOutcome::Discovered(Vec::new())));
}

#[test]
fn messages_map_into_shared_alphabet() {
    assert_eq!(MsgsCounterToSupervisor::ReplyCount(4).to_poly(), PolyMsg::CounterReplyCount(4));
    assert_eq!(MsgsSupervisorToCounter::IncrementRequest(2).to_poly(), PolyMsg::SupervisorIncrementRequest(2));
    assert_eq!(MsgsSupervisorToCounter::ReportRequest().to_poly(), PolyMsg::SupervisorReportRequest());
}

#[test]
fn states_equal_whatever_order_envelopes_arrived() {
    let a = Envelope { src: 0, dst: 1, msg: PolyMsg::SupervisorIncrementRequest(3) };
    let b = Envelope { src: 2, dst: 0, msg: PolyMsg::SupervisorReportRequest() };
    let actors = vec![ActorState::Supervisor(supervisor(3))];
    let x = state_with(actors.clone(), vec![a, b, a]);
    let y = state_with(actors.clone(), vec![a, a, b]);
    let z = state_with(actors.clone(), vec![a, b, b]);
    let w = state_with(vec![ActorState::Supervisor(supervisor(4))], vec![a, b, a]);
    assert!(x.same_as(&y));
    assert!(y.same_as(&x));
    assert!(!x.same_as(&z));
    assert!(!x.same_as(&w));
    assert!(!x.same_as(&state_with(actors, vec![a, b])));
}

#[test]
fn states_equal_whatever_order_timers_were_set() {
    let t1 = TimerHandle { owner: 2, timer: InputTimer::RequestIncrement };
    let t2 = TimerHandle { owner: 2, timer: InputTimer::RequestSuccess };
    let mut x = state_with(Vec::new(), Vec::new());
    x.timers = vec![t1, t2];
    let mut y = state_with(Vec::new(), Vec::new());
    y.timers = vec![t2, t1];
    assert!(x.same_as(&y));
    y.timers = vec![t2];
    assert!(!x.same_as(&y));
}

#[test]
fn always_property_without_counterexample() {
    let model = counter_supervisor_model();
    let p = Property { expectation: Expectation::Always, predicate: Predicate::CounterAtLeast(0) };
    assert_eq!(model.discover(p, 30, 100000), Ok(SearchOutcome::Exhausted));
}

#[test]
fn always_property_broken_at_start() {
    let model = counter_supervisor_model();
    let p = Property { expectation: Expectation::Always, predicate: Predicate::StimulusDone };
    assert_eq!(model.discover(p, 30, 100000), Ok(SearchOutcome::Discovered(Vec::new())));
}

#[test]
fn sometimes_property_witness_is_shortest() {
    let model = counter_supervisor_model();
    let p = Property { expectation: Expectation::Sometimes, predicate: Predicate::CounterAtLeast(3) };
    let path = discovered(model.discover(p, 30, 100000));
    assert_eq!(path.len(), 3);
    let states = replay(&model, &path);
    assert_eq!(counter_of(states.last().unwrap(), 1), 3);
    let never = Property { expectation: Expectation::Sometimes, predicate: Predicate::CounterAtLeast(4) };
    assert_eq!(model.discover(never, 30, 100000), Ok(SearchOutcome::Exhausted));
}

#[test]
fn predicates_read_actor_states() {
    let c = ActorState::Counter(CounterState { addr: 1, counter: 5 });
    assert!(Predicate::CounterAtLeast(5).satisfied_by(&c));
    assert!(!Predicate::CounterAtLeast(6).satisfied_by(&c));
    assert!(!Predicate::SupervisorSuccess.satisfied_by(&c));
    assert!(Predicate::StimulusDone.satisfied_by(&ActorState::Input(InputState { cycles: 1, done: true })));
    assert!(!state_filter_success(&ActorState::Supervisor(supervisor(3))));
}

#[test]
fn delivery_consumes_one_copy_and_adds_replies() {
    let model = two_actor_model(3);
    let g = model.init_state().unwrap();
    let report = Envelope { src: 0, dst: 1, msg: PolyMsg::SupervisorReportRequest() };
    let inc = Envelope { src: 0, dst: 1, msg: PolyMsg::SupervisorIncrementRequest(2) };
    let g = state_with(g.actor_states, vec![report, inc, report]);
    let g1 = model.next_state(&g, &Action::Deliver(report)).unwrap();
    let reply = Envelope { src: 1, dst: 0, msg: PolyMsg::CounterReplyCount(0) };
    assert!(g1.same_as(&state_with(g1.actor_states.clone(), vec![inc, report, reply])));
    assert_eq!(g1.network.iter().filter(|e| **e == report).count(), 1);
}

#[test]
fn deepening_finds_shortest_success() {
    let model = counter_supervisor_model();
    let path = model.discover_by_deepening(SUCCESS, 30).unwrap().unwrap();
    assert_eq!(path.len(), 7);
    assert_eq!(path, check_counter_supervisor_by_discovery());
    let states = replay(&model, &path);
    assert!(states.last().unwrap().actor_states.iter().any(state_filter_success));
    assert_eq!(model.discover_by_deepening(SUCCESS, 6), Ok(None));
}

#[test]
fn deepening_agrees_with_breadth_first_on_length() {
    let model = counter_supervisor_model();
    let p = Property { expectation: Expectation::Sometimes, predicate: Predicate::CounterAtLeast(3) };
    let a = model.discover_by_deepening(p, 30).unwrap().unwrap();
    let b = discovered(model.discover(p, 30, 100000));
    assert_eq!(a.len(), b.len());
    let never = Property { expectation: Expectation::Always, predicate: Predicate::CounterAtLeast(0) };
    assert_eq!(model.discover_by_deepening(never, 8), Ok(None));
}

#[test]
fn deepening_reports_failing_action() {
    let model = SystemModel::new(vec![ModelActor::Supervisor(BaseActor {
        initial_state: SupervisorState { addr: 0, threshold: 3, counter_addr: 1, success: false },
    })]);
    let g = model.init_state().unwrap();
    assert!(g.network.is_empty());
    assert_eq!(model.discover_by_deepening(SUCCESS, 3), Ok(None));
}

#[test]
fn global_state_equality_ignores_arrival_order() {
    let a = Envelope { src: 0, dst: 1, msg: PolyMsg::SupervisorIncrementRequest(3) };
    let b = Envelope { src: 2, dst: 0, msg: PolyMsg::SupervisorReportRequest() };
    let x = state_with(vec![ActorState::Supervisor(supervisor(3))], vec![a, b]);
    let y = state_with(vec![ActorState::Supervisor(supervisor(3))], vec![b, a]);
    assert!(x == y);
    assert!(x != state_with(vec![ActorState::Supervisor(supervisor(3))], vec![a]));
}

#[test]
fn discover_reports_exhaustion_apart_from_depth_bound() {
    let model = counter_supervisor_model();
    let never = Property { expectation: Expectation::Sometimes, predicate: Predicate::CounterAtLeast(4) };
    assert_eq!(model.discover(never, 30, 100000), Ok(SearchOutcome::Exhausted));
    assert_eq!(model.discover(never, 2, 100000), Ok(SearchOutcome::DepthBounded));
}
