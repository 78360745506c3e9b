use vstd::prelude::*;

use crate::deepening::deepening_spec;
use crate::machines::{BaseActor, CounterState, ExternalInputActor, InputState, SupervisorState};
use crate::messages::{Address, Effect, InputTimer, PolyMsg};
use crate::model::{
    apply_effects_upto, enabled, init_spec, reached, run, step_spec, Action, ActorState, Envelope, GlobalView,
    ModelActor, ModelError, SystemModel, TimerHandle,
};
use crate::properties::{sought, Expectation, Predicate, Property};

verus! {

pub const SUPERVISOR_ADDR: Address = 0;

pub const COUNTER_ADDR: Address = 1;

/// The count at which the supervisor and the stimulus are satisfied.
pub const SUCCESS_THRESHOLD: u32 = 3;

/// The longest path the discovery search follows.
pub const DISCOVERY_DEPTH: usize = 30;

/// A supervisor at 0, its counter at 1 starting from 0, and a stimulus at 2
/// that asks the supervisor for an increment and then for a report.
pub open spec fn counter_supervisor_actors() -> Seq<ModelActor> {
    seq![
        ModelActor::Supervisor(
            BaseActor {
                initial_state: SupervisorState {
                    addr: SUPERVISOR_ADDR,
                    threshold: SUCCESS_THRESHOLD,
                    counter_addr: COUNTER_ADDR,
                    success: false,
                },
            },
        ),
        ModelActor::Counter(BaseActor { initial_state: CounterState { addr: COUNTER_ADDR, counter: 0 } }),
        ModelActor::Input(ExternalInputActor { threshold: SUCCESS_THRESHOLD, supervisor_addr: SUPERVISOR_ADDR }),
    ]
}

/// The model of [`counter_supervisor_actors`].
pub fn counter_supervisor_model() -> (r: SystemModel)
    ensures
        r.actors@ == counter_supervisor_actors(),
{
    let mut actors: Vec<ModelActor> = Vec::new();
    actors.push(
        ModelActor::Supervisor(
            BaseActor {
                initial_state: SupervisorState {
                    addr: SUPERVISOR_ADDR,
                    threshold: SUCCESS_THRESHOLD,
                    counter_addr: COUNTER_ADDR,
                    success: false,
                },
            },
        ),
    );
    actors.push(ModelActor::Counter(BaseActor { initial_state: CounterState { addr: COUNTER_ADDR, counter: 0 } }));
    actors.push(ModelActor::Input(ExternalInputActor { threshold: SUCCESS_THRESHOLD, supervisor_addr: SUPERVISOR_ADDR }));
    assert(actors@ == counter_supervisor_actors());
    SystemModel::new(actors)
}

/// The property that the example is checked for: a supervisor eventually
/// records success.
pub open spec fn success_property() -> Property {
    Property { expectation: Expectation::Eventually, predicate: Predicate::SupervisorSuccess }
}

/// Every envelope and timer of `g` names an actor of the example.
pub open spec fn example_bounded(g: GlobalView) -> bool {
    &&& forall|i: int| 0 <= i < g.network.len() ==> (#[trigger] g.network[i]).src < 3 && g.network[i].dst < 3
    &&& forall|i: int| 0 <= i < g.timers.len() ==> (#[trigger] g.timers[i]).owner < 3
}

/// What holds of every state the example reaches: each actor holds a state
/// of its own kind, the supervisor still knows its counter, and every
/// envelope and timer names one of the three actors.
pub open spec fn example_ok(g: GlobalView) -> bool {
    &&& g.actor_states.len() == 3
    &&& (g.actor_states[0] matches ActorState::Supervisor(s) && s.counter_addr == COUNTER_ADDR)
    &&& g.actor_states[1] is Counter
    &&& g.actor_states[2] is Input
    &&& example_bounded(g)
}

/// Effects that send only to the three actors succeed, keep the actors'
/// states, and keep every envelope and timer within the three actors.
proof fn lemma_example_effects(g: GlobalView, owner: Address, es: Seq<Effect>, k: nat)
    requires
        owner < 3,
        k <= es.len(),
        example_bounded(g),
        forall|i: int| 0 <= i < es.len() ==> (#[trigger] es[i] matches Effect::Send { dst, .. } ==> dst < 3),
    ensures
        apply_effects_upto(g, 3, owner, es, k) matches Ok(h) && h.actor_states == g.actor_states
            && example_bounded(h),
    decreases k,
{
    if k > 0 {
        lemma_example_effects(g, owner, es, (k - 1) as nat);
        let h = apply_effects_upto(g, 3, owner, es, (k - 1) as nat)->Ok_0;
        let e = es[k - 1];
        match e {
            Effect::Send { dst, msg } => {
                let h2 = h.network.push(Envelope { src: owner, dst, msg });
                assert forall|i: int| 0 <= i < h2.len() implies (#[trigger] h2[i]).src < 3 && h2[i].dst < 3 by {
                    if i < h.network.len() {
                        assert(h2[i] == h.network[i]);
                    }
                }
            },
            Effect::SetTimer { timer } => {
                let t2 = h.timers.push(TimerHandle { owner, timer });
                assert forall|i: int| 0 <= i < t2.len() implies (#[trigger] t2[i]).owner < 3 by {
                    if i < h.timers.len() {
                        assert(t2[i] == h.timers[i]);
                    }
                }
            },
        }
    }
}

/// Removing the first copy of a value keeps only elements that were there.
proof fn lemma_remove_value_within<T>(s: Seq<T>, x: T, j: int)
    requires
        s.contains(x),
        0 <= j < s.remove_value(x).len(),
    ensures
        exists|i: int| 0 <= i < s.len() && s.remove_value(x)[j] == s[i],
{
    s.index_of_first_ensures(x);
    let k = s.index_of_first(x)->0;
    if j < k {
        assert(s.remove_value(x)[j] == s[j]);
    } else {
        assert(s.remove_value(x)[j] == s[j + 1]);
    }
}

/// In a state of the example every enabled action succeeds, and leads to
/// a state of the example again.
proof fn lemma_example_step(g: GlobalView, a: Action)
    requires
        example_ok(g),
        enabled(g, a),
    ensures
        step_spec(counter_supervisor_actors(), g, a) matches Ok(h) && example_ok(h),
{
    let actors = counter_supervisor_actors();
    match a {
        Action::Deliver(env) => {
            let k = choose|k: int| 0 <= k < g.network.len() && g.network[k] == env;
            assert(env.src < 3 && env.dst < 3);
            let d = env.dst as int;
            let p = crate::model::deliver_spec(actors[d], env.dst, g.actor_states[d], env.src, env.msg);
            assert(p is Some);
            let es = p->Some_0.1;
            assert forall|i: int| 0 <= i < es.len() implies (#[trigger] es[i] matches Effect::Send { dst, .. }
                ==> dst < 3) by {}
            let net = g.network.remove_value(env);
            assert forall|j: int| 0 <= j < net.len() implies (#[trigger] net[j]).src < 3 && net[j].dst < 3 by {
                lemma_remove_value_within(g.network, env, j);
            }
            let mid = GlobalView { actor_states: g.actor_states.update(d, p->Some_0.0), network: net, timers: g.timers };
            assert(example_bounded(mid));
            lemma_example_effects(mid, env.dst, es, es.len());
        },
        Action::Timeout(t) => {
            let k = choose|k: int| 0 <= k < g.timers.len() && g.timers[k] == t;
            assert(t.owner < 3);
            let d = t.owner as int;
            let p = crate::model::timeout_spec(actors[d], g.actor_states[d], t.timer);
            assert(p is Some);
            let es = p->Some_0.1;
            assert forall|i: int| 0 <= i < es.len() implies (#[trigger] es[i] matches Effect::Send { dst, .. }
                ==> dst < 3) by {}
            let ts = g.timers.remove_value(t);
            assert forall|j: int| 0 <= j < ts.len() implies (#[trigger] ts[j]).owner < 3 by {
                lemma_remove_value_within(g.timers, t, j);
            }
            let mid = GlobalView { actor_states: g.actor_states.update(d, p->Some_0.0), network: g.network, timers: ts };
            assert(example_bounded(mid));
            lemma_example_effects(mid, t.owner, es, es.len());
        },
    }
}

/// The example's global state with the given supervisor flag, count,
/// stimulus cycles, envelopes and timers.
pub open spec fn example_state(
    success: bool,
    counter: u32,
    cycles: u32,
    network: Seq<Envelope>,
    timers: Seq<TimerHandle>,
) -> GlobalView {
    GlobalView {
        actor_states: seq![
            ActorState::Supervisor(
                SupervisorState {
                    addr: SUPERVISOR_ADDR,
                    threshold: SUCCESS_THRESHOLD,
                    counter_addr: COUNTER_ADDR,
                    success,
                },
            ),
            ActorState::Counter(CounterState { addr: COUNTER_ADDR, counter }),
            ActorState::Input(InputState { cycles, done: false }),
        ],
        network,
        timers,
    }
}

/// The example starts with the stimulus's increment timer armed.
proof fn lemma_example_init()
    ensures
        init_spec(counter_supervisor_actors()) == Ok::<GlobalView, ModelError>(
            example_state(false, 0, 0, Seq::empty(), seq![TimerHandle { owner: 2, timer: InputTimer::RequestIncrement }]),
        ),
{
    let actors = counter_supervisor_actors();
    let g3 = example_state(false, 0, 0, Seq::empty(), Seq::empty());
    let e = Seq::<Effect>::empty();
    let v0 = GlobalView { actor_states: Seq::empty(), network: Seq::empty(), timers: Seq::empty() };
    let v1 = GlobalView { actor_states: seq![g3.actor_states[0]], ..v0 };
    let v2 = GlobalView { actor_states: seq![g3.actor_states[0], g3.actor_states[1]], ..v0 };
    assert(crate::model::init_upto(actors, 0) == Ok::<GlobalView, ModelError>(v0));
    assert(crate::model::start_spec(actors[0]).1 == e);
    assert(v0.actor_states.push(crate::model::start_spec(actors[0]).0) =~= v1.actor_states);
    assert(apply_effects_upto(v1, 3, 0, e, 0) == Ok::<GlobalView, ModelError>(v1));
    assert(crate::model::init_upto(actors, 1) == Ok::<GlobalView, ModelError>(v1));
    assert(crate::model::start_spec(actors[1]).1 == e);
    assert(v1.actor_states.push(crate::model::start_spec(actors[1]).0) =~= v2.actor_states);
    assert(apply_effects_upto(v2, 3, 1, e, 0) == Ok::<GlobalView, ModelError>(v2));
    assert(crate::model::init_upto(actors, 2) == Ok::<GlobalView, ModelError>(v2));
    let es = seq![Effect::SetTimer { timer: InputTimer::RequestIncrement }];
    assert(crate::model::start_spec(actors[2]).1 == es);
    assert(v2.actor_states.push(crate::model::start_spec(actors[2]).0) =~= g3.actor_states);
    assert(apply_effects_upto(g3, 3, 2, es, 0) == Ok::<GlobalView, ModelError>(g3));
    assert(apply_effects_upto(g3, 3, 2, es, 1) == Ok::<GlobalView, ModelError>(
        example_state(false, 0, 0, Seq::empty(), seq![TimerHandle { owner: 2, timer: InputTimer::RequestIncrement }]),
    ));
}

/// Every state the example reaches is one of the example's.
proof fn lemma_example_reached(p: Seq<Action>)
    requires
        reached(counter_supervisor_actors(), p) is Ok,
    ensures
        example_ok(reached(counter_supervisor_actors(), p)->Ok_0),
    decreases p.len(),
{
    let actors = counter_supervisor_actors();
    lemma_example_init();
    if p.len() == 0 {
        let g = reached(actors, p)->Ok_0;
        assert(g.timers[0].owner == 2);
    } else {
        let q = p.drop_last();
        assert(reached(actors, q) is Ok);
        lemma_example_reached(q);
        let g = reached(actors, q)->Ok_0;
        assert(step_spec(actors, g, p.last()) is Ok);
        assert(enabled(g, p.last()));
        lemma_example_step(g, p.last());
    }
}

/// One copy removed from a one-element sequence leaves it empty.
proof fn lemma_remove_only<T>(x: T)
    ensures
        seq![x].remove_value(x) == Seq::<T>::empty(),
{
    seq![x].index_of_first_ensures(x);
    assert(seq![x][0] == x);
}

/// A run of seven actions from the start of the example to success: the
/// stimulus asks for an increment, which the supervisor forwards and the
/// counter applies; then it asks for a report, which the counter answers
/// to the supervisor.
pub open spec fn success_path() -> Seq<Action> {
    let ri = TimerHandle { owner: 2, timer: InputTimer::RequestIncrement };
    let rs = TimerHandle { owner: 2, timer: InputTimer::RequestSuccess };
    seq![
        Action::Timeout(ri),
        Action::Deliver(Envelope { src: 2, dst: 0, msg: PolyMsg::SupervisorIncrementRequest(3) }),
        Action::Deliver(Envelope { src: 0, dst: 1, msg: PolyMsg::SupervisorIncrementRequest(3) }),
        Action::Timeout(rs),
        Action::Deliver(Envelope { src: 2, dst: 0, msg: PolyMsg::SupervisorReportRequest() }),
        Action::Deliver(Envelope { src: 0, dst: 1, msg: PolyMsg::SupervisorReportRequest() }),
        Action::Deliver(Envelope { src: 1, dst: 0, msg: PolyMsg::CounterReplyCount(3) }),
    ]
}

/// The success path is a run of the example, and it ends in success.
proof fn lemma_success_path()
    ensures
        reached(counter_supervisor_actors(), success_path()) matches Ok(g) && sought(success_property(), g),
{
    let actors = counter_supervisor_actors();
    let w = success_path();
    let ri = TimerHandle { owner: 2, timer: InputTimer::RequestIncrement };
    let rs = TimerHandle { owner: 2, timer: InputTimer::RequestSuccess };
    let e1 = Envelope { src: 2, dst: 0, msg: PolyMsg::SupervisorIncrementRequest(3) };
    let e2 = Envelope { src: 0, dst: 1, msg: PolyMsg::SupervisorIncrementRequest(3) };
    let e3 = Envelope { src: 2, dst: 0, msg: PolyMsg::SupervisorReportRequest() };
    let e4 = Envelope { src: 0, dst: 1, msg: PolyMsg::SupervisorReportRequest() };
    let e5 = Envelope { src: 1, dst: 0, msg: PolyMsg::CounterReplyCount(3) };
    let none_e = Seq::<Envelope>::empty();
    let none_t = Seq::<TimerHandle>::empty();
    let g0 = example_state(false, 0, 0, none_e, seq![ri]);
    let g1 = example_state(false, 0, 1, seq![e1], seq![rs]);
    let g2 = example_state(false, 0, 1, seq![e2], seq![rs]);
    let g3 = example_state(false, 3, 1, none_e, seq![rs]);
    let g4 = example_state(false, 3, 2, seq![e3], none_t);
    let g5 = example_state(false, 3, 2, seq![e4], none_t);
    let g6 = example_state(false, 3, 2, seq![e5], none_t);
    let g7 = example_state(true, 3, 2, none_e, none_t);
    lemma_example_init();
    lemma_remove_only(ri);
    lemma_remove_only(rs);
    lemma_remove_only(e1);
    lemma_remove_only(e2);
    lemma_remove_only(e3);
    lemma_remove_only(e4);
    lemma_remove_only(e5);
    assert(g0.timers[0] == ri);
    assert(g1.network[0] == e1);
    assert(g2.network[0] == e2);
    assert(g3.timers[0] == rs);
    assert(g4.network[0] == e3);
    assert(g5.network[0] == e4);
    assert(g6.network[0] == e5);
    // step 1
    let es0 = seq![
        Effect::SetTimer { timer: InputTimer::RequestSuccess },
        Effect::Send { dst: 0, msg: PolyMsg::SupervisorIncrementRequest(3) },
    ];
    assert(crate::model::timeout_spec(actors[2], g0.actor_states[2], ri.timer) == Some((ActorState::Input(InputState { cycles: 1, done: false }), es0)));
    let mid0 = GlobalView { actor_states: g1.actor_states, network: none_e, timers: none_t };
    assert(g0.actor_states.update(2, ActorState::Input(InputState { cycles: 1, done: false })) =~= g1.actor_states);
    assert(apply_effects_upto(mid0, 3, 2, es0, 0) == Ok::<GlobalView, ModelError>(mid0));
    assert(apply_effects_upto(mid0, 3, 2, es0, 1) == Ok::<GlobalView, ModelError>(GlobalView { network: none_e, timers: seq![rs], ..mid0 }));
    assert(apply_effects_upto(mid0, 3, 2, es0, 2) == Ok::<GlobalView, ModelError>(GlobalView { network: seq![e1], timers: seq![rs], ..mid0 }));
    assert(step_spec(actors, g0, w[0]) == Ok::<GlobalView, ModelError>(g1));
    // step 2
    let es1 = seq![
        Effect::Send { dst: 1, msg: PolyMsg::SupervisorIncrementRequest(3) },
    ];
    assert(crate::model::deliver_spec(actors[0], 0, g1.actor_states[0], e1.src, e1.msg) == Some((ActorState::Supervisor(SupervisorState { addr: SUPERVISOR_ADDR, threshold: SUCCESS_THRESHOLD, counter_addr: COUNTER_ADDR, success: false }), es1)));
    let mid1 = GlobalView { actor_states: g2.actor_states, network: none_e, timers: seq![rs] };
    assert(g1.actor_states.update(0, ActorState::Supervisor(SupervisorState { addr: SUPERVISOR_ADDR, threshold: SUCCESS_THRESHOLD, counter_addr: COUNTER_ADDR, success: false })) =~= g2.actor_states);
    assert(apply_effects_upto(mid1, 3, 0, es1, 0) == Ok::<GlobalView, ModelError>(mid1));
    assert(apply_effects_upto(mid1, 3, 0, es1, 1) == Ok::<GlobalView, ModelError>(GlobalView { network: seq![e2], timers: seq![rs], ..mid1 }));
    assert(step_spec(actors, g1, w[1]) == Ok::<GlobalView, ModelError>(g2));
    // step 3
    let es2 = Seq::<Effect>::empty();
    assert(crate::model::deliver_spec(actors[1], 1, g2.actor_states[1], e2.src, e2.msg) == Some((ActorState::Counter(CounterState { addr: COUNTER_ADDR, counter: 3 }), es2)));
    let mid2 = GlobalView { actor_states: g3.actor_states, network: none_e, timers: seq![rs] };
    assert(g2.actor_states.update(1, ActorState::Counter(CounterState { addr: COUNTER_ADDR, counter: 3 })) =~= g3.actor_states);
    assert(apply_effects_upto(mid2, 3, 1, es2, 0) == Ok::<GlobalView, ModelError>(mid2));
    assert(step_spec(actors, g2, w[2]) == Ok::<GlobalView, ModelError>(g3));
    // step 4
    let es3 = seq![
        Effect::Send { dst: 0, msg: PolyMsg::SupervisorReportRequest() },
    ];
    assert(crate::model::timeout_spec(actors[2], g3.actor_states[2], rs.timer) == Some((ActorState::Input(InputState { cycles: 2, done: false }), es3)));
    let mid3 = GlobalView { actor_states: g4.actor_states, network: none_e, timers: none_t };
    assert(g3.actor_states.update(2, ActorState::Input(InputState { cycles: 2, done: false })) =~= g4.actor_states);
    assert(apply_effects_upto(mid3, 3, 2, es3, 0) == Ok::<GlobalView, ModelError>(mid3));
    assert(apply_effects_upto(mid3, 3, 2, es3, 1) == Ok::<GlobalView, ModelError>(GlobalView { network: seq![e3], timers: none_t, ..mid3 }));
    assert(step_spec(actors, g3, w[3]) == Ok::<GlobalView, ModelError>(g4));
    // step 5
    let es4 = seq![
        Effect::Send { dst: 1, msg: PolyMsg::SupervisorReportRequest() },
    ];
    assert(crate::model::deliver_spec(actors[0], 0, g4.actor_states[0], e3.src, e3.msg) == Some((ActorState::Supervisor(SupervisorState { addr: SUPERVISOR_ADDR, threshold: SUCCESS_THRESHOLD, counter_addr: COUNTER_ADDR, success: false }), es4)));
    let mid4 = GlobalView { actor_states: g5.actor_states, network: none_e, timers: none_t };
    assert(g4.actor_states.update(0, ActorState::Supervisor(SupervisorState { addr: SUPERVISOR_ADDR, threshold: SUCCESS_THRESHOLD, counter_addr: COUNTER_ADDR, success: false })) =~= g5.actor_states);
    assert(apply_effects_upto(mid4, 3, 0, es4, 0) == Ok::<GlobalView, ModelError>(mid4));
    assert(apply_effects_upto(mid4, 3, 0, es4, 1) == Ok::<GlobalView, ModelError>(GlobalView { network: seq![e4], timers: none_t, ..mid4 }));
    assert(step_spec(actors, g4, w[4]) == Ok::<GlobalView, ModelError>(g5));
    // step 6
    let es5 = seq![
        Effect::Send { dst: 0, msg: PolyMsg::CounterReplyCount(3) },
    ];
    assert(crate::model::deliver_spec(actors[1], 1, g5.actor_states[1], e4.src, e4.msg) == Some((ActorState::Counter(CounterState { addr: COUNTER_ADDR, counter: 3 }), es5)));
    let mid5 = GlobalView { actor_states: g6.actor_states, network: none_e, timers: none_t };
    assert(g5.actor_states.update(1, ActorState::Counter(CounterState { addr: COUNTER_ADDR, counter: 3 })) =~= g6.actor_states);
    assert(apply_effects_upto(mid5, 3, 1, es5, 0) == Ok::<GlobalView, ModelError>(mid5));
    assert(apply_effects_upto(mid5, 3, 1, es5, 1) == Ok::<GlobalView, ModelError>(GlobalView { network: seq![e5], timers: none_t, ..mid5 }));
    assert(step_spec(actors, g5, w[5]) == Ok::<GlobalView, ModelError>(g6));
    // step 7
    let es6 = Seq::<Effect>::empty();
    assert(crate::model::deliver_spec(actors[0], 0, g6.actor_states[0], e5.src, e5.msg) == Some((ActorState::Supervisor(SupervisorState { addr: SUPERVISOR_ADDR, threshold: SUCCESS_THRESHOLD, counter_addr: COUNTER_ADDR, success: true }), es6)));
    let mid6 = GlobalView { actor_states: g7.actor_states, network: none_e, timers: none_t };
    assert(g6.actor_states.update(0, ActorState::Supervisor(SupervisorState { addr: SUPERVISOR_ADDR, threshold: SUCCESS_THRESHOLD, counter_addr: COUNTER_ADDR, success: true })) =~= g7.actor_states);
    assert(apply_effects_upto(mid6, 3, 0, es6, 0) == Ok::<GlobalView, ModelError>(mid6));
    assert(step_spec(actors, g6, w[6]) == Ok::<GlobalView, ModelError>(g7));
    let gs = seq![g0, g1, g2, g3, g4, g5, g6, g7];
    assert(w.take(0) == Seq::<Action>::empty());
    assert(run(actors, g0, w.take(0)) == Ok::<GlobalView, ModelError>(g0));
    assert(w.take(1).drop_last() == w.take(0));
    assert(w.take(1).last() == w[0]);
    assert(run(actors, g0, w.take(1)) == Ok::<GlobalView, ModelError>(gs[1]));
    assert(w.take(2).drop_last() == w.take(1));
    assert(w.take(2).last() == w[1]);
    assert(run(actors, g0, w.take(2)) == Ok::<GlobalView, ModelError>(gs[2]));
    assert(w.take(3).drop_last() == w.take(2));
    assert(w.take(3).last() == w[2]);
    assert(run(actors, g0, w.take(3)) == Ok::<GlobalView, ModelError>(gs[3]));
    assert(w.take(4).drop_last() == w.take(3));
    assert(w.take(4).last() == w[3]);
    assert(run(actors, g0, w.take(4)) == Ok::<GlobalView, ModelError>(gs[4]));
    assert(w.take(5).drop_last() == w.take(4));
    assert(w.take(5).last() == w[4]);
    assert(run(actors, g0, w.take(5)) == Ok::<GlobalView, ModelError>(gs[5]));
    assert(w.take(6).drop_last() == w.take(5));
    assert(w.take(6).last() == w[5]);
    assert(run(actors, g0, w.take(6)) == Ok::<GlobalView, ModelError>(gs[6]));
    assert(w.take(7).drop_last() == w.take(6));
    assert(w.take(7).last() == w[6]);
    assert(run(actors, g0, w.take(7)) == Ok::<GlobalView, ModelError>(gs[7]));
    assert(w.take(7) == w);
    assert(crate::properties::actor_satisfies(Predicate::SupervisorSuccess, g7.actor_states[0]));
}

/// Searches the counter and supervisor model for a path to success: the
/// property that the supervisor eventually records success. One always
/// comes back: the shortest trace of the model that ends in success which
/// comes first when the actions are tried in the order they are enabled.
/// The path is a fixed value of the model, so every call returns the same.
pub fn check_counter_supervisor_by_discovery() -> (r: Vec<Action>)
    ensures
        deepening_spec(counter_supervisor_actors(), success_property(), DISCOVERY_DEPTH as nat) == Ok::<
            Option<Seq<Action>>,
            ModelError,
        >(Some(r@)),
        r@.len() <= DISCOVERY_DEPTH,
        reached(counter_supervisor_actors(), r@) matches Ok(g) && sought(success_property(), g),
        forall|q: Seq<Action>|
            q.len() < r@.len() && #[trigger] reached(counter_supervisor_actors(), q) is Ok ==> !sought(
                success_property(),
                reached(counter_supervisor_actors(), q)->Ok_0,
            ),
{
    let model = counter_supervisor_model();
    let success = Property { expectation: Expectation::Eventually, predicate: Predicate::SupervisorSuccess };
    match model.discover_by_deepening(success, DISCOVERY_DEPTH) {
        Ok(Some(p)) => p,
        Ok(None) => {
            proof {
                lemma_success_path();
                assert(reached(counter_supervisor_actors(), success_path()) is Ok);
            }
            Vec::new()
        },
        Err(e) => {
            proof {
                let actors = counter_supervisor_actors();
                let p = choose|p: Seq<Action>|
                    1 <= p.len() <= DISCOVERY_DEPTH && (reached(actors, p.drop_last()) matches Ok(g) && enabled(
                        g,
                        p.last(),
                    )) && #[trigger] reached(actors, p) == Err::<GlobalView, ModelError>(e);
                lemma_example_reached(p.drop_last());
                let g = reached(actors, p.drop_last())->Ok_0;
                lemma_example_step(g, p.last());
                assert(p == p.drop_last().push(p.last()));
                assert(reached(actors, p) == step_spec(actors, g, p.last()));
            }
            Vec::new()
        },
    }
}

} // verus!
