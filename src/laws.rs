use vstd::prelude::*;

use crate::machines::{saturated_sum, CounterState};
use crate::messages::{Address, CounterSize, Effect, PolyMsg};
use crate::model::{
    apply_effects, apply_effects_upto, equivalent, run, step_spec, ActorState, Action, Envelope, GlobalView, ModelActor,
    ModelError,
};

verus! {

/// Carrying out effects never touches the actors' states.
proof fn lemma_effects_keep_actor_states(g: GlobalView, n: nat, owner: Address, es: Seq<Effect>, k: nat)
    ensures
        apply_effects_upto(g, n, owner, es, k) matches Ok(g2) ==> g2.actor_states == g.actor_states,
    decreases k,
{
    if k > 0 {
        lemma_effects_keep_actor_states(g, n, owner, es, (k - 1) as nat);
    }
}

/// A counter's count never goes down: whatever action is taken in whatever
/// state, an actor that held a counter's state still holds one afterwards,
/// with a count at least as large.
pub proof fn lemma_counter_monotone(actors: Seq<ModelActor>, g: GlobalView, act: Action, i: int)
    requires
        step_spec(actors, g, act) is Ok,
        0 <= i < g.actor_states.len(),
        g.actor_states[i] is Counter,
    ensures
        ({
            let g2 = step_spec(actors, g, act)->Ok_0;
            &&& i < g2.actor_states.len()
            &&& g2.actor_states[i] is Counter
            &&& g2.actor_states[i]->Counter_0.counter >= g.actor_states[i]->Counter_0.counter
        }),
{
    match act {
        Action::Deliver(env) => {
            let d = env.dst as int;
            let st = crate::model::deliver_spec(actors[d], env.dst, g.actor_states[d], env.src, env.msg)->Some_0;
            let mid = GlobalView {
                actor_states: g.actor_states.update(d, st.0),
                network: g.network.remove_value(env),
                timers: g.timers,
            };
            lemma_effects_keep_actor_states(mid, actors.len(), env.dst, st.1, st.1.len());
        },
        Action::Timeout(h) => {
            let d = h.owner as int;
            let st = crate::model::timeout_spec(actors[d], g.actor_states[d], h.timer)->Some_0;
            let mid = GlobalView {
                actor_states: g.actor_states.update(d, st.0),
                network: g.network,
                timers: g.timers.remove_value(h),
            };
            lemma_effects_keep_actor_states(mid, actors.len(), h.owner, st.1, st.1.len());
        },
    }
}

/// Along every run of the model, from any state, a counter's count never
/// goes down: after any sequence of actions that succeeds, the actor still
/// holds a counter's state, with a count at least as large.
pub proof fn lemma_counter_monotone_along(actors: Seq<ModelActor>, g: GlobalView, path: Seq<Action>, i: int)
    requires
        run(actors, g, path) is Ok,
        0 <= i < g.actor_states.len(),
        g.actor_states[i] is Counter,
    ensures
        ({
            let g2 = run(actors, g, path)->Ok_0;
            &&& i < g2.actor_states.len()
            &&& g2.actor_states[i] is Counter
            &&& g2.actor_states[i]->Counter_0.counter >= g.actor_states[i]->Counter_0.counter
        }),
    decreases path.len(),
{
    if path.len() > 0 {
        let q = path.drop_last();
        assert(run(actors, g, q) is Ok);
        lemma_counter_monotone_along(actors, g, q, i);
        let mid = run(actors, g, q)->Ok_0;
        lemma_counter_monotone(actors, mid, path.last(), i);
    }
}

/// Delivery is not idempotent: an increment of `n` that is in flight twice
/// and delivered twice to a counter raises its count by `2 * n`, where that
/// fits. Each delivery takes one copy of the envelope off the network.
pub proof fn lemma_increment_delivered_twice(actors: Seq<ModelActor>, g: GlobalView, e: Envelope, n: CounterSize, i: int, j: int)
    requires
        e.msg == PolyMsg::SupervisorIncrementRequest(n),
        e.dst < actors.len(),
        e.dst < g.actor_states.len(),
        actors[e.dst as int] is Counter,
        g.actor_states[e.dst as int] is Counter,
        g.actor_states[e.dst as int]->Counter_0.counter + 2 * n <= CounterSize::MAX,
        0 <= i < j < g.network.len(),
        g.network[i] == e,
        g.network[j] == e,
    ensures
        ({
            let g1 = step_spec(actors, g, Action::Deliver(e));
            let g2 = step_spec(actors, g1->Ok_0, Action::Deliver(e));
            &&& g1 is Ok
            &&& g1->Ok_0.network == g.network.remove_value(e)
            &&& g2 is Ok
            &&& g2->Ok_0.network == g1->Ok_0.network.remove_value(e)
            &&& g2->Ok_0.actor_states[e.dst as int] is Counter
            &&& g2->Ok_0.actor_states[e.dst as int]->Counter_0.counter == g.actor_states[e.dst as int]->Counter_0.counter
                + 2 * n
        }),
{
    let d = e.dst as int;
    assert(g.network.contains(e));
    g.network.index_of_first_ensures(e);
    let k = g.network.index_of_first(e)->0;
    assert(k <= i);
    let net1 = g.network.remove_value(e);
    assert(net1[j - 1] == e);
    assert(net1.contains(e));
    let c = g.actor_states[d]->Counter_0;
    let s1 = ActorState::Counter(CounterState { counter: saturated_sum(c.counter, n), ..c });
    let g1 = GlobalView { actor_states: g.actor_states.update(d, s1), network: net1, timers: g.timers };
    assert(apply_effects(g1, actors.len(), e.dst, Seq::empty()) == Ok::<GlobalView, ModelError>(g1));
    assert(step_spec(actors, g, Action::Deliver(e)) == Ok::<GlobalView, ModelError>(g1));
    let c1 = CounterState { counter: saturated_sum(c.counter, n), ..c };
    let s2 = ActorState::Counter(CounterState { counter: saturated_sum(c1.counter, n), ..c1 });
    let g2 = GlobalView { actor_states: g1.actor_states.update(d, s2), network: net1.remove_value(e), timers: g.timers };
    assert(apply_effects(g2, actors.len(), e.dst, Seq::empty()) == Ok::<GlobalView, ModelError>(g2));
    assert(step_spec(actors, g1, Action::Deliver(e)) == Ok::<GlobalView, ModelError>(g2));
}

/// Two results agree: equivalent states, or the same error.
pub open spec fn equivalent_results(r1: Result<GlobalView, ModelError>, r2: Result<GlobalView, ModelError>) -> bool {
    match r1 {
        Ok(x) => r2 matches Ok(y) && equivalent(x, y),
        Err(e) => r2 == Err::<GlobalView, ModelError>(e),
    }
}

/// Carrying out the same effects on equivalent states gives agreeing
/// results.
proof fn lemma_effects_respect_equivalence(g: GlobalView, h: GlobalView, n: nat, owner: Address, es: Seq<Effect>, k: nat)
    requires
        equivalent(g, h),
    ensures
        equivalent_results(apply_effects_upto(g, n, owner, es, k), apply_effects_upto(h, n, owner, es, k)),
    decreases k,
{
    broadcast use vstd::seq_lib::group_to_multiset_ensures;
    broadcast use vstd::multiset::group_multiset_axioms;

    if k > 0 {
        lemma_effects_respect_equivalence(g, h, n, owner, es, (k - 1) as nat);
        let rg = apply_effects_upto(g, n, owner, es, (k - 1) as nat);
        let rh = apply_effects_upto(h, n, owner, es, (k - 1) as nat);
        if rg is Ok {
            let g2 = rg->Ok_0;
            let h2 = rh->Ok_0;
            match es[k - 1] {
                Effect::Send { dst, msg } => {
                    let e = Envelope { src: owner, dst, msg };
                    assert(g2.network.push(e).to_multiset() =~= h2.network.push(e).to_multiset());
                },
                Effect::SetTimer { timer } => {
                    let t = crate::model::TimerHandle { owner, timer };
                    assert(g2.timers.to_multiset().count(t) == h2.timers.to_multiset().count(t));
                    assert(g2.timers.contains(t) == h2.timers.contains(t));
                    assert(g2.timers.push(t).to_multiset() =~= h2.timers.push(t).to_multiset());
                },
            }
        }
    }
}

/// Removing the first copy of `x` takes one copy out of the multiset.
proof fn lemma_remove_value_multiset<T>(s: Seq<T>, x: T)
    requires
        s.contains(x),
    ensures
        s.remove_value(x).to_multiset() =~= s.to_multiset().remove(x),
{
    broadcast use vstd::seq_lib::group_to_multiset_ensures;

    s.index_of_first_ensures(x);
}

/// Equal global states, in the sense that ignores the order in which
/// envelopes and timers arrived, have equal successors under every action,
/// or fail with the same error. So the explorer loses nothing by keeping one
/// state of each such class.
pub proof fn lemma_step_respects_equivalence(actors: Seq<ModelActor>, g: GlobalView, h: GlobalView, act: Action)
    requires
        equivalent(g, h),
    ensures
        equivalent_results(step_spec(actors, g, act), step_spec(actors, h, act)),
{
    broadcast use vstd::seq_lib::group_to_multiset_ensures;
    broadcast use vstd::multiset::group_multiset_axioms;

    match act {
        Action::Deliver(env) => {
            assert(g.network.to_multiset().count(env) == h.network.to_multiset().count(env));
            assert(g.network.contains(env) == h.network.contains(env));
            if g.network.contains(env) && env.dst < actors.len() && env.dst < g.actor_states.len() {
                let d = env.dst as int;
                lemma_remove_value_multiset(g.network, env);
                lemma_remove_value_multiset(h.network, env);
                match crate::model::deliver_spec(actors[d], env.dst, g.actor_states[d], env.src, env.msg) {
                    Some(p) => {
                        let gm = GlobalView {
                            actor_states: g.actor_states.update(d, p.0),
                            network: g.network.remove_value(env),
                            timers: g.timers,
                        };
                        let hm = GlobalView {
                            actor_states: h.actor_states.update(d, p.0),
                            network: h.network.remove_value(env),
                            timers: h.timers,
                        };
                        lemma_effects_respect_equivalence(gm, hm, actors.len(), env.dst, p.1, p.1.len());
                    },
                    None => {},
                }
            }
        },
        Action::Timeout(t) => {
            assert(g.timers.to_multiset().count(t) == h.timers.to_multiset().count(t));
            assert(g.timers.contains(t) == h.timers.contains(t));
            if g.timers.contains(t) && t.owner < actors.len() && t.owner < g.actor_states.len() {
                let d = t.owner as int;
                lemma_remove_value_multiset(g.timers, t);
                lemma_remove_value_multiset(h.timers, t);
                match crate::model::timeout_spec(actors[d], g.actor_states[d], t.timer) {
                    Some(p) => {
                        let gm = GlobalView {
                            actor_states: g.actor_states.update(d, p.0),
                            network: g.network,
                            timers: g.timers.remove_value(t),
                        };
                        let hm = GlobalView {
                            actor_states: h.actor_states.update(d, p.0),
                            network: h.network,
                            timers: h.timers.remove_value(t),
                        };
                        lemma_effects_respect_equivalence(gm, hm, actors.len(), t.owner, p.1, p.1.len());
                    },
                    None => {},
                }
            }
        },
    }
}

/// The envelopes that the effects `es` of the actor at `owner` put on the
/// network, in order.
pub open spec fn sent_by(owner: Address, es: Seq<Effect>) -> Seq<Envelope>
    decreases es.len(),
{
    if es.len() == 0 {
        Seq::empty()
    } else {
        let rest = sent_by(owner, es.drop_last());
        match es.last() {
            Effect::Send { dst, msg } => rest.push(Envelope { src: owner, dst, msg }),
            Effect::SetTimer { .. } => rest,
        }
    }
}

/// Carrying out effects only appends the envelopes they send.
proof fn lemma_effects_append_sends(g: GlobalView, n: nat, owner: Address, es: Seq<Effect>, k: nat)
    requires
        k <= es.len(),
    ensures
        apply_effects_upto(g, n, owner, es, k) matches Ok(g2) ==> g2.network == g.network + sent_by(
            owner,
            es.take(k as int),
        ),
    decreases k,
{
    if k > 0 {
        lemma_effects_append_sends(g, n, owner, es, (k - 1) as nat);
        assert(es.take(k as int).drop_last() == es.take(k - 1));
        assert(es.take(k as int).last() == es[k - 1]);
    } else {
        assert(g.network + Seq::<Envelope>::empty() == g.network);
    }
}

/// Delivery consumes the envelope: a delivery that succeeds takes exactly
/// one copy of it off the network, and the network changes otherwise only
/// by what the receiving actor sends in response.
pub proof fn lemma_delivery_consumes_one(actors: Seq<ModelActor>, g: GlobalView, env: Envelope)
    requires
        step_spec(actors, g, Action::Deliver(env)) is Ok,
    ensures
        ({
            let g2 = step_spec(actors, g, Action::Deliver(env))->Ok_0;
            let d = env.dst as int;
            let es = crate::model::deliver_spec(actors[d], env.dst, g.actor_states[d], env.src, env.msg)->Some_0.1;
            &&& g.network.to_multiset().count(env) > 0
            &&& g2.network.to_multiset() =~= g.network.to_multiset().remove(env).add(sent_by(env.dst, es).to_multiset())
        }),
{
    broadcast use vstd::seq_lib::group_to_multiset_ensures;

    let d = env.dst as int;
    let p = crate::model::deliver_spec(actors[d], env.dst, g.actor_states[d], env.src, env.msg)->Some_0;
    let mid = GlobalView {
        actor_states: g.actor_states.update(d, p.0),
        network: g.network.remove_value(env),
        timers: g.timers,
    };
    lemma_effects_append_sends(mid, actors.len(), env.dst, p.1, p.1.len());
    assert(p.1.take(p.1.len() as int) == p.1);
    lemma_remove_value_multiset(g.network, env);
    vstd::seq_lib::lemma_multiset_commutative(mid.network, sent_by(env.dst, p.1));
}

} // verus!
