use vstd::multiset::Multiset;
use vstd::prelude::*;
use vstd::std_specs::cmp::PartialEqSpec;

use crate::machines::{
    counter_on_msg_spec, input_on_msg_spec, input_on_timeout_spec, supervisor_on_msg_spec,
    CounterMachine, CounterState, ExternalInputActor, InputState, MealyMachine, SupervisorMachine,
    SupervisorState,
};
use crate::messages::{Address, Effect, InputTimer, PolyMsg};

verus! {

/// One configured actor, of one of the closed set of kinds.
#[derive(Clone, Copy, Debug, PartialEq, Eq)]
pub enum ModelActor {
    Supervisor(SupervisorMachine),
    Counter(CounterMachine),
    Input(ExternalInputActor),
}

/// The state of one actor, tagged with its kind.
#[derive(Clone, Copy, Debug, PartialEq, Eq, Hash, Structural)]
pub enum ActorState {
    Supervisor(SupervisorState),
    Counter(CounterState),
    Input(InputState),
}

/// A message in flight.
#[derive(Clone, Copy, Debug, Hash)]
pub struct Envelope {
    pub src: Address,
    pub dst: Address,
    pub msg: PolyMsg,
}

/// A pending timer of one actor.
#[derive(Clone, Copy, Debug, Hash)]
pub struct TimerHandle {
    pub owner: Address,
    pub timer: InputTimer,
}

impl PartialEq for Envelope {
    fn eq(&self, o: &Envelope) -> (r: bool) {
        self.src == o.src && self.dst == o.dst && self.msg == o.msg
    }
}

impl Eq for Envelope {
}

impl vstd::std_specs::cmp::PartialEqSpecImpl for Envelope {
    open spec fn obeys_eq_spec() -> bool {
        true
    }

    open spec fn eq_spec(&self, o: &Envelope) -> bool {
        *self == *o
    }
}

impl PartialEq for TimerHandle {
    fn eq(&self, o: &TimerHandle) -> (r: bool) {
        self.owner == o.owner && self.timer == o.timer
    }
}

impl Eq for TimerHandle {
}

impl vstd::std_specs::cmp::PartialEqSpecImpl for TimerHandle {
    open spec fn obeys_eq_spec() -> bool {
        true
    }

    open spec fn eq_spec(&self, o: &TimerHandle) -> bool {
        *self == *o
    }
}

/// One scheduling decision.
#[derive(Clone, Copy, Debug, PartialEq, Eq, Hash)]
pub enum Action {
    /// Take the envelope off the network and hand it to its destination.
    Deliver(Envelope),
    /// Take the timer off its owner's pending set and fire it.
    Timeout(TimerHandle),
}

/// Why an action could not be applied.
#[derive(Clone, Copy, Debug, PartialEq, Eq, Hash, Structural)]
pub enum ModelError {
    /// A message names an address at which no actor stands.
    UnknownAddress(Address),
    /// The envelope is not in flight, or the timer is not pending.
    NotEnabled,
    /// The state held for the actor at this address is not of its kind.
    KindMismatch(Address),
}

/// Every actor's state, the envelopes in flight, and the pending timers.
#[derive(Debug)]
pub struct GlobalState {
    pub actor_states: Vec<ActorState>,
    pub network: Vec<Envelope>,
    pub timers: Vec<TimerHandle>,
}

/// The mathematical content of a [`GlobalState`].
pub ghost struct GlobalView {
    pub actor_states: Seq<ActorState>,
    pub network: Seq<Envelope>,
    pub timers: Seq<TimerHandle>,
}

impl View for GlobalState {
    type V = GlobalView;

    open spec fn view(&self) -> GlobalView {
        GlobalView { actor_states: self.actor_states@, network: self.network@, timers: self.timers@ }
    }
}

/// Equality of global states: the order in which envelopes and timers
/// arrived does not count.
pub open spec fn equivalent(a: GlobalView, b: GlobalView) -> bool {
    &&& a.actor_states == b.actor_states
    &&& a.network.to_multiset() == b.network.to_multiset()
    &&& a.timers.to_multiset() == b.timers.to_multiset()
}

/// The view of a result that may carry a state.
pub open spec fn view_result(r: Result<GlobalState, ModelError>) -> Result<GlobalView, ModelError> {
    match r {
        Ok(g) => Ok(g@),
        Err(e) => Err(e),
    }
}

/// The state an actor starts in, and the effects it asks for.
pub open spec fn start_spec(a: ModelActor) -> (ActorState, Seq<Effect>) {
    match a {
        ModelActor::Supervisor(m) => (
            ActorState::Supervisor(SupervisorMachine::initial_spec(Some(m.initial_state))),
            Seq::empty(),
        ),
        ModelActor::Counter(m) => (
            ActorState::Counter(CounterMachine::initial_spec(Some(m.initial_state))),
            Seq::empty(),
        ),
        ModelActor::Input(_) => (
            ActorState::Input(InputState { cycles: 0, done: false }),
            seq![Effect::SetTimer { timer: InputTimer::RequestIncrement }],
        ),
    }
}

/// What the actor `a` at `id` does with a delivered message; `None` when
/// `s` is not a state of its kind.
pub open spec fn deliver_spec(a: ModelActor, id: Address, s: ActorState, src: Address, msg: PolyMsg) -> Option<
    (ActorState, Seq<Effect>),
> {
    match a {
        ModelActor::Supervisor(_) => match s {
            ActorState::Supervisor(st) => {
                let r = supervisor_on_msg_spec(id, st, src, msg);
                Some((ActorState::Supervisor(r.0), r.1))
            },
            _ => None,
        },
        ModelActor::Counter(_) => match s {
            ActorState::Counter(st) => {
                let r = counter_on_msg_spec(id, st, src, msg);
                Some((ActorState::Counter(r.0), r.1))
            },
            _ => None,
        },
        ModelActor::Input(m) => match s {
            ActorState::Input(st) => Some((ActorState::Input(input_on_msg_spec(m, st, msg)), Seq::empty())),
            _ => None,
        },
    }
}

/// What the actor `a` does when its timer fires; counters and supervisors
/// ignore timers. `None` when `s` is not a state of its kind.
pub open spec fn timeout_spec(a: ModelActor, s: ActorState, timer: InputTimer) -> Option<
    (ActorState, Seq<Effect>),
> {
    match a {
        ModelActor::Supervisor(_) => match s {
            ActorState::Supervisor(_) => Some((s, Seq::empty())),
            _ => None,
        },
        ModelActor::Counter(_) => match s {
            ActorState::Counter(_) => Some((s, Seq::empty())),
            _ => None,
        },
        ModelActor::Input(m) => match s {
            ActorState::Input(st) => {
                let r = input_on_timeout_spec(m, st, timer);
                Some((ActorState::Input(r.0), r.1))
            },
            _ => None,
        },
    }
}

/// Carries out one effect of the actor at `owner`, in a model of `n` actors:
/// a send adds an envelope to the network, a timer is added to the pending
/// set unless it is already there.
pub open spec fn apply_effect(g: GlobalView, n: nat, owner: Address, e: Effect) -> Result<GlobalView, ModelError> {
    match e {
        Effect::Send { dst, msg } => if dst < n {
            Ok(GlobalView { network: g.network.push(Envelope { src: owner, dst, msg }), ..g })
        } else {
            Err(ModelError::UnknownAddress(dst))
        },
        Effect::SetTimer { timer } => {
            let h = TimerHandle { owner, timer };
            if g.timers.contains(h) {
                Ok(g)
            } else {
                Ok(GlobalView { timers: g.timers.push(h), ..g })
            }
        },
    }
}

/// Carries out the first `k` effects in order, stopping at the first error.
pub open spec fn apply_effects_upto(g: GlobalView, n: nat, owner: Address, es: Seq<Effect>, k: nat) -> Result<
    GlobalView,
    ModelError,
>
    decreases k,
{
    if k == 0 {
        Ok(g)
    } else {
        match apply_effects_upto(g, n, owner, es, (k - 1) as nat) {
            Ok(g2) => apply_effect(g2, n, owner, es[k - 1]),
            Err(e) => Err(e),
        }
    }
}

/// Carries out all the effects in order, stopping at the first error.
pub open spec fn apply_effects(g: GlobalView, n: nat, owner: Address, es: Seq<Effect>) -> Result<
    GlobalView,
    ModelError,
> {
    apply_effects_upto(g, n, owner, es, es.len())
}

/// The successor of `g` under `act` in the model whose actors are `actors`.
/// A delivery removes the first matching envelope from the network; a
/// timeout removes the timer from the pending set; either then runs the
/// owning actor and carries out the effects it asks for.
pub open spec fn step_spec(actors: Seq<ModelActor>, g: GlobalView, act: Action) -> Result<GlobalView, ModelError> {
    match act {
        Action::Deliver(env) => if !g.network.contains(env) {
            Err(ModelError::NotEnabled)
        } else if env.dst >= actors.len() || env.dst >= g.actor_states.len() {
            Err(ModelError::UnknownAddress(env.dst))
        } else {
            match deliver_spec(actors[env.dst as int], env.dst, g.actor_states[env.dst as int], env.src, env.msg) {
                Some((st, es)) => apply_effects(
                    GlobalView {
                        actor_states: g.actor_states.update(env.dst as int, st),
                        network: g.network.remove_value(env),
                        timers: g.timers,
                    },
                    actors.len(),
                    env.dst,
                    es,
                ),
                None => Err(ModelError::KindMismatch(env.dst)),
            }
        },
        Action::Timeout(h) => if !g.timers.contains(h) {
            Err(ModelError::NotEnabled)
        } else if h.owner >= actors.len() || h.owner >= g.actor_states.len() {
            Err(ModelError::UnknownAddress(h.owner))
        } else {
            match timeout_spec(actors[h.owner as int], g.actor_states[h.owner as int], h.timer) {
                Some((st, es)) => apply_effects(
                    GlobalView {
                        actor_states: g.actor_states.update(h.owner as int, st),
                        network: g.network,
                        timers: g.timers.remove_value(h),
                    },
                    actors.len(),
                    h.owner,
                    es,
                ),
                None => Err(ModelError::KindMismatch(h.owner)),
            }
        },
    }
}

/// An error stays once it has come.
proof fn lemma_error_persists(g: GlobalView, n: nat, owner: Address, es: Seq<Effect>, k: nat, m: nat)
    requires
        k <= m,
        apply_effects_upto(g, n, owner, es, k) is Err,
    ensures
        apply_effects_upto(g, n, owner, es, m) == apply_effects_upto(g, n, owner, es, k),
    decreases m,
{
    if m > k {
        lemma_error_persists(g, n, owner, es, k, (m - 1) as nat);
    }
}

/// A copy of a vector of plain values.
pub(crate) fn copy_vec<T: Copy>(v: &Vec<T>) -> (r: Vec<T>)
    ensures
        r@ == v@,
{
    let mut r: Vec<T> = Vec::new();
    let mut i: usize = 0;
    while i < v.len()
        invariant
            i <= v@.len(),
            r@ == v@.subrange(0, i as int),
        decreases v@.len() - i,
    {
        r.push(v[i]);
        i = i + 1;
    }
    assert(r@ == v@.subrange(0, i as int));
    r
}


/// Whether two lists of actor states are equal.
fn same_actor_states(a: &Vec<ActorState>, b: &Vec<ActorState>) -> (r: bool)
    ensures
        r == (a@ == b@),
{
    if a.len() != b.len() {
        return false;
    }
    let mut i: usize = 0;
    while i < a.len()
        invariant
            i <= a@.len(),
            a@.len() == b@.len(),
            forall|j: int| 0 <= j < i ==> a@[j] == b@[j],
        decreases a@.len() - i,
    {
        if a[i] != b[i] {
            return false;
        }
        i = i + 1;
    }
    assert(a@ =~= b@);
    true
}

/// `==` on global states is [`GlobalState::same_as`]: the order in which
/// envelopes and timers arrived does not count.
impl PartialEq for GlobalState {
    fn eq(&self, other: &GlobalState) -> (r: bool) {
        self.same_as(other)
    }
}

impl Eq for GlobalState {
}

impl vstd::std_specs::cmp::PartialEqSpecImpl for GlobalState {
    open spec fn obeys_eq_spec() -> bool {
        true
    }

    open spec fn eq_spec(&self, other: &GlobalState) -> bool {
        equivalent(self@, other@)
    }
}

impl GlobalState {
    /// Whether the two states are equal as global states: the same state
    /// at each address, the same envelopes in flight each as often, and the
    /// same pending timers, whatever order they arrived in.
    pub fn same_as(&self, other: &GlobalState) -> (r: bool)
        ensures
            r == equivalent(self@, other@),
    {
        same_actor_states(&self.actor_states, &other.actor_states) && same_multiset(
            &self.network,
            &other.network,
        ) && same_multiset(&self.timers, &other.timers)
    }

    /// An independent copy of the state.
    pub fn copy(&self) -> (r: GlobalState)
        ensures
            r@ == self@,
    {
        GlobalState {
            actor_states: copy_vec(&self.actor_states),
            network: copy_vec(&self.network),
            timers: copy_vec(&self.timers),
        }
    }
}

/// Carries out `es`, in order, for the actor at `owner` in a model of `n`
/// actors.
fn apply_effects_exec(g: &mut GlobalState, n: usize, owner: Address, es: &Vec<Effect>) -> (r: Result<(), ModelError>)
    ensures
        match apply_effects(old(g)@, n as nat, owner, es@) {
            Ok(v) => r is Ok && final(g)@ == v,
            Err(e) => r == Err::<(), ModelError>(e),
        },
{
    let ghost g0 = g@;
    let mut i: usize = 0;
    while i < es.len()
        invariant
            i <= es@.len(),
            g0 == old(g)@,
            apply_effects_upto(g0, n as nat, owner, es@, i as nat) == Ok::<GlobalView, ModelError>(g@),
        decreases es@.len() - i,
    {
        match es[i] {
            Effect::Send { dst, msg } => {
                if dst < n as u64 {
                    g.network.push(Envelope { src: owner, dst, msg });
                } else {
                    proof {
                        assert(apply_effects_upto(g0, n as nat, owner, es@, (i + 1) as nat) == Err::<
                            GlobalView,
                            ModelError,
                        >(ModelError::UnknownAddress(dst)));
                        lemma_error_persists(g0, n as nat, owner, es@, (i + 1) as nat, es@.len());
                        assert(apply_effects(g0, n as nat, owner, es@) == Err::<GlobalView, ModelError>(
                            ModelError::UnknownAddress(dst),
                        ));
                    }
                    return Err(ModelError::UnknownAddress(dst));
                }
            },
            Effect::SetTimer { timer } => {
                let h = TimerHandle { owner, timer };
                if !contains_timer(&g.timers, h) {
                    g.timers.push(h);
                }
            },
        }
        i = i + 1;
    }
    Ok(())
}

/// Whether `h` is pending in `ts`.
fn contains_timer(ts: &Vec<TimerHandle>, h: TimerHandle) -> (r: bool)
    ensures
        r == ts@.contains(h),
{
    match find_first(ts, h) {
        Some(_) => true,
        None => false,
    }
}

/// The first position of `x` in `s`.
fn find_first<T: PartialEq + Copy>(s: &Vec<T>, x: T) -> (r: Option<usize>)
    requires
        T::obeys_eq_spec(),
        forall|a: T, b: T| a.eq_spec(&b) <==> (a == b),
    ensures
        r is None <==> !s@.contains(x),
        r matches Some(i) ==> i < s@.len() && s@[i as int] == x && s@.index_of_first(x) == Some(i as int),
{
    let mut i: usize = 0;
    while i < s.len()
        invariant
            T::obeys_eq_spec(),
            forall|a: T, b: T| a.eq_spec(&b) <==> (a == b),
            i <= s@.len(),
            forall|j: int| 0 <= j < i ==> s@[j] != x,
        decreases s@.len() - i,
    {
        if s[i] == x {
            proof {
                s@.index_of_first_ensures(x);
                assert(s@[i as int] == x);
                let k = s@.index_of_first(x)->0;
                assert(!(k < i));
                assert(!(i < k));
            }
            return Some(i);
        }
        i = i + 1;
    }
    proof {
        s@.index_of_first_ensures(x);
    }
    None
}

/// Whether `a` and `b` hold the same values, each as often, in any order.
fn same_multiset<T: PartialEq + Copy>(a: &Vec<T>, b: &Vec<T>) -> (r: bool)
    requires
        T::obeys_eq_spec(),
        forall|x: T, y: T| x.eq_spec(&y) <==> (x == y),
    ensures
        r == (a@.to_multiset() == b@.to_multiset()),
{
    let mut c = copy_vec(b);
    proof {
        broadcast use vstd::seq_lib::group_to_multiset_ensures;
        broadcast use vstd::multiset::group_multiset_axioms;
        broadcast use vstd::multiset::lemma_multiset_empty_len;

        assert(a@.subrange(0, 0).to_multiset().len() == 0);
        assert(c@.to_multiset() =~= a@.subrange(0, 0).to_multiset().add(c@.to_multiset()));
    }
    let mut i: usize = 0;
    while i < a.len()
        invariant
            T::obeys_eq_spec(),
            forall|x: T, y: T| x.eq_spec(&y) <==> (x == y),
            i <= a@.len(),
            b@.to_multiset() =~= a@.subrange(0, i as int).to_multiset().add(c@.to_multiset()),
        decreases a@.len() - i,
    {
        let x = a[i];
        match find_first(&c, x) {
            None => {
                proof {
                    broadcast use vstd::seq_lib::group_to_multiset_ensures;
                    broadcast use vstd::multiset::group_multiset_axioms;

                    let pre = a@.subrange(0, i as int);
                    let post = a@.subrange(i as int, a@.len() as int);
                    vstd::seq_lib::lemma_multiset_commutative(pre, post);
                    assert(pre + post == a@);
                    assert(post[0] == x);
                    assert(post.contains(x));
                    assert(a@.to_multiset().count(x) > b@.to_multiset().count(x));
                }
                return false;
            },
            Some(k) => {
                let ghost c0 = c@;
                c.remove(k);
                proof {
                    broadcast use vstd::seq_lib::group_to_multiset_ensures;
                    broadcast use vstd::multiset::group_multiset_axioms;

                    assert(a@.subrange(0, i + 1) == a@.subrange(0, i as int).push(x));
                    assert(c@ == c0.remove(k as int));
                    assert(c0.to_multiset().count(x) > 0);
                }
            },
        }
        i = i + 1;
    }
    proof {
        broadcast use vstd::seq_lib::group_to_multiset_ensures;

        broadcast use vstd::multiset::group_multiset_axioms;
        broadcast use vstd::multiset::lemma_multiset_empty_len;

        assert(a@.subrange(0, a@.len() as int) == a@);
        assert(b@.to_multiset().len() == a@.to_multiset().len() + c@.to_multiset().len());
        if c@.len() == 0 {
            assert(c@.to_multiset() =~= Multiset::empty());
            assert(b@.to_multiset() =~= a@.to_multiset());
        }
    }
    c.len() == 0
}


/// The global state a model starts in: each actor's start state, in order,
/// with the effects each start asks for carried out.
pub open spec fn init_upto(actors: Seq<ModelActor>, k: nat) -> Result<GlobalView, ModelError>
    decreases k,
{
    if k == 0 {
        Ok(GlobalView { actor_states: Seq::empty(), network: Seq::empty(), timers: Seq::empty() })
    } else {
        match init_upto(actors, (k - 1) as nat) {
            Ok(g) => apply_effects(
                GlobalView { actor_states: g.actor_states.push(start_spec(actors[k - 1]).0), ..g },
                actors.len(),
                (k - 1) as Address,
                start_spec(actors[k - 1]).1,
            ),
            Err(e) => Err(e),
        }
    }
}

/// The initial global state of the model whose actors are `actors`.
pub open spec fn init_spec(actors: Seq<ModelActor>) -> Result<GlobalView, ModelError> {
    init_upto(actors, actors.len())
}

/// The state reached from `g` by taking the actions of `path` in order.
pub open spec fn run(actors: Seq<ModelActor>, g: GlobalView, path: Seq<Action>) -> Result<GlobalView, ModelError>
    decreases path.len(),
{
    if path.len() == 0 {
        Ok(g)
    } else {
        match run(actors, g, path.drop_last()) {
            Ok(g2) => step_spec(actors, g2, path.last()),
            Err(e) => Err(e),
        }
    }
}

/// The state reached by `path` from the model's initial state.
pub open spec fn reached(actors: Seq<ModelActor>, path: Seq<Action>) -> Result<GlobalView, ModelError> {
    match init_spec(actors) {
        Ok(g0) => run(actors, g0, path),
        Err(e) => Err(e),
    }
}

/// A delivery for each envelope, in order.
pub open spec fn deliveries(net: Seq<Envelope>) -> Seq<Action> {
    net.map_values(|e: Envelope| Action::Deliver(e))
}

/// A timeout for each timer, in order.
pub open spec fn timeouts(ts: Seq<TimerHandle>) -> Seq<Action> {
    ts.map_values(|h: TimerHandle| Action::Timeout(h))
}

/// The actions enabled in `g`, in the order the explorer tries them.
pub open spec fn actions_spec(g: GlobalView) -> Seq<Action> {
    deliveries(g.network) + timeouts(g.timers)
}

/// Whether `act` can be taken in `g`.
pub open spec fn enabled(g: GlobalView, act: Action) -> bool {
    match act {
        Action::Deliver(e) => g.network.contains(e),
        Action::Timeout(h) => g.timers.contains(h),
    }
}

/// Starting the actors never fails: what an actor asks for at its start
/// is at most to arm a timer of its own.
pub proof fn lemma_init_ok(actors: Seq<ModelActor>, k: nat)
    requires
        k <= actors.len(),
    ensures
        init_upto(actors, k) is Ok,
    decreases k,
{
    if k > 0 {
        lemma_init_ok(actors, (k - 1) as nat);
        let g = init_upto(actors, (k - 1) as nat)->Ok_0;
        let a = actors[k - 1];
        let g1 = GlobalView { actor_states: g.actor_states.push(start_spec(a).0), ..g };
        let es = start_spec(a).1;
        assert(apply_effects_upto(g1, actors.len(), (k - 1) as Address, es, 0) is Ok);
        if es.len() == 1 {
            assert(apply_effects_upto(g1, actors.len(), (k - 1) as Address, es, 1) is Ok);
        }
    }
}

impl ModelActor {
    /// Starts the actor at `id`: its first state, with the effects it asks
    /// for appended to `o`.
    pub fn on_start(self, id: Address, o: &mut Vec<Effect>) -> (r: ActorState)
        ensures
            r == start_spec(self).0,
            final(o)@ == old(o)@ + start_spec(self).1,
    {
        let ghost o0 = o@;
        let r = match self {
            ModelActor::Supervisor(m) => ActorState::Supervisor(m.on_start(id, o)),
            ModelActor::Counter(m) => ActorState::Counter(m.on_start(id, o)),
            ModelActor::Input(m) => ActorState::Input(m.on_start(id, o)),
        };
        assert(o@ == o0 + start_spec(self).1);
        r
    }

    /// Hands the actor at `id`, in state `s`, a message from `src`; `None`
    /// when `s` is not a state of the actor's kind.
    pub fn on_msg(self, id: Address, s: ActorState, src: Address, msg: PolyMsg, o: &mut Vec<Effect>) -> (r: Option<
        ActorState,
    >)
        ensures
            match deliver_spec(self, id, s, src, msg) {
                Some(p) => r == Some(p.0) && final(o)@ == old(o)@ + p.1,
                None => r is None,
            },
    {
        match self {
            ModelActor::Supervisor(m) => match s {
                ActorState::Supervisor(st) => {
                    let mut st2 = st;
                    m.on_msg(id, &mut st2, src, msg, o);
                    Some(ActorState::Supervisor(st2))
                },
                _ => None,
            },
            ModelActor::Counter(m) => match s {
                ActorState::Counter(st) => {
                    let mut st2 = st;
                    m.on_msg(id, &mut st2, src, msg, o);
                    Some(ActorState::Counter(st2))
                },
                _ => None,
            },
            ModelActor::Input(m) => match s {
                ActorState::Input(st) => {
                    let mut st2 = st;
                    m.on_msg(id, &mut st2, src, msg, o);
                    assert(old(o)@ + Seq::<Effect>::empty() == o@);
                    Some(ActorState::Input(st2))
                },
                _ => None,
            },
        }
    }

    /// Fires the actor's `timer`; `None` when `s` is not a state of the
    /// actor's kind.
    pub fn on_timeout(self, id: Address, s: ActorState, timer: InputTimer, o: &mut Vec<Effect>) -> (r: Option<
        ActorState,
    >)
        ensures
            match timeout_spec(self, s, timer) {
                Some(p) => r == Some(p.0) && final(o)@ == old(o)@ + p.1,
                None => r is None,
            },
    {
        match self {
            ModelActor::Supervisor(_) => match s {
                ActorState::Supervisor(_) => {
                    assert(old(o)@ + Seq::<Effect>::empty() == o@);
                    Some(s)
                },
                _ => None,
            },
            ModelActor::Counter(_) => match s {
                ActorState::Counter(_) => {
                    assert(old(o)@ + Seq::<Effect>::empty() == o@);
                    Some(s)
                },
                _ => None,
            },
            ModelActor::Input(m) => match s {
                ActorState::Input(st) => {
                    let mut st2 = st;
                    m.on_timeout(id, &mut st2, timer, o);
                    Some(ActorState::Input(st2))
                },
                _ => None,
            },
        }
    }
}

/// A network of actors, each at the address given by its position.
pub struct SystemModel {
    pub actors: Vec<ModelActor>,
}

impl SystemModel {
    pub fn new(actors: Vec<ModelActor>) -> (r: SystemModel)
        ensures
            r.actors@ == actors@,
    {
        SystemModel { actors }
    }


    /// The model's initial state: each actor started at its address, in
    /// order, with the timers and messages of its start in place.
    pub fn init_state(&self) -> (r: Result<GlobalState, ModelError>)
        ensures
            view_result(r) == init_spec(self.actors@),
            r is Ok,
    {
        let n = self.actors.len();
        let mut g = GlobalState { actor_states: Vec::new(), network: Vec::new(), timers: Vec::new() };
        assert(init_upto(self.actors@, 0) == Ok::<GlobalView, ModelError>(g@));
        let mut k: usize = 0;
        while k < n
            invariant
                k <= n,
                n == self.actors@.len(),
                init_upto(self.actors@, k as nat) == Ok::<GlobalView, ModelError>(g@),
            decreases n - k,
        {
            let mut o: Vec<Effect> = Vec::new();
            let st = self.actors[k].on_start(k as Address, &mut o);
            assert(o@ == start_spec(self.actors@[k as int]).1);
            g.actor_states.push(st);
            match apply_effects_exec(&mut g, n, k as Address, &o) {
                Ok(()) => {},
                Err(e) => {
                    proof {
                        lemma_init_ok(self.actors@, (k + 1) as nat);
                    }
                    return Err(e);
                },
            }
            k = k + 1;
        }
        Ok(g)
    }

    /// The actions enabled in `g`: a delivery for each envelope in flight,
    /// in network order, then a timeout for each pending timer.
    pub fn actions(&self, g: &GlobalState) -> (r: Vec<Action>)
        ensures
            r@ == actions_spec(g@),
    {
        let mut r: Vec<Action> = Vec::new();
        let mut i: usize = 0;
        while i < g.network.len()
            invariant
                i <= g.network@.len(),
                r@ == deliveries(g.network@.subrange(0, i as int)),
            decreases g.network@.len() - i,
        {
            r.push(Action::Deliver(g.network[i]));
            assert(g.network@.subrange(0, i + 1) == g.network@.subrange(0, i as int).push(g.network@[i as int]));
            i = i + 1;
        }
        assert(g.network@.subrange(0, i as int) == g.network@);
        let ghost d = r@;
        let mut k: usize = 0;
        while k < g.timers.len()
            invariant
                k <= g.timers@.len(),
                r@ == d + timeouts(g.timers@.subrange(0, k as int)),
            decreases g.timers@.len() - k,
        {
            r.push(Action::Timeout(g.timers[k]));
            assert(g.timers@.subrange(0, k + 1) == g.timers@.subrange(0, k as int).push(g.timers@[k as int]));
            assert(timeouts(g.timers@.subrange(0, k + 1)) == timeouts(g.timers@.subrange(0, k as int)).push(
                Action::Timeout(g.timers@[k as int]),
            ));
            k = k + 1;
        }
        assert(g.timers@.subrange(0, k as int) == g.timers@);
        r
    }

    /// The successor of `g` under `act`; an error when the action is not
    /// enabled or names an address that holds no actor of the right kind.
    pub fn next_state(&self, g: &GlobalState, act: &Action) -> (r: Result<GlobalState, ModelError>)
        ensures
            view_result(r) == step_spec(self.actors@, g@, *act),
    {
        let n = self.actors.len();
        let mut o: Vec<Effect> = Vec::new();
        match *act {
            Action::Deliver(env) => {
                let found = find_first(&g.network, env);
                let i = match found {
                    Some(i) => i,
                    None => {
                        return Err(ModelError::NotEnabled);
                    },
                };
                if env.dst >= n as u64 || env.dst >= g.actor_states.len() as u64 {
                    return Err(ModelError::UnknownAddress(env.dst));
                }
                let d = env.dst as usize;
                let st = match self.actors[d].on_msg(env.dst, g.actor_states[d], env.src, env.msg, &mut o) {
                    Some(st) => st,
                    None => {
                        return Err(ModelError::KindMismatch(env.dst));
                    },
                };
                assert(o@ == Seq::<Effect>::empty() + o@);
                let mut next = g.copy();
                next.network.remove(i);
                next.actor_states.set(d, st);
                match apply_effects_exec(&mut next, n, env.dst, &o) {
                    Ok(()) => Ok(next),
                    Err(e) => Err(e),
                }
            },
            Action::Timeout(h) => {
                let found = find_first(&g.timers, h);
                let i = match found {
                    Some(i) => i,
                    None => {
                        return Err(ModelError::NotEnabled);
                    },
                };
                if h.owner >= n as u64 || h.owner >= g.actor_states.len() as u64 {
                    return Err(ModelError::UnknownAddress(h.owner));
                }
                let d = h.owner as usize;
                let st = match self.actors[d].on_timeout(h.owner, g.actor_states[d], h.timer, &mut o) {
                    Some(st) => st,
                    None => {
                        return Err(ModelError::KindMismatch(h.owner));
                    },
                };
                assert(o@ == Seq::<Effect>::empty() + o@);
                let mut next = g.copy();
                next.timers.remove(i);
                next.actor_states.set(d, st);
                match apply_effects_exec(&mut next, n, h.owner, &o) {
                    Ok(()) => Ok(next),
                    Err(e) => Err(e),
                }
            },
        }
    }

}

} // verus!
