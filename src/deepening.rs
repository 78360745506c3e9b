use vstd::prelude::*;

use crate::explorer::lemma_enabled_listed;
use crate::model::{
    actions_spec, enabled, init_spec, lemma_init_ok, reached, run, step_spec, Action, GlobalState, GlobalView,
    ModelActor, ModelError, SystemModel,
};
use crate::properties::{sought, Property};

verus! {

/// Running `a` and then `s` is taking `a`, then running `s` from there.
pub proof fn lemma_run_front(actors: Seq<ModelActor>, g: GlobalView, a: Action, s: Seq<Action>)
    ensures
        run(actors, g, seq![a] + s) == (match step_spec(actors, g, a) {
            Ok(g1) => run(actors, g1, s),
            Err(e) => Err(e),
        }),
    decreases s.len(),
{
    let t = seq![a] + s;
    if s.len() == 0 {
        assert(t.drop_last() == Seq::<Action>::empty());
        assert(t.last() == a);
    } else {
        assert(t.drop_last() == seq![a] + s.drop_last());
        assert(t.last() == s.last());
        lemma_run_front(actors, g, a, s.drop_last());
    }
}

/// No run of at most `d` actions from `g` that succeeds ends in a state
/// that settles `prop`.
pub open spec fn none_within(actors: Seq<ModelActor>, prop: Property, g: GlobalView, d: int) -> bool {
    forall|s: Seq<Action>| s.len() <= d && #[trigger] run(actors, g, s) is Ok ==> !sought(prop, run(actors, g, s)->Ok_0)
}

/// An action enabled after some run from `g` of fewer than `d + 1` actions
/// fails with `e`.
pub open spec fn fails_within(actors: Seq<ModelActor>, g: GlobalView, d: int, e: ModelError) -> bool {
    exists|p: Seq<Action>|
        1 <= p.len() <= d && (run(actors, g, p.drop_last()) matches Ok(h) && enabled(h, p.last())) && #[trigger] run(
            actors,
            g,
            p,
        ) == Err::<GlobalView, ModelError>(e)
}

/// A path result, as a value.
pub open spec fn path_result(r: Result<Option<Vec<Action>>, ModelError>) -> Result<Option<Seq<Action>>, ModelError> {
    match r {
        Ok(Some(p)) => Ok(Some(p@)),
        Ok(None) => Ok(None),
        Err(e) => Err(e),
    }
}

/// What the depth-first search from `g` with `d` actions to go returns.
pub open spec fn search_spec(actors: Seq<ModelActor>, prop: Property, g: GlobalView, d: nat) -> Result<
    Option<Seq<Action>>,
    ModelError,
>
    decreases d, 1nat, 0nat,
{
    if sought(prop, g) {
        Ok(Some(Seq::empty()))
    } else if d == 0 {
        Ok(None)
    } else {
        search_list(actors, prop, g, actions_spec(g), d)
    }
}

/// What the depth-first search returns when it tries the actions `acts`
/// from `g` in order, with `d` actions to go.
pub open spec fn search_list(
    actors: Seq<ModelActor>,
    prop: Property,
    g: GlobalView,
    acts: Seq<Action>,
    d: nat,
) -> Result<Option<Seq<Action>>, ModelError>
    decreases d, 0nat, acts.len(),
{
    if acts.len() == 0 || d == 0 {
        Ok(None)
    } else {
        match step_spec(actors, g, acts[0]) {
            Err(e) => Err(e),
            Ok(h) => match search_spec(actors, prop, h, (d - 1) as nat) {
                Err(e) => Err(e),
                Ok(Some(p)) => Ok(Some(seq![acts[0]] + p)),
                Ok(None) => search_list(actors, prop, g, acts.drop_first(), d),
            },
        }
    }
}

/// What the deepening search from `g0` returns, from depth `d` on.
pub open spec fn deepening_from(actors: Seq<ModelActor>, prop: Property, g0: GlobalView, d: nat, max_depth: nat) -> Result<
    Option<Seq<Action>>,
    ModelError,
>
    decreases max_depth + 1 - d,
{
    if d > max_depth {
        Ok(None)
    } else {
        match search_spec(actors, prop, g0, d) {
            Ok(None) => deepening_from(actors, prop, g0, d + 1, max_depth),
            other => other,
        }
    }
}

/// What the deepening search of the model returns.
pub open spec fn deepening_spec(actors: Seq<ModelActor>, prop: Property, max_depth: nat) -> Result<
    Option<Seq<Action>>,
    ModelError,
> {
    match init_spec(actors) {
        Ok(g0) => deepening_from(actors, prop, g0, 0, max_depth),
        Err(e) => Err(e),
    }
}

impl SystemModel {
    /// Searches depth first from `g`, trying the enabled actions in order,
    /// for a run of at most `depth` actions that ends in a state settling
    /// `prop`.
    fn search_depth(&self, prop: Property, g: &GlobalState, depth: usize) -> (r: Result<Option<Vec<Action>>, ModelError>)
        ensures
            r matches Ok(Some(p)) ==> p@.len() <= depth && (run(self.actors@, g@, p@) matches Ok(h) && sought(prop, h)),
            r matches Ok(None) ==> none_within(self.actors@, prop, g@, depth as int),
            r matches Err(e) ==> fails_within(self.actors@, g@, depth as int, e),
            path_result(r) == search_spec(self.actors@, prop, g@, depth as nat),
        decreases depth,
    {
        let ghost actors = self.actors@;
        if prop.settled_by(g) {
            assert(run(actors, g@, Seq::empty()) == Ok::<GlobalView, ModelError>(g@));
            return Ok(Some(Vec::new()));
        }
        if depth == 0 {
            assert forall|s: Seq<Action>| s.len() <= 0 && #[trigger] run(actors, g@, s) is Ok implies !sought(
                prop,
                run(actors, g@, s)->Ok_0,
            ) by {
                assert(s.len() == 0);
            }
            return Ok(None);
        }
        let acts = self.actions(g);
        let mut k: usize = 0;
        assert(acts@.subrange(0, acts@.len() as int) == acts@);
        while k < acts.len()
            invariant
                k <= acts@.len(),
                actors == self.actors@,
                acts@ == actions_spec(g@),
                depth > 0,
                !sought(prop, g@),
                search_spec(actors, prop, g@, depth as nat) == search_list(
                    actors,
                    prop,
                    g@,
                    acts@.subrange(k as int, acts@.len() as int),
                    depth as nat,
                ),
                forall|j: int|
                    0 <= j < k ==> (#[trigger] step_spec(actors, g@, acts@[j]) matches Ok(h) && none_within(
                        actors,
                        prop,
                        h,
                        depth - 1,
                    )),
            decreases acts@.len() - k,
        {
            let a = acts[k];
            proof {
                crate::explorer::lemma_listed_enabled(g@, k as int);
                let rest = acts@.subrange(k as int, acts@.len() as int);
                assert(rest[0] == a);
                assert(rest.drop_first() == acts@.subrange(k + 1, acts@.len() as int));
            }
            let next = match self.next_state(g, &a) {
                Ok(n) => n,
                Err(e) => {
                    proof {
                        let p = seq![a];
                        assert(p.drop_last() == Seq::<Action>::empty());
                        assert(p.last() == a);
                        lemma_run_front(actors, g@, a, Seq::empty());
                        assert(seq![a] + Seq::<Action>::empty() == p);
                        assert(run(actors, g@, p) == Err::<GlobalView, ModelError>(e));
                    }
                    return Err(e);
                },
            };
            match self.search_depth(prop, &next, depth - 1) {
                Err(e) => {
                    proof {
                        let tail = choose|p: Seq<Action>|
                            1 <= p.len() <= depth - 1 && (run(actors, next@, p.drop_last()) matches Ok(h) && enabled(
                                h,
                                p.last(),
                            )) && #[trigger] run(actors, next@, p) == Err::<GlobalView, ModelError>(e);
                        let p = seq![a] + tail;
                        lemma_run_front(actors, g@, a, tail);
                        lemma_run_front(actors, g@, a, tail.drop_last());
                        assert(p.drop_last() == seq![a] + tail.drop_last());
                        assert(p.last() == tail.last());
                        assert(fails_within(actors, g@, depth as int, e));
                    }
                    return Err(e);
                },
                Ok(Some(rest)) => {
                    let mut p: Vec<Action> = Vec::new();
                    p.push(a);
                    let mut i: usize = 0;
                    while i < rest.len()
                        invariant
                            i <= rest@.len(),
                            p@ == seq![a] + rest@.subrange(0, i as int),
                        decreases rest@.len() - i,
                    {
                        p.push(rest[i]);
                        assert(rest@.subrange(0, i + 1) == rest@.subrange(0, i as int).push(rest@[i as int]));
                        i = i + 1;
                    }
                    proof {
                        assert(rest@.subrange(0, i as int) == rest@);
                        lemma_run_front(actors, g@, a, rest@);
                    }
                    return Ok(Some(p));
                },
                Ok(None) => {},
            }
            k = k + 1;
        }
        proof {
            assert(acts@.subrange(k as int, acts@.len() as int).len() == 0);
            assert forall|s: Seq<Action>| s.len() <= depth && #[trigger] run(actors, g@, s) is Ok implies !sought(
                prop,
                run(actors, g@, s)->Ok_0,
            ) by {
                if s.len() > 0 {
                    let a = s[0];
                    let t = s.drop_first();
                    assert(s == seq![a] + t);
                    lemma_run_front(actors, g@, a, t);
                    assert(step_spec(actors, g@, a) is Ok);
                    assert(enabled(g@, a));
                    lemma_enabled_listed(g@, a);
                    let j = choose|j: int| 0 <= j < acts@.len() && acts@[j] == a;
                    assert(step_spec(actors, g@, acts@[j]) is Ok);
                    let h = step_spec(actors, g@, a)->Ok_0;
                    assert(run(actors, h, t) is Ok);
                }
            }
        }
        Ok(None)
    }

    /// Searches for a state that settles `prop` (a counterexample to an
    /// `Always` property, a witness to any other) by deepening: all runs of
    /// no action, then of one, and so on up to `max_depth`, each depth first
    /// in the order in which actions are enabled. Unlike [`SystemModel::discover`]
    /// it keeps no states, so no bound on their number can stop it.
    pub fn discover_by_deepening(&self, prop: Property, max_depth: usize) -> (r: Result<Option<Vec<Action>>, ModelError>)
        ensures
            r matches Ok(Some(p)) ==> p@.len() <= max_depth && (reached(self.actors@, p@) matches Ok(g) && sought(
                prop,
                g,
            )),
            r matches Ok(Some(p)) ==> forall|q: Seq<Action>|
                q.len() < p@.len() && #[trigger] reached(self.actors@, q) is Ok ==> !sought(
                    prop,
                    reached(self.actors@, q)->Ok_0,
                ),
            r matches Ok(None) ==> forall|p: Seq<Action>|
                p.len() <= max_depth && #[trigger] reached(self.actors@, p) is Ok ==> !sought(
                    prop,
                    reached(self.actors@, p)->Ok_0,
                ),
            r matches Err(e) ==> exists|p: Seq<Action>|
                1 <= p.len() <= max_depth && (reached(self.actors@, p.drop_last()) matches Ok(g) && enabled(
                    g,
                    p.last(),
                )) && #[trigger] reached(self.actors@, p) == Err::<GlobalView, ModelError>(e),
            path_result(r) == deepening_spec(self.actors@, prop, max_depth as nat),
    {
        let ghost actors = self.actors@;
        let init = match self.init_state() {
            Ok(g) => g,
            Err(e) => {
                proof {
                    lemma_init_ok(actors, actors.len());
                }
                return Err(e);
            },
        };
        let ghost g0 = init@;
        let mut d: usize = 0;
        while d <= max_depth
            invariant
                actors == self.actors@,
                init_spec(actors) == Ok::<GlobalView, ModelError>(g0),
                init@ == g0,
                d == 0 || none_within(actors, prop, g0, d - 1),
                d <= max_depth,
                deepening_spec(actors, prop, max_depth as nat) == deepening_from(
                    actors,
                    prop,
                    g0,
                    d as nat,
                    max_depth as nat,
                ),
            decreases max_depth + 1 - d,
        {
            match self.search_depth(prop, &init, d) {
                Ok(Some(p)) => {
                    proof {
                        assert forall|q: Seq<Action>|
                            q.len() < p@.len() && #[trigger] reached(actors, q) is Ok implies !sought(
                            prop,
                            reached(actors, q)->Ok_0,
                        ) by {
                            if d == 0 {
                                assert(q.len() < 0);
                            }
                            assert(run(actors, g0, q) is Ok);
                        }
                    }
                    return Ok(Some(p));
                },
                Ok(None) => {},
                Err(e) => {
                    proof {
                        let p = choose|p: Seq<Action>|
                            1 <= p.len() <= d && (run(actors, g0, p.drop_last()) matches Ok(h) && enabled(
                                h,
                                p.last(),
                            )) && #[trigger] run(actors, g0, p) == Err::<GlobalView, ModelError>(e);
                        assert(reached(actors, p) == Err::<GlobalView, ModelError>(e));
                        assert(reached(actors, p.drop_last()) == run(actors, g0, p.drop_last()));
                    }
                    return Err(e);
                },
            }
            if d == max_depth {
                proof {
                    assert(deepening_from(actors, prop, g0, (d + 1) as nat, max_depth as nat) == Ok::<
                        Option<Seq<Action>>,
                        ModelError,
                    >(None));
                    assert forall|p: Seq<Action>| p.len() <= max_depth && #[trigger] reached(actors, p) is Ok implies !sought(
                        prop,
                        reached(actors, p)->Ok_0,
                    ) by {
                        assert(run(actors, g0, p) is Ok);
                    }
                }
                return Ok(None);
            }
            d = d + 1;
        }
        Ok(None)
    }
}

} // verus!
