use vstd::prelude::*;

use crate::laws::lemma_step_respects_equivalence;
use crate::model::{
    actions_spec, copy_vec, deliveries, enabled, equivalent, init_spec, lemma_init_ok, timeouts, reached, step_spec, Action, GlobalState, GlobalView,
    ModelActor, ModelError, SystemModel,
};
use crate::properties::{sought, Property};

verus! {

/// How a search ended, when no action failed.
#[derive(Debug, PartialEq, Eq)]
pub enum SearchOutcome {
    /// The actions that lead from the initial state to a state that settles
    /// the property.
    Discovered(Vec<Action>),
    /// Every reachable state was seen, and none settles the property.
    Exhausted,
    /// Some states were left unexpanded at the depth bound; no state
    /// within the bound settles the property.
    DepthBounded,
    /// The search held as many states as it was allowed before it was done;
    /// nothing is known.
    StateLimit,
}

/// Some state of the list, equal to `g` up to order, was reached by a path
/// of at most `d` actions.
pub open spec fn covered(states: Seq<GlobalState>, paths: Seq<Vec<Action>>, g: GlobalView, d: int) -> bool {
    exists|m: int| 0 <= m < states.len() && equivalent(#[trigger] states[m]@, g) && paths[m]@.len() <= d
}

/// The `j`th action enabled in the `i`th state leads to a state that the
/// list covers, one action deeper.
pub open spec fn successor_covered(
    actors: Seq<ModelActor>,
    states: Seq<GlobalState>,
    paths: Seq<Vec<Action>>,
    i: int,
    j: int,
) -> bool {
    step_spec(actors, states[i]@, actions_spec(states[i]@)[j]) matches Ok(s) && covered(
        states,
        paths,
        s,
        paths[i]@.len() + 1 as int,
    )
}

/// The paths in `ps` are no longer than `max_depth`, each reaches a state,
/// and no two of those states are equal.
pub open spec fn distinct_reachable(actors: Seq<ModelActor>, ps: Seq<Seq<Action>>, max_depth: int) -> bool {
    &&& forall|i: int| 0 <= i < ps.len() ==> ps[i].len() <= max_depth && (#[trigger] reached(actors, ps[i])) is Ok
    &&& forall|i: int, j: int|
        0 <= i < j < ps.len() ==> !equivalent(
            #[trigger] reached(actors, ps[i])->Ok_0,
            #[trigger] reached(actors, ps[j])->Ok_0,
        )
}

/// Every action the explorer tries is enabled.
pub proof fn lemma_listed_enabled(g: GlobalView, k: int)
    requires
        0 <= k < actions_spec(g).len(),
    ensures
        enabled(g, actions_spec(g)[k]),
{
    let n = deliveries(g.network).len();
    if k < n {
        assert(actions_spec(g)[k] == Action::Deliver(g.network[k]));
    } else {
        assert(actions_spec(g)[k] == Action::Timeout(g.timers[k - n]));
        assert(g.timers.contains(g.timers[k - n]));
    }
}

/// The first `k` actions enabled in the `i`th state have been followed.
pub open spec fn expanded(actors: Seq<ModelActor>, states: Seq<GlobalState>, paths: Seq<Vec<Action>>, i: int, k: int) -> bool {
    forall|j: int| 0 <= j < k ==> #[trigger] successor_covered(actors, states, paths, i, j)
}

/// Paths come in the order of their lengths.
pub open spec fn depth_ordered(paths: Seq<Vec<Action>>) -> bool {
    forall|i: int, j: int| 0 <= i <= j < paths.len() ==> paths[i]@.len() <= paths[j]@.len()
}

/// No path is more than one action longer than `d`.
pub open spec fn within_next_layer(paths: Seq<Vec<Action>>, d: nat) -> bool {
    forall|j: int| 0 <= j < paths.len() ==> #[trigger] paths[j]@.len() <= d + 1
}

/// What the list covers, a longer list covers too.
proof fn lemma_list_grows(
    actors: Seq<ModelActor>,
    prev_states: Seq<GlobalState>,
    prev_paths: Seq<Vec<Action>>,
    next_states: Seq<GlobalState>,
    next_paths: Seq<Vec<Action>>,
)
    requires
        prev_states.len() == prev_paths.len(),
        next_states.len() == next_paths.len(),
        prev_states.len() <= next_states.len(),
        forall|i: int| 0 <= i < prev_states.len() ==> next_states[i] == prev_states[i] && next_paths[i] == prev_paths[i],
    ensures
        forall|g: GlobalView, d: int| covered(prev_states, prev_paths, g, d) ==> #[trigger] covered(next_states, next_paths, g, d),
        forall|i: int, j: int|
            0 <= i < prev_states.len() && successor_covered(actors, prev_states, prev_paths, i, j) ==> #[trigger] successor_covered(
                actors,
                next_states,
                next_paths,
                i,
                j,
            ),
        forall|i: int, k: int| 0 <= i < prev_states.len() && expanded(actors, prev_states, prev_paths, i, k) ==> #[trigger] expanded(
            actors,
            next_states,
            next_paths,
            i,
            k,
        ),
{
    assert forall|g: GlobalView, d: int| covered(prev_states, prev_paths, g, d) implies #[trigger] covered(next_states, next_paths, g, d) by {
        let m = choose|m: int| 0 <= m < prev_states.len() && equivalent(#[trigger] prev_states[m]@, g) && prev_paths[m]@.len() <= d;
        assert(equivalent(next_states[m]@, g));
    }
    assert forall|i: int, k: int| 0 <= i < prev_states.len() && expanded(actors, prev_states, prev_paths, i, k) implies #[trigger] expanded(
        actors,
        next_states,
        next_paths,
        i,
        k,
    ) by {
        assert forall|j: int| 0 <= j < k implies #[trigger] successor_covered(actors, next_states, next_paths, i, j) by {
            assert(successor_covered(actors, prev_states, prev_paths, i, j));
        }
    }
}

/// An enabled action is among those the explorer tries.
pub proof fn lemma_enabled_listed(g: GlobalView, a: Action)
    requires
        enabled(g, a),
    ensures
        actions_spec(g).contains(a),
{
    match a {
        Action::Deliver(e) => {
            let k = choose|k: int| 0 <= k < g.network.len() && g.network[k] == e;
            assert(actions_spec(g)[k] == a);
        },
        Action::Timeout(h) => {
            let k = choose|k: int| 0 <= k < g.timers.len() && g.timers[k] == h;
            assert(actions_spec(g)[g.network.len() + k] == a);
        },
    }
}

/// A finished breadth-first list covers every state reached within the
/// depth bound, by a path no longer than the one that reached it.
proof fn lemma_search_complete(
    actors: Seq<ModelActor>,
    states: Seq<GlobalState>,
    paths: Seq<Vec<Action>>,
    max_depth: int,
    g0: GlobalView,
    p: Seq<Action>,
)
    requires
        states.len() == paths.len() > 0,
        states[0]@ == g0,
        paths[0]@.len() == 0,
        init_spec(actors) == Ok::<GlobalView, ModelError>(g0),
        forall|i: int|
            0 <= i < states.len() && paths[i]@.len() < max_depth ==> #[trigger] expanded(
                actors,
                states,
                paths,
                i,
                actions_spec(states[i]@).len() as int,
            ),
        p.len() <= max_depth,
        reached(actors, p) is Ok,
    ensures
        covered(states, paths, reached(actors, p)->Ok_0, p.len() as int),
    decreases p.len(),
{
    broadcast use vstd::seq_lib::group_to_multiset_ensures;

    let g = reached(actors, p)->Ok_0;
    if p.len() == 0 {
        assert(equivalent(states[0]@, g));
    } else {
        let q = p.drop_last();
        let a = p.last();
        assert(reached(actors, q) is Ok);
        lemma_search_complete(actors, states, paths, max_depth, g0, q);
        let gq = reached(actors, q)->Ok_0;
        let m = choose|m: int| 0 <= m < states.len() && equivalent(#[trigger] states[m]@, gq) && paths[m]@.len() <= q.len();
        let sm = states[m]@;
        assert(enabled(gq, a));
        match a {
            Action::Deliver(e) => {
                assert(gq.network.to_multiset().count(e) == sm.network.to_multiset().count(e));
            },
            Action::Timeout(h) => {
                assert(gq.timers.to_multiset().count(h) == sm.timers.to_multiset().count(h));
            },
        }
        assert(enabled(sm, a));
        lemma_enabled_listed(sm, a);
        let j = choose|j: int| 0 <= j < actions_spec(sm).len() && actions_spec(sm)[j] == a;
        assert(expanded(actors, states, paths, m, actions_spec(sm).len() as int));
        assert(successor_covered(actors, states, paths, m, j));
        lemma_step_respects_equivalence(actors, sm, gq, a);
        let s = step_spec(actors, sm, a)->Ok_0;
        let w = choose|w: int| 0 <= w < states.len() && equivalent(#[trigger] states[w]@, s) && paths[w]@.len() <= paths[m]@.len() + 1;
        assert(equivalent(states[w]@, g));
    }
}

/// Whether some state of `seen` is equivalent to `g`.
fn contains_state(seen: &Vec<GlobalState>, g: &GlobalState) -> (r: bool)
    ensures
        r == exists|j: int| 0 <= j < seen@.len() && equivalent(#[trigger] seen@[j]@, g@),
{
    let mut i: usize = 0;
    while i < seen.len()
        invariant
            i <= seen@.len(),
            forall|j: int| 0 <= j < i ==> !equivalent(#[trigger] seen@[j]@, g@),
        decreases seen@.len() - i,
    {
        if seen[i] == *g {
            return true;
        }
        i = i + 1;
    }
    false
}

impl SystemModel {
    /// Searches breadth first from the initial state for a state that
    /// settles `prop` (a counterexample to an `Always` property, a witness
    /// to any other), and returns the actions that lead there, on a path as
    /// short as any that reaches such a state. Paths longer
    /// than `max_depth` are not followed; of states that are `==` (equal up
    /// to the order of envelopes and timers) one is kept; the search gives up
    /// once it holds `max_states` states. It ends `Exhausted` when every
    /// reachable state was seen, `DepthBounded` when the depth bound cut some
    /// paths short. An action that fails ends the search with its error.
    pub fn discover(&self, prop: Property, max_depth: usize, max_states: usize) -> (r: Result<SearchOutcome, ModelError>)
        ensures
            r matches Ok(SearchOutcome::Discovered(p)) ==> p@.len() <= max_depth && (reached(self.actors@, p@) matches Ok(
                g,
            ) && sought(prop, g)),
            r matches Ok(SearchOutcome::Discovered(p)) ==> forall|q: Seq<Action>|
                q.len() < p@.len() && #[trigger] reached(self.actors@, q) is Ok ==> !sought(
                    prop,
                    reached(self.actors@, q)->Ok_0,
                ),
            r matches Ok(SearchOutcome::Exhausted) ==> forall|p: Seq<Action>|
                #[trigger] reached(self.actors@, p) is Ok ==> !sought(
                    prop,
                    reached(self.actors@, p)->Ok_0,
                ),
            r matches Ok(SearchOutcome::DepthBounded) ==> forall|p: Seq<Action>|
                p.len() <= max_depth && #[trigger] reached(self.actors@, p) is Ok ==> !sought(
                    prop,
                    reached(self.actors@, p)->Ok_0,
                ),
            r matches Ok(SearchOutcome::StateLimit) ==> exists|ps: Seq<Seq<Action>>|
                ps.len() == (if max_states == 0 { 1 } else { max_states }) && #[trigger] distinct_reachable(
                    self.actors@,
                    ps,
                    max_depth as int,
                ),
            r matches Err(e) ==> exists|p: Seq<Action>|
                1 <= p.len() <= max_depth && (reached(self.actors@, p.drop_last()) matches Ok(g) && enabled(
                    g,
                    p.last(),
                )) && #[trigger] reached(self.actors@, p) == Err::<GlobalView, ModelError>(e),
            (init_spec(self.actors@) matches Ok(g0) && sought(prop, g0)) ==> (r matches Ok(SearchOutcome::Discovered(p))
                && p@.len() == 0),
    {
        let ghost actors = self.actors@;
        let init = match self.init_state() {
            Ok(g) => g,
            Err(e) => {
                proof {
                    lemma_init_ok(actors, actors.len());
                }
                return Err(e);
            },
        };
        assert(reached(actors, Seq::empty()) == Ok::<GlobalView, ModelError>(init@));
        if prop.settled_by(&init) {
            return Ok(SearchOutcome::Discovered(Vec::new()));
        }
        let ghost g0 = init@;
        let cap: usize = if max_states == 0 { 1 } else { max_states };
        let mut states: Vec<GlobalState> = Vec::new();
        let mut paths: Vec<Vec<Action>> = Vec::new();
        states.push(init);
        paths.push(Vec::new());
        let mut head: usize = 0;
        let mut cut = false;
        while head < states.len()
            invariant
                !cut ==> forall|i: int|
                    0 <= i < head ==> #[trigger] expanded(
                        actors,
                        states@,
                        paths@,
                        i,
                        actions_spec(states@[i]@).len() as int,
                    ),
                actors == self.actors@,
                init_spec(actors) == Ok::<GlobalView, ModelError>(g0) && !sought(prop, g0),
                states@.len() == paths@.len(),
                1 <= states@.len() <= cap,
                cap == (if max_states == 0 { 1 } else { max_states }),
                head <= states@.len(),
                states@[0]@ == g0,
                paths@[0]@.len() == 0,
                forall|i: int|
                    0 <= i < states@.len() ==> reached(actors, #[trigger] paths@[i]@) == Ok::<GlobalView, ModelError>(
                        states@[i]@,
                    ) && paths@[i]@.len() <= max_depth && !sought(prop, states@[i]@),
                depth_ordered(paths@),
                forall|i: int, j: int|
                    0 <= i < j < states@.len() ==> !equivalent(#[trigger] states@[i]@, #[trigger] states@[j]@),
                head < states@.len() ==> within_next_layer(paths@, paths@[head as int]@.len()),
                forall|i: int|
                    0 <= i < head && paths@[i]@.len() < max_depth ==> #[trigger] expanded(
                        actors,
                        states@,
                        paths@,
                        i,
                        actions_spec(states@[i]@).len() as int,
                    ),
            decreases cap - head,
        {
            if paths[head].len() < max_depth {
                let acts = self.actions(&states[head]);
                let mut k: usize = 0;
                assert(expanded(actors, states@, paths@, head as int, 0));
                while k < acts.len()
                    invariant
                        !cut ==> forall|i: int|
                            0 <= i < head ==> #[trigger] expanded(
                                actors,
                                states@,
                                paths@,
                                i,
                                actions_spec(states@[i]@).len() as int,
                            ),
                        actors == self.actors@,
                        init_spec(actors) == Ok::<GlobalView, ModelError>(g0) && !sought(prop, g0),
                        states@.len() == paths@.len(),
                        1 <= states@.len() <= cap,
                        cap == (if max_states == 0 { 1 } else { max_states }),
                cap == (if max_states == 0 { 1 } else { max_states }),
                        head < states@.len(),
                        states@[0]@ == g0,
                        paths@[0]@.len() == 0,
                        paths@[head as int]@.len() < max_depth,
                        acts@ == actions_spec(states@[head as int]@),
                        forall|i: int|
                            0 <= i < states@.len() ==> reached(actors, #[trigger] paths@[i]@) == Ok::<
                                GlobalView,
                                ModelError,
                            >(states@[i]@) && paths@[i]@.len() <= max_depth && !sought(prop, states@[i]@),
                        depth_ordered(paths@),
                        forall|i: int, j: int|
                            0 <= i < j < states@.len() ==> !equivalent(#[trigger] states@[i]@, #[trigger] states@[j]@),
                        within_next_layer(paths@, paths@[head as int]@.len()),
                        forall|i: int|
                            0 <= i < head && paths@[i]@.len() < max_depth ==> #[trigger] expanded(
                                actors,
                                states@,
                                paths@,
                                i,
                                actions_spec(states@[i]@).len() as int,
                            ),
                        expanded(actors, states@, paths@, head as int, k as int),
                    decreases acts@.len() - k,
                {
                    let a = acts[k];
                    let ghost q = paths@[head as int]@;
                    proof {
                        assert(q.push(a).drop_last() == q);
                        assert(reached(actors, q) == Ok::<GlobalView, ModelError>(states@[head as int]@));
                    }
                    match self.next_state(&states[head], &a) {
                        Err(e) => {
                            proof {
                                lemma_listed_enabled(states@[head as int]@, k as int);
                                assert(q.push(a).last() == a);
                                assert(reached(actors, q.push(a)) == Err::<GlobalView, ModelError>(e));
                            }
                            return Err(e);
                        },
                        Ok(next) => {
                            assert(reached(actors, q.push(a)) == Ok::<GlobalView, ModelError>(next@));
                            if contains_state(&states, &next) {
                                proof {
                                    let m = choose|m: int| 0 <= m < states@.len() && equivalent(#[trigger] states@[m]@, next@);
                                    assert(paths@[m]@.len() <= q.len() + 1);
                                    assert(covered(states@, paths@, next@, q.len() + 1 as int));
                                    assert(successor_covered(actors, states@, paths@, head as int, k as int));
                                }
                            } else {
                                let mut p = copy_vec(&paths[head]);
                                p.push(a);
                                if prop.settled_by(&next) {
                                    proof {
                                        let d = q.len() as int;
                                        assert forall|i: int|
                                            0 <= i < states@.len() && paths@[i]@.len() < d implies #[trigger] expanded(
                                            actors,
                                            states@,
                                            paths@,
                                            i,
                                            actions_spec(states@[i]@).len() as int,
                                        ) by {
                                            if i >= head {
                                                assert(paths@[head as int]@.len() <= paths@[i]@.len());
                                            }
                                        }
                                        assert forall|r: Seq<Action>|
                                            r.len() < p@.len() && #[trigger] reached(actors, r) is Ok implies !sought(
                                            prop,
                                            reached(actors, r)->Ok_0,
                                        ) by {
                                            lemma_search_complete(actors, states@, paths@, d, g0, r);
                                            let g = reached(actors, r)->Ok_0;
                                            let m = choose|m: int|
                                                0 <= m < states@.len() && equivalent(#[trigger] states@[m]@, g)
                                                    && paths@[m]@.len() <= r.len();
                                            assert(!sought(prop, states@[m]@));
                                        }
                                    }
                                    return Ok(SearchOutcome::Discovered(p));
                                }
                                if states.len() >= cap {
                                    proof {
                                        let ps = paths@.map_values(|v: Vec<Action>| v@);
                                        assert forall|i: int| 0 <= i < ps.len() implies #[trigger] reached(
                                            actors,
                                            ps[i],
                                        ) == Ok::<GlobalView, ModelError>(states@[i]@) by {
                                            assert(ps[i] == paths@[i]@);
                                        }
                                        assert(distinct_reachable(actors, ps, max_depth as int));
                                        assert(ps.len() == cap);
                                        assert(cap == (if max_states == 0 { 1 } else { max_states }));
                                        assert(distinct_reachable(self.actors@, ps, max_depth as int));
                                    }
                                    return Ok(SearchOutcome::StateLimit);
                                }
                                let ghost prev_states = states@;
                                let ghost prev_paths = paths@;
                                states.push(next);
                                paths.push(p);
                                proof {
                                    lemma_list_grows(actors, prev_states, prev_paths, states@, paths@);
                                    assert forall|i: int, j: int| 0 <= i < j < states@.len() implies !equivalent(
                                        #[trigger] states@[i]@,
                                        #[trigger] states@[j]@,
                                    ) by {
                                        if j == states@.len() - 1 {
                                            assert(prev_states[i] == states@[i]);
                                            assert(!equivalent(prev_states[i]@, next@));
                                        } else {
                                            assert(prev_states[i] == states@[i] && prev_states[j] == states@[j]);
                                        }
                                    }
                                    let last = states@.len() - 1;
                                    assert(states@[last]@ == next@);
                                    assert(equivalent(states@[last]@, next@));
                                    assert(covered(states@, paths@, next@, q.len() + 1 as int));
                                    assert(successor_covered(actors, states@, paths@, head as int, k as int));
                                    assert forall|i: int, j: int| 0 <= i <= j < paths@.len() implies paths@[i]@.len()
                                        <= paths@[j]@.len() by {
                                        if j == last && i < last {
                                            assert(prev_paths[i]@.len() <= q.len() + 1);
                                        }
                                    }
                                }
                            }
                        },
                    }
                    proof {
                        assert forall|j: int| 0 <= j < k + 1 implies #[trigger] successor_covered(
                            actors,
                            states@,
                            paths@,
                            head as int,
                            j,
                        ) by {
                            if j < k {
                                assert(successor_covered(actors, states@, paths@, head as int, j));
                            }
                        }
                    }
                    k = k + 1;
                }
            } else {
                cut = true;
            }
            proof {
                if head + 1 < states@.len() {
                    assert(paths@[head as int]@.len() <= paths@[head + 1]@.len());
                }
            }
            head = head + 1;
        }
        if !cut {
            proof {
                assert forall|p: Seq<Action>| #[trigger] reached(actors, p) is Ok implies !sought(
                    prop,
                    reached(actors, p)->Ok_0,
                ) by {
                    lemma_search_complete(actors, states@, paths@, p.len() as int, g0, p);
                    let g = reached(actors, p)->Ok_0;
                    let m = choose|m: int|
                        0 <= m < states@.len() && equivalent(#[trigger] states@[m]@, g) && paths@[m]@.len() <= p.len();
                    assert(states@[m]@.actor_states == g.actor_states);
                    assert(!sought(prop, states@[m]@));
                }
            }
            return Ok(SearchOutcome::Exhausted);
        }
        proof {
            assert forall|p: Seq<Action>|
                p.len() <= max_depth && #[trigger] reached(actors, p) is Ok implies !sought(
                prop,
                reached(actors, p)->Ok_0,
            ) by {
                lemma_search_complete(actors, states@, paths@, max_depth as int, g0, p);
                let g = reached(actors, p)->Ok_0;
                let m = choose|m: int| 0 <= m < states@.len() && equivalent(#[trigger] states@[m]@, g) && paths@[m]@.len() <= p.len();
                assert(states@[m]@.actor_states == g.actor_states);
                assert(!sought(prop, states@[m]@));
            }
        }
        Ok(SearchOutcome::DepthBounded)
    }

}

} // verus!
