//! Laws of the elimination run, proved once about the model.
//!
//! [`crate::profiler::CacheProfiler::profile_cache_set`] is proved equal to
//! [`crate::model::run_from`], so everything stated here holds of the
//! executable discovery loop as well.

use vstd::prelude::*;
use crate::geometry::no_dups;
use crate::model::RunState;
use crate::model::delta_of;
use crate::model::initial_state;
use crate::model::lemma_swap_removed_props;
use crate::model::run_from;
use crate::model::run_step;
use crate::model::swap_removed;

verus! {

/// The state of a run over initial candidates `init` after `k` iterations.
pub open spec fn state_at(
    init: Seq<u32>,
    ct: Seq<int>,
    rt: Seq<nat>,
    threshold: int,
    k: nat,
) -> RunState {
    run_from(initial_state(init), ct, rt, threshold, k)
}

/// The candidate removed at iteration `k` of a run (meaningful while the
/// candidate set is still non-empty).
pub open spec fn removed_at(
    init: Seq<u32>,
    ct: Seq<int>,
    rt: Seq<nat>,
    threshold: int,
    k: nat,
) -> u32 {
    let st = state_at(init, ct, rt, threshold, k);
    st.cands[(rt[st.tries as int] % st.cands.len()) as int]
}

/// At iteration `k` the measured delta clears the threshold exactly when the
/// removed candidate belongs to `same_set`.
pub open spec fn decision_matches(
    init: Seq<u32>,
    ct: Seq<int>,
    rt: Seq<nat>,
    threshold: int,
    k: nat,
    same_set: Set<u32>,
) -> bool {
    let st = state_at(init, ct, rt, threshold, k);
    st.cands.len() > 0 ==> (delta_of(ct, st.tries as int) > threshold <==> same_set.contains(
        removed_at(init, ct, rt, threshold, k),
    ))
}

/// Running one more iteration is one step taken after the shorter run.
pub proof fn lemma_run_from_snoc(st: RunState, ct: Seq<int>, rt: Seq<nat>, threshold: int, fuel: nat)
    ensures
        run_from(st, ct, rt, threshold, fuel + 1) == ({
            let s = run_from(st, ct, rt, threshold, fuel);
            if s.cands.len() == 0 {
                s
            } else {
                run_step(
                    s,
                    delta_of(ct, s.tries as int),
                    (rt[s.tries as int] % s.cands.len()) as int,
                    threshold,
                )
            }
        }),
    decreases fuel,
{
    if st.cands.len() == 0 {
        assert(run_from(st, ct, rt, threshold, fuel + 1) == st);
        assert(run_from(st, ct, rt, threshold, fuel) == st);
    } else if fuel == 0 {
        let delta = delta_of(ct, st.tries as int);
        let pick = (rt[st.tries as int] % st.cands.len()) as int;
        let stepped = run_step(st, delta, pick, threshold);
        assert(run_from(st, ct, rt, threshold, fuel) == st);
        assert(run_from(st, ct, rt, threshold, fuel + 1) == run_from(
            stepped,
            ct,
            rt,
            threshold,
            fuel,
        ));
        assert(run_from(stepped, ct, rt, threshold, fuel) == stepped);
    } else {
        let delta = delta_of(ct, st.tries as int);
        let pick = (rt[st.tries as int] % st.cands.len()) as int;
        let stepped = run_step(st, delta, pick, threshold);
        assert(run_from(st, ct, rt, threshold, fuel + 1) == run_from(
            stepped,
            ct,
            rt,
            threshold,
            fuel,
        ));
        assert(run_from(st, ct, rt, threshold, fuel) == run_from(
            stepped,
            ct,
            rt,
            threshold,
            (fuel - 1) as nat,
        ));
        lemma_run_from_snoc(stepped, ct, rt, threshold, (fuel - 1) as nat);
    }
}

/// Determinism: a run consumes exactly the readings of its iterations and
/// nothing else, so two runs over traces that agree on that window are the
/// same run.  In particular, a scripted clock and a seeded random source
/// make a discovery run exactly reproducible.
pub proof fn lemma_run_deterministic(
    st: RunState,
    ct1: Seq<int>,
    rt1: Seq<nat>,
    ct2: Seq<int>,
    rt2: Seq<nat>,
    threshold: int,
    fuel: nat,
)
    requires
        forall|k: int| st.tries <= k < st.tries + fuel ==> rt1[k] == rt2[k],
        forall|j: int| 4 * st.tries <= j < 4 * (st.tries + fuel) ==> ct1[j] == ct2[j],
    ensures
        run_from(st, ct1, rt1, threshold, fuel) == run_from(st, ct2, rt2, threshold, fuel),
    decreases fuel,
{
    if fuel == 0 || st.cands.len() == 0 {
    } else {
        let t = st.tries as int;
        assert(ct1[4 * t] == ct2[4 * t] && ct1[4 * t + 1] == ct2[4 * t + 1] && ct1[4 * t + 2]
            == ct2[4 * t + 2] && ct1[4 * t + 3] == ct2[4 * t + 3]);
        assert(delta_of(ct1, t) == delta_of(ct2, t));
        assert(rt1[t] == rt2[t]);
        let delta = delta_of(ct1, t);
        let pick = (rt1[t] % st.cands.len()) as int;
        lemma_run_deterministic(
            run_step(st, delta, pick, threshold),
            ct1,
            rt1,
            ct2,
            rt2,
            threshold,
            (fuel - 1) as nat,
        );
    }
}

/// What one step does to membership when the decision matches `same_set`:
/// members of `same_set` survive, nothing new appears, and a removed
/// non-member is gone.
proof fn lemma_step_membership(
    st: RunState,
    delta: int,
    pick: int,
    threshold: int,
    same_set: Set<u32>,
)
    requires
        no_dups(st.cands),
        0 <= pick < st.cands.len(),
        delta > threshold <==> same_set.contains(st.cands[pick]),
    ensures
        no_dups(run_step(st, delta, pick, threshold).cands),
        forall|x: u32| run_step(st, delta, pick, threshold).cands.contains(x) ==> st.cands.contains(x),
        forall|x: u32|
            st.cands.contains(x) && same_set.contains(x) ==> run_step(
                st,
                delta,
                pick,
                threshold,
            ).cands.contains(x),
        !same_set.contains(st.cands[pick]) ==> !run_step(
            st,
            delta,
            pick,
            threshold,
        ).cands.contains(st.cands[pick]),
{
    lemma_swap_removed_props(st.cands, pick);
    let s = st.cands[pick];
    let shrunk = swap_removed(st.cands, pick);
    let stepped = run_step(st, delta, pick, threshold);
    if delta > threshold {
        assert(stepped.cands == shrunk.push(s));
        assert forall|x: u32| stepped.cands.contains(x) implies st.cands.contains(x) by {
            let j = choose|j: int| 0 <= j < stepped.cands.len() && stepped.cands[j] == x;
            if j < shrunk.len() {
                assert(shrunk[j] == x);
            } else {
                assert(stepped.cands[j] == s);
            }
        }
        assert(no_dups(stepped.cands)) by {
            assert forall|p: int, q: int|
                0 <= p < q < stepped.cands.len() implies stepped.cands[p] != stepped.cands[q] by {
                if q == shrunk.len() {
                    assert(stepped.cands[q] == s);
                    assert(stepped.cands[p] == shrunk[p]);
                    assert(shrunk.contains(shrunk[p]));
                }
            }
        }
        assert forall|x: u32|
            st.cands.contains(x) && same_set.contains(x) implies stepped.cands.contains(x) by {
            if x == s {
                assert(stepped.cands[shrunk.len() as int] == s);
            } else {
                assert(shrunk.contains(x));
                let j = choose|j: int| 0 <= j < shrunk.len() && shrunk[j] == x;
                assert(stepped.cands[j] == x);
            }
        }
    } else {
        assert(stepped.cands == shrunk);
        assert forall|x: u32|
            st.cands.contains(x) && same_set.contains(x) implies stepped.cands.contains(x) by {
            assert(x != s);
        }
    }
}

/// Selective elimination: when the measurements decide membership of a fixed
/// set, every member of that set survives the whole run, nothing outside the
/// initial candidates appears, and a non-member, once removed, never
/// returns.  With every non-member removed at some iteration, the final set
/// is exactly the members among the initial candidates
/// (see [`lemma_selective_elimination_exact`]).
pub proof fn lemma_selective_elimination(
    init: Seq<u32>,
    ct: Seq<int>,
    rt: Seq<nat>,
    threshold: int,
    budget: nat,
    same_set: Set<u32>,
)
    requires
        no_dups(init),
        forall|k: nat|
            k < budget ==> #[trigger] decision_matches(init, ct, rt, threshold, k, same_set),
    ensures
        no_dups(state_at(init, ct, rt, threshold, budget).cands),
        forall|x: u32|
            state_at(init, ct, rt, threshold, budget).cands.contains(x) ==> init.contains(x),
        forall|x: u32|
            init.contains(x) && same_set.contains(x) ==> state_at(
                init,
                ct,
                rt,
                threshold,
                budget,
            ).cands.contains(x),
        forall|k: nat|
            k < budget && state_at(init, ct, rt, threshold, k).cands.len() > 0
                && !same_set.contains(#[trigger] removed_at(init, ct, rt, threshold, k))
                ==> !state_at(init, ct, rt, threshold, budget).cands.contains(
                removed_at(init, ct, rt, threshold, k),
            ),
    decreases budget,
{
    if budget == 0 {
    } else {
        let b = (budget - 1) as nat;
        lemma_selective_elimination(init, ct, rt, threshold, b, same_set);
        let prev = state_at(init, ct, rt, threshold, b);
        lemma_run_from_snoc(initial_state(init), ct, rt, threshold, b);
        if prev.cands.len() == 0 {
            assert(state_at(init, ct, rt, threshold, budget) == prev);
            assert forall|k: nat|
                k < budget && state_at(init, ct, rt, threshold, k).cands.len() > 0
                    && !same_set.contains(#[trigger] removed_at(init, ct, rt, threshold, k))
                    implies !state_at(init, ct, rt, threshold, budget).cands.contains(
                removed_at(init, ct, rt, threshold, k),
            ) by {
                if k < b {
                } else {
                    assert(k == b);
                }
            }
        } else {
            let delta = delta_of(ct, prev.tries as int);
            let pick = (rt[prev.tries as int] % prev.cands.len()) as int;
            assert(decision_matches(init, ct, rt, threshold, b, same_set));
            assert(prev.cands[pick] == removed_at(init, ct, rt, threshold, b));
            lemma_step_membership(prev, delta, pick, threshold, same_set);
            let cur = run_step(prev, delta, pick, threshold);
            assert(state_at(init, ct, rt, threshold, budget) == cur);
            assert forall|k: nat|
                k < budget && state_at(init, ct, rt, threshold, k).cands.len() > 0
                    && !same_set.contains(#[trigger] removed_at(init, ct, rt, threshold, k))
                    implies !cur.cands.contains(removed_at(init, ct, rt, threshold, k)) by {
                let x = removed_at(init, ct, rt, threshold, k);
                if k < b {
                    assert(!prev.cands.contains(x));
                    if cur.cands.contains(x) {
                        assert(prev.cands.contains(x));
                    }
                } else {
                    assert(k == b);
                    assert(!same_set.contains(prev.cands[pick]));
                }
            }
        }
    }
}

/// Selective elimination, exactly: when the measurements decide membership
/// of a fixed set and every initial non-member is removed at some iteration,
/// the run ends with exactly the members among the initial candidates,
/// whatever the elimination order was.
pub proof fn lemma_selective_elimination_exact(
    init: Seq<u32>,
    ct: Seq<int>,
    rt: Seq<nat>,
    threshold: int,
    budget: nat,
    same_set: Set<u32>,
)
    requires
        no_dups(init),
        forall|k: nat|
            k < budget ==> #[trigger] decision_matches(init, ct, rt, threshold, k, same_set),
        forall|x: u32|
            init.contains(x) && !same_set.contains(x) ==> exists|k: nat|
                k < budget && state_at(init, ct, rt, threshold, k).cands.len() > 0 && #[trigger]
                removed_at(init, ct, rt, threshold, k) == x,
    ensures
        forall|x: u32|
            state_at(init, ct, rt, threshold, budget).cands.contains(x) <==> (init.contains(x)
                && same_set.contains(x)),
{
    lemma_selective_elimination(init, ct, rt, threshold, budget, same_set);
    let fin = state_at(init, ct, rt, threshold, budget);
    assert forall|x: u32| fin.cands.contains(x) implies init.contains(x) && same_set.contains(
        x,
    ) by {
        if !same_set.contains(x) {
            let k = choose|k: nat|
                k < budget && state_at(init, ct, rt, threshold, k).cands.len() > 0 && #[trigger]
                removed_at(init, ct, rt, threshold, k) == x;
            assert(!fin.cands.contains(x));
        }
    }
}

} // verus!
