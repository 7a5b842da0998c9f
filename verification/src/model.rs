//! Mathematical model of an elimination run.
//!
//! A run consumes two traces: the clock readings (four per iteration, two
//! around each probe of the victim) and the raw random draws (one per
//! iteration, reduced modulo the current candidate count).  `run_from` is the
//! exact meaning of the discovery loop: the executable loop in
//! [`crate::profiler`] is proved equal to it, so every property of a run can
//! be established here, once, about the model.

use vstd::prelude::*;
use crate::geometry::no_dups;

verus! {

/// The evolving state of an elimination run.
pub struct RunState {
    /// Current working set of candidate addresses.
    pub cands: Seq<u32>,
    /// Iterations performed so far.
    pub tries: nat,
    /// Iterations whose delta failed to clear the threshold.
    pub errors: nat,
    /// Sum of the confirmed timing deltas, in clock ticks.
    pub gain: int,
}

/// The timing delta of iteration `k`: the victim probe duration after a full
/// prime, minus the probe duration after re-priming without the removed
/// candidate.  Reading `4k` starts the first probe, reading `4k + 3` ends the
/// second.
pub open spec fn delta_of(ct: Seq<int>, k: int) -> int {
    (ct[4 * k + 1] - ct[4 * k]) - (ct[4 * k + 3] - ct[4 * k + 2])
}

/// `Vec::swap_remove` on the model side: element `i` is replaced by the last
/// element and the sequence shrinks by one.
pub open spec fn swap_removed(s: Seq<u32>, i: int) -> Seq<u32> {
    s.update(i, s.last()).drop_last()
}

/// One elimination iteration from state `st`: remove the candidate at
/// `pick`; if `delta` clears the threshold the candidate is confirmed and
/// re-admitted and the delta accumulates, otherwise it stays removed and the
/// inconclusive counter increments.
pub open spec fn run_step(st: RunState, delta: int, pick: int, threshold: int) -> RunState
    recommends
        0 <= pick < st.cands.len(),
{
    let s = st.cands[pick];
    let shrunk = swap_removed(st.cands, pick);
    if delta > threshold {
        RunState {
            cands: shrunk.push(s),
            tries: st.tries + 1,
            errors: st.errors,
            gain: st.gain + delta,
        }
    } else {
        RunState { cands: shrunk, tries: st.tries + 1, errors: st.errors + 1, gain: st.gain }
    }
}

/// Run up to `fuel` further iterations from `st`, stopping early when the
/// candidate set empties.  Iteration `k` consumes clock readings
/// `ct[4k .. 4k+4]` and raw draw `rt[k]`, where `k` counts all iterations
/// since the start of the run.
pub open spec fn run_from(st: RunState, ct: Seq<int>, rt: Seq<nat>, threshold: int, fuel: nat)
    -> RunState
    decreases fuel,
{
    if fuel == 0 || st.cands.len() == 0 {
        st
    } else {
        let delta = delta_of(ct, st.tries as int);
        let pick = (rt[st.tries as int] % st.cands.len()) as int;
        run_from(run_step(st, delta, pick, threshold), ct, rt, threshold, (fuel - 1) as nat)
    }
}

/// The state a fresh run starts from.
pub open spec fn initial_state(cands: Seq<u32>) -> RunState {
    RunState { cands, tries: 0, errors: 0, gain: 0 }
}

/// What one removal does to a duplicate-free candidate sequence: the removed
/// element is gone, everything else stays, and no duplicate appears.
pub proof fn lemma_swap_removed_props(s: Seq<u32>, i: int)
    requires
        no_dups(s),
        0 <= i < s.len(),
    ensures
        swap_removed(s, i).len() == s.len() - 1,
        no_dups(swap_removed(s, i)),
        !swap_removed(s, i).contains(s[i]),
        forall|x: u32| swap_removed(s, i).contains(x) <==> (s.contains(x) && x != s[i]),
        swap_removed(s, i).to_multiset() =~= s.to_multiset().remove(s[i]),
        forall|k: int|
            0 <= k < swap_removed(s, i).len() ==> s.contains(#[trigger] swap_removed(s, i)[k]),
{
    broadcast use vstd::seq_lib::group_to_multiset_ensures;

    let u = s.update(i, s.last());
    let s2 = swap_removed(s, i);
    assert(forall|j: int|
        0 <= j < s.len() - 1 ==> s2[j] == (if j == i {
            s.last()
        } else {
            s[j]
        }));
    assert forall|x: u32| s2.contains(x) implies s.contains(x) && x != s[i] by {
        let j = choose|j: int| 0 <= j < s2.len() && s2[j] == x;
        if j == i {
            assert(s[s.len() - 1] == x);
        }
    }
    assert forall|x: u32| s.contains(x) && x != s[i] implies s2.contains(x) by {
        let j = choose|j: int| 0 <= j < s.len() && s[j] == x;
        if j == s.len() - 1 {
            if i < s.len() - 1 {
                assert(s2[i] == x);
            }
        } else {
            assert(s2[j] == x);
        }
    }
    assert(no_dups(s2)) by {
        assert forall|p: int, q: int| 0 <= p < q < s2.len() implies s2[p] != s2[q] by {
            if p == i {
                assert(s2[p] == s[s.len() - 1] && s2[q] == s[q]);
            } else if q == i {
                assert(s2[q] == s[s.len() - 1] && s2[p] == s[p]);
            }
        }
    }
    // Multiset: updating index i and dropping the (unchanged) last element
    // removes exactly one occurrence of s[i].
    vstd::seq_lib::to_multiset_update(s, i, s.last());
    assert(u.last() == s.last());
    assert(u.drop_last().push(u.last()) =~= u);
    assert(u.to_multiset() == u.drop_last().to_multiset().insert(u.last()));
    assert(s2.to_multiset().insert(s.last()) == s.to_multiset().insert(s.last()).remove(s[i]));
    assert(s.to_multiset().contains(s[i]));
    assert(s2.to_multiset() =~= s.to_multiset().remove(s[i])) by {
        let m1 = s2.to_multiset();
        let m2 = s.to_multiset().remove(s[i]);
        assert forall|x: u32| m1.count(x) == m2.count(x) by {
            assert(m1.insert(s.last()).count(x) == s.to_multiset().insert(s.last()).remove(
                s[i],
            ).count(x));
        }
    }
}

} // verus!
