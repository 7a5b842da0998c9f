//! The eviction-set discoverer: a randomized Prime+Probe elimination loop.
//!
//! Each iteration primes the working set, probes the victim, removes one
//! candidate at random, re-primes and re-probes, and keeps the candidate only
//! if its removal sped the victim probe up by more than the threshold.  The
//! loop is proved equal to the model in [`crate::model`], so the result is a
//! function of the clock readings and random draws alone.

use vstd::prelude::*;
use vstd::seq_lib::lemma_sorted_unique;
use vstd::relations::sorted_by;
use vstd::relations::total_ordering;
use crate::geometry::MemoryRegion;
use crate::geometry::ProfileError;
use crate::geometry::ADDRESS_SPACE;
use crate::geometry::candidate_count;
use crate::geometry::candidate_seq;
use crate::geometry::in_geometry;
use crate::geometry::lemma_candidate_seq_props;
use crate::geometry::no_dups;
use crate::geometry::sorted;
use crate::geometry::sorted_strict;
use crate::model::RunState;
use crate::model::delta_of;
use crate::model::initial_state;
use crate::model::lemma_swap_removed_props;
use crate::model::run_from;
use crate::model::run_step;
use crate::model::swap_removed;
use crate::ports::Clock;
use crate::ports::RandomSource;
use crate::ports::TICK_LIMIT;

verus! {

/// Fixed factor by which the confirmed timing gains are scaled for
/// legibility before they are reported.  The raw gains are sums of clock
/// ticks; `sum_speed_up` and `average_speed_up` carry tick counts times this
/// factor, so a caller converting back to ticks divides by it.
pub const SPEED_UP_SCALE: i128 = 1_000_000;

/// Truncating integer division (the quotient is rounded towards zero), the
/// convention in which the reported average is computed.
pub open spec fn trunc_div(x: int, d: int) -> int
    recommends
        d > 0,
{
    if x >= 0 {
        x / d
    } else {
        -((-x) / d)
    }
}

/// Outcome of one discovery run: the confirmed eviction set and the run's
/// statistics.  Immutable once produced.
#[derive(Debug, PartialEq, Eq)]
pub struct ProfileResult {
    /// Final candidate set, sorted ascending, free of duplicates.
    pub eviction_set: Vec<u32>,
    /// Elimination iterations performed.
    pub try_count: u32,
    /// Cumulative confirmed timing gain, scaled by [`SPEED_UP_SCALE`].
    pub sum_speed_up: i128,
    /// Average confirmed timing gain over the confirmed iterations, scaled
    /// by [`SPEED_UP_SCALE`].
    pub average_speed_up: i128,
    /// Iterations whose delta failed to clear the threshold.
    pub error_count: u32,
}

impl ProfileResult {
    /// The final candidate set, sorted ascending.
    pub fn eviction_set(&self) -> (r: &Vec<u32>)
        ensures
            r@ == self.eviction_set@,
    {
        &self.eviction_set
    }
}

/// Owns the memory region for the duration of a discovery or calibration
/// call; the geometry is fixed at construction.
pub struct CacheProfiler {
    region: MemoryRegion,
    stride: usize,
}

impl CacheProfiler {
    /// Size of the region in bytes.
    pub closed spec fn capacity(&self) -> int {
        self.region.capacity()
    }

    /// Size of one cache line in bytes.
    pub closed spec fn line(&self) -> int {
        self.region.line()
    }

    /// Spacing of the initial candidates in bytes.
    pub closed spec fn stride(&self) -> int {
        self.stride as int
    }

    #[verifier::type_invariant]
    pub(crate) open spec fn type_wf(&self) -> bool {
        &&& 0 <= self.capacity()
        &&& self.capacity() <= ADDRESS_SPACE as int
        &&& self.line() >= 1
        &&& self.capacity() % self.line() == 0
        &&& self.stride() >= self.line()
        &&& self.stride() % self.line() == 0
    }

    /// Build a profiler over a fresh region of `capacity` bytes in lines of
    /// `line_size` bytes, with candidates spaced `stride` bytes apart.
    pub fn new(capacity: usize, line_size: usize, stride: usize) -> (r: Result<
        CacheProfiler,
        ProfileError,
    >)
        ensures
            r is Ok <==> (line_size > 0 && capacity as int % line_size as int == 0
                && capacity <= ADDRESS_SPACE && stride >= line_size && stride as int
                % line_size as int == 0),
            match r {
                Ok(p) => {
                    &&& p.capacity() == capacity as int
                    &&& p.line() == line_size as int
                    &&& p.stride() == stride as int
                },
                Err(e) => {
                    &&& (e == ProfileError::InvalidLineSize <==> (line_size == 0
                        || capacity as int % line_size as int != 0))
                    &&& (e == ProfileError::CandidateOverflow <==> (line_size > 0
                        && capacity as int % line_size as int == 0 && capacity > ADDRESS_SPACE))
                    &&& (e == ProfileError::InvalidStride <==> (line_size > 0
                        && capacity as int % line_size as int == 0 && capacity <= ADDRESS_SPACE
                        && (stride < line_size || stride as int % line_size as int != 0)))
                },
            },
    {
        let region = match MemoryRegion::new(capacity, line_size) {
            Ok(region) => region,
            Err(e) => {
                return Err(e);
            },
        };
        if stride < line_size || stride % line_size != 0 {
            return Err(ProfileError::InvalidStride);
        }
        Ok(CacheProfiler { region, stride })
    }

    /// Size of the region in bytes.
    pub fn capacity_bytes(&self) -> (n: usize)
        ensures
            n as int == self.capacity(),
    {
        self.region.capacity_bytes()
    }

    /// Size of one cache line in bytes.
    pub fn line_bytes(&self) -> (n: usize)
        ensures
            n as int == self.line(),
    {
        self.region.line_bytes()
    }

    /// Spacing of the initial candidates in bytes.
    pub fn stride_bytes(&self) -> (n: usize)
        ensures
            n as int == self.stride(),
    {
        self.stride
    }

    /// Build the initial candidate set: one address per stride across the
    /// whole region, ascending.
    pub fn initial_candidates(&self) -> (v: Vec<u32>)
        ensures
            v@ =~= candidate_seq(self.capacity(), self.stride()),
    {
        proof {
            use_type_invariant(&*self);
        }
        let cap = self.region.capacity_bytes();
        let stride = self.stride;
        let mut v: Vec<u32> = Vec::new();
        let mut addr: u128 = 0;
        proof {
            assert(v@.len() as int * stride as int == 0);
        }
        while addr < cap as u128
            invariant
                self.stride() == stride as int,
                self.capacity() == cap as int,
                stride >= 1,
                cap <= ADDRESS_SPACE,
                addr as int == v@.len() as int * stride as int,
                v@.len() <= cap,
                forall|j: int| 0 <= j < v@.len() ==> #[trigger] v@[j] == (j * stride as int) as u32,
                forall|j: int| 0 <= j < v@.len() ==> #[trigger] (j * stride as int) < cap as int,
            decreases cap as int - v@.len() as int,
        {
            v.push(addr as u32);
            proof {
                let len = v@.len() as int;
                assert(len * stride as int == (len - 1) * stride as int + stride as int)
                    by (nonlinear_arith);
                assert(len - 1 <= (len - 1) * stride as int) by (nonlinear_arith)
                    requires
                        stride >= 1,
                        len >= 1,
                ;
            }
            addr = addr + stride as u128;
        }
        proof {
            lemma_count_from_bracketing(cap as int, stride as int, v@.len() as int);
            assert(v@ =~= candidate_seq(self.capacity(), self.stride()));
        }
        v
    }

    /// Discover an eviction set for `victim_address` by randomized
    /// elimination under `budget` iterations and decision threshold
    /// `threshold` (in clock ticks).
    ///
    /// The returned set is sorted ascending, free of duplicates, and drawn
    /// from the initial candidate geometry.  The whole run is a function of
    /// the clock readings and random draws alone: when the traces cover the
    /// budget, the result equals the model run in [`crate::model`].
    pub fn profile_cache_set<C: Clock, R: RandomSource>(
        &self,
        victim_address: usize,
        budget: u32,
        threshold: i64,
        clock: &mut C,
        rng: &mut R,
    ) -> (r: Result<ProfileResult, ProfileError>)
        ensures
            r is Ok <==> (victim_address as int) < self.capacity(),
            r matches Err(e) ==> e == ProfileError::VictimOutOfBounds,
            r matches Ok(pr) ==> {
                let g = candidate_seq(self.capacity(), self.stride());
                let tick = TICK_LIMIT as int;
                let conf = pr.try_count - pr.error_count;
                &&& pr.try_count <= budget
                &&& pr.error_count <= pr.try_count
                &&& sorted_strict(pr.eviction_set@)
                &&& forall|i: int|
                    0 <= i < pr.eviction_set@.len() ==> in_geometry(
                        #[trigger] pr.eviction_set@[i],
                        self.capacity(),
                        self.stride(),
                    )
                &&& pr.try_count < budget ==> pr.eviction_set@.len() == 0
                &&& budget == 0 ==> pr.eviction_set@ =~= g && pr.try_count == 0
                &&& (threshold as int >= tick && budget as int >= g.len()
                    ==> pr.eviction_set@.len() == 0)
                &&& (threshold as int <= -tick ==> pr.error_count == 0 && pr.eviction_set@ =~= g)
                &&& pr.average_speed_up as int == (if conf == 0 {
                    0int
                } else {
                    trunc_div(pr.sum_speed_up as int, conf as int)
                })
                &&& (old(clock).trace().len() >= 4 * (budget as int) && old(rng).trace().len()
                    >= budget as int ==> {
                    let fin = run_from(
                        initial_state(g),
                        old(clock).trace(),
                        old(rng).trace(),
                        threshold as int,
                        budget as nat,
                    );
                    &&& pr.try_count as nat == fin.tries
                    &&& pr.error_count as nat == fin.errors
                    &&& pr.sum_speed_up as int == fin.gain * SPEED_UP_SCALE as int
                    &&& pr.eviction_set@.to_multiset() == fin.cands.to_multiset()
                })
            },
    {
        proof {
            use_type_invariant(&*self);
        }
        let cap = self.region.capacity_bytes();
        if victim_address >= cap {
            return Err(ProfileError::VictimOutOfBounds);
        }
        let mut cands = self.initial_candidates();
        let ghost g = cands@;
        let ghost c0 = clock.trace();
        let ghost r0 = rng.trace();
        let ghost n0 = g.len() as int;
        let ghost tick = TICK_LIMIT as int;
        let ghost full = c0.len() >= 4 * (budget as int) && r0.len() >= budget as int;
        let mut try_count: u32 = 0;
        let mut error_count: u32 = 0;
        let mut sum_raw: i128 = 0;
        proof {
            lemma_candidate_seq_props(self.capacity(), self.stride());
            assert(run_from(initial_state(g), c0, r0, threshold as int, budget as nat)
                == run_from(
                RunState { cands: g, tries: 0nat, errors: 0nat, gain: 0int },
                c0,
                r0,
                threshold as int,
                (budget - try_count) as nat,
            ));
        }
        while cands.len() > 0 && try_count < budget
            invariant
                self.stride() >= 1,
                0 <= self.capacity() <= ADDRESS_SPACE as int,
                cap as int == self.capacity(),
                victim_address < cap,
                g == candidate_seq(self.capacity(), self.stride()),
                n0 == g.len() as int,
                tick == TICK_LIMIT as int,
                full == (c0.len() >= 4 * (budget as int) && r0.len() >= budget as int),
                try_count <= budget,
                error_count <= try_count,
                no_dups(cands@),
                forall|i: int|
                    0 <= i < cands@.len() ==> in_geometry(
                        #[trigger] cands@[i],
                        self.capacity(),
                        self.stride(),
                    ),
                try_count == 0 ==> cands@ == g,
                threshold as int >= tick ==> cands@.len() == n0 - try_count as int,
                threshold as int <= -tick ==> error_count == 0 && cands@.to_multiset()
                    == g.to_multiset(),
                -(try_count as int) * tick <= sum_raw as int <= try_count as int * tick,
                full ==> {
                    &&& clock.trace() =~= c0.skip(4 * try_count as int)
                    &&& rng.trace() =~= r0.skip(try_count as int)
                    &&& run_from(initial_state(g), c0, r0, threshold as int, budget as nat)
                        == run_from(
                        RunState {
                            cands: cands@,
                            tries: try_count as nat,
                            errors: error_count as nat,
                            gain: sum_raw as int,
                        },
                        c0,
                        r0,
                        threshold as int,
                        (budget - try_count) as nat,
                    )
                },
            decreases budget - try_count,
        {
            let ghost pre = RunState {
                cands: cands@,
                tries: try_count as nat,
                errors: error_count as nat,
                gain: sum_raw as int,
            };
            self.prime_all(&cands);
            let t_a = clock.now();
            self.region.touch(victim_address);
            let t_b = clock.now();
            let t1: u64 = t_b - t_a;
            let pick = rng.next_below(cands.len());
            let ghost pre_cands = cands@;
            let s = cands.swap_remove(pick);
            proof {
                lemma_swap_removed_props(pre_cands, pick as int);
                assert(cands@ == swap_removed(pre_cands, pick as int));
                assert forall|i: int| 0 <= i < cands@.len() implies in_geometry(
                    #[trigger] cands@[i],
                    self.capacity(),
                    self.stride(),
                ) by {
                    assert(pre_cands.contains(cands@[i]));
                    let j = choose|j: int|
                        0 <= j < pre_cands.len() && pre_cands[j] == cands@[i];
                    assert(in_geometry(pre_cands[j], self.capacity(), self.stride()));
                }
            }
            self.prime_all(&cands);
            let t_c = clock.now();
            self.region.touch(victim_address);
            let t_d = clock.now();
            let t2: u64 = t_d - t_c;
            let delta: i64 = (t1 as i64) - (t2 as i64);
            let confirmed = delta > threshold;
            if confirmed {
                cands.push(s);
                proof {
                    assert(try_count as int * tick + tick == (try_count as int + 1) * tick)
                        by (nonlinear_arith);
                    assert(-(try_count as int) * tick - tick == -(try_count as int + 1) * tick)
                        by (nonlinear_arith);
                }
                sum_raw = sum_raw + (delta as i128);
            } else {
                error_count = error_count + 1;
                proof {
                    assert(try_count as int * tick <= (try_count as int + 1) * tick)
                        by (nonlinear_arith)
                        requires
                            tick >= 0,
                            try_count >= 0,
                    ;
                    assert(-(try_count as int + 1) * tick <= -(try_count as int) * tick)
                        by (nonlinear_arith)
                        requires
                            tick >= 0,
                            try_count >= 0,
                    ;
                }
            }
            proof {
                // Re-admission keeps the set duplicate-free and inside the
                // geometry; permanent removal shrinks it by one.
                if confirmed {
                    assert(cands@ == swap_removed(pre_cands, pick as int).push(
                        pre_cands[pick as int],
                    ));
                    assert(no_dups(cands@)) by {
                        let s2 = swap_removed(pre_cands, pick as int);
                        assert(forall|k: int|
                            0 <= k < s2.len() ==> cands@[k] == #[trigger] s2[k]);
                        assert(cands@[s2.len() as int] == pre_cands[pick as int]);
                    }
                    broadcast use vstd::seq_lib::group_to_multiset_ensures;

                    assert(cands@.to_multiset() =~= pre_cands.to_multiset()) by {
                        let s2 = swap_removed(pre_cands, pick as int);
                        assert(s2.push(pre_cands[pick as int]).to_multiset() == s2.to_multiset()
                            .insert(pre_cands[pick as int]));
                        assert(pre_cands.to_multiset().contains(pre_cands[pick as int])) by {
                            pre_cands.to_multiset_ensures();
                            assert(pre_cands.contains(pre_cands[pick as int]));
                        }
                    }
                }
                // The measured delta is bounded by the tick limit, so an
                // unreachable threshold always rejects and an always-met
                // threshold always confirms.
                assert((delta as int) < tick && -tick < delta as int);
                // One executed iteration is one model step.
                if full {
                    let fuel = (budget - pre.tries) as nat;
                    assert(4 * pre.tries as int + 4 <= c0.len());
                    assert(t_a as int == c0[4 * pre.tries as int]);
                    assert(t_b as int == c0[4 * pre.tries as int + 1]);
                    assert(t_c as int == c0[4 * pre.tries as int + 2]);
                    assert(t_d as int == c0[4 * pre.tries as int + 3]);
                    assert(clock.trace() =~= c0.skip(4 * (try_count as int + 1)));
                    assert(rng.trace() =~= r0.skip(try_count as int + 1));
                    assert(pick as int == (r0[pre.tries as int] % pre.cands.len()) as int);
                    let delta_m = delta_of(c0, pre.tries as int);
                    assert(delta_m == delta as int);
                    let pick_m = (r0[pre.tries as int] % pre.cands.len()) as int;
                    let stepped = run_step(pre, delta_m, pick_m, threshold as int);
                    assert(stepped.cands =~= cands@);
                    assert(stepped == RunState {
                        cands: cands@,
                        tries: try_count as nat + 1,
                        errors: error_count as nat,
                        gain: sum_raw as int,
                    });
                    assert(run_from(pre, c0, r0, threshold as int, fuel) == run_from(
                        stepped,
                        c0,
                        r0,
                        threshold as int,
                        (fuel - 1) as nat,
                    ));
                }
            }
            try_count = try_count + 1;
        }
        let ghost fin_exec = RunState {
            cands: cands@,
            tries: try_count as nat,
            errors: error_count as nat,
            gain: sum_raw as int,
        };
        proof {
            if full {
                assert(run_from(fin_exec, c0, r0, threshold as int, (budget - try_count) as nat)
                    == fin_exec);
            }
        }
        let confirmations: u32 = try_count - error_count;
        let ghost pre_sort = cands@;
        sort_ascending(&mut cands);
        proof {
            broadcast use vstd::seq_lib::group_to_multiset_ensures;

            pre_sort.lemma_multiset_has_no_duplicates();
            cands@.lemma_multiset_has_no_duplicates_conv();
            assert(no_dups(cands@));
            assert(sorted_strict(cands@)) by {
                assert forall|i: int, j: int| 0 <= i < j < cands@.len() implies cands@[i]
                    < cands@[j] by {
                    assert(cands@[i] <= cands@[j]);
                    assert(cands@[i] != cands@[j]);
                }
            }
            assert forall|i: int| 0 <= i < cands@.len() implies in_geometry(
                #[trigger] cands@[i],
                self.capacity(),
                self.stride(),
            ) by {
                cands@.to_multiset_ensures();
                pre_sort.to_multiset_ensures();
                assert(cands@.contains(cands@[i]));
                assert(cands@.to_multiset().count(cands@[i]) > 0);
                assert(pre_sort.to_multiset().count(cands@[i]) > 0);
                assert(pre_sort.contains(cands@[i]));
            }
            // A sorted sequence with the elements of the sorted initial
            // geometry is that geometry.
            lemma_candidate_seq_props(self.capacity(), self.stride());
            if try_count == 0 || threshold as int <= -tick {
                assert(cands@.to_multiset() == g.to_multiset());
                lemma_sorted_eq_from_multiset(cands@, g);
            }
        }
        let sum_scaled: i128 = {
            proof {
                lemma_sum_scale_bounds(sum_raw as int, try_count as int, tick);
            }
            sum_raw * SPEED_UP_SCALE
        };
        let average: i128 = if confirmations == 0 {
            0
        } else {
            proof {
                lemma_trunc_div_in_range(sum_scaled as int, confirmations as int);
            }
            match sum_scaled.checked_div(confirmations as i128) {
                Some(q) => q,
                None => 0,
            }
        };
        Ok(
            ProfileResult {
                eviction_set: cands,
                try_count,
                sum_speed_up: sum_scaled,
                average_speed_up: average,
                error_count,
            },
        )
    }

    /// Perform a genuine load of the byte at `addr` in the profiler's
    /// region.
    pub(crate) fn region_touch(&self, addr: usize)
        requires
            addr < self.capacity(),
    {
        self.region.touch(addr);
    }

    /// Touch every candidate address, performing a genuine load of each.
    pub(crate) fn prime_all(&self, cands: &Vec<u32>)
        requires
            forall|i: int| 0 <= i < cands@.len() ==> (#[trigger] cands@[i]) < self.capacity(),
    {
        let mut i: usize = 0;
        while i < cands.len()
            invariant
                i <= cands@.len(),
                forall|j: int| 0 <= j < cands@.len() ==> (#[trigger] cands@[j]) < self.capacity(),
            decreases cands@.len() - i,
        {
            self.region.touch(cands[i] as usize);
            i = i + 1;
        }
    }

    /// Touch every candidate address except those equal to `skip`.
    pub(crate) fn prime_excluding(&self, cands: &Vec<u32>, skip: u32)
        requires
            forall|i: int| 0 <= i < cands@.len() ==> (#[trigger] cands@[i]) < self.capacity(),
    {
        let mut i: usize = 0;
        while i < cands.len()
            invariant
                i <= cands@.len(),
                forall|j: int| 0 <= j < cands@.len() ==> (#[trigger] cands@[j]) < self.capacity(),
            decreases cands@.len() - i,
        {
            if cands[i] != skip {
                self.region.touch(cands[i] as usize);
            }
            i = i + 1;
        }
    }
}

/// `i` candidates, stepping `stride` from zero, exactly cover a region of
/// `cap` bytes when the last one lands inside and the next would not.
proof fn lemma_count_from_bracketing(cap: int, stride: int, i: int)
    requires
        stride >= 1,
        cap >= 0,
        i >= 0,
        i * stride >= cap,
        forall|j: int| 0 <= j < i ==> #[trigger] (j * stride) < cap,
    ensures
        i == candidate_count(cap, stride),
{
    if cap == 0 {
        if i > 0 {
            assert(0 * stride < cap);
        }
        assert((cap + stride - 1) / stride == 0) by (nonlinear_arith)
            requires
                stride >= 1,
                cap == 0,
        ;
    } else {
        if i == 0 {
            assert(0 * stride >= cap);
            assert(false);
        }
        assert((i - 1) * stride < cap);
        assert(i == (cap + stride - 1) / stride) by (nonlinear_arith)
            requires
                stride >= 1,
                cap >= 1,
                i >= 1,
                (i - 1) * stride < cap,
                i * stride >= cap,
        ;
    }
}

/// An ascending sequence with the same elements as a strictly ascending one
/// is that sequence.  Together with the determinism of the model run, this
/// makes two discovery results over equal traces identical in every field:
/// their eviction sets agree as multisets and both are sorted.
pub proof fn lemma_sorted_eq_from_multiset(a: Seq<u32>, b: Seq<u32>)
    requires
        sorted(a),
        sorted_strict(b),
        a.to_multiset() == b.to_multiset(),
    ensures
        a =~= b,
{
    let leq = |x: u32, y: u32| x <= y;
    assert(total_ordering(leq)) by {
        assert(vstd::relations::reflexive(leq));
        assert(vstd::relations::antisymmetric(leq));
        assert(vstd::relations::transitive(leq));
        assert(vstd::relations::strongly_connected(leq));
    }
    assert(sorted_by(a, leq));
    assert(sorted_by(b, leq));
    lemma_sorted_unique(a, b, leq);
}

/// The scaled sum of confirmed gains stays far inside `i128`.
proof fn lemma_sum_scale_bounds(sum: int, tries: int, tick: int)
    requires
        0 <= tries <= 0xFFFF_FFFF,
        tick == TICK_LIMIT as int,
        -tries * tick <= sum <= tries * tick,
    ensures
        i128::MIN <= sum * SPEED_UP_SCALE as int <= i128::MAX,
        i128::MIN <= sum <= i128::MAX,
{
    assert(tries * tick <= 0xFFFF_FFFF * tick) by (nonlinear_arith)
        requires
            0 <= tries <= 0xFFFF_FFFF,
            tick >= 0,
    ;
    assert(sum * 1_000_000 <= (0xFFFF_FFFF * tick) * 1_000_000 && -((0xFFFF_FFFF * tick)
        * 1_000_000) <= sum * 1_000_000) by (nonlinear_arith)
        requires
            -(0xFFFF_FFFF * tick) <= sum <= 0xFFFF_FFFF * tick,
            tick >= 0,
    ;
}

/// Truncating division by a positive divisor shrinks the magnitude, so the
/// quotient of an in-range dividend is in range.
proof fn lemma_trunc_div_in_range(x: int, d: int)
    requires
        d >= 1,
        i128::MIN <= x <= i128::MAX,
    ensures
        i128::MIN <= trunc_div(x, d) <= i128::MAX,
        x >= 0 ==> 0 <= trunc_div(x, d) <= x,
        x < 0 ==> x <= trunc_div(x, d) <= 0,
{
    if x >= 0 {
        assert(0 <= x / d <= x) by (nonlinear_arith)
            requires
                x >= 0,
                d >= 1,
        ;
    } else {
        assert(0 <= (-x) / d <= -x) by (nonlinear_arith)
            requires
                -x >= 0,
                d >= 1,
        ;
    }
}

/// Sort a candidate vector ascending by selection of the minimum; the
/// elements are preserved as a multiset.
fn sort_ascending(v: &mut Vec<u32>)
    ensures
        final(v)@.len() == old(v)@.len(),
        sorted(final(v)@),
        final(v)@.to_multiset() == old(v)@.to_multiset(),
{
    broadcast use vstd::seq_lib::group_to_multiset_ensures;
    broadcast use vstd::seq_lib::to_multiset_update;

    let ghost orig = v@;
    let n = v.len();
    let mut i: usize = 0;
    while i < n
        invariant
            n == v@.len(),
            i <= n,
            v@.to_multiset() == orig.to_multiset(),
            forall|p: int, q: int| 0 <= p < q < i ==> v@[p] <= v@[q],
            forall|p: int, q: int| 0 <= p < i && i <= q < n ==> v@[p] <= v@[q],
        decreases n - i,
    {
        let mut m: usize = i;
        let mut j: usize = i + 1;
        while j < n
            invariant
                n == v@.len(),
                i <= m < j,
                j <= n,
                forall|k: int| i <= k < j ==> v@[m as int] <= v@[k],
            decreases n - j,
        {
            if v[j] < v[m] {
                m = j;
            }
            j = j + 1;
        }
        let vi = v[i];
        let vm = v[m];
        let ghost before = v@;
        v.set(i, vm);
        v.set(m, vi);
        proof {
            broadcast use vstd::multiset::group_multiset_axioms;

            let u1 = before.update(i as int, vm);
            assert(v@ =~= u1.update(m as int, vi));
            assert(u1[m as int] == vm);
            vstd::seq_lib::to_multiset_update(before, i as int, vm);
            vstd::seq_lib::to_multiset_update(u1, m as int, vi);
            assert(u1.to_multiset() == before.to_multiset().insert(vm).remove(vi));
            assert(v@.to_multiset() == u1.to_multiset().insert(vi).remove(vm));
            assert(before.contains(vi));
            before.to_multiset_ensures();
            assert(before.to_multiset().count(vi) > 0);
            assert(v@.to_multiset() =~= before.to_multiset());
        }
        i = i + 1;
    }
    proof {
        assert(sorted(v@));
    }
}

} // verus!
