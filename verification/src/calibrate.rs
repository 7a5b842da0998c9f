//! Threshold calibration: measure hit and induced-miss timing distributions.
//!
//! The calibrator first localizes the candidate whose exclusion speeds the
//! victim probe up the most (the best same-set guess), then records a fixed
//! number of induced-miss deltas (priming with and without that candidate)
//! and the same number of hit deltas (two back-to-back probes with no
//! eviction attempt).  It never picks a threshold itself: it only supplies
//! the evidence from which a caller picks one.

use vstd::prelude::*;
use crate::geometry::ProfileError;
use crate::geometry::candidate_seq;
use crate::geometry::in_geometry;
use crate::geometry::lemma_candidate_seq_props;
use crate::model::delta_of;
use crate::ports::Clock;
use crate::ports::TICK_LIMIT;
use crate::profiler::CacheProfiler;

verus! {

/// Calibration evidence: the best same-set guess and the two timing
/// distributions.  Immutable once produced.
#[derive(Debug, PartialEq, Eq)]
pub struct CalibratePorcelainRet {
    /// Candidate address judged most likely to share the victim's cache set.
    pub in_same_cache: u32,
    /// Timing deltas measured with an eviction attempt: induced misses.
    pub with_cache_miss: Vec<i64>,
    /// Timing deltas measured with no eviction attempt: the noise floor.
    pub nothing: Vec<i64>,
}

impl CalibratePorcelainRet {
    /// The induced-miss timing deltas.
    pub fn with_cache_miss(&self) -> (r: &Vec<i64>)
        ensures
            r@ == self.with_cache_miss@,
    {
        &self.with_cache_miss
    }

    /// The hit timing deltas: the noise floor.
    pub fn nothing(&self) -> (r: &Vec<i64>)
        ensures
            r@ == self.nothing@,
    {
        &self.nothing
    }
}

impl CacheProfiler {
    /// Measure the cache-miss penalty around `victim_address`.
    ///
    /// Returns the best same-set guess, `trials` induced-miss deltas and
    /// `trials` hit deltas.  The whole run is a function of the clock
    /// readings alone: with a long enough trace, each recorded delta equals
    /// the model delta of its iteration, and the guess is the candidate with
    /// the greatest first-phase delta (the last such candidate on ties).
    pub fn measure_cache_miss_penalty<C: Clock>(
        &self,
        victim_address: usize,
        trials: usize,
        clock: &mut C,
    ) -> (r: Result<(u32, Vec<i64>, Vec<i64>), ProfileError>)
        ensures
            r is Ok <==> (victim_address as int) < self.capacity(),
            r matches Err(e) ==> e == ProfileError::VictimOutOfBounds,
            r matches Ok(out) ==> {
                let g = candidate_seq(self.capacity(), self.stride());
                let n = g.len() as int;
                let c0 = old(clock).trace();
                &&& out.1@.len() == trials
                &&& out.2@.len() == trials
                &&& in_geometry(out.0, self.capacity(), self.stride())
                &&& (c0.len() >= 4 * (n + 2 * trials as int) ==> {
                    &&& exists|b: int|
                        {
                            &&& 0 <= b < n
                            &&& out.0 == g[b]
                            &&& (forall|j: int|
                                0 <= j < n ==> #[trigger] delta_of(c0, j) <= delta_of(c0, b))
                            &&& (forall|j: int|
                                b < j < n ==> #[trigger] delta_of(c0, j) < delta_of(c0, b))
                        }
                    &&& (forall|t: int|
                        0 <= t < trials as int ==> #[trigger] out.1@[t] as int == delta_of(
                            c0,
                            n + t,
                        ))
                    &&& (forall|t: int|
                        0 <= t < trials as int ==> #[trigger] out.2@[t] as int == delta_of(
                            c0,
                            n + trials as int + t,
                        ))
                })
            },
    {
        proof {
            use_type_invariant(&*self);
        }
        let cap = self.capacity_bytes();
        if victim_address >= cap {
            return Err(ProfileError::VictimOutOfBounds);
        }
        proof {
            lemma_candidate_seq_props(self.capacity(), self.stride());
        }
        let cands = self.initial_candidates();
        let n = cands.len();
        let ghost g = cands@;
        let ghost c0 = clock.trace();
        let ghost full = c0.len() >= 4 * (n as int + 2 * trials as int);
        // Phase one: score every candidate by the speed-up its exclusion
        // brings to the victim probe.
        let mut deltas: Vec<i64> = Vec::new();
        let mut i: usize = 0;
        while i < n
            invariant
                n == cands@.len(),
                cands@ == g,
                g == candidate_seq(self.capacity(), self.stride()),
                0 <= self.capacity(),
                victim_address < self.capacity(),
                forall|k: int|
                    0 <= k < cands@.len() ==> in_geometry(
                        #[trigger] cands@[k],
                        self.capacity(),
                        self.stride(),
                    ),
                i <= n,
                deltas@.len() == i,
                full == (c0.len() >= 4 * (n as int + 2 * trials as int)),
                full ==> clock.trace() =~= c0.skip(4 * i as int),
                full ==> forall|j: int|
                    0 <= j < i ==> #[trigger] deltas@[j] as int == delta_of(c0, j),
            decreases n - i,
        {
            self.prime_all(&cands);
            let t_a = clock.now();
            self.region_touch(victim_address);
            let t_b = clock.now();
            self.prime_excluding(&cands, cands[i]);
            let t_c = clock.now();
            self.region_touch(victim_address);
            let t_d = clock.now();
            let delta: i64 = ((t_b - t_a) as i64) - ((t_d - t_c) as i64);
            deltas.push(delta);
            proof {
                if full {
                    assert(4 * i as int + 4 <= 4 * n as int);
                    assert(clock.trace() =~= c0.skip(4 * (i as int + 1)));
                    assert(deltas@[i as int] as int == delta_of(c0, i as int));
                }
            }
            i = i + 1;
        }
        // The candidate with the greatest recorded delta is the best
        // same-set guess; ties go to the later candidate.
        let mut best: usize = 0;
        let mut j: usize = 1;
        while j < n
            invariant
                n == deltas@.len(),
                n >= 1,
                best < j,
                1 <= j <= n,
                forall|k: int| 0 <= k < j ==> #[trigger] deltas@[k] <= deltas@[best as int],
                forall|k: int| best < k < j ==> #[trigger] deltas@[k] < deltas@[best as int],
            decreases n - j,
        {
            if deltas[j] >= deltas[best] {
                best = j;
            }
            j = j + 1;
        }
        let chosen: u32 = cands[best];
        // Phase two: the induced-miss distribution around the chosen
        // candidate.
        let mut miss: Vec<i64> = Vec::new();
        let mut t: usize = 0;
        while t < trials
            invariant
                n == cands@.len(),
                cands@ == g,
                g == candidate_seq(self.capacity(), self.stride()),
                0 <= self.capacity(),
                victim_address < self.capacity(),
                forall|k: int|
                    0 <= k < cands@.len() ==> in_geometry(
                        #[trigger] cands@[k],
                        self.capacity(),
                        self.stride(),
                    ),
                t <= trials,
                miss@.len() == t,
                full == (c0.len() >= 4 * (n as int + 2 * trials as int)),
                full ==> clock.trace() =~= c0.skip(4 * n as int + 4 * t as int),
                full ==> forall|j: int|
                    0 <= j < t ==> #[trigger] miss@[j] as int == delta_of(c0, n as int + j),
            decreases trials - t,
        {
            self.prime_all(&cands);
            let t_a = clock.now();
            self.region_touch(victim_address);
            let t_b = clock.now();
            self.prime_excluding(&cands, chosen);
            let t_c = clock.now();
            self.region_touch(victim_address);
            let t_d = clock.now();
            let delta: i64 = ((t_b - t_a) as i64) - ((t_d - t_c) as i64);
            miss.push(delta);
            proof {
                if full {
                    assert(4 * n as int + 4 * t as int + 4 <= c0.len());
                    assert(clock.trace() =~= c0.skip(4 * n as int + 4 * (t as int + 1)));
                    assert(miss@[t as int] as int == delta_of(c0, n as int + t as int));
                }
            }
            t = t + 1;
        }
        // Phase three: the hit distribution, two back-to-back probes with no
        // eviction attempt in between.
        let mut hit: Vec<i64> = Vec::new();
        let mut u: usize = 0;
        while u < trials
            invariant
                victim_address < self.capacity(),
                0 <= self.capacity(),
                n == g.len(),
                u <= trials,
                hit@.len() == u,
                full == (c0.len() >= 4 * (n as int + 2 * trials as int)),
                full ==> clock.trace() =~= c0.skip(4 * n as int + 4 * trials as int + 4 * u as int),
                full ==> forall|j: int|
                    0 <= j < u ==> #[trigger] hit@[j] as int == delta_of(
                        c0,
                        n as int + trials as int + j,
                    ),
            decreases trials - u,
        {
            let t_a = clock.now();
            self.region_touch(victim_address);
            let t_b = clock.now();
            let t_c = clock.now();
            self.region_touch(victim_address);
            let t_d = clock.now();
            let delta: i64 = ((t_b - t_a) as i64) - ((t_d - t_c) as i64);
            hit.push(delta);
            proof {
                if full {
                    assert(4 * n as int + 4 * trials as int + 4 * u as int + 4 <= c0.len());
                    assert(clock.trace() =~= c0.skip(
                        4 * n as int + 4 * trials as int + 4 * (u as int + 1),
                    ));
                    assert(hit@[u as int] as int == delta_of(
                        c0,
                        n as int + trials as int + u as int,
                    ));
                }
            }
            u = u + 1;
        }
        proof {
            if full {
                assert forall|jj: int|
                    0 <= jj < n as int implies #[trigger] delta_of(c0, jj) <= delta_of(
                    c0,
                    best as int,
                ) by {
                    assert(deltas@[jj] as int == delta_of(c0, jj));
                    assert(deltas@[best as int] as int == delta_of(c0, best as int));
                    assert(deltas@[jj] <= deltas@[best as int]);
                }
                assert forall|jj: int|
                    (best as int) < jj < (n as int) implies #[trigger] delta_of(c0, jj) < delta_of(
                    c0,
                    best as int,
                ) by {
                    assert(deltas@[jj] as int == delta_of(c0, jj));
                    assert(deltas@[best as int] as int == delta_of(c0, best as int));
                    assert(deltas@[jj] < deltas@[best as int]);
                }
                assert(0 <= (best as int) < (g.len() as int) && chosen == g[best as int]);
            }
        }
        Ok((chosen, miss, hit))
    }

    /// Calibrate around `victim_address`: package the measurement as the
    /// caller-facing record.
    pub fn calibrate_porcelain<C: Clock>(
        &self,
        victim_address: usize,
        trials: usize,
        clock: &mut C,
    ) -> (r: Result<CalibratePorcelainRet, ProfileError>)
        ensures
            r is Ok <==> (victim_address as int) < self.capacity(),
            r matches Err(e) ==> e == ProfileError::VictimOutOfBounds,
            r matches Ok(out) ==> {
                let g = candidate_seq(self.capacity(), self.stride());
                let n = g.len() as int;
                let c0 = old(clock).trace();
                &&& out.with_cache_miss@.len() == trials
                &&& out.nothing@.len() == trials
                &&& in_geometry(out.in_same_cache, self.capacity(), self.stride())
                &&& (c0.len() >= 4 * (n + 2 * trials as int) ==> {
                    &&& exists|b: int|
                        {
                            &&& 0 <= b < n
                            &&& out.in_same_cache == g[b]
                            &&& (forall|j: int|
                                0 <= j < n ==> #[trigger] delta_of(c0, j) <= delta_of(c0, b))
                            &&& (forall|j: int|
                                b < j < n ==> #[trigger] delta_of(c0, j) < delta_of(c0, b))
                        }
                    &&& (forall|t: int|
                        0 <= t < trials as int ==> #[trigger] out.with_cache_miss@[t] as int
                            == delta_of(c0, n + t))
                    &&& (forall|t: int|
                        0 <= t < trials as int ==> #[trigger] out.nothing@[t] as int == delta_of(
                            c0,
                            n + trials as int + t,
                        ))
                })
            },
    {
        match self.measure_cache_miss_penalty(victim_address, trials, clock) {
            Ok((in_same_cache, with_cache_miss, nothing)) => Ok(
                CalibratePorcelainRet { in_same_cache, with_cache_miss, nothing },
            ),
            Err(e) => Err(e),
        }
    }
}

} // verus!
