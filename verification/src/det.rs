//! Deterministic clocks and random sources.
//!
//! A discovery run is a function of its clock readings and random draws, so
//! running it over these implementations makes it exactly reproducible: a
//! scripted clock replays a fixed non-decreasing list of readings, and the
//! seeded generator produces the same draws for the same seed, every time.

use vstd::prelude::*;
use crate::ports::Clock;
use crate::ports::RandomSource;
use crate::ports::TICK_LIMIT;

verus! {

/// A valid clock script: non-decreasing readings, all below the tick limit.
pub open spec fn script_wf(s: Seq<u64>) -> bool {
    &&& forall|i: int| 0 <= i < s.len() ==> (#[trigger] s[i]) < TICK_LIMIT
    &&& forall|i: int, j: int| 0 <= i < j < s.len() ==> s[i] <= s[j]
}

/// A clock that replays a fixed script of readings; once the script is
/// exhausted it repeats its last reading.
pub struct ScriptClock {
    script: Vec<u64>,
    pos: usize,
    last: u64,
}

impl ScriptClock {
    #[verifier::type_invariant]
    spec fn type_wf(&self) -> bool {
        &&& script_wf(self.script@)
        &&& self.pos <= self.script@.len()
        &&& (self.last as int) < TICK_LIMIT as int
        &&& self.pos < self.script@.len() ==> self.last <= self.script@[self.pos as int]
    }

    /// Build a clock from a script of readings.  The script must be
    /// non-decreasing and stay below [`TICK_LIMIT`].
    pub fn new(script: Vec<u64>) -> (r: Option<ScriptClock>)
        ensures
            r is Some <==> script_wf(script@),
            r matches Some(c) ==> c.moment() == 0 && c.trace() =~= script@.map_values(
                |t: u64| t as int,
            ),
    {
        let mut i: usize = 0;
        while i < script.len()
            invariant
                i <= script@.len(),
                forall|j: int| 0 <= j < i ==> (#[trigger] script@[j]) < TICK_LIMIT,
                forall|j: int, k: int| 0 <= j < k < i ==> script@[j] <= script@[k],
            decreases script@.len() - i,
        {
            if script[i] >= TICK_LIMIT {
                return None;
            }
            if i > 0 && script[i - 1] > script[i] {
                return None;
            }
            i = i + 1;
        }
        Some(ScriptClock { script, pos: 0, last: 0 })
    }
}

impl Clock for ScriptClock {
    closed spec fn moment(&self) -> int {
        self.last as int
    }

    closed spec fn trace(&self) -> Seq<int> {
        self.script@.skip(self.pos as int).map_values(|t: u64| t as int)
    }

    fn now(&mut self) -> (t: u64) {
        proof {
            use_type_invariant(&*self);
        }
        if self.pos < self.script.len() {
            let t = self.script[self.pos];
            self.pos = self.pos + 1;
            self.last = t;
            proof {
                assert(final(self).trace() =~= old(self).trace().skip(1));
            }
            t
        } else {
            self.last
        }
    }
}

/// A random source that replays a fixed script of raw draws; once the script
/// is exhausted it draws zero.
pub struct ScriptRng {
    script: Vec<u64>,
    pos: usize,
}

impl ScriptRng {
    #[verifier::type_invariant]
    spec fn type_wf(&self) -> bool {
        self.pos <= self.script@.len()
    }

    /// Build a random source from a script of raw draws.
    pub fn new(script: Vec<u64>) -> (r: ScriptRng)
        ensures
            r.trace() =~= script@.map_values(|v: u64| v as nat),
    {
        ScriptRng { script, pos: 0 }
    }
}

impl RandomSource for ScriptRng {
    closed spec fn trace(&self) -> Seq<nat> {
        self.script@.skip(self.pos as int).map_values(|v: u64| v as nat)
    }

    fn next_below(&mut self, n: usize) -> (r: usize) {
        proof {
            use_type_invariant(&*self);
        }
        if self.pos < self.script.len() {
            let raw = self.script[self.pos];
            self.pos = self.pos + 1;
            let r = (raw % (n as u64)) as usize;
            proof {
                assert(final(self).trace() =~= old(self).trace().skip(1));
                assert(r as nat == old(self).trace()[0] % (n as nat));
            }
            r
        } else {
            0
        }
    }
}

/// Multiplier of the linear congruential step.
pub const LCG_MUL: u64 = 0x5851_F42D_4C95_7F2D;

/// Increment of the linear congruential step.
pub const LCG_INC: u64 = 0x1405_7B7E_F767_814F;

/// One linear congruential step over 64-bit state.
pub open spec fn lcg_next(s: int) -> int {
    (s * LCG_MUL as int + LCG_INC as int) % 0x1_0000_0000_0000_0000
}

/// The `k`-th raw draw produced from state `s` (the first draw is `k == 0`).
pub open spec fn lcg_stream(s: int, k: nat) -> int
    decreases k,
{
    if k == 0 {
        lcg_next(s)
    } else {
        lcg_stream(lcg_next(s), (k - 1) as nat)
    }
}

/// A seeded deterministic random source: a 64-bit linear congruential
/// generator.  Two sources built from the same seed deliver the same draws.
pub struct SeededRng {
    state: u64,
    remaining: u64,
}

impl SeededRng {
    /// Build a generator from a seed.
    pub fn new(seed: u64) -> (r: SeededRng)
        ensures
            r.trace() =~= Seq::new(u64::MAX as nat, |i: int| lcg_stream(seed as int, i as nat) as nat),
    {
        SeededRng { state: seed, remaining: u64::MAX }
    }
}

impl RandomSource for SeededRng {
    closed spec fn trace(&self) -> Seq<nat> {
        Seq::new(
            self.remaining as nat,
            |i: int| lcg_stream(self.state as int, i as nat) as nat,
        )
    }

    fn next_below(&mut self, n: usize) -> (r: usize) {
        proof {
            let st = old(self).state as int;
            assert(st * (LCG_MUL as int) + (LCG_INC as int)
                < 0x1_0000_0000_0000_0000_0000_0000_0000_0000) by (nonlinear_arith)
                requires
                    0 <= st <= 0xFFFF_FFFF_FFFF_FFFF,
            ;
        }
        let wide: u128 = (self.state as u128) * (LCG_MUL as u128) + (LCG_INC as u128);
        let next: u64 = #[verifier::truncate] (wide as u64);
        proof {
            let st = old(self).state as int;
            assert(wide as int == st * (LCG_MUL as int) + (LCG_INC as int));
            assert((wide as u64) as u128 == wide % 0x1_0000_0000_0000_0000u128) by (bit_vector);
            assert(next as int == (wide as int) % 0x1_0000_0000_0000_0000);
            assert(next as int == lcg_next(old(self).state as int));
        }
        let ghost pre = *self;
        self.state = next;
        if self.remaining > 0 {
            self.remaining = self.remaining - 1;
        }
        let r = (next % (n as u64)) as usize;
        proof {
            if pre.remaining > 0 {
                assert forall|i: int|
                    0 <= i < final(self).trace().len() implies #[trigger] final(self).trace()[i]
                    == pre.trace().skip(1)[i] by {
                    assert(lcg_stream(pre.state as int, (i + 1) as nat) == lcg_stream(
                        lcg_next(pre.state as int),
                        i as nat,
                    ));
                }
                assert(final(self).trace() =~= pre.trace().skip(1));
                assert(r as nat == pre.trace()[0] % (n as nat));
            }
        }
        r
    }
}

} // verus!
