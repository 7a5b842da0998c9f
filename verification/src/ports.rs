//! Collaborator interfaces: the monotonic clock and the uniform random source.
//!
//! The discovery and calibration algorithms never read the time or draw a
//! random number themselves; the caller injects both, so that runs can be
//! made fully reproducible and so that the algorithms can be verified for
//! every possible sequence of measurements.

use vstd::prelude::*;

verus! {

/// Exclusive upper bound on any single clock reading.
///
/// A reading is a tick count in the clock's native unit.  Keeping every
/// reading below `2^62` guarantees that the difference of two probe
/// durations always fits in an `i64`, so no timing delta can overflow.
pub const TICK_LIMIT: u64 = 0x4000_0000_0000_0000;

/// A monotonic, non-decreasing clock.
///
/// `moment` is the most recent reading delivered; `trace` is the sequence of
/// readings the clock will deliver next, as far as it is known.  A scripted
/// clock knows its whole future; for a hardware clock the trace is simply the
/// readings the run will in fact observe.  Once the trace is exhausted the
/// clock keeps running, but nothing more is promised of its readings beyond
/// monotonicity and the tick bound.
pub trait Clock: Sized {
    /// The most recent reading delivered, or the initial reading.  A clock
    /// that does not track it reads as zero and must deliver accordingly.
    open spec fn moment(&self) -> int {
        0
    }

    /// The readings this clock delivers next.  A clock that does not know
    /// its future has the empty trace and promises nothing beyond
    /// monotonicity and the tick bound.
    open spec fn trace(&self) -> Seq<int> {
        Seq::empty()
    }

    /// Read the clock.
    fn now(&mut self) -> (t: u64)
        ensures
            old(self).moment() <= t as int,
            (t as int) < TICK_LIMIT as int,
            final(self).moment() == t as int,
            old(self).trace().len() > 0 ==> t as int == old(self).trace()[0]
                && final(self).trace() =~= old(self).trace().skip(1),
            old(self).trace().len() == 0 ==> final(self).trace() =~= old(self).trace(),
    ;
}

/// A uniform random source over `[0, n)`.
///
/// `trace` is the sequence of raw draws the source will deliver next; a draw
/// requested with bound `n` returns the next raw draw reduced modulo `n`.
/// Once the trace is exhausted nothing more is promised beyond `r < n`.
pub trait RandomSource: Sized {
    /// The raw draws this source delivers next.  A source that does not know
    /// its future has the empty trace and promises only `r < n`.
    open spec fn trace(&self) -> Seq<nat> {
        Seq::empty()
    }

    /// Draw a value uniformly from `[0, n)`.
    fn next_below(&mut self, n: usize) -> (r: usize)
        requires
            n > 0,
        ensures
            r < n,
            old(self).trace().len() > 0 ==> r as nat == old(self).trace()[0] % (n as nat)
                && final(self).trace() =~= old(self).trace().skip(1),
            old(self).trace().len() == 0 ==> final(self).trace() =~= old(self).trace(),
    ;
}

} // verus!
