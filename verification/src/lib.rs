//! Prime+Probe eviction-set discovery under a coarse monotonic clock.
//!
//! The library discovers, for a victim address inside an attacker-controlled
//! memory region, a set of addresses that plausibly map to the same hardware
//! cache set, using nothing but timing measurements.  It also provides a
//! calibration routine that characterises cache-hit and induced-miss timing
//! distributions so that a caller can pick a decision threshold.
//!
//! Timing and randomness are supplied by the caller through the [`ports::Clock`]
//! and [`ports::RandomSource`] traits; deterministic implementations suitable
//! for reproducible runs live in [`det`].

pub mod ports;
pub mod geometry;
pub mod model;
pub mod profiler;
pub mod calibrate;
pub mod det;
pub mod laws;
