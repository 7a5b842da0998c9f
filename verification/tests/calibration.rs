use tc_spy::det::ScriptClock;
use tc_spy::geometry::ProfileError;
use tc_spy::profiler::CacheProfiler;

/// Clock script for one measurement: the first probe takes `delta` ticks,
/// the second probe takes zero ticks.
fn measurement_readings(base: u64, delta: u64) -> Vec<u64> {
    vec![base, base + delta, base + 500, base + 500]
}

fn script_for_deltas(deltas: &[u64]) -> Vec<u64> {
    let mut script = Vec::new();
    for (k, &d) in deltas.iter().enumerate() {
        script.extend(measurement_readings(1000 * (k as u64), d));
    }
    script
}

#[test]
fn calibrate_lengths_match_trials() {
    let p = CacheProfiler::new(256, 64, 64).unwrap();
    let mut clock = ScriptClock::new(Vec::new()).unwrap();
    let r = p.calibrate_porcelain(0, 5, &mut clock).unwrap();
    assert_eq!(r.with_cache_miss.len(), 5);
    assert_eq!(r.nothing.len(), 5);
    assert_eq!(r.in_same_cache % 64, 0);
    assert!((r.in_same_cache as usize) < 256);
}

#[test]
fn calibrate_rejects_out_of_bounds_victim() {
    let p = CacheProfiler::new(256, 64, 64).unwrap();
    let mut clock = ScriptClock::new(Vec::new()).unwrap();
    let r = p.calibrate_porcelain(999, 5, &mut clock);
    assert_eq!(r.err(), Some(ProfileError::VictimOutOfBounds));
}

#[test]
fn calibrate_identifies_max_delta() {
    // Candidates 0, 64, 128.  First-phase deltas 3, 9, 9: the greatest delta
    // is shared, and the later candidate wins the tie, so the guess is 128.
    // The two miss trials then record 7 and 8, the two hit trials 1 and 2.
    let p = CacheProfiler::new(192, 64, 64).unwrap();
    let script = script_for_deltas(&[3, 9, 9, 7, 8, 1, 2]);
    let mut clock = ScriptClock::new(script).unwrap();
    let r = p.calibrate_porcelain(0, 2, &mut clock).unwrap();
    assert_eq!(r.in_same_cache, 128);
    assert_eq!(r.with_cache_miss, vec![7, 8]);
    assert_eq!(r.nothing, vec![1, 2]);
}

#[test]
fn calibrate_zero_trials_gives_empty_distributions() {
    let p = CacheProfiler::new(128, 64, 64).unwrap();
    let script = script_for_deltas(&[5, 2]);
    let mut clock = ScriptClock::new(script).unwrap();
    let r = p.calibrate_porcelain(64, 0, &mut clock).unwrap();
    assert_eq!(r.in_same_cache, 0);
    assert!(r.with_cache_miss.is_empty());
    assert!(r.nothing.is_empty());
}
