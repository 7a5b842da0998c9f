use tc_spy::det::ScriptClock;
use tc_spy::det::ScriptRng;
use tc_spy::det::SeededRng;
use tc_spy::geometry::ProfileError;
use tc_spy::geometry::CACHE_LINE_SIZE;
use tc_spy::geometry::LLC_SIZE;
use tc_spy::ports::TICK_LIMIT;
use tc_spy::profiler::CacheProfiler;

/// Clock script for one elimination iteration starting at `base`: the first
/// probe takes `delta` ticks, the second probe takes zero ticks.
fn iteration_readings(base: u64, delta: u64) -> Vec<u64> {
    vec![base, base + delta, base + 500, base + 500]
}

fn script_for_deltas(deltas: &[u64]) -> Vec<u64> {
    let mut script = Vec::new();
    for (k, &d) in deltas.iter().enumerate() {
        script.extend(iteration_readings(1000 * (k as u64), d));
    }
    script
}

#[test]
fn geometry_error_line_size() {
    assert_eq!(
        CacheProfiler::new(100, 0, 64).err(),
        Some(ProfileError::InvalidLineSize)
    );
    assert_eq!(
        CacheProfiler::new(100, 64, 64).err(),
        Some(ProfileError::InvalidLineSize)
    );
}

#[test]
fn geometry_error_stride() {
    assert_eq!(
        CacheProfiler::new(256, 64, 32).err(),
        Some(ProfileError::InvalidStride)
    );
    assert_eq!(
        CacheProfiler::new(256, 64, 96).err(),
        Some(ProfileError::InvalidStride)
    );
}

#[test]
fn geometry_error_overflow() {
    assert_eq!(
        CacheProfiler::new(0x1_0000_0000, 2, 2).err(),
        Some(ProfileError::CandidateOverflow)
    );
}

#[test]
fn victim_out_of_bounds_rejected() {
    let p = CacheProfiler::new(256, 64, 64).unwrap();
    let mut clock = ScriptClock::new(Vec::new()).unwrap();
    let mut rng = SeededRng::new(7);
    let r = p.profile_cache_set(256, 4, 0, &mut clock, &mut rng);
    assert_eq!(r.err(), Some(ProfileError::VictimOutOfBounds));
}

#[test]
fn empty_region_rejects_any_victim() {
    let p = CacheProfiler::new(0, 64, 64).unwrap();
    let mut clock = ScriptClock::new(Vec::new()).unwrap();
    let mut rng = SeededRng::new(7);
    let r = p.profile_cache_set(0, 4, 0, &mut clock, &mut rng);
    assert_eq!(r.err(), Some(ProfileError::VictimOutOfBounds));
}

#[test]
fn budget_zero_returns_full_set() {
    let p = CacheProfiler::new(256, 64, 64).unwrap();
    let mut clock = ScriptClock::new(Vec::new()).unwrap();
    let mut rng = SeededRng::new(7);
    let r = p.profile_cache_set(0, 0, 0, &mut clock, &mut rng).unwrap();
    assert_eq!(r.eviction_set, vec![0, 64, 128, 192]);
    assert_eq!(r.try_count, 0);
    assert_eq!(r.error_count, 0);
    assert_eq!(r.sum_speed_up, 0);
    assert_eq!(r.average_speed_up, 0);
}

#[test]
fn try_and_error_counts_bounded() {
    let p = CacheProfiler::new(512, 64, 64).unwrap();
    let script = script_for_deltas(&[0, 10, 0, 10, 0, 10, 0, 10, 0, 10]);
    let mut clock = ScriptClock::new(script).unwrap();
    let mut rng = SeededRng::new(42);
    let r = p.profile_cache_set(0, 10, 5, &mut clock, &mut rng).unwrap();
    assert!(r.try_count <= 10);
    assert!(r.error_count <= r.try_count);
}

#[test]
fn eviction_set_sorted_unique_members() {
    let p = CacheProfiler::new(512, 64, 64).unwrap();
    let script = script_for_deltas(&[10, 0, 10, 0, 10, 0, 10, 0]);
    let mut clock = ScriptClock::new(script).unwrap();
    let mut rng = SeededRng::new(99);
    let r = p.profile_cache_set(64, 8, 5, &mut clock, &mut rng).unwrap();
    for w in r.eviction_set.windows(2) {
        assert!(w[0] < w[1]);
    }
    for &a in r.eviction_set.iter() {
        assert_eq!(a % 64, 0);
        assert!((a as usize) < 512);
    }
}

#[test]
fn unreachable_threshold_empties_set() {
    let p = CacheProfiler::new(256, 64, 64).unwrap();
    let mut clock = ScriptClock::new(Vec::new()).unwrap();
    let mut rng = SeededRng::new(3);
    let r = p
        .profile_cache_set(0, 4, i64::MAX, &mut clock, &mut rng)
        .unwrap();
    assert!(r.eviction_set.is_empty());
    assert_eq!(r.try_count, 4);
    assert_eq!(r.error_count, 4);
    assert_eq!(r.sum_speed_up, 0);
    assert_eq!(r.average_speed_up, 0);
}

#[test]
fn always_met_threshold_keeps_all() {
    let p = CacheProfiler::new(256, 64, 64).unwrap();
    let mut clock = ScriptClock::new(Vec::new()).unwrap();
    let mut rng = SeededRng::new(11);
    let r = p
        .profile_cache_set(0, 6, i64::MIN, &mut clock, &mut rng)
        .unwrap();
    assert_eq!(r.eviction_set, vec![0, 64, 128, 192]);
    assert_eq!(r.error_count, 0);
    assert_eq!(r.try_count, 6);
}

#[test]
fn initial_candidate_count_4mib() {
    let p = CacheProfiler::new(LLC_SIZE, CACHE_LINE_SIZE, CACHE_LINE_SIZE).unwrap();
    let cands = p.initial_candidates();
    assert_eq!(cands.len(), 65536);
    assert_eq!(cands[0], 0);
    assert_eq!(cands[65535], 65535 * 64);
}

#[test]
fn selective_subset_recovered() {
    // Candidates 0, 64, 128, 192; the mock reports a delta above the
    // threshold exactly when the removed candidate is 64 or 192.  With the
    // scripted picks the run examines every non-member, so the final set is
    // exactly {64, 192}.
    let p = CacheProfiler::new(256, 64, 64).unwrap();
    let script = script_for_deltas(&[0, 10, 0, 10, 10, 10]);
    let mut clock = ScriptClock::new(script).unwrap();
    let mut rng = ScriptRng::new(vec![0, 0, 0, 0, 0, 0]);
    let r = p.profile_cache_set(0, 6, 5, &mut clock, &mut rng).unwrap();
    assert_eq!(r.eviction_set, vec![64, 192]);
    assert_eq!(r.try_count, 6);
    assert_eq!(r.error_count, 2);
    assert_eq!(r.sum_speed_up, 40_000_000);
    assert_eq!(r.average_speed_up, 10_000_000);
}

#[test]
fn deterministic_runs_identical() {
    let script = script_for_deltas(&[4, 9, 0, 12, 7]);
    let first = {
        let p = CacheProfiler::new(512, 64, 64).unwrap();
        let mut clock = ScriptClock::new(script.clone()).unwrap();
        let mut rng = SeededRng::new(0xDEAD_BEEF);
        p.profile_cache_set(128, 5, 6, &mut clock, &mut rng).unwrap()
    };
    let second = {
        let p = CacheProfiler::new(512, 64, 64).unwrap();
        let mut clock = ScriptClock::new(script).unwrap();
        let mut rng = SeededRng::new(0xDEAD_BEEF);
        p.profile_cache_set(128, 5, 6, &mut clock, &mut rng).unwrap()
    };
    assert_eq!(first, second);
    assert_eq!(first.eviction_set, second.eviction_set);
    assert_eq!(first.try_count, second.try_count);
    assert_eq!(first.sum_speed_up, second.sum_speed_up);
    assert_eq!(first.average_speed_up, second.average_speed_up);
    assert_eq!(first.error_count, second.error_count);
}

#[test]
fn negative_gains_average_truncates() {
    // One candidate; both iterations confirm with a delta of -5 (the second
    // probe is slower), so the sum is negative and the average divides
    // towards zero.
    let p = CacheProfiler::new(64, 64, 64).unwrap();
    let script = vec![0, 0, 100, 105, 1000, 1000, 1100, 1105];
    let mut clock = ScriptClock::new(script).unwrap();
    let mut rng = SeededRng::new(1);
    let r = p.profile_cache_set(0, 2, -10, &mut clock, &mut rng).unwrap();
    assert_eq!(r.eviction_set, vec![0]);
    assert_eq!(r.try_count, 2);
    assert_eq!(r.error_count, 0);
    assert_eq!(r.sum_speed_up, -10_000_000);
    assert_eq!(r.average_speed_up, -5_000_000);
}

#[test]
fn scripted_clock_rejects_bad_script() {
    assert!(ScriptClock::new(vec![5, 3]).is_none());
    assert!(ScriptClock::new(vec![TICK_LIMIT]).is_none());
    assert!(ScriptClock::new(vec![0, 0, 7]).is_some());
}
