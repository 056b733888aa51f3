use constructive_opt::{
    forward_distance, opt_simulation, simulate, sweep, AccessResult, OptCacheSim, NEVER,
};

#[test]
fn distances_of_small_trace() {
    // A, B, A, C, A
    let trace = vec![10usize, 20, 10, 30, 10];
    assert_eq!(forward_distance(&trace), vec![2, NEVER, 2, NEVER, NEVER]);
}

#[test]
fn distances_of_empty_trace() {
    let trace: Vec<usize> = Vec::new();
    assert!(forward_distance(&trace).is_empty());
}

#[test]
fn distances_of_consecutive_repeats() {
    let trace = vec![7usize, 7, 7];
    assert_eq!(forward_distance(&trace), vec![1, 1, NEVER]);
}

#[test]
fn distances_have_trace_length() {
    let trace = vec![3usize, 1, 4, 1, 5, 9, 2, 6, 5, 3, 5];
    assert_eq!(forward_distance(&trace).len(), trace.len());
}

#[test]
fn single_occurrence_is_never_reused() {
    let trace = vec![1usize, 2, 1, 3, 2, 1];
    let d = forward_distance(&trace);
    assert_eq!(d[3], NEVER);
    assert_eq!(d[0], 2);
    assert_eq!(d[1], 3);
}

#[test]
fn distances_are_deterministic() {
    let trace = vec![5usize, 4, 5, 5, 1, 4, 0];
    assert_eq!(forward_distance(&trace), forward_distance(&trace));
}

#[test]
fn cyclic_trace_capacity_two() {
    let trace = vec![1usize, 2, 3, 1, 2, 3, 1, 2, 3];
    let d = forward_distance(&trace);
    assert_eq!(vec![d[0], d[3], d[6]], vec![3, 3, NEVER]);
    let r = simulate(&trace, &d, 2);
    assert_eq!(r.accesses, 9);
    // misses at positions 0, 1, 2, 4, 6 and 8
    assert_eq!(r.misses, 6);
}

#[test]
fn cyclic_trace_access_by_access() {
    let trace = vec![1usize, 2, 3, 1, 2, 3, 1, 2, 3];
    let d = forward_distance(&trace);
    let mut sim = OptCacheSim::new(2);
    let mut outcomes = Vec::new();
    for i in 0..trace.len() {
        outcomes.push(sim.cache_access(trace[i], d[i]) == AccessResult::Hit);
    }
    assert_eq!(
        outcomes,
        vec![false, false, false, true, false, true, false, true, false]
    );
}

#[test]
fn capacity_zero_misses_every_access() {
    let trace = vec![1usize, 1, 2, 1, 2, 2];
    let d = forward_distance(&trace);
    let r = simulate(&trace, &d, 0);
    assert_eq!(r.accesses, 6);
    assert_eq!(r.misses, 6);
}

#[test]
fn ample_capacity_misses_only_first_references() {
    let trace = vec![4usize, 8, 4, 15, 16, 8, 23, 42, 4, 42];
    let d = forward_distance(&trace);
    assert_eq!(simulate(&trace, &d, 6).misses, 6);
    assert_eq!(simulate(&trace, &d, 100).misses, 6);
}

#[test]
fn more_capacity_never_more_misses() {
    let trace = vec![1usize, 2, 3, 4, 1, 2, 5, 1, 2, 3, 4, 5, 3, 1, 6, 2, 6, 4];
    let d = forward_distance(&trace);
    let mut prev = simulate(&trace, &d, 0).misses;
    for k in 1..8 {
        let m = simulate(&trace, &d, k).misses;
        assert!(m <= prev);
        prev = m;
    }
}

#[test]
fn belady_classic_example() {
    // 7 0 1 2 0 3 0 4 2 3 0 3 2 with three frames: 7 misses under OPT
    let trace = vec![7usize, 0, 1, 2, 0, 3, 0, 4, 2, 3, 0, 3, 2];
    assert_eq!(opt_simulation(&trace, 3).misses, 7);
}

#[test]
fn eviction_tie_goes_to_smallest_identity() {
    let mut sim = OptCacheSim::new(2);
    assert_eq!(sim.cache_access(9, NEVER), AccessResult::Miss);
    assert_eq!(sim.cache_access(5, NEVER), AccessResult::Miss);
    assert_eq!(sim.cache_access(7, NEVER), AccessResult::Miss);
    assert_eq!(sim.cache_access(9, NEVER), AccessResult::Hit);
    assert_eq!(sim.cache_access(5, NEVER), AccessResult::Miss);
}

#[test]
fn set_capacity_empties_the_cache() {
    let mut sim = OptCacheSim::new(1);
    assert_eq!(sim.cache_access(3, 1), AccessResult::Miss);
    assert_eq!(sim.cache_access(3, NEVER), AccessResult::Hit);
    sim.set_capacity(2);
    assert_eq!(sim.cache_access(3, NEVER), AccessResult::Miss);
}

#[test]
fn opt_simulation_matches_simulate() {
    let trace = vec![2usize, 3, 2, 1, 5, 2, 4, 5, 3, 2, 5, 2];
    let d = forward_distance(&trace);
    for k in 0..5 {
        assert_eq!(opt_simulation(&trace, k), simulate(&trace, &d, k));
    }
}

#[test]
fn sweep_rows_match_simulate() {
    let trace = vec![1usize, 2, 3, 4, 1, 2, 5, 1, 2, 3, 4, 5];
    let d = forward_distance(&trace);
    let curve = sweep(&trace, 6);
    assert_eq!(curve.len(), 6);
    for (k, p) in curve.iter().enumerate() {
        assert_eq!(p.capacity, k + 1);
        assert_eq!(p.result, simulate(&trace, &d, k + 1));
    }
    assert_eq!(curve[2].result.misses, 7);
}

#[test]
fn sweep_of_zero_capacities_is_empty() {
    let trace = vec![1usize, 2];
    assert!(sweep(&trace, 0).is_empty());
}
