//! Admission of tasks: weights, budgets, permits, progress.
use nix_ninja::admission::{
    admission_weight, available_gib, budget_for_load, budget_for_memory, memory_bounds_gib,
    pool_permits_from_depths, JobPermits, Readings,
};
use nix_ninja::progress::{
    heap_mib, prune_line, report_due, report_progress, report_progress_final, self_rss_mib,
    Progress,
};

#[test]
fn weight_tracks_input_count_and_stays_inside_the_budget() {
    assert_eq!(admission_weight(0, 24), 1, "a leaf task must be weight 1");
    assert_eq!(admission_weight(20, 24), 1, "tens of inputs is still 1");
    let deep = admission_weight(6134, 24);
    assert!(
        (8..=16).contains(&deep),
        "a 6,134-input task weighed {deep}, outside the intended band"
    );
    for inputs in [0, 1, 511, 512, 513, 100_000] {
        for budget in [1, 2, 24] {
            let w = admission_weight(inputs, budget);
            assert!(w >= 1, "weight 0 for {inputs}/{budget} admits unboundedly");
            assert!(w <= budget, "weight {w} exceeds budget {budget}");
        }
    }
}

#[test]
fn budget_tapers_with_memory_instead_of_cliffing() {
    let (cap, reserve, full) = (24usize, 6u64, 15u64);
    assert_eq!(budget_for_memory(cap, 30, reserve, full), 24, "plenty free");
    assert_eq!(budget_for_memory(cap, 15, reserve, full), 24, "at full mark");
    assert_eq!(budget_for_memory(cap, 6, reserve, full), 1, "at the reserve");
    assert_eq!(budget_for_memory(cap, 2, reserve, full), 1, "below reserve");
    let mut prev = 0;
    for avail in 0..=40 {
        let b = budget_for_memory(cap, avail, reserve, full);
        assert!((1..=cap).contains(&b), "budget {b} outside [1,{cap}]");
        assert!(b >= prev, "budget fell from {prev} to {b} as memory ROSE");
        prev = b;
    }
    let mid = budget_for_memory(cap, 10, reserve, full);
    assert!((2..cap).contains(&mid), "mid-range budget {mid} is an endpoint");
}

fn for_load(cap: usize, load: f64, limit: f64) -> usize {
    budget_for_load(cap, !(limit <= 0.0 || load < limit))
}

#[test]
fn load_limit_matches_ninja_and_zero_disables() {
    assert_eq!(for_load(24, 99.0, 0.0), 24, "0.0 must disable -l");
    assert_eq!(for_load(24, 3.0, 8.0), 24, "under the limit runs wide");
    assert_eq!(for_load(24, 8.0, 8.0), 1, "at the limit throttles");
    assert_eq!(for_load(24, 40.0, 8.0), 1, "over the limit throttles");
    for load in [0.0, 1.0, 7.9, 8.0, 100.0] {
        assert!(for_load(24, load, 8.0) >= 1);
    }
}

#[test]
fn degenerate_bounds_fall_back_to_the_full_cap() {
    assert_eq!(budget_for_memory(24, 0, 0, 0), 24, "unreadable meminfo");
    assert_eq!(budget_for_memory(1, 0, 6, 15), 1, "cap of 1 stays 1");
}

#[test]
fn an_oversized_task_still_runs_alone() {
    let mut permits = JobPermits::new(2);
    assert_eq!(permits.try_acquire(usize::MAX, 1), Some(2));
    assert_eq!(permits.try_acquire(1, 2), None);
}

#[test]
fn admission_throttles_below_the_cap_when_memory_is_tight() {
    let budget = budget_for_memory(8, 10, 6, 15);
    assert_eq!(budget, 4, "the fixture must sit BELOW the cap or this arm asserts nothing");
    let mut permits = JobPermits::new(8);
    for _ in 0..4 {
        assert_eq!(permits.try_acquire(1, budget), Some(1));
    }
    assert_eq!(permits.try_acquire(1, budget), None);
    permits.release(1);
    assert_eq!(permits.try_acquire(1, budget), Some(1));
}

#[test]
fn admission_goes_serial_when_the_load_limit_is_met() {
    let budget = for_load(8, 9.0, 8.0);
    let mut permits = JobPermits::new(8);
    assert_eq!(permits.try_acquire(1, budget), Some(1));
    assert_eq!(permits.try_acquire(1, budget), None);
    permits.release(1);
    assert_eq!(permits.count, 0);
    assert_eq!(permits.try_acquire(1, budget), Some(1));
}

#[test]
fn depth_zero_is_unbounded_and_gets_no_semaphore() {
    let depths = vec![
        ("unbounded".to_string(), 0usize),
        ("link_pool".to_string(), 10),
        ("action_pool".to_string(), 24),
    ];
    let permits = pool_permits_from_depths(&depths);
    let get = |n: &str| permits.iter().find(|(k, _)| k == n).map(|(_, p)| p.cap);
    assert!(
        get("unbounded").is_none(),
        "a depth-0 pool must have no semaphore, or its edges never run"
    );
    assert_eq!(get("link_pool"), Some(10));
    assert_eq!(get("action_pool"), Some(24));
}

#[test]
fn no_pools_is_an_empty_map() {
    assert!(pool_permits_from_depths(&Vec::new()).is_empty());
}

#[test]
fn memory_is_read_from_the_kernels_report() {
    let report = "MemTotal:       65536000 kB\nMemFree:  1 kB\nMemAvailable:   20971520 kB\n";
    assert_eq!(memory_bounds_gib(Some(report)), (12, 31));
    assert_eq!(available_gib(Some(report)), 20);
    assert_eq!(memory_bounds_gib(None), (0, 0));
    assert_eq!(available_gib(None), u64::MAX);
    assert_eq!(available_gib(Some("MemTotal: x")), u64::MAX);
}

#[test]
fn a_zero_numerator_suppresses_the_ratio_instead_of_reporting_it() {
    assert_eq!(prune_line(0, 0), "", "nothing measured yet prints nothing");
    assert!(
        prune_line(900, 0).contains("SUPPRESSED"),
        "0 used against a nonzero denominator must not print a ratio"
    );
    assert_eq!(prune_line(900, 300), ", hdrs 300 used / 900 declared (600 prunable)");
    assert!(prune_line(10, 40).contains("(0 prunable)"));
}

#[test]
fn resident_pages_and_heap_bytes_are_told_in_mebibytes() {
    assert_eq!(self_rss_mib(Some("1000 512 3 4")), 2);
    assert_eq!(self_rss_mib(None), 0);
    assert_eq!(heap_mib(3 << 20, 5 << 20, 1 << 20), (4, 6));
}

#[test]
fn progress_is_reported_every_so_often_and_at_the_end() {
    assert!(report_due(500) && report_due(1000) && !report_due(501));
    let none = Progress::default();
    assert!(report_progress_final(&none).is_none());
    let some = Progress { tasks: 3, resolve_ms: 2500, ..Progress::default() };
    let (stats, line) = report_progress(&some);
    assert!(stats.starts_with("nix-ninja-stats {\"tasks\":3,\"resolve_ms\":2500,"), "{stats}");
    assert!(line.starts_with("nix-ninja: resolved 3 tasks, 2 s total resolve time "), "{line}");
    assert_eq!(report_progress_final(&some), Some((stats, line)));
}

/// A permit is there while memory and load leave room, and always for the first.
#[test]
fn the_smaller_of_both_budgets_counts() {
    let calm = Readings { avail_gib: 100, reserve_gib: 2, full_gib: 8, over_limit: false };
    let mut permits = JobPermits::new(4);
    assert_eq!(permits.acquire_weighted(3, &calm), Some(3));
    assert_eq!(permits.acquire_weighted(1, &calm), Some(1));
    assert_eq!(permits.acquire_weighted(1, &calm), None);
    permits.release(3);
    assert_eq!(permits.count, 1);
    let loaded = Readings { over_limit: true, ..calm };
    assert_eq!(permits.acquire_weighted(1, &loaded), None);
    let tight = Readings { avail_gib: 5, ..calm };
    assert_eq!(permits.acquire_weighted(2, &tight), None, "five of eight leaves two of four");
    assert_eq!(permits.acquire_weighted(1, &tight), Some(1));
    permits.release(9);
    assert_eq!(permits.count, 0);
    assert_eq!(permits.acquire_weighted(9, &loaded), Some(4), "the first always runs");
}
