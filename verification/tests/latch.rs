use pagebox::latch::{
    exclusive_entry, exclusive_upgrade, validation, EntryError, HybridLatch, LatchGuard, Restart,
    VersionOverflow,
};
use pagebox::latch_version::{
    advance_readable_version, advance_readable_version_checked, can_advance_readable_version,
    enter_exclusive_version, entered_version_disallows_optimistic_read, exclusive_base_version,
    exclusive_mask, exit_exclusive_version, optimistic_read_allowed, optimistic_restart_required,
    optimistic_snapshot, optimistic_snapshot_still_valid, version_is_exclusive,
};
use pagebox::latch_waits::{
    latch_wait_latency_bounds_ns, top_latch_wait_sites, trace_latch_waits_enabled, LatchWaitMode,
    LatchWaitRegistry, LatchWaitSite,
};
use pagebox::metrics_stub::{Counter, LabeledCounter};

#[test]
fn exclusive_invalidates_optimistic() {
    let latch = HybridLatch::new();
    let guard = latch.optimistic_or_restart().unwrap();

    {
        let _exc = latch.lock_exclusive();
        assert!(latch.optimistic_or_restart().is_err());
    }

    assert!(guard.validate().is_err());

    let guard2 = latch.optimistic_or_restart().unwrap();
    assert!(guard2.validate().is_ok());
}

#[test]
fn version_increments_on_exclusive() {
    let latch = HybridLatch::new();
    assert_eq!(latch.version(), 0);

    {
        let _exc = latch.lock_exclusive();
        assert_eq!(latch.version(), 1);
    }
    assert_eq!(latch.version(), 2);

    {
        let _exc = latch.lock_exclusive();
    }
    assert_eq!(latch.version(), 4);
}

#[test]
fn upgrade_optimistic_to_exclusive() {
    let latch = HybridLatch::new();
    let guard = latch.optimistic_or_restart().unwrap();
    let exc = match guard.upgrade_to_exclusive() {
        Ok(exc) => exc,
        Err(e) => panic!("{:?}", e),
    };
    assert_eq!(exc.version(), 1);
    drop(exc);
    assert_eq!(latch.version(), 2);
}

#[test]
fn upgrade_fails_if_version_changed() {
    let latch = HybridLatch::new();
    let guard = latch.optimistic_or_restart().unwrap();

    {
        let _exc = latch.lock_exclusive();
    }

    assert!(guard.upgrade_to_exclusive().is_err());
}

#[test]
fn upgrade_to_shared_succeeds_uncontended() {
    let latch = HybridLatch::new();
    let guard = latch.optimistic_or_restart().unwrap();
    let shared = guard.upgrade_to_shared().unwrap();
    assert_eq!(shared.version(), 0);
}

#[test]
fn try_upgrade_to_shared_succeeds_uncontended() {
    let latch = HybridLatch::new();
    let guard = latch.optimistic_or_restart().unwrap();
    let shared = guard.try_upgrade_to_shared().unwrap();
    assert_eq!(shared.version(), 0);
}

#[test]
fn try_upgrade_to_shared_fails_if_version_changed() {
    let latch = HybridLatch::new();
    let guard = latch.optimistic_or_restart().unwrap();
    {
        let _exc = latch.lock_exclusive();
    }
    assert!(guard.try_upgrade_to_shared().is_err());
}

#[test]
fn multiple_shared_holders_coexist() {
    let latch = HybridLatch::new();
    let s1 = latch.lock_shared();
    let s2 = latch.lock_shared();
    // Both shared guards should coexist; optimistic reads should also work.
    let opt = latch.optimistic_or_restart().unwrap();
    assert!(opt.validate().is_ok());
    drop(s1);
    drop(s2);
}

#[test]
fn shared_blocks_exclusive_try_lock() {
    let latch = HybridLatch::new();
    let _shared = latch.lock_shared();
    // try_lock_exclusive should fail while shared is held.
    assert!(latch.try_lock_exclusive().is_none());
    drop(_shared);
    // After dropping shared, exclusive should succeed.
    assert!(latch.try_lock_exclusive().is_some());
}

#[test]
fn helpers_exclusive_mask_roundtrip() {
    for v in [0u64, 1, 2, 4, 100, u64::MAX - 1, u64::MAX] {
        let masked = exclusive_mask(v);
        assert_eq!(masked, v & 1);
        assert_eq!(version_is_exclusive(v), masked != 0);
    }
}

#[test]
fn helpers_enter_exit_exclusive_roundtrip() {
    for base in [0u64, 2, 4, 100, 1000] {
        let exc = enter_exclusive_version(base);
        assert!(version_is_exclusive(exc));
        assert_eq!(exclusive_base_version(exc), base);
        let next = exit_exclusive_version(exc);
        assert_eq!(next, base + 2);
        assert!(!version_is_exclusive(next));
    }
}

#[test]
fn helpers_optimistic_snapshot_allowed_when_not_exclusive() {
    for v in [0u64, 2, 4, 100] {
        assert!(optimistic_read_allowed(v));
        assert_eq!(optimistic_snapshot(v), Some(v));
    }
}

#[test]
fn helpers_optimistic_snapshot_none_when_exclusive() {
    for v in [1u64, 3, 5, 101] {
        assert!(!optimistic_read_allowed(v));
        assert_eq!(optimistic_snapshot(v), None);
    }
}

#[test]
fn helpers_can_advance_readable_version_boundary() {
    assert!(can_advance_readable_version(0));
    assert!(can_advance_readable_version(u64::MAX - 2));
    assert!(!can_advance_readable_version(u64::MAX - 1));
    assert!(!can_advance_readable_version(u64::MAX));
}

#[test]
fn helpers_advance_readable_version_steps_by_two() {
    assert_eq!(advance_readable_version(0), 2);
    assert_eq!(advance_readable_version(2), 4);
    assert_eq!(advance_readable_version(u64::MAX - 2), u64::MAX);
}

#[test]
fn checked_advance_stops_at_the_end() {
    assert_eq!(advance_readable_version_checked(6), Some(8));
    assert_eq!(advance_readable_version_checked(u64::MAX - 1), None);
    assert!(!entered_version_disallows_optimistic_read(12));
    assert!(optimistic_snapshot_still_valid(4, 4));
    assert!(optimistic_restart_required(6, 4));
}

#[test]
fn terminal_version_refuses_exclusive_entry() {
    let latch = HybridLatch::starting_at(u64::MAX - 1);
    assert!(matches!(latch.lock_exclusive(), Err(VersionOverflow)));
    assert!(matches!(latch.try_lock_exclusive(), Some(Err(VersionOverflow))));
    let guard = latch.optimistic_or_restart().unwrap();
    assert!(!guard.can_upgrade());
    let guard = latch.optimistic_or_restart().unwrap();
    assert!(matches!(guard.try_upgrade_to_exclusive(), Err(EntryError::VersionOverflow)));
    assert_eq!(latch.version(), u64::MAX - 1);
    assert_eq!(exclusive_entry(u64::MAX - 1), Err(VersionOverflow));
}

#[test]
fn exclusive_entry_sets_the_bit() {
    assert_eq!(exclusive_entry(8), Ok(9));
    assert_eq!(exclusive_upgrade(8, Ok(8)), Ok(9));
    assert_eq!(exclusive_upgrade(8, Err(10)), Err(Restart));
    assert_eq!(validation(8, 8), Ok(()));
    assert_eq!(validation(10, 8), Err(Restart));
}

#[test]
fn exclusive_section_excludes_every_other() {
    let latch = HybridLatch::default();
    let exc = latch.lock_exclusive();
    assert!(exc.is_ok());
    assert!(latch.try_lock_shared().is_none());
    assert!(latch.try_lock_exclusive().is_none());
    drop(exc);
    let shared = latch.try_lock_shared().unwrap();
    assert_eq!(shared.version(), 2);
}

#[test]
fn try_upgrade_meets_a_held_lock() {
    let latch = HybridLatch::new();
    let _shared = latch.lock_shared();
    let guard = latch.optimistic_or_restart().unwrap();
    assert!(matches!(guard.try_upgrade_to_exclusive(), Err(EntryError::Restart)));
    drop(_shared);
    let guard = latch.optimistic_spin();
    assert!(guard.try_upgrade_to_exclusive().is_ok());
    assert_eq!(latch.version(), 2);
}

#[test]
fn snapshot_comes_back_where_the_lock_is_taken() {
    let latch = HybridLatch::starting_at(4);
    let shared = latch.lock_shared();
    let guard = latch.optimistic_spin();
    let guard = match guard.exclusive_if_free() {
        Err(guard) => guard,
        Ok(_) => panic!("the lock is taken"),
    };
    assert!(guard.validate().is_ok());
    drop(shared);
    let exclusive = match guard.exclusive_if_free() {
        Ok(Ok(exclusive)) => exclusive,
        _ => panic!("the lock is free and the word has not moved"),
    };
    assert_eq!(exclusive.version(), 5);
    drop(exclusive);
    assert_eq!(latch.version(), 6);
    let stale = latch.optimistic_at(4).unwrap();
    assert!(matches!(stale.exclusive_if_free(), Ok(Err(Restart))));
    let stale = latch.optimistic_at(4).unwrap();
    assert!(matches!(stale.upgrade_to_exclusive(), Err(Restart)));
    assert_eq!(latch.version(), 6);
    let guard = latch.optimistic_spin();
    assert!(matches!(guard.shared_if_free(), Ok(Ok(_))));
}

#[test]
fn spinning_reader_takes_a_readable_snapshot() {
    let latch = HybridLatch::starting_at(20);
    let guard = latch.optimistic_spin();
    assert_eq!(guard.validate_against(20), Ok(()));
    assert_eq!(guard.validate_against(22), Err(Restart));
    assert!(guard.validate().is_ok());
}

#[test]
fn section_begins_only_where_no_writer_is_active() {
    let latch = HybridLatch::new();
    let guard = latch.optimistic_at(6).unwrap();
    assert_eq!(guard.validate_against(6), Ok(()));
    assert_eq!(guard.validate_against(0), Err(Restart));
    assert!(latch.optimistic_at(7).is_err());
}

#[test]
fn either_guard_validates_in_its_own_way() {
    let latch = HybridLatch::new();
    let optimistic = LatchGuard::Optimistic(latch.optimistic_or_restart().unwrap());
    {
        let _exc = latch.lock_exclusive();
    }
    assert!(optimistic.validate().is_err());
    assert!(optimistic.validate_against(0).is_ok());
    let shared = LatchGuard::Shared(latch.lock_shared());
    assert!(shared.validate().is_ok());
    assert!(shared.validate_against(99).is_ok());
}

fn names(sites: &[LatchWaitSite]) -> Vec<(u32, u64, u64, u64)> {
    sites
        .iter()
        .map(|s| (s.line, s.contended_acquires, s.total_wait_ns, s.max_wait_ns))
        .collect()
}

#[test]
fn wait_sites_rank_by_total_wait() {
    let mut registry = LatchWaitRegistry::new();
    registry.record_latch_wait_site(LatchWaitMode::Shared, "a.rs", 1, 1, 50);
    registry.record_latch_wait_site(LatchWaitMode::Exclusive, "a.rs", 2, 1, 30);
    registry.record_latch_wait_site(LatchWaitMode::Exclusive, "a.rs", 2, 1, 40);
    registry.record_latch_wait_site(LatchWaitMode::UpgradeShared, "b.rs", 3, 1, 70);
    registry.record_latch_wait_site(LatchWaitMode::UpgradeExclusive, "a.rs", 4, 9, 70);
    registry.record_latch_wait_site(LatchWaitMode::Shared, "a.rs", 4, 2, 70);
    let all = registry.top_latch_wait_sites(10);
    assert_eq!(
        names(&all),
        vec![(2, 2, 70, 40), (4, 1, 70, 70), (4, 1, 70, 70), (3, 1, 70, 70), (1, 1, 50, 50)]
    );
    assert_eq!(all[1].column, 2);
    assert_eq!(all[2].column, 9);
    assert_eq!(all[3].file, "b.rs");
    assert_eq!(names(&registry.top_latch_wait_sites(2)), names(&all[..2]));
    assert_eq!(top_latch_wait_sites(&registry, true, 1).len(), 1);
    assert!(top_latch_wait_sites(&registry, false, 10).is_empty());
    assert!(top_latch_wait_sites(&LatchWaitRegistry::default(), true, 10).is_empty());
}

#[test]
fn wait_totals_saturate() {
    let mut registry = LatchWaitRegistry::new();
    registry.record_latch_wait_site(LatchWaitMode::Shared, "a.rs", 1, 1, u64::MAX);
    registry.record_latch_wait_site(LatchWaitMode::Shared, "a.rs", 1, 1, 5);
    assert_eq!(names(&registry.top_latch_wait_sites(1)), vec![(1, 2, u64::MAX, u64::MAX)]);
}

#[test]
fn tracing_is_switched_on_by_name() {
    for on in ["1", "true", "TRUE", "yes", "YES"] {
        assert!(trace_latch_waits_enabled(Some(on)));
    }
    for off in ["", "0", "True", "on", "yess"] {
        assert!(!trace_latch_waits_enabled(Some(off)));
    }
    assert!(!trace_latch_waits_enabled(None));
    let bounds = latch_wait_latency_bounds_ns();
    assert_eq!(bounds[0], 100);
    assert_eq!(bounds[12], 100_000_000);
}

#[test]
fn silent_counters_accept_everything() {
    let counter = Counter::new(4);
    counter.inc();
    counter.add(-3);
    assert_eq!(counter, Counter);
    let labeled: LabeledCounter<u8> = LabeledCounter::new(4);
    labeled.inc(1);
    labeled.add(1, 7);
}
