use deadlock_detect::DeadLockDetector;

/// A detector with threads `0 .. holdings.len()`, one resource per column,
/// `holdings[t][r]` units held and `waiting[t][r]` units pending for thread `t`,
/// and `free[r]` units left over. An extra last thread is used to exhaust each
/// resource while the pending requests are recorded; it ends holding nothing.
fn build(free: &[usize], holdings: &[Vec<usize>], waiting: &[Vec<usize>]) -> DeadLockDetector {
    let threads = holdings.len();
    let mut d = DeadLockDetector::new();
    d.set_tid(threads);
    let helper = threads;
    for r in 0..free.len() {
        let held: usize = holdings.iter().map(|row| row[r]).sum();
        let id = d.update_available(r, free[r] + held);
        assert_eq!(id, r);
    }
    for t in 0..threads {
        for r in 0..free.len() {
            for _ in 0..holdings[t][r] {
                d.aquire_one(r, t);
            }
        }
    }
    for r in 0..free.len() {
        let spare = d.available_of(r);
        for _ in 0..spare {
            d.aquire_one(r, helper);
        }
        for t in 0..threads {
            for _ in 0..waiting[t][r] {
                d.aquire_one(r, t);
            }
        }
        for _ in 0..spare {
            d.release_one(r, helper);
        }
    }
    for t in 0..threads {
        for r in 0..free.len() {
            assert_eq!(d.allocation_of(t, r), holdings[t][r]);
            assert_eq!(d.need_of(t, r), waiting[t][r]);
        }
    }
    for r in 0..free.len() {
        assert_eq!(d.available_of(r), free[r]);
    }
    d
}

fn snapshot(d: &DeadLockDetector) -> (bool, Vec<usize>, Vec<Vec<usize>>, Vec<Vec<usize>>) {
    let m = d.num_resources();
    let n = d.num_threads();
    let avail = (0..m).map(|r| d.available_of(r)).collect();
    let alloc = (0..n).map(|t| (0..m).map(|r| d.allocation_of(t, r)).collect()).collect();
    let need = (0..n).map(|t| (0..m).map(|r| d.need_of(t, r)).collect()).collect();
    (d.is_enabled(), avail, alloc, need)
}

fn unsafe_pair() -> DeadLockDetector {
    // Two units; each of two threads holds one and waits for one more.
    let mut d = DeadLockDetector::new();
    d.set_tid(1);
    d.update_available(0, 2);
    d.aquire_one(0, 0);
    d.aquire_one(0, 1);
    d.aquire_one(0, 0);
    d.aquire_one(0, 1);
    assert_eq!(d.available_of(0), 0);
    assert_eq!(d.allocation_of(0, 0), 1);
    assert_eq!(d.allocation_of(1, 0), 1);
    assert_eq!(d.need_of(0, 0), 1);
    assert_eq!(d.need_of(1, 0), 1);
    d
}

#[test]
fn new_detector_is_disabled_with_main_thread() {
    let d = DeadLockDetector::new();
    assert!(!d.is_enabled());
    assert_eq!(d.num_resources(), 0);
    assert_eq!(d.num_threads(), 1);
}

#[test]
fn safe_state_detected_as_safe() {
    // Three units; thread 0 holds one, thread 1 holds one and waits for one.
    let mut d = DeadLockDetector::new();
    d.set_tid(1);
    d.update_available(0, 3);
    d.set_enable(true);
    d.aquire_one(0, 0);
    d.aquire_one(0, 1);
    d.aquire_one(0, 1);
    d.aquire_one(0, 1);
    d.release_one(0, 1);
    assert_eq!(d.available_of(0), 1);
    assert_eq!(d.allocation_of(0, 0), 1);
    assert_eq!(d.need_of(0, 0), 0);
    assert_eq!(d.allocation_of(1, 0), 1);
    assert_eq!(d.need_of(1, 0), 1);
    assert!(d.detect_deadlock(1, 0));
}

#[test]
fn unsafe_state_detected_as_unsafe() {
    let mut d = unsafe_pair();
    d.set_enable(true);
    assert!(!d.detect_deadlock(0, 0));
    assert!(!d.detect_deadlock(1, 0));
}

#[test]
fn disabled_detector_always_permits() {
    let mut d = unsafe_pair();
    assert!(!d.is_enabled());
    assert!(d.detect_deadlock(0, 0));
    assert!(d.detect_deadlock(1, 0));
    d.set_enable(true);
    assert!(!d.detect_deadlock(0, 0));
    d.set_enable(false);
    assert!(d.detect_deadlock(0, 0));
}

#[test]
fn check_leaves_state_unchanged() {
    let mut d = unsafe_pair();
    d.set_enable(true);
    let before = snapshot(&d);
    assert!(!d.detect_deadlock(0, 0));
    assert_eq!(snapshot(&d), before);

    let mut e = DeadLockDetector::new();
    e.update_available(0, 2);
    e.set_enable(true);
    let before = snapshot(&e);
    assert!(e.detect_deadlock(0, 0));
    assert_eq!(snapshot(&e), before);
}

#[test]
fn repeated_checks_agree() {
    let mut d = unsafe_pair();
    d.set_enable(true);
    let first = d.detect_deadlock(1, 0);
    for _ in 0..5 {
        assert_eq!(d.detect_deadlock(1, 0), first);
    }
    let mut s = build(&[1], &[vec![1], vec![1]], &[vec![0], vec![1]]);
    s.set_enable(true);
    let first = s.detect_deadlock(1, 0);
    assert!(first);
    for _ in 0..5 {
        assert_eq!(s.detect_deadlock(1, 0), first);
    }
}

#[test]
fn request_beyond_everything_is_unsafe() {
    // A single thread asking for more than exists can never finish.
    let mut d = DeadLockDetector::new();
    d.update_available(0, 1);
    d.set_enable(true);
    assert!(d.detect_deadlock(0, 0));
    d.aquire_one(0, 0);
    assert!(!d.detect_deadlock(0, 0));
}

#[test]
fn classic_safe_state_with_three_resources() {
    let free = [3, 3, 2];
    let holdings = [vec![0, 1, 0], vec![2, 0, 0], vec![3, 0, 2], vec![2, 1, 1], vec![0, 0, 2]];
    let waiting = [vec![7, 4, 3], vec![1, 2, 2], vec![6, 0, 0], vec![0, 1, 1], vec![4, 3, 1]];
    let mut d = build(&free, &holdings, &waiting);
    d.set_enable(true);
    assert_eq!(d.available_of(1), 3);
    assert_eq!(d.available_of(2), 2);
    // One more unit of resource 0 for thread 1 still leaves a completion order.
    assert!(d.detect_deadlock(1, 0));
    // So does one more unit of resource 2 for thread 3.
    assert!(d.detect_deadlock(3, 2));
}

#[test]
fn classic_unsafe_state_with_two_resources() {
    // Nothing free of resource 1; both threads wait for a unit of it.
    let free = [1, 0];
    let holdings = [vec![0, 1], vec![1, 1]];
    let waiting = [vec![0, 1], vec![0, 1]];
    let mut d = build(&free, &holdings, &waiting);
    d.set_enable(true);
    assert!(!d.detect_deadlock(0, 0));
    assert!(!d.detect_deadlock(1, 1));
}

#[test]
fn idle_thread_does_not_block_safety() {
    // Thread 2 holds and wants nothing: it can always finish.
    let free = [1];
    let holdings = [vec![1], vec![0], vec![0]];
    let waiting = [vec![0], vec![0], vec![0]];
    let mut d = build(&free, &holdings, &waiting);
    d.set_enable(true);
    assert!(d.detect_deadlock(1, 0));
    assert!(d.detect_deadlock(0, 0));
}

#[test]
fn update_available_appends_a_zero_column() {
    let mut d = DeadLockDetector::new();
    d.set_tid(2);
    assert_eq!(d.update_available(0, 4), 0);
    d.aquire_one(0, 2);
    assert_eq!(d.update_available(7, 5), 1);
    assert_eq!(d.num_resources(), 2);
    assert_eq!(d.available_of(0), 3);
    assert_eq!(d.available_of(1), 5);
    for t in 0..3 {
        assert_eq!(d.allocation_of(t, 1), 0);
        assert_eq!(d.need_of(t, 1), 0);
    }
    assert_eq!(d.allocation_of(2, 0), 1);
}

#[test]
fn update_available_with_zero_units() {
    let mut d = DeadLockDetector::new();
    assert_eq!(d.update_available(0, 0), 0);
    assert_eq!(d.available_of(0), 0);
    d.aquire_one(0, 0);
    assert_eq!(d.allocation_of(0, 0), 0);
    assert_eq!(d.need_of(0, 0), 1);
}

#[test]
fn set_tid_appends_zero_rows() {
    let mut d = DeadLockDetector::new();
    d.update_available(0, 2);
    d.update_available(1, 3);
    d.set_tid(1);
    assert_eq!(d.num_threads(), 2);
    for r in 0..2 {
        assert_eq!(d.allocation_of(1, r), 0);
        assert_eq!(d.need_of(1, r), 0);
    }
    d.set_tid(4);
    assert_eq!(d.num_threads(), 5);
    assert_eq!(d.allocation_of(4, 1), 0);
    assert_eq!(d.need_of(3, 0), 0);
}

#[test]
fn set_tid_on_existing_row_changes_nothing() {
    let mut d = DeadLockDetector::new();
    d.update_available(0, 2);
    d.set_tid(1);
    d.aquire_one(0, 1);
    let before = snapshot(&d);
    d.set_tid(0);
    d.set_tid(1);
    assert_eq!(snapshot(&d), before);
}

#[test]
fn acquire_takes_a_free_unit() {
    let mut d = DeadLockDetector::new();
    d.update_available(0, 2);
    d.aquire_one(0, 0);
    assert_eq!(d.available_of(0), 1);
    assert_eq!(d.allocation_of(0, 0), 1);
    assert_eq!(d.need_of(0, 0), 0);
}

#[test]
fn acquire_without_free_unit_records_need() {
    let mut d = DeadLockDetector::new();
    d.update_available(0, 1);
    d.aquire_one(0, 0);
    d.aquire_one(0, 0);
    assert_eq!(d.available_of(0), 0);
    assert_eq!(d.allocation_of(0, 0), 1);
    assert_eq!(d.need_of(0, 0), 1);
}

#[test]
fn release_returns_a_unit() {
    let mut d = DeadLockDetector::new();
    d.update_available(0, 3);
    d.aquire_one(0, 0);
    d.aquire_one(0, 0);
    d.release_one(0, 0);
    assert_eq!(d.available_of(0), 2);
    assert_eq!(d.allocation_of(0, 0), 1);
}

#[test]
fn acquire_release_round_trip() {
    let mut d = DeadLockDetector::new();
    d.set_tid(1);
    d.update_available(0, 2);
    d.aquire_one(0, 1);
    let n = d.available_of(0);
    assert_eq!(n, 1);
    let held = d.allocation_of(1, 0);
    for _ in 0..n + 1 {
        d.aquire_one(0, 1);
        d.release_one(0, 1);
    }
    assert_eq!(d.available_of(0), n);
    assert_eq!(d.allocation_of(1, 0), held);
    assert_eq!(d.need_of(1, 0), 0);
}

#[test]
fn units_are_conserved() {
    let mut d = DeadLockDetector::new();
    d.set_tid(2);
    d.update_available(0, 3);
    d.update_available(1, 2);
    let ops: [(usize, usize, bool); 9] = [
        (0, 0, true),
        (0, 1, true),
        (1, 2, true),
        (0, 2, true),
        (1, 0, true),
        (0, 1, false),
        (1, 2, false),
        (0, 0, true),
        (1, 1, true),
    ];
    let totals = [3, 2];
    for (r, t, take) in ops {
        if take {
            d.aquire_one(r, t);
        } else {
            d.release_one(r, t);
        }
        for c in 0..2 {
            let held: usize = (0..3).map(|u| d.allocation_of(u, c)).sum();
            assert_eq!(d.available_of(c) + held, totals[c]);
        }
    }
}

#[test]
fn fulfill_moves_a_pending_unit_to_the_thread() {
    let mut d = DeadLockDetector::new();
    d.set_tid(1);
    d.update_available(0, 1);
    d.aquire_one(0, 0);
    d.aquire_one(0, 1);
    assert_eq!(d.need_of(1, 0), 1);
    d.release_one(0, 0);
    d.fulfill_one(0, 1);
    assert_eq!(d.available_of(0), 0);
    assert_eq!(d.allocation_of(0, 0), 0);
    assert_eq!(d.allocation_of(1, 0), 1);
    assert_eq!(d.need_of(1, 0), 0);
}

#[test]
fn set_enable_toggles_flag() {
    let mut d = DeadLockDetector::new();
    d.set_enable(true);
    assert!(d.is_enabled());
    d.set_enable(false);
    assert!(!d.is_enabled());
}
