use castbox::Backoff;
use castbox::backoff::SPIN_LIMIT;
use castbox::backoff::YIELD_LIMIT;

#[test]
fn backoff_starts_fresh() {
    let b = Backoff::new();
    assert!(!b.is_completed());
    assert!(!b.is_yielding());
}

#[test]
fn backoff_spin_stops_at_spin_limit() {
    let mut b = Backoff::new();
    let mut i: u32 = 0;
    while i <= SPIN_LIMIT {
        assert!(!b.is_yielding());
        b.spin();
        i += 1;
    }
    assert!(b.is_yielding());
    // past the limit the step no longer moves
    b.spin();
    b.spin();
    assert!(b.is_yielding());
    assert!(!b.is_completed());
}

#[test]
fn backoff_snooze_completes_at_yield_limit() {
    let mut b = Backoff::new();
    let mut i: u32 = 0;
    while i <= YIELD_LIMIT {
        assert!(!b.is_completed());
        b.snooze();
        i += 1;
    }
    assert!(b.is_completed());
}

#[test]
fn backoff_reset_starts_over() {
    let mut b = Backoff::new();
    let mut i: u32 = 0;
    while i <= YIELD_LIMIT {
        b.snooze();
        i += 1;
    }
    assert!(b.is_completed());
    b.reset();
    assert!(!b.is_completed());
    assert!(!b.is_yielding());
}

#[test]
fn backoff_default_is_fresh() {
    let b = Backoff::default();
    assert!(!b.is_completed());
}
