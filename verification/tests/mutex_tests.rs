use castbox::Backoff;
use castbox::LockStep;
use castbox::Mutex;

#[test]
fn is_locked_reflects_state() {
    let mut m = Mutex::new();
    assert!(!m.is_locked_exclusive());
    {
        m.lock_exclusive();
        assert!(m.is_locked_exclusive());
        m.unlock_exclusive();
    }
    assert!(!m.is_locked_exclusive());
}

#[test]
fn fresh_mutex_has_one_handle() {
    let m = Mutex::new();
    assert_eq!(m.get_ref_count(), 1);
    assert!(!m.is_locked());
}

#[test]
fn try_lock_takes_a_free_lock() {
    let mut m = Mutex::new();
    assert!(m.try_lock_exclusive());
    assert!(m.is_locked_exclusive());
    // a second attempt fails while the lock is held
    assert!(!m.try_lock_exclusive());
    m.unlock_exclusive();
    assert!(m.try_lock_exclusive());
    m.unlock_exclusive();
}

#[test]
fn exclusive_excludes_group_mode() {
    let mut m = Mutex::new();
    m.lock_exclusive();
    assert!(m.is_locked_exclusive());
    assert!(!m.is_locked_group());
    m.unlock_exclusive();
    assert!(!m.is_locked());
}

#[test]
fn group_holders_stack_up() {
    let mut m = Mutex::new();
    // two group entrants hold the lock together: the mode is not exclusive
    m.lock_group();
    m.lock_group();
    assert!(m.is_locked_group());
    assert!(!m.try_lock_exclusive());
    // one release keeps the batch alive
    m.unlock_group();
    assert!(m.is_locked_group());
    assert!(!m.try_lock_exclusive());
    // draining the counter frees the lock for an exclusive taker
    m.unlock_group();
    assert!(!m.is_locked_group());
    assert!(m.try_lock_exclusive());
    m.unlock_exclusive();
}

#[test]
fn unlock_all_group_drains_the_batch() {
    let mut m = Mutex::new();
    m.lock_group();
    m.lock_group();
    m.lock_group();
    assert!(m.is_locked_group());
    m.unlock_all_group();
    assert!(!m.is_locked_group());
    assert!(m.try_lock_exclusive());
    m.unlock_exclusive();
}

#[test]
fn contended_exclusive_parks_and_is_woken() {
    let mut m = Mutex::new();
    m.lock_exclusive();

    // a second logical thread spins, then parks itself
    let mut b = Backoff::new();
    let mut parked = false;
    while !parked {
        let was_completed = b.is_completed();
        let step = m.lock_exclusive_step(7, &mut b);
        assert!(step == LockStep::Waiting);
        if was_completed {
            parked = true;
        }
    }
    assert_eq!(m.parked_exclusive(), 1);

    // the release wakes it, and its next attempt succeeds
    m.unlock_exclusive();
    assert_eq!(m.parked_exclusive(), 0);
    let step = m.lock_exclusive_step(7, &mut b);
    assert!(step == LockStep::Acquired);
    assert!(m.is_locked_exclusive());
    m.unlock_exclusive();
}

#[test]
fn contended_group_parks_and_is_woken() {
    let mut m = Mutex::new();
    m.lock_exclusive();

    // a second logical thread announces a group entry, then parks
    m.lock_group_enter();
    let mut b = Backoff::new();
    let mut parked = false;
    while !parked {
        let was_completed = b.is_completed();
        let step = m.lock_group_step(9, &mut b);
        assert!(step == LockStep::Waiting);
        if was_completed {
            parked = true;
        }
    }
    assert_eq!(m.parked_group(), 1);

    // an exclusive release wakes group waiters first
    m.unlock_exclusive();
    assert_eq!(m.parked_group(), 0);
    let step = m.lock_group_step(9, &mut b);
    assert!(step == LockStep::Acquired);
    assert!(m.is_locked_group());
    m.unlock_group();
    assert!(!m.is_locked());
}

#[test]
fn group_release_wakes_exclusive_waiter_first() {
    let mut m = Mutex::new();
    m.lock_group();

    // an exclusive contender parks behind the group batch
    let mut b = Backoff::new();
    let mut parked = false;
    while !parked {
        let was_completed = b.is_completed();
        let step = m.lock_exclusive_step(3, &mut b);
        assert!(step == LockStep::Waiting);
        if was_completed {
            parked = true;
        }
    }
    assert_eq!(m.parked_exclusive(), 1);

    // the last group release prefers the queued exclusive waiter
    m.unlock_group();
    assert_eq!(m.parked_exclusive(), 0);
    let step = m.lock_exclusive_step(3, &mut b);
    assert!(step == LockStep::Acquired);
    m.unlock_exclusive();
}
