//! A user-space lock with two compatible-but-mutually-exclusive modes.
//!
//! One shared state word moves between four values: [`UNLOCKED`], [`LOCKED`]
//! (one exclusive holder), [`LOCKED_GROUP`] (any number of group holders,
//! counted by a group counter), and [`DIRTY`] (no holder, but the group
//! counter has not yet drained to zero for every entrant).  Exclusive
//! acquisition is permitted from `UNLOCKED`, or from `DIRTY` once the group
//! counter is provably zero; group acquisition is permitted from every state
//! but `LOCKED`.
//!
//! Contended acquisition is spin-then-park: a caller retries with a
//! [`Backoff`], and once that completes it enqueues itself on one of two
//! parking queues (one per mode) and suspends.  Releases flip the state word
//! and then wake parked waiters: an exclusive release wakes a group waiter
//! first, a final group release wakes an exclusive waiter first, so a queued
//! exclusive waiter is not perpetually starved by a stream of group
//! acquisitions.  Queue manipulation is guarded by a short-lived single-bit
//! guard against a lost wakeup between enqueue and wake.
//!
//! The lock is modelled as this state machine.  Suspending and waking a real
//! thread are the scheduler's work: here, a parked waiter is an entry on a
//! parking queue, waking removes it, and the caller drives each logical
//! thread through [`Mutex::lock_exclusive_step`] and
//! [`Mutex::lock_group_step`].  Two ghost counters track how many callers are
//! inside a critical section of each mode; the invariant [`inv`] ties them to
//! the state word, and the laws at the end of the module state mutual
//! exclusion and group concurrency over them.

use vstd::prelude::*;

use crate::atomic_vec::AtomicVec;
use crate::backoff::Backoff;

verus! {

/// No holder, group counter drained.
pub const UNLOCKED: u8 = 0;

/// One exclusive holder.
pub const LOCKED: u8 = 1;

/// Group mode: holders counted by the group counter.
pub const LOCKED_GROUP: u8 = 3;

/// No holder, but the group counter has not drained to zero: a caller
/// already counted as entering the group may still join, and an exclusive
/// acquisition must wait for the counter.
pub const DIRTY: u8 = 4;

/// Which of the two modes an operation concerns.
enum MutexType {
    Exclusive,
    Group,
}

/// The outcome of one iteration of a contended acquisition loop.
#[derive(PartialEq, Eq, Structural)]
pub enum LockStep {
    /// The lock was acquired; the caller is inside its critical section.
    Acquired,
    /// The lock was not available; the caller backed off or parked itself.
    Waiting,
}

/// The lock's abstract state.
pub ghost struct LockView {
    /// The shared state word.
    pub state: u8,
    /// The group counter: callers that have entered the group (announced a
    /// group acquisition) and not yet released it.
    pub locked: int,
    /// Parked exclusive waiters, in arrival order.
    pub parking_e: Seq<u64>,
    /// Parked group waiters, in arrival order.
    pub parking_g: Seq<u64>,
    /// The single-bit guard around parking-queue manipulation.
    pub busy: bool,
    /// How many handles share the lock.  A single owner holds exactly one.
    pub ref_count: int,
    /// How many callers are inside an exclusive critical section.
    pub inside_e: int,
    /// How many callers are inside a group critical section.
    pub inside_g: int,
}

/// The lock invariant: the ghost section counters agree with the state word.
pub open spec fn inv(v: LockView) -> bool {
    &&& v.state == UNLOCKED || v.state == LOCKED || v.state == LOCKED_GROUP || v.state == DIRTY
    &&& v.inside_e == if v.state == LOCKED {
        1int
    } else {
        0int
    }
    &&& 0 <= v.inside_g <= v.locked
    &&& v.inside_g > 0 ==> v.state == LOCKED_GROUP
    &&& !v.busy
    &&& v.ref_count >= 1
}

/// Exclusive acquisition can succeed: no holder, and the group counter is
/// drained.
pub open spec fn exclusive_acquirable(v: LockView) -> bool {
    v.state == UNLOCKED || (v.state == DIRTY && v.locked == 0)
}

/// Group acquisition can succeed: every state but an exclusive holder.
pub open spec fn group_acquirable(v: LockView) -> bool {
    v.state != LOCKED
}

/// The lock is held in some mode: what [`Mutex::is_locked`] reports.
pub open spec fn locked_any(v: LockView) -> bool {
    v.state == LOCKED_GROUP || (v.state == DIRTY && v.locked > 0) || !exclusive_acquirable(v)
}

/// A queue after one waiter is woken: the head leaves, or nothing changes
/// when nobody is parked.
pub open spec fn wake_one(q: Seq<u64>) -> Seq<u64> {
    if q.len() > 0 {
        q.skip(1)
    } else {
        q
    }
}

/// How a successful exclusive acquisition changes the lock.
pub open spec fn lock_exclusive_tr(pre: LockView, post: LockView) -> bool {
    post == (LockView { state: LOCKED, inside_e: 1, ..pre })
}

/// How a successful group acquisition changes the lock: the caller is
/// counted into the group and into its critical section, and parked group
/// waiters are woken so they can join the batch — all of them when the
/// batch is fresh, one when the caller joined an in-flight batch.
pub open spec fn lock_group_tr(pre: LockView, post: LockView) -> bool {
    &&& post.state == LOCKED_GROUP
    &&& post.locked == pre.locked + 1
    &&& post.inside_g == pre.inside_g + 1
    &&& post.inside_e == pre.inside_e
    &&& post.parking_e == pre.parking_e
    &&& post.parking_g == if pre.state == LOCKED_GROUP {
        wake_one(pre.parking_g)
    } else {
        Seq::<u64>::empty()
    }
    &&& post.busy == pre.busy
    &&& post.ref_count == pre.ref_count
}

/// How an exclusive release changes the lock: the state word returns to
/// `UNLOCKED`, then one group waiter is woken, or one exclusive waiter when
/// no group waiter is parked.
pub open spec fn unlock_exclusive_tr(pre: LockView, post: LockView) -> bool {
    &&& post.state == UNLOCKED
    &&& post.locked == pre.locked
    &&& post.inside_e == 0
    &&& post.inside_g == pre.inside_g
    &&& post.busy == pre.busy
    &&& post.ref_count == pre.ref_count
    &&& if pre.parking_g.len() > 0 {
        post.parking_g == pre.parking_g.skip(1) && post.parking_e == pre.parking_e
    } else {
        post.parking_g == pre.parking_g && post.parking_e == wake_one(pre.parking_e)
    }
}

/// How a group release changes the lock: the group counter goes down by one;
/// when it drains, the state word turns `DIRTY` and one exclusive waiter is
/// woken, or one group waiter when no exclusive waiter is parked.
pub open spec fn unlock_group_tr(pre: LockView, post: LockView) -> bool {
    &&& post.locked == pre.locked - 1
    &&& post.inside_g == pre.inside_g - 1
    &&& post.inside_e == pre.inside_e
    &&& post.busy == pre.busy
    &&& post.ref_count == pre.ref_count
    &&& if pre.locked == 1 {
        &&& post.state == DIRTY
        &&& if pre.parking_e.len() > 0 {
            post.parking_e == pre.parking_e.skip(1) && post.parking_g == pre.parking_g
        } else {
            post.parking_e == pre.parking_e && post.parking_g == wake_one(pre.parking_g)
        }
    } else {
        &&& post.state == pre.state
        &&& post.parking_e == pre.parking_e
        &&& post.parking_g == pre.parking_g
    }
}

/// The lock after an exclusive release: the deterministic form of
/// [`unlock_exclusive_tr`].
pub open spec fn unlock_exclusive_post(pre: LockView) -> LockView {
    if pre.parking_g.len() > 0 {
        LockView { state: UNLOCKED, inside_e: 0, parking_g: pre.parking_g.skip(1), ..pre }
    } else {
        LockView { state: UNLOCKED, inside_e: 0, parking_e: wake_one(pre.parking_e), ..pre }
    }
}

/// The view of a fresh, unlocked lock held by one handle.
pub open spec fn unlocked_lock_view() -> LockView {
    LockView {
        state: UNLOCKED,
        locked: 0,
        parking_e: Seq::<u64>::empty(),
        parking_g: Seq::<u64>::empty(),
        busy: false,
        ref_count: 1,
        inside_e: 0,
        inside_g: 0,
    }
}

/// A user-space lock with exclusive and group modes and spin-then-park
/// blocking.
pub struct Mutex {
    state: u8,
    locked: usize,
    parking_e: AtomicVec<u64>,
    parking_g: AtomicVec<u64>,
    wake_deadlock: bool,
    ref_count: usize,
    inside_e: Ghost<int>,
    inside_g: Ghost<int>,
}

impl View for Mutex {
    type V = LockView;

    closed spec fn view(&self) -> LockView {
        LockView {
            state: self.state,
            locked: self.locked as int,
            parking_e: self.parking_e@,
            parking_g: self.parking_g@,
            busy: self.wake_deadlock,
            ref_count: self.ref_count as int,
            inside_e: self.inside_e@,
            inside_g: self.inside_g@,
        }
    }
}

impl Mutex {
    /// The parking queues are in their resting state.
    pub closed spec fn queues_wf(&self) -> bool {
        self.parking_e.wf() && self.parking_g.wf()
    }

    /// The lock is well formed: the invariant holds and the parking queues
    /// are in their resting state.
    pub open spec fn wf(&self) -> bool {
        inv(self@) && self.queues_wf()
    }

    /// Creates a fresh, unlocked lock held by one handle.
    pub fn new() -> (m: Mutex)
        ensures
            m.wf(),
            m@ == unlocked_lock_view(),
    {
        Mutex {
            state: UNLOCKED,
            locked: 0,
            parking_e: AtomicVec::new(),
            parking_g: AtomicVec::new(),
            wake_deadlock: false,
            ref_count: 1,
            inside_e: Ghost(0),
            inside_g: Ghost(0),
        }
    }

    /// How many handles share the lock.
    pub fn get_ref_count(&self) -> (n: usize)
        ensures
            n == self@.ref_count,
    {
        self.ref_count
    }

    /// Tests the state word without writing, up to `n` times, and returns it
    /// as soon as it shows `UNLOCKED` or `DIRTY` or the budget runs out.
    fn spin(&self, n: i32) -> (s: u8)
        ensures
            s == self@.state,
    {
        let mut budget: i32 = if n >= 0 {
            n
        } else {
            0
        };
        loop
            invariant
                budget >= 0,
            decreases budget,
        {
            let s = self.state;
            if s == UNLOCKED || s == DIRTY || budget <= 0 {
                return s;
            }
            budget = budget - 1;
        }
    }

    /// Parks a waiter: under the single-bit guard, enqueues `tid` on the
    /// parking queue of its mode.  Suspending the caller's thread until a
    /// release wakes it is the scheduler's work.  Returns `false` without
    /// parking when the guard is contended, in which case the caller retries
    /// its acquisition loop.
    fn suspend(&mut self, t: MutexType, tid: u64) -> (parked: bool)
        requires
            old(self).wf(),
        ensures
            final(self).wf(),
            parked,
            final(self)@ == (match t {
                MutexType::Exclusive => LockView {
                    parking_e: old(self)@.parking_e.push(tid),
                    ..old(self)@
                },
                MutexType::Group => LockView { parking_g: old(self)@.parking_g.push(tid), ..old(self)@ },
            }),
    {
        if self.wake_deadlock {
            return false;
        }
        self.wake_deadlock = true;
        match t {
            MutexType::Exclusive => self.parking_e.push(tid),
            MutexType::Group => self.parking_g.push(tid),
        }
        self.wake_deadlock = false;
        true
    }

    /// Wakes one parked waiter of the given mode: under the single-bit
    /// guard, removes the head of its parking queue.  Returns whether a
    /// waiter was woken.
    fn wake(&mut self, t: MutexType) -> (woke: bool)
        requires
            old(self).queues_wf(),
            !old(self)@.busy,
        ensures
            final(self).queues_wf(),
            final(self)@ == (match t {
                MutexType::Exclusive => LockView {
                    parking_e: wake_one(old(self)@.parking_e),
                    ..old(self)@
                },
                MutexType::Group => LockView { parking_g: wake_one(old(self)@.parking_g), ..old(self)@ },
            }),
            woke == (match t {
                MutexType::Exclusive => old(self)@.parking_e.len() > 0,
                MutexType::Group => old(self)@.parking_g.len() > 0,
            }),
    {
        self.wake_deadlock = true;
        let popped = match t {
            MutexType::Exclusive => self.parking_e.pop(),
            MutexType::Group => self.parking_g.pop(),
        };
        self.wake_deadlock = false;
        popped.is_some()
    }

    /// Wakes every parked waiter of the given mode: drains its parking
    /// queue.
    fn wake_all(&mut self, t: MutexType)
        requires
            old(self).queues_wf(),
            !old(self)@.busy,
        ensures
            final(self).queues_wf(),
            final(self)@ == (match t {
                MutexType::Exclusive => LockView {
                    parking_e: Seq::<u64>::empty(),
                    ..old(self)@
                },
                MutexType::Group => LockView { parking_g: Seq::<u64>::empty(), ..old(self)@ },
            }),
    {
        self.wake_deadlock = true;
        match t {
            MutexType::Exclusive => {
                let mut more = true;
                while more
                    invariant
                        self.queues_wf(),
                        self@ == (LockView {
                            parking_e: self@.parking_e,
                            busy: true,
                            ..old(self)@
                        }),
                        !more ==> self@.parking_e.len() == 0,
                    decreases self@.parking_e.len() + (if more {
                        1int
                    } else {
                        0int
                    }),
                {
                    more = self.parking_e.pop().is_some();
                }
                proof {
                    assert(self@.parking_e =~= Seq::<u64>::empty());
                }
            },
            MutexType::Group => {
                let mut more = true;
                while more
                    invariant
                        self.queues_wf(),
                        self@ == (LockView {
                            parking_g: self@.parking_g,
                            busy: true,
                            ..old(self)@
                        }),
                        !more ==> self@.parking_g.len() == 0,
                    decreases self@.parking_g.len() + (if more {
                        1int
                    } else {
                        0int
                    }),
                {
                    more = self.parking_g.pop().is_some();
                }
                proof {
                    assert(self@.parking_g =~= Seq::<u64>::empty());
                }
            },
        }
        self.wake_deadlock = false;
    }

    /// Acquires the lock exclusively on the fast path: no holder and a
    /// drained group counter, so the acquisition succeeds without waiting.
    /// A contended caller drives [`Mutex::lock_exclusive_step`] instead.
    pub fn lock_exclusive(&mut self)
        requires
            old(self).wf(),
            exclusive_acquirable(old(self)@),
        ensures
            final(self).wf(),
            lock_exclusive_tr(old(self)@, final(self)@),
    {
        // from UNLOCKED, or from DIRTY with a drained group counter, the
        // state word may turn LOCKED at once
        self.spin(10);
        self.state = LOCKED;
        proof {
            self.inside_e@ = 1;
        }
    }

    /// One iteration of a contended exclusive acquisition: test the state
    /// word, acquire when permitted, otherwise back off, and park once the
    /// backoff has completed.
    pub fn lock_exclusive_step(&mut self, tid: u64, backoff: &mut Backoff) -> (r: LockStep)
        requires
            old(self).wf(),
        ensures
            final(self).wf(),
            exclusive_acquirable(old(self)@) ==> r == LockStep::Acquired && lock_exclusive_tr(
                old(self)@,
                final(self)@,
            ) && *final(backoff) == *old(backoff),
            !exclusive_acquirable(old(self)@) ==> r == LockStep::Waiting && (if old(
                backoff,
            ).completed() {
                final(self)@ == (LockView {
                    parking_e: old(self)@.parking_e.push(tid),
                    ..old(self)@
                }) && *final(backoff) == *old(backoff)
            } else {
                final(self)@ == old(self)@ && final(backoff).step() == old(backoff).step() + 1
            }),
    {
        let s = self.spin(10);
        if s == UNLOCKED || (s == DIRTY && self.locked == 0) {
            self.state = LOCKED;
            proof {
                self.inside_e@ = 1;
            }
            return LockStep::Acquired;
        }
        if backoff.is_completed() {
            self.suspend(MutexType::Exclusive, tid);
        } else {
            backoff.snooze();
        }
        LockStep::Waiting
    }

    /// Acquires the lock in group mode on the fast path: no exclusive
    /// holder, so the caller enters the group and its critical section at
    /// once, waking parked group waiters to join the batch.  A caller facing
    /// an exclusive holder drives [`Mutex::lock_group_step`] instead.
    pub fn lock_group(&mut self)
        requires
            old(self).wf(),
            group_acquirable(old(self)@),
            old(self)@.locked < usize::MAX,
        ensures
            final(self).wf(),
            lock_group_tr(old(self)@, final(self)@),
    {
        // count the caller into the group before acquiring, so that it can
        // join an in-flight batch
        self.locked = self.locked + 1;
        let s = self.spin(10);
        if s == LOCKED_GROUP {
            // an in-flight batch is joined; one parked group waiter follows
            self.wake(MutexType::Group);
        } else {
            // a fresh batch begins; every parked group waiter joins it
            self.state = LOCKED_GROUP;
            self.wake_all(MutexType::Group);
        }
        proof {
            self.inside_g@ = self.inside_g@ + 1;
        }
    }

    /// One iteration of a contended group acquisition, for a caller already
    /// counted into the group by [`Mutex::lock_group_enter`]: acquire when no
    /// exclusive holder stands, otherwise back off, and park once the backoff
    /// has completed.
    pub fn lock_group_step(&mut self, tid: u64, backoff: &mut Backoff) -> (r: LockStep)
        requires
            old(self).wf(),
            old(self)@.locked > old(self)@.inside_g,
        ensures
            final(self).wf(),
            group_acquirable(old(self)@) ==> r == LockStep::Acquired && final(self)@ == (LockView {
                state: LOCKED_GROUP,
                inside_g: old(self)@.inside_g + 1,
                parking_g: if old(self)@.state == LOCKED_GROUP {
                    wake_one(old(self)@.parking_g)
                } else {
                    Seq::<u64>::empty()
                },
                ..old(self)@
            }) && *final(backoff) == *old(backoff),
            !group_acquirable(old(self)@) ==> r == LockStep::Waiting && (if old(
                backoff,
            ).completed() {
                final(self)@ == (LockView {
                    parking_g: old(self)@.parking_g.push(tid),
                    ..old(self)@
                }) && *final(backoff) == *old(backoff)
            } else {
                final(self)@ == old(self)@ && final(backoff).step() == old(backoff).step() + 1
            }),
    {
        let s = self.spin(10);
        if s == LOCKED_GROUP {
            // an in-flight batch is joined; one parked group waiter follows
            self.wake(MutexType::Group);
            proof {
                self.inside_g@ = self.inside_g@ + 1;
            }
            return LockStep::Acquired;
        } else if s == UNLOCKED || s == DIRTY {
            // a fresh batch begins; every parked group waiter joins it
            self.state = LOCKED_GROUP;
            self.wake_all(MutexType::Group);
            proof {
                self.inside_g@ = self.inside_g@ + 1;
            }
            return LockStep::Acquired;
        }
        if backoff.is_completed() {
            self.suspend(MutexType::Group, tid);
        } else {
            backoff.snooze();
        }
        LockStep::Waiting
    }

    /// Counts a caller into the group ahead of a contended acquisition, so
    /// that it can join an in-flight batch while driving
    /// [`Mutex::lock_group_step`].
    pub fn lock_group_enter(&mut self)
        requires
            old(self).wf(),
            old(self)@.locked < usize::MAX,
        ensures
            final(self).wf(),
            final(self)@ == (LockView { locked: old(self)@.locked + 1, ..old(self)@ }),
    {
        self.locked = self.locked + 1;
    }

    /// Returns `true` while the lock is held in group mode: the state word
    /// shows a group batch, or shows `DIRTY` with entrants still counted.
    pub fn is_locked_group(&self) -> (r: bool)
        ensures
            r == (self@.state == LOCKED_GROUP || (self@.state == DIRTY && self@.locked > 0)),
    {
        let state = self.state;
        state == LOCKED_GROUP || (state == DIRTY && self.locked > 0)
    }

    /// Returns `true` while the lock cannot be acquired exclusively: any
    /// state but `UNLOCKED`, or `DIRTY` with a drained group counter.
    pub fn is_locked_exclusive(&self) -> (r: bool)
        ensures
            r == !exclusive_acquirable(self@),
    {
        let state = self.state;
        !(state == UNLOCKED || (state == DIRTY && self.locked == 0))
    }

    /// Returns `true` while the lock is held in either mode.
    pub fn is_locked(&self) -> (r: bool)
        ensures
            r == locked_any(self@),
    {
        self.is_locked_group() || self.is_locked_exclusive()
    }

    /// Releases every group entrant at once: the group counter is forced
    /// down to zero, the state word turns `DIRTY`, and a waiter is woken —
    /// an exclusive one first, a group one when none is parked.
    pub fn unlock_all_group(&mut self)
        requires
            old(self).wf(),
            old(self)@.state == LOCKED_GROUP || old(self)@.state == DIRTY,
        ensures
            final(self).wf(),
            final(self)@.state == DIRTY,
            final(self)@.locked == 0,
            final(self)@.inside_g == 0,
            final(self)@.inside_e == old(self)@.inside_e,
            final(self)@.ref_count == old(self)@.ref_count,
            if old(self)@.parking_e.len() > 0 {
                final(self)@.parking_e == old(self)@.parking_e.skip(1) && final(self)@.parking_g
                    == old(self)@.parking_g
            } else {
                final(self)@.parking_e == old(self)@.parking_e && final(self)@.parking_g
                    == wake_one(old(self)@.parking_g)
            },
    {
        // force the counter down to zero in one step, then release as the
        // last group entrant would
        self.locked = 0;
        proof {
            self.inside_g@ = 0;
        }
        self.state = DIRTY;
        if !self.wake(MutexType::Exclusive) {
            self.wake(MutexType::Group);
        }
    }

    /// Releases one group entrant.  When the group counter drains to zero
    /// the state word turns `DIRTY` and a waiter is woken — an exclusive one
    /// first, a group one when none is parked.
    ///
    /// Releasing a lock that is not group-held is a contract violation and
    /// is excluded by the precondition; the runtime twin of this check fails
    /// loudly instead of corrupting the counter.
    pub fn unlock_group(&mut self)
        requires
            old(self).wf(),
            old(self)@.state == LOCKED_GROUP || old(self)@.state == DIRTY,
            old(self)@.locked >= 1,
            old(self)@.inside_g >= 1,
        ensures
            final(self).wf(),
            unlock_group_tr(old(self)@, final(self)@),
    {
        self.locked = self.locked - 1;
        proof {
            self.inside_g@ = self.inside_g@ - 1;
        }
        if self.locked == 0 {
            self.state = DIRTY;
            // a queued exclusive waiter goes first, so a stream of group
            // batches cannot starve it forever
            if !self.wake(MutexType::Exclusive) {
                self.wake(MutexType::Group);
            }
        }
    }

    /// Releases the exclusive holder: the state word returns to `UNLOCKED`
    /// and a waiter is woken — a group one first, an exclusive one when none
    /// is parked.
    ///
    /// Releasing a lock that is not exclusively held is a contract violation
    /// and is excluded by the precondition; the runtime twin of this check
    /// fails loudly instead of corrupting the state word.
    pub fn unlock_exclusive(&mut self)
        requires
            old(self).wf(),
            old(self)@.state == LOCKED,
        ensures
            final(self).wf(),
            unlock_exclusive_tr(old(self)@, final(self)@),
            final(self)@ == unlock_exclusive_post(old(self)@),
    {
        self.state = UNLOCKED;
        proof {
            self.inside_e@ = 0;
        }
        if !self.wake(MutexType::Group) {
            self.wake(MutexType::Exclusive);
        }
    }

    /// Attempts a non-blocking exclusive acquisition: succeeds exactly when
    /// no holder stands and the group counter is drained.
    pub fn try_lock_exclusive(&mut self) -> (r: bool)
        requires
            old(self).wf(),
        ensures
            final(self).wf(),
            r == exclusive_acquirable(old(self)@),
            r ==> lock_exclusive_tr(old(self)@, final(self)@),
            !r ==> final(self)@ == old(self)@,
    {
        if self.locked == 0 && self.state == DIRTY {
            self.state = LOCKED;
            proof {
                self.inside_e@ = 1;
            }
            return true;
        }
        if self.state == UNLOCKED {
            self.state = LOCKED;
            proof {
                self.inside_e@ = 1;
            }
            return true;
        }
        false
    }

    /// How many exclusive waiters are parked.
    pub fn parked_exclusive(&self) -> (n: usize)
        ensures
            n == self@.parking_e.len(),
    {
        self.parking_e.len()
    }

    /// How many group waiters are parked.
    pub fn parked_group(&self) -> (n: usize)
        ensures
            n == self@.parking_g.len(),
    {
        self.parking_g.len()
    }
}

/// Exclusivity: a well-formed lock never has two exclusive critical sections
/// open at once, and while one is open no further exclusive acquisition can
/// succeed.
pub proof fn lemma_exclusive_mutual_exclusion(v: LockView)
    requires
        inv(v),
    ensures
        v.inside_e <= 1,
        v.inside_e == 1 ==> !exclusive_acquirable(v),
{
}

/// Mutual exclusion across modes: while an exclusive section is open no
/// group section is, no group acquisition can succeed, and the other way
/// round.
pub proof fn lemma_modes_mutually_exclusive(v: LockView)
    requires
        inv(v),
    ensures
        v.inside_e > 0 ==> v.inside_g == 0,
        v.inside_g > 0 ==> v.inside_e == 0,
        v.inside_e > 0 ==> !group_acquirable(v),
        v.inside_g > 0 ==> !exclusive_acquirable(v),
{
}

/// Guard release: once an exclusive holder lets go of the lock, it is no
/// longer held in any mode, and a fresh exclusive acquisition can succeed.
pub proof fn lemma_release_frees(pre: LockView, post: LockView)
    requires
        inv(pre),
        pre.state == LOCKED,
        unlock_exclusive_tr(pre, post),
    ensures
        exclusive_acquirable(post),
        !locked_any(post),
        post.inside_e == 0,
{
}

/// Group concurrency: two group acquisitions on an unlocked lock, with no
/// exclusive contender, leave both callers inside their critical sections at
/// once — the group mode is not accidentally exclusive.
pub proof fn lemma_group_concurrency(v0: LockView, v1: LockView, v2: LockView)
    requires
        inv(v0),
        v0.state == UNLOCKED,
        lock_group_tr(v0, v1),
        lock_group_tr(v1, v2),
    ensures
        v2.inside_g == 2,
{
}

} // verus!
