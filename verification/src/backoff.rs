//! Exponential backoff for spin loops.
//!
//! A `Backoff` counts how often a contended loop has retried.  While the step
//! is at most `SPIN_LIMIT` the caller should spin in place; up to
//! `YIELD_LIMIT` it should yield its timeslice; past that, blocking the
//! thread is advised.  The processor-level pause and the scheduler yield are
//! outside this model; what is verified is the step counter that drives the
//! spin-then-park decision.

use vstd::prelude::*;

verus! {

/// Steps up to this bound are spent spinning in place.
pub const SPIN_LIMIT: u32 = 6;

/// Steps up to this bound are spent yielding; past it, block instead.
pub const YIELD_LIMIT: u32 = 10;

/// Exponential backoff state for one contended loop.
pub struct Backoff {
    step: u32,
}

impl Backoff {
    /// How many retries this backoff has recorded.
    pub closed spec fn step(&self) -> u32 {
        self.step
    }

    /// Backing off has completed and blocking the thread is advised.
    pub open spec fn completed(&self) -> bool {
        self.step() > YIELD_LIMIT
    }

    /// Creates a new `Backoff` at step zero.
    pub fn new() -> (b: Backoff)
        ensures
            b.step() == 0,
    {
        Backoff { step: 0 }
    }

    /// Resets the backoff to step zero.
    pub fn reset(&mut self)
        ensures
            final(self).step() == 0,
    {
        self.step = 0;
    }

    /// Backs off in a lock-free loop: advances the step until it passes
    /// `SPIN_LIMIT`.
    pub fn spin(&mut self)
        ensures
            final(self).step() == if old(self).step() <= SPIN_LIMIT {
                old(self).step() + 1
            } else {
                old(self).step() as int
            },
    {
        if self.step <= SPIN_LIMIT {
            self.step = self.step + 1;
        }
    }

    /// Backs off in a blocking loop: advances the step until it passes
    /// `YIELD_LIMIT`, after which [`Backoff::is_completed`] advises parking.
    pub fn snooze(&mut self)
        ensures
            final(self).step() == if old(self).step() <= YIELD_LIMIT {
                old(self).step() + 1
            } else {
                old(self).step() as int
            },
    {
        if self.step <= YIELD_LIMIT {
            self.step = self.step + 1;
        }
    }

    /// Returns `true` when backing off has completed and blocking the thread
    /// is advised.
    pub fn is_completed(&self) -> (r: bool)
        ensures
            r == self.completed(),
    {
        self.step > YIELD_LIMIT
    }

    /// Returns `true` once the spinning threshold is passed and the backoff
    /// has moved on to yielding.
    pub fn is_yielding(&self) -> (r: bool)
        ensures
            r == (self.step() > SPIN_LIMIT),
    {
        self.step > SPIN_LIMIT
    }
}

impl Default for Backoff {
    /// A fresh backoff at step zero.
    fn default() -> (b: Backoff)
        ensures
            b.step() == 0,
    {
        Backoff::new()
    }
}

} // verus!
