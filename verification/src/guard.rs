//! The health of the concurrency guard.  A reader/writer lock wraps
//! the store — many readers or one writer — and once a holder
//! terminated abnormally while holding it, the lock is permanently
//! degraded: every later operation fails fast until restart.
use vstd::prelude::*;

verus! {

#[derive(Clone, Copy, PartialEq, Eq, Structural, Debug)]
pub enum GuardState {
    Usable,
    Degraded,
}

/// Tracks whether the lock around the store can still be taken.  The
/// flag only ever moves from usable to degraded; there is no
/// self-healing.
pub struct Guard {
    state: GuardState,
}

impl Guard {
    pub closed spec fn is_usable(&self) -> bool {
        self.state == GuardState::Usable
    }

    pub fn new() -> (r: Guard)
        ensures
            r.is_usable(),
    {
        Guard { state: GuardState::Usable }
    }

    /// Whether operations may proceed.
    pub fn usable(&self) -> (r: bool)
        ensures
            r == self.is_usable(),
    {
        match self.state {
            GuardState::Usable => true,
            GuardState::Degraded => false,
        }
    }

    /// Records that a holder terminated abnormally while holding the
    /// lock.
    pub fn mark_degraded(&mut self)
        ensures
            !final(self).is_usable(),
    {
        self.state = GuardState::Degraded;
    }
}

} // verus!
