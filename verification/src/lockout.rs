//! Per-allocation readers–writer mediator.
//!
//! Mutators that want to read a tracked value acquire a *shared warrant*,
//! which is a counted lease.  The collector scans a value only under an
//! *exclusive warrant*, which can be had exactly when no shared warrant is
//! outstanding.  In this model the exclusive lease is the collector's `&mut`
//! borrow of the whole state for the duration of a collection, so only the
//! shared count is stored; `exclusive_available` is the collector's
//! non-blocking exclusive acquisition test.

use vstd::prelude::*;

verus! {

/// The stored state of one lockout: the number of shared warrants currently
/// outstanding on the allocation it guards.
pub struct Lockout {
    pub shared_count: u64,
}

impl Lockout {
    pub fn new() -> (l: Lockout)
        ensures
            l.shared_count == 0,
    {
        Lockout { shared_count: 0 }
    }

    /// Take one more shared warrant.  Infallible: the exclusive lease only
    /// exists while the collector holds the whole state mutably, so a caller
    /// that can reach this lockout never waits.
    pub fn acquire_shared(&mut self)
        requires
            old(self).shared_count < u64::MAX,
        ensures
            final(self).shared_count == old(self).shared_count + 1,
    {
        self.shared_count = self.shared_count + 1;
    }

    /// Give one shared warrant back.
    pub fn release_shared(&mut self)
        requires
            old(self).shared_count > 0,
        ensures
            final(self).shared_count == old(self).shared_count - 1,
    {
        self.shared_count = self.shared_count - 1;
    }

    /// The collector's non-blocking exclusive acquisition: it succeeds
    /// exactly when no shared warrant is outstanding.
    pub fn exclusive_available(&self) -> (r: bool)
        ensures
            r == (self.shared_count == 0),
    {
        self.shared_count == 0
    }
}

} // verus!
