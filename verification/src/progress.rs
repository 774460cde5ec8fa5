//! Shared run counters.
//!
//! Counters only grow during a run, except for the one-time seeding from a
//! persisted snapshot before the generator starts. Elapsed time is measured
//! by the caller that owns the clock; the counters themselves are plain
//! values.
use vstd::prelude::*;

verus! {

pub struct Progress {
    pub enqueued: i64,
    pub checked: i64,
    pub found: i64,
    pub total_planned: i64,
}

impl Progress {
    /// Fresh counters; a negative plan is clamped to zero (zero = uncapped).
    pub fn new(total_planned: i64) -> (r: Progress)
        ensures
            r.enqueued == 0,
            r.checked == 0,
            r.found == 0,
            r.total_planned == if total_planned > 0 {
                total_planned
            } else {
                0i64
            },
    {
        Progress {
            enqueued: 0,
            checked: 0,
            found: 0,
            total_planned: if total_planned > 0 {
                total_planned
            } else {
                0
            },
        }
    }

    /// One more candidate handed to the queue.
    pub fn inc_enqueued(&mut self)
        requires
            old(self).enqueued < i64::MAX,
        ensures
            final(self).enqueued == old(self).enqueued + 1,
            final(self).checked == old(self).checked,
            final(self).found == old(self).found,
            final(self).total_planned == old(self).total_planned,
    {
        self.enqueued = self.enqueued + 1;
    }

    /// One more probe completed, whatever its outcome.
    pub fn inc_checked(&mut self)
        requires
            old(self).checked < i64::MAX,
        ensures
            final(self).checked == old(self).checked + 1,
            final(self).enqueued == old(self).enqueued,
            final(self).found == old(self).found,
            final(self).total_planned == old(self).total_planned,
    {
        self.checked = self.checked + 1;
    }

    /// One more candidate that passed both checks.
    pub fn inc_found(&mut self)
        requires
            old(self).found < i64::MAX,
        ensures
            final(self).found == old(self).found + 1,
            final(self).enqueued == old(self).enqueued,
            final(self).checked == old(self).checked,
            final(self).total_planned == old(self).total_planned,
    {
        self.found = self.found + 1;
    }

    /// One consistent read of the three live counters.
    pub fn snapshot(&self) -> (r: (i64, i64, i64))
        ensures
            r.0 == self.enqueued,
            r.1 == self.checked,
            r.2 == self.found,
    {
        (self.enqueued, self.checked, self.found)
    }

    pub fn total_planned(&self) -> (r: i64)
        ensures
            r == self.total_planned,
    {
        self.total_planned
    }

    /// Seeds the counters from persisted state, once, before the generator
    /// starts; a negative plan is clamped to zero.
    pub fn set_initial(&mut self, enqueued: i64, checked: i64, found: i64, total_planned: i64)
        ensures
            final(self).enqueued == enqueued,
            final(self).checked == checked,
            final(self).found == found,
            final(self).total_planned == if total_planned > 0 {
                total_planned
            } else {
                0i64
            },
    {
        self.enqueued = enqueued;
        self.checked = checked;
        self.found = found;
        self.total_planned = if total_planned > 0 {
            total_planned
        } else {
            0
        };
    }
}

/// A one-way stop flag, set once and observed by every long-running loop.
pub struct ShutdownSignal {
    pub triggered: bool,
}

impl ShutdownSignal {
    pub fn new() -> (r: ShutdownSignal)
        ensures
            !r.triggered,
    {
        ShutdownSignal { triggered: false }
    }

    /// Requests shutdown; never unset again.
    pub fn trigger(&mut self)
        ensures
            final(self).triggered,
    {
        self.triggered = true;
    }

    pub fn is_triggered(&self) -> (r: bool)
        ensures
            r == self.triggered,
    {
        self.triggered
    }
}

} // verus!
