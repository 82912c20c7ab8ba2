//! The retry policy of the re-enumerating backends: a single failed
//! enumeration is transient and retried on the next trigger, but once
//! consecutive failures pass the backend's ceiling the condition is treated
//! as a fatal resource failure, because the watcher can no longer claim its
//! view converges.

use vstd::prelude::*;

verus! {

/// Counts consecutive enumeration failures against a fixed ceiling.
#[derive(Clone, Copy, Debug)]
pub struct RetryPolicy {
    failures: u32,
    ceiling: u32,
}

impl RetryPolicy {
    /// How many enumeration attempts in a row have failed.
    pub closed spec fn failures(&self) -> u32 {
        self.failures
    }

    /// How many consecutive failures are tolerated before the condition
    /// becomes fatal.
    pub closed spec fn ceiling(&self) -> u32 {
        self.ceiling
    }

    /// A fresh policy: nothing has failed yet.
    pub fn new(ceiling: u32) -> (r: RetryPolicy)
        ensures
            r.failures() == 0,
            r.ceiling() == ceiling,
    {
        RetryPolicy { failures: 0, ceiling }
    }

    /// Records one failed enumeration. Returns whether the failure run has
    /// now passed the ceiling, so the backend must fail the watcher instead
    /// of retrying. The count saturates rather than wrapping.
    pub fn record_failure(&mut self) -> (fatal: bool)
        ensures
            final(self).ceiling() == old(self).ceiling(),
            old(self).failures() < u32::MAX ==> final(self).failures() == old(self).failures() + 1,
            old(self).failures() == u32::MAX ==> final(self).failures() == old(self).failures(),
            fatal == (final(self).failures() > final(self).ceiling()),
    {
        if self.failures < u32::MAX {
            self.failures = self.failures + 1;
        }
        self.failures > self.ceiling
    }

    /// Records one successful enumeration: the failure run is over.
    pub fn record_success(&mut self)
        ensures
            final(self).ceiling() == old(self).ceiling(),
            final(self).failures() == 0,
    {
        self.failures = 0;
    }
}

} // verus!
