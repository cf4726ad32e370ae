//! Bounded retries of an operation on the host: a failed attempt is retried
//! after a pause until the limit of attempts is reached.

use vstd::prelude::*;

verus! {

/// The attempts made so far and the number allowed.
pub struct Retries {
    pub failures: usize,
    pub limit: usize,
}

/// What to do after a failed attempt.
#[derive(Clone, Debug, PartialEq, Eq)]
pub enum RetryDecision {
    /// Pause, then try again.
    RetryAfterPause,
    /// Stop and report the last failure as a timeout.
    GiveUp,
}

impl Retries {
    /// No attempt made yet, `limit` attempts allowed.
    pub fn new(limit: usize) -> (r: Retries)
        ensures
            r.failures == 0,
            r.limit == limit,
    {
        Retries { failures: 0, limit }
    }

    /// Records a failed attempt, which may only follow an attempt that was
    /// not given up. Gives up once `limit` attempts have failed, and after
    /// the first failure when `limit` is zero.
    pub fn on_failure(&mut self) -> (r: RetryDecision)
        requires
            old(self).failures < old(self).limit || old(self).failures == 0,
        ensures
            final(self).limit == old(self).limit,
            final(self).failures == old(self).failures + 1,
            (r is GiveUp) == (final(self).failures >= final(self).limit),
    {
        self.failures = self.failures + 1;
        if self.failures >= self.limit {
            RetryDecision::GiveUp
        } else {
            RetryDecision::RetryAfterPause
        }
    }
}

} // verus!
