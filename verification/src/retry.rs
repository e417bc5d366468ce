//! Connecting to a peer that may not listen yet.

use vstd::prelude::*;

verus! {

/// What to do after an attempt to connect failed.
#[derive(Clone, Copy, Debug, PartialEq, Eq, Structural)]
pub enum RetryStep {
    /// Wait, and try again.
    Wait,
    /// Report the failure.
    GiveUp,
}

/// Attempts to connect, up to a limit.
#[derive(Clone, Copy, Debug, PartialEq, Eq, Structural)]
pub struct Retries {
    /// How many attempts failed and were followed by a wait.
    pub attempts: u32,
    /// After how many waits to give up.
    pub limit: u32,
}

impl Retries {
    /// No attempt failed yet.
    pub fn new(limit: u32) -> (retries: Self)
        ensures
            retries == (Retries { attempts: 0, limit }),
    {
        Retries { attempts: 0, limit }
    }

    /// An attempt failed.
    pub fn failed(&mut self) -> (step: RetryStep)
        ensures
            step == (if old(self).attempts < old(self).limit {
                RetryStep::Wait
            } else {
                RetryStep::GiveUp
            }),
            final(self).limit == old(self).limit,
            final(self).attempts == (if old(self).attempts < old(self).limit {
                old(self).attempts + 1
            } else {
                old(self).attempts as int
            }),
    {
        if self.attempts < self.limit {
            self.attempts = self.attempts + 1;
            RetryStep::Wait
        } else {
            RetryStep::GiveUp
        }
    }
}

} // verus!
