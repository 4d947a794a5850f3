//! Policies that decide whether a failed connection attempt is tried again.
use std::ops::ControlFlow;
use std::time::Duration;
use vstd::prelude::*;

verus! {

/// Decides, after a number of failed attempts, whether to try once more and
/// after which delay (`Continue(delay)`), or to give up (`Break(())`).
pub trait RetryPolicy: Send + Sync {
    /// The decision taken after `attempts` failed attempts.
    spec fn decision(&self, attempts: usize) -> ControlFlow<(), Duration>;

    /// `attempts` counts the attempts already made.
    fn should_retry(&self, attempts: usize) -> (r: ControlFlow<(), Duration>)
        ensures
            r == self.decision(attempts),
    ;
}

/// The default policy: never try again.
pub struct NoRetry;

/// Try again up to a fixed number of times, always waiting the same delay.
pub struct Fixed {
    pub attempts: usize,
    pub delay: Duration,
}

impl Fixed {
    pub fn new(attempts: usize, delay: Duration) -> (r: Self)
        ensures
            r.attempts == attempts,
            r.delay == delay,
    {
        Self { attempts, delay }
    }
}

impl RetryPolicy for Fixed {
    open spec fn decision(&self, attempts: usize) -> ControlFlow<(), Duration> {
        if attempts <= self.attempts {
            ControlFlow::Continue(self.delay)
        } else {
            ControlFlow::Break(())
        }
    }

    fn should_retry(&self, attempts: usize) -> (r: ControlFlow<(), Duration>) {
        if attempts <= self.attempts {
            ControlFlow::Continue(self.delay)
        } else {
            ControlFlow::Break(())
        }
    }
}

impl RetryPolicy for NoRetry {
    open spec fn decision(&self, attempts: usize) -> ControlFlow<(), Duration> {
        ControlFlow::Break(())
    }

    fn should_retry(&self, attempts: usize) -> (r: ControlFlow<(), Duration>) {
        ControlFlow::Break(())
    }
}

} // verus!
