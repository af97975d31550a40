//! The decisions of a client worker: when to stop writing and wait for
//! responses, when to give up waiting, and how long a write may take.
use vstd::prelude::*;

verus! {

/// The shortest time that a write is given, in milliseconds.
pub const MIN_WRITE_TIMEOUT_MS: u64 = 5000;

/// How long a write of a batch may take: the configured timeout, but never
/// less than `MIN_WRITE_TIMEOUT_MS`.
pub fn write_timeout_ms(timeout_ms: u64) -> (r: u64)
    ensures
        r == if timeout_ms > MIN_WRITE_TIMEOUT_MS { timeout_ms } else { MIN_WRITE_TIMEOUT_MS },
{
    if timeout_ms > MIN_WRITE_TIMEOUT_MS {
        timeout_ms
    } else {
        MIN_WRITE_TIMEOUT_MS
    }
}

/// Whether a worker with `lag` unanswered requests must wait before it
/// writes the next batch.
pub fn must_pause(lag: usize, max_lag: usize) -> (r: bool)
    ensures
        r == (lag > max_lag),
{
    lag > max_lag
}

/// What a waiting worker does next.
#[derive(Debug, PartialEq, Eq, Structural)]
pub enum LagStep {
    /// The lag is back under the limit: write again.
    Resume,
    /// No response came for longer than the timeout: drop the connection.
    TimedOut,
    /// Keep waiting; `progress` says whether a response came, which starts
    /// the timeout anew.
    Wait { progress: bool },
}

/// A worker waiting for its lag to come down.
pub struct LagWatch {
    pub max_lag: usize,
    pub timeout_ms: u64,
    /// The smallest lag seen since the wait began.
    pub last_lag: usize,
}

impl LagWatch {
    /// Starts waiting with `lag` unanswered requests.
    pub fn start(max_lag: usize, timeout_ms: u64, lag: usize) -> (w: LagWatch)
        ensures
            w.max_lag == max_lag,
            w.timeout_ms == timeout_ms,
            w.last_lag == lag,
    {
        LagWatch { max_lag, timeout_ms, last_lag: lag }
    }

    /// One round of waiting: `lag` is the lag that decides whether to keep
    /// waiting, `elapsed_ms` the time since the last response, and
    /// `lag_again` the lag read once more to see whether a response came.
    pub fn step(&mut self, lag: usize, elapsed_ms: u64, lag_again: usize) -> (r: LagStep)
        ensures
            final(self).max_lag == old(self).max_lag,
            final(self).timeout_ms == old(self).timeout_ms,
            lag <= old(self).max_lag ==> r == LagStep::Resume && *final(self) == *old(self),
            lag > old(self).max_lag && elapsed_ms > old(self).timeout_ms ==> r == LagStep::TimedOut
                && *final(self) == *old(self),
            lag > old(self).max_lag && elapsed_ms <= old(self).timeout_ms ==> {
                &&& r == LagStep::Wait { progress: lag_again < old(self).last_lag }
                &&& final(self).last_lag == if lag_again < old(self).last_lag {
                    lag_again
                } else {
                    old(self).last_lag
                }
            },
    {
        if lag <= self.max_lag {
            return LagStep::Resume;
        }
        if elapsed_ms > self.timeout_ms {
            return LagStep::TimedOut;
        }
        if lag_again < self.last_lag {
            self.last_lag = lag_again;
            LagStep::Wait { progress: true }
        } else {
            LagStep::Wait { progress: false }
        }
    }
}

} // verus!
