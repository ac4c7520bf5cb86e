//! The timing of the resync loop's full sweeps: the first one at the configured
//! time of day, then one per interval, and a failed sweep retried after a backoff
//! that doubles up to its cap.
use vstd::prelude::*;
use crate::runtime::IrohRuntimeConfig;
use crate::transport::{full_sweep_delay, initial_full_sweep_delay};

verus! {

/// The longest sleep of a loop with nothing scheduled: a year, in milliseconds.
pub const EMPTY_RESYNC_SLEEP_MS: u64 = 31536000000;

/// A backoff of at least one millisecond.
pub open spec fn at_least_one(ms: u64) -> u64 {
    if ms == 0 { 1 } else { ms }
}

/// The smaller of two times.
pub open spec fn min_ms(a: u64, b: u64) -> u64 {
    if a <= b { a } else { b }
}

/// The sum of two times, held at the largest one when it overflows.
pub open spec fn saturating_add_ms(a: u64, b: u64) -> u64 {
    if a + b > u64::MAX { u64::MAX } else { (a + b) as u64 }
}

/// The state of the full-sweep timer: whether the startup sweep is still the one
/// running or awaited, whether a failed sweep waits for its retry, and the backoff
/// the next failure waits.
#[derive(Clone, Copy, Debug)]
pub struct SweepTimer {
    pub startup: bool,
    pub pending: bool,
    pub backoff_ms: u64,
}

/// Whether the timer holds a backoff between one millisecond and its cap.
pub open spec fn backoff_ok(t: SweepTimer, config: IrohRuntimeConfig) -> bool {
    1 <= t.backoff_ms <= if config.resync_initial_backoff_ms <= at_least_one(config.resync_max_backoff_ms) {
        at_least_one(config.resync_max_backoff_ms)
    } else {
        at_least_one(config.resync_initial_backoff_ms)
    }
}

impl SweepTimer {
    /// The timer when the loop starts: the startup sweep runs first, and a failure
    /// waits the initial backoff.
    pub fn new(config: &IrohRuntimeConfig) -> (r: SweepTimer)
        ensures
            r.startup,
            !r.pending,
            r.backoff_ms == at_least_one(config.resync_initial_backoff_ms),
            backoff_ok(r, *config),
    {
        SweepTimer {
            startup: true,
            pending: false,
            backoff_ms: if config.resync_initial_backoff_ms == 0 { 1 } else { config.resync_initial_backoff_ms },
        }
    }

    /// Whether a full sweep may start once its deadline passes: none is running, and
    /// a failed one waits for its retry or sweeps run on an interval.
    pub fn may_sweep(&self, sweep_running: bool, config: &IrohRuntimeConfig) -> (r: bool)
        ensures r == (!sweep_running && (self.pending || config.full_sweep_interval_ms != 0)),
    {
        !sweep_running && (self.pending || config.full_sweep_interval_ms != 0)
    }

    /// A sweep finished at `now_ms` (`now_secs` in whole seconds), failed or not;
    /// returns the deadline of the next one. A failure retries after the backoff,
    /// doubled first unless it was the startup sweep, up to the cap; a success
    /// resets the backoff and waits the interval, or, after the startup sweep, until
    /// the configured time of day.
    pub fn next_sweep(&mut self, failed: bool, now_ms: u64, now_secs: u64, config: &IrohRuntimeConfig) -> (r: u64)
        ensures
            !final(self).startup,
            final(self).pending == failed,
            failed && old(self).startup ==> final(self).backoff_ms == old(self).backoff_ms,
            failed && !old(self).startup ==> final(self).backoff_ms
                == min_ms(saturating_add_ms(old(self).backoff_ms, old(self).backoff_ms), at_least_one(config.resync_max_backoff_ms)),
            failed ==> r == saturating_add_ms(now_ms, final(self).backoff_ms),
            !failed ==> final(self).backoff_ms == at_least_one(config.resync_initial_backoff_ms),
            !failed && old(self).startup ==> r == saturating_add_ms(now_ms,
                full_sweep_delay(config.full_sweep_interval_ms, config.full_sweep_time_of_day_ms, now_secs) as u64),
            !failed && !old(self).startup ==> r == saturating_add_ms(now_ms, config.full_sweep_interval_ms),
            backoff_ok(*old(self), *config) ==> backoff_ok(*final(self), *config),
    {
        self.pending = failed;
        let deadline = if failed {
            if !self.startup {
                let doubled = self.backoff_ms.saturating_add(self.backoff_ms);
                let cap = if config.resync_max_backoff_ms == 0 { 1 } else { config.resync_max_backoff_ms };
                self.backoff_ms = if doubled <= cap { doubled } else { cap };
            }
            now_ms.saturating_add(self.backoff_ms)
        } else {
            self.backoff_ms = if config.resync_initial_backoff_ms == 0 { 1 } else { config.resync_initial_backoff_ms };
            if self.startup {
                let delay = initial_full_sweep_delay(config.full_sweep_interval_ms, config.full_sweep_time_of_day_ms, now_secs);
                now_ms.saturating_add(delay)
            } else {
                now_ms.saturating_add(config.full_sweep_interval_ms)
            }
        };
        self.startup = false;
        deadline
    }
}

} // verus!
