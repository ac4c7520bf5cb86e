//! Transport settings and the accounting a transport keeps: timeouts, shutdown
//! outcomes, and the bytes each class of work owns.
use vstd::prelude::*;

verus! {

/// How a transport shutdown ended.
#[derive(Clone, Copy, Debug, PartialEq, Eq, Structural)]
pub enum ShutdownOutcome {
    /// Every task the transport spawned has ended.
    Complete,
    /// Tasks were still running at the timeout.
    Incomplete { running: usize },
}

impl ShutdownOutcome {
    /// The outcome of a shutdown that found `running` tasks left at its deadline.
    pub fn after(running: usize) -> (r: ShutdownOutcome)
        ensures
            running == 0 ==> r == ShutdownOutcome::Complete,
            running > 0 ==> r == (ShutdownOutcome::Incomplete { running }),
    {
        if running == 0 { ShutdownOutcome::Complete } else { ShutdownOutcome::Incomplete { running } }
    }
}

/// Timeouts and intervals of the transport's background work, in milliseconds.
#[derive(Clone, Copy, Debug, PartialEq, Eq, Structural)]
pub struct IrohRuntimeConfig {
    pub connect_timeout_ms: u64,
    pub sync_io_timeout_ms: u64,
    pub resync_interval_ms: u64,
    pub resync_initial_backoff_ms: u64,
    pub resync_max_backoff_ms: u64,
    pub full_sweep_interval_ms: u64,
    pub full_sweep_time_of_day_ms: u64,
}

impl IrohRuntimeConfig {
    /// Thirty-second connect and I/O timeouts, resync every five seconds with a backoff
    /// from one second to ten minutes, and a daily full sweep at three o'clock.
    pub fn defaults() -> (r: IrohRuntimeConfig)
        ensures
            r.connect_timeout_ms == 30000,
            r.sync_io_timeout_ms == 30000,
            r.resync_interval_ms == 5000,
            r.resync_initial_backoff_ms == 1000,
            r.resync_max_backoff_ms == 600000,
            r.full_sweep_interval_ms == 86400000,
            r.full_sweep_time_of_day_ms == 10800000,
    {
        IrohRuntimeConfig {
            connect_timeout_ms: 30000,
            sync_io_timeout_ms: 30000,
            resync_interval_ms: 5000,
            resync_initial_backoff_ms: 1000,
            resync_max_backoff_ms: 600000,
            full_sweep_interval_ms: 86400000,
            full_sweep_time_of_day_ms: 10800000,
        }
    }
}

/// What a transport's owned bytes are held for.
#[derive(Clone, Copy, Debug, PartialEq, Eq, Structural)]
pub enum OwnedClass {
    /// Inbound frames with their decoded messages, until their storage job ends.
    Frames,
    /// Messages and replies a served stream retains until its reply is written.
    Session,
    /// Planned reply pages and encoding buffers, until written.
    Output,
    /// Responses of requester exchanges, until the caller drops them.
    Results,
}

/// Owned bytes by class, now and at their highest, and running storage jobs.
#[derive(Clone, Copy, Debug, PartialEq, Eq, Structural)]
pub struct OwnedBytes {
    pub frames: u64,
    pub session: u64,
    pub output: u64,
    pub results: u64,
    pub peak_frames: u64,
    pub peak_session: u64,
    pub peak_output: u64,
    pub peak_results: u64,
    /// Highest sum of all classes at one time.
    pub peak_total: u64,
    pub jobs: u64,
    pub peak_jobs: u64,
}

/// The bytes `b` holds for `class` now.
pub open spec fn current_of(b: OwnedBytes, class: OwnedClass) -> u64 {
    match class {
        OwnedClass::Frames => b.frames,
        OwnedClass::Session => b.session,
        OwnedClass::Output => b.output,
        OwnedClass::Results => b.results,
    }
}

/// The most bytes `b` held for `class` at once.
pub open spec fn peak_of(b: OwnedBytes, class: OwnedClass) -> u64 {
    match class {
        OwnedClass::Frames => b.peak_frames,
        OwnedClass::Session => b.peak_session,
        OwnedClass::Output => b.peak_output,
        OwnedClass::Results => b.peak_results,
    }
}

/// The sum `b` holds over all classes now.
pub open spec fn total_of(b: OwnedBytes) -> int {
    b.frames + b.session + b.output + b.results
}

/// Whether every peak of `b` is at least its current value.
pub open spec fn peaks_cover(b: OwnedBytes) -> bool {
    &&& b.peak_frames >= b.frames
    &&& b.peak_session >= b.session
    &&& b.peak_output >= b.output
    &&& b.peak_results >= b.results
    &&& b.peak_total >= (if total_of(b) > u64::MAX { u64::MAX as int } else { total_of(b) })
    &&& b.peak_jobs >= b.jobs
}

impl OwnedBytes {
    /// No bytes owned, no job run.
    pub fn new() -> (r: OwnedBytes)
        ensures
            forall|c: OwnedClass| current_of(r, c) == 0 && peak_of(r, c) == 0,
            r.peak_total == 0, r.jobs == 0, r.peak_jobs == 0,
    {
        OwnedBytes {
            frames: 0, session: 0, output: 0, results: 0,
            peak_frames: 0, peak_session: 0, peak_output: 0, peak_results: 0,
            peak_total: 0, jobs: 0, peak_jobs: 0,
        }
    }

    /// The bytes held for `class` now.
    pub fn current(&self, class: OwnedClass) -> (r: u64)
        ensures r == current_of(*self, class),
    {
        match class {
            OwnedClass::Frames => self.frames,
            OwnedClass::Session => self.session,
            OwnedClass::Output => self.output,
            OwnedClass::Results => self.results,
        }
    }

    /// Counts `bytes` more for `class`, raising its peak and the total peak; a count
    /// that would pass the largest value saturates there.
    pub fn count(&mut self, class: OwnedClass, bytes: u64)
        requires peaks_cover(*old(self)),
        ensures
            current_of(*final(self), class) == (if current_of(*old(self), class) + bytes > u64::MAX { u64::MAX as int }
                else { current_of(*old(self), class) + bytes }),
            forall|c: OwnedClass| c != class ==> current_of(*final(self), c) == current_of(*old(self), c),
            peaks_cover(*final(self)),
            final(self).jobs == old(self).jobs,
    {
        let cur = self.current(class);
        let next = if bytes > u64::MAX - cur { u64::MAX } else { cur + bytes };
        match class {
            OwnedClass::Frames => { self.frames = next; if next > self.peak_frames { self.peak_frames = next; } },
            OwnedClass::Session => { self.session = next; if next > self.peak_session { self.peak_session = next; } },
            OwnedClass::Output => { self.output = next; if next > self.peak_output { self.peak_output = next; } },
            OwnedClass::Results => { self.results = next; if next > self.peak_results { self.peak_results = next; } },
        }
        let a = self.frames as u128 + self.session as u128 + self.output as u128 + self.results as u128;
        let total: u64 = if a > u64::MAX as u128 { u64::MAX } else { a as u64 };
        if total > self.peak_total {
            self.peak_total = total;
        }
    }

    /// Releases `bytes` of `class`, never below zero.
    pub fn uncount(&mut self, class: OwnedClass, bytes: u64)
        requires peaks_cover(*old(self)),
        ensures
            current_of(*final(self), class) == (if current_of(*old(self), class) >= bytes {
                current_of(*old(self), class) - bytes } else { 0 }),
            forall|c: OwnedClass| c != class ==> current_of(*final(self), c) == current_of(*old(self), c),
            forall|c: OwnedClass| peak_of(*final(self), c) == peak_of(*old(self), c),
            final(self).peak_total == old(self).peak_total,
            peaks_cover(*final(self)),
    {
        let cur = self.current(class);
        let next = if cur >= bytes { cur - bytes } else { 0 };
        match class {
            OwnedClass::Frames => { self.frames = next; },
            OwnedClass::Session => { self.session = next; },
            OwnedClass::Output => { self.output = next; },
            OwnedClass::Results => { self.results = next; },
        }
    }

    /// Counts one more running storage job.
    pub fn start_job(&mut self)
        requires peaks_cover(*old(self)),
        ensures
            final(self).jobs == (if old(self).jobs == u64::MAX { u64::MAX } else { (old(self).jobs + 1) as u64 }),
            peaks_cover(*final(self)),
    {
        if self.jobs < u64::MAX {
            self.jobs = self.jobs + 1;
        }
        if self.jobs > self.peak_jobs {
            self.peak_jobs = self.jobs;
        }
    }

    /// Counts one running storage job less.
    pub fn end_job(&mut self)
        requires peaks_cover(*old(self)),
        ensures
            final(self).jobs == (if old(self).jobs == 0 { 0 } else { (old(self).jobs - 1) as u64 }),
            peaks_cover(*final(self)),
    {
        if self.jobs > 0 {
            self.jobs = self.jobs - 1;
        }
    }
}

} // verus!
