//! Search limits and a shared time controller: a stop flag that any holder
//! may set, a start time, an optional time limit and the node interval at
//! which a search looks at the clock.
use vstd::prelude::*;
use std::sync::atomic::{AtomicBool, AtomicU64, Ordering};
use std::sync::Arc;
use std::time::Duration;

verus! {

/// Relies on `SystemTime::elapsed` of `UNIX_EPOCH`: the wall-clock time
/// since the epoch (zero should the clock stand before it); nothing is
/// known of the value.
#[verifier::external_body]
fn since_epoch() -> Duration {
    std::time::UNIX_EPOCH.elapsed().unwrap_or(Duration::ZERO)
}

/// Relies on `Duration::as_millis`: the whole milliseconds of a duration,
/// the largest `u64` when they do not fit.
#[verifier::external_body]
fn duration_millis(d: Duration) -> u64 {
    u64::try_from(d.as_millis()).unwrap_or(u64::MAX)
}

/// Wall-clock milliseconds since the epoch.
fn now_millis() -> u64 {
    duration_millis(since_epoch())
}

/// Relies on `Duration::from_millis`: a duration of `ms` milliseconds.
#[verifier::external_body]
fn millis_duration(ms: u64) -> Duration {
    Duration::from_millis(ms)
}

/// The deadline rule: a clock started at `start_ms` (0 when not started)
/// has run out its limit of `limit_ms` milliseconds at `now_ms`.
pub fn deadline_passed(start_ms: u64, now_ms: u64, limit_ms: u64) -> (r: bool)
    ensures
        r == (start_ms != 0 && now_ms >= start_ms && now_ms - start_ms >= limit_ms),
{
    start_ms != 0 && now_ms >= start_ms && now_ms - start_ms >= limit_ms
}

/// Shared controller that tells a search when to stop. Clones share the
/// stop flag and the start time.
#[derive(Clone, Debug)]
pub struct TimeControl {
    stopped: Arc<AtomicBool>,
    started_ms: Arc<AtomicU64>,
    time_limit: Option<Duration>,
    check_interval: u64,
}

impl TimeControl {
    /// The node interval at which the clock is read.
    pub closed spec fn interval(&self) -> u64 {
        self.check_interval
    }

    /// Whether a time limit is set.
    pub closed spec fn has_limit(&self) -> bool {
        self.time_limit is Some
    }

    /// A controller with the given time limit (none for infinite), looking
    /// at the clock every 1024 nodes.
    pub fn new(time_limit: Option<Duration>) -> (r: TimeControl)
        ensures
            r.interval() == 1024,
            r.has_limit() == time_limit is Some,
    {
        TimeControl {
            stopped: Arc::new(AtomicBool::new(false)),
            started_ms: Arc::new(AtomicU64::new(0)),
            time_limit,
            check_interval: 1024,
        }
    }

    /// Start the clock and clear the stop flag.
    pub fn start(&self) {
        let now = now_millis();
        self.started_ms.store(now, Ordering::SeqCst);
        self.stopped.store(false, Ordering::SeqCst);
    }

    /// Ask every holder to stop.
    pub fn stop(&self) {
        self.stopped.store(true, Ordering::SeqCst);
    }

    /// Whether a stop has been asked for.
    pub fn is_stopped(&self) -> bool {
        self.stopped.load(Ordering::Relaxed)
    }

    /// Milliseconds since the clock was started, 0 when it was not.
    fn elapsed_millis(&self) -> u64 {
        let start = self.started_ms.load(Ordering::SeqCst);
        if start == 0 {
            return 0;
        }
        let now = now_millis();
        if now >= start {
            now - start
        } else {
            0
        }
    }

    /// Whether the search must stop: a stop was asked for, or the time
    /// limit has passed, in which case the stop flag is set too. Without a
    /// limit only the flag decides.
    pub fn check_time(&self) -> bool {
        if self.is_stopped() {
            return true;
        }
        if let Some(limit) = self.time_limit {
            let start = self.started_ms.load(Ordering::SeqCst);
            let now = now_millis();
            if deadline_passed(start, now, duration_millis(limit)) {
                self.stop();
                return true;
            }
        }
        false
    }

    /// Whether the clock is due to be read at this node count: every
    /// `check_interval` nodes.
    pub fn should_check_time(&self, nodes: u64) -> (r: bool)
        ensures
            self.interval() > 0 ==> r == (nodes % self.interval() == 0),
            self.interval() == 0 ==> r == (nodes == 0),
    {
        if self.check_interval == 0 {
            nodes == 0
        } else {
            nodes % self.check_interval == 0
        }
    }

    /// Time since the clock was started; zero when it was not.
    pub fn elapsed(&self) -> Duration {
        millis_duration(self.elapsed_millis())
    }

    /// Time left before the limit, zero once it has passed; `None` without
    /// a limit.
    pub fn remaining(&self) -> (r: Option<Duration>)
        ensures
            r is Some == self.has_limit(),
    {
        match self.time_limit {
            None => None,
            Some(limit) => {
                let lim = duration_millis(limit);
                let el = self.elapsed_millis();
                if el >= lim {
                    Some(millis_duration(0))
                } else {
                    Some(millis_duration(lim - el))
                }
            },
        }
    }
}

/// Limits of one search: a depth cap, an optional time per move and the
/// controller the search polls.
#[derive(Clone, Debug)]
pub struct SearchLimits {
    pub depth: u8,
    pub move_time: Option<Duration>,
    pub time_control: TimeControl,
}

impl SearchLimits {
    /// A depth cap and no time limit.
    pub fn depth(depth: u8) -> (r: SearchLimits)
        ensures
            r.depth == depth,
            r.move_time is None,
            !r.time_control.has_limit(),
    {
        SearchLimits { depth, move_time: None, time_control: TimeControl::new(None) }
    }

    /// A depth cap and a time limit.
    pub fn depth_and_time(depth: u8, move_time: Duration) -> (r: SearchLimits)
        ensures
            r.depth == depth,
            r.move_time == Some(move_time),
            r.time_control.has_limit(),
    {
        SearchLimits {
            depth,
            move_time: Some(move_time),
            time_control: TimeControl::new(Some(move_time)),
        }
    }

    /// A time limit and no depth cap (the largest depth).
    pub fn time(move_time: Duration) -> (r: SearchLimits)
        ensures
            r.depth == u8::MAX,
            r.move_time == Some(move_time),
            r.time_control.has_limit(),
    {
        SearchLimits {
            depth: u8::MAX,
            move_time: Some(move_time),
            time_control: TimeControl::new(Some(move_time)),
        }
    }

    /// Whether the search has been asked to stop.
    pub fn should_stop(&self) -> bool {
        self.time_control.is_stopped()
    }

    /// Start the controller's clock.
    pub fn start(&self) {
        self.time_control.start();
    }
}


impl Default for TimeControl {
    /// A controller without a time limit.
    fn default() -> (r: TimeControl)
        ensures
            !r.has_limit(),
            r.interval() == 1024,
    {
        TimeControl::new(None)
    }
}

impl Default for SearchLimits {
    /// A depth cap of 4 plies and no time limit.
    fn default() -> (r: SearchLimits)
        ensures
            r.depth == 4,
            r.move_time is None,
    {
        SearchLimits::depth(4)
    }
}

} // verus!
