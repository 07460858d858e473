//! The environment: points in time, durations and the wall clock.

use core::time::Duration;
use vstd::prelude::*;

verus! {

/// The length of a `Duration` in nanoseconds, as `Duration::as_nanos` gives it.
pub uninterp spec fn duration_nanos(d: Duration) -> nat;

/// The length of a `Duration` in whole milliseconds.
pub open spec fn duration_millis(d: Duration) -> nat {
    duration_nanos(d) / 1_000_000
}

/// `Duration::as_nanos`: the total number of nanoseconds.
pub assume_specification[ Duration::as_nanos ](d: &Duration) -> (r: u128)
    ensures
        r as nat == duration_nanos(*d),
;

/// `Duration::as_millis`: the total number of whole milliseconds.
pub assume_specification[ Duration::as_millis ](d: &Duration) -> (r: u128)
    ensures
        r as nat == duration_millis(*d),
;

/// `Duration::from_millis`: a duration of that many milliseconds.
pub assume_specification[ Duration::from_millis ](millis: u64) -> (r: Duration)
    ensures
        duration_nanos(r) == millis * 1_000_000,
;

/// `Duration::from_secs`: a duration of that many seconds.
pub assume_specification[ Duration::from_secs ](secs: u64) -> (r: Duration)
    ensures
        duration_nanos(r) == secs * 1_000_000_000,
;

/// `Duration::saturating_sub`: the difference, or nothing where it would be negative.
pub assume_specification[ Duration::saturating_sub ](d: Duration, rhs: Duration) -> (r: Duration)
    ensures
        duration_nanos(r) == (if duration_nanos(d) >= duration_nanos(rhs) {
            (duration_nanos(d) - duration_nanos(rhs)) as nat
        } else {
            0
        }),
;

/// A point in time, in milliseconds since the Unix epoch.
#[derive(Clone, Copy, Debug, PartialEq, Eq, PartialOrd, Ord, Hash, Structural)]
pub struct Timestamp(pub i64);

/// The nearest integer that fits in `i64`.
pub open spec fn clamp(n: int) -> int {
    if n > i64::MAX {
        i64::MAX as int
    } else if n < i64::MIN {
        i64::MIN as int
    } else {
        n
    }
}

/// The length of `dur` in whole milliseconds, at most `i64::MAX`.
pub fn millis_i64(dur: Duration) -> (r: i64)
    ensures
        r == clamp(duration_millis(dur) as int),
        r >= 0,
{
    let ms: u128 = dur.as_millis();
    if ms > i64::MAX as u128 {
        i64::MAX
    } else {
        ms as i64
    }
}

/// `a + b`, or the nearest integer that fits.
pub fn add_clamped(a: i64, b: i64) -> (r: i64)
    ensures
        r == clamp(a + b),
{
    let n: i128 = a as i128 + b as i128;
    if n > i64::MAX as i128 {
        i64::MAX
    } else if n < i64::MIN as i128 {
        i64::MIN
    } else {
        n as i64
    }
}

/// `a - b`, or the nearest integer that fits.
pub fn sub_clamped(a: i64, b: i64) -> (r: i64)
    ensures
        r == clamp(a - b),
{
    let n: i128 = a as i128 - b as i128;
    if n > i64::MAX as i128 {
        i64::MAX
    } else if n < i64::MIN as i128 {
        i64::MIN
    } else {
        n as i64
    }
}

/// The milliseconds of a point in time that lies `millis` after `t`.
pub open spec fn later(t: int, millis: nat) -> int {
    clamp(t + clamp(millis as int))
}

impl Timestamp {
    /// The point in time that lies `ms` milliseconds after the Unix epoch.
    pub fn from_millis(ms: i64) -> (r: Self)
        ensures
            r.0 == ms,
    {
        Timestamp(ms)
    }

    /// Milliseconds since the Unix epoch.
    pub fn as_millis(self) -> (r: i64)
        ensures
            r == self.0,
    {
        self.0
    }

    /// `self + dur`, stopping at the last point in time instead of overflowing.
    pub fn saturating_add(self, dur: Duration) -> (r: Timestamp)
        ensures
            r.0 == later(self.0 as int, duration_millis(dur)),
    {
        Timestamp(add_clamped(self.0, millis_i64(dur)))
    }

    /// `self - dur`, stopping at the first point in time instead of overflowing.
    pub fn saturating_sub(self, dur: Duration) -> (r: Timestamp)
        ensures
            r.0 == clamp(self.0 - clamp(duration_millis(dur) as int)),
    {
        Timestamp(sub_clamped(self.0, millis_i64(dur)))
    }
}

/// Source of wall-clock time. The host provides one.
pub trait Clock {
    /// The current time.
    fn now(&self) -> Timestamp;
}

/// A time that the system clock gave, as `std::time` holds it.
#[verifier::external_type_specification]
#[verifier::external_body]
pub struct ExSystemTime(std::time::SystemTime);

/// `SystemTime::now`. Nothing is said of the time that it gives.
#[verifier::external_body]
fn system_time() -> std::time::SystemTime {
    std::time::SystemTime::now()
}

/// `SystemTime::duration_since` with the Unix epoch: how long before `t` that was, or
/// nothing where `t` is before it. What a time holds cannot be seen, so no more is said
/// of how long it is.
#[verifier::external_body]
fn since_epoch(t: std::time::SystemTime) -> Option<Duration> {
    t.duration_since(std::time::UNIX_EPOCH).ok()
}

/// What a clock reads that says how long ago the Unix epoch was. One that is set to a
/// time before the epoch reads zero.
pub open spec fn reading(elapsed: Option<Duration>) -> int {
    match elapsed {
        Some(d) => clamp(duration_millis(d) as int),
        None => 0,
    }
}

/// The reading of a clock that says how long ago the Unix epoch was.
pub fn clock_reading(elapsed: Option<Duration>) -> (r: Timestamp)
    ensures
        r.0 == reading(elapsed),
{
    match elapsed {
        Some(d) => Timestamp(millis_i64(d)),
        None => Timestamp(0),
    }
}

/// The system wall clock. Wall clock, not a monotonic one: expiry timestamps are
/// kept in files and have to stay meaningful across runs and machines.
#[derive(Clone, Copy, Debug, Default)]
pub struct SystemClock;

impl SystemClock {
    /// The system wall clock.
    pub fn new() -> (r: Self)
        ensures
            r == SystemClock,
    {
        SystemClock
    }

    /// Whether the time is the reading of what the system clock gave when it was asked.
    pub closed spec fn shows(self, t: Timestamp) -> bool {
        exists|at: std::time::SystemTime, elapsed: Option<Duration>|
            call_ensures(system_time, (), at) && #[trigger] call_ensures(
                since_epoch,
                (at,),
                elapsed,
            ) && t.0 == reading(elapsed)
    }
}

impl Clock for SystemClock {
    fn now(&self) -> (r: Timestamp)
        ensures
            self.shows(r),
            r.0 >= 0,
    {
        let at = system_time();
        let elapsed = since_epoch(at);
        clock_reading(elapsed)
    }
}

/// A timer that sleeps the current thread.
#[derive(Clone, Copy, Debug, Default)]
pub struct BlockingTimer;

impl BlockingTimer {
    /// The timer.
    pub fn new() -> (r: Self)
        ensures
            r == BlockingTimer,
    {
        BlockingTimer
    }

    /// Whether waiting for `dur` takes a sleep at all.
    pub fn needs_sleep(&self, dur: Duration) -> (r: bool)
        ensures
            r == (duration_nanos(dur) > 0),
    {
        dur.as_nanos() > 0
    }
}

} // verus!
