//! Wall-clock stamps and signed high-resolution durations.
//!
//! A stamp is an unsigned `(secs, nsecs)` pair with one-nanosecond
//! resolution; internally all bookkeeping is done on a signed count of
//! nanoseconds since the epoch, which every stamp fits into.

use vstd::prelude::*;

verus! {

/// One thousand million: nanoseconds per second.
pub const NANOS_PER_SEC: u32 = 1_000_000_000;

/// A wall-clock time stamp as it appears on the wire: seconds and
/// nanoseconds since the epoch. `nsecs` is not required to be normalized
/// here; conversion to a [`Duration`] accounts for `nsecs >= NANOS_PER_SEC`.
#[derive(Clone, Copy, Debug, PartialEq, Eq, Structural)]
pub struct Time {
    pub secs: u32,
    pub nsecs: u32,
}

/// A signed duration since the epoch, in nanoseconds.
#[derive(Clone, Copy, Debug, PartialEq, Eq, Structural)]
pub struct Duration {
    pub nanos: i64,
}

impl Time {
    /// The total nanosecond count this stamp denotes.
    pub open spec fn spec_nanos(self) -> int {
        self.secs * (NANOS_PER_SEC as int) + self.nsecs
    }
}

impl Duration {
    /// Construct a duration from whole seconds and a nanosecond remainder.
    /// `None` when the count does not fit a signed 64-bit nanosecond total.
    pub fn new(secs: i64, nanos_rem: u32) -> (r: Option<Duration>)
        ensures
            r matches Some(d) ==> d.nanos == secs * (NANOS_PER_SEC as int) + nanos_rem,
            r is Some <==> i64::MIN as int <= secs * (NANOS_PER_SEC as int) && secs * (
            NANOS_PER_SEC as int) + nanos_rem <= i64::MAX as int,
    {
        match secs.checked_mul(NANOS_PER_SEC as i64) {
            None => None,
            Some(whole) => match whole.checked_add(nanos_rem as i64) {
                None => None,
                Some(n) => Some(Duration { nanos: n }),
            },
        }
    }

    /// Whether this duration is exactly zero.
    pub fn is_zero(&self) -> (r: bool)
        ensures
            r == (self.nanos == 0),
    {
        self.nanos == 0
    }
}

/// Build a stamp from seconds and nanoseconds.
pub fn to_stamp(secs: u32, nsecs: u32) -> (r: Time)
    ensures
        r.secs == secs,
        r.nsecs == nsecs,
{
    Time { secs, nsecs }
}

/// Total nanoseconds of a stamp; `nsecs` beyond a whole second carry over,
/// so un-normalized stamps convert to the instant they denote.
pub fn stamp_to_duration(stamp: &Time) -> (r: Duration)
    ensures
        r.nanos == stamp.spec_nanos(),
{
    proof {
        assert(stamp.secs * (NANOS_PER_SEC as int) + stamp.nsecs <= u32::MAX * (
        NANOS_PER_SEC as int) + u32::MAX) by (nonlinear_arith)
            requires
                stamp.secs <= u32::MAX,
                stamp.nsecs <= u32::MAX,
        ;
    }
    Duration { nanos: stamp.secs as i64 * NANOS_PER_SEC as i64 + stamp.nsecs as i64 }
}

/// Split a non-negative duration back into a normalized stamp.
pub fn duration_to_stamp(time: Duration) -> (r: Time)
    requires
        0 <= time.nanos,
        time.nanos as int / (NANOS_PER_SEC as int) <= u32::MAX,
    ensures
        r.secs == time.nanos as int / (NANOS_PER_SEC as int),
        r.nsecs == time.nanos as int % (NANOS_PER_SEC as int),
        r.spec_nanos() == time.nanos,
        r.nsecs < NANOS_PER_SEC,
{
    let secs = time.nanos / NANOS_PER_SEC as i64;
    let nsecs = time.nanos % NANOS_PER_SEC as i64;
    Time { secs: secs as u32, nsecs: nsecs as u32 }
}

impl Default for Time {
    /// The zero stamp.
    fn default() -> (r: Time)
        ensures
            r.secs == 0,
            r.nsecs == 0,
    {
        Time { secs: 0, nsecs: 0 }
    }
}

} // verus!
