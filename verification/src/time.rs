//! Timestamps as plain values: seconds since the Unix epoch together with
//! the local UTC offset that was in effect when the value was recorded.
//! The offset is inert data — it is kept so that persisted timestamps keep
//! their local-time meaning — while all comparisons and schedule arithmetic
//! go by the instant, that is, by `seconds` alone.

use vstd::prelude::*;

verus! {

pub const SECONDS_PER_MINUTE: i64 = 60;

pub const SECONDS_PER_HOUR: i64 = 3_600;

pub const SECONDS_PER_DAY: i64 = 86_400;

/// A point in time: seconds since the Unix epoch, plus the local UTC offset
/// (in seconds east of UTC) recorded with it.
#[derive(Clone, Copy, PartialEq, Eq, Structural, Debug)]
pub struct Timestamp {
    pub seconds: i64,
    pub offset_seconds: i32,
}

impl Timestamp {
    /// The same instant shifted forward by `delta` seconds, keeping the
    /// recorded offset.
    pub open spec fn spec_plus(self, delta: int) -> Timestamp {
        Timestamp { seconds: (self.seconds + delta) as i64, offset_seconds: self.offset_seconds }
    }

    pub fn plus_seconds(self, delta: i64) -> (r: Timestamp)
        requires
            i64::MIN <= self.seconds + delta <= i64::MAX,
        ensures
            r == self.spec_plus(delta as int),
            r.seconds == self.seconds + delta,
            r.offset_seconds == self.offset_seconds,
    {
        Timestamp { seconds: self.seconds + delta, offset_seconds: self.offset_seconds }
    }
}

/// The current local time, as an epoch second count and the local offset.
///
/// Relies on `chrono::Local::now`: `timestamp()` is the instant in whole
/// seconds since the Unix epoch, and `offset().local_minus_utc()` is the
/// local offset in seconds, which `chrono::FixedOffset` keeps strictly
/// between -86_400 and 86_400. Nothing more can be promised of the clock.
#[verifier::external_body]
pub fn local_now() -> (r: Timestamp)
    ensures
        -86_400 < r.offset_seconds < 86_400,
{
    let now = chrono::Local::now();
    Timestamp { seconds: now.timestamp(), offset_seconds: now.offset().local_minus_utc() }
}

} // verus!
