//! Points in time.

use vstd::prelude::*;

verus! {

/// A point in time: whole seconds since 1970-01-01 00:00:00 UTC, and the
/// nanoseconds that have passed within that second. Instants are ordered by
/// their seconds, and by their nanoseconds where the seconds are equal.
#[derive(Clone, Copy, Debug, PartialEq, Eq, Structural, PartialOrd, Ord, Hash)]
pub struct Instant {
    pub secs: i64,
    pub nanos: u32,
}

impl Instant {
    /// Whether this instant comes strictly before `other`.
    pub open spec fn before(self, other: Instant) -> bool {
        self.secs < other.secs || (self.secs == other.secs && self.nanos < other.nanos)
    }

    /// Whether this instant is `other` or comes before it.
    pub open spec fn at_or_before(self, other: Instant) -> bool {
        self == other || self.before(other)
    }

    /// Whether this instant lies in the closed range from `from` to `to`.
    pub open spec fn within(self, from: Instant, to: Instant) -> bool {
        from.at_or_before(self) && self.at_or_before(to)
    }

    /// The instant `nanos` nanoseconds into the second `secs`.
    pub fn new(secs: i64, nanos: u32) -> (instant: Instant)
        ensures
            instant == (Instant { secs, nanos }),
    {
        Instant { secs, nanos }
    }

    /// The instant at the start of the second `secs`.
    pub fn from_unix_seconds(secs: i64) -> (instant: Instant)
        ensures
            instant == (Instant { secs, nanos: 0 }),
    {
        Instant { secs, nanos: 0 }
    }

    /// The whole seconds of this instant since 1970-01-01 00:00:00 UTC.
    pub fn unix_seconds(&self) -> (secs: i64)
        ensures
            secs == self.secs,
    {
        self.secs
    }

    /// Whether this instant comes strictly before `other`.
    pub fn is_before(&self, other: &Instant) -> (earlier: bool)
        ensures
            earlier == self.before(*other),
    {
        self.secs < other.secs || (self.secs == other.secs && self.nanos < other.nanos)
    }

    /// Whether this instant is `other` or comes before it.
    pub fn is_at_or_before(&self, other: &Instant) -> (not_later: bool)
        ensures
            not_later == self.at_or_before(*other),
    {
        self.secs < other.secs || (self.secs == other.secs && self.nanos <= other.nanos)
    }

    /// Whether this instant lies in the closed range from `from` to `to`.
    pub fn is_within(&self, from: &Instant, to: &Instant) -> (inside: bool)
        ensures
            inside == self.within(*from, *to),
    {
        from.is_at_or_before(self) && self.is_at_or_before(to)
    }

    /// The current instant, as the system clock gives it.
    pub fn now() -> Instant {
        let (secs, nanos) = clock_reading();
        Instant { secs, nanos }
    }
}

/// Reads the system clock with `chrono::Utc::now` and takes the reading apart
/// with `DateTime::timestamp` and `DateTime::timestamp_subsec_nanos`. Nothing
/// is assumed of the result. `Utc::now` gives up on a machine whose clock is
/// set before 1970.
#[verifier::external_body]
fn clock_reading() -> (reading: (i64, u32)) {
    let now = chrono::Utc::now();
    (now.timestamp(), now.timestamp_subsec_nanos())
}

} // verus!
