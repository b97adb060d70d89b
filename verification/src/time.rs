//! Points in time, as seconds and nanoseconds since the Unix epoch.

use vstd::prelude::*;

verus! {

/// A point in time: whole seconds since the Unix epoch, and the nanoseconds
/// into that second.
#[derive(Clone, Copy, Debug, PartialEq, Eq, Structural)]
pub struct Timestamp {
    pub secs: i64,
    pub nanos: u32,
}

/// Whether a message received at `received` is older than `ttl_minutes` at
/// `now`: whether `received` lies before `now` less that many minutes.
pub open spec fn expired(received: Timestamp, now: Timestamp, ttl_minutes: int) -> bool {
    let cutoff: int = now.secs - 60 * ttl_minutes;
    received.secs < cutoff || (received.secs == cutoff && received.nanos < now.nanos)
}

/// The first second of the calendar of `chrono`: the start of the year
/// -262143, counted from the epoch.
pub const MIN_SECONDS: i64 = -8334601228800;

/// The last second of the calendar of `chrono`: the end of the year 262142,
/// counted from the epoch.
pub const MAX_SECONDS: i64 = 8210266876799;

/// Whether the calendar of `chrono` holds the second that lies `secs` after
/// the epoch.
pub open spec fn representable_seconds(secs: i64) -> bool {
    MIN_SECONDS <= secs <= MAX_SECONDS
}

impl Timestamp {
    /// Whether `self` lies before `other`.
    pub open spec fn is_before(self, other: Timestamp) -> bool {
        self.secs < other.secs || (self.secs == other.secs && self.nanos < other.nanos)
    }

    /// Whether `self` is no later than `other`.
    pub open spec fn not_after(self, other: Timestamp) -> bool {
        !other.is_before(self)
    }

    /// Whether the time is the placeholder for "not set": a time within the
    /// epoch's own second.
    pub open spec fn is_unset(self) -> bool {
        self.secs == 0
    }

    /// The Unix epoch, which stands for a time that is not set.
    pub fn epoch() -> (t: Timestamp)
        ensures
            t == (Timestamp { secs: 0, nanos: 0 }),
    {
        Timestamp { secs: 0, nanos: 0 }
    }

    /// Whether `self` lies before `other`.
    pub fn before(&self, other: &Timestamp) -> (b: bool)
        ensures
            b == self.is_before(*other),
    {
        self.secs < other.secs || (self.secs == other.secs && self.nanos < other.nanos)
    }

    /// Whether the time stands for "not set".
    pub fn unset(&self) -> (b: bool)
        ensures
            b == self.is_unset(),
    {
        self.secs == 0
    }
}

/// Whether a message received at `received` is older than `ttl_minutes` at
/// `now`.
pub fn is_expired(received: &Timestamp, now: &Timestamp, ttl_minutes: i64) -> (b: bool)
    ensures
        b == expired(*received, *now, ttl_minutes as int),
{
    let cutoff: i128 = now.secs as i128 - 60 * (ttl_minutes as i128);
    let at: i128 = received.secs as i128;
    at < cutoff || (at == cutoff && received.nanos < now.nanos)
}

/// The current time, from `chrono::Utc::now`. The clock decides the result;
/// it reads the system time as a duration since the epoch, so the seconds are
/// not negative and the nanoseconds stay below one second.
#[verifier::external_body]
pub(crate) fn current_time() -> (t: Timestamp)
    ensures
        t.secs >= 0,
        t.nanos < 1_000_000_000,
{
    let now = chrono::Utc::now();
    Timestamp { secs: now.timestamp(), nanos: now.timestamp_subsec_nanos() }
}

/// The time `secs` seconds after the epoch, where
/// `chrono::DateTime::from_timestamp` accepts it. It accepts the seconds of
/// the years that `chrono` can hold, -262143 to 262142, and no others; the
/// time it gives has those seconds and no nanoseconds.
#[verifier::external_body]
pub(crate) fn time_from_seconds(secs: i64) -> (r: Option<Timestamp>)
    ensures
        r is Some <==> representable_seconds(secs),
        r matches Some(t) ==> t == (Timestamp { secs: secs, nanos: 0 }),
{
    chrono::DateTime::from_timestamp(secs, 0).map(
        |d| Timestamp { secs: d.timestamp(), nanos: d.timestamp_subsec_nanos() },
    )
}

} // verus!
