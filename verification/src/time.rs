//! Wall-clock instants as plain numbers.
//!
//! An instant is a count of seconds since the Unix epoch and a count of
//! nanoseconds within the second. Every decision of the library that
//! depends on the time takes the instant as an argument, so that one
//! reading of the clock governs one decision.

use chrono::DateTime;
use chrono::SecondsFormat;
use vstd::prelude::*;

verus! {

/// Nanoseconds in one second.
pub const NANOS_PER_SEC: u32 = 1_000_000_000;

/// Seconds in twenty-four hours.
pub const SECONDS_PER_DAY: i64 = 86_400;

/// An instant in UTC.
#[derive(Clone, Copy, Debug, PartialEq, Eq, Structural)]
pub struct Timestamp {
    /// Seconds since 1970-01-01T00:00:00Z, leap seconds not counted.
    pub secs: i64,
    /// Nanoseconds since the last second boundary.
    pub nanos: u32,
}

/// The first second of the year 0, the first year that RFC 3339 can write.
pub const CALENDAR_MIN_SECS: i64 = -62_167_219_200;

/// The last second of the year 9999, the last year that RFC 3339 can
/// write.
pub const CALENDAR_MAX_SECS: i64 = 253_402_300_799;

/// Whether the second lies in the years that RFC 3339 can write.
pub open spec fn in_calendar(secs: i64) -> bool {
    CALENDAR_MIN_SECS <= secs <= CALENDAR_MAX_SECS
}

/// What is written, with a numeric offset, for an instant in the years
/// that RFC 3339 can write; nothing where the nanoseconds are not those of
/// a second.
pub uninterp spec fn rfc3339_written(secs: i64, nanos: u32) -> Option<Seq<char>>;

/// What is written, with `Z` for the offset, for an instant in the years
/// that RFC 3339 can write; nothing where the nanoseconds are not those of
/// a second.
pub uninterp spec fn wire_time_written(secs: i64, nanos: u32) -> Option<Seq<char>>;

/// The RFC 3339 text, with a numeric offset, of the instant that `secs`
/// and `nanos` give, where the calendar can hold it.
pub open spec fn rfc3339_text(secs: i64, nanos: u32) -> Option<Seq<char>> {
    if in_calendar(secs) {
        rfc3339_written(secs, nanos)
    } else {
        None
    }
}

/// The RFC 3339 text, with `Z` for the offset, of the instant that `secs`
/// and `nanos` give, where the calendar can hold it.
pub open spec fn wire_time_text(secs: i64, nanos: u32) -> Option<Seq<char>> {
    if in_calendar(secs) {
        wire_time_written(secs, nanos)
    } else {
        None
    }
}

/// The instant, as seconds and nanoseconds, that an RFC 3339 text names.
pub uninterp spec fn rfc3339_instant(text: Seq<char>) -> Option<(i64, u32)>;

/// The instant that a text on the wire names: the text must be the one
/// that is written for the instant, so that one instant has one text.
pub open spec fn wire_instant(text: Seq<char>) -> Option<(i64, u32)> {
    match rfc3339_instant(text) {
        Some((secs, nanos)) => if wire_time_text(secs, nanos) == Some(text) {
            Some((secs, nanos))
        } else {
            None
        },
        None => None,
    }
}

impl Timestamp {
    /// Whether the instant lies in the years that RFC 3339 can write and
    /// its nanoseconds are those of a second: such an instant has a text.
    pub open spec fn can_be_written(self) -> bool {
        in_calendar(self.secs) && self.nanos < NANOS_PER_SEC
    }

    /// The instant `secs` seconds after the epoch.
    pub fn from_secs(secs: i64) -> (t: Timestamp)
        ensures
            t == (Timestamp { secs, nanos: 0 }),
    {
        Timestamp { secs, nanos: 0 }
    }

    /// Nanoseconds from the epoch to this instant.
    pub open spec fn total_nanos(self) -> int {
        self.secs * (NANOS_PER_SEC as int) + self.nanos
    }

    /// Whole seconds from `earlier` to this instant, rounded towards
    /// zero; negative where `earlier` is the later one.
    pub open spec fn seconds_since(self, earlier: Timestamp) -> int {
        let d = self.total_nanos() - earlier.total_nanos();
        if d >= 0 {
            d / (NANOS_PER_SEC as int)
        } else {
            -((-d) / (NANOS_PER_SEC as int))
        }
    }

    /// Whether at least `limit` whole seconds lie between `earlier` and
    /// this instant.
    pub fn elapsed_at_least(&self, earlier: &Timestamp, limit: u32) -> (r: bool)
        ensures
            r == (self.seconds_since(*earlier) >= limit),
    {
        let a: i128 = (self.secs as i128) * 1_000_000_000 + (self.nanos as i128);
        let b: i128 = (earlier.secs as i128) * 1_000_000_000 + (earlier.nanos as i128);
        let d: i128 = a - b;
        let need: i128 = (limit as i128) * 1_000_000_000;
        assert(d >= 0 ==> (d / 1_000_000_000 >= limit <==> d >= limit * 1_000_000_000))
            by (nonlinear_arith);
        assert(d < 0 ==> -((-d) / 1_000_000_000) <= 0) by (nonlinear_arith);
        if d < 0 {
            limit == 0 && d > -1_000_000_000
        } else {
            d >= need
        }
    }

    /// Whether this instant lies before `other`.
    pub fn is_before(&self, other: &Timestamp) -> (r: bool)
        ensures
            r == (self.total_nanos() < other.total_nanos()),
    {
        let a: i128 = (self.secs as i128) * 1_000_000_000 + (self.nanos as i128);
        let b: i128 = (other.secs as i128) * 1_000_000_000 + (other.nanos as i128);
        a < b
    }

    /// The instant `secs` seconds later, or the last second that can be
    /// counted where the sum cannot.
    pub fn plus_seconds(&self, secs: u32) -> (t: Timestamp)
        ensures
            t.nanos == self.nanos,
            t.secs == if self.secs + secs > i64::MAX {
                i64::MAX
            } else {
                (self.secs + secs) as i64
            },
    {
        let s: i64 = secs as i64;
        if self.secs > i64::MAX - s {
            Timestamp { secs: i64::MAX, nanos: self.nanos }
        } else {
            Timestamp { secs: self.secs + s, nanos: self.nanos }
        }
    }

    /// The instant `secs` seconds earlier, or the first second that can
    /// be counted where the difference cannot.
    pub fn minus_seconds(&self, secs: u32) -> (t: Timestamp)
        ensures
            t.nanos == self.nanos,
            t.secs == if self.secs - secs < i64::MIN {
                i64::MIN
            } else {
                (self.secs - secs) as i64
            },
    {
        let s: i64 = secs as i64;
        if self.secs < i64::MIN + s {
            Timestamp { secs: i64::MIN, nanos: self.nanos }
        } else {
            Timestamp { secs: self.secs - s, nanos: self.nanos }
        }
    }

    /// The present instant, as the system clock gives it: a time at or
    /// after the epoch, with a proper nanosecond part. A clock that stands
    /// before the epoch is read as the epoch.
    pub fn now() -> (t: Timestamp)
        ensures
            t.secs >= 0,
            t.nanos < NANOS_PER_SEC,
    {
        match clock_now_outside() {
            Some(t) => t,
            None => Timestamp { secs: 0, nanos: 0 },
        }
    }

    /// The RFC 3339 text of this instant with a numeric offset; nothing
    /// where the calendar cannot hold the instant. Parsing the text gives
    /// the instant back.
    pub fn to_rfc3339(&self) -> (r: Option<String>)
        ensures
            r is Some <==> rfc3339_text(self.secs, self.nanos) is Some,
            self.can_be_written() ==> r is Some,
            r matches Some(t) ==> Some(t@) == rfc3339_text(self.secs, self.nanos)
                && rfc3339_instant(t@) == Some((self.secs, self.nanos)),
    {
        if self.secs < CALENDAR_MIN_SECS || self.secs > CALENDAR_MAX_SECS {
            return None;
        }
        rfc3339_format_outside(self.secs, self.nanos)
    }

    /// The RFC 3339 text of this instant with `Z` for the offset, the
    /// form that packets carry; nothing where the calendar cannot hold
    /// the instant. Parsing the text gives the instant back.
    pub fn to_wire_text(&self) -> (r: Option<String>)
        ensures
            r is Some <==> wire_time_text(self.secs, self.nanos) is Some,
            self.can_be_written() ==> r is Some,
            r matches Some(t) ==> Some(t@) == wire_time_text(self.secs, self.nanos)
                && rfc3339_instant(t@) == Some((self.secs, self.nanos)),
    {
        if self.secs < CALENDAR_MIN_SECS || self.secs > CALENDAR_MAX_SECS {
            return None;
        }
        wire_time_format_outside(self.secs, self.nanos)
    }

    /// The instant that a text on the wire names: the text must be the
    /// one that is written for the instant.
    pub fn parse_wire(text: &str) -> (r: Option<Timestamp>)
        ensures
            r is Some <==> wire_instant(text@) is Some,
            r matches Some(t) ==> wire_instant(text@) == Some((t.secs, t.nanos)),
    {
        let t = match Timestamp::parse_rfc3339(text) {
            Some(t) => t,
            None => {
                return None;
            },
        };
        match t.to_wire_text() {
            Some(written) => if crate::wire::str_eq(written.as_str(), text) {
                Some(t)
            } else {
                None
            },
            None => None,
        }
    }

    /// The instant that an RFC 3339 text names.
    pub fn parse_rfc3339(text: &str) -> (r: Option<Timestamp>)
        ensures
            r is Some <==> rfc3339_instant(text@) is Some,
            r matches Some(t) ==> rfc3339_instant(text@) == Some((t.secs, t.nanos)),
    {
        rfc3339_parse_outside(text)
    }
}

/// `std::time::SystemTime::elapsed` on the Unix epoch: the time that has
/// passed since the epoch on the system clock, as whole seconds and the
/// nanoseconds of the second that has begun; nothing where the clock
/// stands before the epoch or the seconds are more than can be counted.
#[verifier::external_body]
fn clock_now_outside() -> (r: Option<Timestamp>)
    ensures
        r matches Some(t) ==> t.secs >= 0 && t.nanos < NANOS_PER_SEC,
{
    match std::time::UNIX_EPOCH.elapsed() {
        Ok(d) => match i64::try_from(d.as_secs()) {
            Ok(secs) => Some(Timestamp { secs, nanos: d.subsec_nanos() }),
            Err(_) => None,
        },
        Err(_) => None,
    }
}

/// `chrono::DateTime::to_rfc3339` on `DateTime::from_timestamp(secs, nanos)`,
/// for a second in the years 0 to 9999, which are written with four
/// digits; nothing where `from_timestamp` holds the nanoseconds to be out
/// of range, which it does for none below one second.
/// `parse_from_rfc3339` reads the text back to the same instant.
#[verifier::external_body]
fn rfc3339_format_outside(secs: i64, nanos: u32) -> (r: Option<String>)
    requires
        in_calendar(secs),
    ensures
        r is Some <==> rfc3339_written(secs, nanos) is Some,
        nanos < NANOS_PER_SEC ==> r is Some,
        r matches Some(t) ==> Some(t@) == rfc3339_written(secs, nanos) && rfc3339_instant(t@)
            == Some((secs, nanos)),
{
    match DateTime::from_timestamp(secs, nanos) {
        Some(d) => Some(d.to_rfc3339()),
        None => None,
    }
}

/// `chrono::DateTime::to_rfc3339_opts` with automatic sub-second digits
/// and `Z`, on `DateTime::from_timestamp(secs, nanos)`, for a second in
/// the years 0 to 9999, which are written with four digits; nothing where
/// `from_timestamp` holds the nanoseconds to be out of range, which it
/// does for none below one second. `parse_from_rfc3339` reads the text
/// back to the same instant.
#[verifier::external_body]
fn wire_time_format_outside(secs: i64, nanos: u32) -> (r: Option<String>)
    requires
        in_calendar(secs),
    ensures
        r is Some <==> wire_time_written(secs, nanos) is Some,
        nanos < NANOS_PER_SEC ==> r is Some,
        r matches Some(t) ==> Some(t@) == wire_time_written(secs, nanos) && rfc3339_instant(t@)
            == Some((secs, nanos)),
{
    match DateTime::from_timestamp(secs, nanos) {
        Some(d) => Some(d.to_rfc3339_opts(SecondsFormat::AutoSi, true)),
        None => None,
    }
}

/// `chrono::DateTime::parse_from_rfc3339`, as seconds and nanoseconds of
/// the instant in UTC.
#[verifier::external_body]
fn rfc3339_parse_outside(text: &str) -> (r: Option<Timestamp>)
    ensures
        r is Some <==> rfc3339_instant(text@) is Some,
        r matches Some(t) ==> rfc3339_instant(text@) == Some((t.secs, t.nanos)),
{
    match DateTime::parse_from_rfc3339(text) {
        Ok(d) => Some(Timestamp { secs: d.timestamp(), nanos: d.timestamp_subsec_nanos() }),
        Err(_) => None,
    }
}

} // verus!
