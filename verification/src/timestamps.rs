//! Points in time and their RFC 3339 text.
use vstd::prelude::*;

verus! {

/// A point in time: seconds since the epoch, and nanoseconds on top.
#[derive(Clone, Copy, Debug, PartialEq, Eq, Structural)]
pub struct Timestamp {
    pub secs: i64,
    pub nanos: u32,
}

/// The first second of the year -262143.
pub const FIRST_SECOND: i64 = -8_334_601_228_800;

/// The last second of the year 262142.
pub const LAST_SECOND: i64 = 8_210_266_876_799;

/// The first second of the year 0.
pub const YEAR_ZERO: i64 = -62_167_219_200;

/// The last second of the year 9999.
pub const YEAR_9999: i64 = 253_402_300_799;

/// The times that have a calendar date.
pub open spec fn in_calendar(t: Timestamp) -> bool {
    FIRST_SECOND <= t.secs <= LAST_SECOND && t.nanos < 1_000_000_000
}

/// The times whose year has four digits.
pub open spec fn four_digit_year(t: Timestamp) -> bool {
    YEAR_ZERO <= t.secs <= YEAR_9999 && t.nanos < 1_000_000_000
}

/// What `chrono::DateTime::<Utc>::to_rfc3339` writes for a time.
pub uninterp spec fn rfc3339_text(secs: i64, nanos: u32) -> Seq<char>;

/// The seconds and nanoseconds that `chrono::DateTime::parse_from_rfc3339` reads
/// from a text, if it is an RFC 3339 time.
pub uninterp spec fn rfc3339_time(text: Seq<char>) -> Option<(i64, u32)>;

/// `chrono::DateTime::<Utc>::from_timestamp` and `to_rfc3339`: the text of a time.
/// A year of four digits is written so that `parse_from_rfc3339` reads the same time
/// from the text.
#[verifier::external_body]
fn write_rfc3339(secs: i64, nanos: u32) -> (r: String)
    requires
        FIRST_SECOND <= secs <= LAST_SECOND,
        nanos < 1_000_000_000,
    ensures
        r@ == rfc3339_text(secs, nanos),
        YEAR_ZERO <= secs <= YEAR_9999 ==> rfc3339_time(r@) == Some((secs, nanos)),
{
    chrono::DateTime::from_timestamp(secs, nanos).unwrap_or_default().to_rfc3339()
}

/// `chrono::DateTime::parse_from_rfc3339`: the seconds and nanoseconds of the time
/// that a text holds. The year has four digits and the offset is less than a day; in
/// a leap second the nanoseconds go on to two seconds.
#[verifier::external_body]
fn read_rfc3339(text: &str) -> (r: Option<(i64, u32)>)
    ensures
        r == rfc3339_time(text@),
        r is Some ==> YEAR_ZERO - 86_400 <= (r->0).0 <= YEAR_9999 + 86_400 && (r->0).1 < 2_000_000_000,
{
    let dt = chrono::DateTime::parse_from_rfc3339(text).ok()?;
    Some((dt.timestamp(), dt.timestamp_subsec_nanos()))
}

/// `chrono::Utc::now`: the seconds and nanoseconds since the epoch on the system clock.
/// It panics if that clock stands before the epoch or after the calendar. Nothing is
/// said of how two readings relate.
#[verifier::external_body]
fn read_clock() -> (r: (i64, u32))
    ensures
        0 <= r.0 <= LAST_SECOND,
        r.1 < 1_000_000_000,
{
    let dt = chrono::Utc::now();
    (dt.timestamp(), dt.timestamp_subsec_nanos())
}

/// A time with the nanoseconds beyond a second carried over.
pub open spec fn carried(secs: i64, nanos: u32) -> Timestamp {
    if nanos >= 1_000_000_000 {
        Timestamp { secs: (secs + 1) as i64, nanos: (nanos - 1_000_000_000) as u32 }
    } else {
        Timestamp { secs, nanos }
    }
}

/// A time with the nanoseconds beyond a second carried over.
pub fn carry(secs: i64, nanos: u32) -> (r: Timestamp)
    requires
        secs < i64::MAX,
        nanos < 2_000_000_000,
    ensures
        r == carried(secs, nanos),
        r.nanos < 1_000_000_000,
{
    if nanos >= 1_000_000_000 {
        Timestamp { secs: secs + 1, nanos: nanos - 1_000_000_000 }
    } else {
        Timestamp { secs, nanos }
    }
}

/// The time that a text holds, if it is an RFC 3339 time.
pub open spec fn time_in(text: Seq<char>) -> Option<Timestamp> {
    match rfc3339_time(text) {
        Some((secs, nanos)) => Some(carried(secs, nanos)),
        None => None,
    }
}

/// The nanoseconds since the epoch.
pub open spec fn nanos_of(t: Timestamp) -> int {
    t.secs * 1_000_000_000 + t.nanos
}

/// The milliseconds since the epoch.
pub open spec fn millis_of(t: Timestamp) -> int {
    t.secs * 1000 + (t.nanos / 1_000_000) as int
}

impl Timestamp {
    /// The time on the system clock.
    pub fn now() -> (r: Self)
        ensures
            in_calendar(r),
            r.secs >= 0,
    {
        let (secs, nanos) = read_clock();
        Timestamp { secs, nanos }
    }

    /// The nanoseconds since the epoch.
    pub fn to_nanos(&self) -> (r: i128)
        ensures
            r == nanos_of(*self),
    {
        self.secs as i128 * 1_000_000_000 + self.nanos as i128
    }

    /// The milliseconds since the epoch.
    pub fn to_millis(&self) -> (r: i64)
        requires
            in_calendar(*self),
        ensures
            r == millis_of(*self),
    {
        self.secs * 1000 + (self.nanos / 1_000_000) as i64
    }

    /// The RFC 3339 text of the time. A year of four digits is read back from it.
    pub fn to_rfc3339(&self) -> (r: String)
        requires
            in_calendar(*self),
        ensures
            r@ == rfc3339_text(self.secs, self.nanos),
            four_digit_year(*self) ==> time_in(r@) == Some(*self),
    {
        write_rfc3339(self.secs, self.nanos)
    }

    /// The time that a text holds, if it is an RFC 3339 time.
    pub fn parse_rfc3339(text: &str) -> (r: Option<Timestamp>)
        ensures
            r == time_in(text@),
            r is Some ==> in_calendar(r->0),
    {
        match read_rfc3339(text) {
            Some((secs, nanos)) => Some(carry(secs, nanos)),
            None => None,
        }
    }
}

/// Milliseconds are whole milliseconds of the nanoseconds.
pub proof fn law_millis_of_nanos(t: Timestamp)
    ensures
        millis_of(t) * 1_000_000 <= nanos_of(t) < millis_of(t) * 1_000_000 + 1_000_000,
{
}

/// Carrying keeps the time.
pub proof fn law_carried_time(secs: i64, nanos: u32)
    requires
        secs < i64::MAX,
        nanos < 2_000_000_000,
    ensures
        nanos_of(carried(secs, nanos)) == secs * 1_000_000_000 + nanos,
        carried(secs, nanos).nanos < 1_000_000_000,
{
}

} // verus!
