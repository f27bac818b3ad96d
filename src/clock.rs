use vstd::prelude::*;

use crate::span::Span;

verus! {

/// An instant: seconds since the Unix epoch, and nanoseconds past that second (a leap second
/// reads from 1_000_000_000 up).
#[derive(Clone, Copy, PartialEq, Eq, Structural, Debug)]
pub struct Timestamp {
    pub secs: i64,
    pub nanos: u32,
}

impl Timestamp {
    /// Nanoseconds since the Unix epoch.
    pub open spec fn value(self) -> int {
        self.secs * 1_000_000_000 + self.nanos
    }

    /// Nanoseconds since the Unix epoch.
    pub fn nanos_since_epoch(&self) -> (r: i128)
        ensures
            r as int == self.value(),
    {
        self.secs as i128 * 1_000_000_000 + self.nanos as i128
    }

    /// Whether `self` lies strictly before `other`.
    pub fn is_before(&self, other: &Timestamp) -> (r: bool)
        ensures
            r == (self.value() < other.value()),
    {
        self.nanos_since_epoch() < other.nanos_since_epoch()
    }
}

/// The span from `now` until `t`, or zero where `t` is not after `now`.
pub open spec fn span_until(t: Timestamp, now: Timestamp) -> int {
    if t.value() > now.value() {
        t.value() - now.value()
    } else {
        0
    }
}

/// A wall-clock time of day: seconds since midnight, and nanoseconds past that second (a leap
/// second reads from 1_000_000_000 up).
#[derive(Clone, Copy, PartialEq, Eq, Structural, Debug)]
pub struct TimeOfDay {
    pub secs: u32,
    pub frac: u32,
}

impl TimeOfDay {
    pub open spec fn wf(self) -> bool {
        self.secs < 86_400 && self.frac < 2_000_000_000
    }

    /// A time that chrono can represent: a leap second only in the last second of a minute.
    pub open spec fn representable(self) -> bool {
        self.wf() && (self.frac >= 1_000_000_000 ==> self.secs % 60 == 59)
    }

    /// Whether `self` comes later in the day than `other`.
    pub open spec fn later_than(self, other: TimeOfDay) -> bool {
        self.secs > other.secs || (self.secs == other.secs && self.frac > other.frac)
    }
}

/// A local calendar date and time, with no zone: the day is counted from 1 January of year 1,
/// which is day 1.
#[derive(Clone, Copy, PartialEq, Eq, Structural, Debug)]
pub struct LocalDateTime {
    pub day: i32,
    pub time: TimeOfDay,
}

/// The current moment, read once: as an instant, and as the local date and time of day.
#[derive(Clone, Copy, PartialEq, Eq, Structural, Debug)]
pub struct Now {
    pub instant: Timestamp,
    pub local: LocalDateTime,
}

/// The instants that a local date and time denote in the local zone.
#[derive(Clone, Copy, PartialEq, Eq, Structural, Debug)]
pub enum LocalInstant {
    Single(Timestamp),
    /// The clock was set back: the earlier and the later instant.
    Ambiguous(Timestamp, Timestamp),
    /// The clock skipped this time, or the date is out of range.
    Nonexistent,
}

/// What `chrono::DateTime::parse_from_rfc3339` reads from a text, as an instant.
pub uninterp spec fn rfc3339_instant(s: Seq<char>) -> Option<Timestamp>;

/// What `chrono::DateTime::parse_from_rfc2822` reads from a text, as an instant.
pub uninterp spec fn rfc2822_instant(s: Seq<char>) -> Option<Timestamp>;

/// What `chrono::NaiveDateTime::parse_from_str` reads from a text under a format.
pub uninterp spec fn naive_datetime_of(s: Seq<char>, fmt: Seq<char>) -> Option<LocalDateTime>;

/// What `chrono::NaiveTime::parse_from_str` reads from a text under a format.
pub uninterp spec fn naive_time_of(s: Seq<char>, fmt: Seq<char>) -> Option<TimeOfDay>;

/// Relies on `chrono::DateTime::parse_from_rfc3339`, and on `timestamp` and
/// `timestamp_subsec_nanos` of its result, which give the instant it denotes.
#[verifier::external_body]
pub(crate) fn parse_rfc3339(s: &str) -> (r: Option<Timestamp>)
    ensures
        r == rfc3339_instant(s@),
{
    match chrono::DateTime::parse_from_rfc3339(s) {
        Ok(dt) => Some(Timestamp { secs: dt.timestamp(), nanos: dt.timestamp_subsec_nanos() }),
        Err(_) => None,
    }
}

/// Relies on `chrono::DateTime::parse_from_rfc2822`, and on `timestamp` and
/// `timestamp_subsec_nanos` of its result, which give the instant it denotes.
#[verifier::external_body]
pub(crate) fn parse_rfc2822(s: &str) -> (r: Option<Timestamp>)
    ensures
        r == rfc2822_instant(s@),
{
    match chrono::DateTime::parse_from_rfc2822(s) {
        Ok(dt) => Some(Timestamp { secs: dt.timestamp(), nanos: dt.timestamp_subsec_nanos() }),
        Err(_) => None,
    }
}

/// Relies on `chrono::NaiveDateTime::parse_from_str`; the day comes from
/// `Datelike::num_days_from_ce`, the time from `Timelike::num_seconds_from_midnight` and
/// `Timelike::nanosecond`, which a `NaiveTime` keeps below 86_400 and 2_000_000_000.
#[verifier::external_body]
pub(crate) fn parse_naive_datetime(s: &str, fmt: &str) -> (r: Option<LocalDateTime>)
    ensures
        r == naive_datetime_of(s@, fmt@),
        r matches Some(d) ==> d.time.wf(),
{
    match chrono::NaiveDateTime::parse_from_str(s, fmt) {
        Ok(dt) => Some(LocalDateTime {
            day: chrono::Datelike::num_days_from_ce(&dt),
            time: TimeOfDay {
                secs: chrono::Timelike::num_seconds_from_midnight(&dt),
                frac: chrono::Timelike::nanosecond(&dt),
            },
        }),
        Err(_) => None,
    }
}

/// Relies on `chrono::NaiveTime::parse_from_str`; the time comes from
/// `Timelike::num_seconds_from_midnight` and `Timelike::nanosecond`, which a `NaiveTime` keeps
/// below 86_400 and 2_000_000_000.
#[verifier::external_body]
pub(crate) fn parse_naive_time(s: &str, fmt: &str) -> (r: Option<TimeOfDay>)
    ensures
        r == naive_time_of(s@, fmt@),
        r matches Some(t) ==> t.wf(),
{
    match chrono::NaiveTime::parse_from_str(s, fmt) {
        Ok(t) => Some(TimeOfDay {
            secs: chrono::Timelike::num_seconds_from_midnight(&t),
            frac: chrono::Timelike::nanosecond(&t),
        }),
        Err(_) => None,
    }
}

#[verifier::external_type_specification]
#[verifier::external_body]
pub struct ExNaiveDateTime(chrono::NaiveDateTime);

/// Relies on `chrono::NaiveDate::from_num_days_from_ce_opt`,
/// `chrono::NaiveTime::from_num_seconds_from_midnight_opt` and `NaiveDate::and_time`: chrono's
/// own value for a local date and time, where it can represent them; the bounds on the time are
/// those that `from_num_seconds_from_midnight_opt` checks.
#[verifier::external_body]
fn to_chrono(dt: LocalDateTime) -> (r: Option<chrono::NaiveDateTime>)
    ensures
        !dt.time.representable() ==> r is None,
{
    let d = chrono::NaiveDate::from_num_days_from_ce_opt(dt.day)?;
    let t = chrono::NaiveTime::from_num_seconds_from_midnight_opt(dt.time.secs, dt.time.frac)?;
    Some(d.and_time(t))
}

/// Relies on `chrono::Local::from_local_datetime`, and on `timestamp` and
/// `timestamp_subsec_nanos` of what it returns: the instants of a local date and time in the
/// zone of this machine, which nothing here can name.
#[verifier::external_body]
fn zone_instants(ndt: &chrono::NaiveDateTime) -> (r: LocalInstant) {
    match chrono::TimeZone::from_local_datetime(&chrono::Local, ndt) {
        chrono::LocalResult::Single(x) => LocalInstant::Single(
            Timestamp { secs: x.timestamp(), nanos: x.timestamp_subsec_nanos() },
        ),
        chrono::LocalResult::Ambiguous(x, y) => LocalInstant::Ambiguous(
            Timestamp { secs: x.timestamp(), nanos: x.timestamp_subsec_nanos() },
            Timestamp { secs: y.timestamp(), nanos: y.timestamp_subsec_nanos() },
        ),
        chrono::LocalResult::None => LocalInstant::Nonexistent,
    }
}

/// Places a local date and time in the zone of this machine; one that chrono cannot represent
/// does not exist.
pub fn local_instant(dt: LocalDateTime) -> (r: LocalInstant)
    ensures
        !dt.time.representable() ==> r == LocalInstant::Nonexistent,
{
    match to_chrono(dt) {
        Some(ndt) => zone_instants(&ndt),
        None => LocalInstant::Nonexistent,
    }
}

/// The span from `now` until `t`; zero where `t` is not after `now`.
pub fn span_between(t: Timestamp, now: Timestamp) -> (r: Span)
    ensures
        r.value() == span_until(t, now),
{
    let a = t.nanos_since_epoch();
    let b = now.nanos_since_epoch();
    if a > b {
        Span { nanos: (a - b) as u128 }
    } else {
        Span { nanos: 0 }
    }
}

} // verus!
