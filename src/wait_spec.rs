use vstd::prelude::*;
use vstd::string::StringSliceAdditionalSpecFns;

use crate::clock::{
    local_instant, naive_datetime_of, naive_time_of, parse_naive_datetime, parse_naive_time,
    parse_rfc2822, parse_rfc3339, rfc2822_instant, rfc3339_instant, span_between, span_until,
    LocalDateTime, LocalInstant, Now, TimeOfDay, Timestamp,
};
use crate::span::{duration_nanos, parse_duration_str, ParseError, Span};

verus! {

/// What to wait for: a span, an instant, or the next occurrence of a time of day.
#[derive(Clone, Copy, PartialEq, Eq, Structural, Debug)]
pub enum WaitSpec {
    Duration(Span),
    DateTime(Timestamp),
    NaiveTime(TimeOfDay),
}

/// Why a time of day could not be turned into a span.
#[derive(Clone, Copy, PartialEq, Eq, Structural, Debug)]
pub enum ResolveError {
    /// The local time occurs twice (the clock was set back): both instants.
    AmbiguousLocalTime(Timestamp, Timestamp),
    /// The local time does not occur (the clock skipped it), or the date is out of range.
    NonexistentLocalTime,
}

/// Turns a wait specification into the span to wait, given the current moment.
pub trait ToDuration: Sized {
    /// Whether `r` is a correct resolution of `self` at `now`.
    spec fn resolves_to(self, now: Now, r: Result<Span, ResolveError>) -> bool;

    fn to_duration(self, now: &Now) -> (r: Result<Span, ResolveError>)
        ensures
            self.resolves_to(*now, r),
    ;
}

/// The local date and time formats, in the order they are tried.
pub open spec fn local_format(k: int) -> Seq<char> {
    if k == 0 {
        "%Y-%m-%d %H:%M:%S"@
    } else if k == 1 {
        "%Y-%m-%d %H:%M"@
    } else if k == 2 {
        "%Y-%m-%dT%H:%M:%S"@
    } else {
        "%Y-%m-%dT%H:%M"@
    }
}

/// The time-of-day formats, in the order they are tried.
pub open spec fn time_format(k: int) -> Seq<char> {
    if k == 0 {
        "%H:%M:%S"@
    } else if k == 1 {
        "%H:%M"@
    } else if k == 2 {
        "%H:%M:%S%.3f"@
    } else {
        "%l:%M %P"@
    }
}

/// An instant read from the input: accepted only when it lies strictly after `now`.
pub open spec fn instant_outcome(t: Timestamp, now: Timestamp) -> Result<WaitSpec, ParseError> {
    if t.value() <= now.value() {
        Err(ParseError::TimestampInPast)
    } else {
        Ok(WaitSpec::DateTime(t))
    }
}

/// What the time-of-day formats read from `s`: the first that matches wins.
pub open spec fn time_outcome(s: Seq<char>) -> Result<WaitSpec, ParseError> {
    if naive_time_of(s, time_format(0)) is Some {
        Ok(WaitSpec::NaiveTime(naive_time_of(s, time_format(0))->0))
    } else if naive_time_of(s, time_format(1)) is Some {
        Ok(WaitSpec::NaiveTime(naive_time_of(s, time_format(1))->0))
    } else if naive_time_of(s, time_format(2)) is Some {
        Ok(WaitSpec::NaiveTime(naive_time_of(s, time_format(2))->0))
    } else if naive_time_of(s, time_format(3)) is Some {
        Ok(WaitSpec::NaiveTime(naive_time_of(s, time_format(3))->0))
    } else {
        Err(ParseError::UnrecognizedFormat)
    }
}

/// The outcome of a local date and time once the zone has placed it: a single instant is
/// judged against `now`; otherwise the next format is tried.
pub open spec fn placed_outcome(li: LocalInstant, now: Timestamp) -> Option<
    Result<WaitSpec, ParseError>,
> {
    match li {
        LocalInstant::Single(t) => Some(instant_outcome(t, now)),
        _ => None,
    }
}

/// The date of the next occurrence of `t` after `now`: today while `t` is still ahead,
/// otherwise tomorrow; `None` where tomorrow has no day number.
pub open spec fn next_occurrence_spec(t: TimeOfDay, now: LocalDateTime) -> Option<LocalDateTime> {
    if t.later_than(now.time) {
        Some(LocalDateTime { day: now.day, time: t })
    } else if now.day < i32::MAX {
        Some(LocalDateTime { day: (now.day + 1) as i32, time: t })
    } else {
        None
    }
}

/// The span until a local date and time, once the zone has placed it.
pub open spec fn settle_spec(li: LocalInstant, now: Timestamp) -> Result<int, ResolveError> {
    match li {
        LocalInstant::Single(t) => Ok(span_until(t, now)),
        LocalInstant::Ambiguous(a, b) => Err(ResolveError::AmbiguousLocalTime(a, b)),
        LocalInstant::Nonexistent => Err(ResolveError::NonexistentLocalTime),
    }
}

/// `r` is what `settle` gives for the placed local time `li`.
pub open spec fn settles_as(li: LocalInstant, now: Timestamp, r: Result<Span, ResolveError>) -> bool {
    match r {
        Ok(s) => settle_spec(li, now) == Ok::<int, ResolveError>(s.value()),
        Err(e) => settle_spec(li, now) == Err::<int, ResolveError>(e),
    }
}

/// Judges an instant read from the input against `now`.
pub fn check_instant(t: Timestamp, now: Timestamp) -> (r: Result<WaitSpec, ParseError>)
    ensures
        r == instant_outcome(t, now),
{
    if !now.is_before(&t) {
        Err(ParseError::TimestampInPast)
    } else {
        Ok(WaitSpec::DateTime(t))
    }
}

/// Judges a local date and time that the zone has placed: `None` sends the input on to the
/// next format.
pub fn check_placed(li: LocalInstant, now: Timestamp) -> (r: Option<Result<WaitSpec, ParseError>>)
    ensures
        r == placed_outcome(li, now),
{
    match li {
        LocalInstant::Single(t) => Some(check_instant(t, now)),
        _ => None,
    }
}

/// Tries one local date and time format.
fn try_local_format(value: &str, fmt: &str, now: Timestamp) -> (r: Option<
    Result<WaitSpec, ParseError>,
>)
    ensures
        naive_datetime_of(value@, fmt@) is None ==> r is None,
        r matches Some(Ok(w)) ==> (w matches WaitSpec::DateTime(t) && t.value() > now.value()),
        r matches Some(Err(e)) ==> e == ParseError::TimestampInPast,
{
    match parse_naive_datetime(value, fmt) {
        Some(dt) => check_placed(local_instant(dt), now),
        None => None,
    }
}

/// Tries the time-of-day formats in order.
fn parse_time_of_day(value: &str) -> (r: Result<WaitSpec, ParseError>)
    ensures
        r == time_outcome(value@),
        r matches Ok(WaitSpec::NaiveTime(t)) ==> t.wf(),
{
    proof {
        reveal_strlit("%H:%M:%S");
        reveal_strlit("%H:%M");
        reveal_strlit("%H:%M:%S%.3f");
        reveal_strlit("%l:%M %P");
    }
    if let Some(t) = parse_naive_time(value, "%H:%M:%S") {
        return Ok(WaitSpec::NaiveTime(t));
    }
    if let Some(t) = parse_naive_time(value, "%H:%M") {
        return Ok(WaitSpec::NaiveTime(t));
    }
    if let Some(t) = parse_naive_time(value, "%H:%M:%S%.3f") {
        return Ok(WaitSpec::NaiveTime(t));
    }
    if let Some(t) = parse_naive_time(value, "%l:%M %P") {
        return Ok(WaitSpec::NaiveTime(t));
    }
    Err(ParseError::UnrecognizedFormat)
}

/// The date and time of the next occurrence of `t` after `now`.
pub fn next_occurrence(t: TimeOfDay, now: LocalDateTime) -> (r: Option<LocalDateTime>)
    ensures
        r == next_occurrence_spec(t, now),
{
    if t.secs > now.time.secs || (t.secs == now.time.secs && t.frac > now.time.frac) {
        Some(LocalDateTime { day: now.day, time: t })
    } else if now.day < i32::MAX {
        Some(LocalDateTime { day: now.day + 1, time: t })
    } else {
        None
    }
}

/// The span until a local date and time that the zone has placed; an ambiguous or missing
/// local time is an error.
pub fn settle(li: LocalInstant, now: Timestamp) -> (r: Result<Span, ResolveError>)
    ensures
        settles_as(li, now, r),
{
    match li {
        LocalInstant::Single(t) => Ok(span_between(t, now)),
        LocalInstant::Ambiguous(a, b) => Err(ResolveError::AmbiguousLocalTime(a, b)),
        LocalInstant::Nonexistent => Err(ResolveError::NonexistentLocalTime),
    }
}

impl Timestamp {
    /// The span from `now` until this instant; zero where it is already past.
    pub fn span_from(self, now: &Now) -> (r: Span)
        ensures
            r.value() == span_until(self, now.instant),
    {
        span_between(self, now.instant)
    }
}

impl TimeOfDay {
    /// The span until the next occurrence of this time of day: today if it is still ahead of
    /// `now`, otherwise tomorrow.
    pub fn span_to_next(self, now: &Now) -> (r: Result<Span, ResolveError>)
        ensures
            next_occurrence_spec(self, now.local) is None ==> r == Err::<Span, ResolveError>(
                ResolveError::NonexistentLocalTime,
            ),
            next_occurrence_spec(self, now.local) is Some ==> exists|li: LocalInstant|
                settles_as(li, now.instant, r),
            !self.representable() ==> r == Err::<Span, ResolveError>(
                ResolveError::NonexistentLocalTime,
            ),
    {
        match next_occurrence(self, now.local) {
            Some(target) => {
                let li = local_instant(target);
                let r = settle(li, now.instant);
                assert(settles_as(li, now.instant, r));
                r
            },
            None => Err(ResolveError::NonexistentLocalTime),
        }
    }
}

/// Waiting for an instant never takes a negative span, and an instant that equals `now`, or
/// lies before it, takes none.
pub proof fn law_instant_span_nonnegative(t: Timestamp, now: Timestamp)
    ensures
        span_until(t, now) >= 0,
        t.value() <= now.value() ==> span_until(t, now) == 0,
        t.value() > now.value() ==> span_until(t, now) == t.value() - now.value(),
{
}

/// The span until an instant shrinks as `now` advances and grows with the instant.
pub proof fn law_instant_span_monotone(t1: Timestamp, t2: Timestamp, now1: Timestamp, now2: Timestamp)
    requires
        t1.value() <= t2.value(),
        now1.value() <= now2.value(),
    ensures
        span_until(t1, now2) <= span_until(t1, now1),
        span_until(t1, now1) <= span_until(t2, now1),
{
}

/// What a time of day resolves to at `now`: the error for a missing next day or for a time that
/// cannot be represented, otherwise what `settle` gives for the zone's placement of the next
/// occurrence.
pub open spec fn time_of_day_resolves_to(t: TimeOfDay, now: Now, r: Result<Span, ResolveError>) -> bool {
    &&& next_occurrence_spec(t, now.local) is None ==> r == Err::<Span, ResolveError>(
        ResolveError::NonexistentLocalTime,
    )
    &&& next_occurrence_spec(t, now.local) is Some ==> exists|li: LocalInstant|
        settles_as(li, now.instant, r)
    &&& !t.representable() ==> r == Err::<Span, ResolveError>(ResolveError::NonexistentLocalTime)
}

impl ToDuration for Timestamp {
    /// The span until the instant: `max(0, self - now)`, never an error.
    open spec fn resolves_to(self, now: Now, r: Result<Span, ResolveError>) -> bool {
        r matches Ok(s) && s.value() == span_until(self, now.instant)
    }

    fn to_duration(self, now: &Now) -> (r: Result<Span, ResolveError>) {
        Ok(self.span_from(now))
    }
}

impl ToDuration for TimeOfDay {
    open spec fn resolves_to(self, now: Now, r: Result<Span, ResolveError>) -> bool {
        time_of_day_resolves_to(self, now, r)
    }

    fn to_duration(self, now: &Now) -> (r: Result<Span, ResolveError>) {
        self.span_to_next(now)
    }
}

impl WaitSpec {
    /// Reads a wait specification, trying in order: a duration, an RFC 3339 timestamp, an
    /// RFC 2822 timestamp, the local date and time formats, and the time-of-day formats. A
    /// timestamp that is not after `now` is an error, not a reason to try further formats.
    pub fn parse(value: &str, now: Timestamp) -> (r: Result<WaitSpec, ParseError>)
        ensures
            duration_nanos(value.spec_bytes()) is Ok ==> r == Ok::<WaitSpec, ParseError>(
                WaitSpec::Duration(Span { nanos: duration_nanos(value.spec_bytes())->Ok_0 as u128 }),
            ),
            duration_nanos(value.spec_bytes()) is Err && rfc3339_instant(value@) is Some ==> r
                == instant_outcome(rfc3339_instant(value@)->0, now),
            duration_nanos(value.spec_bytes()) is Err && rfc3339_instant(value@) is None
                && rfc2822_instant(value@) is Some ==> r == instant_outcome(
                rfc2822_instant(value@)->0,
                now,
            ),
            duration_nanos(value.spec_bytes()) is Err && rfc3339_instant(value@) is None
                && rfc2822_instant(value@) is None && (forall|k: int|
                0 <= k < 4 ==> #[trigger] naive_datetime_of(value@, local_format(k)) is None)
                ==> r == time_outcome(value@),
            duration_nanos(value.spec_bytes()) is Err && rfc3339_instant(value@) is None
                && rfc2822_instant(value@) is None ==> (r == time_outcome(value@) || r == Err::<
                WaitSpec,
                ParseError,
            >(ParseError::TimestampInPast) || r matches Ok(WaitSpec::DateTime(_))),
            r matches Ok(WaitSpec::DateTime(t)) ==> t.value() > now.value(),
            r matches Ok(WaitSpec::NaiveTime(t)) ==> t.wf(),
    {
        proof {
            reveal_strlit("%Y-%m-%d %H:%M:%S");
            reveal_strlit("%Y-%m-%d %H:%M");
            reveal_strlit("%Y-%m-%dT%H:%M:%S");
            reveal_strlit("%Y-%m-%dT%H:%M");
            assert(naive_datetime_of(value@, local_format(0)) == naive_datetime_of(
                value@,
                "%Y-%m-%d %H:%M:%S"@,
            ));
            assert(naive_datetime_of(value@, local_format(1)) == naive_datetime_of(
                value@,
                "%Y-%m-%d %H:%M"@,
            ));
            assert(naive_datetime_of(value@, local_format(2)) == naive_datetime_of(
                value@,
                "%Y-%m-%dT%H:%M:%S"@,
            ));
            assert(naive_datetime_of(value@, local_format(3)) == naive_datetime_of(
                value@,
                "%Y-%m-%dT%H:%M"@,
            ));
        }
        if let Ok(d) = parse_duration_str(value) {
            return Ok(WaitSpec::Duration(d));
        }
        if let Some(t) = parse_rfc3339(value) {
            return check_instant(t, now);
        }
        if let Some(t) = parse_rfc2822(value) {
            return check_instant(t, now);
        }
        if let Some(r) = try_local_format(value, "%Y-%m-%d %H:%M:%S", now) {
            return r;
        }
        if let Some(r) = try_local_format(value, "%Y-%m-%d %H:%M", now) {
            return r;
        }
        if let Some(r) = try_local_format(value, "%Y-%m-%dT%H:%M:%S", now) {
            return r;
        }
        if let Some(r) = try_local_format(value, "%Y-%m-%dT%H:%M", now) {
            return r;
        }
        parse_time_of_day(value)
    }

    /// The span to wait: a duration as it stands, an instant less `now` (zero once it is past),
    /// a time of day until its next occurrence.
    pub fn resolve(self, now: &Now) -> (r: Result<Span, ResolveError>)
        ensures
            self matches WaitSpec::Duration(s) ==> r == Ok::<Span, ResolveError>(s),
            self matches WaitSpec::DateTime(t) ==> t.resolves_to(*now, r),
            self matches WaitSpec::NaiveTime(t) ==> t.resolves_to(*now, r),
    {
        match self {
            WaitSpec::Duration(s) => Ok(s),
            WaitSpec::DateTime(t) => Ok(t.span_from(now)),
            WaitSpec::NaiveTime(t) => t.span_to_next(now),
        }
    }
}

} // verus!
