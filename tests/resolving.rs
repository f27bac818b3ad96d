use chrono::{Datelike, Local, NaiveDate, TimeZone, Timelike};
use yawn::wait_spec::{check_instant, check_placed, next_occurrence, settle};
use yawn::{
    LocalDateTime, LocalInstant, Now, ParseError, ResolveError, Span, TimeOfDay, Timestamp,
    ToDuration, WaitSpec,
};

const TEN_AM_UTC: i64 = 1_704_103_200;
const JAN_FIRST_2024: i32 = 738_886;

fn at(secs: i64) -> Timestamp {
    Timestamp { secs, nanos: 0 }
}

fn now_at(secs: i64) -> Now {
    Now {
        instant: at(secs),
        local: LocalDateTime { day: JAN_FIRST_2024, time: TimeOfDay { secs: 0, frac: 0 } },
    }
}

fn local_now(h: u32, m: u32) -> Now {
    let naive = NaiveDate::from_ymd_opt(2024, 1, 1).unwrap().and_hms_opt(h, m, 0).unwrap();
    let dt = Local.from_local_datetime(&naive).single().unwrap();
    Now {
        instant: Timestamp { secs: dt.timestamp(), nanos: dt.timestamp_subsec_nanos() },
        local: LocalDateTime {
            day: naive.date().num_days_from_ce(),
            time: TimeOfDay { secs: naive.time().num_seconds_from_midnight(), frac: 0 },
        },
    }
}

#[test]
fn rfc3339_in_the_past() {
    let now = at(TEN_AM_UTC);
    assert_eq!(
        WaitSpec::parse("2024-01-01T09:59:59Z", now),
        Err(ParseError::TimestampInPast)
    );
    assert_eq!(
        WaitSpec::parse("2024-01-01T09:59:59+00:00", now),
        Err(ParseError::TimestampInPast)
    );
}

#[test]
fn rfc3339_in_the_future() {
    let now = at(TEN_AM_UTC);
    let spec = WaitSpec::parse("2024-01-01T10:00:01Z", now).unwrap();
    assert_eq!(spec, WaitSpec::DateTime(at(TEN_AM_UTC + 1)));
    assert_eq!(spec.resolve(&now_at(TEN_AM_UTC + 1)), Ok(Span { nanos: 0 }));
    assert_eq!(spec.resolve(&now_at(TEN_AM_UTC)), Ok(Span { nanos: 1_000_000_000 }));
    assert_eq!(
        WaitSpec::parse("1996-12-19T16:39:57-08:00", at(0)),
        Ok(WaitSpec::DateTime(at(851_042_397)))
    );
}

#[test]
fn rfc3339_equal_to_now_is_in_the_past() {
    let now = at(TEN_AM_UTC);
    assert_eq!(
        WaitSpec::parse("2024-01-01T10:00:00Z", now),
        Err(ParseError::TimestampInPast)
    );
    assert_eq!(check_instant(now, now), Err(ParseError::TimestampInPast));
}

#[test]
fn unrepresentable_local_time_does_not_exist() {
    let now = now_at(0);
    let leap_mid_minute = TimeOfDay { secs: 3600, frac: 1_500_000_000 };
    assert_eq!(
        leap_mid_minute.to_duration(&now),
        Err(ResolveError::NonexistentLocalTime)
    );
}

#[test]
fn rfc2822_timestamps() {
    assert_eq!(
        WaitSpec::parse("Tue, 1 Jul 2003 10:52:37 +0200", at(0)),
        Ok(WaitSpec::DateTime(at(1_057_049_557)))
    );
    assert_eq!(
        WaitSpec::parse("Tue, 1 Jul 2003 10:52:37 +0200", at(TEN_AM_UTC)),
        Err(ParseError::TimestampInPast)
    );
}

#[test]
fn local_date_time_formats() {
    let expected = Local
        .from_local_datetime(
            &NaiveDate::from_ymd_opt(2005, 1, 3).unwrap().and_hms_opt(12, 23, 34).unwrap(),
        )
        .single()
        .unwrap()
        .timestamp();
    assert_eq!(
        WaitSpec::parse("2005-01-03 12:23:34", at(0)),
        Ok(WaitSpec::DateTime(at(expected)))
    );
    assert_eq!(
        WaitSpec::parse("2005-01-03T12:23:34", at(0)),
        Ok(WaitSpec::DateTime(at(expected)))
    );
    assert_eq!(
        WaitSpec::parse("2005-01-03 12:23", at(0)),
        Ok(WaitSpec::DateTime(at(expected - 34)))
    );
    assert_eq!(
        WaitSpec::parse("2005-01-03 12:23:34", at(TEN_AM_UTC)),
        Err(ParseError::TimestampInPast)
    );
}

#[test]
fn daily_time_later_today() {
    let now = local_now(10, 0);
    let t = TimeOfDay { secs: 14 * 3600 + 23 * 60, frac: 0 };
    assert_eq!(
        next_occurrence(t, now.local),
        Some(LocalDateTime { day: JAN_FIRST_2024, time: t })
    );
    let spec = WaitSpec::parse("14:23", now.instant).unwrap();
    assert_eq!(spec, WaitSpec::NaiveTime(t));
    let target = local_now(14, 23).instant;
    let wait = (target.secs - now.instant.secs) as u128 * 1_000_000_000;
    assert_eq!(spec.resolve(&now), Ok(Span { nanos: wait }));
}

#[test]
fn daily_time_rolls_to_tomorrow() {
    let now = local_now(15, 0);
    let t = TimeOfDay { secs: 14 * 3600 + 23 * 60, frac: 0 };
    assert_eq!(
        next_occurrence(t, now.local),
        Some(LocalDateTime { day: JAN_FIRST_2024 + 1, time: t })
    );
    let naive = NaiveDate::from_ymd_opt(2024, 1, 2).unwrap().and_hms_opt(14, 23, 0).unwrap();
    let target = Local.from_local_datetime(&naive).single().unwrap().timestamp();
    let wait = (target - now.instant.secs) as u128 * 1_000_000_000;
    assert_eq!(t.to_duration(&now), Ok(Span { nanos: wait }));
}

#[test]
fn daily_time_equal_to_now_rolls_over() {
    let now = local_now(14, 23);
    let t = TimeOfDay { secs: 14 * 3600 + 23 * 60, frac: 0 };
    assert_eq!(
        next_occurrence(t, now.local),
        Some(LocalDateTime { day: JAN_FIRST_2024 + 1, time: t })
    );
}

#[test]
fn resolve_is_never_negative() {
    let now = now_at(TEN_AM_UTC);
    assert_eq!(WaitSpec::DateTime(at(TEN_AM_UTC)).resolve(&now), Ok(Span { nanos: 0 }));
    assert_eq!(WaitSpec::DateTime(at(TEN_AM_UTC - 5)).resolve(&now), Ok(Span { nanos: 0 }));
    assert_eq!(at(TEN_AM_UTC - 5).to_duration(&now), Ok(Span { nanos: 0 }));
    let later = Timestamp { secs: TEN_AM_UTC, nanos: 250 };
    assert_eq!(later.span_from(&now), Span { nanos: 250 });
    assert_eq!(
        WaitSpec::Duration(Span { nanos: 42 }).resolve(&now),
        Ok(Span { nanos: 42 })
    );
}

#[test]
fn local_time_edge_cases() {
    let a = at(100);
    let b = at(3700);
    assert_eq!(
        settle(LocalInstant::Ambiguous(a, b), at(0)),
        Err(ResolveError::AmbiguousLocalTime(a, b))
    );
    assert_eq!(
        settle(LocalInstant::Nonexistent, at(0)),
        Err(ResolveError::NonexistentLocalTime)
    );
    assert_eq!(settle(LocalInstant::Single(b), a), Ok(Span { nanos: 3_600_000_000_000 }));
    let end_of_days = Now {
        instant: at(0),
        local: LocalDateTime { day: i32::MAX, time: TimeOfDay { secs: 80_000, frac: 0 } },
    };
    assert_eq!(
        WaitSpec::NaiveTime(TimeOfDay { secs: 60, frac: 0 }).resolve(&end_of_days),
        Err(ResolveError::NonexistentLocalTime)
    );
}

#[test]
fn placed_local_times() {
    let now = at(TEN_AM_UTC);
    assert_eq!(check_placed(LocalInstant::Nonexistent, now), None);
    assert_eq!(check_placed(LocalInstant::Ambiguous(now, now), now), None);
    assert_eq!(
        check_placed(LocalInstant::Single(at(TEN_AM_UTC - 1)), now),
        Some(Err(ParseError::TimestampInPast))
    );
    assert_eq!(
        check_instant(at(TEN_AM_UTC + 1), now),
        Ok(WaitSpec::DateTime(at(TEN_AM_UTC + 1)))
    );
    let leap = Timestamp { secs: TEN_AM_UTC - 1, nanos: 1_500_000_000 };
    assert!(!leap.is_before(&now));
    assert_eq!(leap.nanos_since_epoch(), TEN_AM_UTC as i128 * 1_000_000_000 + 500_000_000);
}
