use yawn::{
    format_millis, parse_duration_str, parse_duration_str_with_units, ParseError, Span,
    TimeOfDay, Timestamp, WaitSpec,
};

fn millis(ms: u128) -> Span {
    Span { nanos: ms * 1_000_000 }
}

fn secs(s: u128) -> Span {
    Span { nanos: s * 1_000_000_000 }
}

fn epoch() -> Timestamp {
    Timestamp { secs: 0, nanos: 0 }
}

#[test]
fn whole_seconds() {
    assert_eq!(parse_duration_str("123"), Ok(secs(123)));
    assert_eq!(parse_duration_str("0"), Ok(secs(0)));
    assert_eq!(parse_duration_str("+7"), Ok(secs(7)));
    for n in [1u64, 9, 10, 86_400, 4_000_000_000, u64::MAX] {
        assert_eq!(parse_duration_str(&n.to_string()), Ok(secs(n as u128)));
    }
}

#[test]
fn decimal_seconds_truncate() {
    assert_eq!(parse_duration_str("123.45"), Ok(Span { nanos: 123_450_000_000 }));
    assert_eq!(parse_duration_str("1.5"), Ok(Span { nanos: 1_500_000_000 }));
    assert_eq!(parse_duration_str(".25"), Ok(Span { nanos: 250_000_000 }));
    assert_eq!(parse_duration_str("3."), Ok(secs(3)));
    assert_eq!(parse_duration_str("0.1234567899"), Ok(Span { nanos: 123_456_789 }));
    assert!(parse_duration_str(".").is_err());
}

#[test]
fn compound_units_exact_sum() {
    let expected = 1 * 86_400_000 + 2 * 3_600_000 + 3 * 60_000 + 4 * 1000 + 5;
    assert_eq!(parse_duration_str("1d2h3m4s5ms"), Ok(millis(expected)));
    assert_eq!(parse_duration_str_with_units("1d2h3m4s5ms"), Ok(93_784_005));
    assert_eq!(parse_duration_str("1d15m"), Ok(millis(86_400_000 + 15 * 60_000)));
    assert_eq!(parse_duration_str("250ms"), Ok(millis(250)));
    assert_eq!(parse_duration_str("2m"), Ok(millis(120_000)));
    assert_eq!(parse_duration_str("007s"), Ok(millis(7000)));
}

#[test]
fn unit_ordering_violation() {
    assert_eq!(parse_duration_str("1h2d"), Err(ParseError::InvalidUnitOrdering));
    assert_eq!(parse_duration_str("1s2m"), Err(ParseError::InvalidUnitOrdering));
}

#[test]
fn duplicate_unit() {
    assert_eq!(parse_duration_str("1h2h"), Err(ParseError::InvalidUnitOrdering));
    assert_eq!(parse_duration_str("1ms2ms"), Err(ParseError::InvalidUnitOrdering));
}

#[test]
fn missing_or_invalid_unit() {
    assert_eq!(parse_duration_str("123"), Ok(secs(123)));
    assert_eq!(parse_duration_str("12x"), Err(ParseError::InvalidUnit));
    assert_eq!(parse_duration_str("12s34"), Err(ParseError::MissingUnit));
    assert_eq!(parse_duration_str("1d2"), Err(ParseError::MissingUnit));
}

#[test]
fn malformed_numbers() {
    assert_eq!(parse_duration_str(""), Err(ParseError::MalformedNumber));
    assert_eq!(parse_duration_str("h"), Err(ParseError::MalformedNumber));
    assert_eq!(parse_duration_str("1hs"), Err(ParseError::MalformedNumber));
    assert_eq!(
        parse_duration_str("99999999999999999999s"),
        Err(ParseError::MalformedNumber)
    );
}

#[test]
fn duration_overflow() {
    assert_eq!(parse_duration_str("300000000000d"), Err(ParseError::DurationOverflow));
    assert_eq!(parse_duration_str("213503982334d15h"), Err(ParseError::DurationOverflow));
    assert_eq!(
        parse_duration_str_with_units("213503982334d14h"),
        Ok(18_446_744_073_708_000_000)
    );
}

#[test]
fn canonical_form_round_trip() {
    assert_eq!(format_millis(93_784_005), b"1d2h3m4s5ms".to_vec());
    assert_eq!(format_millis(0), b"0ms".to_vec());
    assert_eq!(format_millis(60_000), b"1m".to_vec());
    assert_eq!(format_millis(86_400_001), b"1d1ms".to_vec());
    for ms in [0u64, 1, 999, 1000, 61_000, 93_784_005, 3_600_000, u64::MAX] {
        let text = String::from_utf8(format_millis(ms)).unwrap();
        assert_eq!(parse_duration_str_with_units(&text), Ok(ms));
        assert_eq!(parse_duration_str(&text), Ok(millis(ms as u128)));
    }
}

#[test]
fn span_parts() {
    let s = Span { nanos: 5_250_000_000 };
    assert_eq!(s.whole_secs(), 5);
    assert_eq!(s.subsec_nanos(), 250_000_000);
    assert_eq!(Span::zero(), Span { nanos: 0 });
}

#[test]
fn duration_wins_over_other_formats() {
    assert_eq!(WaitSpec::parse("1425", epoch()), Ok(WaitSpec::Duration(secs(1425))));
    assert_eq!(WaitSpec::parse("1d2h", epoch()), Ok(WaitSpec::Duration(millis(93_600_000))));
}

#[test]
fn unrecognized_input() {
    assert_eq!(WaitSpec::parse("hello", epoch()), Err(ParseError::UnrecognizedFormat));
    assert_eq!(WaitSpec::parse("1h2d", epoch()), Err(ParseError::UnrecognizedFormat));
    assert_eq!(WaitSpec::parse("", epoch()), Err(ParseError::UnrecognizedFormat));
}

#[test]
fn time_of_day_formats() {
    assert_eq!(
        WaitSpec::parse("14:23", epoch()),
        Ok(WaitSpec::NaiveTime(TimeOfDay { secs: 14 * 3600 + 23 * 60, frac: 0 }))
    );
    assert_eq!(
        WaitSpec::parse("14:23:45", epoch()),
        Ok(WaitSpec::NaiveTime(TimeOfDay { secs: 14 * 3600 + 23 * 60 + 45, frac: 0 }))
    );
    assert_eq!(
        WaitSpec::parse("14:23:45.678", epoch()),
        Ok(WaitSpec::NaiveTime(TimeOfDay { secs: 14 * 3600 + 23 * 60 + 45, frac: 678_000_000 }))
    );
    assert_eq!(
        WaitSpec::parse("8:12 pm", epoch()),
        Ok(WaitSpec::NaiveTime(TimeOfDay { secs: 20 * 3600 + 12 * 60, frac: 0 }))
    );
}

#[test]
fn ordering_violation_after_valid_prefix() {
    assert_eq!(parse_duration_str("1d2m5h9s"), Err(ParseError::InvalidUnitOrdering));
    assert_eq!(parse_duration_str("3h4m4m"), Err(ParseError::InvalidUnitOrdering));
    assert_eq!(parse_duration_str("1s2sXYZ"), Err(ParseError::InvalidUnitOrdering));
}

#[test]
fn bare_number_after_valid_prefix() {
    assert_eq!(parse_duration_str("1d2h3m4s5ms7"), Err(ParseError::MissingUnit));
    assert_eq!(parse_duration_str("2h30"), Err(ParseError::MissingUnit));
}

#[test]
fn float_seconds_with_exponent() {
    assert_eq!(parse_duration_str("1e3"), Ok(secs(1000)));
    assert_eq!(parse_duration_str("1.5e2"), Ok(secs(150)));
    assert_eq!(parse_duration_str("2E-3"), Ok(millis(2)));
    assert_eq!(parse_duration_str("1E+2"), Ok(secs(100)));
    assert_eq!(parse_duration_str(".5e1"), Ok(secs(5)));
    assert_eq!(parse_duration_str("1.e3"), Ok(secs(1000)));
    assert_eq!(parse_duration_str("1e-10"), Ok(Span { nanos: 0 }));
    assert_eq!(parse_duration_str("25e-10"), Ok(Span { nanos: 2 }));
    assert!(parse_duration_str("1e").is_err());
    assert!(parse_duration_str("e3").is_err());
    assert!(parse_duration_str("1e3.5").is_err());
}

#[test]
fn negative_floats_wait_nothing() {
    assert_eq!(parse_duration_str("-0.0"), Ok(Span { nanos: 0 }));
    assert_eq!(parse_duration_str("-5"), Ok(Span { nanos: 0 }));
    assert_eq!(parse_duration_str("-1.5e3"), Ok(Span { nanos: 0 }));
}

#[test]
fn huge_floats_saturate() {
    let max = Span { nanos: u64::MAX as u128 };
    assert_eq!(parse_duration_str("1e400"), Ok(max));
    assert_eq!(parse_duration_str("99999999999999999999"), Ok(max));
    assert_eq!(parse_duration_str("18446744073709551615.5"), Ok(max));
    assert_eq!(parse_duration_str("1e99999999999999999999999999999999999"), Ok(max));
    assert_eq!(parse_duration_str("0e99999999999999999999999999999999999"), Ok(Span { nanos: 0 }));
    assert_eq!(parse_duration_str("1e-99999999999999999999999999999999999"), Ok(Span { nanos: 0 }));
}

#[test]
fn leading_zeros_in_compound_errors() {
    assert_eq!(parse_duration_str("007d02h3h"), Err(ParseError::InvalidUnitOrdering));
    assert_eq!(parse_duration_str("01h002"), Err(ParseError::MissingUnit));
}

#[test]
fn invalid_unit_after_valid_prefix() {
    assert_eq!(parse_duration_str("1d2h5x9"), Err(ParseError::InvalidUnit));
    assert_eq!(parse_duration_str("3m4s5 "), Err(ParseError::InvalidUnit));
}

#[test]
fn five_unit_form_round_trip() {
    assert_eq!(parse_duration_str("0d0h1m0s0ms"), Ok(millis(60_000)));
    for ms in [0u64, 5, 61_001, 93_784_005, 86_400_000 * 3 + 7, u64::MAX] {
        let text = format!(
            "{}d{}h{}m{}s{}ms",
            ms / 86_400_000,
            ms / 3_600_000 % 24,
            ms / 60_000 % 60,
            ms / 1000 % 60,
            ms % 1000
        );
        assert_eq!(parse_duration_str(&text), Ok(millis(ms as u128)));
    }
}
