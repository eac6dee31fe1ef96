use iso8601_codec::codec::{decode, encode, DecodeError};
use iso8601_codec::duration::Duration;

fn days(n: i64) -> Duration {
    Duration::new(n * 86_400, 0)
}

fn hours(n: i64) -> Duration {
    Duration::new(n * 3_600, 0)
}

fn minutes(n: i64) -> Duration {
    Duration::new(n * 60, 0)
}

fn seconds(n: i64) -> Duration {
    Duration::new(n, 0)
}

fn total_nanos(d: &Duration) -> i128 {
    d.whole_seconds() as i128 * 1_000_000_000 + d.subsec_nanoseconds() as i128
}

#[test]
fn test_positive_duration_with_days() {
    let duration = days(5);
    let text = encode(&duration);
    assert_eq!(text, "P5D");
    let decoded = decode(&text).unwrap();
    assert_eq!(duration, decoded);
}

#[test]
fn test_positive_duration_with_hours() {
    let duration = hours(3);
    let text = encode(&duration);
    assert_eq!(text, "PT3H");
    let decoded = decode(&text).unwrap();
    assert_eq!(duration, decoded);
}

#[test]
fn test_positive_duration_with_minutes() {
    let duration = minutes(30);
    let text = encode(&duration);
    assert_eq!(text, "PT30M");
    let decoded = decode(&text).unwrap();
    assert_eq!(duration, decoded);
}

#[test]
fn test_positive_duration_with_seconds() {
    let duration = seconds(45);
    let text = encode(&duration);
    assert_eq!(text, "PT45S");
    let decoded = decode(&text).unwrap();
    assert_eq!(duration, decoded);
}

#[test]
fn test_complex_positive_duration() {
    let duration = Duration::new(2 * 86_400 + 3 * 3_600 + 30 * 60 + 15, 0);
    let text = encode(&duration);
    assert_eq!(text, "P2DT3H30M15S");
    let decoded = decode(&text).unwrap();
    assert_eq!(duration, decoded);
}

#[test]
fn test_duration_with_fractional_seconds() {
    let duration = Duration::new(10, 500_000_000);
    let text = encode(&duration);
    let decoded = decode(&text).unwrap();
    assert_eq!(decoded.whole_seconds(), duration.whole_seconds());
    assert!(total_nanos(&decoded) - total_nanos(&duration) < 1_000_000_000);
    assert!(total_nanos(&duration) - total_nanos(&decoded) < 1_000_000_000);
}

#[test]
fn test_deserialize_iso8601_variants() {
    let decoded = decode("P7D").unwrap();
    assert_eq!(decoded, days(7));

    let decoded = decode("PT5H").unwrap();
    assert_eq!(decoded, hours(5));

    let decoded = decode("PT30M").unwrap();
    assert_eq!(decoded, minutes(30));

    let decoded = decode("PT45S").unwrap();
    assert_eq!(decoded, seconds(45));

    let decoded = decode("P1DT12H30M45S").unwrap();
    assert_eq!(
        decoded,
        Duration::new(86_400 + 12 * 3_600 + 30 * 60 + 45, 0)
    );

    let decoded = decode("PT10.5S").unwrap();
    assert!(total_nanos(&decoded) > total_nanos(&seconds(10)));
    assert!(total_nanos(&decoded) < total_nanos(&seconds(11)));
}

#[test]
fn test_fractional_seconds_exact() {
    let decoded = decode("PT10.5S").unwrap();
    assert_eq!(decoded, Duration::new(10, 500_000_000));
}

#[test]
fn test_comma_fraction() {
    assert_eq!(decode("PT10,5S").unwrap(), decode("PT10.5S").unwrap());
}

#[test]
fn test_week_format() {
    assert_eq!(decode("P2W").unwrap(), days(14));
    assert_eq!(decode("P0.5W").unwrap(), Duration::new(302_400, 0));
}

#[test]
fn test_fractional_units_carry() {
    // Half a day is 43200 s; 1.5 minutes is 90 s.
    assert_eq!(decode("P0.5D").unwrap(), Duration::new(43_200, 0));
    assert_eq!(decode("PT1.5M").unwrap(), Duration::new(90, 0));
}

#[test]
fn test_calendar_units_rejected() {
    assert_eq!(decode("P1Y"), Err(DecodeError::CalendarUnits));
    assert_eq!(decode("P3M"), Err(DecodeError::CalendarUnits));
    assert_eq!(decode("P1Y2M3DT4H5M6S"), Err(DecodeError::CalendarUnits));
    assert_eq!(decode("P0.5Y"), Err(DecodeError::CalendarUnits));
}

#[test]
fn test_grammar_rejected() {
    assert_eq!(decode(""), Err(DecodeError::Grammar));
    assert_eq!(decode("P"), Err(DecodeError::Grammar));
    assert_eq!(decode("PT"), Err(DecodeError::Grammar));
    assert_eq!(decode("5D"), Err(DecodeError::Grammar));
    assert_eq!(decode("P5X"), Err(DecodeError::Grammar));
    assert_eq!(decode("P5W3D"), Err(DecodeError::Grammar));
    assert_eq!(decode("P5D "), Err(DecodeError::Grammar));
    assert_eq!(decode("P5D6"), Err(DecodeError::Grammar));
}

#[test]
fn test_trailing_t_is_accepted() {
    // The upstream grammar treats a trailing `T` after a date component as
    // harmless, so the codec does too.
    assert_eq!(decode("P5DT").unwrap(), days(5));
}

#[test]
fn test_zero_and_negative_print_bare() {
    // Only strictly positive fields are printed, so the zero and negative
    // durations collapse to the bare designator, which the grammar refuses
    // to read back.
    assert_eq!(encode(&Duration::new(0, 0)), "P");
    assert_eq!(encode(&Duration::new(-5, 0)), "P");
    assert_eq!(decode("P"), Err(DecodeError::Grammar));
}

#[test]
fn test_large_magnitude_round_trip_is_approximate() {
    // Beyond a few billion days the original narrowing to 32-bit floats
    // loses whole seconds; the codec only promises the round trip within a
    // second there.
    let duration = Duration::new(4_000_000_000 * 86_400 + 12_345, 678_000_000);
    let text = encode(&duration);
    let decoded = decode(&text).unwrap();
    assert!(total_nanos(&decoded) - total_nanos(&duration) < 1_000_000_000);
    assert!(total_nanos(&duration) - total_nanos(&decoded) < 1_000_000_000);
}

#[test]
fn test_whole_round_trip() {
    let samples: Vec<i64> = vec![1, 59, 60, 61, 3_599, 3_600, 86_399, 86_400, 86_401, 123_456_789];
    for s in samples {
        let duration = seconds(s);
        assert_eq!(decode(&encode(&duration)).unwrap(), duration);
    }
}
