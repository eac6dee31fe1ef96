use iso8601_codec::codec::{decode_record, encode_record, DecodeError};
use iso8601_codec::duration::Duration;
use iso8601_codec::record::{ComponentRecord, FieldValue};
use iso8601_codec::text::{parse_text, record_to_text};

fn whole(n: i64) -> FieldValue {
    FieldValue { whole: n, frac_nanos: 0 }
}

fn zero_record() -> ComponentRecord {
    ComponentRecord {
        years: whole(0),
        months: whole(0),
        days: whole(0),
        hours: whole(0),
        minutes: whole(0),
        seconds: whole(0),
    }
}

#[test]
fn test_new_normalizes() {
    assert_eq!(Duration::new(1, -500_000_000), Duration::new(0, 500_000_000));
    assert_eq!(Duration::new(0, 1_500_000_000), Duration::new(1, 500_000_000));
    assert_eq!(Duration::new(-1, 500_000_000), Duration::new(0, -500_000_000));
    let d = Duration::new(-2, 1_500_000_000);
    assert_eq!(d.whole_seconds(), 0);
    assert_eq!(d.subsec_nanoseconds(), -500_000_000);
}

#[test]
fn test_encode_record_decomposition() {
    let d = Duration::new(2 * 86_400 + 3 * 3_600 + 30 * 60 + 15, 250_000_000);
    let r = encode_record(&d);
    assert_eq!(r.years, whole(0));
    assert_eq!(r.months, whole(0));
    assert_eq!(r.days, whole(2));
    assert_eq!(r.hours, whole(3));
    assert_eq!(r.minutes, whole(30));
    assert_eq!(r.seconds, FieldValue { whole: 15, frac_nanos: 250_000_000 });
}

#[test]
fn test_encode_record_negative() {
    let d = Duration::new(-(86_400 + 3_600 + 60 + 1), -500_000_000);
    let r = encode_record(&d);
    assert_eq!(r.days, whole(-1));
    assert_eq!(r.hours, whole(-1));
    assert_eq!(r.minutes, whole(-1));
    assert_eq!(r.seconds, FieldValue { whole: -1, frac_nanos: -500_000_000 });
}

#[test]
fn test_decode_record_rejects_calendar_units() {
    let mut r = zero_record();
    r.years = whole(1);
    r.days = whole(400);
    assert_eq!(decode_record(&r), Err(DecodeError::CalendarUnits));

    let mut r = zero_record();
    r.months = FieldValue { whole: 0, frac_nanos: 1 };
    assert_eq!(decode_record(&r), Err(DecodeError::CalendarUnits));
}

#[test]
fn test_decode_record_carries_fractions() {
    let mut r = zero_record();
    r.days = FieldValue { whole: 1, frac_nanos: 500_000_000 };
    r.seconds = FieldValue { whole: 1, frac_nanos: 250_000_000 };
    let d = decode_record(&r).unwrap();
    assert_eq!(d.whole_seconds(), 86_400 + 43_200 + 1);
    assert_eq!(d.subsec_nanoseconds(), 250_000_000);
}

#[test]
fn test_record_round_trip() {
    let d = Duration::new(86_400 + 2 * 3_600 + 3 * 60 + 4, 5);
    let r = encode_record(&d);
    assert_eq!(decode_record(&r).unwrap(), d);
}

#[test]
fn test_printer_matches_expected_text() {
    let mut r = zero_record();
    r.days = whole(2);
    r.seconds = FieldValue { whole: 1, frac_nanos: 500_000_000 };
    let text = record_to_text(&r);
    assert_eq!(text, "P2DT1.5S");
}

#[test]
fn test_printer_trims_trailing_fraction_zeros() {
    let mut r = zero_record();
    r.seconds = FieldValue { whole: 0, frac_nanos: 100_000 };
    assert_eq!(record_to_text(&r), "PT0.0001S");
}

#[test]
fn test_parser_positions_of_m_designator() {
    // `M` before `T` is months, after `T` it is minutes.
    let r = parse_text("P2M").unwrap();
    assert_eq!(r.months, whole(2));
    assert_eq!(r.minutes, whole(0));
    let r = parse_text("PT2M").unwrap();
    assert_eq!(r.months, whole(0));
    assert_eq!(r.minutes, whole(2));
}

#[test]
fn test_parser_caps_whole_part() {
    assert_eq!(parse_text("P10000000000000D").map(|r| r.days), Some(whole(10_000_000_000_000)));
    assert!(parse_text("P10000000000001D").is_none());
}

#[test]
fn test_parser_keeps_nine_fraction_digits() {
    let r = parse_text("PT0.123456789123S").unwrap();
    assert_eq!(r.seconds, FieldValue { whole: 0, frac_nanos: 123_456_789 });
}
