//! The core conversions: a duration decomposes into day/hour/minute/second
//! unit fields (encode), and a component record reassembles into a duration,
//! with calendar units rejected (decode).

use crate::arith::{lemma_tdiv_small, lemma_tdiv_tmod, tdiv, tmod};
use crate::duration::{lemma_from_total_nanos_unique, Duration, NANOS_PER_SECOND};
use crate::record::{
    ComponentRecord, FieldValue, SECONDS_PER_DAY, SECONDS_PER_HOUR, SECONDS_PER_MINUTE,
};
use vstd::prelude::*;

verus! {

/// Why a decode failed: the text did not match the duration grammar, or the
/// parsed record used calendar units (years or months), which have no fixed
/// length and are refused rather than approximated.
#[derive(Clone, Copy, Debug, PartialEq, Eq, Structural)]
pub enum DecodeError {
    Grammar,
    CalendarUnits,
}

/// The record the encoder produces for a duration: whole seconds split into
/// days, hours, minutes and a seconds remainder by truncating division, the
/// nanosecond remainder kept as the seconds field's fraction, and the
/// calendar fields left at zero.
pub open spec fn record_of(d: Duration) -> ComponentRecord {
    let s = d.seconds as int;
    let days = tdiv(s, SECONDS_PER_DAY as int);
    let r1 = tmod(s, SECONDS_PER_DAY as int);
    let hours = tdiv(r1, SECONDS_PER_HOUR as int);
    let r2 = tmod(r1, SECONDS_PER_HOUR as int);
    let minutes = tdiv(r2, SECONDS_PER_MINUTE as int);
    let rem = tmod(r2, SECONDS_PER_MINUTE as int);
    ComponentRecord {
        years: FieldValue::spec_zero(),
        months: FieldValue::spec_zero(),
        days: FieldValue { whole: days as i64, frac_nanos: 0 },
        hours: FieldValue { whole: hours as i64, frac_nanos: 0 },
        minutes: FieldValue { whole: minutes as i64, frac_nanos: 0 },
        seconds: FieldValue { whole: rem as i64, frac_nanos: d.nanoseconds },
    }
}

/// The sum of the fractional parts of the four unit fields, each scaled to
/// nanoseconds.
pub open spec fn fract_sum_nanos(r: ComponentRecord) -> int {
    r.days.frac_nanos * (SECONDS_PER_DAY as int) + r.hours.frac_nanos * (SECONDS_PER_HOUR as int)
        + r.minutes.frac_nanos * (SECONDS_PER_MINUTE as int) + r.seconds.frac_nanos
}

/// The whole seconds a record decodes to: the whole parts of the unit fields
/// scaled to seconds, plus the whole seconds carried out of the fractions.
pub open spec fn decoded_seconds(r: ComponentRecord) -> int {
    r.days.whole * (SECONDS_PER_DAY as int) + r.hours.whole * (SECONDS_PER_HOUR as int)
        + r.minutes.whole * (SECONDS_PER_MINUTE as int) + r.seconds.whole + tdiv(
        fract_sum_nanos(r),
        NANOS_PER_SECOND as int,
    )
}

/// The decoded whole-second count fits the machine representation. This is
/// the one machine limit on decoding; every record the text parser yields
/// satisfies it.
pub open spec fn in_convertible_range(r: ComponentRecord) -> bool {
    i64::MIN <= decoded_seconds(r) <= i64::MAX
}

/// Decompose a duration into calendar-free unit fields that name exactly the
/// same elapsed time.
pub fn encode_record(d: &Duration) -> (r: ComponentRecord)
    requires
        d.wf(),
    ensures
        r == record_of(*d),
        r.wf(),
        r.calendar_free(),
        r.dhms_nanos() == d.total_nanos(),
        in_convertible_range(r),
{
    proof {
        lemma_tdiv_tmod(d.seconds as int, SECONDS_PER_DAY as int);
        lemma_tdiv_tmod(tmod(d.seconds as int, SECONDS_PER_DAY as int), SECONDS_PER_HOUR as int);
        lemma_tdiv_tmod(
            tmod(
                tmod(d.seconds as int, SECONDS_PER_DAY as int),
                SECONDS_PER_HOUR as int,
            ),
            SECONDS_PER_MINUTE as int,
        );
    }
    let days: i64 = d.seconds.checked_div(SECONDS_PER_DAY).unwrap();
    let r1: i64 = d.seconds.checked_rem(SECONDS_PER_DAY).unwrap();
    let hours: i64 = r1.checked_div(SECONDS_PER_HOUR).unwrap();
    let r2: i64 = r1.checked_rem(SECONDS_PER_HOUR).unwrap();
    let minutes: i64 = r2.checked_div(SECONDS_PER_MINUTE).unwrap();
    let rem: i64 = r2.checked_rem(SECONDS_PER_MINUTE).unwrap();
    let r = ComponentRecord {
        years: FieldValue::zero(),
        months: FieldValue::zero(),
        days: FieldValue { whole: days, frac_nanos: 0 },
        hours: FieldValue { whole: hours, frac_nanos: 0 },
        minutes: FieldValue { whole: minutes, frac_nanos: 0 },
        seconds: FieldValue { whole: rem, frac_nanos: d.nanoseconds },
    };
    proof {
        lemma_tdiv_small(d.nanoseconds as int, NANOS_PER_SECOND as int);
    }
    r
}

/// Reassemble a duration from a record, or fail on calendar units. On
/// success the result is exactly the well-formed duration whose length in
/// nanoseconds is the record's: fractional unit values are carried down into
/// whole seconds and a nanosecond remainder.
pub fn decode_record(r: &ComponentRecord) -> (res: Result<Duration, DecodeError>)
    requires
        r.wf(),
        r.calendar_free() ==> in_convertible_range(*r),
    ensures
        res is Ok <==> r.calendar_free(),
        r.calendar_free() ==> res == Ok::<Duration, DecodeError>(
            Duration::from_total_nanos(r.dhms_nanos()),
        ),
        !r.calendar_free() ==> res == Err::<Duration, DecodeError>(DecodeError::CalendarUnits),
        res is Ok ==> res->Ok_0.wf() && res->Ok_0.total_nanos() == r.dhms_nanos(),
{
    if !(r.years.whole == 0 && r.years.frac_nanos == 0 && r.months.whole == 0
        && r.months.frac_nanos == 0) {
        proof {
            lemma_field_zero_iff_parts_zero(r.years);
            lemma_field_zero_iff_parts_zero(r.months);
        }
        return Err(DecodeError::CalendarUnits);
    }
    proof {
        lemma_tdiv_tmod(fract_sum_nanos(*r), NANOS_PER_SECOND as int);
    }
    let fract: i64 = (r.days.frac_nanos as i64) * SECONDS_PER_DAY + (r.hours.frac_nanos as i64)
        * SECONDS_PER_HOUR + (r.minutes.frac_nanos as i64) * SECONDS_PER_MINUTE + (
    r.seconds.frac_nanos as i64);
    let carry: i64 = fract.checked_div(NANOS_PER_SECOND as i64).unwrap();
    let ns: i64 = fract.checked_rem(NANOS_PER_SECOND as i64).unwrap();
    let total: i128 = (r.days.whole as i128) * (SECONDS_PER_DAY as i128) + (r.hours.whole as i128)
        * (SECONDS_PER_HOUR as i128) + (r.minutes.whole as i128) * (SECONDS_PER_MINUTE as i128) + (
    r.seconds.whole as i128) + (carry as i128);
    let seconds: i64 = total as i64;
    proof {
        lemma_tdiv_small(ns as int, NANOS_PER_SECOND as int);
        lemma_dhms_split(*r);
    }
    let d = Duration::new(seconds, ns as i32);
    proof {
        lemma_tdiv_tmod(r.dhms_nanos(), NANOS_PER_SECOND as int);
    }
    Ok(d)
}

/// Under canonical fixed-point form, a field is zero exactly when both of
/// its parts are.
proof fn lemma_field_zero_iff_parts_zero(f: FieldValue)
    requires
        f.wf(),
    ensures
        f.nanos() == 0 <==> f.whole == 0 && f.frac_nanos == 0,
{
    if f.whole >= 1 {
        assert(f.whole * (NANOS_PER_SECOND as int) >= NANOS_PER_SECOND as int);
    }
    if f.whole <= -1 {
        assert(f.whole * (NANOS_PER_SECOND as int) <= -(NANOS_PER_SECOND as int));
    }
}

/// The record's elapsed time splits into whole-second and fractional parts:
/// scaling each field's whole part and summing, then adding the scaled
/// fractional parts, reproduces it exactly.
proof fn lemma_dhms_split(r: ComponentRecord)
    ensures
        r.dhms_nanos() == (r.days.whole * (SECONDS_PER_DAY as int) + r.hours.whole * (
        SECONDS_PER_HOUR as int) + r.minutes.whole * (SECONDS_PER_MINUTE as int)
            + r.seconds.whole) * (NANOS_PER_SECOND as int) + fract_sum_nanos(r),
{
}

/// Every record the text parser yields can be decoded without overflow: its
/// fields are canonical and small enough that the whole-second total fits.
pub proof fn lemma_parsed_record_convertible(t: Seq<char>)
    ensures
        crate::text::parse_record(t) is Some ==> {
            let r = crate::text::parse_record(t)->Some_0;
            &&& r.wf()
            &&& in_convertible_range(r)
        },
{
    crate::text::lemma_parse_record_bounds(t);
    if crate::text::parse_record(t) is Some {
        let r = crate::text::parse_record(t)->Some_0;
        lemma_tdiv_tmod(fract_sum_nanos(r), NANOS_PER_SECOND as int);
    }
}

/// Produce the ISO 8601 duration text of a duration: its unit decomposition,
/// printed.
pub fn encode(d: &Duration) -> (s: String)
    requires
        d.wf(),
    ensures
        s@ == crate::text::record_text(record_of(*d)),
{
    let r = encode_record(d);
    crate::text::record_to_text(&r)
}

/// Decode ISO 8601 duration text: parse it, reject calendar units, and
/// reassemble the duration. Exactly the grammar failures give `Grammar`,
/// exactly the parsed records with a non-zero year or month field give
/// `CalendarUnits`, and every other text gives the duration its record
/// names.
pub fn decode(s: &str) -> (res: Result<Duration, DecodeError>)
    ensures
        res == Err::<Duration, DecodeError>(DecodeError::Grammar) <==> crate::text::parse_record(
            s@,
        ) is None,
        res == Err::<Duration, DecodeError>(DecodeError::CalendarUnits) <==> (
        crate::text::parse_record(s@) is Some && !crate::text::parse_record(
            s@,
        )->Some_0.calendar_free()),
        res is Ok <==> (crate::text::parse_record(s@) is Some && crate::text::parse_record(
            s@,
        )->Some_0.calendar_free()),
        res is Ok ==> res->Ok_0.wf() && res->Ok_0 == Duration::from_total_nanos(
            crate::text::parse_record(s@)->Some_0.dhms_nanos(),
        ),
{
    proof {
        lemma_parsed_record_convertible(s@);
    }
    match crate::text::parse_text(s) {
        None => Err(DecodeError::Grammar),
        Some(r) => decode_record(&r),
    }
}

/// Decoding inverts encoding: for every well-formed duration, the record the
/// encoder produces is calendar-free and reassembles into the original
/// duration exactly.
pub proof fn lemma_record_round_trip(d: Duration)
    requires
        d.wf(),
    ensures
        record_of(d).wf(),
        record_of(d).calendar_free(),
        in_convertible_range(record_of(d)),
        Duration::from_total_nanos(record_of(d).dhms_nanos()) == d,
{
    let r = record_of(d);
    lemma_tdiv_tmod(d.seconds as int, SECONDS_PER_DAY as int);
    lemma_tdiv_tmod(tmod(d.seconds as int, SECONDS_PER_DAY as int), SECONDS_PER_HOUR as int);
    lemma_tdiv_tmod(
        tmod(tmod(d.seconds as int, SECONDS_PER_DAY as int), SECONDS_PER_HOUR as int),
        SECONDS_PER_MINUTE as int,
    );
    lemma_tdiv_small(d.nanoseconds as int, NANOS_PER_SECOND as int);
    assert(r.dhms_nanos() == d.total_nanos());
    lemma_from_total_nanos_unique(d, d.total_nanos());
}

/// The text round-trip law: every strictly positive well-formed duration of
/// at most `MAX_PARSED_WHOLE` days encodes to text that parses back to
/// exactly its own record, which in turn decodes to exactly the original
/// duration — sub-second part included. The zero duration is excluded: it
/// prints as the bare `P`, which the grammar rejects; negative durations
/// print no fields at all and are likewise rejected.
pub proof fn lemma_text_round_trip(d: Duration)
    requires
        d.wf(),
        d.total_nanos() > 0,
        d.seconds <= crate::text::MAX_PARSED_WHOLE * SECONDS_PER_DAY,
    ensures
        crate::text::parse_record(crate::text::record_text(record_of(d))) == Some(record_of(d)),
        record_of(d).calendar_free(),
        in_convertible_range(record_of(d)),
        Duration::from_total_nanos(record_of(d).dhms_nanos()) == d,
{
    let s = d.seconds as int;
    let r = record_of(d);
    assert(d.seconds >= 0);
    lemma_record_round_trip(d);
    lemma_tdiv_tmod(s, SECONDS_PER_DAY as int);
    lemma_tdiv_tmod(tmod(s, SECONDS_PER_DAY as int), SECONDS_PER_HOUR as int);
    lemma_tdiv_tmod(
        tmod(tmod(s, SECONDS_PER_DAY as int), SECONDS_PER_HOUR as int),
        SECONDS_PER_MINUTE as int,
    );
    let cap = crate::text::MAX_PARSED_WHOLE as int;
    assert(s / (SECONDS_PER_DAY as int) <= (cap * (SECONDS_PER_DAY as int)) / (
    SECONDS_PER_DAY as int)) by {
        vstd::arithmetic::div_mod::lemma_div_is_ordered(
            s,
            cap * (SECONDS_PER_DAY as int),
            SECONDS_PER_DAY as int,
        );
    }
    assert((cap * (SECONDS_PER_DAY as int)) / (SECONDS_PER_DAY as int) == cap) by {
        vstd::arithmetic::div_mod::lemma_div_by_multiple(cap, SECONDS_PER_DAY as int);
    }
    let r1 = tmod(s, SECONDS_PER_DAY as int);
    assert(r1 / (SECONDS_PER_HOUR as int) <= 86399int / (SECONDS_PER_HOUR as int)) by {
        vstd::arithmetic::div_mod::lemma_div_is_ordered(r1, 86399int, SECONDS_PER_HOUR as int);
    }
    let r2 = tmod(r1, SECONDS_PER_HOUR as int);
    assert(r2 / (SECONDS_PER_MINUTE as int) <= 3599int / (SECONDS_PER_MINUTE as int)) by {
        vstd::arithmetic::div_mod::lemma_div_is_ordered(r2, 3599int, SECONDS_PER_MINUTE as int);
    }
    if r.days.whole == 0 && r.hours.whole == 0 && r.minutes.whole == 0 && r.seconds.nanos() <= 0 {
        assert(s == r.seconds.whole);
        assert(r.seconds.whole >= 0);
        assert(r.seconds.whole >= 1 ==> r.seconds.nanos() >= NANOS_PER_SECOND as int);
        assert(r.seconds.whole == 0);
        assert(d.total_nanos() <= 0);
        assert(false);
    }
    crate::text::lemma_print_parse_round_trip(r);
}

} // verus!
