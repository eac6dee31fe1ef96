//! The ISO 8601 duration text grammar: printing a component record as
//! `P[nY][nM][nD][T[nH][nM][nS]]` and parsing that shape (plus the week form
//! `PnW`) back into a record.
//!
//! Printing follows the usual convention for this format: a field appears
//! exactly when its value is strictly positive, and the `T` separator appears
//! exactly when at least one time field does. Numbers may carry a fraction,
//! printed with `.` and accepted with `.` or `,`, significant to nine
//! fractional digits. Parsed whole parts are capped at `MAX_PARSED_WHOLE`;
//! longer numbers are grammar errors.

use crate::record::{ComponentRecord, FieldValue};
use crate::duration::NANOS_PER_SECOND;
use vstd::prelude::*;
use vstd::string::StrSliceExecFns;
use vstd::string::StringExecFns;

verus! {

/// Largest whole part the parser accepts in a single number.
pub const MAX_PARSED_WHOLE: i64 = 10_000_000_000_000;

pub open spec fn is_digit(c: char) -> bool {
    '0' <= c && c <= '9'
}

pub open spec fn digit_val(c: char) -> int {
    c as u32 - '0' as u32
}

pub open spec fn digit_char(d: int) -> char {
    if d == 0 {
        '0'
    } else if d == 1 {
        '1'
    } else if d == 2 {
        '2'
    } else if d == 3 {
        '3'
    } else if d == 4 {
        '4'
    } else if d == 5 {
        '5'
    } else if d == 6 {
        '6'
    } else if d == 7 {
        '7'
    } else if d == 8 {
        '8'
    } else {
        '9'
    }
}

/// The decimal digits of `n >= 0`, most significant first, no leading zeros
/// (zero itself prints as `0`).
pub open spec fn decimal_digits(n: int) -> Seq<char>
    decreases n,
{
    if n < 10 {
        seq![digit_char(n)]
    } else {
        decimal_digits(n / 10).push(digit_char(n % 10))
    }
}

/// The digits of the fraction `f / (10 * p)`, where `p` is the place value
/// of the first digit; printing stops once the rest is zero, so trailing
/// zeros never appear.
pub open spec fn fraction_digits(f: int, p: int) -> Seq<char>
    decreases p,
{
    if f <= 0 || p <= 0 {
        seq![]
    } else {
        seq![digit_char(f / p)] + fraction_digits(f % p, p / 10)
    }
}

/// The text of one number: the whole part, then the fractional digits after
/// a `.` when a fraction is present.
pub open spec fn number_text(x: FieldValue) -> Seq<char> {
    decimal_digits(x.whole as int) + (if x.frac_nanos > 0 {
        seq!['.'] + fraction_digits(x.frac_nanos as int, 100_000_000)
    } else {
        seq![]
    })
}

/// The text of one field: its number and designator when the value is
/// strictly positive, nothing otherwise.
pub open spec fn field_text(x: FieldValue, designator: char) -> Seq<char> {
    if x.nanos() > 0 {
        number_text(x).push(designator)
    } else {
        seq![]
    }
}

/// Whether the `T` separator appears: exactly when a time field does.
pub open spec fn has_time_fields(r: ComponentRecord) -> bool {
    r.hours.nanos() > 0 || r.minutes.nanos() > 0 || r.seconds.nanos() > 0
}

/// The full printed text of a record.
pub open spec fn record_text(r: ComponentRecord) -> Seq<char> {
    seq!['P'] + field_text(r.years, 'Y') + field_text(r.months, 'M') + field_text(r.days, 'D') + (
    if has_time_fields(r) {
        seq!['T']
    } else {
        seq![]
    }) + field_text(r.hours, 'H') + field_text(r.minutes, 'M') + field_text(r.seconds, 'S')
}

fn push_digit(out: &mut String, d: u32)
    requires
        d < 10,
    ensures
        final(out)@ == old(out)@ + seq![digit_char(d as int)],
{
    proof {
        reveal_strlit("0");
        reveal_strlit("1");
        reveal_strlit("2");
        reveal_strlit("3");
        reveal_strlit("4");
        reveal_strlit("5");
        reveal_strlit("6");
        reveal_strlit("7");
        reveal_strlit("8");
        reveal_strlit("9");
    }
    match d {
        0 => out.append("0"),
        1 => out.append("1"),
        2 => out.append("2"),
        3 => out.append("3"),
        4 => out.append("4"),
        5 => out.append("5"),
        6 => out.append("6"),
        7 => out.append("7"),
        8 => out.append("8"),
        _ => out.append("9"),
    }
    assert(out@ =~= old(out)@ + seq![digit_char(d as int)]);
}

fn push_decimal(out: &mut String, n: u64)
    ensures
        final(out)@ == old(out)@ + decimal_digits(n as int),
    decreases n,
{
    if n >= 10 {
        push_decimal(out, n / 10);
    }
    push_digit(out, (n % 10) as u32);
    assert(out@ =~= old(out)@ + decimal_digits(n as int));
}

/// The place values a fraction is printed over.
pub open spec fn is_place_value(p: int) -> bool {
    p == 1 || p == 10 || p == 100 || p == 1_000 || p == 10_000 || p == 100_000 || p == 1_000_000
        || p == 10_000_000 || p == 100_000_000
}

fn push_fraction_digits(out: &mut String, f: u32, p: u32)
    requires
        is_place_value(p as int),
        f < 10 * p,
    ensures
        final(out)@ == old(out)@ + fraction_digits(f as int, p as int),
    decreases p,
{
    if f > 0 && p > 0 {
        push_digit(out, f / p);
        if p >= 10 {
            push_fraction_digits(out, f % p, p / 10);
        } else {
            assert(f % p == 0);
        }
        assert(out@ =~= old(out)@ + fraction_digits(f as int, p as int));
    }
}

/// Strictly-positive test for a canonical field.
fn field_is_positive(x: &FieldValue) -> (b: bool)
    requires
        x.wf(),
    ensures
        b == (x.nanos() > 0),
{
    proof {
        if x.whole >= 1 {
            assert(x.whole * (NANOS_PER_SECOND as int) >= NANOS_PER_SECOND as int);
        }
        if x.whole <= -1 {
            assert(x.whole * (NANOS_PER_SECOND as int) <= -(NANOS_PER_SECOND as int));
        }
    }
    x.whole > 0 || (x.whole == 0 && x.frac_nanos > 0)
}

fn push_field(out: &mut String, x: &FieldValue, designator: &str, Ghost(c): Ghost<char>)
    requires
        x.wf(),
        designator@ == seq![c],
    ensures
        final(out)@ == old(out)@ + field_text(*x, c),
{
    if field_is_positive(x) {
        proof {
            if x.whole <= -1 {
                assert(x.whole * (NANOS_PER_SECOND as int) <= -(NANOS_PER_SECOND as int));
            }
        }
        push_decimal(out, x.whole as u64);
        if x.frac_nanos > 0 {
            proof {
                reveal_strlit(".");
            }
            out.append(".");
            assert(out@ =~= old(out)@ + decimal_digits(x.whole as int) + seq!['.']);
            push_fraction_digits(out, x.frac_nanos as u32, 100_000_000);
        }
        out.append(designator);
        assert(out@ =~= old(out)@ + field_text(*x, c));
    }
}

/// Print a record in the ISO 8601 duration shape.
pub fn record_to_text(r: &ComponentRecord) -> (s: String)
    requires
        r.wf(),
    ensures
        s@ == record_text(*r),
{
    let mut out = String::new();
    proof {
        reveal_strlit("P");
        reveal_strlit("T");
        reveal_strlit("Y");
        reveal_strlit("M");
        reveal_strlit("D");
        reveal_strlit("H");
        reveal_strlit("S");
        assert(("Y")@ =~= seq!['Y']);
        assert(("M")@ =~= seq!['M']);
        assert(("D")@ =~= seq!['D']);
        assert(("H")@ =~= seq!['H']);
        assert(("S")@ =~= seq!['S']);
    }
    out.append("P");
    push_field(&mut out, &r.years, "Y", Ghost('Y'));
    push_field(&mut out, &r.months, "M", Ghost('M'));
    push_field(&mut out, &r.days, "D", Ghost('D'));
    if field_is_positive(&r.hours) || field_is_positive(&r.minutes) || field_is_positive(
        &r.seconds,
    ) {
        out.append("T");
    }
    push_field(&mut out, &r.hours, "H", Ghost('H'));
    push_field(&mut out, &r.minutes, "M", Ghost('M'));
    push_field(&mut out, &r.seconds, "S", Ghost('S'));
    assert(out@ =~= record_text(*r));
    out
}

// ------------------------------------------------------------------
// Parsing
// ------------------------------------------------------------------

/// First position at or after `i` holding no digit.
pub open spec fn digits_end(t: Seq<char>, i: int) -> int
    decreases t.len() - i,
{
    if 0 <= i < t.len() && is_digit(t[i]) {
        digits_end(t, i + 1)
    } else {
        i
    }
}

/// The number named by the digits `t[i..j)`, most significant first.
pub open spec fn digits_value(t: Seq<char>, i: int, j: int) -> int
    decreases j - i,
{
    if i < j {
        digits_value(t, i, j - 1) * 10 + digit_val(t[j - 1])
    } else {
        0
    }
}

pub open spec fn pow10(k: int) -> int
    decreases k,
{
    if k <= 0 {
        1
    } else {
        10 * pow10(k - 1)
    }
}

/// The fraction named by the digits `t[i..j)`, in billionths: the first nine
/// digits are significant, further ones are beyond the resolution kept here.
pub open spec fn fraction_value(t: Seq<char>, i: int, j: int) -> int {
    if j - i >= 9 {
        digits_value(t, i, i + 9)
    } else {
        digits_value(t, i, j) * pow10(9 - (j - i))
    }
}

/// A number at position `i`: digits with an optional `.` or `,` fraction, at
/// least one digit in all, the whole part within `MAX_PARSED_WHOLE`. Yields
/// the value and the position after it.
pub open spec fn parse_number(t: Seq<char>, i: int) -> Option<(FieldValue, int)> {
    let e = digits_end(t, i);
    let whole = digits_value(t, i, e);
    if e < t.len() && (t[e] == '.' || t[e] == ',') {
        let fe = digits_end(t, e + 1);
        if e == i && fe == e + 1 {
            None
        } else if whole > MAX_PARSED_WHOLE {
            None
        } else {
            Some(
                (
                    FieldValue {
                        whole: whole as i64,
                        frac_nanos: fraction_value(t, e + 1, fe) as i32,
                    },
                    fe,
                ),
            )
        }
    } else if e == i {
        None
    } else if whole > MAX_PARSED_WHOLE {
        None
    } else {
        Some((FieldValue { whole: whole as i64, frac_nanos: 0 }, e))
    }
}

/// One optional component `<number><designator>`: consumed only when the
/// number is directly followed by the expected designator, otherwise nothing
/// is consumed.
pub open spec fn parse_component(t: Seq<char>, i: int, designator: char) -> (Option<
    FieldValue,
>, int) {
    let num = parse_number(t, i);
    if num is Some && num->Some_0.1 < t.len() && t[num->Some_0.1] == designator {
        (Some(num->Some_0.0), num->Some_0.1 + 1)
    } else {
        (None, i)
    }
}

pub open spec fn field_or_zero(x: Option<FieldValue>) -> FieldValue {
    match x {
        Some(v) => v,
        None => FieldValue::spec_zero(),
    }
}

/// A week count converted to days: seven times the value, renormalized.
pub open spec fn week_days(w: FieldValue) -> FieldValue {
    FieldValue {
        whole: (w.whole * 7 + (w.frac_nanos * 7) / (NANOS_PER_SECOND as int)) as i64,
        frac_nanos: ((w.frac_nanos * 7) % (NANOS_PER_SECOND as int)) as i32,
    }
}

pub open spec fn week_record(w: FieldValue) -> ComponentRecord {
    ComponentRecord {
        years: FieldValue::spec_zero(),
        months: FieldValue::spec_zero(),
        days: week_days(w),
        hours: FieldValue::spec_zero(),
        minutes: FieldValue::spec_zero(),
        seconds: FieldValue::spec_zero(),
    }
}

/// The basic form after `P`: optional year, month and day components, then
/// optionally `T` and optional hour, minute and second components. The text
/// must end there, and at least one component must be present.
pub open spec fn parse_basic(t: Seq<char>, i: int) -> Option<ComponentRecord> {
    let (y, i1) = parse_component(t, i, 'Y');
    let (mo, i2) = parse_component(t, i1, 'M');
    let (dy, i3) = parse_component(t, i2, 'D');
    if i3 < t.len() && t[i3] == 'T' {
        let (h, i4) = parse_component(t, i3 + 1, 'H');
        let (mi, i5) = parse_component(t, i4, 'M');
        let (se, i6) = parse_component(t, i5, 'S');
        if i6 == t.len() && (y is Some || mo is Some || dy is Some || h is Some || mi is Some
            || se is Some) {
            Some(
                ComponentRecord {
                    years: field_or_zero(y),
                    months: field_or_zero(mo),
                    days: field_or_zero(dy),
                    hours: field_or_zero(h),
                    minutes: field_or_zero(mi),
                    seconds: field_or_zero(se),
                },
            )
        } else {
            None
        }
    } else if i3 == t.len() && (y is Some || mo is Some || dy is Some) {
        Some(
            ComponentRecord {
                years: field_or_zero(y),
                months: field_or_zero(mo),
                days: field_or_zero(dy),
                hours: FieldValue::spec_zero(),
                minutes: FieldValue::spec_zero(),
                seconds: FieldValue::spec_zero(),
            },
        )
    } else {
        None
    }
}

/// The whole grammar: `P`, then either the week form `nW` (which must end
/// the text) or the basic form. The week form is committed to as soon as a
/// number followed by `W` stands at the front.
pub open spec fn parse_record(t: Seq<char>) -> Option<ComponentRecord> {
    if t.len() == 0 || t[0] != 'P' {
        None
    } else {
        let wk = parse_number(t, 1);
        if wk is Some && wk->Some_0.1 < t.len() && t[wk->Some_0.1] == 'W' {
            if wk->Some_0.1 + 1 == t.len() {
                Some(week_record(wk->Some_0.0))
            } else {
                None
            }
        } else {
            parse_basic(t, 1)
        }
    }
}

fn scan_digits(s: &str, i: usize) -> (e: usize)
    requires
        i as int <= s@.len(),
    ensures
        e as int == digits_end(s@, i as int),
        i <= e,
        e as int <= s@.len(),
        forall|k: int| i <= k < e ==> is_digit(#[trigger] s@[k]),
        (e as int) < s@.len() ==> !is_digit(s@[e as int]),
    decreases s@.len() - i as int,
{
    let n = s.unicode_len();
    if i < n {
        let c = s.get_char(i);
        let u = c as u32;
        if 48 <= u && u <= 57 {
            return scan_digits(s, i + 1);
        }
    }
    i
}

proof fn lemma_digits_value_nonneg(t: Seq<char>, i: int, j: int)
    requires
        forall|m: int| i <= m < j ==> is_digit(#[trigger] t[m]),
    ensures
        digits_value(t, i, j) >= 0,
    decreases j - i,
{
    if i < j {
        lemma_digits_value_nonneg(t, i, j - 1);
    }
}

/// Extending a digit run to the right never shrinks its value.
proof fn lemma_digits_value_mono(t: Seq<char>, i: int, k: int, j: int)
    requires
        i <= k <= j,
        forall|m: int| i <= m < j ==> is_digit(#[trigger] t[m]),
    ensures
        digits_value(t, i, j) >= digits_value(t, i, k),
    decreases j - k,
{
    lemma_digits_value_nonneg(t, i, k);
    if k < j {
        lemma_digits_value_mono(t, i, k, j - 1);
        lemma_digits_value_nonneg(t, i, j - 1);
    }
}

/// `j - i` digits name a number below `pow10(j - i)`.
proof fn lemma_digits_value_bound(t: Seq<char>, i: int, j: int)
    requires
        forall|m: int| i <= m < j ==> is_digit(#[trigger] t[m]),
    ensures
        0 <= digits_value(t, i, j),
        digits_value(t, i, j) < pow10(j - i),
    decreases j - i,
{
    if i < j {
        lemma_digits_value_bound(t, i, j - 1);
    }
}

proof fn lemma_pow10_adds(a: int, b: int)
    requires
        a >= 0,
        b >= 0,
    ensures
        pow10(a + b) == pow10(a) * pow10(b),
        pow10(a) >= 1,
        pow10(b) >= 1,
    decreases a,
{
    if a == 0 {
        lemma_pow10_pos(b);
    } else {
        lemma_pow10_adds(a - 1, b);
        assert(10 * (pow10(a - 1) * pow10(b)) == (10 * pow10(a - 1)) * pow10(b))
            by (nonlinear_arith);
    }
}

proof fn lemma_pow10_pos(a: int)
    ensures
        pow10(a) >= 1,
    decreases a,
{
    if a > 0 {
        lemma_pow10_pos(a - 1);
    }
}

/// A fraction read from any digit run stays below one unit.
proof fn lemma_fraction_value_bound(t: Seq<char>, i: int, j: int)
    requires
        i <= j,
        forall|m: int| i <= m < j ==> is_digit(#[trigger] t[m]),
    ensures
        0 <= fraction_value(t, i, j) < NANOS_PER_SECOND as int,
    decreases j - i,
{
    if j - i >= 9 {
        lemma_digits_value_bound(t, i, i + 9);
        assert(pow10(9) == 1_000_000_000) by {
            reveal_with_fuel(pow10, 11);
        }
    } else {
        let c = j - i;
        lemma_digits_value_bound(t, i, j);
        lemma_pow10_adds(c, 9 - c);
        assert(pow10(9) == 1_000_000_000) by {
            reveal_with_fuel(pow10, 11);
        }
        assert(digits_value(t, i, j) * pow10(9 - c) <= (pow10(c) - 1) * pow10(9 - c))
            by (nonlinear_arith)
            requires
                digits_value(t, i, j) <= pow10(c) - 1,
                pow10(9 - c) >= 1,
        ;
        assert((pow10(c) - 1) * pow10(9 - c) == pow10(c) * pow10(9 - c) - pow10(9 - c))
            by (nonlinear_arith);
        assert(digits_value(t, i, j) * pow10(9 - c) >= 0) by (nonlinear_arith)
            requires
                digits_value(t, i, j) >= 0,
                pow10(9 - c) >= 1,
        ;
    }
}

fn digits_to_whole(s: &str, i: usize, e: usize) -> (r: Option<i64>)
    requires
        i <= e,
        e as int <= s@.len(),
        forall|k: int| i <= k < e ==> is_digit(#[trigger] s@[k]),
    ensures
        r is Some ==> r->Some_0 == digits_value(s@, i as int, e as int) && 0 <= r->Some_0
            <= MAX_PARSED_WHOLE,
        r is None ==> digits_value(s@, i as int, e as int) > MAX_PARSED_WHOLE,
{
    let mut v: i64 = 0;
    let mut k: usize = i;
    while k < e
        invariant
            i <= k <= e,
            e as int <= s@.len(),
            forall|m: int| i <= m < e ==> is_digit(#[trigger] s@[m]),
            v == digits_value(s@, i as int, k as int),
            0 <= v <= MAX_PARSED_WHOLE,
        decreases e - k,
    {
        let c = s.get_char(k);
        let d = (c as u32) - 48;
        v = v * 10 + (d as i64);
        k = k + 1;
        if v > MAX_PARSED_WHOLE {
            proof {
                lemma_digits_value_mono(s@, i as int, k as int, e as int);
            }
            return None;
        }
    }
    Some(v)
}

fn pow10_exec(k: u32) -> (r: u32)
    requires
        k <= 9,
    ensures
        r == pow10(k as int),
    decreases k,
{
    proof {
        reveal_with_fuel(pow10, 11);
    }
    if k == 0 {
        1
    } else {
        let p = pow10_exec(k - 1);
        proof {
            lemma_pow10_pos(k as int - 1);
            assert(pow10(k as int - 1) <= pow10(8)) by {
                lemma_pow10_adds(k as int - 1, 9 - k as int);
                lemma_pow10_adds(8, 1);
                lemma_pow10_monotone(k as int - 1, 8);
            }
        }
        10 * p
    }
}

proof fn lemma_pow10_monotone(a: int, b: int)
    requires
        0 <= a <= b,
    ensures
        pow10(a) <= pow10(b),
    decreases b - a,
{
    if a < b {
        lemma_pow10_monotone(a, b - 1);
        lemma_pow10_pos(b - 1);
    }
}

fn digits_to_fraction(s: &str, i: usize, e: usize) -> (f: i32)
    requires
        i <= e,
        e as int <= s@.len(),
        forall|k: int| i <= k < e ==> is_digit(#[trigger] s@[k]),
    ensures
        f == fraction_value(s@, i as int, e as int),
        0 <= f < NANOS_PER_SECOND,
{
    let m: usize = if e - i >= 9 {
        i + 9
    } else {
        e
    };
    let mut v: u32 = 0;
    let mut k: usize = i;
    proof {
        lemma_digits_value_bound(s@, i as int, i as int);
        lemma_pow10_pos(0);
    }
    while k < m
        invariant
            i <= k <= m <= e,
            m - i <= 9,
            e as int <= s@.len(),
            forall|q: int| i <= q < e ==> is_digit(#[trigger] s@[q]),
            v == digits_value(s@, i as int, k as int),
            0 <= v < pow10(k as int - i as int),
        decreases m - k,
    {
        let c = s.get_char(k);
        let d = (c as u32) - 48;
        proof {
            assert(pow10(k as int - i as int) <= pow10(8)) by {
                lemma_pow10_monotone(k as int - i as int, 8);
            }
            assert(pow10(8) == 100_000_000) by {
                reveal_with_fuel(pow10, 11);
            }
        }
        v = v * 10 + d;
        k = k + 1;
    }
    let cnt: u32 = (m - i) as u32;
    let scale = pow10_exec(9 - cnt);
    proof {
        lemma_pow10_adds(cnt as int, 9 - cnt as int);
        assert(pow10(9) == 1_000_000_000) by {
            reveal_with_fuel(pow10, 11);
        }
        assert(v * scale <= (pow10(cnt as int) - 1) * pow10(9 - cnt as int)) by (nonlinear_arith)
            requires
                v <= pow10(cnt as int) - 1,
                scale == pow10(9 - cnt as int),
                scale >= 1,
                v >= 0,
        ;
        assert((pow10(cnt as int) - 1) * pow10(9 - cnt as int) == pow10(cnt as int) * pow10(
            9 - cnt as int,
        ) - pow10(9 - cnt as int)) by (nonlinear_arith);
        if e - i >= 9 {
            assert(fraction_value(s@, i as int, e as int) == digits_value(s@, i as int, m as int));
            assert(scale == 1);
        }
    }
    let f = v * scale;
    f as i32
}

fn parse_number_at(s: &str, i: usize) -> (r: Option<(FieldValue, usize)>)
    requires
        i as int <= s@.len(),
    ensures
        (r is Some) == (parse_number(s@, i as int) is Some),
        r is Some ==> parse_number(s@, i as int) == Some(
            (r->Some_0.0, r->Some_0.1 as int),
        ),
        r is Some ==> i <= r->Some_0.1 && r->Some_0.1 as int <= s@.len(),
{
    let n = s.unicode_len();
    let e = scan_digits(s, i);
    let mut has_sep = false;
    if e < n {
        let c = s.get_char(e);
        if c == '.' || c == ',' {
            has_sep = true;
        }
    }
    if has_sep {
        let fe = scan_digits(s, e + 1);
        if e == i && fe == e + 1 {
            return None;
        }
        match digits_to_whole(s, i, e) {
            Some(w) => {
                let f = digits_to_fraction(s, e + 1, fe);
                Some((FieldValue { whole: w, frac_nanos: f }, fe))
            },
            None => None,
        }
    } else {
        if e == i {
            return None;
        }
        match digits_to_whole(s, i, e) {
            Some(w) => Some((FieldValue { whole: w, frac_nanos: 0 }, e)),
            None => None,
        }
    }
}

fn parse_component_at(s: &str, i: usize, designator: char) -> (r: (Option<FieldValue>, usize))
    requires
        i as int <= s@.len(),
    ensures
        (r.0, r.1 as int) == parse_component(s@, i as int, designator),
        i <= r.1,
        r.1 as int <= s@.len(),
{
    let n = s.unicode_len();
    match parse_number_at(s, i) {
        Some((x, j)) => {
            if j < n {
                let c = s.get_char(j);
                if c == designator {
                    return (Some(x), j + 1);
                }
            }
            (None, i)
        },
        None => (None, i),
    }
}

fn unwrap_field(x: Option<FieldValue>) -> (f: FieldValue)
    ensures
        f == field_or_zero(x),
{
    match x {
        Some(v) => v,
        None => FieldValue { whole: 0, frac_nanos: 0 },
    }
}

/// Parse ISO 8601 duration text into a component record, or nothing when
/// the text does not match the grammar.
pub fn parse_text(s: &str) -> (r: Option<ComponentRecord>)
    ensures
        r == parse_record(s@),
{
    let n = s.unicode_len();
    if n == 0 {
        return None;
    }
    let first = s.get_char(0);
    if first != 'P' {
        return None;
    }
    let wk = parse_number_at(s, 1);
    match wk {
        Some((w, j)) => {
            if j < n {
                let c = s.get_char(j);
                if c == 'W' {
                    if j + 1 == n {
                        proof {
                            lemma_parse_number_field_wf(s@, 1);
                        }
                        let days = week_days_exec(w);
                        return Some(
                            ComponentRecord {
                                years: FieldValue { whole: 0, frac_nanos: 0 },
                                months: FieldValue { whole: 0, frac_nanos: 0 },
                                days,
                                hours: FieldValue { whole: 0, frac_nanos: 0 },
                                minutes: FieldValue { whole: 0, frac_nanos: 0 },
                                seconds: FieldValue { whole: 0, frac_nanos: 0 },
                            },
                        );
                    } else {
                        return None;
                    }
                }
            }
            parse_basic_at(s, 1)
        },
        None => parse_basic_at(s, 1),
    }
}

fn parse_basic_at(s: &str, i: usize) -> (r: Option<ComponentRecord>)
    requires
        i as int <= s@.len(),
    ensures
        r == parse_basic(s@, i as int),
{
    let n = s.unicode_len();
    let (y, i1) = parse_component_at(s, i, 'Y');
    let (mo, i2) = parse_component_at(s, i1, 'M');
    let (dy, i3) = parse_component_at(s, i2, 'D');
    let mut has_t = false;
    if i3 < n {
        let c = s.get_char(i3);
        if c == 'T' {
            has_t = true;
        }
    }
    if has_t {
        let (h, i4) = parse_component_at(s, i3 + 1, 'H');
        let (mi, i5) = parse_component_at(s, i4, 'M');
        let (se, i6) = parse_component_at(s, i5, 'S');
        if i6 == n && (y.is_some() || mo.is_some() || dy.is_some() || h.is_some() || mi.is_some()
            || se.is_some()) {
            Some(
                ComponentRecord {
                    years: unwrap_field(y),
                    months: unwrap_field(mo),
                    days: unwrap_field(dy),
                    hours: unwrap_field(h),
                    minutes: unwrap_field(mi),
                    seconds: unwrap_field(se),
                },
            )
        } else {
            None
        }
    } else {
        if i3 == n && (y.is_some() || mo.is_some() || dy.is_some()) {
            Some(
                ComponentRecord {
                    years: unwrap_field(y),
                    months: unwrap_field(mo),
                    days: unwrap_field(dy),
                    hours: FieldValue { whole: 0, frac_nanos: 0 },
                    minutes: FieldValue { whole: 0, frac_nanos: 0 },
                    seconds: FieldValue { whole: 0, frac_nanos: 0 },
                },
            )
        } else {
            None
        }
    }
}

/// A parsed number is canonical and within the parser's bounds.
proof fn lemma_parse_number_field_wf(t: Seq<char>, i: int)
    requires
        0 <= i,
    ensures
        parse_number(t, i) is Some ==> {
            let x = parse_number(t, i)->Some_0.0;
            &&& x.wf()
            &&& 0 <= x.whole <= MAX_PARSED_WHOLE
            &&& 0 <= x.frac_nanos < NANOS_PER_SECOND
        },
{
    if parse_number(t, i) is Some {
        let e = digits_end(t, i);
        lemma_digits_end_props(t, i);
        lemma_digits_value_nonneg(t, i, e);
        if e < t.len() && (t[e] == '.' || t[e] == ',') {
            let fe = digits_end(t, e + 1);
            lemma_digits_end_props(t, e + 1);
            lemma_fraction_value_bound(t, e + 1, fe);
        }
    }
}

/// Every position scanned over by `digits_end` holds a digit.
proof fn lemma_digits_end_props(t: Seq<char>, i: int)
    requires
        0 <= i,
    ensures
        i <= digits_end(t, i),
        digits_end(t, i) <= t.len() || digits_end(t, i) == i,
        forall|k: int| i <= k < digits_end(t, i) ==> is_digit(#[trigger] t[k]),
    decreases t.len() - i,
{
    if 0 <= i < t.len() && is_digit(t[i]) {
        lemma_digits_end_props(t, i + 1);
    }
}

/// A parsed component is either absent (and consumes nothing) or a
/// canonical in-bounds field; the position never moves backwards.
proof fn lemma_parse_component_wf(t: Seq<char>, i: int, designator: char)
    requires
        0 <= i,
    ensures
        ({
            let (x, j) = parse_component(t, i, designator);
            &&& i <= j
            &&& x is Some ==> {
                let v = x->Some_0;
                &&& v.wf()
                &&& 0 <= v.whole <= MAX_PARSED_WHOLE
                &&& 0 <= v.frac_nanos < NANOS_PER_SECOND
            }
        }),
{
    lemma_parse_number_field_wf(t, i);
    lemma_digits_end_props(t, i);
    let num = parse_number(t, i);
    if num is Some {
        let e = digits_end(t, i);
        if e < t.len() && (t[e] == '.' || t[e] == ',') {
            lemma_digits_end_props(t, e + 1);
        }
    }
}

/// Every record the parser yields is canonical, with nonnegative fields
/// within the parser's bounds (the day field may carry seven weeks' worth).
pub proof fn lemma_parse_record_bounds(t: Seq<char>)
    ensures
        parse_record(t) is Some ==> {
            let r = parse_record(t)->Some_0;
            &&& r.wf()
            &&& 0 <= r.years.whole <= MAX_PARSED_WHOLE
            &&& 0 <= r.months.whole <= MAX_PARSED_WHOLE
            &&& 0 <= r.days.whole <= 7 * MAX_PARSED_WHOLE + 7
            &&& 0 <= r.hours.whole <= MAX_PARSED_WHOLE
            &&& 0 <= r.minutes.whole <= MAX_PARSED_WHOLE
            &&& 0 <= r.seconds.whole <= MAX_PARSED_WHOLE
            &&& 0 <= r.years.frac_nanos < NANOS_PER_SECOND
            &&& 0 <= r.months.frac_nanos < NANOS_PER_SECOND
            &&& 0 <= r.days.frac_nanos < NANOS_PER_SECOND
            &&& 0 <= r.hours.frac_nanos < NANOS_PER_SECOND
            &&& 0 <= r.minutes.frac_nanos < NANOS_PER_SECOND
            &&& 0 <= r.seconds.frac_nanos < NANOS_PER_SECOND
        },
{
    if parse_record(t) is Some {
        let wk = parse_number(t, 1);
        if wk is Some && wk->Some_0.1 < t.len() && t[wk->Some_0.1] == 'W' {
            lemma_parse_number_field_wf(t, 1);
            let w = wk->Some_0.0;
            lemma_week_days_bounds(w);
        } else {
            let (y, i1) = parse_component(t, 1, 'Y');
            lemma_parse_component_wf(t, 1, 'Y');
            let (mo, i2) = parse_component(t, i1, 'M');
            lemma_parse_component_wf(t, i1, 'M');
            let (dy, i3) = parse_component(t, i2, 'D');
            lemma_parse_component_wf(t, i2, 'D');
            if i3 < t.len() && t[i3] == 'T' {
                let (h, i4) = parse_component(t, i3 + 1, 'H');
                lemma_parse_component_wf(t, i3 + 1, 'H');
                let (mi, i5) = parse_component(t, i4, 'M');
                lemma_parse_component_wf(t, i4, 'M');
                lemma_parse_component_wf(t, i5, 'S');
            }
        }
    }
}

/// Converting a bounded week count to days stays canonical and bounded.
proof fn lemma_week_days_bounds(w: FieldValue)
    requires
        0 <= w.whole <= MAX_PARSED_WHOLE,
        0 <= w.frac_nanos < NANOS_PER_SECOND,
    ensures
        week_days(w).wf(),
        0 <= week_days(w).whole <= 7 * MAX_PARSED_WHOLE + 7,
        0 <= week_days(w).frac_nanos < NANOS_PER_SECOND,
{
    let k = NANOS_PER_SECOND as int;
    let f7 = w.frac_nanos * 7;
    vstd::arithmetic::div_mod::lemma_fundamental_div_mod(f7, k);
    vstd::arithmetic::div_mod::lemma_mod_division_less_than_divisor(f7, k);
    vstd::arithmetic::div_mod::lemma_div_pos_is_pos(f7, k);
    vstd::arithmetic::div_mod::lemma_div_is_ordered(f7, 7 * (k - 1), k);
}

// ------------------------------------------------------------------
// Printing and parsing are inverse on whole-valued records
// ------------------------------------------------------------------

proof fn lemma_digit_char_val(dv: int)
    requires
        0 <= dv <= 9,
    ensures
        is_digit(digit_char(dv)),
        digit_val(digit_char(dv)) == dv,
{
}

/// The printed digits of a number are digits, at least one of them.
proof fn lemma_decimal_digits_props(n: int)
    requires
        n >= 0,
    ensures
        decimal_digits(n).len() >= 1,
        forall|k: int|
            0 <= k < decimal_digits(n).len() ==> is_digit(#[trigger] decimal_digits(n)[k]),
    decreases n,
{
    if n < 10 {
        lemma_digit_char_val(n);
    } else {
        lemma_decimal_digits_props(n / 10);
        lemma_digit_char_val(n % 10);
    }
}

/// Reading back the printed digits of `n` yields `n`.
proof fn lemma_digits_value_of_decimal(t: Seq<char>, i: int, n: int)
    requires
        0 <= i,
        n >= 0,
        i + decimal_digits(n).len() <= t.len(),
        t.subrange(i, i + decimal_digits(n).len() as int) == decimal_digits(n),
    ensures
        digits_value(t, i, i + decimal_digits(n).len() as int) == n,
    decreases n,
{
    let l = decimal_digits(n).len() as int;
    if n < 10 {
        lemma_digit_char_val(n);
        assert(t[i] == t.subrange(i, i + 1)[0]);
        assert(t[i] == digit_char(n));
        assert(digits_value(t, i, i + 1) == digits_value(t, i, i) * 10 + digit_val(t[i]));
        assert(digits_value(t, i, i) == 0);
    } else {
        lemma_decimal_digits_props(n / 10);
        let l0 = decimal_digits(n / 10).len() as int;
        assert(t.subrange(i, i + l0) =~= decimal_digits(n / 10));
        lemma_digits_value_of_decimal(t, i, n / 10);
        lemma_digit_char_val(n % 10);
        assert(t[i + l - 1] == t.subrange(i, i + l)[l - 1]);
        assert(t[i + l - 1] == digit_char(n % 10));
        assert(digits_value(t, i, i + l) == digits_value(t, i, i + l - 1) * 10 + digit_val(
            t[i + l - 1],
        ));
        vstd::arithmetic::div_mod::lemma_fundamental_div_mod(n, 10);
    }
}

/// `digits_end` stops exactly at the first non-digit.
proof fn lemma_digits_end_exact(t: Seq<char>, i: int, e: int)
    requires
        0 <= i <= e,
        e <= t.len(),
        forall|k: int| i <= k < e ==> is_digit(#[trigger] t[k]),
        e == t.len() || !is_digit(t[e]),
    ensures
        digits_end(t, i) == e,
    decreases e - i,
{
    if i < e {
        lemma_digits_end_exact(t, i + 1, e);
    }
}

/// Whether a character can continue or start a number.
pub open spec fn is_number_char(c: char) -> bool {
    is_digit(c) || c == '.' || c == ','
}

/// A digit run can be peeled from the left as well as from the right.
proof fn lemma_digits_value_left(t: Seq<char>, i: int, j: int)
    requires
        i < j,
    ensures
        digits_value(t, i, j) == digit_val(t[i]) * pow10(j - i - 1) + digits_value(t, i + 1, j),
    decreases j - i,
{
    if i + 1 < j {
        lemma_digits_value_left(t, i, j - 1);
        assert((digit_val(t[i]) * pow10(j - i - 2)) * 10 == digit_val(t[i]) * (pow10(j - i - 2)
            * 10)) by (nonlinear_arith);
        assert(pow10(j - i - 1) == 10 * pow10(j - i - 2));
        assert(digits_value(t, i, j) == digits_value(t, i, j - 1) * 10 + digit_val(t[j - 1]));
        assert(digits_value(t, i + 1, j) == digits_value(t, i + 1, j - 1) * 10 + digit_val(
            t[j - 1],
        ));
    } else {
        assert(digits_value(t, i, i + 1) == digits_value(t, i, i) * 10 + digit_val(t[i]));
        assert(digits_value(t, i, i) == 0);
        assert(digits_value(t, i + 1, j) == 0);
        assert(pow10(0) == 1);
    }
}

/// The printed digits of a fraction are digits, at most `q + 1` of them,
/// and reading them back at their place recovers the fraction exactly.
proof fn lemma_printed_fraction_reads_back(t: Seq<char>, i: int, f: int, q: int)
    requires
        0 <= i,
        0 <= q,
        0 < f < 10 * pow10(q),
        i + fraction_digits(f, pow10(q)).len() <= t.len(),
        t.subrange(i, i + fraction_digits(f, pow10(q)).len() as int) == fraction_digits(
            f,
            pow10(q),
        ),
    ensures
        1 <= fraction_digits(f, pow10(q)).len() <= q + 1,
        forall|k: int|
            i <= k < i + fraction_digits(f, pow10(q)).len() ==> is_digit(#[trigger] t[k]),
        digits_value(t, i, i + fraction_digits(f, pow10(q)).len() as int) * pow10(
            q + 1 - fraction_digits(f, pow10(q)).len(),
        ) == f,
    decreases q,
{
    let p = pow10(q);
    lemma_pow10_pos(q);
    let fd = fraction_digits(f, p);
    let l = fd.len() as int;
    vstd::arithmetic::div_mod::lemma_fundamental_div_mod(f, p);
    vstd::arithmetic::div_mod::lemma_mod_division_less_than_divisor(f, p);
    vstd::arithmetic::div_mod::lemma_div_pos_is_pos(f, p);
    let d0 = f / p;
    assert(d0 <= 9) by {
        if d0 >= 10 {
            assert(p * d0 >= p * 10) by (nonlinear_arith)
                requires
                    d0 >= 10,
                    p >= 1,
            ;
        }
    }
    lemma_digit_char_val(d0);
    assert(t[i] == t.subrange(i, i + l)[0]);
    assert(t[i] == digit_char(d0));
    if f % p == 0 {
        assert(fraction_digits(f % p, p / 10) =~= Seq::<char>::empty());
        assert(fd =~= seq![digit_char(d0)]);
        assert(l == 1);
        assert(digits_value(t, i, i + 1) == digits_value(t, i, i) * 10 + digit_val(t[i]));
        assert(digits_value(t, i, i + 1) == d0);
        assert(d0 * pow10(q) == f) by (nonlinear_arith)
            requires
                f == pow10(q) * d0 + f % pow10(q),
                f % pow10(q) == 0,
                d0 == f / pow10(q),
        ;
    } else {
        assert(q >= 1) by {
            if q == 0 {
                assert(p == 1);
            }
        }
        assert(p / 10 == pow10(q - 1));
        let rest = fraction_digits(f % p, pow10(q - 1));
        assert(fd =~= seq![digit_char(d0)] + rest);
        assert forall|k: int| 0 <= k < rest.len() implies t[i + 1 + k] == rest[k] by {
            assert(t[i + 1 + k] == t.subrange(i, i + l)[1 + k]);
            assert(fd[1 + k] == rest[k]);
        }
        assert(t.subrange(i + 1, i + 1 + rest.len() as int) =~= rest);
        assert(f % p < 10 * pow10(q - 1));
        lemma_printed_fraction_reads_back(t, i + 1, f % p, q - 1);
        let lr = rest.len() as int;
        lemma_digits_value_left(t, i, i + l);
        assert(digits_value(t, i, i + l) == d0 * pow10(l - 1) + digits_value(t, i + 1, i + l));
        lemma_pow10_adds(l - 1, q + 1 - l);
        assert((d0 * pow10(l - 1)) * pow10(q + 1 - l) == d0 * (pow10(l - 1) * pow10(q + 1 - l)))
            by (nonlinear_arith);
        assert((d0 * pow10(l - 1) + digits_value(t, i + 1, i + l)) * pow10(q + 1 - l) == (d0
            * pow10(l - 1)) * pow10(q + 1 - l) + digits_value(t, i + 1, i + l) * pow10(q + 1 - l))
            by (nonlinear_arith);
        assert(digits_value(t, i + 1, i + l) * pow10(q + 1 - l) == f % p) by {
            assert(q + 1 - l == (q - 1) + 1 - lr);
        }
        assert(d0 * pow10(q) + f % p == f);
    }
}

/// A printed whole number followed by anything that cannot extend it parses
/// back to itself.
proof fn lemma_parse_number_exact(t: Seq<char>, i: int, n: int)
    requires
        0 <= i,
        0 <= n <= MAX_PARSED_WHOLE,
        i + decimal_digits(n).len() <= t.len(),
        t.subrange(i, i + decimal_digits(n).len() as int) == decimal_digits(n),
        i + decimal_digits(n).len() == t.len() || !is_number_char(
            t[i + decimal_digits(n).len() as int],
        ),
    ensures
        parse_number(t, i) == Some(
            (
                FieldValue { whole: n as i64, frac_nanos: 0 },
                i + decimal_digits(n).len() as int,
            ),
        ),
{
    let l = decimal_digits(n).len() as int;
    lemma_decimal_digits_props(n);
    assert forall|k: int| i <= k < i + l implies is_digit(#[trigger] t[k]) by {
        assert(t[k] == t.subrange(i, i + l)[k - i]);
        assert(is_digit(decimal_digits(n)[k - i]));
    }
    lemma_digits_end_exact(t, i, i + l);
    lemma_digits_value_of_decimal(t, i, n);
}

/// A printed number, whole part and optional fraction, followed by anything
/// that cannot extend it, parses back to exactly its field value.
proof fn lemma_parse_number_of_text(t: Seq<char>, i: int, x: FieldValue)
    requires
        0 <= i,
        0 <= x.whole <= MAX_PARSED_WHOLE,
        0 <= x.frac_nanos < NANOS_PER_SECOND,
        i + number_text(x).len() <= t.len(),
        t.subrange(i, i + number_text(x).len() as int) == number_text(x),
        i + number_text(x).len() == t.len() || !is_number_char(
            t[i + number_text(x).len() as int],
        ),
    ensures
        parse_number(t, i) == Some((x, i + number_text(x).len() as int)),
{
    let nt = number_text(x);
    let dw = decimal_digits(x.whole as int);
    let lw = dw.len() as int;
    lemma_decimal_digits_props(x.whole as int);
    if x.frac_nanos == 0 {
        assert(nt =~= dw);
        assert(t.subrange(i, i + lw) =~= dw);
        lemma_parse_number_exact(t, i, x.whole as int);
    } else {
        assert(pow10(8) == 100_000_000) by {
            reveal_with_fuel(pow10, 11);
        }
        let fr = fraction_digits(x.frac_nanos as int, 100_000_000);
        let lf = fr.len() as int;
        assert(nt =~= dw + seq!['.'] + fr);
        assert forall|k: int| 0 <= k < lw implies t[i + k] == dw[k] by {
            assert(t[i + k] == t.subrange(i, i + nt.len() as int)[k]);
            assert(nt[k] == dw[k]);
        }
        assert(t.subrange(i, i + lw) =~= dw);
        assert(t[i + lw] == t.subrange(i, i + nt.len() as int)[lw]);
        assert(nt[lw] == '.');
        assert(t[i + lw] == '.');
        let fs = i + lw + 1;
        assert forall|k: int| 0 <= k < lf implies t[fs + k] == fr[k] by {
            assert(t[fs + k] == t.subrange(i, i + nt.len() as int)[lw + 1 + k]);
            assert(nt[lw + 1 + k] == fr[k]);
        }
        assert(t.subrange(fs, fs + lf) =~= fr);
        lemma_printed_fraction_reads_back(t, fs, x.frac_nanos as int, 8);
        assert forall|k: int| i <= k < i + lw implies is_digit(#[trigger] t[k]) by {
            assert(t[k] == t.subrange(i, i + lw)[k - i]);
            assert(is_digit(dw[k - i]));
        }
        lemma_digits_end_exact(t, i, i + lw);
        lemma_digits_value_of_decimal(t, i, x.whole as int);
        lemma_digits_end_exact(t, fs, fs + lf);
        assert(1 <= lf <= 9);
        if lf == 9 {
            assert(fraction_value(t, fs, fs + lf) == digits_value(t, fs, fs + 9));
            assert(pow10(0) == 1);
            assert(digits_value(t, fs, fs + 9) * 1 == digits_value(t, fs, fs + 9));
        } else {
            assert(fraction_value(t, fs, fs + lf) == digits_value(t, fs, fs + lf) * pow10(
                9 - lf,
            ));
        }
        assert(fraction_value(t, fs, fs + lf) == x.frac_nanos as int);
        assert(parse_number(t, i) == Some((x, fs + lf)));
        assert(fs + lf == i + nt.len());
    }
}

/// An optional component consumes a printed `<number><designator>` chunk
/// exactly when the designators agree, and nothing otherwise.
proof fn lemma_component_hit(t: Seq<char>, i: int, x: FieldValue, c: char)
    requires
        0 <= i,
        0 <= x.frac_nanos < NANOS_PER_SECOND,
        0 <= x.whole <= MAX_PARSED_WHOLE,
        i + number_text(x).len() + 1 <= t.len(),
        t.subrange(i, i + number_text(x).len() as int) == number_text(x),
        t[i + number_text(x).len() as int] == c,
        !is_number_char(c),
    ensures
        parse_component(t, i, c) == (
            Some(x),
            i + number_text(x).len() + 1,
        ),
{
    lemma_parse_number_of_text(t, i, x);
}

proof fn lemma_component_miss_nonnumber(t: Seq<char>, i: int, c: char)
    requires
        0 <= i <= t.len(),
        i == t.len() || !is_number_char(t[i]),
    ensures
        parse_component(t, i, c) == (None::<FieldValue>, i),
{
    lemma_digits_end_exact(t, i, i);
}

proof fn lemma_component_miss_wrong(t: Seq<char>, i: int, x: FieldValue, c: char, other: char)
    requires
        0 <= i,
        0 <= x.frac_nanos < NANOS_PER_SECOND,
        0 <= x.whole <= MAX_PARSED_WHOLE,
        i + number_text(x).len() + 1 <= t.len(),
        t.subrange(i, i + number_text(x).len() as int) == number_text(x),
        t[i + number_text(x).len() as int] == other,
        !is_number_char(other),
        other != c,
    ensures
        parse_component(t, i, c) == (None::<FieldValue>, i),
{
    lemma_parse_number_of_text(t, i, x);
}

/// Where each printed chunk stands in a record's text: the day, hour,
/// minute and second numbers each begin right after everything printed
/// before them, and each ends at its designator.
#[verifier::rlimit(100)]
#[verifier::spinoff_prover]
proof fn lemma_record_text_layout(r: ComponentRecord)
    requires
        r.years == FieldValue::spec_zero(),
        r.months == FieldValue::spec_zero(),
        r.days.frac_nanos == 0,
        r.hours.frac_nanos == 0,
        r.minutes.frac_nanos == 0,
        0 <= r.seconds.frac_nanos < NANOS_PER_SECOND,
        0 <= r.days.whole,
        0 <= r.hours.whole,
        0 <= r.minutes.whole,
        0 <= r.seconds.whole,
    ensures
        ({
            let t = record_text(r);
            let di = decimal_digits(r.days.whole as int);
            let hi = decimal_digits(r.hours.whole as int);
            let mi = decimal_digits(r.minutes.whole as int);
            let sn = number_text(r.seconds);
            let p1 = 1 + field_text(r.days, 'D').len() as int;
            let p2 = p1 + (if has_time_fields(r) {
                1int
            } else {
                0int
            });
            let p3 = p2 + field_text(r.hours, 'H').len() as int;
            let p4 = p3 + field_text(r.minutes, 'M').len() as int;
            let p5 = p4 + field_text(r.seconds, 'S').len() as int;
            &&& t.len() == p5
            &&& t[0] == 'P'
            &&& r.days.whole > 0 ==> t.subrange(1, 1 + di.len() as int) == di && t[1 + di.len() as int]
                == 'D'
            &&& has_time_fields(r) ==> t[p1] == 'T'
            &&& r.hours.whole > 0 ==> t.subrange(p2, p2 + hi.len() as int) == hi && t[p2
                + hi.len() as int] == 'H'
            &&& r.minutes.whole > 0 ==> t.subrange(p3, p3 + mi.len() as int) == mi && t[p3
                + mi.len() as int] == 'M'
            &&& r.seconds.nanos() > 0 ==> t.subrange(p4, p4 + sn.len() as int) == sn && t[p4
                + sn.len() as int] == 'S'
        }),
{
    let t = record_text(r);
    let di = decimal_digits(r.days.whole as int);
    let hi = decimal_digits(r.hours.whole as int);
    let mi = decimal_digits(r.minutes.whole as int);
    let sn = number_text(r.seconds);
    assert(r.days.whole >= 1 ==> r.days.nanos() >= NANOS_PER_SECOND as int);
    assert(r.hours.whole >= 1 ==> r.hours.nanos() >= NANOS_PER_SECOND as int);
    assert(r.minutes.whole >= 1 ==> r.minutes.nanos() >= NANOS_PER_SECOND as int);
    assert(r.seconds.whole >= 1 ==> r.seconds.nanos() >= NANOS_PER_SECOND as int);
    let spos = r.seconds.nanos() > 0;
    let dd = field_text(r.days, 'D');
    let hh = field_text(r.hours, 'H');
    let mm = field_text(r.minutes, 'M');
    let ss = field_text(r.seconds, 'S');
    let tsep: Seq<char> = if has_time_fields(r) {
        seq!['T']
    } else {
        seq![]
    };
    assert(number_text(r.days) =~= di);
    assert(number_text(r.hours) =~= hi);
    assert(number_text(r.minutes) =~= mi);
    assert(r.days.whole > 0 ==> dd =~= di + seq!['D']);
    assert(r.days.whole == 0 ==> dd =~= Seq::<char>::empty());
    assert(r.hours.whole > 0 ==> hh =~= hi + seq!['H']);
    assert(r.hours.whole == 0 ==> hh =~= Seq::<char>::empty());
    assert(r.minutes.whole > 0 ==> mm =~= mi + seq!['M']);
    assert(r.minutes.whole == 0 ==> mm =~= Seq::<char>::empty());
    assert(spos ==> ss =~= sn + seq!['S']);
    assert(!spos ==> ss =~= Seq::<char>::empty());
    assert(t =~= seq!['P'] + dd + tsep + hh + mm + ss);
    let p1 = 1 + dd.len() as int;
    let p2 = p1 + tsep.len() as int;
    let p3 = p2 + hh.len() as int;
    let p4 = p3 + mm.len() as int;
    assert(t[0] == 'P');
    if r.days.whole > 0 {
        assert(t.subrange(1, 1 + di.len() as int) =~= di);
        assert(t[1 + di.len() as int] == 'D');
    }
    if has_time_fields(r) {
        assert(t[p1] == 'T');
    }
    if r.hours.whole > 0 {
        assert(t.subrange(p2, p2 + hi.len() as int) =~= hi);
        assert(t[p2 + hi.len() as int] == 'H');
    }
    if r.minutes.whole > 0 {
        assert(t.subrange(p3, p3 + mi.len() as int) =~= mi);
        assert(t[p3 + mi.len() as int] == 'M');
    }
    if spos {
        assert(t.subrange(p4, p4 + sn.len() as int) =~= sn);
        assert(t[p4 + sn.len() as int] == 'S');
    }
}

/// Printing a calendar-free record whose day, hour and minute fields are
/// whole, and parsing the text back, yields the record again, provided some
/// field is positive: an all-zero record prints as just `P`, which the
/// grammar rejects.
#[verifier::rlimit(100)]
#[verifier::spinoff_prover]
pub proof fn lemma_print_parse_round_trip(r: ComponentRecord)
    requires
        r.years == FieldValue::spec_zero(),
        r.months == FieldValue::spec_zero(),
        r.days.frac_nanos == 0,
        r.hours.frac_nanos == 0,
        r.minutes.frac_nanos == 0,
        0 <= r.seconds.frac_nanos < NANOS_PER_SECOND,
        0 <= r.days.whole <= MAX_PARSED_WHOLE,
        0 <= r.hours.whole <= MAX_PARSED_WHOLE,
        0 <= r.minutes.whole <= MAX_PARSED_WHOLE,
        0 <= r.seconds.whole <= MAX_PARSED_WHOLE,
        r.days.whole > 0 || r.hours.whole > 0 || r.minutes.whole > 0 || r.seconds.nanos() > 0,
    ensures
        parse_record(record_text(r)) == Some(r),
{
    let t = record_text(r);
    let di = decimal_digits(r.days.whole as int);
    let hi = decimal_digits(r.hours.whole as int);
    let mi = decimal_digits(r.minutes.whole as int);
    let sn = number_text(r.seconds);
    lemma_record_text_layout(r);
    assert(r.days.whole >= 1 ==> r.days.nanos() >= NANOS_PER_SECOND as int);
    assert(r.hours.whole >= 1 ==> r.hours.nanos() >= NANOS_PER_SECOND as int);
    assert(r.minutes.whole >= 1 ==> r.minutes.nanos() >= NANOS_PER_SECOND as int);
    assert(r.seconds.whole >= 1 ==> r.seconds.nanos() >= NANOS_PER_SECOND as int);
    let spos = r.seconds.nanos() > 0;
    assert(spos == (r.seconds.whole > 0 || r.seconds.frac_nanos > 0));
    assert(number_text(r.days) =~= di);
    assert(number_text(r.hours) =~= hi);
    assert(number_text(r.minutes) =~= mi);
    let dd = field_text(r.days, 'D');
    let hh = field_text(r.hours, 'H');
    let mm = field_text(r.minutes, 'M');
    let ss = field_text(r.seconds, 'S');
    let tsep: Seq<char> = if has_time_fields(r) {
        seq!['T']
    } else {
        seq![]
    };
    let p1 = 1 + dd.len() as int;
    let p2 = p1 + tsep.len() as int;
    let p3 = p2 + hh.len() as int;
    let p4 = p3 + mm.len() as int;
    let p5 = p4 + ss.len() as int;
    assert(t.len() == p5);
    assert(t[0] == 'P');
    let has_t = has_time_fields(r);
    assert(has_t == (r.hours.whole > 0 || r.minutes.whole > 0 || spos));
    assert(has_t ==> t[p1] == 'T');
    // The day component and the week check.
    if r.days.whole > 0 {
        assert(t.subrange(1, 1 + di.len() as int) == di);
        assert(t[1 + di.len() as int] == 'D');
        lemma_component_miss_wrong(t, 1, r.days, 'Y', 'D');
        lemma_component_miss_wrong(t, 1, r.days, 'M', 'D');
        lemma_component_hit(t, 1, r.days, 'D');
        lemma_parse_number_of_text(t, 1, r.days);
    } else {
        assert(p1 == 1);
        assert(has_t);
        assert(t[1] == 'T');
        lemma_digits_end_exact(t, 1, 1);
        lemma_component_miss_nonnumber(t, 1, 'Y');
        lemma_component_miss_nonnumber(t, 1, 'M');
        lemma_component_miss_nonnumber(t, 1, 'D');
        assert(parse_number(t, 1) is None);
    }
    assert(parse_component(t, 1, 'Y') == (None::<FieldValue>, 1int));
    assert(parse_component(t, 1, 'M') == (None::<FieldValue>, 1int));
    if has_t {
        // The hour component, at the position after `T`.
        if r.hours.whole > 0 {
            assert(t.subrange(p2, p2 + hi.len() as int) == hi);
            assert(t[p2 + hi.len() as int] == 'H');
            lemma_component_hit(t, p2, r.hours, 'H');
        } else if r.minutes.whole > 0 {
            assert(p3 == p2);
            assert(t.subrange(p2, p2 + mi.len() as int) == mi);
            assert(t[p2 + mi.len() as int] == 'M');
            lemma_component_miss_wrong(t, p2, r.minutes, 'H', 'M');
        } else if spos {
            assert(p3 == p2 && p4 == p2);
            assert(t.subrange(p2, p2 + sn.len() as int) == sn);
            assert(t[p2 + sn.len() as int] == 'S');
            lemma_component_miss_wrong(t, p2, r.seconds, 'H', 'S');
        } else {
            assert(p2 == t.len());
            lemma_component_miss_nonnumber(t, p2, 'H');
        }
        // The minute component.
        if r.minutes.whole > 0 {
            assert(t.subrange(p3, p3 + mi.len() as int) == mi);
            assert(t[p3 + mi.len() as int] == 'M');
            lemma_component_hit(t, p3, r.minutes, 'M');
        } else if spos {
            assert(p4 == p3);
            assert(t.subrange(p3, p3 + sn.len() as int) == sn);
            assert(t[p3 + sn.len() as int] == 'S');
            lemma_component_miss_wrong(t, p3, r.seconds, 'M', 'S');
        } else {
            assert(p3 == t.len());
            lemma_component_miss_nonnumber(t, p3, 'M');
        }
        // The second component.
        if spos {
            assert(t.subrange(p4, p4 + sn.len() as int) == sn);
            assert(t[p4 + sn.len() as int] == 'S');
            lemma_component_hit(t, p4, r.seconds, 'S');
        } else {
            assert(p4 == t.len());
            lemma_component_miss_nonnumber(t, p4, 'S');
        }
        assert(parse_basic(t, 1) == Some(r));
    } else {
        assert(r.days.whole > 0);
        assert(p1 == t.len());
        assert(parse_basic(t, 1) == Some(r));
    }
    // The week form is never taken: after the leading number stands `D`,
    // never `W`, or no number stands there at all.
    let wk = parse_number(t, 1);
    if wk is Some {
        assert(r.days.whole > 0);
        assert(wk->Some_0.1 == 1 + di.len() as int);
        assert(t[wk->Some_0.1] == 'D');
    }
    assert(parse_record(t) == Some(r));
}

fn week_days_exec(w: FieldValue) -> (d: FieldValue)
    requires
        0 <= w.whole <= MAX_PARSED_WHOLE,
        0 <= w.frac_nanos < NANOS_PER_SECOND,
    ensures
        d == week_days(w),
        d.wf(),
        0 <= d.whole <= 7 * MAX_PARSED_WHOLE + 7,
        0 <= d.frac_nanos < NANOS_PER_SECOND,
{
    let f7: u64 = (w.frac_nanos as u64) * 7;
    let carry: u64 = f7 / 1_000_000_000;
    let rem: u64 = f7 % 1_000_000_000;
    FieldValue { whole: w.whole * 7 + carry as i64, frac_nanos: rem as i32 }
}

} // verus!
