//! The component record: the flat six-field numeric transport shape between
//! the codec and the ISO 8601 text grammar. Every field is a fixed-point
//! number at nanosecond resolution: a whole part plus a fractional part
//! counted in billionths of the field's unit.

use crate::duration::NANOS_PER_SECOND;
use vstd::prelude::*;

verus! {

pub const SECONDS_PER_DAY: i64 = 86_400;

pub const SECONDS_PER_HOUR: i64 = 3_600;

pub const SECONDS_PER_MINUTE: i64 = 60;

/// One numeric field of the record: the value `whole + frac_nanos / 10^9`,
/// in the field's own unit. May be negative or fractional.
#[derive(Clone, Copy, Debug, PartialEq, Eq, Structural)]
pub struct FieldValue {
    pub whole: i64,
    pub frac_nanos: i32,
}

impl FieldValue {
    /// Canonical form: the fractional part is a proper remainder with the
    /// sign of the whole part (either part may be zero).
    pub open spec fn wf(self) -> bool {
        &&& -(NANOS_PER_SECOND as int) < self.frac_nanos < NANOS_PER_SECOND as int
        &&& self.whole > 0 ==> self.frac_nanos >= 0
        &&& self.whole < 0 ==> self.frac_nanos <= 0
    }

    /// The field's value, scaled to billionths of its unit.
    pub open spec fn nanos(self) -> int {
        self.whole * (NANOS_PER_SECOND as int) + self.frac_nanos
    }

    /// The zero field.
    pub open spec fn spec_zero() -> FieldValue {
        FieldValue { whole: 0, frac_nanos: 0 }
    }

    /// A whole-valued field.
    pub fn from_whole(whole: i64) -> (f: FieldValue)
        ensures
            f == (FieldValue { whole, frac_nanos: 0 }),
            f.wf(),
            f.nanos() == whole * (NANOS_PER_SECOND as int),
    {
        FieldValue { whole, frac_nanos: 0 }
    }

    /// The zero field.
    pub fn zero() -> (f: FieldValue)
        ensures
            f == FieldValue::spec_zero(),
            f.wf(),
            f.nanos() == 0,
    {
        FieldValue { whole: 0, frac_nanos: 0 }
    }
}

/// The six-field record of an ISO 8601 duration: years, months, days, hours,
/// minutes and seconds, each possibly fractional.
#[derive(Clone, Copy, Debug, PartialEq, Eq, Structural)]
pub struct ComponentRecord {
    pub years: FieldValue,
    pub months: FieldValue,
    pub days: FieldValue,
    pub hours: FieldValue,
    pub minutes: FieldValue,
    pub seconds: FieldValue,
}

impl ComponentRecord {
    /// Every field is in canonical fixed-point form.
    pub open spec fn wf(self) -> bool {
        &&& self.years.wf()
        &&& self.months.wf()
        &&& self.days.wf()
        &&& self.hours.wf()
        &&& self.minutes.wf()
        &&& self.seconds.wf()
    }

    /// The elapsed time named by the day, hour, minute and second fields,
    /// in nanoseconds. Years and months have no fixed length and do not
    /// contribute; a record is convertible only when both are zero.
    pub open spec fn dhms_nanos(self) -> int {
        self.days.nanos() * (SECONDS_PER_DAY as int) + self.hours.nanos() * (
        SECONDS_PER_HOUR as int) + self.minutes.nanos() * (SECONDS_PER_MINUTE as int)
            + self.seconds.nanos()
    }

    /// True when the record uses no calendar units.
    pub open spec fn calendar_free(self) -> bool {
        self.years.nanos() == 0 && self.months.nanos() == 0
    }
}

} // verus!
