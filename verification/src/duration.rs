//! The elapsed-time value: signed whole seconds plus a sub-second nanosecond
//! remainder that agrees with the seconds in sign.

use crate::arith::{lemma_tdiv_tmod, tdiv, tmod};
use vstd::prelude::*;

verus! {

pub const NANOS_PER_SECOND: i32 = 1_000_000_000;

/// A signed span of time: `seconds` whole seconds plus `nanoseconds`
/// nanoseconds. A well-formed value keeps `|nanoseconds| < 10^9` and never
/// lets the two parts disagree in sign.
#[derive(Clone, Copy, Debug, PartialEq, Eq, Structural)]
pub struct Duration {
    pub seconds: i64,
    pub nanoseconds: i32,
}

impl Duration {
    /// Well-formedness: the sub-second part is a proper remainder and has the
    /// same sign as the whole-second part (either may be zero).
    pub open spec fn wf(self) -> bool {
        &&& -(NANOS_PER_SECOND as int) < self.nanoseconds < NANOS_PER_SECOND as int
        &&& self.seconds > 0 ==> self.nanoseconds >= 0
        &&& self.seconds < 0 ==> self.nanoseconds <= 0
    }

    /// The mathematical value of the span, in nanoseconds.
    pub open spec fn total_nanos(self) -> int {
        self.seconds * (NANOS_PER_SECOND as int) + self.nanoseconds
    }

    /// The unique well-formed representation of a span of `n` nanoseconds.
    pub open spec fn from_total_nanos(n: int) -> Duration {
        Duration {
            seconds: tdiv(n, NANOS_PER_SECOND as int) as i64,
            nanoseconds: tmod(n, NANOS_PER_SECOND as int) as i32,
        }
    }

    /// Normalizing constructor, mirroring the usual duration primitive:
    /// whole seconds in `nanoseconds` are carried into `seconds`, and a sign
    /// disagreement between the parts is resolved by moving one second.
    pub fn new(seconds: i64, nanoseconds: i32) -> (d: Duration)
        requires
            i64::MIN <= seconds + tdiv(nanoseconds as int, NANOS_PER_SECOND as int) <= i64::MAX,
        ensures
            d.wf(),
            d == Duration::from_total_nanos(
                seconds * (NANOS_PER_SECOND as int) + nanoseconds,
            ),
    {
        proof {
            lemma_tdiv_tmod(nanoseconds as int, NANOS_PER_SECOND as int);
        }
        let carry: i32 = nanoseconds.checked_div(NANOS_PER_SECOND).unwrap();
        let mut s: i64 = seconds + carry as i64;
        let mut ns: i32 = nanoseconds.checked_rem(NANOS_PER_SECOND).unwrap();
        if s > 0 && ns < 0 {
            s = s - 1;
            ns = ns + NANOS_PER_SECOND;
        } else if s < 0 && ns > 0 {
            s = s + 1;
            ns = ns - NANOS_PER_SECOND;
        }
        let d = Duration { seconds: s, nanoseconds: ns };
        proof {
            lemma_from_total_nanos_unique(
                d,
                seconds * (NANOS_PER_SECOND as int) + nanoseconds,
            );
        }
        d
    }

    /// The whole-second part, truncated toward zero.
    pub fn whole_seconds(&self) -> (s: i64)
        ensures
            s == self.seconds,
    {
        self.seconds
    }

    /// The sub-second part, in nanoseconds, with the sign of the whole value.
    pub fn subsec_nanoseconds(&self) -> (ns: i32)
        ensures
            ns == self.nanoseconds,
    {
        self.nanoseconds
    }
}

/// A well-formed duration is determined by its value in nanoseconds: it is
/// exactly the canonical representation of that value.
pub proof fn lemma_from_total_nanos_unique(d: Duration, n: int)
    requires
        d.wf(),
        d.total_nanos() == n,
    ensures
        d == Duration::from_total_nanos(n),
{
    lemma_tdiv_tmod(n, NANOS_PER_SECOND as int);
    let k = NANOS_PER_SECOND as int;
    let q = tdiv(n, k);
    let r = tmod(n, k);
    assert(d.seconds * k + d.nanoseconds == q * k + r);
    assert((d.seconds - q) * k == r - d.nanoseconds) by (nonlinear_arith)
        requires
            d.seconds * k + d.nanoseconds == q * k + r,
    ;
    if d.seconds - q >= 2 || d.seconds - q <= -2 {
        assert((d.seconds - q) * k >= 2 * k || (d.seconds - q) * k <= -2 * k)
            by (nonlinear_arith)
            requires
                d.seconds - q >= 2 || d.seconds - q <= -2,
                k > 0,
        ;
        assert(false);
    }
    if d.seconds - q == 1 {
        assert(r - d.nanoseconds == k);
        assert(d.nanoseconds < 0 && r > 0);
        assert(d.seconds <= 0);
        assert(q <= -1);
        assert(n < 0);
        assert(r <= 0);
        assert(false);
    }
    if d.seconds - q == -1 {
        assert(d.nanoseconds - r == k);
        assert(d.nanoseconds > 0 && r < 0);
        assert(d.seconds >= 0 || d.nanoseconds <= 0);
        assert(d.seconds >= 0);
        assert(q >= 1);
        assert(n > 0);
        assert(r >= 0);
        assert(false);
    }
    assert(d.seconds == q);
    assert(d.nanoseconds == r);
}

} // verus!
