//! Truncating (round-toward-zero) division and remainder over `int`.
//!
//! Verus's spec-level `/` and `%` are Euclidean; the unit decomposition in
//! this crate follows Rust's machine semantics, which truncate toward zero,
//! so the contracts are stated over these two functions instead.

use vstd::prelude::*;

verus! {

/// Quotient of `a / b`, rounded toward zero. Meaningful for `b > 0`.
pub open spec fn tdiv(a: int, b: int) -> int {
    if a >= 0 {
        a / b
    } else {
        -((-a) / b)
    }
}

/// Remainder of `a` modulo `b` under truncating division: same sign as `a`.
pub open spec fn tmod(a: int, b: int) -> int {
    a - b * tdiv(a, b)
}

/// The fundamental facts of truncating division for a positive divisor:
/// the quotient/remainder identity, the remainder's range, and sign agreement.
pub proof fn lemma_tdiv_tmod(a: int, b: int)
    requires
        b > 0,
    ensures
        a == b * tdiv(a, b) + tmod(a, b),
        -b < tmod(a, b) < b,
        a >= 0 ==> tmod(a, b) >= 0 && tdiv(a, b) >= 0,
        a <= 0 ==> tmod(a, b) <= 0 && tdiv(a, b) <= 0,
        a >= 0 ==> tdiv(a, b) <= a && tdiv(a, b) == a / b && tmod(a, b) == a % b,
        a <= 0 ==> tdiv(a, b) >= a,
        a < 0 ==> tdiv(a, b) == -((-a) / b) && tmod(a, b) == -((-a) % b),
{
    if a >= 0 {
        lemma_nonneg_div_mod(a, b);
    } else {
        lemma_nonneg_div_mod(-a, b);
        let q = (-a) / b;
        assert(b * (-q) == -(b * q)) by (nonlinear_arith);
        assert(tmod(a, b) == -((-a) % b));
    }
}

/// A value already smaller than the divisor in magnitude divides to zero and
/// is its own remainder.
pub proof fn lemma_tdiv_small(a: int, b: int)
    requires
        b > 0,
        -b < a < b,
    ensures
        tdiv(a, b) == 0,
        tmod(a, b) == a,
{
    if a >= 0 {
        vstd::arithmetic::div_mod::lemma_basic_div(a, b);
    } else {
        vstd::arithmetic::div_mod::lemma_basic_div(-a, b);
    }
}

proof fn lemma_nonneg_div_mod(a: int, b: int)
    requires
        a >= 0,
        b > 0,
    ensures
        a == b * (a / b) + a % b,
        0 <= a % b < b,
        0 <= a / b <= a,
{
    vstd::arithmetic::div_mod::lemma_fundamental_div_mod(a, b);
    vstd::arithmetic::div_mod::lemma_mod_division_less_than_divisor(a, b);
    vstd::arithmetic::div_mod::lemma_div_is_ordered_by_denominator(a, 1, b);
    vstd::arithmetic::div_mod::lemma_div_basics_1(a);
    vstd::arithmetic::div_mod::lemma_div_pos_is_pos(a, b);
}

} // verus!
