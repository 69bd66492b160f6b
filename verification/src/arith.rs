//! Truncating division and remainder over mathematical integers, and the
//! greatest common divisor they induce.
//!
//! Spec-mode `/` and `%` in Verus are Euclidean (the remainder is never
//! negative), while Rust's executable `/` and `%` truncate toward zero.
//! The functions here state the truncating forms over `int`, so that the
//! contracts of the executable code can speak about what `i128` division
//! actually computes.

use vstd::prelude::*;
use vstd::arithmetic::div_mod::{
    lemma_div_nonincreasing,
    lemma_div_pos_is_pos,
    lemma_fundamental_div_mod,
    lemma_mod_division_less_than_divisor,
};
use vstd::math::abs;

verus! {

/// Truncating division: the quotient of `a / b` rounded toward zero,
/// matching Rust's `/` on signed integers. Stated through the Euclidean
/// quotient of the magnitudes.
pub open spec fn tdiv(a: int, b: int) -> int {
    if a == 0 {
        0
    } else if a > 0 && b > 0 {
        a / b
    } else if a < 0 && b < 0 {
        (a * -1) / (b * -1)
    } else if a < 0 {
        ((a * -1) / b) * -1
    } else {
        (a / (b * -1)) * -1
    }
}

/// Truncating remainder: the value of Rust's `%` on signed integers. Its
/// sign follows the dividend `a`.
pub open spec fn tmod(a: int, b: int) -> int {
    if a == 0 {
        0
    } else if a > 0 && b > 0 {
        a % b
    } else if a < 0 && b < 0 {
        ((a * -1) % (b * -1)) * -1
    } else if a < 0 {
        ((a * -1) % b) * -1
    } else {
        a % (b * -1)
    }
}

/// The defining property of division with remainder, in truncating form:
/// `a == b * (a / b) + a % b`.
pub proof fn lemma_tdiv_tmod(a: int, b: int)
    requires
        b != 0,
    ensures
        a == b * tdiv(a, b) + tmod(a, b),
{
    lemma_fundamental_div_mod(a, b);
    lemma_fundamental_div_mod(a * -1, b);
    lemma_fundamental_div_mod(a, b * -1);
    lemma_fundamental_div_mod(a * -1, b * -1);
    assert(a == b * tdiv(a, b) + tmod(a, b)) by (nonlinear_arith)
        requires
            b != 0,
            a == b * (a / b) + a % b,
            a * -1 == b * ((a * -1) / b) + (a * -1) % b,
            a == (b * -1) * (a / (b * -1)) + a % (b * -1),
            a * -1 == (b * -1) * ((a * -1) / (b * -1)) + (a * -1) % (b * -1),
    ;
}

/// The truncating remainder is smaller in magnitude than the divisor, and
/// keeps the dividend's sign.
pub proof fn lemma_tmod_bound(a: int, b: int)
    requires
        b != 0,
    ensures
        abs(tmod(a, b)) < abs(b),
        a >= 0 ==> 0 <= tmod(a, b),
        a <= 0 ==> tmod(a, b) <= 0,
{
    if b > 0 {
        lemma_mod_division_less_than_divisor(a, b);
        lemma_mod_division_less_than_divisor(a * -1, b);
    } else {
        lemma_mod_division_less_than_divisor(a, b * -1);
        lemma_mod_division_less_than_divisor(a * -1, b * -1);
    }
}

/// The truncating quotient is no larger in magnitude than the dividend.
pub proof fn lemma_tdiv_bound(a: int, b: int)
    requires
        b != 0,
    ensures
        abs(tdiv(a, b)) <= abs(a),
{
    if a != 0 {
        if a > 0 && b > 0 {
            lemma_div_pos_is_pos(a, b);
            lemma_div_nonincreasing(a, b);
        } else if a < 0 && b < 0 {
            lemma_div_pos_is_pos(a * -1, b * -1);
            lemma_div_nonincreasing(a * -1, b * -1);
        } else if a < 0 {
            lemma_div_pos_is_pos(a * -1, b);
            lemma_div_nonincreasing(a * -1, b);
        } else {
            lemma_div_pos_is_pos(a, b * -1);
            lemma_div_nonincreasing(a, b * -1);
        }
    }
}

/// Dividing by `1` or `-1` leaves no remainder.
pub proof fn lemma_tmod_unit(a: int, b: int)
    requires
        b == 1 || b == -1,
    ensures
        tmod(a, b) == 0,
{
    lemma_tdiv_tmod(a, b);
    lemma_tmod_bound(a, b);
}

/// `d` divides `x`: some integer multiple of `d` equals `x`.
pub open spec fn divides(d: int, x: int) -> bool {
    exists|k: int| x == #[trigger] (k * d)
}

/// Divisibility is exactly a vanishing truncating remainder.
pub proof fn lemma_divides_tmod(a: int, b: int)
    requires
        b != 0,
    ensures
        divides(b, a) <==> tmod(a, b) == 0,
{
    lemma_tdiv_tmod(a, b);
    lemma_tmod_bound(a, b);
    if tmod(a, b) == 0 {
        assert(a == tdiv(a, b) * b) by (nonlinear_arith)
            requires
                a == b * tdiv(a, b) + tmod(a, b),
                tmod(a, b) == 0,
        ;
    }
    if divides(b, a) {
        let k = choose|k: int| a == #[trigger] (k * b);
        assert(tmod(a, b) == 0) by (nonlinear_arith)
            requires
                b != 0,
                a == k * b,
                a == b * tdiv(a, b) + tmod(a, b),
                -abs(b) < tmod(a, b) < abs(b),
        ;
    }
}

/// The greatest common divisor as the Euclidean algorithm computes it with
/// truncating remainders: `gcd(a, 0) == a`, and otherwise the divisor and
/// remainder trade places. The result carries the sign the algorithm
/// produces; it is not normalized to be positive.
pub open spec fn gcd(a: int, b: int) -> int
    decreases abs(b),
    via gcd_terminates
{
    if b == 0 {
        a
    } else {
        gcd(b, tmod(a, b))
    }
}

#[via_fn]
proof fn gcd_terminates(a: int, b: int) {
    if b != 0 {
        lemma_tmod_bound(a, b);
    }
}

/// Law: `gcd(a, b)` is a common divisor of `a` and `b`.
pub proof fn lemma_gcd_divides(a: int, b: int)
    ensures
        divides(gcd(a, b), a),
        divides(gcd(a, b), b),
    decreases abs(b),
{
    if b == 0 {
        assert(a == 1 * a);
        assert(b == 0 * a);
    } else {
        lemma_tmod_bound(a, b);
        lemma_gcd_divides(b, tmod(a, b));
        let g = gcd(a, b);
        let k1 = choose|k: int| b == #[trigger] (k * g);
        let k2 = choose|k: int| tmod(a, b) == #[trigger] (k * g);
        lemma_tdiv_tmod(a, b);
        assert(a == (k1 * tdiv(a, b) + k2) * g) by (nonlinear_arith)
            requires
                a == b * tdiv(a, b) + tmod(a, b),
                b == k1 * g,
                tmod(a, b) == k2 * g,
        ;
    }
}

/// Law: `gcd(a, b)` is the greatest common divisor — every common
/// divisor of `a` and `b` divides it.
pub proof fn lemma_gcd_greatest(a: int, b: int, d: int)
    requires
        divides(d, a),
        divides(d, b),
    ensures
        divides(d, gcd(a, b)),
    decreases abs(b),
{
    if b != 0 {
        lemma_tmod_bound(a, b);
        let k1 = choose|k: int| a == #[trigger] (k * d);
        let k2 = choose|k: int| b == #[trigger] (k * d);
        lemma_tdiv_tmod(a, b);
        assert(tmod(a, b) == (k1 - k2 * tdiv(a, b)) * d) by (nonlinear_arith)
            requires
                a == b * tdiv(a, b) + tmod(a, b),
                a == k1 * d,
                b == k2 * d,
        ;
        lemma_gcd_greatest(b, tmod(a, b), d);
    }
}

} // verus!
