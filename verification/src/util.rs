//! Equality of binary32 numbers up to a fixed tolerance.

use crate::arith::{difference, minus, sum};
use crate::binary32::{
    absolute, bit_length, exponent_field, fraction_field, is_finite, lemma_bit_length_bounds,
    lemma_negated, lemma_pow2_monotonic, nearest, negated, spacing, value, SIGN,
};
use crate::rounding::{encode, lemma_encode_sign, lemma_encode_significand};
use vstd::arithmetic::div_mod::lemma_fundamental_div_mod;
use vstd::arithmetic::power2::{
    lemma2_to64, lemma_pow2_adds, lemma_pow2_pos, lemma_pow2_unfold, pow2,
};
use vstd::prelude::*;

verus! {

/// Pattern of the tolerance: the binary32 number nearest to one
/// hundred-thousandth.
pub const EPSILON: u32 = 0x3727_c5ac;

/// Distance between two finite numbers, in units of `2^-149`.
pub open spec fn distance(a: u32, b: u32) -> nat {
    if value(a) >= value(b) {
        (value(a) - value(b)) as nat
    } else {
        (value(b) - value(a)) as nat
    }
}

/// Two numbers are equal up to the tolerance when both are finite and their
/// difference, rounded to binary32 as a subtraction rounds it, is smaller in
/// absolute value than `EPSILON`. Nothing equals an infinity or
/// not-a-number, not even itself.
pub open spec fn approx_eq(a: u32, b: u32) -> bool {
    &&& is_finite(a)
    &&& is_finite(b)
    &&& nearest(distance(a, b)) < value(EPSILON)
}

/// The smallest distance that is rounded to `EPSILON` or more: half-way
/// between `EPSILON` and the binary32 number before it.
pub open spec fn threshold() -> nat {
    21990231 * pow2(108)
}

/// `EPSILON` is 10995116 steps of `2^109` units of `2^-149`.
proof fn lemma_epsilon_value()
    ensures
        value(EPSILON) == 10995116 * pow2(109),
        pow2(109) == 2 * pow2(108),
        pow2(108) > 0,
{
    assert(exponent_field(EPSILON) == 110);
    assert(fraction_field(EPSILON) == 0x27_c5ac);
    lemma_pow2_unfold(109);
    lemma_pow2_pos(108);
}

/// A distance is rounded to less than `EPSILON` exactly when it is below the
/// threshold.
pub proof fn lemma_threshold(n: nat)
    ensures
        nearest(n) < value(EPSILON) <==> n < threshold(),
{
    lemma_epsilon_value();
    lemma2_to64();
    let half = pow2(108);
    let step = pow2(109);
    lemma_pow2_adds(23, 109);
    lemma_pow2_adds(24, 109);
    assert(pow2(132) == 0x80_0000 * step);
    assert(pow2(133) == 0x100_0000 * step);
    if n == 0 {
        assert(bit_length(0) == 0);
        assert(nearest(0) == 0);
        assert(21990231 * half > 0) by (nonlinear_arith)
            requires
                half > 0,
        ;
    } else {
        lemma_bit_length_bounds(n);
        let b = bit_length(n);
        let s = spacing(n);
        let below = n / s;
        let rest = n % s;
        if b <= 24 {
            lemma_pow2_monotonic(b, 132);
            assert(s == 1);
            assert(nearest(n) == n);
        } else {
            lemma_pow2_adds(24, (b - 24) as nat);
            lemma_pow2_adds(23, (b - 24) as nat);
            lemma_pow2_pos((b - 24) as nat);
            assert(pow2(b) == 0x100_0000 * s);
            assert(pow2((b - 1) as nat) == 0x80_0000 * s);
            assert(n == below * s + rest && 0 <= rest < s) by (nonlinear_arith)
                requires
                    below == n / s,
                    rest == n % s,
                    s > 0,
            ;
            assert(0x80_0000 <= below < 0x100_0000) by (nonlinear_arith)
                requires
                    n == below * s + rest,
                    0 <= rest < s,
                    0x80_0000 * s <= n < 0x100_0000 * s,
            ;
            let up = (below + 1) * s;
            let down = below * s;
            assert(nearest(n) == up || nearest(n) == down);
            assert(up == down + s) by (nonlinear_arith)
                requires
                    up == (below + 1) * s,
                    down == below * s,
            ;
            if b <= 132 {
                lemma_pow2_monotonic(b, 132);
                assert(up <= 0x100_0000 * s) by (nonlinear_arith)
                    requires
                        up == (below + 1) * s,
                        below < 0x100_0000,
                        s > 0,
                ;
            } else if b == 133 {
                assert(s == step);
                if below < 10995115 {
                    assert(up <= 10995115 * s) by (nonlinear_arith)
                        requires
                            up == (below + 1) * s,
                            below < 10995115,
                            s > 0,
                    ;
                } else if below == 10995115 {
                    assert(below % 2 == 1);
                } else {
                    assert(down >= 10995116 * s) by (nonlinear_arith)
                        requires
                            down == below * s,
                            below >= 10995116,
                            s > 0,
                    ;
                }
            } else {
                lemma_pow2_monotonic(133, (b - 1) as nat);
                assert(down >= 0x80_0000 * s) by (nonlinear_arith)
                    requires
                        down == below * s,
                        below >= 0x80_0000,
                        s > 0,
                ;
            }
        }
    }
}

/// Equality up to the tolerance, stated on the exact distance.
pub proof fn lemma_approx_eq_by_distance(a: u32, b: u32)
    ensures
        approx_eq(a, b) <==> is_finite(a) && is_finite(b) && distance(a, b) < threshold(),
{
    lemma_threshold(distance(a, b));
}

/// Every finite number equals itself up to the tolerance.
pub proof fn lemma_approx_eq_reflexive(a: u32)
    requires
        is_finite(a),
    ensures
        approx_eq(a, a),
{
    lemma_threshold(0);
    lemma_pow2_pos(108);
    assert(21990231 * pow2(108) > 0) by (nonlinear_arith)
        requires
            pow2(108) > 0,
    ;
}

/// Finite numbers of one value are equal up to the tolerance, whatever their
/// patterns: positive and negative zero are.
pub proof fn lemma_approx_eq_same_value(a: u32, b: u32)
    requires
        is_finite(a),
        is_finite(b),
        value(a) == value(b),
    ensures
        approx_eq(a, b),
{
    lemma_threshold(0);
    lemma_pow2_pos(108);
    assert(21990231 * pow2(108) > 0) by (nonlinear_arith)
        requires
            pow2(108) > 0,
    ;
}

/// Equality up to the tolerance does not depend on the order of the two numbers.
pub proof fn lemma_approx_eq_symmetric(a: u32, b: u32)
    ensures
        approx_eq(a, b) == approx_eq(b, a),
{
}

/// The pattern of a rounded distance is below the pattern of `EPSILON`
/// exactly when the rounded distance is below `EPSILON`.
proof fn lemma_encoded_below_epsilon(n: nat)
    ensures
        encode(false, n) < EPSILON <==> n < value(EPSILON),
{
    lemma_epsilon_value();
    lemma2_to64();
    let step = pow2(109);
    lemma_pow2_adds(23, 109);
    lemma_pow2_adds(24, 109);
    lemma_pow2_pos(109);
    if n >= 0x80_0000 {
        lemma_bit_length_bounds(n);
        lemma_encode_significand(n);
        let b = bit_length(n);
        let exponent = (b - 23) as nat;
        if exponent < 110 {
            lemma_pow2_monotonic(b, 132);
            assert(10995116 * step > 0x80_0000 * step) by (nonlinear_arith)
                requires
                    step > 0,
            ;
        } else if exponent > 110 {
            lemma_pow2_monotonic(133, (b - 1) as nat);
            assert(10995116 * step < 0x100_0000 * step) by (nonlinear_arith)
                requires
                    step > 0,
            ;
        } else {
            lemma_fundamental_div_mod(n as int, step as int);
            let kept = n / step;
            assert(0x80_0000 <= kept < 0x100_0000 && (kept < 10995116 <==> n < 10995116 * step))
                by (nonlinear_arith)
                requires
                    0x80_0000 * step <= n < 0x100_0000 * step,
                    n == step * kept + n % step,
                    0 <= n % step < step,
            ;
        }
    } else {
        assert(10995116 * step > 0x80_0000) by (nonlinear_arith)
            requires
                step >= 1,
        ;
    }
}

/// Two numbers are equal up to the tolerance exactly when the absolute
/// value of their binary32 difference is less than `EPSILON`; patterns
/// without a sign bit compare as the numbers do, and infinities and
/// not-a-number come after all numbers.
pub proof fn lemma_approx_eq_by_difference(a: u32, b: u32)
    ensures
        approx_eq(a, b) <==> absolute(difference(a, b)) < EPSILON,
{
    reveal(sum);
    lemma_negated(b);
    if is_finite(a) && is_finite(b) {
        let exact = value(a) + value(negated(b));
        if exact != 0 {
            lemma_encoded_below_epsilon(nearest(distance(a, b)));
            lemma_encode_sign(exact < 0, nearest(distance(a, b)));
            assert(absolute(difference(a, b)) == encode(false, nearest(distance(a, b))));
        } else {
            lemma_approx_eq_same_value(a, b);
        }
    }
}

/// Whether two binary32 numbers, given as patterns, are equal up to the
/// tolerance: whether the absolute value of their difference is less than
/// `EPSILON`.
pub fn eq_f32(a: u32, b: u32) -> (r: bool)
    ensures
        r == approx_eq(a, b),
        r == (absolute(difference(a, b)) < EPSILON),
{
    proof {
        lemma_approx_eq_by_difference(a, b);
    }
    let d = minus(a, b);
    let size = if d >= SIGN {
        d - SIGN
    } else {
        d
    };
    size < EPSILON
}

} // verus!
