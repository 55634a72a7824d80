//! Arithmetic model of IEEE 754 binary32 numbers held as 32-bit patterns.
//!
//! A pattern is one sign bit, eight exponent bits and twenty-three fraction
//! bits. Every finite pattern stands for the rational number
//! `value(bits) * 2^-149`, so all finite numbers are integers once they are
//! counted in units of `2^-149`, the smallest positive number of the format.

use vstd::arithmetic::div_mod::{lemma_div_multiples_vanish_quotient, lemma_truncate_middle};
use vstd::arithmetic::power2::{
    lemma2_to64, lemma_pow2_adds, lemma_pow2_pos, lemma_pow2_strictly_increases, lemma_pow2_unfold,
    pow2,
};
use vstd::prelude::*;

verus! {

/// Pattern of the number one.
pub const ONE: u32 = 0x3f80_0000;

/// Pattern of positive zero.
pub const ZERO: u32 = 0;

/// Pattern of the number two.
pub const TWO: u32 = 0x4000_0000;

/// The sign bit alone; also the pattern of negative zero.
pub const SIGN: u32 = 0x8000_0000;

/// Pattern of positive infinity.
pub const INFINITY: u32 = 0x7f80_0000;

/// The one not-a-number pattern that the operations of this crate give.
pub const NAN: u32 = 0x7fc0_0000;

/// Number of units of `2^-149` in the number one.
pub open spec fn unit() -> nat {
    pow2(149)
}

/// Whether the sign bit is set.
pub open spec fn sign_bit(bits: u32) -> bool {
    bits >= SIGN
}

/// The eight exponent bits, as a number below 256.
pub open spec fn exponent_field(bits: u32) -> nat {
    (bits as nat / 0x80_0000) % 0x100
}

/// The twenty-three fraction bits, as a number below `2^23`.
pub open spec fn fraction_field(bits: u32) -> nat {
    bits as nat % 0x80_0000
}

/// Not-a-number: all exponent bits set and a fraction that is not zero.
pub open spec fn is_nan(bits: u32) -> bool {
    exponent_field(bits) == 0xff && fraction_field(bits) != 0
}

/// Positive or negative infinity.
pub open spec fn is_infinite(bits: u32) -> bool {
    exponent_field(bits) == 0xff && fraction_field(bits) == 0
}

/// Neither infinite nor not-a-number.
pub open spec fn is_finite(bits: u32) -> bool {
    exponent_field(bits) < 0xff
}

/// Integer significand of a finite pattern: the fraction, with the hidden
/// leading bit in front of it unless the number is subnormal.
pub open spec fn significand(bits: u32) -> nat {
    if exponent_field(bits) == 0 {
        fraction_field(bits)
    } else {
        0x80_0000 + fraction_field(bits)
    }
}

/// Power of two by which the significand of a finite pattern is scaled,
/// counted from `2^-149`.
pub open spec fn scale(bits: u32) -> nat {
    if exponent_field(bits) == 0 {
        0
    } else {
        (exponent_field(bits) - 1) as nat
    }
}

/// Absolute value of a finite pattern, in units of `2^-149`.
pub open spec fn magnitude(bits: u32) -> nat {
    significand(bits) * pow2(scale(bits))
}

/// Value of a finite pattern, in units of `2^-149`.
pub open spec fn value(bits: u32) -> int {
    if sign_bit(bits) {
        -(magnitude(bits) as int)
    } else {
        magnitude(bits) as int
    }
}

/// The pattern with the opposite sign bit and the same exponent and fraction.
pub open spec fn negated(bits: u32) -> u32 {
    if bits >= SIGN {
        (bits - SIGN) as u32
    } else {
        (bits + SIGN) as u32
    }
}

/// The pattern without its sign bit: the absolute value of the number.
pub open spec fn absolute(bits: u32) -> u32 {
    if bits >= SIGN {
        (bits - SIGN) as u32
    } else {
        bits
    }
}

/// The three fields of a pattern.
pub struct Fields {
    pub negative: bool,
    pub exponent: u32,
    pub fraction: u32,
}

/// Splits a pattern into sign, exponent and fraction.
pub fn fields(bits: u32) -> (f: Fields)
    ensures
        f.negative == sign_bit(bits),
        f.exponent == exponent_field(bits),
        f.fraction == fraction_field(bits),
        f.exponent < 0x100,
        f.fraction < 0x80_0000,
{
    Fields { negative: bits >= SIGN, exponent: bits / 0x80_0000 % 0x100, fraction: bits % 0x80_0000 }
}

/// Flips the sign bit.
pub fn negate(bits: u32) -> (r: u32)
    ensures
        r == negated(bits),
{
    if bits >= SIGN {
        bits - SIGN
    } else {
        bits + SIGN
    }
}

/// Flipping the sign bit keeps exponent and fraction, so it keeps finiteness
/// and not-a-number, and it turns the value into its opposite.
pub proof fn lemma_negated(bits: u32)
    ensures
        sign_bit(negated(bits)) == !sign_bit(bits),
        exponent_field(negated(bits)) == exponent_field(bits),
        fraction_field(negated(bits)) == fraction_field(bits),
        is_finite(negated(bits)) == is_finite(bits),
        is_nan(negated(bits)) == is_nan(bits),
        value(negated(bits)) == -value(bits),
{
}

/// Flipping the sign bit twice gives the pattern back.
pub proof fn lemma_negated_twice(bits: u32)
    ensures
        negated(negated(bits)) == bits,
{
}

/// A significand has at most twenty-four bits, and exactly twenty-four when
/// the exponent field is not zero.
pub proof fn lemma_significand_bounds(bits: u32)
    ensures
        significand(bits) < 0x100_0000,
        exponent_field(bits) != 0 ==> significand(bits) >= 0x80_0000,
        scale(bits) <= 254,
        is_finite(bits) ==> scale(bits) <= 253,
{
}

/// Powers of two grow with the exponent.
pub proof fn lemma_pow2_monotonic(a: nat, b: nat)
    requires
        a <= b,
    ensures
        pow2(a) <= pow2(b),
{
    if a < b {
        lemma_pow2_strictly_increases(a, b);
    }
}

/// Only the two zero patterns have value zero.
pub proof fn lemma_value_zero(bits: u32)
    requires
        is_finite(bits),
    ensures
        value(bits) == 0 <==> (bits == ZERO || bits == SIGN),
{
    lemma_pow2_pos(scale(bits));
    let m = significand(bits);
    let p = pow2(scale(bits));
    assert(m > 0 ==> m * p > 0) by (nonlinear_arith)
        requires
            p > 0,
    ;
    assert(m == 0 ==> m * p == 0) by (nonlinear_arith);
}

/// Only one pattern has the value one.
pub proof fn lemma_value_one(bits: u32)
    requires
        is_finite(bits),
    ensures
        value(bits) == unit() <==> bits == ONE,
{
    let m = significand(bits);
    let k = scale(bits);
    lemma_pow2_pos(k);
    lemma2_to64();
    if bits == ONE {
        assert(exponent_field(bits) == 127);
        assert(fraction_field(bits) == 0);
        lemma_pow2_adds(23, 126);
        assert(value(bits) == unit());
    } else if exponent_field(bits) == 127 {
        assert(k == 126);
        lemma_pow2_adds(23, 126);
        let p = pow2(126);
        if fraction_field(bits) != 0 {
            assert(m * p > 0x80_0000 * p) by (nonlinear_arith)
                requires
                    m > 0x80_0000,
                    p > 0,
            ;
        } else {
            assert(sign_bit(bits));
            assert(0x80_0000 * p > 0) by (nonlinear_arith)
                requires
                    p > 0,
            ;
        }
    } else if exponent_field(bits) > 127 {
        lemma_pow2_monotonic(127, k);
        lemma_pow2_adds(23, 127);
        lemma_pow2_strictly_increases(149, 150);
        let p = pow2(k);
        let q = pow2(127);
        assert(m * p >= 0x80_0000 * q) by (nonlinear_arith)
            requires
                m >= 0x80_0000,
                p >= q,
        ;
    } else {
        lemma_pow2_monotonic(k, 125);
        lemma_pow2_adds(24, 125);
        let p = pow2(k);
        let q = pow2(125);
        assert(m * p < 0x100_0000 * q) by (nonlinear_arith)
            requires
                m < 0x100_0000,
                0 < p <= q,
        ;
    }
}

/// Number of binary digits of `n`; zero has none.
pub open spec fn bit_length(n: nat) -> nat
    decreases n,
{
    if n == 0 {
        0
    } else {
        1 + bit_length(n / 2)
    }
}

/// Distance between neighbouring binary32 numbers at the size of `n`, both in
/// units of `2^-149`: a significand keeps twenty-four binary digits.
pub open spec fn spacing(n: nat) -> nat {
    if bit_length(n) <= 24 {
        1
    } else {
        pow2((bit_length(n) - 24) as nat)
    }
}

/// The multiple of `step` nearest to `n`; of two equally near multiples, the
/// even one.
pub open spec fn round_half_even(n: nat, step: nat) -> nat {
    let below = n / step;
    let rest = n % step;
    if 2 * rest < step || (2 * rest == step && below % 2 == 0) {
        below * step
    } else {
        (below + 1) * step
    }
}

/// The binary32 number nearest to `n`, ties to the even significand, both in
/// units of `2^-149`. Overflow to infinity is left out: the result is the
/// rounded number also where it is too large for the format.
pub open spec fn nearest(n: nat) -> nat {
    round_half_even(n, spacing(n))
}

/// A positive number lies between the two powers of two that its number of
/// digits names.
pub proof fn lemma_bit_length_bounds(n: nat)
    requires
        n > 0,
    ensures
        bit_length(n) >= 1,
        pow2((bit_length(n) - 1) as nat) <= n < pow2(bit_length(n)),
    decreases n,
{
    lemma2_to64();
    if n == 1 {
        assert(bit_length(0) == 0);
        assert(bit_length(1) == 1);
    } else {
        let half = n / 2;
        lemma_bit_length_bounds(half);
        let b = bit_length(half);
        lemma_pow2_unfold(b);
        lemma_pow2_unfold(b + 1);
    }
}

/// The number of digits is the only `b` with `2^(b-1) <= n < 2^b`.
pub proof fn lemma_bit_length_unique(n: nat, b: nat)
    requires
        b >= 1,
        pow2((b - 1) as nat) <= n < pow2(b),
    ensures
        bit_length(n) == b,
{
    lemma_pow2_pos((b - 1) as nat);
    lemma_bit_length_bounds(n);
    let c = bit_length(n);
    if c < b {
        lemma_pow2_monotonic(c, (b - 1) as nat);
    } else if c > b {
        lemma_pow2_monotonic(b, (c - 1) as nat);
    }
}

/// Multiplying by `2^k` adds `k` digits.
pub proof fn lemma_bit_length_scaled(n: nat, k: nat)
    requires
        n > 0,
    ensures
        bit_length(n * pow2(k)) == bit_length(n) + k,
{
    lemma_bit_length_bounds(n);
    let b = bit_length(n);
    let low = pow2((b - 1) as nat);
    let high = pow2(b);
    let p = pow2(k);
    lemma_pow2_pos(k);
    lemma_pow2_adds((b - 1) as nat, k);
    lemma_pow2_adds(b, k);
    assert(low * p <= n * p < high * p) by (nonlinear_arith)
        requires
            low <= n < high,
            p > 0,
    ;
    lemma_bit_length_unique(n * p, b + k);
}

/// Rounding commutes with a change of unit.
pub proof fn lemma_round_half_even_scaled(n: nat, step: nat, c: nat)
    requires
        step > 0,
        c > 0,
    ensures
        round_half_even(n * c, step * c) == round_half_even(n, step) * c,
{
    let below = n / step;
    let rest = n % step;
    lemma_div_multiples_vanish_quotient(c as int, n as int, step as int);
    lemma_truncate_middle(n as int, c as int, step as int);
    assert(c * n == n * c && c * step == step * c) by (nonlinear_arith);
    assert((n * c) / (step * c) == below);
    assert((n * c) % (step * c) == c * rest);
    assert(2 * (c * rest) < step * c <==> 2 * rest < step) by (nonlinear_arith)
        requires
            c > 0,
    ;
    assert(2 * (c * rest) == step * c <==> 2 * rest == step) by (nonlinear_arith)
        requires
            c > 0,
    ;
    assert(below * (step * c) == (below * step) * c) by (nonlinear_arith);
    assert((below + 1) * (step * c) == ((below + 1) * step) * c) by (nonlinear_arith);
}

/// Rounding moves a number by less than one step.
pub proof fn lemma_round_half_even_bounds(n: nat, step: nat)
    requires
        step > 0,
    ensures
        n - step < round_half_even(n, step) <= n + step,
        round_half_even(n, step) >= (n / step) * step,
{
    let below = n / step;
    let rest = n % step;
    assert(n == below * step + rest && 0 <= rest < step) by (nonlinear_arith)
        requires
            below == n / step,
            rest == n % step,
            step > 0,
    ;
    assert((below + 1) * step == below * step + step) by (nonlinear_arith);
}

} // verus!
