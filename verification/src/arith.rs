//! Addition, subtraction, multiplication, division and square root of
//! binary32 numbers, on their patterns.
//!
//! Every operation gives the binary32 number nearest to the exact result,
//! ties to the even significand, as the standard for floating-point
//! arithmetic asks. An operation without a number for a result gives the one
//! not-a-number pattern `NAN`.

use crate::binary32::{
    bit_length, exponent_field, fields, fraction_field, is_finite, is_infinite, is_nan,
    lemma_bit_length_bounds, lemma_bit_length_unique, lemma_negated, lemma_pow2_monotonic,
    lemma_round_half_even_scaled, lemma_value_one, lemma_value_zero, magnitude, nearest, negate,
    negated, round_half_even, scale, sign_bit, significand, spacing, unit, value, INFINITY, NAN,
    ONE, SIGN, TWO, ZERO,
};
use crate::rounding::{
    bit_len, dropped, encode, lemma_encode_magnitude, lemma_encode_sign, lemma_round_multiple,
    lemma_round_scaled, lemma_round_whole, nearest_ratio, round_pack, round_scaled, stands_for,
    two_to, unpack,
};
use vstd::arithmetic::div_mod::{lemma_div_by_multiple, lemma_fundamental_div_mod};
use vstd::arithmetic::power2::{
    lemma2_to64, lemma2_to64_rest, lemma_pow2_adds, lemma_pow2_pos, lemma_pow2_unfold, pow2,
};
use vstd::prelude::*;

verus! {

/// The infinity of the given sign.
pub open spec fn infinity(negative: bool) -> u32 {
    if negative {
        (INFINITY + SIGN) as u32
    } else {
        INFINITY
    }
}

/// The zero of the given sign.
pub open spec fn zero(negative: bool) -> u32 {
    if negative {
        SIGN
    } else {
        ZERO
    }
}

/// The sum of two binary32 numbers. Infinities of opposite signs have no
/// sum. An exact sum of zero is positive zero unless both numbers are
/// negative zero.
#[verifier::opaque]
pub open spec fn sum(a: u32, b: u32) -> u32 {
    if is_nan(a) || is_nan(b) {
        NAN
    } else if is_infinite(a) {
        if is_infinite(b) && sign_bit(a) != sign_bit(b) {
            NAN
        } else {
            a
        }
    } else if is_infinite(b) {
        b
    } else {
        let exact = value(a) + value(b);
        if exact == 0 {
            zero(sign_bit(a) && sign_bit(b))
        } else if exact < 0 {
            encode(true, nearest((-exact) as nat))
        } else {
            encode(false, nearest(exact as nat))
        }
    }
}

/// The difference of two binary32 numbers: the sum of the first and the
/// opposite of the second.
pub open spec fn difference(a: u32, b: u32) -> u32 {
    sum(a, negated(b))
}

/// The product of two binary32 numbers. Zero times infinity has no product.
#[verifier::opaque]
pub open spec fn product(a: u32, b: u32) -> u32 {
    let negative = sign_bit(a) != sign_bit(b);
    if is_nan(a) || is_nan(b) {
        NAN
    } else if is_infinite(a) || is_infinite(b) {
        if (is_finite(a) && magnitude(a) == 0) || (is_finite(b) && magnitude(b) == 0) {
            NAN
        } else {
            infinity(negative)
        }
    } else {
        encode(negative, nearest_ratio(magnitude(a) * magnitude(b), unit()))
    }
}

/// The sum of two finite numbers, the first with the scale that is not smaller.
fn plus_finite(a: u32, b: u32) -> (r: u32)
    requires
        is_finite(a),
        is_finite(b),
        scale(a) >= scale(b),
    ensures
        r == sum(a, b),
{
    proof {
        reveal(sum);
    }
    let (na, ma, ka) = unpack(a);
    let (nb, mb, kb) = unpack(b);
    let gap = ka - kb;
    let ghost pa = pow2(ka as nat);
    let ghost pb = pow2(kb as nat);
    let ghost exact = value(a) + value(b);
    proof {
        lemma2_to64();
        lemma2_to64_rest();
        lemma_pow2_pos(ka as nat);
        lemma_pow2_pos(kb as nat);
        lemma_pow2_pos(gap as nat);
        lemma_pow2_adds(gap as nat, kb as nat);
        assert(magnitude(a) == ma * pa);
        assert(magnitude(b) == mb * pb);
    }
    if gap <= 30 {
        proof {
            lemma_pow2_monotonic(gap as nat, 30);
            assert(ma * pow2(gap as nat) < 0x40_0000_0000_0000) by (nonlinear_arith)
                requires
                    ma < 0x100_0000,
                    pow2(gap as nat) <= 0x4000_0000,
            ;
        }
        let x: u64 = ma as u64 * two_to(gap);
        let y: u64 = mb as u64;
        proof {
            assert(ma * pa == x * pb) by (nonlinear_arith)
                requires
                    x == ma * pow2(gap as nat),
                    pa == pow2(gap as nat) * pb,
            ;
        }
        let (negative, size): (bool, u64) = if na == nb {
            (na, x + y)
        } else if x >= y {
            (na, x - y)
        } else {
            (nb, y - x)
        };
        proof {
            let signed: int = if negative {
                -(size as int)
            } else {
                size as int
            };
            assert(exact == signed * pb) by (nonlinear_arith)
                requires
                    exact == (if na {
                        -(x * pb)
                    } else {
                        x * pb
                    }) + (if nb {
                        -(y * pb)
                    } else {
                        y * pb
                    }),
                    signed == (if na {
                        -(x as int)
                    } else {
                        x as int
                    }) + (if nb {
                        -(y as int)
                    } else {
                        y as int
                    }),
            ;
            assert(size == 0 ==> signed * pb == 0) by (nonlinear_arith)
                requires
                    size == 0 ==> signed == 0,
            ;
            assert(size > 0 && negative ==> signed * pb < 0 && -(signed * pb) == size * pb)
                by (nonlinear_arith)
                requires
                    negative ==> signed == -(size as int),
                    pb > 0,
            ;
            assert(size > 0 && !negative ==> signed * pb > 0 && signed * pb == size * pb)
                by (nonlinear_arith)
                requires
                    !negative ==> signed == size as int,
                    pb > 0,
            ;
            lemma_round_whole(size as nat, kb as nat);
        }
        if size == 0 {
            if na && nb {
                SIGN
            } else {
                ZERO
            }
        } else {
            round_pack(negative, size, kb as i32, false)
        }
    } else if mb == 0 {
        proof {
            lemma_encode_magnitude(a);
            assert(mb * pb == 0) by (nonlinear_arith)
                requires
                    mb == 0,
            ;
            assert(ma * pa > 0) by (nonlinear_arith)
                requires
                    ma >= 0x80_0000,
                    pa > 0,
            ;
        }
        a
    } else {
        let n: u64 = if na == nb {
            8 * ma as u64
        } else {
            8 * ma as u64 - 1
        };
        let e: i32 = ka as i32 - 3;
        proof {
            let digits: nat = if n >= 0x400_0000 {
                27
            } else {
                26
            };
            lemma_bit_length_unique(n as nat, digits);
            let d = dropped(n as nat, e as int);
            assert(d == digits - 24);
            let grid = pow2((d + e) as nat);
            lemma_pow2_pos((d + e) as nat);
            lemma_pow2_adds(31, (gap - 31) as nat);
            lemma_pow2_pos((gap - 31) as nat);
            // The smaller number is below one eighth of a unit of `n`.
            assert(0 < 16 * (mb * pb) <= pa) by (nonlinear_arith)
                requires
                    0 < mb < 0x100_0000,
                    pb > 0,
                    pa == pow2(gap as nat) * pb,
                    pow2(gap as nat) == 0x8000_0000 * pow2((gap - 31) as nat),
                    pow2((gap - 31) as nat) >= 1,
            ;
            assert(ma * pa >= pa) by (nonlinear_arith)
                requires
                    ma >= 1,
                    pa > 0,
            ;
            let total: nat = if na == nb {
                (ma * pa + mb * pb) as nat
            } else {
                (ma * pa - mb * pb) as nat
            };
            if d == 3 {
                assert(grid == pa);
                assert(n * (1 * grid) <= total * 8 < (n + 1) * (1 * grid) && n * (1 * grid) != total
                    * 8) by (nonlinear_arith)
                    requires
                        grid == pa,
                        n == (if na == nb {
                            8 * ma
                        } else {
                            8 * ma - 1
                        }),
                        total == (if na == nb {
                            ma * pa + mb * pb
                        } else {
                            ma * pa - mb * pb
                        }),
                        0 < 16 * (mb * pb) <= pa,
                ;
            } else {
                lemma_pow2_unfold(ka as nat);
                assert(pa == 2 * grid);
                assert(na != nb && ma == 0x80_0000);
                assert(n * (1 * grid) <= total * 4 < (n + 1) * (1 * grid) && n * (1 * grid) != total
                    * 4) by (nonlinear_arith)
                    requires
                        pa == 2 * grid,
                        n == 8 * ma - 1,
                        total == ma * pa - mb * pb,
                        0 < 16 * (mb * pb) <= pa,
                ;
            }
            assert(stands_for(n as nat, e as int, true, total, 1));
            lemma_round_scaled(n as nat, e as int, true, total, 1);
            assert(total / 1 == total);
            assert(1 * spacing(total) == spacing(total)) by (nonlinear_arith);
            assert(nearest_ratio(total, 1) == nearest(total));
            assert(total > 0);
            assert(na ==> exact == -(total as int));
            assert(!na ==> exact == total as int);
        }
        round_pack(na, n, e, true)
    }
}

/// Adds two binary32 numbers.
pub fn plus(a: u32, b: u32) -> (r: u32)
    ensures
        r == sum(a, b),
{
    proof {
        reveal(sum);
    }
    let fa = fields(a);
    let fb = fields(b);
    if (fa.exponent == 0xff && fa.fraction != 0) || (fb.exponent == 0xff && fb.fraction != 0) {
        NAN
    } else if fa.exponent == 0xff {
        if fb.exponent == 0xff && fa.negative != fb.negative {
            NAN
        } else {
            a
        }
    } else if fb.exponent == 0xff {
        b
    } else if fa.exponent >= fb.exponent {
        plus_finite(a, b)
    } else {
        plus_finite(b, a)
    }
}

/// Subtracts the second binary32 number from the first.
pub fn minus(a: u32, b: u32) -> (r: u32)
    ensures
        r == difference(a, b),
{
    plus(a, negate(b))
}

/// Multiplies two binary32 numbers.
pub fn times(a: u32, b: u32) -> (r: u32)
    ensures
        r == product(a, b),
{
    proof {
        reveal(product);
    }
    let fa = fields(a);
    let fb = fields(b);
    let negative = fa.negative != fb.negative;
    let (_, ma, ka) = unpack(a);
    let (_, mb, kb) = unpack(b);
    if (fa.exponent == 0xff && fa.fraction != 0) || (fb.exponent == 0xff && fb.fraction != 0) {
        return NAN;
    }
    let ghost pa = pow2(ka as nat);
    let ghost pb = pow2(kb as nat);
    proof {
        lemma2_to64();
        lemma_pow2_pos(ka as nat);
        lemma_pow2_pos(kb as nat);
        assert(ma == 0 ==> ma * pa == 0) by (nonlinear_arith);
        assert(mb == 0 ==> mb * pb == 0) by (nonlinear_arith);
        assert(ma > 0 ==> ma * pa > 0) by (nonlinear_arith)
            requires
                pa > 0,
        ;
        assert(mb > 0 ==> mb * pb > 0) by (nonlinear_arith)
            requires
                pb > 0,
        ;
    }
    if fa.exponent == 0xff || fb.exponent == 0xff {
        return if (fa.exponent != 0xff && ma == 0) || (fb.exponent != 0xff && mb == 0) {
            NAN
        } else if negative {
            INFINITY + SIGN
        } else {
            INFINITY
        };
    }
    assert(ma * mb < 0x1_0000_0000_0000) by (nonlinear_arith)
        requires
            ma < 0x100_0000,
            mb < 0x100_0000,
    ;
    let n: u64 = ma as u64 * mb as u64;
    let e: i32 = ka as i32 + kb as i32 - 149;
    proof {
        let d = dropped(n as nat, e as int);
        let t = (d + e) as nat;
        let num = magnitude(a) * magnitude(b);
        lemma_pow2_adds(ka as nat, kb as nat);
        lemma_pow2_adds((ka + kb) as nat, d);
        lemma_pow2_adds(149, t);
        lemma_pow2_pos(149 + t);
        assert(n * (unit() * pow2(t)) == num * pow2(d)) by (nonlinear_arith)
            requires
                n == ma * mb,
                num == (ma * pa) * (mb * pb),
                pow2((ka + kb) as nat) == pa * pb,
                pow2((ka + kb) as nat + d) == pow2((ka + kb) as nat) * pow2(d),
                pow2(149 + t) == unit() * pow2(t),
                149 + t == (ka + kb) as nat + d,
        ;
        assert((n + 1) * (unit() * pow2(t)) > n * (unit() * pow2(t))) by (nonlinear_arith)
            requires
                pow2(149 + t) == unit() * pow2(t),
                pow2(149 + t) > 0,
        ;
        lemma_pow2_pos(149);
        assert(stands_for(n as nat, e as int, false, num, unit()));
        lemma_round_scaled(n as nat, e as int, false, num, unit());
    }
    round_pack(negative, n, e, false)
}

/// The quotient of two binary32 numbers. Zero over zero and infinity over
/// infinity have no quotient; another number over zero is infinite.
#[verifier::opaque]
pub open spec fn quotient(a: u32, b: u32) -> u32 {
    let negative = sign_bit(a) != sign_bit(b);
    if is_nan(a) || is_nan(b) {
        NAN
    } else if is_infinite(a) {
        if is_infinite(b) {
            NAN
        } else {
            infinity(negative)
        }
    } else if is_infinite(b) {
        zero(negative)
    } else if magnitude(b) == 0 {
        if magnitude(a) == 0 {
            NAN
        } else {
            infinity(negative)
        }
    } else {
        encode(negative, nearest_ratio(magnitude(a) * unit(), magnitude(b)))
    }
}

/// A significand that is not zero, shifted up to twenty-four digits.
fn normalized(m: u32) -> (r: (u32, u32))
    requires
        0 < m < 0x100_0000,
    ensures
        r.0 == m * pow2(r.1 as nat),
        0x80_0000 <= r.0 < 0x100_0000,
        r.1 <= 23,
{
    let digits = bit_len(m as u64);
    proof {
        lemma2_to64();
        lemma_bit_length_bounds(m as nat);
        if digits > 24 {
            lemma_pow2_monotonic(24, (digits - 1) as nat);
        }
    }
    let up = 24 - digits;
    let scale = two_to(up);
    proof {
        lemma_pow2_adds((digits - 1) as nat, up as nat);
        lemma_pow2_adds(digits as nat, up as nat);
        assert(0x80_0000 <= m * scale < 0x100_0000) by (nonlinear_arith)
            requires
                pow2((digits - 1) as nat) <= m < pow2(digits as nat),
                pow2((digits - 1) as nat) * scale == 0x80_0000,
                pow2(digits as nat) * scale == 0x100_0000,
                scale > 0,
        ;
    }
    ((m as u64 * scale) as u32, up)
}

/// Divides the first binary32 number by the second.
pub fn over(a: u32, b: u32) -> (r: u32)
    ensures
        r == quotient(a, b),
{
    proof {
        reveal(quotient);
    }
    let fa = fields(a);
    let fb = fields(b);
    let negative = fa.negative != fb.negative;
    let (_, ma, ka) = unpack(a);
    let (_, mb, kb) = unpack(b);
    if (fa.exponent == 0xff && fa.fraction != 0) || (fb.exponent == 0xff && fb.fraction != 0) {
        return NAN;
    }
    let ghost pa = pow2(ka as nat);
    let ghost pb = pow2(kb as nat);
    proof {
        lemma2_to64();
        lemma_pow2_pos(ka as nat);
        lemma_pow2_pos(kb as nat);
        lemma_pow2_pos(149);
        assert(ma == 0 ==> ma * pa == 0) by (nonlinear_arith);
        assert(mb == 0 ==> mb * pb == 0) by (nonlinear_arith);
        assert(ma > 0 ==> ma * pa > 0) by (nonlinear_arith)
            requires
                pa > 0,
        ;
        assert(mb > 0 ==> mb * pb > 0) by (nonlinear_arith)
            requires
                pb > 0,
        ;
    }
    let signed_infinity = if negative {
        INFINITY + SIGN
    } else {
        INFINITY
    };
    let signed_zero = if negative {
        SIGN
    } else {
        ZERO
    };
    if fa.exponent == 0xff {
        return if fb.exponent == 0xff {
            NAN
        } else {
            signed_infinity
        };
    }
    if fb.exponent == 0xff {
        return signed_zero;
    }
    if mb == 0 {
        return if ma == 0 {
            NAN
        } else {
            signed_infinity
        };
    }
    if ma == 0 {
        proof {
            let den = magnitude(b);
            assert(magnitude(a) * unit() == 0) by (nonlinear_arith)
                requires
                    magnitude(a) == 0,
            ;
            assert(0nat / den == 0) by {
                vstd::arithmetic::div_mod::lemma_basic_div(0, den as int);
            }
            assert(bit_length(0) == 0);
            assert(den * 1 == den) by (nonlinear_arith);
            assert(0 * den == 0) by (nonlinear_arith);
            lemma_round_multiple(0, den);
        }
        return signed_zero;
    }
    let (top, la) = normalized(ma);
    let (bottom, lb) = normalized(mb);
    let dividend: u64 = top as u64 * 0x400_0000;
    let n: u64 = dividend / bottom as u64;
    let rest: u64 = dividend % bottom as u64;
    let e: i32 = (ka as i32 - la as i32) - (kb as i32 - lb as i32) + 123;
    proof {
        lemma_fundamental_div_mod(dividend as int, bottom as int);
        assert(0x200_0000 <= n < 0x800_0000) by (nonlinear_arith)
            requires
                dividend == bottom * n + rest,
                0 <= rest < bottom,
                dividend == top * 0x400_0000,
                0x80_0000 <= top < 0x100_0000,
                0x80_0000 <= bottom < 0x100_0000,
        ;
        let digits: nat = if n >= 0x400_0000 {
            27
        } else {
            26
        };
        lemma_bit_length_unique(n as nat, digits);
        let d = dropped(n as nat, e as int);
        assert(d >= 2);
        let t = (d + e) as nat;
        let w = (d + ka - la + 123) as nat;
        let num = magnitude(a) * unit();
        let den = magnitude(b);
        let grid = den * pow2(t);
        let wide = pow2(w);
        lemma_pow2_pos(w);
        // The grid is the normalized divisor times `wide`.
        lemma_pow2_adds(kb as nat, t);
        lemma_pow2_adds(lb as nat, w);
        assert(grid == bottom * wide) by (nonlinear_arith)
            requires
                grid == (mb * pb) * pow2(t),
                bottom == mb * pow2(lb as nat),
                pow2(kb as nat + t) == pb * pow2(t),
                pow2(lb as nat + w) == pow2(lb as nat) * wide,
                kb as nat + t == lb as nat + w,
        ;
        // The scaled numerator is the dividend times `wide`.
        lemma_pow2_adds(ka as nat, 149);
        lemma_pow2_adds((ka + 149) as nat, d);
        lemma_pow2_adds(la as nat, 26);
        lemma_pow2_adds((la + 26) as nat, w);
        assert(num * pow2(d) == dividend * wide) by (nonlinear_arith)
            requires
                num == (ma * pa) * unit(),
                dividend == top * 0x400_0000,
                top == ma * pow2(la as nat),
                pow2((ka + 149) as nat) == pa * unit(),
                pow2((ka + 149) as nat + d) == pow2((ka + 149) as nat) * pow2(d),
                pow2((la + 26) as nat) == pow2(la as nat) * 0x400_0000,
                pow2((la + 26) as nat + w) == pow2((la + 26) as nat) * wide,
                (ka + 149) as nat + d == (la + 26) as nat + w,
        ;
        assert(n * grid <= num * pow2(d) < (n + 1) * grid && (n * grid != num * pow2(d) <==> rest
            != 0)) by (nonlinear_arith)
            requires
                num * pow2(d) == dividend * wide,
                grid == bottom * wide,
                dividend == bottom * n + rest,
                0 <= rest < bottom,
                wide > 0,
        ;
        assert(stands_for(n as nat, e as int, rest != 0, num, den));
        lemma_round_scaled(n as nat, e as int, rest != 0, num, den);
    }
    round_pack(negative, n, e, rest != 0)
}

/// The largest whole number whose square is at most `x`.
pub open spec fn floor_root(x: nat) -> nat
    decreases x,
{
    if x == 0 {
        0
    } else {
        let twice = 2 * floor_root(x / 4);
        if (twice + 1) * (twice + 1) <= x {
            twice + 1
        } else {
            twice
        }
    }
}

/// The binary32 number nearest to the square root of `x`, ties to the even
/// significand, in units of `2^-149` for an `x` in units of `2^-298`.
pub open spec fn nearest_root(x: nat) -> nat {
    let whole = floor_root(x);
    let step = spacing(whole);
    let low = (whole / step) * step;
    let middle = 2 * low + step;
    if 4 * x > middle * middle || (4 * x == middle * middle && (whole / step) % 2 == 1) {
        low + step
    } else {
        low
    }
}

/// The square root of a binary32 number. A negative number other than zero
/// has no square root; the square root of a zero is that zero.
#[verifier::opaque]
pub open spec fn root(a: u32) -> u32 {
    if is_nan(a) {
        NAN
    } else if is_finite(a) && magnitude(a) == 0 {
        a
    } else if sign_bit(a) {
        NAN
    } else if is_infinite(a) {
        a
    } else {
        encode(false, nearest_root(magnitude(a) * unit()))
    }
}

/// `floor_root(x)` is the largest whole number whose square is at most `x`.
pub proof fn lemma_floor_root(x: nat)
    ensures
        floor_root(x) * floor_root(x) <= x < (floor_root(x) + 1) * (floor_root(x) + 1),
    decreases x,
{
    if x > 0 {
        lemma_floor_root(x / 4);
        let r = floor_root(x / 4);
        let twice = 2 * r;
        assert(twice * twice <= x < (twice + 2) * (twice + 2)) by (nonlinear_arith)
            requires
                r * r <= x / 4 < (r + 1) * (r + 1),
                twice == 2 * r,
        ;
    } else {
        assert(0 * 0 == 0 && (0 + 1) * (0 + 1) == 1) by (nonlinear_arith);
    }
}

/// Only one whole number has `x` between its square and the square of its
/// successor.
pub proof fn lemma_floor_root_unique(x: nat, r: nat)
    requires
        r * r <= x < (r + 1) * (r + 1),
    ensures
        floor_root(x) == r,
{
    lemma_floor_root(x);
    let f = floor_root(x);
    assert(f == r) by (nonlinear_arith)
        requires
            r * r <= x < (r + 1) * (r + 1),
            f * f <= x < (f + 1) * (f + 1),
    ;
}

/// The largest whole number whose square is at most `x`.
fn whole_root(x: u64) -> (r: u64)
    requires
        x < 0x40_0000_0000_0000,
    ensures
        r * r <= x < (r + 1) * (r + 1),
        r < 0x800_0000,
{
    let mut low: u64 = 0;
    let mut high: u64 = 0x800_0000;
    assert(0 * 0 == 0) by (nonlinear_arith);
    while high - low > 1
        invariant
            low < high <= 0x800_0000,
            low * low <= x < high * high,
        decreases high - low,
    {
        let middle = low + (high - low) / 2;
        assert(middle * middle < 0x40_0000_0000_0000) by (nonlinear_arith)
            requires
                middle < 0x800_0000,
        ;
        if middle * middle <= x {
            low = middle;
        } else {
            high = middle;
        }
    }
    low
}

/// Rounding a square root by dropped digits: where `r` is the whole part of
/// the square root of `radicand` and has at least twenty-six digits, the
/// binary32 number nearest to the square root of `radicand * 4^e` is
/// `round_scaled(r, e, sticky)` with `sticky` for a root that is not whole.
proof fn lemma_round_root(radicand: nat, r: nat, e: nat)
    requires
        r * r <= radicand < (r + 1) * (r + 1),
        bit_length(r) >= 26,
    ensures
        nearest_root(radicand * pow2(2 * e)) == round_scaled(r, e as int, r * r != radicand),
{
    let x = radicand * pow2(2 * e);
    let p = pow2(e);
    let b = bit_length(r);
    let d = dropped(r, e as int);
    assert(d == b - 24);
    let g = pow2(d);
    let s = pow2(d + e);
    let whole = floor_root(x);
    lemma_floor_root(x);
    lemma_pow2_adds(e, e);
    lemma_pow2_adds(d, e);
    lemma_pow2_pos(e);
    lemma_pow2_pos(d);
    lemma_pow2_pos(d + e);
    lemma_pow2_unfold(d);
    let h = pow2((d - 1) as nat);
    lemma_pow2_pos((d - 1) as nat);
    lemma_bit_length_bounds(r);
    assert(x == radicand * (p * p));
    // The whole part of the scaled root lies between the scaled whole part
    // and its successor.
    assert(r * p <= whole < (r + 1) * p) by (nonlinear_arith)
        requires
            x == radicand * (p * p),
            r * r <= radicand < (r + 1) * (r + 1),
            whole * whole <= x < (whole + 1) * (whole + 1),
            p > 0,
    ;
    lemma_pow2_adds((b - 1) as nat, e);
    lemma_pow2_adds(b, e);
    assert(pow2((b - 1) as nat + e) <= whole < pow2(b + e)) by (nonlinear_arith)
        requires
            r * p <= whole < (r + 1) * p,
            pow2((b - 1) as nat) <= r,
            r + 1 <= pow2(b),
            pow2((b - 1) as nat + e) == pow2((b - 1) as nat) * p,
            pow2(b + e) == pow2(b) * p,
            p > 0,
    ;
    lemma_bit_length_unique(whole, b + e);
    assert(spacing(whole) == s);
    let kept = r / g;
    let rest = r % g;
    lemma_fundamental_div_mod(r as int, g as int);
    assert(kept * s <= whole < (kept + 1) * s) by (nonlinear_arith)
        requires
            r * p <= whole < (r + 1) * p,
            r == g * kept + rest,
            0 <= rest < g,
            s == g * p,
            p > 0,
    ;
    assert((kept + 1) * s == kept * s + s) by (nonlinear_arith);
    let left = (whole - kept * s) as nat;
    vstd::arithmetic::div_mod::lemma_fundamental_div_mod_converse(
        whole as int,
        s as int,
        kept as int,
        left as int,
    );
    assert(whole / s == kept);
    let low = kept * s;
    let middle = 2 * low + s;
    let center = kept * g + h;
    assert(middle == 2 * (center * p)) by (nonlinear_arith)
        requires
            middle == 2 * (kept * s) + s,
            s == g * p,
            g == 2 * h,
            center == kept * g + h,
    ;
    assert(middle * middle == 4 * ((center * center) * (p * p))) by (nonlinear_arith)
        requires
            middle == 2 * (center * p),
    ;
    assert((kept + 1) * s == low + s);
    if 2 * rest > g {
        assert(radicand > center * center) by (nonlinear_arith)
            requires
                r * r <= radicand,
                r == g * kept + rest,
                rest >= h + 1,
                g == 2 * h,
                center == kept * g + h,
        ;
        assert(4 * x > middle * middle) by (nonlinear_arith)
            requires
                x == radicand * (p * p),
                middle * middle == 4 * ((center * center) * (p * p)),
                radicand > center * center,
                p > 0,
        ;
    } else if 2 * rest == g {
        assert(r == center);
        assert(4 * x >= middle * middle && (4 * x == middle * middle <==> r * r == radicand))
            by (nonlinear_arith)
            requires
                x == radicand * (p * p),
                middle * middle == 4 * ((center * center) * (p * p)),
                radicand >= center * center,
                r == center,
                p > 0,
        ;
    } else {
        assert(radicand < center * center) by (nonlinear_arith)
            requires
                radicand < (r + 1) * (r + 1),
                r == g * kept + rest,
                rest + 1 <= h,
                g == 2 * h,
                center == kept * g + h,
        ;
        assert(4 * x < middle * middle) by (nonlinear_arith)
            requires
                x == radicand * (p * p),
                middle * middle == 4 * ((center * center) * (p * p)),
                radicand < center * center,
                p > 0,
        ;
    }
}

/// The square root of a binary32 number.
pub fn sqrt(a: u32) -> (r: u32)
    ensures
        r == root(a),
{
    proof {
        reveal(root);
    }
    let f = fields(a);
    let (_, m, k) = unpack(a);
    if f.exponent == 0xff && f.fraction != 0 {
        return NAN;
    }
    let ghost p = pow2(k as nat);
    proof {
        lemma2_to64();
        lemma_pow2_pos(k as nat);
        assert(m == 0 ==> m * p == 0) by (nonlinear_arith);
        assert(m > 0 ==> m * p > 0) by (nonlinear_arith)
            requires
                p > 0,
        ;
    }
    if f.exponent != 0xff && m == 0 {
        return a;
    }
    if f.negative {
        return NAN;
    }
    if f.exponent == 0xff {
        return a;
    }
    let (top, l) = normalized(m);
    // The number is `top * 2^t` units of `2^-298`.
    let t: u32 = k + 149 - l;
    let j: u32 = if t % 2 == 0 {
        28
    } else {
        29
    };
    let e: u32 = (t - j) / 2;
    let radicand: u64 = top as u64 * two_to(j);
    proof {
        assert(0x8_0000_0000_0000 <= radicand < 0x20_0000_0000_0000) by (nonlinear_arith)
            requires
                radicand == top * pow2(j as nat),
                0x80_0000 <= top < 0x100_0000,
                pow2(j as nat) == 0x1000_0000 || pow2(j as nat) == 0x2000_0000,
        ;
    }
    let r = whole_root(radicand);
    proof {
        assert(0x200_0000 <= r < 0x800_0000) by (nonlinear_arith)
            requires
                r * r <= radicand < (r + 1) * (r + 1),
                0x8_0000_0000_0000 <= radicand < 0x20_0000_0000_0000,
        ;
        let digits: nat = if r >= 0x400_0000 {
            27
        } else {
            26
        };
        lemma_bit_length_unique(r as nat, digits);
        lemma_round_root(radicand as nat, r as nat, e as nat);
        lemma_pow2_adds(k as nat, 149);
        lemma_pow2_adds(l as nat, (k + 149 - l) as nat);
        lemma_pow2_adds(j as nat, (2 * e) as nat);
        assert(magnitude(a) * unit() == radicand * pow2((2 * e) as nat)) by (nonlinear_arith)
            requires
                magnitude(a) == m * p,
                radicand == top * pow2(j as nat),
                top == m * pow2(l as nat),
                pow2((k + 149) as nat) == p * unit(),
                pow2((k + 149) as nat) == pow2(l as nat) * pow2((k + 149 - l) as nat),
                pow2((k + 149 - l) as nat) == pow2(j as nat) * pow2((2 * e) as nat),
        ;
    }
    round_pack(false, r, e as i32, r * r != radicand)
}

/// Whether the pattern is one of the two zeros.
pub open spec fn is_zero(bits: u32) -> bool {
    bits == ZERO || bits == SIGN
}

/// The pattern of a number with the other sign is the pattern with the sign
/// bit flipped.
pub proof fn lemma_negated_encode(negative: bool, n: nat)
    ensures
        negated(encode(negative, n)) == encode(!negative, n),
{
    lemma_encode_sign(negative, n);
}

/// A finite sum, difference or product has finite operands.
pub proof fn lemma_finite_operands(a: u32, b: u32)
    ensures
        is_finite(sum(a, b)) ==> is_finite(a) && is_finite(b),
        is_finite(difference(a, b)) ==> is_finite(a) && is_finite(b),
        is_finite(product(a, b)) ==> is_finite(a) && is_finite(b),
{
    reveal(sum);
    reveal(product);
    lemma_negated(b);
    assert(!is_finite(NAN));
    assert(!is_finite(INFINITY));
    assert(!is_finite((INFINITY + SIGN) as u32));
}

/// The product does not depend on the order of the two numbers.
pub proof fn lemma_product_commutes(a: u32, b: u32)
    ensures
        product(a, b) == product(b, a),
{
    reveal(product);
    assert(magnitude(a) * magnitude(b) == magnitude(b) * magnitude(a)) by (nonlinear_arith);
}

/// Subtracting the other way round gives the opposite number; where the two
/// finite numbers have one value, both differences are zeros.
pub proof fn lemma_difference_reversed(a: u32, b: u32)
    requires
        is_finite(a),
        is_finite(b),
    ensures
        value(a) != value(b) ==> difference(b, a) == negated(difference(a, b)),
        value(a) == value(b) ==> is_zero(difference(a, b)) && is_zero(difference(b, a)),
{
    reveal(sum);
    lemma_negated(a);
    lemma_negated(b);
    let forth = value(a) - value(b);
    if forth > 0 {
        lemma_negated_encode(false, nearest(forth as nat));
    } else if forth < 0 {
        lemma_negated_encode(true, nearest((-forth) as nat));
    }
}

/// Adding a zero to a finite number that is not zero gives the number.
pub proof fn lemma_sum_with_zero(a: u32, z: u32)
    requires
        is_finite(a),
        value(a) != 0,
        is_zero(z),
    ensures
        sum(a, z) == a,
        sum(z, a) == a,
        difference(a, z) == a,
{
    reveal(sum);
    lemma_value_zero(z);
    lemma_value_zero(negated(z));
    lemma_negated(z);
    lemma_encode_magnitude(a);
}

/// One and one are two.
pub proof fn lemma_sum_of_ones()
    ensures
        sum(ONE, ONE) == TWO,
{
    reveal(sum);
    let one = ONE;
    let two = TWO;
    lemma2_to64();
    lemma_value_one(one);
    lemma_pow2_pos(149);
    lemma_pow2_adds(23, 127);
    lemma_pow2_unfold(150);
    assert(exponent_field(two) == 128);
    assert(fraction_field(two) == 0);
    assert(magnitude(two) == 2 * unit());
    lemma_encode_magnitude(two);
}

/// One less one is positive zero.
pub proof fn lemma_difference_of_ones()
    ensures
        difference(ONE, ONE) == ZERO,
{
    reveal(sum);
    lemma_negated(ONE);
}

/// The sum and the difference of zeros are zeros.
pub proof fn lemma_sum_of_zeros(y: u32, z: u32)
    requires
        is_zero(y),
        is_zero(z),
    ensures
        is_zero(sum(y, z)),
        is_zero(difference(y, z)),
        sum(ZERO, ZERO) == ZERO,
{
    reveal(sum);
    lemma_value_zero(y);
    lemma_value_zero(z);
    lemma_value_zero(negated(z));
    lemma_negated(z);
    lemma_value_zero(ZERO);
}

/// The binary32 number nearest to a ratio that is a whole number of units
/// is the number nearest to that whole number.
pub proof fn lemma_ratio_of_multiple(v: nat, den: nat)
    requires
        den > 0,
    ensures
        nearest_ratio(v * den, den) == nearest(v),
{
    lemma_div_by_multiple(v as int, den as int);
    let step = spacing(v);
    assert(step > 0) by {
        if bit_length(v) > 24 {
            lemma_pow2_pos((bit_length(v) - 24) as nat);
        }
    }
    lemma_round_half_even_scaled(v, step, den);
    assert(den * step == step * den) by (nonlinear_arith);
    lemma_div_by_multiple(round_half_even(v, step) as int, den as int);
}

/// Multiplying a finite number by one gives the number.
pub proof fn lemma_product_by_one(a: u32)
    requires
        is_finite(a),
    ensures
        product(a, ONE) == a,
        product(ONE, a) == a,
{
    reveal(product);
    let one = ONE;
    lemma_value_one(one);
    lemma_pow2_pos(149);
    assert(magnitude(one) == unit());
    lemma_ratio_of_multiple(magnitude(a), unit());
    lemma_encode_magnitude(a);
    lemma_product_commutes(a, one);
}

/// Multiplying two zeros gives a zero.
pub proof fn lemma_product_of_zeros(y: u32, z: u32)
    requires
        is_zero(y),
        is_zero(z),
    ensures
        is_zero(product(y, z)),
        product(ZERO, ZERO) == ZERO,
{
    reveal(product);
    lemma_value_zero(y);
    lemma_value_zero(z);
    lemma_value_zero(ZERO);
    lemma_pow2_pos(149);
    assert(magnitude(y) * magnitude(z) == 0 * unit()) by (nonlinear_arith)
        requires
            magnitude(y) == 0,
    ;
    lemma_ratio_of_multiple(0, unit());
    assert(bit_length(0) == 0);
    lemma_round_multiple(0, 1);
    assert(0 * 1 == 0) by (nonlinear_arith);
    assert(nearest(0) == 0);
}

/// The square root of one is one.
pub proof fn lemma_root_of_one()
    ensures
        root(ONE) == ONE,
{
    reveal(root);
    let one = ONE;
    let u = unit();
    lemma2_to64();
    lemma_value_one(one);
    lemma_encode_magnitude(one);
    lemma_pow2_pos(149);
    assert(magnitude(one) == u);
    assert(u * u < (u + 1) * (u + 1)) by (nonlinear_arith)
        requires
            u > 0,
    ;
    lemma_floor_root_unique(u * u, u);
    lemma_pow2_unfold(150);
    lemma_bit_length_unique(u, 150);
    let step = pow2(126);
    lemma_pow2_adds(23, 126);
    lemma_pow2_pos(126);
    assert(spacing(u) == step);
    lemma_div_by_multiple(0x80_0000, step as int);
    assert(u / step == 0x80_0000);
    let middle = 2 * u + step;
    assert(4 * (u * u) < middle * middle) by (nonlinear_arith)
        requires
            middle == 2 * u + step,
            step > 0,
            u > 0,
    ;
    assert((u / step) * step == u);
    assert(nearest_root(u * u) == u);
}

} // verus!
