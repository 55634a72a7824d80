//! Levels of colour channels: from a binary32 channel to a whole number
//! between 0 and 255.

use crate::accuracy::lemma_nearest_value;
use crate::arith::{lemma_ratio_of_multiple, product};
use crate::binary32::{
    bit_length, exponent_field, fields, fraction_field, is_finite, is_infinite, is_nan,
    lemma_bit_length_bounds, lemma_bit_length_scaled, lemma_bit_length_unique,
    lemma_pow2_monotonic, lemma_round_half_even_bounds, lemma_round_half_even_scaled,
    lemma_significand_bounds, magnitude, nearest, round_half_even, scale, sign_bit, significand,
    spacing, unit, INFINITY, NAN, SIGN,
};
use crate::rounding::{encode, lemma_decode, lemma_encode_large, lemma_encode_significand};
use vstd::arithmetic::div_mod::{
    lemma_basic_div, lemma_div_by_multiple, lemma_div_is_ordered,
    lemma_div_is_ordered_by_denominator, lemma_div_multiples_vanish_quotient,
};
use vstd::arithmetic::power2::{
    lemma2_to64, lemma_pow2_adds, lemma_pow2_pos, lemma_pow2_unfold, pow2,
};
use vstd::bits::lemma_u64_shr_is_div;
use vstd::prelude::*;

verus! {

/// Largest level of a colour channel.
pub const MAX_COLOUR: usize = 255;

/// Level of a colour channel that is stored as a binary32 pattern: 255
/// times the channel, held to the range from 0 to 255 and cut down to a
/// whole number. Not-a-number gives 255, as the upper bound wins against it.
pub open spec fn channel(bits: u32) -> nat {
    if is_nan(bits) {
        MAX_COLOUR as nat
    } else if sign_bit(bits) {
        0
    } else if is_infinite(bits) {
        MAX_COLOUR as nat
    } else {
        held((MAX_COLOUR as nat) * magnitude(bits) / unit())
    }
}

/// A level held down to the largest level.
pub open spec fn held(level: nat) -> nat {
    if level > MAX_COLOUR {
        MAX_COLOUR as nat
    } else {
        level
    }
}

/// Pattern of the number 255, the largest level.
pub const MAX_COLOUR_BITS: u32 = 0x437f_0000;

/// A binary32 number as a level: held to the range from 0 to 255 and cut
/// down to a whole number. Not-a-number gives 255.
pub open spec fn level_of(bits: u32) -> nat {
    if is_nan(bits) {
        MAX_COLOUR as nat
    } else if sign_bit(bits) {
        0
    } else if is_infinite(bits) {
        MAX_COLOUR as nat
    } else {
        held(magnitude(bits) / unit())
    }
}

/// Level of one colour channel, from 0 to 255, for a channel that is stored
/// as a binary32 pattern.
pub fn clamp_color(colour: u32) -> (level: usize)
    ensures
        level == channel(colour),
        level == level_of(product(MAX_COLOUR_BITS, colour)),
        level <= MAX_COLOUR,
{
    proof {
        lemma_channel_by_product(colour);
    }
    let f = fields(colour);
    if f.exponent == 0xff {
        return if f.fraction != 0 || !f.negative {
            MAX_COLOUR
        } else {
            0
        };
    }
    if f.negative {
        return 0;
    }
    let ghost m = significand(colour);
    let ghost k = scale(colour);
    let ghost p = pow2(k);
    proof {
        lemma2_to64();
        lemma_significand_bounds(colour);
        lemma_pow2_pos(k);
        lemma_pow2_pos(149);
        assert(255 * (m * p) == (255 * m) * p) by (nonlinear_arith);
    }
    if f.exponent >= 127 {
        proof {
            lemma_pow2_monotonic(126, k);
            lemma_pow2_adds(23, 126);
            assert((255 * m) * p >= 255 * unit()) by (nonlinear_arith)
                requires
                    m >= 0x80_0000,
                    p >= pow2(126),
                    unit() == 0x80_0000 * pow2(126),
            ;
            lemma_div_is_ordered((255 * unit()) as int, ((255 * m) * p) as int, unit() as int);
            lemma_div_by_multiple(255, unit() as int);
        }
        MAX_COLOUR
    } else if f.exponent <= 118 {
        proof {
            lemma_pow2_monotonic(k, 117);
            lemma_pow2_adds(32, 117);
            assert((255 * m) * p < unit()) by (nonlinear_arith)
                requires
                    m < 0x100_0000,
                    0 < p <= pow2(117),
                    unit() == 0x1_0000_0000 * pow2(117),
            ;
            lemma_basic_div(((255 * m) * p) as int, unit() as int);
        }
        0
    } else {
        let product: u64 = 255 * (0x80_0000 + f.fraction as u64);
        let shift = 150 - f.exponent;
        proof {
            let rest = pow2(shift as nat);
            lemma_pow2_adds(k, shift as nat);
            lemma_pow2_pos(shift as nat);
            lemma_pow2_monotonic(24, shift as nat);
            lemma_div_multiples_vanish_quotient(p as int, product as int, rest as int);
            assert(p * product == (255 * m) * p) by (nonlinear_arith)
                requires
                    product == 255 * m,
            ;
            lemma_u64_shr_is_div(product, shift as u64);
            lemma_div_is_ordered_by_denominator(product as int, 0x100_0000, rest as int);
        }
        (product >> shift) as usize
    }
}

/// Distance between neighbouring twenty-four-digit numbers at the size of
/// 255 times the significand.
spec fn product_step(bits: u32) -> nat {
    if 255 * significand(bits) >= 0x8000_0000 {
        256
    } else {
        128
    }
}

/// For a normal number, rounding 255 times the number to binary32 is
/// rounding 255 times the significand to twenty-four digits.
proof fn lemma_scaled_product(bits: u32)
    requires
        is_finite(bits),
        exponent_field(bits) != 0,
    ensures
        nearest(255 * magnitude(bits)) == round_half_even(
            255 * significand(bits),
            product_step(bits),
        ) * pow2(scale(bits)),
{
    let m = significand(bits);
    let k = scale(bits);
    let product = 255 * m;
    let p = pow2(k);
    lemma_significand_bounds(bits);
    lemma2_to64();
    lemma_pow2_pos(k);
    assert(255 * (m * p) == product * p) by (nonlinear_arith)
        requires
            product == 255 * m,
    ;
    let digits: nat = if product >= 0x8000_0000 {
        32
    } else {
        31
    };
    lemma_bit_length_unique(product, digits);
    lemma_bit_length_scaled(product, k);
    assert(bit_length(product * p) == digits + k);
    lemma_pow2_adds((digits - 24) as nat, k);
    assert(spacing(product * p) == product_step(bits) * p);
    lemma_round_half_even_scaled(product, product_step(bits), p);
}

/// 255 times a twenty-four-digit significand, rounded to twenty-four digits.
spec fn rounded_product(product: u64) -> u64 {
    let step: u64 = if product >= 0x8000_0000 {
        256
    } else {
        128
    };
    let below: u64 = product / step;
    let rest: u64 = product % step;
    if 2 * rest < step || (2 * rest == step && below % 2 == 0) {
        (below * step) as u64
    } else {
        ((below + 1) * step) as u64
    }
}

/// Rounding 255 times a significand to twenty-four digits never carries into
/// the digits that are left after cutting twenty-four or more digits off.
#[verifier::rlimit(100)]
proof fn lemma_rounding_stays_below(m: u64, shift: u64)
    by (bit_vector)
    requires
        0x80_0000 <= m < 0x100_0000,
        24 <= shift <= 63,
    ensures
        rounded_product((255 * m) as u64) >> shift == ((255 * m) as u64) >> shift,
{
}

/// The level does not depend on whether the product of 255 and the channel
/// is rounded to binary32, as a binary32 multiplication rounds it, before it
/// is held to the range and cut down.
proof fn lemma_channel_after_rounding(bits: u32)
    requires
        is_finite(bits),
        !sign_bit(bits),
    ensures
        channel(bits) == held(nearest((MAX_COLOUR as nat) * magnitude(bits)) / unit()),
{
    let n = 255 * magnitude(bits);
    let m = significand(bits);
    let k = scale(bits);
    let p = pow2(k);
    lemma2_to64();
    lemma_significand_bounds(bits);
    lemma_pow2_pos(k);
    lemma_pow2_pos(149);
    assert(255 * (m * p) == (255 * m) * p) by (nonlinear_arith);
    if exponent_field(bits) == 0 {
        assert(m * p == m) by (nonlinear_arith)
            requires
                p == 1,
        ;
        assert(n == 255 * m);
        if n > 0 {
            lemma_bit_length_bounds(n);
            let b = bit_length(n);
            if b > 31 {
                lemma_pow2_monotonic(31, (b - 1) as nat);
            }
            if b > 24 {
                lemma_pow2_monotonic((b - 24) as nat, 7);
            }
        } else {
            assert(bit_length(0) == 0);
        }
        assert(spacing(n) <= 128);
        lemma_round_half_even_bounds(n, spacing(n));
        lemma_pow2_monotonic(32, 149);
        lemma_basic_div(nearest(n) as int, unit() as int);
        lemma_basic_div(n as int, unit() as int);
    } else {
        let product = (255 * m) as u64;
        let rounded = round_half_even(product as nat, product_step(bits));
        lemma_scaled_product(bits);
        lemma_round_half_even_bounds(product as nat, product_step(bits));
        assert(rounded == rounded_product(product));
        assert(0x7f80_0000 <= rounded <= 0xff00_0000);
        if k >= 126 {
            lemma_pow2_monotonic(126, k);
            lemma_pow2_adds(23, 126);
            assert(rounded * p >= 255 * unit() && product * p >= 255 * unit())
                by (nonlinear_arith)
                requires
                    rounded >= 255 * 0x80_0000,
                    product >= 255 * 0x80_0000,
                    p >= pow2(126),
                    unit() == 0x80_0000 * pow2(126),
            ;
            lemma_div_is_ordered((255 * unit()) as int, (rounded * p) as int, unit() as int);
            lemma_div_is_ordered((255 * unit()) as int, (product * p) as int, unit() as int);
            lemma_div_by_multiple(255, unit() as int);
        } else {
            let shift = (149 - k) as nat;
            let rest = pow2(shift);
            lemma_pow2_adds(k, shift);
            lemma_pow2_pos(shift);
            lemma_div_multiples_vanish_quotient(p as int, product as int, rest as int);
            lemma_div_multiples_vanish_quotient(p as int, rounded as int, rest as int);
            assert(p * product == product * p && p * rounded == rounded * p)
                by (nonlinear_arith);
            if shift <= 63 {
                lemma_rounding_stays_below(m as u64, shift as u64);
                lemma_u64_shr_is_div(product, shift as u64);
                lemma_u64_shr_is_div(rounded_product(product), shift as u64);
            } else {
                lemma_pow2_monotonic(32, shift);
                lemma_basic_div(product as int, rest as int);
                lemma_basic_div(rounded as int, rest as int);
            }
        }
    }
}

/// The level of a channel is the level of the binary32 product of 255 and
/// the channel: multiplying in binary32 first, then holding the product to
/// the range and cutting it down, gives the same level as the exact product.
pub proof fn lemma_channel_by_product(bits: u32)
    ensures
        channel(bits) == level_of(product(MAX_COLOUR_BITS, bits)),
{
    reveal(product);
    let full = MAX_COLOUR_BITS;
    let u = unit();
    lemma2_to64();
    lemma_pow2_pos(149);
    assert(exponent_field(full) == 134);
    assert(fraction_field(full) == 0x7f_0000);
    lemma_pow2_adds(16, 133);
    assert(magnitude(full) == 255 * u) by (nonlinear_arith)
        requires
            magnitude(full) == 0xff_0000 * pow2(133),
            u == 0x1_0000 * pow2(133),
    ;
    let p = product(full, bits);
    if is_nan(bits) {
        assert(is_nan(NAN));
    } else if is_infinite(bits) {
        assert(!is_nan(INFINITY) && is_infinite(INFINITY));
        assert(sign_bit((INFINITY + SIGN) as u32) && !is_nan(
            (INFINITY + SIGN) as u32,
        ));
    } else {
        let size = magnitude(bits);
        let n = 255 * size;
        let q = nearest(n);
        assert((255 * u) * size == n * u) by (nonlinear_arith)
            requires
                n == 255 * size,
        ;
        lemma_ratio_of_multiple(n, u);
        assert(p == encode(sign_bit(bits), q));
        if q < 0x80_0000 {
            assert(q == q * pow2(0)) by (nonlinear_arith)
                requires
                    pow2(0) == 1,
            ;
            lemma_decode(sign_bit(bits), q, 0);
        } else {
            lemma_encode_large(sign_bit(bits), q);
        }
        if !sign_bit(bits) {
            lemma_channel_after_rounding(bits);
            lemma_pow2_monotonic(149, 276);
            if n < pow2(276) {
                lemma_nearest_value(false, n);
            } else {
                // The product is far beyond 255, whether it is rounded or not.
                lemma_bit_length_bounds(n);
                let b = bit_length(n);
                if b < 277 {
                    lemma_pow2_monotonic(b, 276);
                }
                let step = spacing(n);
                lemma_pow2_adds(23, (b - 24) as nat);
                lemma_pow2_pos((b - 24) as nat);
                lemma_round_half_even_bounds(n, step);
                lemma_pow2_unfold(276);
                assert(q >= pow2(275)) by (nonlinear_arith)
                    requires
                        q > n - step,
                        n >= 0x80_0000 * step,
                        n >= pow2(276),
                        pow2(276) == 2 * pow2(275),
                        step > 0,
                ;
                lemma_pow2_adds(8, 149);
                lemma_pow2_monotonic(157, 275);
                lemma_div_is_ordered(pow2(157) as int, q as int, u as int);
                lemma_div_by_multiple(0x100, u as int);
                assert(q / u >= 256);
                lemma_bit_length_bounds(q);
                let bq = bit_length(q);
                if bq < 276 {
                    lemma_pow2_monotonic(bq, 275);
                }
                if bq < 278 {
                    let low = pow2((bq - 24) as nat);
                    let c = q / low;
                    lemma_encode_significand(q);
                    lemma_pow2_adds(23, (bq - 24) as nat);
                    lemma_pow2_monotonic(157, (bq - 1) as nat);
                    assert(magnitude(p) >= pow2(157)) by (nonlinear_arith)
                        requires
                            magnitude(p) == c * low,
                            c >= 0x80_0000,
                            pow2((bq - 1) as nat) == 0x80_0000 * low,
                            pow2(157) <= pow2((bq - 1) as nat),
                    ;
                    lemma_div_is_ordered(pow2(157) as int, magnitude(p) as int, u as int);
                }
            }
        }
    }
}

} // verus!
