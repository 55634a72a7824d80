//! Rounding of exact results to binary32 patterns.
//!
//! An arithmetic operation on binary32 numbers has an exact result that is a
//! rational or an irrational number. The operation gives the binary32 number
//! nearest to it, and of two equally near numbers the one with the even
//! significand. Here the exact result comes as a whole number `n`, a power
//! of two `e` and one more bit, `sticky`, that says whether the exact result
//! lies strictly between `n * 2^e` and `(n + 1) * 2^e`, all in units of
//! `2^-149`.

use crate::binary32::{
    bit_length, exponent_field, fields, fraction_field, is_finite, is_infinite, is_nan,
    lemma_bit_length_bounds,
    lemma_bit_length_scaled, lemma_bit_length_unique, lemma_pow2_monotonic,
    lemma_significand_bounds, magnitude, nearest, round_half_even, scale, sign_bit, significand,
    spacing, INFINITY, SIGN,
};
use vstd::arithmetic::div_mod::{
    lemma_basic_div, lemma_div_by_multiple, lemma_fundamental_div_mod,
    lemma_fundamental_div_mod_converse,
};
use vstd::arithmetic::power2::{
    lemma2_to64, lemma2_to64_rest, lemma_pow2_adds, lemma_pow2_pos, lemma_pow2_unfold, pow2,
};
use vstd::bits::lemma_u64_shl_is_mul;
use vstd::prelude::*;

verus! {

/// The binary32 number nearest to the ratio `num / den`, ties to the even
/// significand, in units of `2^-149`. Overflow to infinity is left to
/// `encode`.
pub open spec fn nearest_ratio(num: nat, den: nat) -> nat {
    round_half_even(num, den * spacing(num / den)) / den
}

/// The pattern of the binary32 number of `n` units of `2^-149` with the given
/// sign, for an `n` that the format can hold; infinity where `n` is too large
/// for the format.
pub open spec fn encode(negative: bool, n: nat) -> u32 {
    let sign: nat = if negative {
        SIGN as nat
    } else {
        0
    };
    if n < 0x80_0000 {
        (sign + n) as u32
    } else {
        let exponent = (bit_length(n) - 23) as nat;
        if exponent >= 0xff {
            (sign + INFINITY) as u32
        } else {
            (sign + exponent * 0x80_0000 + (n / pow2((exponent - 1) as nat) - 0x80_0000)) as u32
        }
    }
}

/// Number of low binary digits of `n` that rounding `n * 2^e` drops: those
/// beyond twenty-four digits and those below one unit of `2^-149`.
pub open spec fn dropped(n: nat, e: int) -> nat {
    let by_width = bit_length(n) - 24;
    if by_width >= -e && by_width >= 0 {
        by_width as nat
    } else if -e >= 0 {
        (-e) as nat
    } else {
        0
    }
}

/// The exact result `(n + t) * 2^e`, with `0 <= t < 1` and `t > 0` exactly
/// when `sticky` holds, rounded to binary32, in units of `2^-149`.
pub open spec fn round_scaled(n: nat, e: int, sticky: bool) -> nat {
    let d = dropped(n, e);
    let kept = n / pow2(d);
    let rest = n % pow2(d);
    let unit = pow2((d + e) as nat);
    if 2 * rest > pow2(d) || (2 * rest == pow2(d) && (sticky || kept % 2 == 1)) {
        (kept + 1) * unit
    } else {
        kept * unit
    }
}

/// `n`, `e` and `sticky` stand for the ratio `num / den`: the ratio is
/// `(n + t) * 2^e` with `0 <= t < 1`, and `t > 0` exactly when `sticky` holds.
/// A sticky bit is of use only below the digits that are kept.
pub open spec fn stands_for(n: nat, e: int, sticky: bool, num: nat, den: nat) -> bool {
    let d = dropped(n, e);
    let grid = den * pow2((d + e) as nat);
    &&& den > 0
    &&& n * grid <= num * pow2(d) < (n + 1) * grid
    &&& sticky <==> n * grid != num * pow2(d)
    &&& sticky ==> d >= 1
}

/// The exponent field of an encoded number of at least `2^23` units is at
/// least one, and its significand has exactly twenty-four digits.
pub proof fn lemma_encode_significand(n: nat)
    requires
        n >= 0x80_0000,
    ensures
        bit_length(n) >= 24,
        0x80_0000 <= n / pow2((bit_length(n) - 24) as nat) < 0x100_0000,
{
    lemma2_to64();
    lemma_bit_length_bounds(n);
    let b = bit_length(n);
    if b < 24 {
        lemma_pow2_monotonic(b, 23);
    }
    let low = pow2((b - 24) as nat);
    lemma_pow2_adds(23, (b - 24) as nat);
    lemma_pow2_adds(24, (b - 24) as nat);
    lemma_pow2_pos((b - 24) as nat);
    lemma_fundamental_div_mod(n as int, low as int);
    assert(0x80_0000 <= n / low < 0x100_0000) by (nonlinear_arith)
        requires
            0x80_0000 * low <= n < 0x100_0000 * low,
            n == low * (n / low) + n % low,
            0 <= n % low < low,
    ;
}

/// The sign of an encoded number is the sign bit of its pattern, and the
/// rest of the pattern does not depend on the sign.
pub proof fn lemma_encode_sign(negative: bool, n: nat)
    ensures
        encode(false, n) < SIGN,
        encode(true, n) == encode(false, n) + SIGN,
        encode(negative, n) >= SIGN <==> negative,
{
    if n >= 0x80_0000 {
        lemma_encode_significand(n);
    }
}

/// The pattern of a number of at least `2^23` units is never not-a-number:
/// it is an infinity where the number has too many digits, and else the
/// finite pattern of the number cut down to twenty-four digits.
pub proof fn lemma_encode_large(negative: bool, n: nat)
    requires
        n >= 0x80_0000,
    ensures
        !is_nan(encode(negative, n)),
        sign_bit(encode(negative, n)) == negative,
        bit_length(n) >= 278 ==> is_infinite(encode(negative, n)),
        bit_length(n) < 278 ==> is_finite(encode(negative, n)) && magnitude(encode(negative, n))
            == (n / pow2((bit_length(n) - 24) as nat)) * pow2((bit_length(n) - 24) as nat),
{
    lemma_encode_significand(n);
    let bits = encode(negative, n);
    let exponent = (bit_length(n) - 23) as nat;
    let c = n / pow2((exponent - 1) as nat);
    if exponent < 0xff {
        let rest = exponent * 0x80_0000 + (c - 0x80_0000);
        assert(bits == rest || bits == rest + 0x8000_0000);
        assert(exponent_field(bits) == exponent);
        assert(fraction_field(bits) == c - 0x80_0000);
        assert(significand(bits) == c);
        assert(scale(bits) == exponent - 1);
    } else {
        assert(bits == INFINITY || bits == INFINITY + 0x8000_0000);
        assert(exponent_field(bits) == 0xff);
        assert(fraction_field(bits) == 0);
    }
}

/// Rounding a number that the format holds exactly gives the number itself.
pub proof fn lemma_round_multiple(below: nat, step: nat)
    requires
        step > 0,
    ensures
        round_half_even(below * step, step) == below * step,
{
    lemma_fundamental_div_mod_converse((below * step) as int, step as int, below as int, 0);
}

/// Rounding the ratio is rounding by dropped digits: where `n`, `e` and
/// `sticky` stand for `num / den`, the binary32 number nearest to `num / den`
/// is `round_scaled(n, e, sticky)`.
#[verifier::rlimit(50)]
pub proof fn lemma_round_scaled(n: nat, e: int, sticky: bool, num: nat, den: nat)
    requires
        stands_for(n, e, sticky, num, den),
    ensures
        nearest_ratio(num, den) == round_scaled(n, e, sticky),
{
    let d = dropped(n, e);
    let g = pow2(d);
    let t = (d + e) as nat;
    let s = pow2(t);
    let grid = den * s;
    let b = bit_length(n);
    let whole = num / den;
    lemma2_to64();
    lemma_pow2_pos(d);
    lemma_pow2_pos(t);
    assert(grid > 0) by (nonlinear_arith)
        requires
            grid == den * s,
            den > 0,
            s > 0,
    ;
    lemma_fundamental_div_mod(num as int, den as int);
    if d == 0 && b < 24 {
        // Nothing is dropped and the number is held exactly.
        assert(g == 1);
        assert(n % 1 == 0 && n / 1 == n);
        let v = n * s;
        assert(num == den * v) by (nonlinear_arith)
            requires
                n * grid == num * g,
                g == 1,
                grid == den * s,
                v == n * s,
        ;
        lemma_div_by_multiple(v as int, den as int);
        assert(den * v == v * den) by (nonlinear_arith);
        assert(whole == v);
        let sp = spacing(v);
        if n == 0 {
            assert(v == 0) by (nonlinear_arith)
                requires
                    v == n * s,
                    n == 0,
            ;
            assert(bit_length(0) == 0);
            assert(sp == 1);
            assert(den * sp == den) by (nonlinear_arith)
                requires
                    sp == 1,
            ;
            assert(num == 0) by (nonlinear_arith)
                requires
                    num == den * v,
                    v == 0,
            ;
            lemma_round_multiple(0, den);
            assert(0 * den == 0) by (nonlinear_arith);
            lemma_basic_div(0, den as int);
        } else {
            lemma_bit_length_scaled(n, t);
            lemma_pow2_pos(0);
            let low = (b + t - 24) as nat;
            let high = (24 - b) as nat;
            let c: nat = if b + t <= 24 {
                v
            } else {
                n * pow2(high)
            };
            if b + t <= 24 {
                assert(sp == 1);
                assert(v == c * sp) by (nonlinear_arith)
                    requires
                        c == v,
                        sp == 1,
                ;
            } else {
                lemma_pow2_adds(low, high);
                lemma_pow2_pos(low);
                assert(sp == pow2(low));
                assert(v == c * sp) by (nonlinear_arith)
                    requires
                        v == n * s,
                        s == pow2(low) * pow2(high),
                        sp == pow2(low),
                        c == n * pow2(high),
                ;
            }
            assert(num == c * (den * sp)) by (nonlinear_arith)
                requires
                    num == den * v,
                    v == c * sp,
            ;
            assert(den * sp > 0) by (nonlinear_arith)
                requires
                    den > 0,
                    sp > 0,
            ;
            lemma_round_multiple(c, den * sp);
            assert(c * (den * sp) == v * den) by (nonlinear_arith)
                requires
                    v == c * sp,
            ;
        }
        assert(round_scaled(n, e, sticky) == v);
    } else {
        lemma_pow2_pos(b);
        if n > 0 {
            lemma_bit_length_bounds(n);
        } else {
            assert(bit_length(0) == 0);
        }
        assert(n + 1 <= pow2(b));
        // The spacing at the size of the ratio is `s`.
        if d == b - 24 {
            lemma_pow2_adds(23, d);
            lemma_pow2_adds(24, d);
            lemma_pow2_adds(23, t);
            lemma_pow2_adds(24, t);
            assert(pow2(23 + t) * den <= num < pow2(24 + t) * den) by (nonlinear_arith)
                requires
                    n * grid <= num * g < (n + 1) * grid,
                    grid == den * s,
                    0x80_0000 * g <= n,
                    n + 1 <= 0x100_0000 * g,
                    pow2(23 + t) == 0x80_0000 * s,
                    pow2(24 + t) == 0x100_0000 * s,
                    g > 0,
                    den > 0,
                    s > 0,
            ;
            assert(pow2(23 + t) <= whole < pow2(24 + t)) by (nonlinear_arith)
                requires
                    pow2(23 + t) * den <= num < pow2(24 + t) * den,
                    num == den * whole + num % den,
                    0 <= num % den < den,
            ;
            lemma_bit_length_unique(whole, 24 + t);
            assert(spacing(whole) == s);
        } else {
            assert(t == 0 && s == 1);
            lemma_pow2_monotonic(b, 23 + d);
            lemma_pow2_adds(23, d);
            assert(num < 0x80_0000 * den) by (nonlinear_arith)
                requires
                    num * g < (n + 1) * grid,
                    grid == den * s,
                    s == 1,
                    n + 1 <= 0x80_0000 * g,
                    g > 0,
                    den > 0,
            ;
            assert(whole < 0x80_0000) by (nonlinear_arith)
                requires
                    num < 0x80_0000 * den,
                    num == den * whole + num % den,
                    0 <= num % den < den,
            ;
            if whole > 0 {
                lemma_bit_length_bounds(whole);
                if bit_length(whole) > 24 {
                    lemma_pow2_monotonic(24, (bit_length(whole) - 1) as nat);
                }
            } else {
                assert(bit_length(0) == 0);
            }
            assert(spacing(whole) == s);
        }
        assert(den * spacing(whole) == grid);
        // Rounding the ratio on the grid keeps the digits that are kept of `n`.
        let kept = n / g;
        let rest = n % g;
        lemma_fundamental_div_mod(n as int, g as int);
        assert(n == g * kept + rest && 0 <= rest < g);
        let left = num - kept * grid;
        assert(0 <= left < grid && rest * grid <= left * g < (rest + 1) * grid && (sticky <==> left
            * g != rest * grid)) by (nonlinear_arith)
            requires
                n * grid <= num * g < (n + 1) * grid,
                sticky <==> n * grid != num * g,
                n == g * kept + rest,
                0 <= rest < g,
                left == num - kept * grid,
                g > 0,
                grid > 0,
        ;
        lemma_fundamental_div_mod_converse(num as int, grid as int, kept as int, left as int);
        assert(num / grid == kept && num % grid == left);
        if d >= 1 {
            lemma_pow2_unfold(d);
            let half = pow2((d - 1) as nat);
            assert(g == 2 * half);
            if 2 * rest > g {
                assert(2 * left > grid) by (nonlinear_arith)
                    requires
                        rest * grid <= left * g,
                        rest >= half + 1,
                        g == 2 * half,
                        half >= 0,
                        grid > 0,
                ;
            } else if 2 * rest == g {
                assert(2 * left >= grid && (2 * left == grid <==> left * g == rest * grid))
                    by (nonlinear_arith)
                    requires
                        rest * grid <= left * g,
                        rest == half,
                        g == 2 * half,
                        half > 0,
                        grid > 0,
                ;
            } else {
                assert(2 * left < grid) by (nonlinear_arith)
                    requires
                        left * g < (rest + 1) * grid,
                        rest + 1 <= half,
                        g == 2 * half,
                        half > 0,
                        grid > 0,
                ;
            }
        } else {
            assert(g == 1 && rest == 0);
            assert(left == 0) by (nonlinear_arith)
                requires
                    left * g == rest * grid,
                    g == 1,
                    rest == 0,
            ;
        }
        let chosen: nat = if 2 * rest > g || (2 * rest == g && (sticky || kept % 2 == 1)) {
            kept + 1
        } else {
            kept
        };
        assert(round_half_even(num, grid) == chosen * grid);
        assert(chosen * grid == (chosen * s) * den) by (nonlinear_arith)
            requires
                grid == den * s,
        ;
        lemma_div_by_multiple((chosen * s) as int, den as int);
        assert(round_scaled(n, e, sticky) == chosen * s);
    }
}

/// The pattern of a significand `c` of twenty-four digits scaled by `2^t`,
/// or of a smaller significand that is not scaled, stands for that number.
pub proof fn lemma_decode(negative: bool, c: nat, t: nat)
    requires
        c <= 0x100_0000,
        c < 0x80_0000 ==> t == 0,
        c < 0x100_0000 ==> t <= 253,
        c == 0x100_0000 ==> t <= 252,
    ensures
        is_finite(encode(negative, c * pow2(t))),
        sign_bit(encode(negative, c * pow2(t))) == negative,
        magnitude(encode(negative, c * pow2(t))) == c * pow2(t),
{
    let n = c * pow2(t);
    let bits = encode(negative, n);
    lemma2_to64();
    lemma_pow2_pos(t);
    if c < 0x80_0000 {
        assert(n == c) by (nonlinear_arith)
            requires
                n == c * pow2(t),
                pow2(t) == 1,
        ;
        assert(exponent_field(bits) == 0);
        assert(fraction_field(bits) == c);
        assert(magnitude(bits) == c * pow2(0));
    } else {
        let (m, k): (nat, nat) = if c == 0x100_0000 {
            (0x80_0000, t + 1)
        } else {
            (c, t)
        };
        lemma_pow2_unfold(t + 1);
        assert(n == m * pow2(k)) by (nonlinear_arith)
            requires
                n == c * pow2(t),
                c == 0x100_0000 ==> m == 0x80_0000 && pow2(k) == 2 * pow2(t),
                c != 0x100_0000 ==> m == c && k == t,
        ;
        lemma_pow2_pos(k);
        lemma_bit_length_unique(m, 24);
        lemma_bit_length_scaled(m, k);
        lemma_div_by_multiple(m as int, pow2(k) as int);
        assert(n >= 0x80_0000) by (nonlinear_arith)
            requires
                n == m * pow2(k),
                m >= 0x80_0000,
                pow2(k) >= 1,
        ;
        assert(bit_length(n) - 23 == k + 1);
        assert(n / pow2(k) == m);
        let rest = (k + 1) * 0x80_0000 + (m - 0x80_0000);
        assert(bits == rest || bits == rest + 0x8000_0000);
        assert(exponent_field(bits) == k + 1);
        assert(fraction_field(bits) == m - 0x80_0000);
        assert(significand(bits) == m);
        assert(scale(bits) == k);
    }
}

/// A finite pattern is the encoding of its own sign and magnitude, and
/// rounding leaves its magnitude as it is.
pub proof fn lemma_encode_magnitude(bits: u32)
    requires
        is_finite(bits),
    ensures
        nearest(magnitude(bits)) == magnitude(bits),
        encode(sign_bit(bits), magnitude(bits)) == bits,
{
    let m = significand(bits);
    let k = scale(bits);
    let p = pow2(k);
    let n = magnitude(bits);
    lemma2_to64();
    lemma_significand_bounds(bits);
    lemma_pow2_pos(k);
    if exponent_field(bits) == 0 {
        assert(n == m) by (nonlinear_arith)
            requires
                n == m * p,
                p == 1,
        ;
        if n > 0 {
            lemma_bit_length_bounds(n);
            if bit_length(n) > 24 {
                lemma_pow2_monotonic(24, (bit_length(n) - 1) as nat);
            }
        } else {
            assert(bit_length(0) == 0);
        }
        assert(spacing(n) == 1);
        assert(n == n * 1) by (nonlinear_arith);
        lemma_round_multiple(n, 1);
    } else {
        lemma_bit_length_unique(m, 24);
        lemma_bit_length_scaled(m, k);
        assert(bit_length(n) == 24 + k);
        lemma_div_by_multiple(m as int, p as int);
        assert(n >= 0x80_0000) by (nonlinear_arith)
            requires
                n == m * p,
                m >= 0x80_0000,
                p >= 1,
        ;
        if k == 0 {
            assert(n == n * 1) by (nonlinear_arith);
            lemma_round_multiple(n, 1);
        } else {
            lemma_round_multiple(m, p);
        }
    }
}

/// Rounding a whole number of units is rounding by dropped digits.
pub proof fn lemma_round_whole(n: nat, k: nat)
    ensures
        nearest(n * pow2(k)) == round_scaled(n, k as int, false),
{
    let d = dropped(n, k as int);
    let num = n * pow2(k);
    lemma_pow2_adds(d, k);
    lemma_pow2_pos(d + k);
    assert(n * (1 * pow2(d + k)) == num * pow2(d)) by (nonlinear_arith)
        requires
            num == n * pow2(k),
            pow2(d + k) == pow2(d) * pow2(k),
    ;
    assert((n + 1) * (1 * pow2(d + k)) > n * (1 * pow2(d + k))) by (nonlinear_arith)
        requires
            pow2(d + k) > 0,
    ;
    assert(stands_for(n, k as int, false, num, 1));
    lemma_round_scaled(n, k as int, false, num, 1);
    assert(num / 1 == num);
    assert(1 * spacing(num) == spacing(num)) by (nonlinear_arith);
    assert(round_half_even(num, spacing(num)) / 1 == round_half_even(num, spacing(num)));
}

/// Sign, significand and scale of a pattern.
pub(crate) fn unpack(bits: u32) -> (r: (bool, u32, u32))
    ensures
        r.0 == sign_bit(bits),
        r.1 == significand(bits),
        r.2 == scale(bits),
        r.1 < 0x100_0000,
        r.2 <= 254,
        r.2 > 0 ==> r.1 >= 0x80_0000,
{
    let f = fields(bits);
    if f.exponent == 0 {
        (f.negative, f.fraction, 0)
    } else {
        (f.negative, 0x80_0000 + f.fraction, f.exponent - 1)
    }
}

/// Number of binary digits of `n`.
pub(crate) fn bit_len(n: u64) -> (b: u32)
    ensures
        b == bit_length(n as nat),
        b <= 64,
{
    let mut b: u32 = 0;
    let mut rest = n;
    proof {
        lemma2_to64();
    }
    while rest > 0
        invariant
            bit_length(n as nat) == b + bit_length(rest as nat),
            rest * pow2(b as nat) <= n,
            b <= 64,
        decreases rest,
    {
        proof {
            lemma_pow2_unfold((b + 1) as nat);
            lemma_pow2_pos(b as nat);
            let p = pow2(b as nat);
            assert((rest / 2) * (2 * p) <= rest * p) by (nonlinear_arith)
                requires
                    p > 0,
            ;
            if b == 64 {
                lemma2_to64_rest();
                assert(rest * p >= p) by (nonlinear_arith)
                    requires
                        rest >= 1,
                        p > 0,
                ;
            }
        }
        rest = rest / 2;
        b = b + 1;
    }
    assert(bit_length(0) == 0);
    b
}

/// Two to the power `k`.
pub(crate) fn two_to(k: u32) -> (p: u64)
    requires
        k < 64,
    ensures
        p == pow2(k as nat),
        p > 0,
{
    proof {
        vstd::bits::lemma_u64_pow2_no_overflow(k as nat);
        lemma_u64_shl_is_mul(1, k as u64);
    }
    1u64 << k
}

/// The pattern of the number `m * 2^k` units of `2^-149` with the given sign,
/// for a significand of at most twenty-four digits that is either normal or
/// scaled by nothing; infinity where the number is too large.
pub(crate) fn pack(negative: bool, m: u32, k: u32) -> (bits: u32)
    requires
        m <= 0x100_0000,
        m < 0x80_0000 ==> k == 0,
        k <= 0x1000,
    ensures
        bits == encode(negative, m as nat * pow2(k as nat)),
{
    let sign: u32 = if negative {
        SIGN
    } else {
        0
    };
    let ghost p = pow2(k as nat);
    let ghost n = m as nat * p;
    proof {
        lemma2_to64();
        lemma_pow2_pos(k as nat);
    }
    if m < 0x80_0000 {
        assert(n == m) by (nonlinear_arith)
            requires
                n == m as nat * p,
                p == 1,
        ;
        sign + m
    } else {
        let (significand, exponent): (u32, u32) = if m == 0x100_0000 {
            (0x80_0000, k + 2)
        } else {
            (m, k + 1)
        };
        proof {
            let up = (exponent - 1) as nat;
            lemma_pow2_pos(up);
            if m == 0x100_0000 {
                lemma_pow2_unfold(up);
                assert(n == significand as nat * pow2(up)) by (nonlinear_arith)
                    requires
                        n == m as nat * p,
                        m == 0x100_0000,
                        significand == 0x80_0000,
                        pow2(up) == 2 * p,
                ;
            }
            assert(n == significand as nat * pow2(up));
            lemma_bit_length_unique(significand as nat, 24);
            lemma_bit_length_scaled(significand as nat, up);
            assert(bit_length(n) == 24 + up);
            lemma_div_by_multiple(significand as int, pow2(up) as int);
            assert(n >= 0x80_0000) by (nonlinear_arith)
                requires
                    n == significand as nat * pow2(up),
                    significand >= 0x80_0000,
                    pow2(up) >= 1,
            ;
        }
        if exponent >= 0xff {
            sign + INFINITY
        } else {
            sign + exponent * 0x80_0000 + (significand - 0x80_0000)
        }
    }
}

/// The pattern of the exact result `(n + t) * 2^e`, with `0 <= t < 1` and
/// `t > 0` exactly when `sticky` holds, rounded to binary32.
pub(crate) fn round_pack(negative: bool, n: u64, e: i32, sticky: bool) -> (bits: u32)
    requires
        n < 0x4000_0000_0000_0000,
        -0x800 <= e <= 0x800,
        sticky ==> dropped(n as nat, e as int) >= 1,
    ensures
        bits == encode(negative, round_scaled(n as nat, e as int, sticky)),
{
    let b = bit_len(n);
    let by_width: i32 = b as i32 - 24;
    let d: i32 = if by_width >= -e && by_width >= 0 {
        by_width
    } else if -e >= 0 {
        -e
    } else {
        0
    };
    assert(d == dropped(n as nat, e as int));
    let ghost g = pow2(d as nat);
    let ghost unit = pow2((d + e) as nat);
    proof {
        lemma2_to64();
        lemma2_to64_rest();
        lemma_pow2_pos(d as nat);
        lemma_pow2_pos((d + e) as nat);
        lemma_pow2_pos(b as nat);
        if n > 0 {
            lemma_bit_length_bounds(n as nat);
        }
    }
    if d == 0 {
        assert(n as nat / 1 == n && n as nat % 1 == 0);
        if n == 0 {
            assert(0 * unit == 0 && 0 * pow2(0) == 0) by (nonlinear_arith);
            pack(negative, 0, 0)
        } else {
            let room: i32 = 24 - b as i32;
            let up: i32 = if e < room {
                e
            } else {
                room
            };
            let scale = two_to(up as u32);
            proof {
                lemma_pow2_adds(up as nat, (e - up) as nat);
                lemma_pow2_adds((b - 1) as nat, up as nat);
                lemma_pow2_adds(b as nat, up as nat);
                lemma_pow2_monotonic((b + up) as nat, 24);
                assert(n * scale < pow2((b + up) as nat) && n * scale >= pow2((b - 1 + up) as nat))
                    by (nonlinear_arith)
                    requires
                        pow2((b - 1) as nat) <= n < pow2(b as nat),
                        pow2((b + up) as nat) == pow2(b as nat) * scale,
                        pow2((b - 1 + up) as nat) == pow2((b - 1) as nat) * scale,
                        scale > 0,
                ;
                assert((n * scale) * pow2((e - up) as nat) == n * unit) by (nonlinear_arith)
                    requires
                        unit == scale * pow2((e - up) as nat),
                ;
            }
            pack(negative, (n * scale) as u32, (e - up) as u32)
        }
    } else if d >= 64 {
        proof {
            lemma_pow2_monotonic(64, d as nat);
            lemma_basic_div(n as int, g as int);
            vstd::arithmetic::div_mod::lemma_small_mod(n as nat, g);
            assert(0 * unit == 0 && 0 * pow2(0) == 0) by (nonlinear_arith);
        }
        pack(negative, 0, 0)
    } else {
        let grid = two_to(d as u32);
        let kept = n / grid;
        let rest = n % grid;
        proof {
            lemma_fundamental_div_mod(n as int, grid as int);
            lemma_pow2_monotonic(b as nat, (24 + d) as nat);
            lemma_pow2_adds(24, d as nat);
            lemma_pow2_adds(23, d as nat);
            assert(kept < 0x100_0000) by (nonlinear_arith)
                requires
                    n == grid * kept + rest,
                    0 <= rest,
                    n < 0x100_0000 * grid,
                    grid > 0,
            ;
            if d + e > 0 {
                // More than the digits below one unit is dropped, so the
                // kept digits are twenty-four.
                assert(d == b - 24);
                assert(kept >= 0x80_0000) by (nonlinear_arith)
                    requires
                        n == grid * kept + rest,
                        rest < grid,
                        n >= 0x80_0000 * grid,
                        grid > 0,
                ;
            }
        }
        let up = 2 * rest > grid || (2 * rest == grid && (sticky || kept % 2 == 1));
        let chosen = if up {
            kept + 1
        } else {
            kept
        };
        pack(negative, chosen as u32, (d + e) as u32)
    }
}

} // verus!
