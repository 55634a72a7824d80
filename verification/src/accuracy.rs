//! How far rounded results lie from exact ones.
//!
//! Every operation on binary32 numbers in the normal range is off by at most
//! one part in `2^24` of its exact result. The bounds here add such errors
//! up over a chain of operations.

use crate::arith::{lemma_floor_root, floor_root, nearest_root, product, quotient, root, sum};
use crate::binary32::{
    bit_length, is_finite, lemma_bit_length_bounds, lemma_pow2_monotonic, lemma_significand_bounds,
    lemma_value_one, lemma_value_zero, magnitude, nearest, round_half_even, scale, sign_bit,
    significand, spacing, unit, ONE, ZERO,
};
use crate::rounding::{encode, lemma_decode, lemma_round_multiple, nearest_ratio};
use crate::tuples::Tuple;
use crate::util::{approx_eq, distance, lemma_approx_eq_by_distance, threshold};
use vstd::arithmetic::div_mod::{
    lemma_basic_div, lemma_div_by_multiple, lemma_fundamental_div_mod,
};
use vstd::arithmetic::power2::{
    lemma2_to64, lemma_pow2_adds, lemma_pow2_pos, lemma_pow2_unfold, pow2,
};
use vstd::prelude::*;

verus! {

/// The number of parts in which errors are counted: `2^24`.
pub open spec fn parts() -> int {
    0x100_0000
}

/// `t` differs from `r` by at most `j` parts in `2^24` of `r`.
pub open spec fn close(t: int, r: int, j: int) -> bool {
    &&& 0 <= t
    &&& 0 <= r
    &&& (parts() - j) * r <= parts() * t <= (parts() + j) * r
}

/// Errors add up along a chain, with one part more for their product.
pub proof fn lemma_close_chain(a: int, b: int, c: int, i: int, j: int)
    requires
        close(a, b, i),
        close(b, c, j),
        0 <= i <= 100,
        0 <= j <= 100,
    ensures
        close(a, c, i + j + 1),
{
    let k = parts();
    assert(k * (k * a) <= (k + i) * ((k + j) * c)) by (nonlinear_arith)
        requires
            k * a <= (k + i) * b,
            k * b <= (k + j) * c,
            k + i >= 0,
            k >= 0,
    ;
    assert((k + i) * ((k + j) * c) <= k * ((k + i + j + 1) * c)) by (nonlinear_arith)
        requires
            0 <= i <= 100,
            0 <= j <= 100,
            k == 0x100_0000,
            c >= 0,
    ;
    assert(k * a <= (k + i + j + 1) * c) by (nonlinear_arith)
        requires
            k * (k * a) <= k * ((k + i + j + 1) * c),
            k > 0,
    ;
    assert(k * (k * a) >= (k - i) * ((k - j) * c)) by (nonlinear_arith)
        requires
            k * a >= (k - i) * b,
            k * b >= (k - j) * c,
            k - i >= 0,
            k >= 0,
    ;
    assert((k - i) * ((k - j) * c) >= k * ((k - i - j - 1) * c)) by (nonlinear_arith)
        requires
            0 <= i <= 100,
            0 <= j <= 100,
            k == 0x100_0000,
            c >= 0,
    ;
    assert(k * a >= (k - i - j - 1) * c) by (nonlinear_arith)
        requires
            k * (k * a) >= k * ((k - i - j - 1) * c),
            k > 0,
    ;
}

/// An error bound may be widened.
pub proof fn lemma_close_wider(a: int, b: int, i: int, j: int)
    requires
        close(a, b, i),
        i <= j,
    ensures
        close(a, b, j),
{
    let k = parts();
    assert((k - j) * b <= (k - i) * b && (k + i) * b <= (k + j) * b) by (nonlinear_arith)
        requires
            i <= j,
            b >= 0,
    ;
}

/// Sums are as close as their terms.
pub proof fn lemma_close_sum(a1: int, b1: int, a2: int, b2: int, i: int)
    requires
        close(a1, b1, i),
        close(a2, b2, i),
    ensures
        close(a1 + a2, b1 + b2, i),
{
    let k = parts();
    assert((k - i) * (b1 + b2) == (k - i) * b1 + (k - i) * b2) by (nonlinear_arith);
    assert((k + i) * (b1 + b2) == (k + i) * b1 + (k + i) * b2) by (nonlinear_arith);
    assert(k * (a1 + a2) == k * a1 + k * a2) by (nonlinear_arith);
}

/// The errors of two factors add up in their product, with one part more.
pub proof fn lemma_close_product(a1: int, b1: int, a2: int, b2: int, i: int, j: int)
    requires
        close(a1, b1, i),
        close(a2, b2, j),
        0 <= i <= 100,
        0 <= j <= 100,
    ensures
        close(a1 * a2, b1 * b2, i + j + 1),
{
    let k = parts();
    assert(a1 * a2 >= 0 && b1 * b2 >= 0) by (nonlinear_arith)
        requires
            a1 >= 0,
            a2 >= 0,
            b1 >= 0,
            b2 >= 0,
    ;
    assert((k * a1) * (k * a2) <= ((k + i) * b1) * ((k + j) * b2)) by (nonlinear_arith)
        requires
            0 <= k * a1 <= (k + i) * b1,
            0 <= k * a2 <= (k + j) * b2,
    ;
    assert((k * a1) * (k * a2) >= ((k - i) * b1) * ((k - j) * b2)) by (nonlinear_arith)
        requires
            0 <= (k - i) * b1 <= k * a1,
            0 <= (k - j) * b2 <= k * a2,
    ;
    let p = a1 * a2;
    let q = b1 * b2;
    assert((k * a1) * (k * a2) == k * (k * p)) by (nonlinear_arith)
        requires
            p == a1 * a2,
    ;
    assert(((k + i) * b1) * ((k + j) * b2) == ((k + i) * (k + j)) * q) by (nonlinear_arith)
        requires
            q == b1 * b2,
    ;
    assert(((k - i) * b1) * ((k - j) * b2) == ((k - i) * (k - j)) * q) by (nonlinear_arith)
        requires
            q == b1 * b2,
    ;
    assert(((k + i) * (k + j)) * q <= k * ((k + i + j + 1) * q)) by (nonlinear_arith)
        requires
            0 <= i <= 100,
            0 <= j <= 100,
            k == 0x100_0000,
            q >= 0,
    ;
    assert(((k - i) * (k - j)) * q >= k * ((k - i - j - 1) * q)) by (nonlinear_arith)
        requires
            0 <= i <= 100,
            0 <= j <= 100,
            k == 0x100_0000,
            q >= 0,
    ;
    assert(k * p <= (k + i + j + 1) * q) by (nonlinear_arith)
        requires
            k * (k * p) <= k * ((k + i + j + 1) * q),
            k > 0,
    ;
    assert(k * p >= (k - i - j - 1) * q) by (nonlinear_arith)
        requires
            k * (k * p) >= k * ((k - i - j - 1) * q),
            k > 0,
    ;
}

/// Where `n * l` is close to `a * u` and `l` is close to `a`, `n` is close to `u`.
pub proof fn lemma_close_cancel(n: int, l: int, a: int, u: int, i: int, j: int)
    requires
        close(n * l, a * u, i),
        close(l, a, j),
        n >= 0,
        u >= 0,
        a > 0,
        0 <= i <= 100,
        0 <= j <= 100,
    ensures
        close(n, u, i + j + 1),
{
    let k = parts();
    assert(l > 0) by (nonlinear_arith)
        requires
            (k - j) * a <= k * l,
            a > 0,
            k - j > 0,
            k > 0,
    ;
    // Upper bound: k n l <= (k + i) a u and (k - j) a <= k l.
    assert((k - j) * (k * (n * l)) <= (k + i) * (u * (k * l))) by (nonlinear_arith)
        requires
            k * (n * l) <= (k + i) * (a * u),
            (k - j) * a <= k * l,
            k - j > 0,
            k + i >= 0,
            u >= 0,
    ;
    assert((k - j) * n <= (k + i) * u) by (nonlinear_arith)
        requires
            (k - j) * (k * (n * l)) <= (k + i) * (u * (k * l)),
            k > 0,
            l > 0,
    ;
    assert(k * (k * n) <= k * ((k + i + j + 1) * u)) by (nonlinear_arith)
        requires
            (k - j) * n <= (k + i) * u,
            0 <= i <= 100,
            0 <= j <= 100,
            k == 0x100_0000,
            n >= 0,
            u >= 0,
    ;
    assert(k * n <= (k + i + j + 1) * u) by (nonlinear_arith)
        requires
            k * (k * n) <= k * ((k + i + j + 1) * u),
            k > 0,
    ;
    // Lower bound: k n l >= (k - i) a u and k l <= (k + j) a.
    assert((k + j) * (k * (n * l)) >= (k - i) * (u * (k * l))) by (nonlinear_arith)
        requires
            k * (n * l) >= (k - i) * (a * u),
            k * l <= (k + j) * a,
            k + j > 0,
            k - i >= 0,
            u >= 0,
    ;
    assert((k + j) * n >= (k - i) * u) by (nonlinear_arith)
        requires
            (k + j) * (k * (n * l)) >= (k - i) * (u * (k * l)),
            k > 0,
            l > 0,
    ;
    assert(k * (k * n) >= k * ((k - i - j - 1) * u)) by (nonlinear_arith)
        requires
            (k + j) * n >= (k - i) * u,
            0 <= i <= 100,
            0 <= j <= 100,
            k == 0x100_0000,
            n >= 0,
            u >= 0,
    ;
    assert(k * n >= (k - i - j - 1) * u) by (nonlinear_arith)
        requires
            k * (k * n) >= k * ((k - i - j - 1) * u),
            k > 0,
    ;
}

/// A number whose square is close to the square of `u` is as close to `u`.
pub proof fn lemma_close_root(m: int, u: int, j: int)
    requires
        close(m * m, u * u, j),
        m >= 0,
        u >= 0,
        0 <= j <= 100,
    ensures
        close(m, u, j),
{
    let k = parts();
    if k * m > (k + j) * u {
        assert((k * m) * (k * m) > ((k + j) * u) * ((k + j) * u)) by (nonlinear_arith)
            requires
                k * m > (k + j) * u,
                (k + j) * u >= 0,
        ;
        assert(((k + j) * u) * ((k + j) * u) >= k * ((k + j) * (u * u))) by (nonlinear_arith)
            requires
                j >= 0,
                k > 0,
                u >= 0,
        ;
        assert((k * m) * (k * m) == k * (k * (m * m))) by (nonlinear_arith);
        assert(k * (m * m) > (k + j) * (u * u)) by (nonlinear_arith)
            requires
                k * (k * (m * m)) > k * ((k + j) * (u * u)),
                k > 0,
        ;
    }
    if k * m < (k - j) * u {
        assert((k * m) * (k * m) < ((k - j) * u) * ((k - j) * u)) by (nonlinear_arith)
            requires
                0 <= k * m < (k - j) * u,
        ;
        assert(((k - j) * u) * ((k - j) * u) <= k * ((k - j) * (u * u))) by (nonlinear_arith)
            requires
                0 <= j <= k,
                k > 0,
                u >= 0,
        ;
        assert((k * m) * (k * m) == k * (k * (m * m))) by (nonlinear_arith);
        assert(k * (m * m) < (k - j) * (u * u)) by (nonlinear_arith)
            requires
                k * (k * (m * m)) < k * ((k - j) * (u * u)),
                k > 0,
        ;
    }
}

/// Closeness does not depend on the unit.
pub proof fn lemma_close_scale(a: int, b: int, j: int, c: int)
    requires
        close(a, b, j),
        c >= 0,
    ensures
        close(a * c, b * c, j),
{
    let k = parts();
    assert(a * c >= 0 && b * c >= 0 && (k - j) * (b * c) <= k * (a * c) <= (k + j) * (b * c))
        by (nonlinear_arith)
        requires
            a >= 0,
            b >= 0,
            c >= 0,
            (k - j) * b <= k * a <= (k + j) * b,
    ;
}

/// A number within a hundred parts in `2^24` of another lies between half
/// and twice the other.
pub proof fn lemma_close_range(a: int, b: int, j: int)
    requires
        close(a, b, j),
        0 <= j <= 100,
    ensures
        b <= 2 * a,
        a <= 2 * b,
        b > 0 ==> a > 0,
{
    let k = parts();
    assert(b <= 2 * a && a <= 2 * b) by (nonlinear_arith)
        requires
            (k - j) * b <= k * a <= (k + j) * b,
            0 <= j <= 100,
            k == 0x100_0000,
            a >= 0,
            b >= 0,
    ;
}

/// Rounding moves a number by at most half a step.
pub proof fn lemma_round_half_step(n: nat, step: nat)
    requires
        step > 0,
    ensures
        2 * round_half_even(n, step) <= 2 * n + step,
        2 * n <= 2 * round_half_even(n, step) + step,
        round_half_even(n, step) == (n / step) * step || round_half_even(n, step) == (n / step
            + 1) * step,
{
    let below = n / step;
    let rest = n % step;
    lemma_fundamental_div_mod(n as int, step as int);
    assert(n == below * step + rest) by (nonlinear_arith)
        requires
            n == step * below + rest,
    ;
    assert((below + 1) * step == below * step + step) by (nonlinear_arith);
}

/// The binary32 number nearest to a ratio in the normal range is held by
/// the format and is off by at most one part in `2^24`.
pub proof fn lemma_nearest_ratio_value(negative: bool, num: nat, den: nat)
    requires
        den > 0,
        0x80_0000 <= num / den < pow2(276),
    ensures
        is_finite(encode(negative, nearest_ratio(num, den))),
        sign_bit(encode(negative, nearest_ratio(num, den))) == negative,
        magnitude(encode(negative, nearest_ratio(num, den))) == nearest_ratio(num, den),
        close((nearest_ratio(num, den) * den) as int, num as int, 1),
        nearest_ratio(num, den) >= 0x80_0000,
{
    let whole = num / den;
    let b = bit_length(whole);
    lemma2_to64();
    lemma_bit_length_bounds(whole);
    if b < 24 {
        lemma_pow2_monotonic(b, 23);
    }
    if b > 276 {
        lemma_pow2_monotonic(276, (b - 1) as nat);
    }
    let t = (b - 24) as nat;
    let s = pow2(t);
    lemma_pow2_pos(t);
    lemma_pow2_adds(23, t);
    lemma_pow2_adds(24, t);
    assert(spacing(whole) == s);
    let step = den * s;
    assert(step > 0) by (nonlinear_arith)
        requires
            step == den * s,
            den > 0,
            s > 0,
    ;
    let rounded = round_half_even(num, step);
    lemma_round_half_step(num, step);
    lemma_fundamental_div_mod(num as int, den as int);
    // The quotient on the grid has twenty-four digits.
    let kept = num / step;
    lemma_fundamental_div_mod(num as int, step as int);
    assert(0x80_0000 <= kept < 0x100_0000) by (nonlinear_arith)
        requires
            0x80_0000 * s <= whole < 0x100_0000 * s,
            num == den * whole + num % den,
            0 <= num % den < den,
            num == step * kept + num % step,
            0 <= num % step < step,
            step == den * s,
            den > 0,
            s > 0,
    ;
    let c: nat = if rounded == kept * step {
        kept
    } else {
        kept + 1
    };
    assert(rounded == c * step);
    assert(c * step == (c * s) * den) by (nonlinear_arith)
        requires
            step == den * s,
    ;
    lemma_div_by_multiple((c * s) as int, den as int);
    let r = nearest_ratio(num, den);
    assert(r == c * s);
    lemma_decode(negative, c, t);
    assert(r >= 0x80_0000) by (nonlinear_arith)
        requires
            r == c * s,
            c >= 0x80_0000,
            s >= 1,
    ;
    // Half a step is at most one part in `2^24` of the ratio.
    assert(0x80_0000 * step <= num) by (nonlinear_arith)
        requires
            num == step * kept + num % step,
            0 <= num % step,
            kept >= 0x80_0000,
            step > 0,
    ;
    assert(r * den == rounded);
    assert(close(rounded as int, num as int, 1)) by (nonlinear_arith)
        requires
            2 * rounded <= 2 * num + step,
            2 * num <= 2 * rounded + step,
            0x80_0000 * step <= num,
            parts() == 0x100_0000,
    ;
}

/// The binary32 number nearest to a whole number of units is held by the
/// format and is off by at most one part in `2^24`.
pub proof fn lemma_nearest_value(negative: bool, n: nat)
    requires
        n < pow2(276),
    ensures
        is_finite(encode(negative, nearest(n))),
        sign_bit(encode(negative, nearest(n))) == negative,
        magnitude(encode(negative, nearest(n))) == nearest(n),
        close(nearest(n) as int, n as int, 1),
        n > 0 ==> nearest(n) > 0,
{
    lemma2_to64();
    if n < 0x100_0000 {
        if n > 0 {
            lemma_bit_length_bounds(n);
            if bit_length(n) > 24 {
                lemma_pow2_monotonic(24, (bit_length(n) - 1) as nat);
            }
        } else {
            assert(bit_length(0) == 0);
        }
        assert(spacing(n) == 1);
        assert(n == n * 1) by (nonlinear_arith);
        lemma_round_multiple(n, 1);
        assert(nearest(n) == n);
        assert(close(n as int, n as int, 1)) by (nonlinear_arith)
            requires
                parts() == 0x100_0000,
        ;
        assert(n == n * pow2(0)) by (nonlinear_arith)
            requires
                pow2(0) == 1,
        ;
        lemma_decode(negative, n, 0);
    } else {
        assert(n / 1 == n);
        assert(1 * spacing(n) == spacing(n)) by (nonlinear_arith);
        assert(nearest_ratio(n, 1) == nearest(n));
        lemma_nearest_ratio_value(negative, n, 1);
        assert(nearest(n) * 1 == nearest(n)) by (nonlinear_arith);
    }
}

/// The product of two finite numbers is zero where a factor is zero, and is
/// off by at most one part in `2^24` where the exact product lies in the
/// normal range.
pub proof fn lemma_product_value(a: u32, b: u32)
    requires
        is_finite(a),
        is_finite(b),
        magnitude(a) * magnitude(b) == 0 || 0x80_0000 * unit() <= magnitude(a) * magnitude(b)
            < pow2(276) * unit(),
    ensures
        is_finite(product(a, b)),
        sign_bit(product(a, b)) == (sign_bit(a) != sign_bit(b)),
        close(
            (magnitude(product(a, b)) * unit()) as int,
            (magnitude(a) * magnitude(b)) as int,
            1,
        ),
{
    reveal(product);
    let negative = sign_bit(a) != sign_bit(b);
    let exact = magnitude(a) * magnitude(b);
    let u = unit();
    lemma2_to64();
    lemma_pow2_pos(149);
    if exact == 0 {
        lemma_basic_div(0, u as int);
        assert(bit_length(0) == 0);
        assert(u * 1 == u) by (nonlinear_arith);
        lemma_round_multiple(0, u);
        assert(0 * u == 0) by (nonlinear_arith);
        assert(nearest_ratio(0, u) == 0);
        assert(0 == 0 * pow2(0)) by (nonlinear_arith);
        lemma_decode(negative, 0, 0);
        assert(close(0, 0, 1)) by (nonlinear_arith)
            requires
                parts() == 0x100_0000,
        ;
    } else {
        lemma_fundamental_div_mod(exact as int, u as int);
        let whole = exact / u;
        assert(0x80_0000 <= whole < pow2(276)) by (nonlinear_arith)
            requires
                0x80_0000 * u <= exact < pow2(276) * u,
                exact == u * whole + exact % u,
                0 <= exact % u < u,
        ;
        lemma_nearest_ratio_value(negative, exact, u);
    }
}

/// The sum of two finite numbers that are not negative is a number that is
/// not negative, off by at most one part in `2^24`.
pub proof fn lemma_sum_value(a: u32, b: u32)
    requires
        is_finite(a),
        is_finite(b),
        !sign_bit(a),
        !sign_bit(b),
        magnitude(a) + magnitude(b) < pow2(276),
    ensures
        is_finite(sum(a, b)),
        !sign_bit(sum(a, b)),
        close(magnitude(sum(a, b)) as int, (magnitude(a) + magnitude(b)) as int, 1),
        magnitude(a) + magnitude(b) > 0 ==> magnitude(sum(a, b)) > 0,
{
    reveal(sum);
    let exact = magnitude(a) + magnitude(b);
    if exact == 0 {
        lemma_value_zero(ZERO);
        assert(close(0, 0, 1)) by (nonlinear_arith)
            requires
                parts() == 0x100_0000,
        ;
    } else {
        lemma_nearest_value(false, exact);
    }
}

/// The quotient of two finite numbers is zero where the dividend is zero,
/// and is off by at most one part in `2^24` where the exact quotient lies in
/// the normal range.
pub proof fn lemma_quotient_value(a: u32, b: u32)
    requires
        is_finite(a),
        is_finite(b),
        magnitude(b) > 0,
        magnitude(a) == 0 || 0x80_0000 * magnitude(b) <= magnitude(a) * unit() < pow2(276)
            * magnitude(b),
    ensures
        is_finite(quotient(a, b)),
        sign_bit(quotient(a, b)) == (sign_bit(a) != sign_bit(b)),
        close(
            (magnitude(quotient(a, b)) * magnitude(b)) as int,
            (magnitude(a) * unit()) as int,
            1,
        ),
        magnitude(a) == 0 ==> magnitude(quotient(a, b)) == 0,
{
    reveal(quotient);
    let negative = sign_bit(a) != sign_bit(b);
    let num = magnitude(a) * unit();
    let den = magnitude(b);
    lemma2_to64();
    if magnitude(a) == 0 {
        assert(num == 0) by (nonlinear_arith)
            requires
                num == magnitude(a) * unit(),
                magnitude(a) == 0,
        ;
        lemma_basic_div(0, den as int);
        assert(bit_length(0) == 0);
        assert(den * 1 == den) by (nonlinear_arith);
        lemma_round_multiple(0, den);
        assert(0 * den == 0) by (nonlinear_arith);
        assert(nearest_ratio(0, den) == 0);
        assert(0 == 0 * pow2(0)) by (nonlinear_arith);
        lemma_decode(negative, 0, 0);
        assert(close(0, 0, 1)) by (nonlinear_arith)
            requires
                parts() == 0x100_0000,
        ;
        assert(magnitude(quotient(a, b)) * den == 0) by (nonlinear_arith)
            requires
                magnitude(quotient(a, b)) == 0,
        ;
    } else {
        lemma_fundamental_div_mod(num as int, den as int);
        let whole = num / den;
        assert(0x80_0000 <= whole < pow2(276)) by (nonlinear_arith)
            requires
                0x80_0000 * den <= num < pow2(276) * den,
                num == den * whole + num % den,
                0 <= num % den < den,
        ;
        lemma_nearest_ratio_value(negative, num, den);
    }
}

/// The square root of a positive finite number is a positive finite number
/// whose square is off by at most three parts in `2^24`.
pub proof fn lemma_root_value(a: u32)
    requires
        is_finite(a),
        !sign_bit(a),
        magnitude(a) > 0,
    ensures
        is_finite(root(a)),
        !sign_bit(root(a)),
        magnitude(root(a)) > 0,
        close(
            (magnitude(root(a)) * magnitude(root(a))) as int,
            (magnitude(a) * unit()) as int,
            3,
        ),
{
    reveal(root);
    let u = unit();
    let x = magnitude(a) * u;
    let whole = floor_root(x);
    lemma2_to64();
    lemma_pow2_pos(149);
    lemma_floor_root(x);
    lemma_significand_bounds(a);
    // The radicand lies between `2^148` and `2^426`, so its root has between
    // seventy-five and two hundred and thirteen digits.
    lemma_pow2_adds(74, 74);
    lemma_pow2_adds(213, 213);
    lemma_pow2_adds(24, 253);
    lemma_pow2_adds(277, 149);
    lemma_pow2_pos(scale(a));
    lemma_pow2_monotonic(scale(a), 253);
    lemma_pow2_unfold(149);
    let size = magnitude(a);
    assert(size < pow2(277)) by (nonlinear_arith)
        requires
            size == significand(a) * pow2(scale(a)),
            significand(a) < 0x100_0000,
            0 < pow2(scale(a)) <= pow2(253),
            pow2(277) == 0x100_0000 * pow2(253),
    ;
    assert(pow2(148) <= x < pow2(426)) by (nonlinear_arith)
        requires
            x == size * u,
            0 < size < pow2(277),
            pow2(426) == pow2(277) * u,
            u == 2 * pow2(148),
            pow2(148) > 0,
    ;
    assert(pow2(74) <= whole < pow2(213)) by (nonlinear_arith)
        requires
            whole * whole <= x < (whole + 1) * (whole + 1),
            pow2(148) <= x < pow2(426),
            pow2(148) == pow2(74) * pow2(74),
            pow2(426) == pow2(213) * pow2(213),
            pow2(74) > 0,
            pow2(213) > 0,
    ;
    lemma_bit_length_bounds(whole);
    let b = bit_length(whole);
    if b < 75 {
        lemma_pow2_monotonic(b, 74);
    }
    if b > 213 {
        lemma_pow2_monotonic(213, (b - 1) as nat);
    }
    let t = (b - 24) as nat;
    let s = pow2(t);
    assert(spacing(whole) == s);
    lemma_pow2_pos(t);
    lemma_pow2_adds(23, t);
    lemma_pow2_adds(24, t);
    lemma_pow2_unfold(t);
    let half = pow2((t - 1) as nat);
    lemma_pow2_pos((t - 1) as nat);
    let kept = whole / s;
    lemma_fundamental_div_mod(whole as int, s as int);
    assert(0x80_0000 <= kept < 0x100_0000) by (nonlinear_arith)
        requires
            0x80_0000 * s <= whole < 0x100_0000 * s,
            whole == s * kept + whole % s,
            0 <= whole % s < s,
    ;
    let low = kept * s;
    assert(low <= whole < low + s) by (nonlinear_arith)
        requires
            whole == s * kept + whole % s,
            0 <= whole % s < s,
            low == kept * s,
    ;
    let v = nearest_root(x);
    let c: nat = if v == low {
        kept
    } else {
        kept + 1
    };
    assert((kept + 1) * s == low + s) by (nonlinear_arith)
        requires
            low == kept * s,
    ;
    assert(v == c * s);
    lemma_decode(false, c, t);
    assert(v >= 0x80_0000 * s) by (nonlinear_arith)
        requires
            v == c * s,
            c >= 0x80_0000,
            s > 0,
    ;
    let k = parts();
    let middle = 2 * low + s;
    if v == low {
        assert(4 * x <= middle * middle);
        assert(v * v <= x) by (nonlinear_arith)
            requires
                v <= whole,
                whole * whole <= x,
        ;
        // `2 v + s` is at most `v (1 + 2^-24)` twice over.
        assert(k * k * x <= (k + 1) * (k + 1) * (v * v)) by (nonlinear_arith)
            requires
                4 * x <= middle * middle,
                middle == 2 * v + s,
                0x80_0000 * s <= v,
                k == 0x100_0000,
                s > 0,
        ;
        assert(close((v * v) as int, x as int, 3)) by (nonlinear_arith)
            requires
                v * v <= x,
                k * k * x <= (k + 1) * (k + 1) * (v * v),
                k == 0x100_0000,
                parts() == k,
        ;
    } else {
        assert(4 * x >= middle * middle);
        assert(x < v * v) by (nonlinear_arith)
            requires
                whole + 1 <= v,
                x < (whole + 1) * (whole + 1),
        ;
        assert(k * k * x >= (k - 1) * (k - 1) * (v * v)) by (nonlinear_arith)
            requires
                4 * x >= middle * middle,
                middle == 2 * v - s,
                0x80_0000 * s <= v,
                k == 0x100_0000,
                s > 0,
        ;
        assert(close((v * v) as int, x as int, 3)) by (nonlinear_arith)
            requires
                x < v * v,
                k * k * x >= (k - 1) * (k - 1) * (v * v),
                k == 0x100_0000,
                parts() == k,
        ;
    }
}

/// The square of a number between two powers of two lies between their squares.
pub proof fn lemma_square_range(c: nat, lo: nat, hi: nat)
    requires
        pow2(lo) <= c < pow2(hi),
    ensures
        pow2(2 * lo) <= c * c < pow2(2 * hi),
{
    lemma_pow2_adds(lo, lo);
    lemma_pow2_adds(hi, hi);
    lemma_pow2_pos(lo);
    assert(pow2(lo) * pow2(lo) <= c * c < pow2(hi) * pow2(hi)) by (nonlinear_arith)
        requires
            0 < pow2(lo) <= c < pow2(hi),
    ;
}

/// A number whose square lies between the squares of two powers of two lies
/// between the powers.
pub proof fn lemma_root_range(c: nat, lo: nat, hi: nat)
    requires
        pow2(2 * lo) <= c * c < pow2(2 * hi),
    ensures
        pow2(lo) <= c < pow2(hi),
{
    lemma_pow2_adds(lo, lo);
    lemma_pow2_adds(hi, hi);
    lemma_pow2_pos(lo);
    lemma_pow2_pos(hi);
    let l = pow2(lo);
    let h = pow2(hi);
    if c < l {
        assert(c * c < l * l) by (nonlinear_arith)
            requires
                0 <= c < l,
        ;
    }
    if c >= h {
        assert(c * c >= h * h) by (nonlinear_arith)
            requires
                c >= h,
                h > 0,
        ;
    }
}

/// Zero, or a finite number between `2^lo` and `2^hi` units of `2^-149` in size.
pub open spec fn moderate(bits: u32, lo: nat, hi: nat) -> bool {
    is_finite(bits) && (magnitude(bits) == 0 || pow2(lo) <= magnitude(bits) < pow2(hi))
}

/// The exact sum of the squares of the first three components, in units of
/// `2^-298`.
pub open spec fn squares(v: Tuple) -> nat {
    magnitude(v.x) * magnitude(v.x) + magnitude(v.y) * magnitude(v.y) + magnitude(v.z)
        * magnitude(v.z)
}

/// The square of a moderate number is not negative, is zero for zero, and is
/// off by at most one part in `2^24`.
proof fn lemma_square_value(c: u32, lo: nat, hi: nat)
    requires
        86 <= lo <= hi <= 210,
        moderate(c, lo, hi),
    ensures
        is_finite(product(c, c)),
        !sign_bit(product(c, c)),
        close((magnitude(product(c, c)) * unit()) as int, (magnitude(c) * magnitude(c)) as int, 1),
        magnitude(product(c, c)) < pow2((2 * hi - 148) as nat),
        magnitude(c) == 0 ==> magnitude(product(c, c)) == 0,
        magnitude(c) > 0 ==> magnitude(c) * magnitude(c) >= pow2(2 * lo),
        magnitude(c) * magnitude(c) < pow2(2 * hi),
{
    let size = magnitude(c);
    let u = unit();
    lemma2_to64();
    lemma_pow2_pos(149);
    lemma_pow2_pos(2 * hi);
    lemma_pow2_adds(23, 149);
    lemma_pow2_adds(276, 149);
    lemma_pow2_monotonic(172, 2 * lo);
    lemma_pow2_monotonic(2 * hi, 425);
    if size > 0 {
        lemma_square_range(size, lo, hi);
    } else {
        assert(size * size == 0) by (nonlinear_arith)
            requires
                size == 0,
        ;
    }
    lemma_product_value(c, c);
    let q = magnitude(product(c, c));
    lemma_close_range((q * u) as int, (size * size) as int, 1);
    lemma_pow2_unfold(2 * hi + 1);
    lemma_pow2_adds((2 * hi - 148) as nat, 149);
    assert(q < pow2((2 * hi - 148) as nat)) by (nonlinear_arith)
        requires
            q * u <= 2 * (size * size),
            size * size < pow2(2 * hi),
            pow2(2 * hi + 1) == 2 * pow2(2 * hi),
            pow2(2 * hi + 1) == pow2((2 * hi - 148) as nat) * u,
            u > 0,
    ;
    if size == 0 {
        assert(q == 0) by (nonlinear_arith)
            requires
                q * u <= 0,
                u > 0,
                q >= 0,
        ;
    }
}

/// The length of a tuple whose first three components are moderate and not
/// all zero, and whose fourth component is zero: a positive finite number
/// whose square is off from the exact sum of the squares by at most eleven
/// parts in `2^24`.
#[verifier::rlimit(50)]
pub proof fn lemma_length_value(v: Tuple, lo: nat, hi: nat)
    requires
        86 <= lo <= hi <= 210,
        moderate(v.x, lo, hi),
        moderate(v.y, lo, hi),
        moderate(v.z, lo, hi),
        is_finite(v.w),
        magnitude(v.w) == 0,
        squares(v) > 0,
    ensures
        is_finite(v.length()),
        !sign_bit(v.length()),
        close((magnitude(v.length()) * magnitude(v.length())) as int, squares(v) as int, 11),
        pow2((lo - 1) as nat) <= magnitude(v.length()) < pow2(hi + 2),
{
    let u = unit();
    let qx = product(v.x, v.x);
    let qy = product(v.y, v.y);
    let qz = product(v.z, v.z);
    let qw = product(v.w, v.w);
    let s1 = sum(qx, qy);
    let s2 = sum(s1, qz);
    let s3 = sum(s2, qw);
    let l = root(s3);
    assert(l == v.length());
    let xx = magnitude(v.x) * magnitude(v.x);
    let yy = magnitude(v.y) * magnitude(v.y);
    let zz = magnitude(v.z) * magnitude(v.z);
    let all = squares(v);
    lemma2_to64();
    lemma_pow2_pos(149);
    lemma_square_value(v.x, lo, hi);
    lemma_square_value(v.y, lo, hi);
    lemma_square_value(v.z, lo, hi);
    assert(magnitude(v.w) * magnitude(v.w) == 0) by (nonlinear_arith)
        requires
            magnitude(v.w) == 0,
    ;
    lemma_product_value(v.w, v.w);
    lemma_close_range((magnitude(qw) * u) as int, 0, 1);
    assert(magnitude(qw) == 0) by (nonlinear_arith)
        requires
            magnitude(qw) * u <= 0,
            u > 0,
    ;
    // The sums stay far below the largest finite number.
    let top = pow2((2 * hi - 148) as nat);
    lemma_pow2_unfold((2 * hi - 147) as nat);
    lemma_pow2_unfold((2 * hi - 146) as nat);
    lemma_pow2_unfold((2 * hi - 145) as nat);
    lemma_pow2_unfold((2 * hi - 144) as nat);
    lemma_pow2_monotonic((2 * hi - 144) as nat, 276);
    lemma_sum_value(qx, qy);
    lemma_close_range(magnitude(s1) as int, (magnitude(qx) + magnitude(qy)) as int, 1);
    lemma_sum_value(s1, qz);
    lemma_close_range(magnitude(s2) as int, (magnitude(s1) + magnitude(qz)) as int, 1);
    lemma_sum_value(s2, qw);
    // The errors add up to seven parts before the square root.
    lemma_close_sum((magnitude(qx) * u) as int, xx as int, (magnitude(qy) * u) as int, yy as int, 1);
    assert((magnitude(qx) + magnitude(qy)) * u == magnitude(qx) * u + magnitude(qy) * u)
        by (nonlinear_arith);
    lemma_close_scale(magnitude(s1) as int, (magnitude(qx) + magnitude(qy)) as int, 1, u as int);
    lemma_close_chain(
        (magnitude(s1) * u) as int,
        ((magnitude(qx) + magnitude(qy)) * u) as int,
        (xx + yy) as int,
        1,
        1,
    );
    lemma_close_wider((magnitude(qz) * u) as int, zz as int, 1, 3);
    lemma_close_sum((magnitude(s1) * u) as int, (xx + yy) as int, (magnitude(qz) * u) as int, zz as int, 3);
    assert((magnitude(s1) + magnitude(qz)) * u == magnitude(s1) * u + magnitude(qz) * u)
        by (nonlinear_arith);
    lemma_close_scale(magnitude(s2) as int, (magnitude(s1) + magnitude(qz)) as int, 1, u as int);
    lemma_close_chain(
        (magnitude(s2) * u) as int,
        ((magnitude(s1) + magnitude(qz)) * u) as int,
        all as int,
        1,
        3,
    );
    lemma_close_scale(magnitude(s3) as int, (magnitude(s2) + magnitude(qw)) as int, 1, u as int);
    lemma_close_chain((magnitude(s3) * u) as int, (magnitude(s2) * u) as int, all as int, 1, 5);
    lemma_close_range((magnitude(s3) * u) as int, all as int, 7);
    assert(magnitude(s3) > 0) by (nonlinear_arith)
        requires
            magnitude(s3) * u > 0,
            u > 0,
    ;
    lemma_root_value(s3);
    let size = magnitude(l);
    lemma_close_chain((size * size) as int, (magnitude(s3) * u) as int, all as int, 3, 7);
    // The length lies within the range of the components, widened by a little.
    lemma_close_range((size * size) as int, all as int, 11);
    lemma_pow2_unfold(2 * lo);
    lemma_pow2_unfold(2 * hi + 1);
    lemma_pow2_unfold(2 * hi + 2);
    lemma_pow2_unfold(2 * hi + 3);
    lemma_pow2_unfold(2 * hi + 4);
    lemma_pow2_monotonic(2 * ((lo - 1) as nat), (2 * lo - 1) as nat);
    assert(pow2(2 * ((lo - 1) as nat)) <= size * size < pow2(2 * (hi + 2)));
    lemma_root_range(size, (lo - 1) as nat, hi + 2);
}

/// Scaling three numbers by `c` scales the sum of their squares by the
/// square of `c`.
proof fn lemma_sum_of_scaled_squares(x: nat, y: nat, z: nat, c: nat)
    ensures
        (x * c) * (x * c) + (y * c) * (y * c) + (z * c) * (z * c) == (x * x + y * y + z * z) * (c
            * c),
{
    let cc = c * c;
    assert((x * c) * (x * c) == (x * x) * cc) by (nonlinear_arith)
        requires
            cc == c * c,
    ;
    assert((y * c) * (y * c) == (y * y) * cc) by (nonlinear_arith)
        requires
            cc == c * c,
    ;
    assert((z * c) * (z * c) == (z * z) * cc) by (nonlinear_arith)
        requires
            cc == c * c,
    ;
    assert((x * x + y * y + z * z) * cc == (x * x) * cc + (y * y) * cc + (z * z) * cc)
        by (nonlinear_arith);
}

/// A moderate component divided by the length of its tuple: zero for zero,
/// and otherwise moderate again, off by at most one part in `2^24`.
proof fn lemma_component_of_normalized(c: u32, l: u32, lo: nat, hi: nat)
    requires
        86 <= lo <= hi <= 210,
        hi - lo <= 59,
        moderate(c, lo, hi),
        is_finite(l),
        !sign_bit(l),
        pow2((lo - 1) as nat) <= magnitude(l) < pow2(hi + 2),
    ensures
        moderate(quotient(c, l), (lo + 146 - hi) as nat, (hi + 151 - lo) as nat),
        magnitude(c) == 0 <==> magnitude(quotient(c, l)) == 0,
        close(
            (magnitude(quotient(c, l)) * magnitude(l)) as int,
            (magnitude(c) * unit()) as int,
            1,
        ),
{
    let u = unit();
    let x = magnitude(c);
    let len = magnitude(l);
    let low = (lo + 146 - hi) as nat;
    let high = (hi + 151 - lo) as nat;
    lemma2_to64();
    lemma_pow2_pos((lo - 1) as nat);
    lemma_pow2_pos(149);
    lemma_pow2_adds(lo, 149);
    lemma_pow2_adds(hi, 149);
    lemma_pow2_adds(23, hi + 2);
    lemma_pow2_adds(276, (lo - 1) as nat);
    lemma_pow2_monotonic(hi + 25, lo + 149);
    lemma_pow2_monotonic(hi + 149, lo + 275);
    if x > 0 {
        assert(pow2(lo + 149) <= x * u < pow2(hi + 149)) by (nonlinear_arith)
            requires
                pow2(lo) <= x < pow2(hi),
                pow2(lo + 149) == pow2(lo) * u,
                pow2(hi + 149) == pow2(hi) * u,
                u > 0,
        ;
        assert(0x80_0000 * len <= x * u < pow2(276) * len) by (nonlinear_arith)
            requires
                pow2(lo + 149) <= x * u < pow2(hi + 149),
                pow2((lo - 1) as nat) <= len < pow2(hi + 2),
                pow2(hi + 25) == 0x80_0000 * pow2(hi + 2),
                pow2(lo + 275) == pow2(276) * pow2((lo - 1) as nat),
                pow2(hi + 25) <= pow2(lo + 149),
                pow2(hi + 149) <= pow2(lo + 275),
        ;
    }
    lemma_quotient_value(c, l);
    let n = magnitude(quotient(c, l));
    lemma_close_range((n * len) as int, (x * u) as int, 1);
    if x > 0 {
        lemma_pow2_unfold(lo + 149);
        lemma_pow2_adds(low, hi + 2);
        lemma_pow2_unfold(hi + 150);
        lemma_pow2_adds(high, (lo - 1) as nat);
        assert(pow2(low) <= n < pow2(high)) by (nonlinear_arith)
            requires
                x * u <= 2 * (n * len),
                n * len <= 2 * (x * u),
                pow2(lo + 149) <= x * u < pow2(hi + 149),
                pow2((lo - 1) as nat) <= len < pow2(hi + 2),
                pow2(lo + 149) == 2 * pow2((lo + 148) as nat),
                pow2((lo + 148) as nat) == pow2(low) * pow2(hi + 2),
                pow2(hi + 150) == 2 * pow2(hi + 149),
                pow2(hi + 150) == pow2(high) * pow2((lo - 1) as nat),
                n >= 0,
        ;
        lemma_pow2_pos(low);
    }
}

/// The length of a normalized vector is one up to the tolerance, for a
/// vector that is not zero and whose components, where they are not zero,
/// lie between `2^lo` and `2^hi` units of `2^-149` in size. The bounds keep
/// the squares of the components, and the squares of the components of the
/// normalized vector, within the normal range of the format: the sizes lie
/// between `2^-63` and `2^61`, and the largest is less than `2^59` times the
/// smallest.
#[verifier::rlimit(50)]
pub proof fn lemma_length_of_normalized(v: Tuple, lo: nat, hi: nat)
    requires
        86 <= lo <= hi <= 210,
        hi - lo <= 59,
        v.vector(),
        moderate(v.x, lo, hi),
        moderate(v.y, lo, hi),
        moderate(v.z, lo, hi),
        squares(v) > 0,
    ensures
        approx_eq(v.normalized().length(), ONE),
{
    let u = unit();
    let l = v.length();
    let n = v.normalized();
    let len = magnitude(l);
    let all = squares(v);
    let low = (lo + 146 - hi) as nat;
    let high = (hi + 151 - lo) as nat;
    lemma2_to64();
    lemma_pow2_pos(149);
    lemma_length_value(v, lo, hi);
    lemma_component_of_normalized(v.x, l, lo, hi);
    lemma_component_of_normalized(v.y, l, lo, hi);
    lemma_component_of_normalized(v.z, l, lo, hi);
    lemma_pow2_pos((lo - 1) as nat);
    lemma_quotient_value(v.w, l);
    let nx = magnitude(n.x);
    let ny = magnitude(n.y);
    let nz = magnitude(n.z);
    let x = magnitude(v.x);
    let y = magnitude(v.y);
    let z = magnitude(v.z);
    assert(squares(n) > 0) by (nonlinear_arith)
        requires
            squares(n) == nx * nx + ny * ny + nz * nz,
            all == x * x + y * y + z * z,
            all > 0,
            x == 0 <==> nx == 0,
            y == 0 <==> ny == 0,
            z == 0 <==> nz == 0,
    ;
    lemma_length_value(n, low, high);
    let m = magnitude(n.length());
    // The squares of the components of the normalized vector, times the
    // square of the length, are close to the squares of the components of
    // the vector, times the square of one.
    lemma_close_product((nx * len) as int, (x * u) as int, (nx * len) as int, (x * u) as int, 1, 1);
    lemma_close_product((ny * len) as int, (y * u) as int, (ny * len) as int, (y * u) as int, 1, 1);
    lemma_close_product((nz * len) as int, (z * u) as int, (nz * len) as int, (z * u) as int, 1, 1);
    lemma_close_sum(
        ((nx * len) * (nx * len)) as int,
        ((x * u) * (x * u)) as int,
        ((ny * len) * (ny * len)) as int,
        ((y * u) * (y * u)) as int,
        3,
    );
    lemma_close_sum(
        ((nx * len) * (nx * len) + (ny * len) * (ny * len)) as int,
        ((x * u) * (x * u) + (y * u) * (y * u)) as int,
        ((nz * len) * (nz * len)) as int,
        ((z * u) * (z * u)) as int,
        3,
    );
    lemma_sum_of_scaled_squares(nx, ny, nz, len);
    lemma_sum_of_scaled_squares(x, y, z, u);
    lemma_close_cancel(
        squares(n) as int,
        (len * len) as int,
        all as int,
        (u * u) as int,
        3,
        11,
    );
    lemma_close_chain((m * m) as int, squares(n) as int, (u * u) as int, 11, 15);
    lemma_close_root(m as int, u as int, 27);
    // Twenty-seven parts in `2^24` of one are less than the threshold.
    lemma_value_one(ONE);
    vstd::arithmetic::power2::lemma2_to64_rest();
    lemma_pow2_adds(41, 108);
    lemma_pow2_pos(108);
    lemma_approx_eq_by_distance(n.length(), ONE);
    let apart = distance(n.length(), ONE);
    assert(apart < threshold()) by (nonlinear_arith)
        requires
            (parts() - 27) * u <= parts() * m <= (parts() + 27) * u,
            parts() == 0x100_0000,
            apart == (if m >= u {
                m - u
            } else {
                u - m
            }),
            u == 0x200_0000_0000 * pow2(108),
            threshold() == 21990231 * pow2(108),
            pow2(108) > 0,
    ;
}

} // verus!
