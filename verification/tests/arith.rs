use raytrace::arith::{minus, over, plus, sqrt, times};
use raytrace::binary32::{INFINITY, NAN};

fn next(state: &mut u32) -> u32 {
    let mut x = *state;
    x ^= x << 13;
    x ^= x >> 17;
    x ^= x << 5;
    *state = x;
    x
}

fn same(got: u32, expected: f32) -> bool {
    if expected.is_nan() {
        got == NAN
    } else {
        got == expected.to_bits()
    }
}

fn check_pair(a: u32, b: u32) {
    let x = f32::from_bits(a);
    let y = f32::from_bits(b);
    assert!(same(plus(a, b), x + y), "{:#010x} + {:#010x} gave {:#010x}", a, b, plus(a, b));
    assert!(same(minus(a, b), x - y), "{:#010x} - {:#010x} gave {:#010x}", a, b, minus(a, b));
    assert!(same(times(a, b), x * y), "{:#010x} * {:#010x} gave {:#010x}", a, b, times(a, b));
    assert!(same(over(a, b), x / y), "{:#010x} / {:#010x} gave {:#010x}", a, b, over(a, b));
}

fn check_root(a: u32) {
    let x = f32::from_bits(a);
    assert!(same(sqrt(a), x.sqrt()), "sqrt {:#010x} gave {:#010x}", a, sqrt(a));
}

fn edge_patterns() -> Vec<u32> {
    let mut patterns = Vec::new();
    let fractions = [0u32, 1, 2, 0x3f_ffff, 0x40_0000, 0x40_0001, 0x7f_fffe, 0x7f_ffff];
    for exponent in [0u32, 1, 2, 23, 24, 25, 75, 100, 126, 127, 128, 129, 150, 151, 200, 253, 254, 255] {
        for fraction in fractions {
            patterns.push((exponent << 23) | fraction);
            patterns.push(0x8000_0000 | (exponent << 23) | fraction);
        }
    }
    patterns
}

#[test]
fn patterns_of_infinity_and_not_a_number() {
    assert_eq!(INFINITY, f32::INFINITY.to_bits());
    assert!(f32::from_bits(NAN).is_nan());
}

#[test]
fn sums_of_plain_numbers() {
    assert_eq!(plus(1.5f32.to_bits(), 2.25f32.to_bits()), 3.75f32.to_bits());
    assert_eq!(plus(3.0f32.to_bits(), (-2.0f32).to_bits()), 1.0f32.to_bits());
    assert_eq!(plus(1.0f32.to_bits(), 0.0f32.to_bits()), 1.0f32.to_bits());
    assert_eq!(plus(0.1f32.to_bits(), 0.2f32.to_bits()), (0.1f32 + 0.2f32).to_bits());
    assert_eq!(plus(1.0f32.to_bits(), (-1.0f32).to_bits()), 0.0f32.to_bits());
    assert_eq!(plus((-0.0f32).to_bits(), (-0.0f32).to_bits()), (-0.0f32).to_bits());
    assert_eq!(plus((-0.0f32).to_bits(), 0.0f32.to_bits()), 0.0f32.to_bits());
    assert_eq!(plus(f32::MAX.to_bits(), f32::MAX.to_bits()), f32::INFINITY.to_bits());
    assert_eq!(plus(f32::INFINITY.to_bits(), f32::NEG_INFINITY.to_bits()), NAN);
    assert_eq!(plus(1.0e30f32.to_bits(), 1.0f32.to_bits()), 1.0e30f32.to_bits());
}

#[test]
fn differences_of_plain_numbers() {
    assert_eq!(minus(3.0f32.to_bits(), 5.0f32.to_bits()), (-2.0f32).to_bits());
    assert_eq!(minus(1.0f32.to_bits(), 1.0f32.to_bits()), 0.0f32.to_bits());
    assert_eq!(minus(1.0f32.to_bits(), 0.0f32.to_bits()), 1.0f32.to_bits());
    assert_eq!(minus(0.0f32.to_bits(), 0.0f32.to_bits()), 0.0f32.to_bits());
    assert_eq!(minus((-0.0f32).to_bits(), 0.0f32.to_bits()), (-0.0f32).to_bits());
    assert_eq!(minus(f32::INFINITY.to_bits(), f32::INFINITY.to_bits()), NAN);
    assert_eq!(minus(1.0f32.to_bits(), 1.0e-30f32.to_bits()), 1.0f32.to_bits());
    assert_eq!(minus(1.0f32.to_bits(), 6.0e-8f32.to_bits()), (1.0f32 - 6.0e-8f32).to_bits());
}

#[test]
fn products_of_plain_numbers() {
    assert_eq!(times(3.5f32.to_bits(), (-2.0f32).to_bits()), (-7.0f32).to_bits());
    assert_eq!(times(0.1f32.to_bits(), 0.1f32.to_bits()), (0.1f32 * 0.1f32).to_bits());
    assert_eq!(times(0.0f32.to_bits(), (-3.0f32).to_bits()), (-0.0f32).to_bits());
    assert_eq!(times(f32::MAX.to_bits(), 2.0f32.to_bits()), f32::INFINITY.to_bits());
    assert_eq!(times(1.0e-30f32.to_bits(), 1.0e-30f32.to_bits()), 0.0f32.to_bits());
    assert_eq!(times(1.0e-20f32.to_bits(), 1.0e-20f32.to_bits()), (1.0e-20f32 * 1.0e-20f32).to_bits());
    assert_eq!(times(0.0f32.to_bits(), f32::INFINITY.to_bits()), NAN);
    assert_eq!(times(f32::NEG_INFINITY.to_bits(), 2.0f32.to_bits()), f32::NEG_INFINITY.to_bits());
}

#[test]
fn quotients_of_plain_numbers() {
    assert_eq!(over(1.0f32.to_bits(), 2.0f32.to_bits()), 0.5f32.to_bits());
    assert_eq!(over(1.0f32.to_bits(), 3.0f32.to_bits()), (1.0f32 / 3.0f32).to_bits());
    assert_eq!(over((-4.0f32).to_bits(), 2.0f32.to_bits()), (-2.0f32).to_bits());
    assert_eq!(over(1.0f32.to_bits(), 0.0f32.to_bits()), f32::INFINITY.to_bits());
    assert_eq!(over((-1.0f32).to_bits(), 0.0f32.to_bits()), f32::NEG_INFINITY.to_bits());
    assert_eq!(over(0.0f32.to_bits(), 0.0f32.to_bits()), NAN);
    assert_eq!(over(f32::INFINITY.to_bits(), f32::INFINITY.to_bits()), NAN);
    assert_eq!(over(1.0f32.to_bits(), f32::INFINITY.to_bits()), 0.0f32.to_bits());
    assert_eq!(over(0.0f32.to_bits(), (-5.0f32).to_bits()), (-0.0f32).to_bits());
    assert_eq!(over(1.0e-40f32.to_bits(), 3.0f32.to_bits()), (1.0e-40f32 / 3.0f32).to_bits());
}

#[test]
fn square_roots_of_plain_numbers() {
    assert_eq!(sqrt(1.0f32.to_bits()), 1.0f32.to_bits());
    assert_eq!(sqrt(4.0f32.to_bits()), 2.0f32.to_bits());
    assert_eq!(sqrt(2.0f32.to_bits()), 2.0f32.sqrt().to_bits());
    assert_eq!(sqrt(14.0f32.to_bits()), f32::sqrt(14.0).to_bits());
    assert_eq!(sqrt(0.0f32.to_bits()), 0.0f32.to_bits());
    assert_eq!(sqrt((-0.0f32).to_bits()), (-0.0f32).to_bits());
    assert_eq!(sqrt((-1.0f32).to_bits()), NAN);
    assert_eq!(sqrt(f32::INFINITY.to_bits()), f32::INFINITY.to_bits());
    assert_eq!(sqrt(f32::NEG_INFINITY.to_bits()), NAN);
    assert_eq!(sqrt(1), f32::from_bits(1).sqrt().to_bits());
    assert_eq!(sqrt(f32::MAX.to_bits()), f32::MAX.sqrt().to_bits());
}

#[test]
fn operations_match_the_hardware_on_edge_patterns() {
    let patterns = edge_patterns();
    for &a in &patterns {
        check_root(a);
        for &b in &patterns {
            check_pair(a, b);
        }
    }
}

#[test]
fn operations_match_the_hardware_on_random_patterns() {
    let mut state = 0x6a09_e667u32;
    for _ in 0..300_000 {
        let a = next(&mut state);
        let b = next(&mut state);
        check_pair(a, b);
        check_root(a);
    }
}

#[test]
fn operations_match_the_hardware_on_everyday_numbers() {
    let mut state = 0xbb67_ae85u32;
    for _ in 0..300_000 {
        let x = (next(&mut state) as f32 / u32::MAX as f32 - 0.5) * 20.0;
        let y = (next(&mut state) as f32 / u32::MAX as f32 - 0.5) * 20.0;
        check_pair(x.to_bits(), y.to_bits());
        check_root(x.abs().to_bits());
    }
}

#[test]
fn operations_match_the_hardware_on_near_numbers() {
    let mut state = 0x3c6e_f372u32;
    for _ in 0..200_000 {
        let a = next(&mut state);
        let near = a.wrapping_add(next(&mut state) % 5).wrapping_sub(2);
        check_pair(a, near);
        check_pair(a, near ^ 0x8000_0000);
        let shifted = a.wrapping_add((next(&mut state) % 60) << 23);
        check_pair(a, shifted);
        check_pair(a, shifted ^ 0x8000_0000);
    }
}

#[test]
fn operations_match_the_hardware_on_small_numbers() {
    let mut state = 0xa54f_f53au32;
    for _ in 0..200_000 {
        let a = next(&mut state) & 0x80ff_ffff;
        let b = next(&mut state) & 0x81ff_ffff;
        check_pair(a, b);
        check_pair(a, next(&mut state));
        check_root(a & 0x7fff_ffff);
    }
}

#[test]
fn sums_half_way_between_two_numbers_go_to_the_even_one() {
    // One and half of the distance to the next number: a tie.
    let half = 2.0f32.powi(-24);
    assert_eq!(plus(1.0f32.to_bits(), half.to_bits()), 1.0f32.to_bits());
    let odd = f32::from_bits(1.0f32.to_bits() + 1);
    assert_eq!(plus(odd.to_bits(), half.to_bits()), 1.0f32.to_bits() + 2);
    assert_eq!(minus(odd.to_bits(), half.to_bits()), 1.0f32.to_bits());
    let mut state = 0x510e_527fu32;
    for _ in 0..200_000 {
        let a = next(&mut state);
        let exponent = (a >> 23) & 0xff;
        if exponent < 26 || exponent == 255 {
            continue;
        }
        // Half of the distance between `a` and its neighbour, and the
        // numbers next to that half.
        let half = (exponent - 24) << 23;
        for nudge in [half - 1, half, half + 1] {
            check_pair(a, nudge);
            check_pair(a, nudge | 0x8000_0000);
            check_pair(nudge, a);
        }
        // A quarter and three quarters of the distance.
        check_pair(a, half - (1 << 23));
        check_pair(a, (half - (1 << 23)) | 0x8000_0000);
        check_pair(a, half | 0x40_0000);
        check_pair(a, half | 0x8040_0000);
    }
}

#[test]
fn products_half_way_between_two_numbers_go_to_the_even_one() {
    let mut state = 0x9b05_688cu32;
    for _ in 0..200_000 {
        let a = next(&mut state);
        for factor in [1.5f32, 0.5, 0.75, 1.25, 3.0, 0.375] {
            check_pair(a, factor.to_bits());
            check_pair(factor.to_bits(), a);
        }
        // Small numbers, whose halves and quarters are below the normal range.
        let small = a & 0x81ff_ffff;
        for factor in [0.5f32, 0.25, 0.125, 1.5, 0.75, 2.0f32.powi(-23), 2.0f32.powi(-24)] {
            check_pair(small, factor.to_bits());
        }
        for divisor in [2.0f32, 4.0, 8.0, 2.0f32.powi(22), 2.0f32.powi(23), 2.0f32.powi(24)] {
            check_pair(small, divisor.to_bits());
        }
    }
}

#[test]
fn results_at_the_edge_of_the_format() {
    let max = f32::MAX.to_bits();
    // Half of the distance between the largest number and the next power of two.
    let half = 2.0f32.powi(103).to_bits();
    for a in [max - 2, max - 1, max] {
        for b in [half - 1, half, half + 1, max - 1, max, 1, 0] {
            for (x, y) in [(a, b), (a | 0x8000_0000, b), (a, b | 0x8000_0000), (b, a)] {
                check_pair(x, y);
            }
        }
    }
    assert_eq!(plus(max, half), f32::INFINITY.to_bits());
    assert_eq!(plus(max, half - 1), max);
    assert_eq!(times(max, (1.0f32 + f32::EPSILON).to_bits()), f32::INFINITY.to_bits());
    assert_eq!(over(max, 0.99999994f32.to_bits()), f32::INFINITY.to_bits());
    // The smallest numbers.
    let least = 1u32;
    assert_eq!(times(least, 0.5f32.to_bits()), 0);
    assert_eq!(times(least + 2, 0.5f32.to_bits()), 2);
    assert_eq!(times(least, 0.75f32.to_bits()), 1);
    assert_eq!(over(least, 2.0f32.to_bits()), 0);
    assert_eq!(over(3, 2.0f32.to_bits()), 2);
    assert_eq!(minus(f32::MIN_POSITIVE.to_bits(), least), f32::MIN_POSITIVE.to_bits() - 1);
    for a in 0..64u32 {
        for b in 0..64u32 {
            check_pair(a, b);
            check_pair(a | 0x8000_0000, b);
            check_pair(0x0080_0000 - 32 + a, 0x0080_0000 - 32 + b);
            check_pair(0x0080_0000 - 32 + a, 0x8080_0000 - 32 + b);
            check_pair(0x7f7f_ffff - a, 0x7f7f_ffff - b);
            check_pair(0x7f7f_ffff - a, 0x3f80_0000 - 32 + b);
        }
        check_root(a);
        check_root(0x0080_0000 - 32 + a);
        check_root(0x7f7f_ffff - a);
        check_root(0x3f80_0000 - 32 + a);
    }
}

#[test]
fn square_roots_match_the_hardware_on_whole_squares() {
    for n in 0..3000u32 {
        let x = n as f32;
        assert_eq!(sqrt((x * x).to_bits()), x.to_bits());
        check_root((x * x).to_bits() + 1);
        check_root((x * x).to_bits().wrapping_sub(1) & 0x7fff_ffff);
    }
    let mut state = 0x1f83_d9abu32;
    for _ in 0..500_000 {
        check_root(next(&mut state) & 0x7fff_ffff);
    }
}
