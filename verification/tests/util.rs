use raytrace::util::{eq_f32, EPSILON};

fn expected(a: f32, b: f32) -> bool {
    (a - b).abs() < 0.00001
}

fn check(a: u32, b: u32) {
    let fa = f32::from_bits(a);
    let fb = f32::from_bits(b);
    assert_eq!(eq_f32(a, b), expected(fa, fb), "{:#010x} ({}) against {:#010x} ({})", a, fa, b, fb);
}

fn next(state: &mut u32) -> u32 {
    let mut x = *state;
    x ^= x << 13;
    x ^= x >> 17;
    x ^= x << 5;
    *state = x;
    x
}

#[test]
fn epsilon_is_the_pattern_of_the_tolerance() {
    assert_eq!(EPSILON, 0.00001f32.to_bits());
}

#[test]
fn equal_numbers_are_equal() {
    for x in [0.0f32, 1.0, -1.0, 20.0, 0.26726, 1e-45, f32::MAX, f32::MIN] {
        assert!(eq_f32(x.to_bits(), x.to_bits()));
    }
    assert!(eq_f32(0.0f32.to_bits(), (-0.0f32).to_bits()));
}

#[test]
fn numbers_within_the_tolerance_are_equal() {
    assert!(eq_f32(1.0f32.to_bits(), 1.000005f32.to_bits()));
    assert!(eq_f32(0.26726f32.to_bits(), 0.26726124f32.to_bits()));
    assert!(eq_f32(0.0f32.to_bits(), 0.0000099f32.to_bits()));
    assert!(eq_f32((-3.0f32).to_bits(), (-3.000001f32).to_bits()));
}

#[test]
fn numbers_further_apart_are_not_equal() {
    assert!(!eq_f32(1.0f32.to_bits(), 1.0001f32.to_bits()));
    assert!(!eq_f32(0.0f32.to_bits(), 0.00001f32.to_bits()));
    assert!(!eq_f32(0.0f32.to_bits(), (-0.00001f32).to_bits()));
    assert!(!eq_f32(1.0f32.to_bits(), (-1.0f32).to_bits()));
    assert!(!eq_f32(f32::MAX.to_bits(), f32::MIN.to_bits()));
    assert!(!eq_f32(1.0e30f32.to_bits(), 1.0000001e30f32.to_bits()));
}

#[test]
fn infinity_and_not_a_number_equal_nothing() {
    let odd = [f32::NAN, f32::INFINITY, f32::NEG_INFINITY];
    let all = [f32::NAN, f32::INFINITY, f32::NEG_INFINITY, 0.0, 1.0, f32::MAX];
    for a in odd {
        for b in all {
            assert!(!eq_f32(a.to_bits(), b.to_bits()));
            assert!(!eq_f32(b.to_bits(), a.to_bits()));
        }
    }
}

#[test]
fn the_tolerance_is_half_way_below_epsilon() {
    let eps = f32::from_bits(EPSILON);
    let before = f32::from_bits(EPSILON - 1);
    assert!(!eq_f32(EPSILON, 0));
    assert!(eq_f32(EPSILON - 1, 0));
    assert!(!eq_f32(eps.to_bits(), 0.0f32.to_bits()));
    assert!(eq_f32(before.to_bits(), 0.0f32.to_bits()));
    check(EPSILON, 0);
    check(EPSILON - 1, 0);
    check(1.0f32.to_bits(), (1.0f32 + eps).to_bits());
    check(1.0f32.to_bits(), (1.0f32 - eps).to_bits());
}

#[test]
fn matches_the_rounded_difference_on_random_patterns() {
    let mut state = 0x2545_f491u32;
    for _ in 0..200_000 {
        let a = next(&mut state);
        let b = next(&mut state);
        check(a, b);
        check(a, a);
        check(a, a ^ 0x8000_0000);
    }
}

#[test]
fn matches_the_rounded_difference_near_the_tolerance() {
    let eps = f32::from_bits(EPSILON);
    let mut state = 0x9e37_79b9u32;
    for _ in 0..100_000 {
        let scale = [1.0e-6f32, 1.0e-5, 1.0e-4, 1.0e-3, 1.0e-2, 1.0, 100.0][(next(&mut state) % 7) as usize];
        let a = (next(&mut state) as f32 / u32::MAX as f32 - 0.5) * scale;
        for sign in [1.0f32, -1.0] {
            let b = a + sign * eps;
            for nudge in 0..5u32 {
                check(a.to_bits(), b.to_bits().wrapping_add(nudge).wrapping_sub(2));
                check(b.to_bits().wrapping_add(nudge).wrapping_sub(2), a.to_bits());
            }
        }
    }
}

#[test]
fn matches_the_rounded_difference_across_exponents() {
    let fractions = [0u32, 1, 0x27_c5ab, 0x27_c5ac, 0x27_c5ad, 0x40_0000, 0x7f_ffff];
    let mut patterns = Vec::new();
    for exponent in 0..=255u32 {
        for fraction in fractions {
            patterns.push((exponent << 23) | fraction);
            patterns.push(0x8000_0000 | (exponent << 23) | fraction);
        }
    }
    for &a in &patterns {
        for &b in &patterns {
            check(a, b);
        }
    }
}
