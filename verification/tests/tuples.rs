use raytrace::binary32::{negate, ONE, SIGN, TWO, ZERO};
use raytrace::tuples::Tuple;
use raytrace::util::eq_f32;

fn tuple(x: f32, y: f32, z: f32, w: f32) -> Tuple {
    Tuple::new(x.to_bits(), y.to_bits(), z.to_bits(), w.to_bits())
}

fn point(x: f32, y: f32, z: f32) -> Tuple {
    Tuple::new_point(x.to_bits(), y.to_bits(), z.to_bits())
}

fn vector(x: f32, y: f32, z: f32) -> Tuple {
    Tuple::new_vector(x.to_bits(), y.to_bits(), z.to_bits())
}

#[test]
fn test_is_point() {
    assert!(tuple(0.0, 0.0, 0.0, 1.0).is_point());
    assert!(!tuple(0.0, 0.0, 0.0, 0.0).is_point());
}

#[test]
fn test_is_vector() {
    assert!(!tuple(0.0, 0.0, 0.0, 1.0).is_vector());
    assert!(tuple(0.0, 0.0, 0.0, 0.0).is_vector());
}

#[test]
fn adding_tuples() {
    let a1 = tuple(3.0, -2.0, 5.0, 1.0);
    let a2 = tuple(-2.0, 3.0, 1.0, 0.0);
    assert_eq!(
        a1 + a2,
        tuple(1.0, 1.0, 6.0, 1.0),
        "Testing addition of {:?} + {:?}",
        a1,
        a2
    );
}

#[test]
fn subtraction() {
    //Subtracting points
    let p1 = point(3.0, 2.0, 1.0);
    let p2 = point(5.0, 6.0, 7.0);
    assert_eq!(
        p1 - p2,
        vector(-2.0, -4.0, -6.0),
        "Testing subtraction of points {:?} - {:?}",
        p1,
        p2
    );

    //Subtracting point and vectors
    let p1 = point(3.0, 2.0, 1.0);
    let v1 = vector(5.0, 6.0, 7.0);
    assert_eq!(
        p1 - v1,
        point(-2.0, -4.0, -6.0),
        "Testing point - vector"
    );

    //Subtracting two vectors
    let v1 = vector(3.0, 2.0, 1.0);
    let v2 = vector(5.0, 6.0, 7.0);
    assert_eq!(
        v1 - v2,
        vector(-2.0, -4.0, -6.0),
        "Testing vector - vector = vector"
    );
}

#[test]
fn multiplication() {
    let t1 = tuple(1.0, -2.0, 3.0, -4.0);
    assert_eq!(t1 * 3.5f32.to_bits(), tuple(3.5, -7.0, 10.5, -14.0));
    assert_eq!(t1 * 0.5f32.to_bits(), tuple(0.5, -1.0, 1.5, -2.0));
}

#[test]
fn division() {
    let t1 = tuple(1.0, -2.0, 3.0, -4.0);
    assert_eq!(t1 / 2.0f32.to_bits(), tuple(0.5, -1.0, 1.5, -2.0));
}

#[test]
fn magnitude() {
    assert_eq!(f32::from_bits(vector(1.0, 0.0, 0.0).magnitude()), 1.0);
    assert_eq!(f32::from_bits(vector(0.0, 1.0, 0.0).magnitude()), 1.0);
    assert_eq!(f32::from_bits(vector(0.0, 0.0, 1.0).magnitude()), 1.0);
    assert_eq!(
        f32::from_bits(vector(1.0, 2.0, 3.0).magnitude()),
        f32::sqrt(14.0)
    );
    assert_eq!(
        f32::from_bits(vector(-1.0, -2.0, -3.0).magnitude()),
        f32::sqrt(14.0)
    );
}

#[test]
fn normalize() {
    assert_eq!(
        vector(4.0, 0.0, 0.0).normalize(),
        vector(1.0, 0.0, 0.0)
    );
    assert_eq!(
        vector(1.0, 2.0, 3.0).normalize(),
        vector(0.26726, 0.53452, 0.80178)
    );
    assert!(eq_f32(
        vector(1.0, 2.0, 3.0).normalize().magnitude(),
        1.0f32.to_bits()
    ))
}

#[test]
fn dot() {
    let t1 = vector(1.0, 2.0, 3.0);
    let t2 = vector(2.0, 3.0, 4.0);

    assert!(eq_f32(t1.dot(&t2), 20.0f32.to_bits()))
}

#[test]
fn cross() {
    let t1 = vector(1.0, 2.0, 3.0);
    let t2 = vector(2.0, 3.0, 4.0);

    assert_eq!(t1.cross(&t2), vector(-1.0, 2.0, -1.0));
    assert_eq!(t2.cross(&t1), vector(1.0, -2.0, 1.0));
}

#[test]
fn negation() {
    let t1 = tuple(1.0, -2.0, 3.0, -4.0);
    assert_eq!(-t1, tuple(-1.0, 2.0, -3.0, 4.0))
}

#[test]
fn constants_are_the_patterns_of_one_and_zero() {
    assert_eq!(ONE, 1.0f32.to_bits());
    assert_eq!(ZERO, 0.0f32.to_bits());
    assert_eq!(SIGN, (-0.0f32).to_bits());
}

#[test]
fn new_keeps_the_four_components() {
    let t = tuple(4.3, -4.2, 3.1, 1.0);
    assert_eq!(f32::from_bits(t.x), 4.3);
    assert_eq!(f32::from_bits(t.y), -4.2);
    assert_eq!(f32::from_bits(t.z), 3.1);
    assert_eq!(f32::from_bits(t.w), 1.0);
}

#[test]
fn new_point_has_w_one() {
    let p = point(4.0, -4.0, 3.0);
    assert_eq!(f32::from_bits(p.w), 1.0);
    assert_eq!(f32::from_bits(p.x), 4.0);
    assert_eq!(f32::from_bits(p.y), -4.0);
    assert_eq!(f32::from_bits(p.z), 3.0);
    assert!(p.is_point());
    assert!(!p.is_vector());
    assert_eq!(p, tuple(4.0, -4.0, 3.0, 1.0));
}

#[test]
fn new_vector_has_w_zero() {
    let v = vector(4.0, -4.0, 3.0);
    assert_eq!(f32::from_bits(v.w), 0.0);
    assert!(v.is_vector());
    assert!(!v.is_point());
    assert_eq!(v, tuple(4.0, -4.0, 3.0, 0.0));
}

#[test]
fn new_colour_is_a_vector_of_its_channels() {
    let c = Tuple::new_colour((-0.5f32).to_bits(), 0.4f32.to_bits(), 1.7f32.to_bits());
    assert_eq!(f32::from_bits(c.r()), -0.5);
    assert_eq!(f32::from_bits(c.g()), 0.4);
    assert_eq!(f32::from_bits(c.b()), 1.7);
    assert_eq!(c.r(), c.x);
    assert_eq!(c.g(), c.y);
    assert_eq!(c.b(), c.z);
    assert_eq!(f32::from_bits(c.w), 0.0);
    assert!(c.is_vector());
}

#[test]
fn negative_zero_w_is_a_vector() {
    assert!(tuple(1.0, 2.0, 3.0, -0.0).is_vector());
    assert!(!tuple(1.0, 2.0, 3.0, -0.0).is_point());
}

#[test]
fn other_w_is_neither_point_nor_vector() {
    for w in [2.0f32, -1.0, 0.5, 1.0000001, 0.99999994, 1e-45, f32::NAN, f32::INFINITY] {
        let t = tuple(1.0, 2.0, 3.0, w);
        assert_eq!(t.is_point(), w == 1.0, "w = {}", w);
        assert_eq!(t.is_vector(), w == 0.0, "w = {}", w);
    }
}

#[test]
fn negate_flips_the_sign_as_the_hardware_does() {
    let samples = [
        0.0f32,
        -0.0,
        1.0,
        -1.0,
        3.5,
        -7.25,
        1e-45,
        -1e-45,
        f32::MAX,
        f32::MIN,
        f32::MIN_POSITIVE,
        f32::INFINITY,
        f32::NEG_INFINITY,
        f32::NAN,
    ];
    for s in samples {
        assert_eq!(negate(s.to_bits()), (-s).to_bits());
    }
}

#[test]
fn double_negation_gives_the_tuple_back() {
    let samples = [
        tuple(1.0, -2.0, 3.0, -4.0),
        tuple(0.0, -0.0, 1e-45, f32::MAX),
        tuple(f32::INFINITY, f32::NEG_INFINITY, f32::NAN, 1.0),
    ];
    for t in samples {
        let back = -(-t);
        assert_eq!(back.x, t.x);
        assert_eq!(back.y, t.y);
        assert_eq!(back.z, t.z);
        assert_eq!(back.w, t.w);
    }
    let finite = tuple(1.0, -2.0, 3.0, -4.0);
    assert_eq!(-(-finite), finite);
}

#[test]
fn equality_tolerates_small_differences() {
    let a = tuple(1.0, 2.0, 3.0, 0.0);
    assert_eq!(a, tuple(1.000001, 2.000001, 2.999999, 0.0));
    assert_eq!(a, tuple(1.0, 2.0, 3.0, 0.000009));
    assert_ne!(a, tuple(1.0001, 2.0, 3.0, 0.0));
    assert_ne!(a, tuple(1.0, 2.0001, 3.0, 0.0));
    assert_ne!(a, tuple(1.0, 2.0, 3.0001, 0.0));
    assert_ne!(a, tuple(1.0, 2.0, 3.0, 0.0001));
    assert_ne!(a, tuple(1.0, 2.0, 3.0, 1.0));
}

#[test]
fn equality_fails_on_not_a_number_and_infinity() {
    let nan = tuple(f32::NAN, 0.0, 0.0, 0.0);
    assert_ne!(nan, nan);
    let inf = tuple(0.0, f32::INFINITY, 0.0, 0.0);
    assert_ne!(inf, inf);
    assert_ne!(-(-nan), nan);
}

#[test]
fn equality_matches_the_comparison_of_the_components() {
    let values = [0.0f32, -0.0, 1.0, 1.00001, 1.000009, 0.99999, -1.0, 2.5e-6, 1.0e-5, 9.9e-6];
    for &x in &values {
        for &y in &values {
            let expected = (x - y).abs() < 0.00001;
            assert_eq!(tuple(x, 1.0, 2.0, 3.0) == tuple(y, 1.0, 2.0, 3.0), expected, "{} {}", x, y);
            assert_eq!(tuple(1.0, x, 2.0, 3.0) == tuple(1.0, y, 2.0, 3.0), expected, "{} {}", x, y);
            assert_eq!(tuple(1.0, 2.0, x, 3.0) == tuple(1.0, 2.0, y, 3.0), expected, "{} {}", x, y);
            assert_eq!(tuple(1.0, 2.0, 3.0, x) == tuple(1.0, 2.0, 3.0, y), expected, "{} {}", x, y);
        }
    }
}

fn float_tuples() -> Vec<[f32; 4]> {
    let mut state = 0x1f83_d9abu32;
    let mut next = move || {
        state ^= state << 13;
        state ^= state >> 17;
        state ^= state << 5;
        (state as f32 / u32::MAX as f32 - 0.5) * 16.0
    };
    let mut tuples = vec![
        [0.0, 0.0, 0.0, 0.0],
        [1.0, 0.0, 0.0, 0.0],
        [0.0, 1.0, 0.0, 0.0],
        [0.0, 0.0, 1.0, 0.0],
        [1.0, 2.0, 3.0, 0.0],
        [3.0, -2.0, 5.0, 1.0],
        [1.0e20, -1.0e-20, 3.0e38, 1.0],
        [f32::MAX, f32::MIN_POSITIVE, -0.0, 1.0e-45],
    ];
    for _ in 0..2000 {
        tuples.push([next(), next(), next(), next()]);
    }
    tuples
}

fn from_array(t: [f32; 4]) -> Tuple {
    tuple(t[0], t[1], t[2], t[3])
}

fn assert_same(got: u32, expected: f32, what: &str) {
    if expected.is_nan() {
        assert!(f32::from_bits(got).is_nan(), "{}", what);
    } else {
        assert_eq!(got, expected.to_bits(), "{}", what);
    }
}

#[test]
fn sums_and_differences_go_component_by_component() {
    let tuples = float_tuples();
    for pair in tuples.windows(2) {
        let (a, b) = (pair[0], pair[1]);
        let sum = from_array(a) + from_array(b);
        let difference = from_array(a) - from_array(b);
        let sums = [sum.x, sum.y, sum.z, sum.w];
        let differences = [difference.x, difference.y, difference.z, difference.w];
        for i in 0..4 {
            assert_same(sums[i], a[i] + b[i], "sum");
            assert_same(differences[i], a[i] - b[i], "difference");
        }
    }
}

#[test]
fn scaling_and_dividing_go_component_by_component() {
    let tuples = float_tuples();
    for pair in tuples.windows(2) {
        let (a, s) = (pair[0], pair[1][0]);
        let scaled = from_array(a) * s.to_bits();
        let divided = from_array(a) / s.to_bits();
        let products = [scaled.x, scaled.y, scaled.z, scaled.w];
        let quotients = [divided.x, divided.y, divided.z, divided.w];
        for i in 0..4 {
            assert_same(products[i], a[i] * s, "product");
            assert_same(quotients[i], a[i] / s, "quotient");
        }
    }
}

#[test]
fn dividing_by_zero_gives_numbers_that_are_not_finite() {
    let t = tuple(1.0, -2.0, 0.0, 4.0) / 0.0f32.to_bits();
    assert_eq!(f32::from_bits(t.x), f32::INFINITY);
    assert_eq!(f32::from_bits(t.y), f32::NEG_INFINITY);
    assert!(f32::from_bits(t.z).is_nan());
    assert_eq!(f32::from_bits(t.w), f32::INFINITY);
    let n = vector(0.0, 0.0, 0.0).normalize();
    assert!(f32::from_bits(n.x).is_nan());
    assert!(f32::from_bits(n.y).is_nan());
    assert!(f32::from_bits(n.z).is_nan());
    assert!(f32::from_bits(n.w).is_nan());
}

#[test]
fn lengths_and_products_match_the_hardware() {
    let tuples = float_tuples();
    for pair in tuples.windows(2) {
        let (a, b) = (pair[0], pair[1]);
        let length = ((a[0] * a[0]) + (a[1] * a[1]) + (a[2] * a[2]) + (a[3] * a[3])).sqrt();
        assert_same(from_array(a).magnitude(), length, "magnitude");
        let dot = (a[0] * b[0]) + (a[1] * b[1]) + (a[2] * b[2]) + (a[3] * b[3]);
        assert_same(from_array(a).dot(&from_array(b)), dot, "dot");
        let cross = from_array(a).cross(&from_array(b));
        assert_same(cross.x, (a[1] * b[2]) - (a[2] * b[1]), "cross x");
        assert_same(cross.y, (a[2] * b[0]) - (a[0] * b[2]), "cross y");
        assert_same(cross.z, (a[0] * b[1]) - (a[1] * b[0]), "cross z");
        assert_eq!(cross.w, 0);
        let unit = from_array(a).normalize();
        assert_same(unit.x, a[0] / length, "normalize x");
        assert_same(unit.y, a[1] / length, "normalize y");
        assert_same(unit.z, a[2] / length, "normalize z");
        assert_same(unit.w, a[3] / length, "normalize w");
    }
}

#[test]
fn magnitude_counts_the_fourth_component() {
    assert_eq!(f32::from_bits(tuple(0.0, 0.0, 0.0, 1.0).magnitude()), 1.0);
    assert_eq!(f32::from_bits(tuple(1.0, 1.0, 1.0, 1.0).magnitude()), 2.0);
    assert_eq!(f32::from_bits(tuple(2.0, 0.0, 0.0, 0.0).magnitude()), 2.0);
}

#[test]
fn dot_counts_the_fourth_component() {
    let a = tuple(1.0, 2.0, 3.0, 4.0);
    let b = tuple(2.0, 3.0, 4.0, 5.0);
    assert_eq!(f32::from_bits(a.dot(&b)), 40.0);
}

#[test]
fn sums_and_differences_of_points_and_vectors() {
    let p = point(3.0, 2.0, 1.0);
    let q = point(5.0, 6.0, 7.0);
    let v = vector(5.0, 6.0, 7.0);
    let u = vector(-1.0, 0.5, 2.0);
    assert!((p - q).is_vector());
    assert!((p - v).is_point());
    assert!((v - u).is_vector());
    assert!((p + v).is_point());
    assert!((v + p).is_point());
    assert!((v + u).is_vector());
    assert_eq!((p + q).w, TWO);
    assert_eq!(f32::from_bits((p + q).w), 2.0);
    assert!(!(p + q).is_point());
    assert!(!(p + q).is_vector());
    assert_eq!((p - q).w, ZERO);
    assert_eq!((p - v).w, ONE);
}

#[test]
fn length_of_a_normalized_vector_is_one() {
    let mut state = 0x5be0_cd19u32;
    let mut next = move || {
        state ^= state << 13;
        state ^= state >> 17;
        state ^= state << 5;
        state
    };
    let mut checked = 0;
    for _ in 0..30_000 {
        // The components are zero or lie in a window of sizes between 2^-63
        // and 2^61, the largest less than 2^59 times the smallest.
        let base = 64 + next() % 66;
        let mut t = [0.0f32; 3];
        for c in t.iter_mut() {
            let bits = next();
            if bits % 8 != 0 {
                let exponent = base + next() % 59;
                *c = f32::from_bits((bits & 0x8000_0000) | (exponent << 23) | (next() & 0x7f_ffff));
                assert!(c.abs() >= 2.0f32.powi(-63) && c.abs() < 2.0f32.powi(61));
            }
        }
        if t != [0.0, 0.0, 0.0] {
            let v = vector(t[0], t[1], t[2]);
            assert!(eq_f32(v.normalize().magnitude(), 1.0f32.to_bits()), "{:?}", t);
            checked += 1;
        }
    }
    assert!(checked > 29_000);
    for t in [
        [1.0, 2.0, 3.0],
        [4.0, 0.0, 0.0],
        [0.0, -1.0e-6, 0.0],
        [1.0e6, 1.0e-6, -3.5],
        [2.0f32.powi(-63), 0.0, 0.0],
        [2.0f32.powi(-63), 2.0f32.powi(-5), -2.0f32.powi(-4)],
        [2.0f32.powi(60), 2.0f32.powi(2), 1.9999999 * 2.0f32.powi(60)],
    ] {
        let v = vector(t[0], t[1], t[2]);
        assert!(eq_f32(v.normalize().magnitude(), 1.0f32.to_bits()), "{:?}", t);
    }
}

#[test]
fn normalizing_loses_the_length_where_squares_leave_the_format() {
    // The square of the component is too large for the format.
    let large = vector(3.0e38, 0.0, 0.0);
    assert_eq!(f32::from_bits(large.magnitude()), f32::INFINITY);
    assert_eq!(f32::from_bits(large.normalize().magnitude()), 0.0);
    assert!(!eq_f32(large.normalize().magnitude(), 1.0f32.to_bits()));
    // The square of the component is too small for the format.
    let small = vector(1.0e-30, 0.0, 0.0);
    assert_eq!(f32::from_bits(small.magnitude()), 0.0);
    assert_eq!(f32::from_bits(small.normalize().x), f32::INFINITY);
    assert!(!eq_f32(small.normalize().magnitude(), 1.0f32.to_bits()));
}

#[test]
fn cross_product_of_large_vectors_is_not_finite() {
    let a = vector(1.0e30, 1.0e30, 0.0);
    let b = vector(1.0e30, 0.0, 1.0e30);
    let forth = a.cross(&b);
    let back = b.cross(&a);
    assert_eq!(f32::from_bits(forth.x), f32::INFINITY);
    assert_eq!(f32::from_bits(back.x), f32::NEG_INFINITY);
    assert_ne!(forth, -back);
}

#[test]
fn cross_product_the_other_way_round_is_the_negation() {
    let tuples = float_tuples();
    for pair in tuples.windows(2) {
        let a = vector(pair[0][0], pair[0][1], pair[0][2]);
        let b = vector(pair[1][0], pair[1][1], pair[1][2]);
        let forth = a.cross(&b);
        let back = b.cross(&a);
        let finite = [forth.x, forth.y, forth.z].iter().all(|c| f32::from_bits(*c).is_finite());
        if finite {
            assert_eq!(forth, -back);
        }
    }
}
