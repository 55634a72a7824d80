//! Points, vectors and colours as four binary32 numbers.
//!
//! The four components are held as binary32 patterns. The fourth component
//! tells points from vectors: it is one for a point and zero for a vector. A
//! colour is a vector whose first three components are red, green and blue.

use crate::arith::{
    difference, lemma_difference_of_ones, lemma_difference_reversed, lemma_finite_operands,
    lemma_product_by_one, lemma_product_commutes, lemma_product_of_zeros, lemma_root_of_one,
    lemma_sum_of_ones, lemma_sum_of_zeros, lemma_sum_with_zero, minus, over, plus, product, quotient, root, sqrt,
    sum, times,
};
use crate::binary32::{
    is_finite, lemma_negated, lemma_negated_twice, lemma_value_one, lemma_value_zero, negate,
    negated, unit, value, ONE, SIGN, TWO, ZERO,
};
use crate::util::{approx_eq, eq_f32, lemma_approx_eq_reflexive, lemma_approx_eq_same_value};
use vstd::arithmetic::power2::{lemma2_to64, lemma_pow2_pos};
use vstd::prelude::*;

verus! {

/// Four binary32 numbers, each as its pattern.
#[derive(Debug, Clone, Copy)]
pub struct Tuple {
    pub x: u32,
    pub y: u32,
    pub z: u32,
    pub w: u32,
}

impl Tuple {
    /// All four components are finite numbers.
    pub open spec fn is_finite(self) -> bool {
        is_finite(self.x) && is_finite(self.y) && is_finite(self.z) && is_finite(self.w)
    }

    /// The tuple with the sign of every component flipped.
    pub open spec fn negation(self) -> Tuple {
        Tuple { x: negated(self.x), y: negated(self.y), z: negated(self.z), w: negated(self.w) }
    }

    /// Equal up to the tolerance in every component.
    pub open spec fn approx(self, other: Tuple) -> bool {
        approx_eq(self.x, other.x) && approx_eq(self.y, other.y) && approx_eq(self.z, other.z)
            && approx_eq(self.w, other.w)
    }

    /// The tuple of the sums of the components.
    pub open spec fn sum(self, other: Tuple) -> Tuple {
        Tuple {
            x: sum(self.x, other.x),
            y: sum(self.y, other.y),
            z: sum(self.z, other.z),
            w: sum(self.w, other.w),
        }
    }

    /// The tuple of the differences of the components.
    pub open spec fn difference(self, other: Tuple) -> Tuple {
        Tuple {
            x: difference(self.x, other.x),
            y: difference(self.y, other.y),
            z: difference(self.z, other.z),
            w: difference(self.w, other.w),
        }
    }

    /// The tuple with every component multiplied by `factor`.
    pub open spec fn scaled(self, factor: u32) -> Tuple {
        Tuple {
            x: product(self.x, factor),
            y: product(self.y, factor),
            z: product(self.z, factor),
            w: product(self.w, factor),
        }
    }

    /// The tuple with every component divided by `divisor`.
    pub open spec fn divided(self, divisor: u32) -> Tuple {
        Tuple {
            x: quotient(self.x, divisor),
            y: quotient(self.y, divisor),
            z: quotient(self.z, divisor),
            w: quotient(self.w, divisor),
        }
    }

    /// The sum of the products of the components, added up from the first
    /// component to the fourth.
    pub open spec fn dot_product(self, other: Tuple) -> u32 {
        sum(
            sum(sum(product(self.x, other.x), product(self.y, other.y)), product(self.z, other.z)),
            product(self.w, other.w),
        )
    }

    /// The square root of the dot product of the tuple with itself, over all
    /// four components.
    pub open spec fn length(self) -> u32 {
        root(self.dot_product(self))
    }

    /// The tuple divided by its length.
    pub open spec fn normalized(self) -> Tuple {
        self.divided(self.length())
    }

    /// The vector at right angles to both tuples, from their first three
    /// components.
    pub open spec fn cross_product(self, other: Tuple) -> Tuple {
        Tuple {
            x: difference(product(self.y, other.z), product(self.z, other.y)),
            y: difference(product(self.z, other.x), product(self.x, other.z)),
            z: difference(product(self.x, other.y), product(self.y, other.x)),
            w: ZERO,
        }
    }

    /// The fourth component is the number one.
    pub open spec fn point(self) -> bool {
        is_finite(self.w) && value(self.w) == unit()
    }

    /// The fourth component is zero, of either sign.
    pub open spec fn vector(self) -> bool {
        is_finite(self.w) && value(self.w) == 0
    }

    /// The tuple of the four components.
    pub fn new(x: u32, y: u32, z: u32, w: u32) -> (t: Self)
        ensures
            t == (Tuple { x, y, z, w }),
    {
        Tuple { x, y, z, w }
    }

    /// The point of the three coordinates: the fourth component is one.
    pub fn new_point(x: u32, y: u32, z: u32) -> (t: Self)
        ensures
            t == (Tuple { x, y, z, w: ONE }),
            t.point(),
    {
        proof {
            lemma_value_one(ONE);
        }
        Tuple { x, y, z, w: ONE }
    }

    /// The vector of the three coordinates: the fourth component is zero.
    pub fn new_vector(x: u32, y: u32, z: u32) -> (t: Self)
        ensures
            t == (Tuple { x, y, z, w: ZERO }),
            t.vector(),
    {
        proof {
            lemma_value_zero(ZERO);
        }
        Tuple { x, y, z, w: ZERO }
    }

    /// A colour is the vector of its red, green and blue channels.
    pub fn new_colour(r: u32, g: u32, b: u32) -> (t: Self)
        ensures
            t == (Tuple { x: r, y: g, z: b, w: ZERO }),
            t.vector(),
    {
        Tuple::new_vector(r, g, b)
    }

    /// Whether the fourth component is the number one.
    pub fn is_point(&self) -> (r: bool)
        ensures
            r == self.point(),
    {
        proof {
            if is_finite(self.w) {
                lemma_value_one(self.w);
            }
        }
        self.w == ONE
    }

    /// Whether the fourth component is zero, of either sign.
    pub fn is_vector(&self) -> (r: bool)
        ensures
            r == self.vector(),
    {
        proof {
            if is_finite(self.w) {
                lemma_value_zero(self.w);
            }
        }
        self.w == ZERO || self.w == SIGN
    }

    /// Red channel of a colour.
    pub fn r(&self) -> (r: u32)
        ensures
            r == self.x,
    {
        self.x
    }

    /// Green channel of a colour.
    pub fn g(&self) -> (g: u32)
        ensures
            g == self.y,
    {
        self.y
    }

    /// Blue channel of a colour.
    pub fn b(&self) -> (b: u32)
        ensures
            b == self.z,
    {
        self.z
    }

    /// Length of the tuple over all four components.
    pub fn magnitude(&self) -> (length: u32)
        ensures
            length == self.length(),
    {
        sqrt(self.dot(self))
    }

    /// The tuple divided by its length. The components are not numbers when
    /// the length is zero.
    pub fn normalize(&self) -> (unit: Self)
        ensures
            unit == self.normalized(),
    {
        let magnitude = self.magnitude();
        *self / magnitude
    }

    /// Dot product over all four components.
    pub fn dot(&self, rhs: &Tuple) -> (dot: u32)
        ensures
            dot == self.dot_product(*rhs),
    {
        plus(
            plus(plus(times(self.x, rhs.x), times(self.y, rhs.y)), times(self.z, rhs.z)),
            times(self.w, rhs.w),
        )
    }

    /// Cross product of the first three components, as a vector.
    pub fn cross(&self, rhs: &Tuple) -> (cross: Self)
        ensures
            cross == self.cross_product(*rhs),
    {
        Tuple::new_vector(
            minus(times(self.y, rhs.z), times(self.z, rhs.y)),
            minus(times(self.z, rhs.x), times(self.x, rhs.z)),
            minus(times(self.x, rhs.y), times(self.y, rhs.x)),
        )
    }
}

impl PartialEq for Tuple {
    /// Two tuples are equal when each component is equal up to the tolerance.
    fn eq(&self, other: &Self) -> (r: bool) {
        eq_f32(self.x, other.x) && eq_f32(self.y, other.y) && eq_f32(self.z, other.z) && eq_f32(
            self.w,
            other.w,
        )
    }
}

impl vstd::std_specs::cmp::PartialEqSpecImpl for Tuple {
    open spec fn obeys_eq_spec() -> bool {
        true
    }

    open spec fn eq_spec(&self, other: &Self) -> bool {
        self.approx(*other)
    }
}

impl core::ops::Add for Tuple {
    type Output = Tuple;

    /// Adds component by component, the fourth like the others.
    fn add(self, other: Tuple) -> (r: Tuple) {
        Tuple {
            x: plus(self.x, other.x),
            y: plus(self.y, other.y),
            z: plus(self.z, other.z),
            w: plus(self.w, other.w),
        }
    }
}

impl vstd::std_specs::ops::AddSpecImpl for Tuple {
    open spec fn obeys_add_spec() -> bool {
        true
    }

    open spec fn add_req(self, other: Tuple) -> bool {
        true
    }

    open spec fn add_spec(self, other: Tuple) -> Tuple {
        self.sum(other)
    }
}

impl core::ops::Sub for Tuple {
    type Output = Tuple;

    /// Subtracts component by component, the fourth like the others.
    fn sub(self, other: Tuple) -> (r: Tuple) {
        Tuple {
            x: minus(self.x, other.x),
            y: minus(self.y, other.y),
            z: minus(self.z, other.z),
            w: minus(self.w, other.w),
        }
    }
}

impl vstd::std_specs::ops::SubSpecImpl for Tuple {
    open spec fn obeys_sub_spec() -> bool {
        true
    }

    open spec fn sub_req(self, other: Tuple) -> bool {
        true
    }

    open spec fn sub_spec(self, other: Tuple) -> Tuple {
        self.difference(other)
    }
}

impl core::ops::Mul<u32> for Tuple {
    type Output = Tuple;

    /// Multiplies every component by the binary32 number `rhs`.
    fn mul(self, rhs: u32) -> (r: Tuple) {
        Tuple::new(times(self.x, rhs), times(self.y, rhs), times(self.z, rhs), times(self.w, rhs))
    }
}

impl vstd::std_specs::ops::MulSpecImpl<u32> for Tuple {
    open spec fn obeys_mul_spec() -> bool {
        true
    }

    open spec fn mul_req(self, rhs: u32) -> bool {
        true
    }

    open spec fn mul_spec(self, rhs: u32) -> Tuple {
        self.scaled(rhs)
    }
}

impl core::ops::Div<u32> for Tuple {
    type Output = Tuple;

    /// Divides every component by the binary32 number `rhs`. A divisor of
    /// zero gives components that are infinite or not numbers.
    fn div(self, rhs: u32) -> (r: Tuple) {
        Tuple::new(over(self.x, rhs), over(self.y, rhs), over(self.z, rhs), over(self.w, rhs))
    }
}

impl vstd::std_specs::ops::DivSpecImpl<u32> for Tuple {
    open spec fn obeys_div_spec() -> bool {
        true
    }

    open spec fn div_req(self, rhs: u32) -> bool {
        true
    }

    open spec fn div_spec(self, rhs: u32) -> Tuple {
        self.divided(rhs)
    }
}

impl core::ops::Neg for Tuple {
    type Output = Tuple;

    /// Flips the sign of every component.
    fn neg(self) -> (r: Tuple) {
        Tuple::new(negate(self.x), negate(self.y), negate(self.z), negate(self.w))
    }
}

impl vstd::std_specs::ops::NegSpecImpl for Tuple {
    open spec fn obeys_neg_spec() -> bool {
        true
    }

    open spec fn neg_req(self) -> bool {
        true
    }

    open spec fn neg_spec(self) -> Tuple {
        self.negation()
    }
}

/// Negating twice gives the tuple back, pattern for pattern; so a finite
/// tuple equals its double negation up to the tolerance as well.
pub proof fn lemma_double_negation(a: Tuple)
    ensures
        a.negation().negation() == a,
        a.is_finite() ==> a.negation().negation().approx(a),
{
    lemma_negated_twice(a.x);
    lemma_negated_twice(a.y);
    lemma_negated_twice(a.z);
    lemma_negated_twice(a.w);
    if a.is_finite() {
        lemma_approx_eq_reflexive(a.x);
        lemma_approx_eq_reflexive(a.y);
        lemma_approx_eq_reflexive(a.z);
        lemma_approx_eq_reflexive(a.w);
    }
}

/// Negation turns the value of every finite component into its opposite and
/// keeps every component that is not finite as it is but for the sign.
pub proof fn lemma_negation_values(a: Tuple)
    ensures
        a.negation().is_finite() == a.is_finite(),
        value(a.negation().x) == -value(a.x),
        value(a.negation().y) == -value(a.y),
        value(a.negation().z) == -value(a.z),
        value(a.negation().w) == -value(a.w),
{
    lemma_negated(a.x);
    lemma_negated(a.y);
    lemma_negated(a.z);
    lemma_negated(a.w);
}

/// A finite tuple equals itself, and equality does not depend on the order.
pub proof fn lemma_approx_reflexive_symmetric(a: Tuple, b: Tuple)
    ensures
        a.is_finite() ==> a.approx(a),
        a.approx(b) == b.approx(a),
{
    if a.is_finite() {
        lemma_approx_eq_reflexive(a.x);
        lemma_approx_eq_reflexive(a.y);
        lemma_approx_eq_reflexive(a.z);
        lemma_approx_eq_reflexive(a.w);
    }
}

/// The fourth component of a sum or a difference is the sum or the
/// difference of the fourth components, with no regard to what the tuples
/// stand for. So a point less a point is a vector, a point less a vector is a
/// point, a vector less a vector is a vector, a point and a vector add up to
/// a point, and two points add up to a tuple with a fourth component of two.
pub proof fn lemma_kinds_of_sums(a: Tuple, b: Tuple)
    ensures
        a.sum(b).w == sum(a.w, b.w),
        a.difference(b).w == difference(a.w, b.w),
        a.point() && b.point() ==> a.difference(b).vector() && a.difference(b).w == ZERO,
        a.point() && b.vector() ==> a.difference(b).point() && a.difference(b).w == ONE,
        a.vector() && b.vector() ==> a.difference(b).vector(),
        a.point() && b.vector() ==> a.sum(b).point(),
        a.vector() && b.point() ==> a.sum(b).point(),
        a.vector() && b.vector() ==> a.sum(b).vector(),
        a.point() && b.point() ==> a.sum(b).w == TWO,
{
    lemma2_to64();
    lemma_value_one(ONE);
    lemma_pow2_pos(149);
    if is_finite(a.w) {
        lemma_value_one(a.w);
        lemma_value_zero(a.w);
    }
    if is_finite(b.w) {
        lemma_value_one(b.w);
        lemma_value_zero(b.w);
    }
    if a.point() && b.point() {
        lemma_difference_of_ones();
        lemma_value_zero(ZERO);
        lemma_sum_of_ones();
    }
    if a.point() && b.vector() {
        lemma_sum_with_zero(ONE, b.w);
    }
    if a.vector() && b.point() {
        lemma_sum_with_zero(ONE, a.w);
    }
    if a.vector() && b.vector() {
        lemma_sum_of_zeros(a.w, b.w);
        lemma_value_zero(sum(a.w, b.w));
        lemma_value_zero(difference(a.w, b.w));
    }
}

/// The three unit vectors along the axes have the length one, pattern for
/// pattern.
pub proof fn lemma_length_of_unit_axes()
    ensures
        (Tuple { x: ONE, y: ZERO, z: ZERO, w: ZERO }).length() == ONE,
        (Tuple { x: ZERO, y: ONE, z: ZERO, w: ZERO }).length() == ONE,
        (Tuple { x: ZERO, y: ZERO, z: ONE, w: ZERO }).length() == ONE,
{
    lemma_value_one(ONE);
    lemma_pow2_pos(149);
    lemma_product_by_one(ONE);
    lemma_product_of_zeros(ZERO, ZERO);
    lemma_sum_with_zero(ONE, ZERO);
    lemma_sum_of_zeros(ZERO, ZERO);
    lemma_root_of_one();
}

/// The cross product the other way round is the opposite vector: where the
/// cross product is finite, it equals the negation of the reversed cross
/// product up to the tolerance.
#[verifier::rlimit(50)]
pub proof fn lemma_cross_reversed(a: Tuple, b: Tuple)
    requires
        a.cross_product(b).is_finite(),
    ensures
        b.cross_product(a).is_finite(),
        a.cross_product(b).approx(b.cross_product(a).negation()),
{
    lemma_opposite_differences(product(a.y, b.z), product(a.z, b.y));
    lemma_opposite_differences(product(a.z, b.x), product(a.x, b.z));
    lemma_opposite_differences(product(a.x, b.y), product(a.y, b.x));
    lemma_product_commutes(a.y, b.z);
    lemma_product_commutes(a.z, b.y);
    lemma_product_commutes(a.z, b.x);
    lemma_product_commutes(a.x, b.z);
    lemma_product_commutes(a.x, b.y);
    lemma_product_commutes(a.y, b.x);
    lemma_value_zero(ZERO);
    lemma_value_zero(SIGN);
    lemma_approx_eq_same_value(ZERO, SIGN);
}

/// A finite difference equals the negation of the difference the other way
/// round up to the tolerance.
proof fn lemma_opposite_differences(p: u32, q: u32)
    requires
        is_finite(difference(p, q)),
    ensures
        is_finite(difference(q, p)),
        approx_eq(difference(p, q), negated(difference(q, p))),
{
    lemma_finite_operands(p, q);
    lemma_difference_reversed(p, q);
    let forth = difference(p, q);
    let back = difference(q, p);
    lemma_negated(forth);
    lemma_negated(back);
    if value(p) != value(q) {
        lemma_negated_twice(forth);
        lemma_approx_eq_reflexive(forth);
    } else {
        lemma_value_zero(forth);
        lemma_value_zero(back);
        lemma_approx_eq_same_value(forth, negated(back));
    }
}

} // verus!
