//! Points and directions in three-dimensional space.
//!
//! A [`Point`] is a location and a [`Vector`] a displacement. They hold the
//! same three components and convert into each other freely; only their
//! meaning differs.

use vstd::prelude::*;
use crate::arith::{isqrt, isqrt_u128, lemma_isqrt_is, saturate_i128};
use crate::fixed::{Fixed, SCALE};
use crate::wide::Wide;

verus! {

/// A direction or displacement.
#[derive(Clone, Copy, Debug, PartialEq, Eq, Structural)]
pub struct Vector(pub Fixed, pub Fixed, pub Fixed);

/// A location.
#[derive(Clone, Copy, Debug, PartialEq, Eq, Structural)]
pub struct Point(pub Fixed, pub Fixed, pub Fixed);

/// The sum of the products of three pairs, where it fits in 128 bits.
fn dot_narrow(a: Vector, b: Vector) -> (r: Option<i128>)
    ensures
        r matches Some(v) ==> v == a.spec_dot_exact(b),
{
    let (x, y, z): (i128, i128, i128) = (a.0.raw as i128, a.1.raw as i128, a.2.raw as i128);
    let (u, v, w): (i128, i128, i128) = (b.0.raw as i128, b.1.raw as i128, b.2.raw as i128);
    Some(x.checked_mul(u)?.checked_add(y.checked_mul(v)?)?.checked_add(z.checked_mul(w)?)?)
}

/// The sum of the products of three pairs.
fn dot_wide(a: Vector, b: Vector) -> (r: Wide)
    ensures
        r@ == a.spec_dot_exact(b),
{
    let (x, y, z) = (
        Wide::from_i128(a.0.raw as i128),
        Wide::from_i128(a.1.raw as i128),
        Wide::from_i128(a.2.raw as i128),
    );
    let (u, v, w) = (
        Wide::from_i128(b.0.raw as i128),
        Wide::from_i128(b.1.raw as i128),
        Wide::from_i128(b.2.raw as i128),
    );
    x.mul(&u).add(&y.mul(&v)).add(&z.mul(&w))
}

/// The square of a vector's length is not negative.
proof fn lemma_norm_not_negative(a: Vector)
    ensures
        a.spec_dot_exact(a) >= 0,
{
    assert(a.0@ * a.0@ + a.1@ * a.1@ + a.2@ * a.2@ >= 0) by (nonlinear_arith);
}

/// The cosine, computed in 128 bits; `None` where a step does not fit.
fn cos_narrow(a: Vector, b: Vector) -> (r: Option<Fixed>)
    ensures
        r matches Some(c) ==> c == a.spec_cos(b),
{
    let product: i128 = dot_narrow(a, a)?.checked_mul(dot_narrow(b, b)?)?;
    proof {
        lemma_norm_not_negative(a);
        lemma_norm_not_negative(b);
        assert(a.spec_dot_exact(a) * b.spec_dot_exact(b) >= 0) by (nonlinear_arith)
            requires
                a.spec_dot_exact(a) >= 0,
                b.spec_dot_exact(b) >= 0,
        ;
    }
    let lengths: u128 = isqrt_u128(product as u128);
    proof {
        lemma_isqrt_is(product as int, lengths as int);
    }
    if lengths == 0 {
        return Some(Fixed::zero());
    }
    let q: i128 = dot_narrow(a, b)?.checked_mul(1_000_000)?.checked_div_euclid(lengths as i128)?;
    Some(Fixed { raw: saturate_i128(q) })
}

/// The cosine, computed in numbers of any size.
fn cos_wide(a: Vector, b: Vector) -> (r: Fixed)
    ensures
        r == a.spec_cos(b),
{
    let product = dot_wide(a, a).mul(&dot_wide(b, b));
    proof {
        lemma_norm_not_negative(a);
        lemma_norm_not_negative(b);
        assert(a.spec_dot_exact(a) * b.spec_dot_exact(b) >= 0) by (nonlinear_arith)
            requires
                a.spec_dot_exact(a) >= 0,
                b.spec_dot_exact(b) >= 0,
        ;
    }
    let lengths = product.isqrt();
    proof {
        lemma_isqrt_is(product@, lengths@);
    }
    if lengths.le(&Wide::from_i128(0)) {
        return Fixed::zero();
    }
    let numerator = dot_wide(a, b).mul(&Wide::from_i128(1_000_000));
    Fixed { raw: Wide::div_saturated(&numerator, &lengths) }
}

impl Vector {
    /// The dot product: the sum of the products of the components, rounded once.
    pub open spec fn spec_dot(self, other: Vector) -> Fixed {
        Fixed::spec_dot3(self.0, other.0, self.1, other.1, self.2, other.2)
    }

    /// The Euclidean norm, rounded down.
    pub open spec fn spec_length(self) -> Fixed {
        Fixed::spec_norm3(self.0, self.1, self.2)
    }

    /// Every component multiplied by `factor`.
    pub open spec fn spec_scale(self, factor: Fixed) -> Vector {
        Vector(self.0.spec_mul(factor), self.1.spec_mul(factor), self.2.spec_mul(factor))
    }

    /// Every component multiplied by the same component of `o`.
    pub open spec fn spec_mul(self, o: Vector) -> Vector {
        Vector(self.0.spec_mul(o.0), self.1.spec_mul(o.1), self.2.spec_mul(o.2))
    }

    /// Every component less the same component of `rhs`.
    pub open spec fn spec_sub(self, rhs: Vector) -> Vector {
        Vector(self.0.spec_sub(rhs.0), self.1.spec_sub(rhs.1), self.2.spec_sub(rhs.2))
    }

    /// The vector of length one along `self`; the zero vector where `self`
    /// has no length to divide by.
    pub open spec fn spec_unit(self) -> Vector {
        let length = self.spec_length();
        if length@ == 0 {
            Vector(Fixed::of(0), Fixed::of(0), Fixed::of(0))
        } else {
            Vector(self.0.spec_div(length), self.1.spec_div(length), self.2.spec_div(length))
        }
    }

    /// The sum of the products of the raw components, exactly: the dot
    /// product in units of 10^-12.
    pub open spec fn spec_dot_exact(self, other: Vector) -> int {
        self.0@ * other.0@ + self.1@ * other.1@ + self.2@ * other.2@
    }

    /// The cosine of the angle between the two vectors: their exact dot
    /// product over the product of their exact lengths, rounded once. Zero
    /// where one of the two is the zero vector.
    pub open spec fn spec_cos(self, other: Vector) -> Fixed {
        let lengths = isqrt(self.spec_dot_exact(self) * other.spec_dot_exact(other));
        if lengths == 0 {
            Fixed::of(0)
        } else {
            Fixed::of((self.spec_dot_exact(other) * SCALE) / lengths)
        }
    }

    /// The point that this displacement leads to from the origin.
    pub open spec fn spec_to_point(self) -> Point {
        Point(self.0, self.1, self.2)
    }

    /// The dot product of the two vectors.
    pub fn dot(&self, other: Vector) -> (r: Fixed)
        ensures
            r == self.spec_dot(other),
    {
        Fixed::dot3(self.0, other.0, self.1, other.1, self.2, other.2)
    }

    /// The cosine of the angle between the two vectors, or zero where one of
    /// them is the zero vector.
    pub fn cos(&self, other: Vector) -> (r: Fixed)
        ensures
            r == self.spec_cos(other),
    {
        match cos_narrow(*self, other) {
            Some(r) => r,
            None => cos_wide(*self, other),
        }
    }

    /// The length of the vector.
    pub fn length(&self) -> (r: Fixed)
        ensures
            r == self.spec_length(),
    {
        Fixed::norm3(self.0, self.1, self.2)
    }

    /// The vector of length one in the same direction, or the zero vector
    /// where this vector has no length.
    pub fn unit(&self) -> (r: Vector)
        ensures
            r == self.spec_unit(),
    {
        let length = self.length();
        if length.raw == 0 {
            Vector(Fixed::zero(), Fixed::zero(), Fixed::zero())
        } else {
            Vector(self.0.div(length), self.1.div(length), self.2.div(length))
        }
    }

    /// The vector stretched by `factor`.
    pub fn scale(&self, factor: Fixed) -> (r: Vector)
        ensures
            r == self.spec_scale(factor),
    {
        Vector(self.0.mul(factor), self.1.mul(factor), self.2.mul(factor))
    }

    /// The component-wise product of the two vectors.
    pub fn mul(&self, o: Vector) -> (r: Vector)
        ensures
            r == self.spec_mul(o),
    {
        Vector(self.0.mul(o.0), self.1.mul(o.1), self.2.mul(o.2))
    }

    /// `self - rhs`.
    pub fn sub(self, rhs: Vector) -> (r: Vector)
        ensures
            r == self.spec_sub(rhs),
    {
        Vector(self.0.sub(rhs.0), self.1.sub(rhs.1), self.2.sub(rhs.2))
    }

    /// The point that this displacement leads to from the origin.
    pub fn to_point(self) -> (r: Point)
        ensures
            r == self.spec_to_point(),
    {
        Point(self.0, self.1, self.2)
    }
}

impl From<Point> for Vector {
    fn from(value: Point) -> (r: Vector) {
        Vector(value.0, value.1, value.2)
    }
}

impl vstd::std_specs::convert::FromSpecImpl<Point> for Vector {
    open spec fn obeys_from_spec() -> bool {
        true
    }

    open spec fn from_spec(value: Point) -> Vector {
        value.spec_to_vector()
    }
}

impl std::ops::Sub for Vector {
    type Output = Vector;

    fn sub(self, rhs: Vector) -> (r: Vector) {
        Vector(self.0.sub(rhs.0), self.1.sub(rhs.1), self.2.sub(rhs.2))
    }
}

impl vstd::std_specs::ops::SubSpecImpl for Vector {
    open spec fn obeys_sub_spec() -> bool {
        true
    }

    open spec fn sub_req(self, rhs: Vector) -> bool {
        true
    }

    open spec fn sub_spec(self, rhs: Vector) -> Vector {
        self.spec_sub(rhs)
    }
}

impl Point {
    /// Every coordinate multiplied by `s`.
    pub open spec fn spec_scale(self, s: Fixed) -> Point {
        Point(self.0.spec_mul(s), self.1.spec_mul(s), self.2.spec_mul(s))
    }

    /// The dot product of the two displacements from the origin.
    pub open spec fn spec_dot(self, other: Point) -> Fixed {
        Fixed::spec_dot3(self.0, other.0, self.1, other.1, self.2, other.2)
    }

    /// Every coordinate less the same coordinate of `rhs`.
    pub open spec fn spec_sub(self, rhs: Point) -> Point {
        Point(self.0.spec_sub(rhs.0), self.1.spec_sub(rhs.1), self.2.spec_sub(rhs.2))
    }

    /// Every coordinate plus the same coordinate of `rhs`.
    pub open spec fn spec_add(self, rhs: Point) -> Point {
        Point(self.0.spec_add(rhs.0), self.1.spec_add(rhs.1), self.2.spec_add(rhs.2))
    }

    /// The displacement from the origin to this point.
    pub open spec fn spec_to_vector(self) -> Vector {
        Vector(self.0, self.1, self.2)
    }

    /// The point `(0, 0, 0)`.
    pub fn origin() -> (r: Point)
        ensures
            r == Point(Fixed::of(0), Fixed::of(0), Fixed::of(0)),
    {
        Point(Fixed::zero(), Fixed::zero(), Fixed::zero())
    }

    /// The point at `s` times the distance from the origin.
    pub fn scale(&self, s: Fixed) -> (r: Point)
        ensures
            r == self.spec_scale(s),
    {
        Point(self.0.mul(s), self.1.mul(s), self.2.mul(s))
    }

    /// The dot product of the two displacements from the origin.
    pub fn dot(&self, other: Point) -> (r: Fixed)
        ensures
            r == self.spec_dot(other),
    {
        Fixed::dot3(self.0, other.0, self.1, other.1, self.2, other.2)
    }

    /// The first coordinate.
    pub fn x(&self) -> (r: Fixed)
        ensures
            r == self.0,
    {
        self.0
    }

    /// The second coordinate.
    pub fn y(&self) -> (r: Fixed)
        ensures
            r == self.1,
    {
        self.1
    }

    /// The third coordinate.
    pub fn z(&self) -> (r: Fixed)
        ensures
            r == self.2,
    {
        self.2
    }

    /// `self - rhs`.
    pub fn sub(self, rhs: Point) -> (r: Point)
        ensures
            r == self.spec_sub(rhs),
    {
        Point(self.0.sub(rhs.0), self.1.sub(rhs.1), self.2.sub(rhs.2))
    }

    /// `self + rhs`.
    pub fn add(self, rhs: Point) -> (r: Point)
        ensures
            r == self.spec_add(rhs),
    {
        Point(self.0.add(rhs.0), self.1.add(rhs.1), self.2.add(rhs.2))
    }

    /// The displacement from the origin to this point.
    pub fn to_vector(self) -> (r: Vector)
        ensures
            r == self.spec_to_vector(),
    {
        Vector(self.0, self.1, self.2)
    }
}

impl From<Vector> for Point {
    fn from(value: Vector) -> (r: Point) {
        Point(value.0, value.1, value.2)
    }
}

impl vstd::std_specs::convert::FromSpecImpl<Vector> for Point {
    open spec fn obeys_from_spec() -> bool {
        true
    }

    open spec fn from_spec(value: Vector) -> Point {
        value.spec_to_point()
    }
}

impl std::ops::Sub for Point {
    type Output = Point;

    fn sub(self, rhs: Point) -> (r: Point) {
        Point(self.0.sub(rhs.0), self.1.sub(rhs.1), self.2.sub(rhs.2))
    }
}

impl vstd::std_specs::ops::SubSpecImpl for Point {
    open spec fn obeys_sub_spec() -> bool {
        true
    }

    open spec fn sub_req(self, rhs: Point) -> bool {
        true
    }

    open spec fn sub_spec(self, rhs: Point) -> Point {
        self.spec_sub(rhs)
    }
}

impl std::ops::Add for Point {
    type Output = Point;

    fn add(self, rhs: Point) -> (r: Point) {
        Point(self.0.add(rhs.0), self.1.add(rhs.1), self.2.add(rhs.2))
    }
}

impl vstd::std_specs::ops::AddSpecImpl for Point {
    open spec fn obeys_add_spec() -> bool {
        true
    }

    open spec fn add_req(self, rhs: Point) -> bool {
        true
    }

    open spec fn add_spec(self, rhs: Point) -> Point {
        self.spec_add(rhs)
    }
}

} // verus!
