//! Shapes that a ray can hit.

use vstd::prelude::*;
use crate::arith::{isqrt, isqrt_u128, lemma_isqrt_is, saturate_i128};
use crate::color::Color;
use crate::fixed::{Fixed, SCALE};
use crate::vector::{Point, Vector};
use crate::wide::Wide;

verus! {

/// What the tracer asks of a shape.
pub trait Shape {
    /// The two parameters `t` at which the line `origin + t * direction`
    /// meets the surface, or `None` where it does not.
    spec fn spec_intersect_ray(&self, origin: Point, direction: Vector) -> Option<(Fixed, Fixed)>;

    /// The unit vector that stands on the surface at `p`.
    spec fn spec_normal(&self, p: Point) -> Vector;

    /// Where the line through `camera` along `ray_direction` meets the shape.
    fn intersect_ray(&self, camera: Point, ray_direction: Vector) -> (r: Option<(Fixed, Fixed)>)
        ensures
            r == self.spec_intersect_ray(camera, ray_direction),
    ;

    /// The normal of the surface at the point `p` of the surface.
    fn normal(&self, p: Point) -> (r: Vector)
        ensures
            r == self.spec_normal(p),
    ;
}

/// A sphere with its material.
#[derive(Clone, Copy, Debug, PartialEq, Eq, Structural)]
pub struct Sphere {
    pub center: Point,
    pub radius: Fixed,
    pub color: Color,
    /// The exponent of the specular highlight; `-1` switches the highlight off.
    pub specular: Fixed,
    /// The share of the final color that comes from the reflected ray.
    pub reflective: Fixed,
}

impl Sphere {
    /// The sphere with the given center, radius and material.
    pub fn new(center: Point, radius: Fixed, color: Color, specular: Fixed, reflective: Fixed) -> (r: Sphere)
        ensures
            r.center == center,
            r.radius == radius,
            r.color == color,
            r.specular == specular,
            r.reflective == reflective,
    {
        Sphere { center, radius, color, specular, reflective }
    }

    /// The color of the sphere.
    pub fn color(&self) -> (r: Color)
        ensures
            r == self.color,
    {
        self.color
    }

    /// The coefficients `(a, b, c)` of the quadratic `a t^2 + b t + c = 0`
    /// whose roots are the parameters at which the line meets the sphere:
    /// `a = dot(d, d)`, `b = 2 dot(d, o - c)`, `c = dot(o - c, o - c) - r^2`.
    /// They are taken exactly, over the raw values of all the numbers, so
    /// each is in units of 10^-12.
    pub open spec fn quadratic(&self, origin: Point, direction: Vector) -> (int, int, int) {
        coefficients(
            direction.0@,
            direction.1@,
            direction.2@,
            origin.0@ - self.center.0@,
            origin.1@ - self.center.1@,
            origin.2@ - self.center.2@,
            self.radius@,
        )
    }
}

/// The coefficients of the quadratic for the direction `(dx, dy, dz)`, the
/// vector `(cx, cy, cz)` from the center to the origin, and the radius `r`.
pub open spec fn coefficients(dx: int, dy: int, dz: int, cx: int, cy: int, cz: int, r: int) -> (
    int,
    int,
    int,
) {
    (dx * dx + dy * dy + dz * dz, 2 * (dx * cx + dy * cy + dz * cz), cx * cx + cy * cy + cz * cz - r * r)
}

/// `b^2 - 4ac`.
pub open spec fn discriminant(a: int, b: int, c: int) -> int {
    b * b - 4 * (a * c)
}

/// The two roots `(-b + sqrt(d)) / 2a` and `(-b - sqrt(d)) / 2a` of the
/// quadratic, where it has any: none where `a` is zero or the discriminant
/// `d` is negative. The square root is rounded down to a whole raw unit and
/// each quotient is rounded down to a millionth.
pub open spec fn roots_of(a: int, b: int, c: int) -> Option<(Fixed, Fixed)> {
    let d = discriminant(a, b, c);
    if a == 0 || d < 0 {
        None
    } else {
        Some(
            (
                Fixed::of(((-b + isqrt(d)) * SCALE) / (2 * a)),
                Fixed::of(((-b - isqrt(d)) * SCALE) / (2 * a)),
            ),
        )
    }
}

/// The roots, computed in 128 bits; `None` where a step does not fit.
fn roots_narrow(dx: i64, dy: i64, dz: i64, cx: i128, cy: i128, cz: i128, r: i64) -> (found: Option<
    Option<(Fixed, Fixed)>,
>)
    ensures
        found matches Some(roots) ==> {
            let (a, b, c) = coefficients(
                dx as int,
                dy as int,
                dz as int,
                cx as int,
                cy as int,
                cz as int,
                r as int,
            );
            roots == roots_of(a, b, c)
        },
{
    let (x, y, z): (i128, i128, i128) = (dx as i128, dy as i128, dz as i128);
    let a: i128 = x.checked_mul(x)?.checked_add(y.checked_mul(y)?)?.checked_add(z.checked_mul(z)?)?;
    let half_b: i128 = x.checked_mul(cx)?.checked_add(y.checked_mul(cy)?)?.checked_add(
        z.checked_mul(cz)?,
    )?;
    let b: i128 = half_b.checked_mul(2)?;
    let radius: i128 = r as i128;
    let c: i128 = cx.checked_mul(cx)?.checked_add(cy.checked_mul(cy)?)?.checked_add(
        cz.checked_mul(cz)?,
    )?.checked_sub(radius.checked_mul(radius)?)?;
    let d: i128 = b.checked_mul(b)?.checked_sub(a.checked_mul(c)?.checked_mul(4)?)?;
    if a == 0 || d < 0 {
        return Some(None);
    }
    assert(dx * dx + dy * dy + dz * dz >= 0) by (nonlinear_arith);
    let root: u128 = isqrt_u128(d as u128);
    proof {
        lemma_isqrt_is(d as int, root as int);
    }
    let root: i128 = root as i128;
    let minus_b: i128 = 0i128.checked_sub(b)?;
    let two_a: i128 = a.checked_mul(2)?;
    let q1: i128 = minus_b.checked_add(root)?.checked_mul(1_000_000)?.checked_div_euclid(two_a)?;
    let q2: i128 = minus_b.checked_sub(root)?.checked_mul(1_000_000)?.checked_div_euclid(two_a)?;
    Some(Some((Fixed { raw: saturate_i128(q1) }, Fixed { raw: saturate_i128(q2) })))
}

/// The roots, computed in numbers of any size.
fn roots_wide(dx: i64, dy: i64, dz: i64, cx: i128, cy: i128, cz: i128, r: i64) -> (roots: Option<
    (Fixed, Fixed),
>)
    ensures
        ({
            let (a, b, c) = coefficients(
                dx as int,
                dy as int,
                dz as int,
                cx as int,
                cy as int,
                cz as int,
                r as int,
            );
            roots == roots_of(a, b, c)
        }),
{
    let (x, y, z) = (Wide::from_i128(dx as i128), Wide::from_i128(dy as i128), Wide::from_i128(dz as i128));
    let (u, v, w) = (Wide::from_i128(cx), Wide::from_i128(cy), Wide::from_i128(cz));
    let radius = Wide::from_i128(r as i128);
    let zero = Wide::from_i128(0);
    let a = x.mul(&x).add(&y.mul(&y)).add(&z.mul(&z));
    let half_b = x.mul(&u).add(&y.mul(&v)).add(&z.mul(&w));
    let b = half_b.add(&half_b);
    let c = u.mul(&u).add(&v.mul(&v)).add(&w.mul(&w)).sub(&radius.mul(&radius));
    let d = b.mul(&b).sub(&Wide::from_i128(4).mul(&a.mul(&c)));
    assert(dx * dx + dy * dy + dz * dz >= 0) by (nonlinear_arith);
    if a.le(&zero) || d.is_negative() {
        return None;
    }
    let root = d.isqrt();
    proof {
        lemma_isqrt_is(d@, root@);
    }
    let scale = Wide::from_i128(1_000_000);
    let two_a = a.add(&a);
    let minus_b = zero.sub(&b);
    let t1: i64 = Wide::div_saturated(&minus_b.add(&root).mul(&scale), &two_a);
    let t2: i64 = Wide::div_saturated(&minus_b.sub(&root).mul(&scale), &two_a);
    Some((Fixed { raw: t1 }, Fixed { raw: t2 }))
}

impl Shape for Sphere {
    /// The roots of the exact quadratic of the line and the sphere. A
    /// direction that is the zero vector meets nothing.
    open spec fn spec_intersect_ray(&self, origin: Point, direction: Vector) -> Option<(Fixed, Fixed)> {
        let (a, b, c) = self.quadratic(origin, direction);
        roots_of(a, b, c)
    }

    /// The direction from the center to `p`, at length one.
    open spec fn spec_normal(&self, p: Point) -> Vector {
        p.spec_sub(self.center).spec_to_vector().spec_unit()
    }

    fn intersect_ray(&self, camera: Point, ray_direction: Vector) -> (r: Option<(Fixed, Fixed)>) {
        let (dx, dy, dz): (i64, i64, i64) = (ray_direction.0.raw, ray_direction.1.raw, ray_direction.2.raw);
        let cx: i128 = camera.0.raw as i128 - self.center.0.raw as i128;
        let cy: i128 = camera.1.raw as i128 - self.center.1.raw as i128;
        let cz: i128 = camera.2.raw as i128 - self.center.2.raw as i128;
        match roots_narrow(dx, dy, dz, cx, cy, cz, self.radius.raw) {
            Some(roots) => roots,
            None => roots_wide(dx, dy, dz, cx, cy, cz, self.radius.raw),
        }
    }

    fn normal(&self, p: Point) -> (r: Vector) {
        p.sub(self.center).to_vector().unit()
    }
}

} // verus!
