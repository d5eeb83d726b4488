//! What holds of the renderer as a whole, proved from the definitions of its parts.

use vstd::prelude::*;
use vstd::arithmetic::div_mod::{
    lemma_div_is_ordered, lemma_div_multiples_vanish, lemma_fundamental_div_mod,
    lemma_fundamental_div_mod_converse,
};
use crate::arith::{
    isqrt, lemma_div_between, lemma_floor_div_doubled, lemma_floor_div_of_sum,
    lemma_isqrt_exists, lemma_isqrt_monotone, lemma_isqrt_of_square,
};
use crate::color::Color;
use crate::fixed::{Fixed, SCALE};
use crate::light::Light;
use crate::ppm::{encodes, lemma_text_is_of_one_canvas, ppm_text};
use crate::raytracer::{
    hits_at, is_closest, lemma_closest_is, lemma_closest_meets, spec_closest_intersection,
    spec_compute_lighting, spec_rendered, spec_trace_ray, Viewport,
};
use crate::shape::{discriminant, Shape, Sphere};
use crate::vector::{Point, Vector};

verus! {

/// A ray that starts outside a sphere and does not point towards it does
/// not meet the sphere: where the line through the ray meets the sphere at
/// all, it does so at parameters that are not positive, that is behind the
/// origin of the ray. With `(a, b, c)` the coefficients of the quadratic,
/// the origin lies outside where `c > 0`, and the direction does not point
/// towards the center where `b >= 0`.
pub proof fn lemma_ray_pointing_away_misses(sphere: Sphere, origin: Point, direction: Vector)
    requires
        sphere.quadratic(origin, direction).2 > 0,
        sphere.quadratic(origin, direction).1 >= 0,
    ensures
        match sphere.spec_intersect_ray(origin, direction) {
            None => true,
            Some((t1, t2)) => t1@ <= 0 && t2@ <= 0,
        },
        forall|t_min: Fixed, t_max: Fixed, t: Fixed|
            t_min@ > 0 ==> !hits_at(sphere, origin, direction, t_min, t_max, t),
{
    let (a, b, c) = sphere.quadratic(origin, direction);
    let d = discriminant(a, b, c);
    let scale = SCALE as int;
    lemma_leading_coefficient(sphere, origin, direction);
    if a != 0 && d >= 0 {
        assert(a * c >= 0) by (nonlinear_arith)
            requires
                a > 0,
                c > 0,
        ;
        lemma_isqrt_monotone(d, b * b);
        lemma_isqrt_of_square(b);
        lemma_isqrt_exists(d as nat);
        let root = isqrt(d);
        assert(0 <= root <= b);
        assert((-b + root) * scale <= 0 && (-b - root) * scale <= 0) by (nonlinear_arith)
            requires
                -b + root <= 0,
                -b - root <= 0,
                scale > 0,
        ;
        lemma_div_between((-b + root) * scale, 2 * a);
        lemma_div_between((-b - root) * scale, 2 * a);
    }
}

/// The leading coefficient of the quadratic is the squared length of the
/// direction: it is never negative.
pub proof fn lemma_leading_coefficient(sphere: Sphere, origin: Point, direction: Vector)
    ensures
        sphere.quadratic(origin, direction).0 >= 0,
{
    let (x, y, z) = (direction.0@, direction.1@, direction.2@);
    assert(x * x + y * y + z * z >= 0) by (nonlinear_arith);
}

/// Neither of the two roots of the quadratic leaves the range of the numbers.
pub open spec fn roots_in_range(a: int, b: int, c: int) -> bool {
    let root = isqrt(discriminant(a, b, c));
    &&& i64::MIN <= ((-b - root) * SCALE) / (2 * a)
    &&& ((-b + root) * SCALE) / (2 * a) <= i64::MAX
}

/// The two parameters at which a line meets a sphere lie symmetric about
/// the parameter of the point of the line that is nearest to the center:
/// with `a` and `b` the coefficients of the quadratic, they add up to
/// `-b / a`, that is to `2 * dot(direction, center - origin) / dot(direction,
/// direction)`. Each of the two is rounded down to a millionth, so their sum
/// is that quotient rounded down, or one millionth less.
pub proof fn lemma_roots_are_symmetric(sphere: Sphere, origin: Point, direction: Vector)
    requires
        roots_in_range(
            sphere.quadratic(origin, direction).0,
            sphere.quadratic(origin, direction).1,
            sphere.quadratic(origin, direction).2,
        ),
    ensures
        sphere.spec_intersect_ray(origin, direction) matches Some((t1, t2)) ==> {
            let (a, b, c) = sphere.quadratic(origin, direction);
            let middle = (-b * SCALE) / a;
            middle - 1 <= t1@ + t2@ <= middle
        },
{
    let (a, b, c) = sphere.quadratic(origin, direction);
    let d = discriminant(a, b, c);
    let scale = SCALE as int;
    lemma_leading_coefficient(sphere, origin, direction);
    if a != 0 && d >= 0 {
        lemma_isqrt_exists(d as nat);
        let root = isqrt(d);
        let x = (-b + root) * scale;
        let y = (-b - root) * scale;
        assert(y <= x) by (nonlinear_arith)
            requires
                root >= 0,
                x == (-b + root) * scale,
                y == (-b - root) * scale,
                scale > 0,
        ;
        lemma_div_is_ordered(y, x, 2 * a);
        lemma_floor_div_of_sum(x, y, 2 * a);
        assert(x + y == 2 * (-b * scale)) by (nonlinear_arith)
            requires
                x == (-b + root) * scale,
                y == (-b - root) * scale,
        ;
        lemma_floor_div_doubled(-b * scale, a);
    }
}

/// The square of the dot product of two parallel vectors is the product of
/// the squares of their lengths.
proof fn lemma_parallel_dot(dx: int, dy: int, dz: int, cx: int, cy: int, cz: int)
    requires
        dy * cz == dz * cy,
        dz * cx == dx * cz,
        dx * cy == dy * cx,
    ensures
        (dx * cx + dy * cy + dz * cz) * (dx * cx + dy * cy + dz * cz) == (dx * dx + dy * dy + dz
            * dz) * (cx * cx + cy * cy + cz * cz),
{
    let (a, b, c) = (dx * cx, dy * cy, dz * cz);
    let (x, y, z) = (dx * dx, dy * dy, dz * dz);
    let (u, v, w) = (cx * cx, cy * cy, cz * cz);
    let (k1, k2, k3) = (dx * cy, dy * cz, dz * cx);
    let half = a + b + c;
    assert(half * half == a * a + b * b + c * c + 2 * (a * b) + 2 * (b * c) + 2 * (c * a)) by (nonlinear_arith)
        requires
            half == a + b + c,
    ;
    assert((x + y + z) * (u + v + w) == x * u + x * v + x * w + y * u + y * v + y * w + z * u + z
        * v + z * w) by (nonlinear_arith);
    assert(a * a == x * u && b * b == y * v && c * c == z * w) by (nonlinear_arith)
        requires
            a == dx * cx,
            b == dy * cy,
            c == dz * cz,
            x == dx * dx,
            y == dy * dy,
            z == dz * dz,
            u == cx * cx,
            v == cy * cy,
            w == cz * cz,
    ;
    assert(a * b == k1 * (dy * cx) && x * v == k1 * k1 && y * u == (dy * cx) * (dy * cx)) by (nonlinear_arith)
        requires
            a == dx * cx,
            b == dy * cy,
            x == dx * dx,
            v == cy * cy,
            y == dy * dy,
            u == cx * cx,
            k1 == dx * cy,
    ;
    assert(b * c == k2 * (dz * cy) && y * w == k2 * k2 && z * v == (dz * cy) * (dz * cy)) by (nonlinear_arith)
        requires
            b == dy * cy,
            c == dz * cz,
            y == dy * dy,
            w == cz * cz,
            z == dz * dz,
            v == cy * cy,
            k2 == dy * cz,
    ;
    assert(c * a == k3 * (dx * cz) && z * u == k3 * k3 && x * w == (dx * cz) * (dx * cz)) by (nonlinear_arith)
        requires
            c == dz * cz,
            a == dx * cx,
            z == dz * dz,
            u == cx * cx,
            x == dx * dx,
            w == cz * cz,
            k3 == dz * cx,
    ;
}

/// A line through the center of a sphere meets the sphere, whatever its
/// direction, as long as that is not the zero vector: the discriminant of
/// its quadratic is `4 a r^2`, which is never negative, so a pair of roots
/// is returned. The line passes through the center where the direction and
/// the vector from the center to the origin are parallel, that is where
/// their cross product is zero.
pub proof fn lemma_line_through_center_meets(sphere: Sphere, origin: Point, direction: Vector)
    requires
        sphere.quadratic(origin, direction).0 != 0,
        direction.1@ * (origin.2@ - sphere.center.2@) == direction.2@ * (origin.1@
            - sphere.center.1@),
        direction.2@ * (origin.0@ - sphere.center.0@) == direction.0@ * (origin.2@
            - sphere.center.2@),
        direction.0@ * (origin.1@ - sphere.center.1@) == direction.1@ * (origin.0@
            - sphere.center.0@),
    ensures
        discriminant(
            sphere.quadratic(origin, direction).0,
            sphere.quadratic(origin, direction).1,
            sphere.quadratic(origin, direction).2,
        ) == 4 * (sphere.quadratic(origin, direction).0 * (sphere.radius@ * sphere.radius@)),
        sphere.spec_intersect_ray(origin, direction) is Some,
{
    let (dx, dy, dz) = (direction.0@, direction.1@, direction.2@);
    let cx = origin.0@ - sphere.center.0@;
    let cy = origin.1@ - sphere.center.1@;
    let cz = origin.2@ - sphere.center.2@;
    let r = sphere.radius@;
    let (a, b, c) = sphere.quadratic(origin, direction);
    let half = dx * cx + dy * cy + dz * cz;
    let cc = cx * cx + cy * cy + cz * cz;
    lemma_parallel_dot(dx, dy, dz, cx, cy, cz);
    lemma_leading_coefficient(sphere, origin, direction);
    assert(half * half == a * cc);
    assert(b * b == 4 * (half * half)) by (nonlinear_arith)
        requires
            b == 2 * half,
    ;
    assert(a * c == a * cc - a * (r * r)) by (nonlinear_arith)
        requires
            c == cc - r * r,
    ;
    assert(a * (r * r) >= 0) by (nonlinear_arith)
        requires
            a >= 0,
    ;
}

/// The value of the quadratic `a t^2 + b t + c` at `t`, in units of 10^-24.
pub open spec fn quadratic_value(a: int, b: int, c: int, t: Fixed) -> int {
    a * t@ * t@ + b * t@ * SCALE + c * SCALE * SCALE
}

/// How far from zero the quadratic may be at a root that was rounded: four
/// times `a` times `quadratic_value` stays within this bound.
pub open spec fn root_tolerance(a: int, root: int) -> int {
    SCALE * SCALE * (2 * root + SCALE) + 4 * SCALE * (a * root) + 4 * (a * a)
}

/// The algebra of a rounded root: with `2 a t = n s - e3` for the rounded
/// quotient `t` and `root^2 = b^2 - 4ac + e` for the rounded square root,
/// `4a (a t^2 + b t s + c s^2)` is `s^2 e - 2 s e3 (n + b) + e3^2`.
proof fn lemma_rounded_root(a: int, b: int, c: int, root: int, n: int, t: int, e: int, e3: int, s: int)
    requires
        a > 0,
        s > 0,
        root >= 0,
        n + b == root || n + b == -root,
        2 * a * t == n * s - e3,
        0 <= e3 < 2 * a,
        root * root == b * b - 4 * a * c + e,
        -s - 2 * root <= e <= s,
    ensures
        -(s * s * (2 * root + s) + 4 * s * (a * root) + 4 * (a * a)) <= 4 * a * (a * t * t + b * t
            * s + c * s * s),
        4 * a * (a * t * t + b * t * s + c * s * s) <= s * s * (2 * root + s) + 4 * s * (a * root)
            + 4 * (a * a),
{
    let m = n + b;
    let at = a * t;
    let x = 2 * at;
    let p = m * s;
    let q = b * s;
    let value = a * t * t + b * t * s + c * s * s;
    // 4a * value, written in x = 2at
    assert(a * (a * t * t) == at * at) by (nonlinear_arith)
        requires
            at == a * t,
    ;
    assert(a * (b * t * s) == q * at) by (nonlinear_arith)
        requires
            at == a * t,
            q == b * s,
    ;
    assert(a * (c * s * s) == (a * c) * (s * s)) by (nonlinear_arith);
    assert(a * value == a * (a * t * t) + a * (b * t * s) + a * (c * s * s)) by (nonlinear_arith)
        requires
            value == a * t * t + b * t * s + c * s * s,
    ;
    assert(x * x == 4 * (at * at) && q * x == 2 * (q * at)) by (nonlinear_arith)
        requires
            x == 2 * at,
    ;
    assert(4 * a * value == 4 * (a * value)) by (nonlinear_arith);
    assert(4 * a * value == x * x + 2 * (q * x) + 4 * ((a * c) * (s * s)));
    // x = p - q - e3
    assert(n * s == p - q) by (nonlinear_arith)
        requires
            p == (n + b) * s,
            q == b * s,
    ;
    assert(2 * a * t == 2 * at) by (nonlinear_arith)
        requires
            at == a * t,
    ;
    assert(x * x + 2 * (q * x) == p * p - 2 * (p * e3) + e3 * e3 - q * q) by (nonlinear_arith)
        requires
            x == p - q - e3,
    ;
    assert(p * p == (m * m) * (s * s)) by (nonlinear_arith)
        requires
            p == m * s,
    ;
    assert(q * q == (b * b) * (s * s)) by (nonlinear_arith)
        requires
            q == b * s,
    ;
    assert(m * m == root * root) by (nonlinear_arith)
        requires
            m == root || m == -root,
    ;
    let ss = s * s;
    assert(4 * a * c == 4 * (a * c)) by (nonlinear_arith);
    assert((m * m) * ss - (b * b) * ss + 4 * ((a * c) * ss) == e * ss) by (nonlinear_arith)
        requires
            m * m == b * b - 4 * (a * c) + e,
    ;
    let first = e * ss;
    let second = 2 * (p * e3);
    let third = e3 * e3;
    assert(4 * a * value == first - second + third);
    assert(-(s * s * (2 * root + s)) <= first <= s * s * (2 * root + s)) by (nonlinear_arith)
        requires
            first == e * ss,
            ss == s * s,
            -s - 2 * root <= e <= s,
            s > 0,
            root >= 0,
    ;
    assert(-(4 * s * (a * root)) <= second <= 4 * s * (a * root)) by (nonlinear_arith)
        requires
            second == 2 * (p * e3),
            p == m * s,
            m == root || m == -root,
            0 <= e3 < 2 * a,
            a > 0,
            s > 0,
            root >= 0,
    ;
    assert(0 <= third <= 4 * (a * a)) by (nonlinear_arith)
        requires
            third == e3 * e3,
            0 <= e3 < 2 * a,
    ;
}

/// The two parameters that `intersect_ray` returns solve the exact
/// quadratic `a t^2 + b t + c = 0` of the line and the sphere, within the
/// rounding of the result: the points at those parameters lie on the
/// sphere. The square root of the discriminant `d` is rounded down to a
/// whole raw unit and each quotient to a millionth, and so the quadratic,
/// taken exactly at the rounded root, is not zero but within
/// `root_tolerance / 4a` of it, with `a` in raw units. For a direction of
/// length one that is less than `(1.5 sqrt(d) + 1.25) * 10^-6`.
pub proof fn lemma_roots_solve_the_quadratic(sphere: Sphere, origin: Point, direction: Vector)
    requires
        roots_in_range(
            sphere.quadratic(origin, direction).0,
            sphere.quadratic(origin, direction).1,
            sphere.quadratic(origin, direction).2,
        ),
    ensures
        sphere.spec_intersect_ray(origin, direction) matches Some((t1, t2)) ==> {
            let (a, b, c) = sphere.quadratic(origin, direction);
            let root = isqrt(discriminant(a, b, c));
            &&& -root_tolerance(a, root) <= 4 * a * quadratic_value(a, b, c, t1)
                <= root_tolerance(a, root)
            &&& -root_tolerance(a, root) <= 4 * a * quadratic_value(a, b, c, t2)
                <= root_tolerance(a, root)
        },
{
    let (a, b, c) = sphere.quadratic(origin, direction);
    let d = discriminant(a, b, c);
    let scale = SCALE as int;
    lemma_leading_coefficient(sphere, origin, direction);
    if a != 0 && d >= 0 {
        lemma_isqrt_exists(d as nat);
        let r = isqrt(d);
        let e = r * r - d;
        assert(-scale - 2 * r <= e <= scale) by (nonlinear_arith)
            requires
                e == r * r - d,
                r * r <= d,
                d < (r + 1) * (r + 1),
                scale > 0,
                r >= 0,
        ;
        assert(r * r == b * b - 4 * a * c + e) by (nonlinear_arith)
            requires
                e == r * r - d,
                d == b * b - 4 * (a * c),
        ;
        let n1 = -b + r;
        let n2 = -b - r;
        assert(n2 * scale <= n1 * scale) by (nonlinear_arith)
            requires
                n2 <= n1,
                scale > 0,
        ;
        lemma_div_is_ordered(n2 * scale, n1 * scale, 2 * a);
        let t1 = Fixed::of((n1 * scale) / (2 * a));
        let t2 = Fixed::of((n2 * scale) / (2 * a));
        assert(t1@ == (n1 * scale) / (2 * a));
        assert(t2@ == (n2 * scale) / (2 * a));
        lemma_fundamental_div_mod(n1 * scale, 2 * a);
        lemma_fundamental_div_mod(n2 * scale, 2 * a);
        let e1 = (n1 * scale) % (2 * a);
        let e2 = (n2 * scale) % (2 * a);
        assert(2 * a * t1@ == n1 * scale - e1);
        assert(2 * a * t2@ == n2 * scale - e2);
        lemma_rounded_root(a, b, c, r, n1, t1@, e, e1, scale);
        lemma_rounded_root(a, b, c, r, n2, t2@, e, e2, scale);
    }
}

/// One component `v` of a vector of length `len`, divided by that length:
/// the quotient `n` stays within one unit, and `len * n` misses `v * scale`
/// by less than `len`.
proof fn lemma_unit_component(v: int, len: int, scale: int)
    requires
        len >= 1,
        scale >= 1,
        v * v < (len + 1) * (len + 1),
    ensures
        -scale <= (v * scale) / len <= scale,
        scale * scale * (v * v) - 2 * (len * len * scale) <= len * len * (((v * scale) / len) * ((v
            * scale) / len)),
        len * len * (((v * scale) / len) * ((v * scale) / len)) <= scale * scale * (v * v) + 2 * (
        len * len * scale) + len * len,
{
    assert(-len <= v <= len) by (nonlinear_arith)
        requires
            len >= 1,
            v * v < (len + 1) * (len + 1),
    ;
    let a = v * scale;
    let n = a / len;
    let e = a % len;
    lemma_fundamental_div_mod(a, len);
    assert(-(len * scale) <= a <= len * scale) by (nonlinear_arith)
        requires
            a == v * scale,
            -len <= v <= len,
            scale >= 1,
    ;
    assert(len * scale == scale * len && len * (-scale) == -(len * scale) && (-scale) * len == -(
    len * scale)) by (nonlinear_arith);
    lemma_div_is_ordered(len * (-scale), a, len);
    lemma_div_is_ordered(a, len * scale, len);
    lemma_div_multiples_vanish(scale, len);
    lemma_div_multiples_vanish(-scale, len);
    assert(-scale <= n <= scale);
    let ln = len * n;
    let k = len * len * scale;
    assert(ln == a - e);
    assert(a * a - 2 * k <= ln * ln && ln * ln <= a * a + 2 * k + len * len) by (nonlinear_arith)
        requires
            ln == a - e,
            0 <= e < len,
            -(len * scale) <= a <= len * scale,
            k == len * len * scale,
            len >= 1,
            scale >= 1,
    ;
    assert(ln * ln == len * len * (n * n)) by (nonlinear_arith)
        requires
            ln == len * n,
    ;
    assert(a * a == scale * scale * (v * v)) by (nonlinear_arith)
        requires
            a == v * scale,
    ;
}

/// Scaling a vector to length one gives a vector of length one, within the
/// precision of the numbers: its length is at most four millionths short
/// of 1, and exceeds 1 by less than `3 + 1 / length` millionths, where
/// `length` is the length of the vector it was made from. For a vector at
/// least one unit long that is at most three millionths.
pub proof fn lemma_unit_has_unit_length(v: Vector)
    requires
        1 <= v.spec_length()@ < i64::MAX,
    ensures
        SCALE - 4 <= v.spec_unit().spec_length()@,
        v.spec_unit().spec_length()@ * v.spec_length()@ < SCALE * (v.spec_length()@ + 1) + 3
            * v.spec_length()@,
        v.spec_length()@ >= SCALE ==> v.spec_unit().spec_length()@ <= SCALE + 3,
{
    let scale = SCALE as int;
    let len = v.spec_length()@;
    let q = v.0@ * v.0@ + v.1@ * v.1@ + v.2@ * v.2@;
    assert(q >= 0 && v.0@ * v.0@ <= q && v.1@ * v.1@ <= q && v.2@ * v.2@ <= q) by (nonlinear_arith)
        requires
            q == v.0@ * v.0@ + v.1@ * v.1@ + v.2@ * v.2@,
    ;
    lemma_isqrt_exists(q as nat);
    assert(len == isqrt(q));
    lemma_unit_component(v.0@, len, scale);
    lemma_unit_component(v.1@, len, scale);
    lemma_unit_component(v.2@, len, scale);
    let unit = v.spec_unit();
    let n0 = (v.0@ * scale) / len;
    let n1 = (v.1@ * scale) / len;
    let n2 = (v.2@ * scale) / len;
    assert(unit.0@ == n0 && unit.1@ == n1 && unit.2@ == n2);
    let m = n0 * n0 + n1 * n1 + n2 * n2;
    assert(0 <= m <= 3 * scale * scale) by (nonlinear_arith)
        requires
            m == n0 * n0 + n1 * n1 + n2 * n2,
            -scale <= n0 <= scale,
            -scale <= n1 <= scale,
            -scale <= n2 <= scale,
    ;
    lemma_isqrt_exists(m as nat);
    let big = isqrt(m);
    assert(big <= 3 * scale) by (nonlinear_arith)
        requires
            0 <= big,
            big * big <= m,
            m <= 3 * scale * scale,
            scale == 1_000_000,
    ;
    assert(unit.spec_length()@ == big);
    // len^2 * m against scale^2 * q, component by component
    let k = len * len * scale;
    let lm = len * len * m;
    assert(lm == len * len * (n0 * n0) + len * len * (n1 * n1) + len * len * (n2 * n2)) by (nonlinear_arith)
        requires
            lm == len * len * m,
            m == n0 * n0 + n1 * n1 + n2 * n2,
    ;
    let sq = scale * scale * q;
    assert(sq == scale * scale * (v.0@ * v.0@) + scale * scale * (v.1@ * v.1@) + scale * scale * (
    v.2@ * v.2@)) by (nonlinear_arith)
        requires
            sq == scale * scale * q,
            q == v.0@ * v.0@ + v.1@ * v.1@ + v.2@ * v.2@,
    ;
    assert(sq - 6 * k <= lm);
    assert(lm <= sq + 6 * k + 3 * (len * len));
    // from below
    assert(len * len * ((scale - 4) * (scale - 4)) <= lm) by (nonlinear_arith)
        requires
            sq - 6 * k <= lm,
            sq == scale * scale * q,
            k == len * len * scale,
            len * len <= q,
            scale == 1_000_000,
            len >= 1,
    ;
    assert((scale - 4) * (scale - 4) <= m) by (nonlinear_arith)
        requires
            len * len * ((scale - 4) * (scale - 4)) <= lm,
            lm == len * len * m,
            len >= 1,
    ;
    lemma_isqrt_monotone((scale - 4) * (scale - 4), m);
    lemma_isqrt_of_square(scale - 4);
    // from above
    let top = scale * (len + 1) + 3 * len;
    assert(lm < top * top) by (nonlinear_arith)
        requires
            lm <= sq + 6 * k + 3 * (len * len),
            sq == scale * scale * q,
            k == len * len * scale,
            q < (len + 1) * (len + 1),
            top == scale * (len + 1) + 3 * len,
            scale == 1_000_000,
            len >= 1,
    ;
    assert(big * len < top) by (nonlinear_arith)
        requires
            lm < top * top,
            lm == len * len * m,
            big * big <= m,
            0 <= big,
            len >= 1,
            top >= 0,
    ;
    if len >= scale {
        assert(big <= scale + 3) by (nonlinear_arith)
            requires
                big * len < scale * (len + 1) + 3 * len,
                len >= scale,
                scale == 1_000_000,
                0 <= big,
        ;
    }
}

/// The normal of a sphere has length one, within the precision of the
/// numbers, at every point that does not coincide with the center.
pub proof fn lemma_normal_has_unit_length(sphere: Sphere, p: Point)
    requires
        1 <= p.spec_sub(sphere.center).spec_to_vector().spec_length()@ < i64::MAX,
    ensures
        SCALE - 4 <= sphere.spec_normal(p).spec_length()@,
        p.spec_sub(sphere.center).spec_to_vector().spec_length()@ >= SCALE
            ==> sphere.spec_normal(p).spec_length()@ <= SCALE + 3,
{
    lemma_unit_has_unit_length(p.spec_sub(sphere.center).spec_to_vector());
}

/// Where there is no sphere, every ray returns the background color.
pub proof fn lemma_empty_scene_traces_background(
    start: Point,
    direction: Vector,
    lights: Seq<Light>,
    t_min: Fixed,
    t_max: Fixed,
    depth: nat,
)
    ensures
        spec_trace_ray(start, direction, Seq::empty(), lights, t_min, t_max, depth)
            == Color::spec_background(),
{
    lemma_closest_meets(start, direction, Seq::<Sphere>::empty(), t_min, t_max);
}

/// A scene without spheres renders every pixel in the background color,
/// whatever the canvas held before.
pub proof fn lemma_empty_scene_renders_background(
    camera: Point,
    viewport: Viewport,
    width: nat,
    height: nat,
    lights: Seq<Light>,
)
    ensures
        spec_rendered(camera, viewport, width, height, Seq::empty(), lights) == Seq::new(
            width * height,
            |i: int| Color::spec_background(),
        ),
{
    let rendered = spec_rendered(camera, viewport, width, height, Seq::empty(), lights);
    assert forall|i: int| 0 <= i < width * height implies rendered[i]
        == Color::spec_background() by {
        let x = i % (width as int) - (width / 2) as int;
        let y = (height / 2) as int - i / (width as int);
        let target = crate::raytracer::spec_viewport_point(
            width,
            height,
            viewport,
            Fixed::of(x * SCALE),
            Fixed::of(y * SCALE),
        );
        lemma_empty_scene_traces_background(
            camera,
            target.spec_sub(camera).spec_to_vector(),
            lights,
            Fixed { raw: SCALE },
            Fixed::of(5000 * SCALE),
            crate::raytracer::RECURSION_DEPTH as nat,
        );
    }
    assert(rendered =~= Seq::new(width * height, |i: int| Color::spec_background()));
}

/// Under a single ambient light of intensity 1, a sphere that mirrors
/// nothing shows exactly its own color wherever a ray hits it.
pub proof fn lemma_unit_ambient_light_shows_base_color(
    start: Point,
    direction: Vector,
    scene: Seq<Sphere>,
    t_min: Fixed,
    t_max: Fixed,
    depth: nat,
)
    requires
        depth == 0 || forall|i: int| 0 <= i < scene.len() ==> scene[i].reflective@ <= 0,
    ensures
        spec_trace_ray(
            start,
            direction,
            scene,
            seq![Light::Ambient(Fixed { raw: SCALE })],
            t_min,
            t_max,
            depth,
        ) == match spec_closest_intersection(start, direction, scene, t_min, t_max) {
            None => Color::spec_background(),
            Some((t, i)) => scene[i].color,
        },
{
    let lights = seq![Light::Ambient(Fixed { raw: SCALE })];
    lemma_closest_meets(start, direction, scene, t_min, t_max);
    match spec_closest_intersection(start, direction, scene, t_min, t_max) {
        None => {},
        Some((t, i)) => {
            let sphere = scene[i];
            let p = crate::raytracer::spec_ray_at(start, direction, t);
            let n = sphere.spec_normal(p);
            let view = direction.spec_scale(Fixed::of(-SCALE));
            assert(lights.drop_last() =~= Seq::<Light>::empty());
            assert(lights.last() == Light::Ambient(Fixed { raw: SCALE }));
            reveal_with_fuel(spec_compute_lighting, 2);
            let lighting = spec_compute_lighting(p, n, view, lights, sphere.specular, scene);
            assert(lighting@ == SCALE);
            let c = sphere.color;
            assert((c.0 * SCALE) / (SCALE as int) == c.0 && (c.1 * SCALE) / (SCALE as int) == c.1
                && (c.2 * SCALE) / (SCALE as int) == c.2);
            assert(c.spec_scale(lighting) == c);
        },
    }
}

/// Under a single ambient light of intensity 1, a scene of one sphere that
/// mirrors nothing renders in two colors: every pixel holds the color of
/// the sphere or the background color.
pub proof fn lemma_single_sphere_renders_in_two_colors(
    camera: Point,
    viewport: Viewport,
    width: nat,
    height: nat,
    sphere: Sphere,
)
    requires
        sphere.reflective@ <= 0,
    ensures
        forall|i: int|
            0 <= i < width * height ==> {
                let seen = #[trigger] spec_rendered(
                    camera,
                    viewport,
                    width,
                    height,
                    seq![sphere],
                    seq![Light::Ambient(Fixed { raw: SCALE })],
                )[i];
                seen == sphere.color || seen == Color::spec_background()
            },
{
    let scene = seq![sphere];
    let lights = seq![Light::Ambient(Fixed { raw: SCALE })];
    let rendered = spec_rendered(camera, viewport, width, height, scene, lights);
    assert forall|i: int| 0 <= i < width * height implies (#[trigger] rendered[i]) == sphere.color
        || rendered[i] == Color::spec_background() by {
        let x = i % (width as int) - (width / 2) as int;
        let y = (height / 2) as int - i / (width as int);
        let target = crate::raytracer::spec_viewport_point(
            width,
            height,
            viewport,
            Fixed::of(x * SCALE),
            Fixed::of(y * SCALE),
        );
        let direction = target.spec_sub(camera).spec_to_vector();
        let t_min = Fixed { raw: SCALE };
        let t_max = Fixed::of(5000 * SCALE);
        lemma_unit_ambient_light_shows_base_color(
            camera,
            direction,
            scene,
            t_min,
            t_max,
            crate::raytracer::RECURSION_DEPTH as nat,
        );
        lemma_closest_meets(camera, direction, scene, t_min, t_max);
    }
}

/// A sphere that stands straight ahead of the camera shows at the centre of
/// the canvas. The camera stands at the origin and looks through a square
/// viewport of one unit, one unit ahead; the center of the sphere lies on
/// the z-axis, and the whole sphere between the viewport and the far end of
/// sight, 5000 units away. Under a single ambient light of intensity 1 the
/// pixel at the canvas point `(0, 0)` then holds the color of the sphere.
pub proof fn lemma_sphere_ahead_shows_at_the_centre(width: nat, height: nat, sphere: Sphere)
    requires
        width >= 1,
        height >= 1,
        sphere.center.0@ == 0,
        sphere.center.1@ == 0,
        sphere.radius@ >= 0,
        SCALE <= sphere.center.2@ - sphere.radius@,
        sphere.center.2@ + sphere.radius@ <= 5000 * SCALE,
        sphere.reflective@ <= 0,
    ensures
        0 <= (height / 2) * width + width / 2 < width * height,
        spec_rendered(
            Point(Fixed::of(0), Fixed::of(0), Fixed::of(0)),
            (Viewport {
                center: Point(Fixed::of(0), Fixed::of(0), Fixed::of(SCALE as int)),
                h: Fixed { raw: SCALE },
                w: Fixed { raw: SCALE },
            }),
            width,
            height,
            seq![sphere],
            seq![Light::Ambient(Fixed { raw: SCALE })],
        )[((height / 2) * width + width / 2) as int] == sphere.color,
{
    let camera = Point(Fixed::of(0), Fixed::of(0), Fixed::of(0));
    let viewport = Viewport {
        center: Point(Fixed::of(0), Fixed::of(0), Fixed::of(SCALE as int)),
        h: Fixed { raw: SCALE },
        w: Fixed { raw: SCALE },
    };
    let scene = seq![sphere];
    let lights = seq![Light::Ambient(Fixed { raw: SCALE })];
    let w = width as int;
    let row = (height / 2) as int;
    let col = (width / 2) as int;
    let i = row * w + col;
    // the place of the pixel
    assert(0 <= i < width * height) by (nonlinear_arith)
        requires
            i == row * w + col,
            0 <= col < w,
            0 <= row < height,
            w == width,
    ;
    lemma_fundamental_div_mod_converse(i, w, row, col);
    // the ray through the canvas point (0, 0)
    let zero = Fixed::of(0);
    let dw = Fixed::of(width * SCALE);
    let dh = Fixed::of(height * SCALE);
    assert(width * SCALE >= 1_000_000 && height * SCALE >= 1_000_000);
    assert(dw@ > 0 && dh@ > 0);
    vstd::arithmetic::div_mod::lemma_div_of0(dw@);
    vstd::arithmetic::div_mod::lemma_div_of0(dh@);
    assert(zero.spec_div(dw)@ == 0);
    assert(zero.spec_div(dh)@ == 0);
    let target = crate::raytracer::spec_viewport_point(
        width,
        height,
        viewport,
        Fixed::of(0 * SCALE),
        Fixed::of(0 * SCALE),
    );
    assert(target == Point(zero, zero, Fixed::of(SCALE as int)));
    let direction = target.spec_sub(camera).spec_to_vector();
    assert(direction.0@ == 0 && direction.1@ == 0 && direction.2@ == 1_000_000);
    // the quadratic and its roots
    let zc = sphere.center.2@;
    let r = sphere.radius@;
    let (a, b, c) = sphere.quadratic(camera, direction);
    let (dx, dy, dz) = (direction.0@, direction.1@, direction.2@);
    let cx = camera.0@ - sphere.center.0@;
    let cy = camera.1@ - sphere.center.1@;
    let cz = camera.2@ - sphere.center.2@;
    assert(cx == 0 && cy == 0 && cz == -zc);
    assert(a == 1_000_000_000_000) by (nonlinear_arith)
        requires
            a == dx * dx + dy * dy + dz * dz,
            dx == 0,
            dy == 0,
            dz == 1_000_000,
    ;
    assert(b == -2_000_000 * zc) by (nonlinear_arith)
        requires
            b == 2 * (dx * cx + dy * cy + dz * cz),
            dx == 0,
            dy == 0,
            dz == 1_000_000,
            cz == -zc,
    ;
    assert(c == zc * zc - r * r) by (nonlinear_arith)
        requires
            c == cx * cx + cy * cy + cz * cz - r * r,
            cx == 0,
            cy == 0,
            cz == -zc,
    ;
    let root = 2_000_000 * r;
    let d = discriminant(a, b, c);
    assert(d == root * root) by (nonlinear_arith)
        requires
            d == b * b - 4 * (a * c),
            a == 1_000_000_000_000,
            b == -2_000_000 * zc,
            c == zc * zc - r * r,
            root == 2_000_000 * r,
    ;
    lemma_isqrt_of_square(root);
    assert(isqrt(d) == root);
    let near = zc - r;
    let far = zc + r;
    assert((-b - root) * SCALE == 2_000_000_000_000 * near) by (nonlinear_arith)
        requires
            b == -2_000_000 * zc,
            root == 2_000_000 * r,
            near == zc - r,
            SCALE == 1_000_000,
    ;
    assert((-b + root) * SCALE == 2_000_000_000_000 * far) by (nonlinear_arith)
        requires
            b == -2_000_000 * zc,
            root == 2_000_000 * r,
            far == zc + r,
            SCALE == 1_000_000,
    ;
    lemma_div_multiples_vanish(near, 2_000_000_000_000);
    lemma_div_multiples_vanish(far, 2_000_000_000_000);
    let t_near = Fixed::of(near);
    let t_far = Fixed::of(far);
    assert(sphere.spec_intersect_ray(camera, direction) == Some((t_far, t_near)));
    // the nearer root is the first hit
    let t_min = Fixed { raw: SCALE };
    let t_max = Fixed::of(5000 * SCALE);
    assert(t_near@ == near && t_far@ == far);
    assert(hits_at(scene[0], camera, direction, t_min, t_max, t_near));
    assert(is_closest(camera, direction, scene, t_min, t_max, t_near, 0));
    lemma_closest_is(camera, direction, scene, t_min, t_max, t_near, 0);
    lemma_unit_ambient_light_shows_base_color(
        camera,
        direction,
        scene,
        t_min,
        t_max,
        crate::raytracer::RECURSION_DEPTH as nat,
    );
}

/// The two scenes hold the same spheres but for how much each one mirrors.
pub open spec fn same_but_reflectivity(first: Seq<Sphere>, second: Seq<Sphere>) -> bool {
    &&& first.len() == second.len()
    &&& forall|i: int|
        0 <= i < first.len() ==> {
            &&& #[trigger] first[i].center == second[i].center
            &&& first[i].radius == second[i].radius
            &&& first[i].color == second[i].color
            &&& first[i].specular == second[i].specular
        }
}

/// What a ray hits first does not depend on how much the spheres mirror.
proof fn lemma_closest_ignores_reflectivity(
    origin: Point,
    direction: Vector,
    first: Seq<Sphere>,
    second: Seq<Sphere>,
    t_min: Fixed,
    t_max: Fixed,
)
    requires
        same_but_reflectivity(first, second),
    ensures
        spec_closest_intersection(origin, direction, first, t_min, t_max)
            == spec_closest_intersection(origin, direction, second, t_min, t_max),
{
    assert forall|j: int, u: Fixed| 0 <= j < first.len() implies hits_at(
        first[j],
        origin,
        direction,
        t_min,
        t_max,
        u,
    ) == hits_at(second[j], origin, direction, t_min, t_max, u) by {
        assert(first[j].center == second[j].center);
    }
    assert forall|t: Fixed, i: int|
        is_closest(origin, direction, first, t_min, t_max, t, i) == is_closest(
            origin,
            direction,
            second,
            t_min,
            t_max,
            t,
            i,
        ) by {
        if 0 <= i < first.len() {
            assert(first[i].center == second[i].center);
        }
    }
    lemma_closest_meets(origin, direction, first, t_min, t_max);
    lemma_closest_meets(origin, direction, second, t_min, t_max);
    match spec_closest_intersection(origin, direction, first, t_min, t_max) {
        Some((t, i)) => {
            lemma_closest_is(origin, direction, second, t_min, t_max, t, i);
        },
        None => {
            match spec_closest_intersection(origin, direction, second, t_min, t_max) {
                Some((t, i)) => {
                    assert(is_closest(origin, direction, first, t_min, t_max, t, i));
                },
                None => {},
            }
        },
    }
}

/// The light at a point does not depend on how much the spheres mirror.
proof fn lemma_lighting_ignores_reflectivity(
    p: Point,
    n: Vector,
    v: Vector,
    lights: Seq<Light>,
    specular: Fixed,
    first: Seq<Sphere>,
    second: Seq<Sphere>,
)
    requires
        same_but_reflectivity(first, second),
    ensures
        spec_compute_lighting(p, n, v, lights, specular, first) == spec_compute_lighting(
            p,
            n,
            v,
            lights,
            specular,
            second,
        ),
    decreases lights.len(),
{
    if lights.len() > 0 {
        lemma_lighting_ignores_reflectivity(p, n, v, lights.drop_last(), specular, first, second);
        match lights.last() {
            Light::Ambient(_) => {},
            Light::Point(_, position) => {
                lemma_closest_ignores_reflectivity(
                    p,
                    position.spec_sub(p).spec_to_vector(),
                    first,
                    second,
                    Fixed { raw: crate::raytracer::EPSILON },
                    Fixed { raw: SCALE },
                );
            },
            Light::Directional(_, direction) => {
                lemma_closest_ignores_reflectivity(
                    p,
                    direction,
                    first,
                    second,
                    Fixed { raw: crate::raytracer::EPSILON },
                    Fixed { raw: i64::MAX },
                );
            },
        }
    }
}

/// With no reflection left to follow, how much a sphere mirrors makes no
/// difference: a ray returns the same color from two scenes that differ
/// in nothing else.
pub proof fn lemma_depth_zero_ignores_reflectivity(
    start: Point,
    direction: Vector,
    first: Seq<Sphere>,
    second: Seq<Sphere>,
    lights: Seq<Light>,
    t_min: Fixed,
    t_max: Fixed,
)
    requires
        same_but_reflectivity(first, second),
    ensures
        spec_trace_ray(start, direction, first, lights, t_min, t_max, 0) == spec_trace_ray(
            start,
            direction,
            second,
            lights,
            t_min,
            t_max,
            0,
        ),
{
    lemma_closest_ignores_reflectivity(start, direction, first, second, t_min, t_max);
    lemma_closest_meets(start, direction, first, t_min, t_max);
    match spec_closest_intersection(start, direction, first, t_min, t_max) {
        None => {},
        Some((t, i)) => {
            assert(first[i].center == second[i].center);
            let p = crate::raytracer::spec_ray_at(start, direction, t);
            lemma_lighting_ignores_reflectivity(
                p,
                first[i].spec_normal(p),
                direction.spec_scale(Fixed::of(-SCALE)),
                lights,
                first[i].specular,
                first,
                second,
            );
        },
    }
}

/// Writing a canvas as text and reading the text back gives the canvas
/// again: the text of a canvas is the text of no other, so what the reader
/// finds in it has the same width, the same height and the same pixels.
pub proof fn lemma_text_round_trip(
    w: nat,
    h: nat,
    pixels: Seq<Color>,
    w2: nat,
    h2: nat,
    pixels2: Seq<Color>,
)
    requires
        w <= usize::MAX,
        h <= usize::MAX,
        pixels.len() == w * h,
        encodes(ppm_text(w, h, pixels), w2, h2, pixels2),
    ensures
        w2 == w,
        h2 == h,
        pixels2 == pixels,
{
    lemma_text_is_of_one_canvas(ppm_text(w, h, pixels), w, h, pixels, w2, h2, pixels2);
}

/// `b` to the whole power `n`, exactly.
pub open spec fn power(b: int, n: nat) -> int
    decreases n,
{
    if n == 0 {
        1
    } else {
        b * power(b, (n - 1) as nat)
    }
}

/// The power 0 of any number is 1, and so is the power of the exponent 0.
pub proof fn lemma_power_zero(x: Fixed)
    ensures
        x.spec_pow(0)@ == SCALE,
        x.spec_powf(Fixed { raw: 0 })@ == SCALE,
{
    reveal_with_fuel(Fixed::spec_pow_fraction, 2);
}

/// The power 1 of any number is the number, and so is the power of the
/// exponent 1.
pub proof fn lemma_power_one(x: Fixed)
    ensures
        x.spec_pow(1) == x,
        x.spec_powf(Fixed { raw: SCALE }) == x,
{
    reveal_with_fuel(Fixed::spec_pow, 2);
    reveal_with_fuel(Fixed::spec_pow_fraction, 2);
    assert((SCALE * x@) / (SCALE as int) == x@);
    assert((x@ * SCALE) / (SCALE as int) == x@);
    assert(x.spec_pow(1) == x);
}

/// The power of a whole exponent is the repeated product: the power of the
/// exponent `n` is the whole power `n`, and that is the power before it
/// times the base once more.
pub proof fn lemma_power_of_whole_exponent(x: Fixed, n: nat)
    requires
        n * SCALE <= i64::MAX,
    ensures
        x.spec_powf(Fixed::of(n * SCALE)) == x.spec_pow(n),
        n > 0 ==> x.spec_pow(n) == x.spec_pow((n - 1) as nat).spec_mul(x),
{
    reveal_with_fuel(Fixed::spec_pow_fraction, 2);
    let e = n * SCALE;
    assert(e / (SCALE as int) == n && e % (SCALE as int) == 0) by (nonlinear_arith)
        requires
            e == n * 1_000_000,
            SCALE == 1_000_000,
    ;
    let p = x.spec_pow(n);
    assert((p@ * SCALE) / (SCALE as int) == p@);
}

/// The power of the exponent one half is the square root.
pub proof fn lemma_power_one_half(x: Fixed)
    ensures
        x.spec_powf(Fixed { raw: 500_000 }) == x.spec_sqrt(),
{
    reveal_with_fuel(Fixed::spec_pow_fraction, 3);
    let root = x.spec_sqrt();
    assert((root@ * SCALE) / (SCALE as int) == root@);
    assert((SCALE * root@) / (SCALE as int) == root@);
}

/// For a base from 0 to 1 the whole power is the exact power, but for the
/// rounding of its `n` products: it never exceeds the exact power, and
/// falls short of it by less than `n` millionths.
pub proof fn lemma_power_is_close(x: Fixed, n: nat)
    requires
        0 <= x@ <= SCALE,
        n >= 1,
    ensures
        0 <= x.spec_pow(n)@ <= SCALE,
        x.spec_pow(n)@ * power(SCALE as int, (n - 1) as nat) <= power(x@, n),
        power(x@, n) < (x.spec_pow(n)@ + n) * power(SCALE as int, (n - 1) as nat),
    decreases n,
{
    let s = SCALE as int;
    if n == 1 {
        lemma_power_one(x);
        reveal_with_fuel(power, 2);
        assert(power(x@, 1) == x@) by (nonlinear_arith)
            requires
                power(x@, 1) == x@ * 1,
        ;
        assert(power(s, 0) == 1);
        assert((x@ + 1) * power(s, 0) == x@ + 1) by (nonlinear_arith)
            requires
                power(s, 0) == 1,
        ;
        assert(x@ * power(s, 0) == x@) by (nonlinear_arith)
            requires
                power(s, 0) == 1,
        ;
    } else {
        lemma_power_is_close(x, (n - 1) as nat);
        let p = x.spec_pow((n - 1) as nat)@;
        let q = x.spec_pow(n)@;
        let w = power(s, (n - 2) as nat);
        let e = power(x@, (n - 1) as nat);
        let m = (n - 1) as int;
        lemma_power_positive(s, (n - 2) as nat);
        assert(power(s, (n - 1) as nat) == s * w);
        assert(power(x@, n) == x@ * e);
        assert(0 <= p * x@ <= s * s) by (nonlinear_arith)
            requires
                0 <= p <= s,
                0 <= x@ <= s,
        ;
        lemma_fundamental_div_mod(p * x@, s);
        lemma_div_between(p * x@, s);
        assert((p * x@) / s <= s) by {
            lemma_div_is_ordered(p * x@, s * s, s);
            lemma_div_multiples_vanish(s, s);
        }
        assert(q == (p * x@) / s);
        let r = (p * x@) % s;
        // from below
        assert(q * (s * w) <= x@ * e) by (nonlinear_arith)
            requires
                p * x@ == s * q + r,
                0 <= r,
                p * w <= e,
                0 <= x@,
                0 < w,
                0 <= q,
        ;
        // from above
        assert((q + n) * power(s, (n - 1) as nat) == (q + m + 1) * (s * w));
        assert(q * power(s, (n - 1) as nat) == q * (s * w));
        assert(x@ * e < (q + m + 1) * (s * w)) by (nonlinear_arith)
            requires
                p * x@ == s * q + r,
                r < s,
                e < (p + m) * w,
                0 <= x@ <= s,
                0 < w,
                0 <= m,
                0 <= p,
        ;
    }
}

/// A power of a positive number is positive.
proof fn lemma_power_positive(b: int, n: nat)
    requires
        b > 0,
    ensures
        power(b, n) > 0,
    decreases n,
{
    if n > 0 {
        lemma_power_positive(b, (n - 1) as nat);
        assert(b * power(b, (n - 1) as nat) > 0) by (nonlinear_arith)
            requires
                b > 0,
                power(b, (n - 1) as nat) > 0,
        ;
    }
}

} // verus!
