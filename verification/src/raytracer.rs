//! The ray tracer: nearest hit, lighting with hard shadows, and bounded
//! reflections.

use vstd::prelude::*;
use vstd::arithmetic::div_mod::lemma_fundamental_div_mod_converse;
use crate::canvas::{pixel_index, Canvas};
use crate::color::Color;
use crate::fixed::{Fixed, SCALE};
use crate::light::Light;
use crate::shape::{Shape, Sphere};
use crate::vector::{Point, Vector};

verus! {

/// How many times a ray may be reflected.
pub const RECURSION_DEPTH: usize = 3;

/// The raw value of the smallest distance at which a secondary ray may hit
/// anything: 0.001. It keeps a surface from shadowing or mirroring itself.
pub const EPSILON: i64 = 1_000;

/// The line `origin + t * direction` meets `sphere` at `t`, and `t` lies in
/// `[t_min, t_max]`.
pub open spec fn hits_at(
    sphere: Sphere,
    origin: Point,
    direction: Vector,
    t_min: Fixed,
    t_max: Fixed,
    t: Fixed,
) -> bool {
    match sphere.spec_intersect_ray(origin, direction) {
        None => false,
        Some((t1, t2)) => (t == t1 || t == t2) && t_min@ <= t@ <= t_max@,
    }
}

/// Sphere `i` of `scene` is hit at `t`, nothing is hit before `t`, and no
/// sphere before `i` is hit at `t`.
pub open spec fn is_closest(
    origin: Point,
    direction: Vector,
    scene: Seq<Sphere>,
    t_min: Fixed,
    t_max: Fixed,
    t: Fixed,
    i: int,
) -> bool {
    &&& 0 <= i < scene.len()
    &&& hits_at(scene[i], origin, direction, t_min, t_max, t)
    &&& forall|j: int, u: Fixed|
        0 <= j < scene.len() && #[trigger] hits_at(scene[j], origin, direction, t_min, t_max, u)
            ==> t@ <= u@
    &&& forall|j: int|
        0 <= j < i ==> !#[trigger] hits_at(scene[j], origin, direction, t_min, t_max, t)
}

/// The nearest hit along the ray within `[t_min, t_max]`: its parameter and
/// the index of the sphere. Of two spheres hit at the same parameter the one
/// that comes first in `scene` is taken.
pub open spec fn spec_closest_intersection(
    origin: Point,
    direction: Vector,
    scene: Seq<Sphere>,
    t_min: Fixed,
    t_max: Fixed,
) -> Option<(Fixed, int)> {
    if exists|hit: (Fixed, int)|
        is_closest(origin, direction, scene, t_min, t_max, hit.0, hit.1) {
        Some(choose|hit: (Fixed, int)| is_closest(origin, direction, scene, t_min, t_max, hit.0, hit.1))
    } else {
        None
    }
}

/// What `spec_closest_intersection` gives is a nearest hit, and where it
/// gives nothing there is none.
pub proof fn lemma_closest_meets(
    origin: Point,
    direction: Vector,
    scene: Seq<Sphere>,
    t_min: Fixed,
    t_max: Fixed,
)
    ensures
        match spec_closest_intersection(origin, direction, scene, t_min, t_max) {
            Some((t, i)) => is_closest(origin, direction, scene, t_min, t_max, t, i),
            None => forall|t: Fixed, i: int|
                !is_closest(origin, direction, scene, t_min, t_max, t, i),
        },
{
    if !exists|hit: (Fixed, int)| is_closest(origin, direction, scene, t_min, t_max, hit.0, hit.1) {
        assert forall|t: Fixed, i: int|
            !is_closest(origin, direction, scene, t_min, t_max, t, i) by {
            if is_closest(origin, direction, scene, t_min, t_max, t, i) {
                assert(is_closest(origin, direction, scene, t_min, t_max, (t, i).0, (t, i).1));
            }
        }
    }
}

/// There is at most one nearest hit.
pub proof fn lemma_closest_unique(
    origin: Point,
    direction: Vector,
    scene: Seq<Sphere>,
    t_min: Fixed,
    t_max: Fixed,
    t: Fixed,
    i: int,
    u: Fixed,
    j: int,
)
    requires
        is_closest(origin, direction, scene, t_min, t_max, t, i),
        is_closest(origin, direction, scene, t_min, t_max, u, j),
    ensures
        t == u,
        i == j,
{
    assert(t@ <= u@);
    assert(u@ <= t@);
}

/// A hit that meets `is_closest` is the value of `spec_closest_intersection`.
pub proof fn lemma_closest_is(
    origin: Point,
    direction: Vector,
    scene: Seq<Sphere>,
    t_min: Fixed,
    t_max: Fixed,
    t: Fixed,
    i: int,
)
    requires
        is_closest(origin, direction, scene, t_min, t_max, t, i),
    ensures
        spec_closest_intersection(origin, direction, scene, t_min, t_max) == Some((t, i)),
{
    let hit = choose|hit: (Fixed, int)|
        is_closest(origin, direction, scene, t_min, t_max, hit.0, hit.1);
    assert(is_closest(origin, direction, scene, t_min, t_max, (t, i).0, (t, i).1));
    lemma_closest_unique(origin, direction, scene, t_min, t_max, t, i, hit.0, hit.1);
}

/// The nearest sphere that the ray meets within `[t_min, t_max]`, with the
/// parameter of the hit.
pub fn closest_intersection<'a>(
    origin: Point,
    direction_vector: Vector,
    scenes: &'a [Sphere],
    t_min: Fixed,
    t_max: Fixed,
) -> (r: Option<(Fixed, &'a Sphere)>)
    ensures
        match spec_closest_intersection(origin, direction_vector, scenes@, t_min, t_max) {
            None => r is None,
            Some((t, i)) => r matches Some((rt, sphere)) && rt == t && *sphere == scenes@[i],
        },
{
    let mut best: Option<(Fixed, usize)> = None;
    let mut i: usize = 0;
    while i < scenes.len()
        invariant
            i <= scenes.len(),
            match best {
                None => forall|j: int, u: Fixed|
                    0 <= j < i ==> !#[trigger] hits_at(
                        scenes@[j],
                        origin,
                        direction_vector,
                        t_min,
                        t_max,
                        u,
                    ),
                Some((t, k)) => is_closest(
                    origin,
                    direction_vector,
                    scenes@.subrange(0, i as int),
                    t_min,
                    t_max,
                    t,
                    k as int,
                ),
            },
        decreases scenes.len() - i,
    {
        let ghost before = scenes@.subrange(0, i as int);
        let ghost after = scenes@.subrange(0, i + 1);
        assert(forall|j: int| 0 <= j < i ==> before[j] == scenes@[j]);
        assert(forall|j: int| 0 <= j <= i ==> after[j] == scenes@[j]);
        if let Some((t1, t2)) = scenes[i].intersect_ray(origin, direction_vector) {
            if t_min.raw <= t1.raw && t1.raw <= t_max.raw {
                let nearer = match best {
                    None => true,
                    Some((t, _)) => t1.raw < t.raw,
                };
                if nearer {
                    best = Some((t1, i));
                }
            }
            if t_min.raw <= t2.raw && t2.raw <= t_max.raw {
                let nearer = match best {
                    None => true,
                    Some((t, _)) => t2.raw < t.raw,
                };
                if nearer {
                    best = Some((t2, i));
                }
            }
        }
        proof {
            match best {
                None => {},
                Some((t, k)) => {
                    assert forall|j: int, u: Fixed|
                        0 <= j < after.len() && #[trigger] hits_at(
                            after[j],
                            origin,
                            direction_vector,
                            t_min,
                            t_max,
                            u,
                        ) implies t@ <= u@ by {
                        if j < i {
                            assert(hits_at(before[j], origin, direction_vector, t_min, t_max, u));
                        }
                    }
                    assert forall|j: int| 0 <= j < k implies !#[trigger] hits_at(
                        after[j],
                        origin,
                        direction_vector,
                        t_min,
                        t_max,
                        t,
                    ) by {
                        if hits_at(after[j], origin, direction_vector, t_min, t_max, t) {
                            assert(hits_at(before[j], origin, direction_vector, t_min, t_max, t));
                        }
                    }
                },
            }
        }
        i = i + 1;
    }
    assert(scenes@.subrange(0, i as int) == scenes@);
    match best {
        None => {
            proof {
                lemma_closest_meets(origin, direction_vector, scenes@, t_min, t_max);
            }
            None
        },
        Some((t, k)) => {
            proof {
                lemma_closest_is(origin, direction_vector, scenes@, t_min, t_max, t, k as int);
            }
            Some((t, &scenes[k]))
        },
    }
}

/// The point `origin + t * direction`.
pub open spec fn spec_ray_at(origin: Point, direction: Vector, t: Fixed) -> Point {
    origin.spec_add(direction.spec_scale(t).spec_to_point())
}

/// The mirror image of `ray` about the unit vector `n`: `2 * n * dot(n, ray) - ray`.
pub open spec fn spec_reflect_ray(n: Vector, ray: Vector) -> Vector {
    n.spec_scale(Fixed::of(2 * SCALE)).spec_scale(n.spec_dot(ray)).spec_sub(ray)
}

/// `total` with the diffuse share of one light added: the intensity times the
/// cosine of the angle between the normal `n` and the direction `l` to the
/// light, where the light stands in front of the surface.
pub open spec fn spec_diffuse(total: Fixed, intensity: Fixed, n: Vector, l: Vector) -> Fixed {
    let cosine = n.spec_cos(l);
    if cosine@ > 0 {
        total.spec_add(intensity.spec_mul(cosine))
    } else {
        total
    }
}

/// `total` with the specular share of one light added: the intensity times
/// the cosine of the angle between the mirrored light and the view direction
/// `v`, raised to `specular`. The exponent -1 switches the highlight off.
pub open spec fn spec_specular(
    total: Fixed,
    intensity: Fixed,
    n: Vector,
    l: Vector,
    v: Vector,
    specular: Fixed,
) -> Fixed {
    let r_cos_v = spec_reflect_ray(n, l).spec_cos(v);
    if specular@ != -SCALE && r_cos_v@ > 0 {
        total.spec_add(intensity.spec_mul(r_cos_v.spec_powf(specular)))
    } else {
        total
    }
}

/// `total` with what arrives at `p` along `l` added. Nothing arrives where a
/// sphere stands on the segment from `p` to `p + t_max * l`, its first
/// thousandth left out.
pub open spec fn spec_lit(
    total: Fixed,
    intensity: Fixed,
    l: Vector,
    t_max: Fixed,
    p: Point,
    n: Vector,
    v: Vector,
    specular: Fixed,
    scene: Seq<Sphere>,
) -> Fixed {
    if spec_closest_intersection(p, l, scene, Fixed { raw: EPSILON }, t_max) is Some {
        total
    } else {
        spec_specular(spec_diffuse(total, intensity, n, l), intensity, n, l, v, specular)
    }
}

/// `total` with the share of `light` added. A point light is shadowed by what
/// stands between the surface and the light, a directional light by anything
/// that stands in its direction.
pub open spec fn spec_light_after(
    total: Fixed,
    light: Light,
    p: Point,
    n: Vector,
    v: Vector,
    specular: Fixed,
    scene: Seq<Sphere>,
) -> Fixed {
    match light {
        Light::Ambient(intensity) => total.spec_add(intensity),
        Light::Point(intensity, position) => spec_lit(
            total,
            intensity,
            position.spec_sub(p).spec_to_vector(),
            Fixed { raw: SCALE },
            p,
            n,
            v,
            specular,
            scene,
        ),
        Light::Directional(intensity, direction) => spec_lit(
            total,
            intensity,
            direction,
            Fixed { raw: i64::MAX },
            p,
            n,
            v,
            specular,
            scene,
        ),
    }
}

/// The light that reaches the surface point `p` with normal `n`, seen from
/// direction `v`: the shares of all `lights`, added up in their order.
pub open spec fn spec_compute_lighting(
    p: Point,
    n: Vector,
    v: Vector,
    lights: Seq<Light>,
    specular: Fixed,
    scene: Seq<Sphere>,
) -> Fixed
    decreases lights.len(),
{
    if lights.len() == 0 {
        Fixed::of(0)
    } else {
        spec_light_after(
            spec_compute_lighting(p, n, v, lights.drop_last(), specular, scene),
            lights.last(),
            p,
            n,
            v,
            specular,
            scene,
        )
    }
}

/// The color that arrives along the ray: the background where it hits
/// nothing within `[t_min, t_max]`; else the color of the nearest sphere
/// under the light at the hit, blended with what its surface mirrors while
/// `depth` allows another reflection.
pub open spec fn spec_trace_ray(
    start: Point,
    direction: Vector,
    scene: Seq<Sphere>,
    lights: Seq<Light>,
    t_min: Fixed,
    t_max: Fixed,
    depth: nat,
) -> Color
    decreases depth,
{
    match spec_closest_intersection(start, direction, scene, t_min, t_max) {
        None => Color::spec_background(),
        Some((t, i)) => {
            let sphere = scene[i];
            let p = spec_ray_at(start, direction, t);
            let n = sphere.spec_normal(p);
            let view = direction.spec_scale(Fixed::of(-SCALE));
            let local = sphere.color.spec_scale(
                spec_compute_lighting(p, n, view, lights, sphere.specular, scene),
            );
            if depth == 0 || sphere.reflective@ <= 0 {
                local
            } else {
                let reflected = spec_trace_ray(
                    p,
                    spec_reflect_ray(n, view),
                    scene,
                    lights,
                    Fixed { raw: EPSILON },
                    Fixed { raw: i64::MAX },
                    (depth - 1) as nat,
                );
                local.spec_scale(Fixed { raw: SCALE }.spec_sub(sphere.reflective)).spec_add(
                    reflected.spec_scale(sphere.reflective),
                )
            }
        },
    }
}

/// The point at parameter `t` on the ray from `origin` along `direction_vector`.
pub fn ray_at(origin: Point, direction_vector: Vector, t: Fixed) -> (r: Point)
    ensures
        r == spec_ray_at(origin, direction_vector, t),
{
    origin.add(direction_vector.scale(t).to_point())
}

/// The mirror image of `ray` about the unit vector `n`.
pub fn reflect_ray(n: Vector, ray: Vector) -> (r: Vector)
    ensures
        r == spec_reflect_ray(n, ray),
{
    n.scale(Fixed::from_int(2)).scale(n.dot(ray)).sub(ray)
}

/// `total` with what arrives at `p` along `l` added.
fn lit(
    total: Fixed,
    intensity: Fixed,
    l: Vector,
    t_max: Fixed,
    p: Point,
    n: Vector,
    v: Vector,
    specular: Fixed,
    scenes: &[Sphere],
) -> (r: Fixed)
    ensures
        r == spec_lit(total, intensity, l, t_max, p, n, v, specular, scenes@),
{
    if closest_intersection(p, l, scenes, Fixed { raw: EPSILON }, t_max).is_some() {
        return total;
    }
    let mut i = total;
    let cosine = n.cos(l);
    if cosine.raw > 0 {
        i = i.add(intensity.mul(cosine));
    }
    if specular.raw != -SCALE {
        let r_cos_v = reflect_ray(n, l).cos(v);
        if r_cos_v.raw > 0 {
            i = i.add(intensity.mul(r_cos_v.powf(specular)));
        }
    }
    i
}

/// The intensity of the light that reaches the surface point `p`.
///
/// `n` is the unit normal of the surface at `p`, `v` the direction towards
/// the viewer, and `s` the specular exponent of the surface.
pub fn compute_lighting(
    p: Point,
    n: Vector,
    v: Vector,
    lights: &[Light],
    s: Fixed,
    scenes: &[Sphere],
) -> (r: Fixed)
    ensures
        r == spec_compute_lighting(p, n, v, lights@, s, scenes@),
{
    let mut total = Fixed::zero();
    let mut k: usize = 0;
    while k < lights.len()
        invariant
            k <= lights.len(),
            total == spec_compute_lighting(p, n, v, lights@.subrange(0, k as int), s, scenes@),
        decreases lights.len() - k,
    {
        assert(lights@.subrange(0, k + 1).drop_last() == lights@.subrange(0, k as int));
        total = match lights[k] {
            Light::Ambient(intensity) => total.add(intensity),
            Light::Point(intensity, position) => lit(
                total,
                intensity,
                position.sub(p).to_vector(),
                Fixed::one(),
                p,
                n,
                v,
                s,
                scenes,
            ),
            Light::Directional(intensity, direction) => lit(
                total,
                intensity,
                direction,
                Fixed::max_value(),
                p,
                n,
                v,
                s,
                scenes,
            ),
        };
        k = k + 1;
    }
    assert(lights@.subrange(0, k as int) == lights@);
    total
}

/// The color seen along the ray from `start` in `direction_vector`.
pub fn trace_ray(
    start: Point,
    direction_vector: Vector,
    scenes: &[Sphere],
    lights: &[Light],
    t_min: Fixed,
    t_max: Fixed,
    recursion_depth: usize,
) -> (r: Color)
    ensures
        r == spec_trace_ray(
            start,
            direction_vector,
            scenes@,
            lights@,
            t_min,
            t_max,
            recursion_depth as nat,
        ),
    decreases recursion_depth,
{
    match closest_intersection(start, direction_vector, scenes, t_min, t_max) {
        None => Color::background(),
        Some((closest_t, sphere)) => {
            let p = ray_at(start, direction_vector, closest_t);
            let normal = sphere.normal(p);
            let view = direction_vector.scale(Fixed::from_int(-1));
            let local_color = sphere.color().scale(
                compute_lighting(p, normal, view, lights, sphere.specular, scenes),
            );
            if recursion_depth == 0 || sphere.reflective.raw <= 0 {
                return local_color;
            }
            let reflected_color = trace_ray(
                p,
                reflect_ray(normal, view),
                scenes,
                lights,
                Fixed { raw: EPSILON },
                Fixed::max_value(),
                recursion_depth - 1,
            );
            local_color.scale(Fixed::one().sub(sphere.reflective)).add(
                reflected_color.scale(sphere.reflective),
            )
        },
    }
}

/// The scene: the set of objects in space that a canvas shows.
#[derive(Clone, Copy, Debug, PartialEq, Eq, Structural)]
pub struct Scene;

/// The rectangle in space through which the camera looks: its centre, and
/// its height and width in units of space.
#[derive(Clone, Copy, Debug, PartialEq, Eq, Structural)]
pub struct Viewport {
    pub center: Point,
    pub h: Fixed,
    pub w: Fixed,
}

impl Viewport {
    /// The viewport with the given centre, height and width.
    pub fn new(center: Point, h: Fixed, w: Fixed) -> (r: Viewport)
        ensures
            r.center == center,
            r.h == h,
            r.w == w,
    {
        Viewport { center, h, w }
    }
}

impl Default for Viewport {
    /// One unit wide and high, one unit in front of the origin.
    fn default() -> (r: Viewport)
        ensures
            r.center == Point(Fixed::of(0), Fixed::of(0), Fixed::of(SCALE as int)),
            r.h@ == SCALE,
            r.w@ == SCALE,
    {
        Viewport {
            center: Point(Fixed::zero(), Fixed::zero(), Fixed::one()),
            h: Fixed::one(),
            w: Fixed::one(),
        }
    }
}

/// The point of the viewport that the canvas point `(x, y)` stands for, on a
/// canvas of `width` by `height` pixels:
/// `(x / width * viewport.w, y / height * viewport.h, viewport.center.z)`.
pub open spec fn spec_viewport_point(
    width: nat,
    height: nat,
    viewport: Viewport,
    x: Fixed,
    y: Fixed,
) -> Point {
    Point(
        x.spec_div(Fixed::of(width * SCALE)).spec_mul(viewport.w),
        y.spec_div(Fixed::of(height * SCALE)).spec_mul(viewport.h),
        viewport.center.2,
    )
}

/// The color of the pixel at canvas coordinates `(x, y)`: what arrives at
/// the camera through the point of the viewport that the pixel stands for,
/// from no nearer than the viewport and no farther than 5000 units.
pub open spec fn spec_pixel_color(
    camera: Point,
    viewport: Viewport,
    width: nat,
    height: nat,
    scene: Seq<Sphere>,
    lights: Seq<Light>,
    x: int,
    y: int,
) -> Color {
    let target = spec_viewport_point(
        width,
        height,
        viewport,
        Fixed::of(x * SCALE),
        Fixed::of(y * SCALE),
    );
    spec_trace_ray(
        camera,
        target.spec_sub(camera).spec_to_vector(),
        scene,
        lights,
        Fixed { raw: SCALE },
        Fixed::of(5000 * SCALE),
        RECURSION_DEPTH as nat,
    )
}

/// The color of the pixel at place `i` of storage: the pixel stands at
/// column `i % width` of row `i / width`, that is at the canvas coordinates
/// `(i % width - width / 2, height / 2 - i / width)`.
pub open spec fn spec_color_at(
    camera: Point,
    viewport: Viewport,
    width: nat,
    height: nat,
    scene: Seq<Sphere>,
    lights: Seq<Light>,
    i: int,
) -> Color {
    spec_pixel_color(
        camera,
        viewport,
        width,
        height,
        scene,
        lights,
        i % (width as int) - (width / 2) as int,
        (height / 2) as int - i / (width as int),
    )
}

/// The pixels of a canvas that held `before`, once the rendering has
/// painted the first `count` of them.
pub open spec fn spec_rendered_until(
    before: Seq<Color>,
    camera: Point,
    viewport: Viewport,
    width: nat,
    height: nat,
    scene: Seq<Sphere>,
    lights: Seq<Light>,
    count: int,
) -> Seq<Color> {
    Seq::new(
        before.len(),
        |i: int|
            if i < count {
                spec_color_at(camera, viewport, width, height, scene, lights, i)
            } else {
                before[i]
            },
    )
}

/// The pixels of a rendered canvas of `width` by `height` pixels: every
/// pixel holds the color that the tracer gives for it.
pub open spec fn spec_rendered(
    camera: Point,
    viewport: Viewport,
    width: nat,
    height: nat,
    scene: Seq<Sphere>,
    lights: Seq<Light>,
) -> Seq<Color> {
    Seq::new(
        width * height,
        |i: int| spec_color_at(camera, viewport, width, height, scene, lights, i),
    )
}

/// A camera, the viewport it looks through, and the canvas it paints.
pub struct Raytracer {
    pub camera: Point,
    pub vw: Viewport,
    pub canvas: Canvas,
}

impl Raytracer {
    /// A tracer that looks from `camera` through `viewport` and paints `canvas`.
    pub fn new(camera: Point, viewport: Viewport, canvas: Canvas) -> (r: Raytracer)
        ensures
            r.camera == camera,
            r.vw == viewport,
            r.canvas == canvas,
    {
        Raytracer { camera, vw: viewport, canvas }
    }

    /// The point of the viewport that the canvas point `(x, y)` stands for.
    pub fn viewport_point_from_canvas_point(&self, x: Fixed, y: Fixed) -> (r: Point)
        requires
            self.canvas.spec_width() > 0,
            self.canvas.spec_height() > 0,
        ensures
            r == spec_viewport_point(
                self.canvas.spec_width(),
                self.canvas.spec_height(),
                self.vw,
                x,
                y,
            ),
    {
        let width = Fixed::from_usize(self.canvas.width());
        let height = Fixed::from_usize(self.canvas.height());
        let vx = x.div(width).mul(self.vw.w);
        let vy = y.div(height).mul(self.vw.h);
        let vz = self.vw.center.z();
        Point(vx, vy, vz)
    }

    /// The point at parameter `t` on the ray from the camera through `viewport_point`.
    pub fn ray_at(&self, viewport_point: Point, t: Fixed) -> (r: Point)
        ensures
            r == viewport_point.spec_sub(self.camera).spec_scale(t).spec_add(self.camera),
    {
        let direction = viewport_point.sub(self.camera);
        direction.scale(t).add(self.camera)
    }

    /// The unlit color of the nearest sphere on the ray from the camera
    /// through `viewport_point`, or the background color.
    pub fn trace_ray(&self, viewport_point: Point, scenes: &[Sphere], t_min: Fixed, t_max: Fixed) -> (r: Color)
        ensures
            r == match spec_closest_intersection(
                self.camera,
                viewport_point.spec_sub(self.camera).spec_to_vector(),
                scenes@,
                t_min,
                t_max,
            ) {
                None => Color::spec_background(),
                Some((t, i)) => scenes@[i].color,
            },
    {
        let d = viewport_point.sub(self.camera).to_vector();
        match closest_intersection(self.camera, d, scenes, t_min, t_max) {
            None => Color::background(),
            Some((_, sphere)) => sphere.color(),
        }
    }

    /// Renders the scene: every pixel of the canvas gets the color that
    /// the tracer gives for it, row by row from the top.
    pub fn fill_canvas(&mut self, scenes: Vec<Sphere>, lights: &[Light])
        requires
            old(self).canvas.wf(),
            old(self).canvas.spec_width() <= i32::MAX,
            old(self).canvas.spec_height() <= i32::MAX,
        ensures
            final(self).camera == old(self).camera,
            final(self).vw == old(self).vw,
            final(self).canvas.wf(),
            final(self).canvas.spec_width() == old(self).canvas.spec_width(),
            final(self).canvas.spec_height() == old(self).canvas.spec_height(),
            final(self).canvas@ == spec_rendered(
                old(self).camera,
                old(self).vw,
                old(self).canvas.spec_width(),
                old(self).canvas.spec_height(),
                scenes@,
                lights@,
            ),
    {
        let w: usize = self.canvas.width();
        let h: usize = self.canvas.height();
        let half_w: i32 = (w / 2) as i32;
        let half_h: i32 = (h / 2) as i32;
        let ghost before = self.canvas@;
        let ghost width = self.canvas.spec_width();
        let ghost height = self.canvas.spec_height();
        proof {
            self.canvas.lemma_size();
        }
        assert(self.canvas@ =~= spec_rendered_until(
            before,
            self.camera,
            self.vw,
            width,
            height,
            scenes@,
            lights@,
            0,
        ));
        let mut row: usize = 0;
        while row < h
            invariant
                row <= h,
                w == width,
                h == height,
                width <= i32::MAX,
                height <= i32::MAX,
                half_w == width / 2,
                half_h == height / 2,
                before.len() == width * height,
                self.camera == old(self).camera,
                self.vw == old(self).vw,
                self.canvas.wf(),
                self.canvas.spec_width() == width,
                self.canvas.spec_height() == height,
                width == old(self).canvas.spec_width(),
                height == old(self).canvas.spec_height(),
                self.canvas@ == spec_rendered_until(
                    before,
                    self.camera,
                    self.vw,
                    width,
                    height,
                    scenes@,
                    lights@,
                    row * width,
                ),
            decreases h - row,
        {
            let mut col: usize = 0;
            while col < w
                invariant
                    row < h,
                    col <= w,
                    w == width,
                    h == height,
                    width <= i32::MAX,
                    height <= i32::MAX,
                    half_w == width / 2,
                    half_h == height / 2,
                    before.len() == width * height,
                    self.camera == old(self).camera,
                    self.vw == old(self).vw,
                    self.canvas.wf(),
                    self.canvas.spec_width() == width,
                    self.canvas.spec_height() == height,
                    self.canvas@ == spec_rendered_until(
                        before,
                        self.camera,
                        self.vw,
                        width,
                        height,
                        scenes@,
                        lights@,
                        row * width + col,
                    ),
                decreases w - col,
            {
                let x: i32 = col as i32 - half_w;
                let y: i32 = half_h - row as i32;
                let vp_point = self.viewport_point_from_canvas_point(
                    Fixed::from_int(x),
                    Fixed::from_int(y),
                );
                let color = trace_ray(
                    self.camera,
                    vp_point.sub(self.camera).to_vector(),
                    scenes.as_slice(),
                    lights,
                    Fixed::one(),
                    Fixed::from_int(5000),
                    RECURSION_DEPTH,
                );
                let ghost place = row * width + col;
                let ghost current = self.canvas@;
                proof {
                    assert(row * width == width * row) by (nonlinear_arith);
                    lemma_fundamental_div_mod_converse(place, width as int, row as int, col as int);
                    assert(0 <= place < width * height) by (nonlinear_arith)
                        requires
                            place == row * width + col,
                            0 <= col < width,
                            0 <= row < height,
                    ;
                    assert(pixel_index(width, height, x as int, y as int) == Some(place));
                }
                self.canvas.put_pixel(x, y, color);
                assert(self.canvas@ =~= spec_rendered_until(
                    before,
                    self.camera,
                    self.vw,
                    width,
                    height,
                    scenes@,
                    lights@,
                    place + 1,
                ));
                col = col + 1;
            }
            assert((row + 1) * width == row * width + width) by (nonlinear_arith);
            row = row + 1;
        }
        assert(row * width == width * height) by (nonlinear_arith)
            requires
                row == height,
        ;
        assert(self.canvas@ =~= spec_rendered(
            self.camera,
            self.vw,
            width,
            height,
            scenes@,
            lights@,
        ));
    }
}

} // verus!
