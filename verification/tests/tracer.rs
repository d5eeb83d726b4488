use computer_graphics::color::Color;
use computer_graphics::fixed::Fixed;
use computer_graphics::light::Light;
use computer_graphics::raytracer::{
    closest_intersection, compute_lighting, ray_at, reflect_ray, trace_ray, EPSILON,
    RECURSION_DEPTH,
};
use computer_graphics::shape::Sphere;
use computer_graphics::vector::{Point, Vector};

fn num(thousandths: i64) -> Fixed {
    Fixed { raw: thousandths * 1_000 }
}

fn point(x: i64, y: i64, z: i64) -> Point {
    Point(num(x), num(y), num(z))
}

fn vector(x: i64, y: i64, z: i64) -> Vector {
    Vector(num(x), num(y), num(z))
}

fn sphere(center: Point, radius: i64, color: Color, specular: i32, reflective: i64) -> Sphere {
    Sphere::new(center, num(radius), color, Fixed::from_int(specular), num(reflective))
}

fn exponent(n: i32) -> Fixed {
    Fixed::from_int(n)
}

fn forward() -> Vector {
    vector(0, 0, 1000)
}

fn unbounded() -> Fixed {
    Fixed::max_value()
}

#[test]
fn the_constants_of_the_tracer() {
    assert_eq!(RECURSION_DEPTH, 3);
    assert_eq!(EPSILON, 1_000);
}

#[test]
fn ray_at_walks_along_the_ray() {
    assert_eq!(ray_at(point(1000, 2000, 3000), vector(1000, 0, -1000), num(2500)), point(3500, 2000, 500));
    assert_eq!(ray_at(point(1000, 2000, 3000), vector(1000, 0, -1000), num(0)), point(1000, 2000, 3000));
}

#[test]
fn reflect_ray_mirrors_about_the_normal() {
    assert_eq!(reflect_ray(vector(0, 1000, 0), vector(1000, 1000, 0)), vector(-1000, 1000, 0));
    assert_eq!(reflect_ray(vector(0, 0, -1000), vector(0, 0, -2000)), vector(0, 0, -2000));
    assert_eq!(reflect_ray(vector(0, 0, 0), vector(1000, 2000, 3000)), vector(-1000, -2000, -3000));
}

#[test]
fn the_closest_sphere_is_found_whatever_its_place_in_the_scene() {
    let far = sphere(point(0, 0, 5000), 1000, Color(1, 1, 1), -1, 0);
    let near = sphere(point(0, 0, 3000), 1000, Color(2, 2, 2), -1, 0);
    let scene = [far, near];
    let (t, hit) = closest_intersection(Point::origin(), forward(), &scene, num(1000), unbounded()).unwrap();
    assert_eq!(t, num(2000));
    assert_eq!(hit.color, Color(2, 2, 2));
    let scene = [near, far];
    let (t, hit) = closest_intersection(Point::origin(), forward(), &scene, num(1000), unbounded()).unwrap();
    assert_eq!(t, num(2000));
    assert_eq!(hit.color, Color(2, 2, 2));
}

#[test]
fn of_two_spheres_hit_at_the_same_place_the_first_is_taken() {
    let one = sphere(point(0, 0, 3000), 1000, Color(2, 2, 2), -1, 0);
    let other = sphere(point(0, 0, 3000), 1000, Color(3, 3, 3), -1, 0);
    let scene = [one, other];
    let (t, hit) = closest_intersection(Point::origin(), forward(), &scene, num(0), unbounded()).unwrap();
    assert_eq!(t, num(2000));
    assert_eq!(hit.color, Color(2, 2, 2));
    let scene = [other, one];
    let (_, hit) = closest_intersection(Point::origin(), forward(), &scene, num(0), unbounded()).unwrap();
    assert_eq!(hit.color, Color(3, 3, 3));
}

#[test]
fn only_hits_within_the_range_count() {
    let far = sphere(point(0, 0, 5000), 1000, Color(1, 1, 1), -1, 0);
    let near = sphere(point(0, 0, 3000), 1000, Color(2, 2, 2), -1, 0);
    let scene = [far, near];
    // the near sphere is left behind: its far side at 4 is the first hit
    let (t, hit) = closest_intersection(Point::origin(), forward(), &scene, num(2500), unbounded()).unwrap();
    assert_eq!(t, num(4000));
    assert_eq!(hit.color, Color(1, 1, 1));
    // the ends of the range belong to it
    let (t, _) = closest_intersection(Point::origin(), forward(), &scene, num(2000), num(2000)).unwrap();
    assert_eq!(t, num(2000));
    assert!(closest_intersection(Point::origin(), forward(), &scene, num(4500), num(5000)).is_none());
    assert!(closest_intersection(Point::origin(), forward(), &scene, num(7000), unbounded()).is_none());
    assert!(closest_intersection(Point::origin(), forward(), &scene, num(3000), num(1000)).is_none());
}

#[test]
fn an_empty_scene_is_never_hit() {
    assert!(closest_intersection(Point::origin(), forward(), &[], num(0), unbounded()).is_none());
}

#[test]
fn a_ray_that_points_away_from_a_sphere_hits_nothing() {
    let behind = sphere(point(0, 0, -3000), 1000, Color(2, 2, 2), -1, 0);
    assert!(closest_intersection(Point::origin(), forward(), &[behind], num(1), unbounded()).is_none());
}

fn surface() -> (Point, Vector, Vector, Sphere) {
    // the point of the sphere that faces the origin
    (
        point(0, 0, 2000),
        vector(0, 0, -1000),
        vector(0, 0, -1000),
        sphere(point(0, 0, 3000), 1000, Color(200, 100, 50), -1, 0),
    )
}

#[test]
fn ambient_light_adds_up() {
    let (p, n, v, s) = surface();
    let lights = [Light::Ambient(num(200)), Light::Ambient(num(300))];
    assert_eq!(compute_lighting(p, n, v, &lights, exponent(-1), &[s]), num(500));
    assert_eq!(compute_lighting(p, n, v, &[], exponent(-1), &[s]), num(0));
}

#[test]
fn a_point_light_straight_ahead_gives_its_full_intensity() {
    let (p, n, v, s) = surface();
    let lights = [Light::Ambient(num(200)), Light::Point(num(600), Point::origin())];
    assert_eq!(compute_lighting(p, n, v, &lights, exponent(-1), &[s]), num(800));
}

#[test]
fn a_sphere_between_surface_and_point_light_casts_a_shadow() {
    let (p, n, v, s) = surface();
    let blocker = sphere(point(0, 0, 1000), 500, Color(0, 0, 0), -1, 0);
    let lights = [Light::Ambient(num(200)), Light::Point(num(600), Point::origin())];
    assert_eq!(compute_lighting(p, n, v, &lights, exponent(-1), &[s, blocker]), num(200));
}

#[test]
fn a_sphere_behind_a_point_light_casts_no_shadow() {
    let (p, n, v, s) = surface();
    let behind = sphere(point(0, 0, -2000), 500, Color(0, 0, 0), -1, 0);
    let lights = [Light::Point(num(600), Point::origin())];
    assert_eq!(compute_lighting(p, n, v, &lights, exponent(-1), &[s, behind]), num(600));
}

#[test]
fn a_sphere_anywhere_towards_a_directional_light_casts_a_shadow() {
    let (p, n, v, s) = surface();
    let behind = sphere(point(0, 0, -2000), 500, Color(0, 0, 0), -1, 0);
    let lights = [Light::Directional(num(600), vector(0, 0, -1000))];
    assert_eq!(compute_lighting(p, n, v, &lights, exponent(-1), &[s, behind]), num(0));
    assert_eq!(compute_lighting(p, n, v, &lights, exponent(-1), &[s]), num(600));
}

#[test]
fn diffuse_light_follows_the_cosine() {
    let (p, n, v, s) = surface();
    let lights = [Light::Directional(num(300), vector(0, 1000, -1000))];
    assert_eq!(compute_lighting(p, n, v, &lights, exponent(-1), &[s]), Fixed { raw: 212_131 });
}

#[test]
fn diffuse_light_does_not_depend_on_the_length_of_the_direction() {
    let (p, n, v, s) = surface();
    let short = Vector(Fixed { raw: 0 }, Fixed { raw: 3 }, Fixed { raw: -3 });
    assert_eq!(
        compute_lighting(p, n, v, &[Light::Directional(num(300), short)], exponent(-1), &[s]),
        Fixed { raw: 212_131 }
    );
    let long = vector(0, 1_000_000, -1_000_000);
    assert_eq!(
        compute_lighting(p, n, v, &[Light::Directional(num(300), long)], exponent(-1), &[s]),
        Fixed { raw: 212_131 }
    );
}

#[test]
fn a_highlight_is_added_for_a_specular_surface() {
    let (p, n, v, s) = surface();
    let lights = [Light::Directional(num(300), vector(0, 1000, -1000))];
    assert_eq!(compute_lighting(p, n, v, &lights, exponent(10), &[s]), Fixed { raw: 221_505 });
    let lights = [Light::Point(num(600), point(1000, 0, 0))];
    assert_eq!(compute_lighting(p, n, v, &lights, exponent(2), &[s]), Fixed { raw: 1_016_655 });
}

#[test]
fn the_exponent_of_a_highlight_may_be_any_number() {
    let (p, n, v, s) = surface();
    let lights = [Light::Point(num(600), point(1000, 0, 0))];
    assert_eq!(compute_lighting(p, n, v, &lights, num(2500), &[s]), Fixed { raw: 990_610 });
    assert_eq!(compute_lighting(p, n, v, &lights, num(0), &[s]), Fixed { raw: 1_136_656 });
    assert_eq!(compute_lighting(p, n, v, &lights, num(-2000), &[s]), Fixed { raw: 1_286_656 });
    // -1 switches the highlight off: what is left is the diffuse light
    assert_eq!(compute_lighting(p, n, v, &lights, num(-1000), &[s]), Fixed { raw: 536_656 });
}

#[test]
fn light_from_behind_the_surface_adds_nothing() {
    let (p, n, v, s) = surface();
    let lights = [Light::Directional(num(300), vector(0, 0, 1000))];
    assert_eq!(compute_lighting(p, n, v, &lights, exponent(50), &[]), num(0));
    assert_eq!(compute_lighting(p, n, v, &lights, exponent(50), &[s]), num(0));
}

#[test]
fn a_surface_without_normal_takes_ambient_light_only() {
    let (p, _, v, s) = surface();
    let lights = [Light::Ambient(num(100)), Light::Directional(num(300), vector(0, 0, -1000))];
    assert_eq!(compute_lighting(p, vector(0, 0, 0), v, &lights, exponent(5), &[s]), num(100));
}

#[test]
fn a_ray_into_an_empty_scene_returns_the_background() {
    let lights = [Light::Ambient(num(1000)), Light::Point(num(600), point(1000, 0, 0))];
    assert_eq!(trace_ray(Point::origin(), forward(), &[], &lights, num(1000), unbounded(), 3), Color(0, 0, 0));
    assert_eq!(trace_ray(Point::origin(), forward(), &[], &[], num(0), unbounded(), 0), Color(0, 0, 0));
}

#[test]
fn under_ambient_light_of_intensity_one_a_sphere_shows_its_own_color() {
    let (_, _, _, s) = surface();
    let lights = [Light::Ambient(num(1000))];
    assert_eq!(
        trace_ray(Point::origin(), forward(), &[s], &lights, num(1000), unbounded(), 3),
        Color(200, 100, 50)
    );
    assert_eq!(
        trace_ray(Point::origin(), vector(0, 1000, 0), &[s], &lights, num(1000), unbounded(), 3),
        Color(0, 0, 0)
    );
}

fn three_lights() -> [Light; 3] {
    [
        Light::Ambient(num(200)),
        Light::Point(num(600), point(2000, 1000, 0)),
        Light::Directional(num(200), vector(1000, 4000, 4000)),
    ]
}

#[test]
fn with_no_reflection_left_a_mirror_looks_like_a_dull_sphere() {
    let mirror = sphere(point(0, 0, 3000), 1000, Color(200, 100, 50), 10, 900);
    let dull = sphere(point(0, 0, 3000), 1000, Color(200, 100, 50), 10, 0);
    let lights = three_lights();
    let seen_mirror = trace_ray(Point::origin(), forward(), &[mirror], &lights, num(1000), unbounded(), 0);
    let seen_dull = trace_ray(Point::origin(), forward(), &[dull], &lights, num(1000), unbounded(), 0);
    assert_eq!(seen_mirror, Color(122, 61, 30));
    assert_eq!(seen_dull, Color(122, 61, 30));
    // the depth makes no difference to the dull sphere
    let deep = trace_ray(Point::origin(), forward(), &[dull], &lights, num(1000), unbounded(), 3);
    assert_eq!(deep, Color(122, 61, 30));
}

#[test]
fn a_mirror_that_faces_the_void_is_darkened() {
    let mirror = sphere(point(0, 0, 3000), 1000, Color(200, 100, 50), 10, 900);
    let lights = three_lights();
    let seen = trace_ray(Point::origin(), forward(), &[mirror], &lights, num(1000), unbounded(), 3);
    assert_eq!(seen, Color(12, 6, 3));
}

#[test]
fn a_mirror_blends_its_color_with_what_it_faces() {
    let mirror = sphere(point(0, 0, 3000), 1000, Color(200, 100, 50), -1, 500);
    let green = sphere(point(0, 0, -3000), 1000, Color(0, 200, 0), -1, 0);
    let scene = [mirror, green];
    let full = [Light::Ambient(num(1000))];
    assert_eq!(
        trace_ray(Point::origin(), forward(), &scene, &full, num(1000), unbounded(), 1),
        Color(100, 150, 25)
    );
    assert_eq!(
        trace_ray(Point::origin(), forward(), &scene, &full, num(1000), unbounded(), 0),
        Color(200, 100, 50)
    );
    let half = [Light::Ambient(num(500))];
    assert_eq!(
        trace_ray(Point::origin(), forward(), &scene, &half, num(1000), unbounded(), 3),
        Color(50, 75, 12)
    );
}

#[test]
fn a_negative_reflectivity_counts_as_none() {
    let odd = sphere(point(0, 0, 3000), 1000, Color(200, 100, 50), -1, -500);
    let green = sphere(point(0, 0, -3000), 1000, Color(0, 200, 0), -1, 0);
    let full = [Light::Ambient(num(1000))];
    assert_eq!(
        trace_ray(Point::origin(), forward(), &[odd, green], &full, num(1000), unbounded(), 3),
        Color(200, 100, 50)
    );
}
