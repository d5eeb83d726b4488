use computer_graphics::color::Color;
use computer_graphics::fixed::Fixed;
use computer_graphics::shape::{Shape, Sphere};
use computer_graphics::vector::{Point, Vector};

fn num(thousandths: i64) -> Fixed {
    Fixed { raw: thousandths * 1_000 }
}

fn ball() -> Sphere {
    Sphere::new(Point(num(0), num(0), num(3000)), num(1000), Color(255, 0, 0), num(-1000), num(0))
}

#[test]
fn a_sphere_keeps_what_it_was_made_with() {
    let s = Sphere::new(Point(num(1), num(2), num(3)), num(4), Color(5, 6, 7), num(8), num(9));
    assert_eq!(s.center, Point(num(1), num(2), num(3)));
    assert_eq!(s.radius, num(4));
    assert_eq!(s.color, Color(5, 6, 7));
    assert_eq!(s.color(), Color(5, 6, 7));
    assert_eq!(s.specular, num(8));
    assert_eq!(s.reflective, num(9));
}

#[test]
fn a_ray_through_the_center_enters_and_leaves() {
    let hit = ball().intersect_ray(Point::origin(), Vector(num(0), num(0), num(1000)));
    assert_eq!(hit, Some((num(4000), num(2000))));
}

#[test]
fn the_parameters_scale_with_the_direction() {
    let hit = ball().intersect_ray(Point::origin(), Vector(num(0), num(0), num(2000)));
    assert_eq!(hit, Some((num(2000), num(1000))));
}

#[test]
fn a_ray_that_passes_by_meets_nothing() {
    let hit = ball().intersect_ray(Point::origin(), Vector(num(500), num(0), num(1000)));
    assert_eq!(hit, None);
    let hit = ball().intersect_ray(Point::origin(), Vector(num(1000), num(0), num(0)));
    assert_eq!(hit, None);
}

#[test]
fn a_tangent_ray_meets_the_sphere_once() {
    let hit = ball().intersect_ray(Point(num(0), num(1000), num(0)), Vector(num(0), num(0), num(1000)));
    assert_eq!(hit, Some((num(3000), num(3000))));
}

#[test]
fn a_ray_from_the_center_leaves_in_both_directions() {
    let hit = ball().intersect_ray(Point(num(0), num(0), num(3000)), Vector(num(1000), num(0), num(0)));
    assert_eq!(hit, Some((num(1000), num(-1000))));
}

#[test]
fn a_ray_that_points_away_meets_the_sphere_only_behind_its_origin() {
    let hit = ball().intersect_ray(Point::origin(), Vector(num(0), num(0), num(-1000)));
    assert_eq!(hit, Some((num(-2000), num(-4000))));
    let hit = ball().intersect_ray(Point::origin(), Vector(num(100), num(100), num(-1000)));
    assert_eq!(hit, Some((Fixed { raw: -2_042_633 }, Fixed { raw: -3_839_721 })));
}

#[test]
fn a_direction_without_length_meets_nothing() {
    assert_eq!(ball().intersect_ray(Point::origin(), Vector(num(0), num(0), num(0))), None);
}

#[test]
fn a_short_direction_meets_the_sphere_at_large_parameters() {
    // a ten-thousandth of a unit long: the sphere is 20000 to 40000 steps away
    let tiny = Vector(Fixed { raw: 0 }, Fixed { raw: 0 }, Fixed { raw: 100 });
    assert_eq!(
        ball().intersect_ray(Point::origin(), tiny),
        Some((Fixed { raw: 40_000_000_000 }, Fixed { raw: 20_000_000_000 }))
    );
    let s = Sphere::new(Point(num(3000), num(0), num(0)), num(1000), Color(0, 0, 0), num(-1000), num(0));
    let short = Vector(Fixed { raw: 1_500 }, num(0), num(0));
    assert_eq!(
        s.intersect_ray(Point::origin(), short),
        Some((Fixed { raw: 2_666_666_666 }, Fixed { raw: 1_333_333_333 }))
    );
    let shortest = Vector(Fixed { raw: 1 }, num(0), num(0));
    assert_eq!(
        s.intersect_ray(Point::origin(), shortest),
        Some((Fixed { raw: 4_000_000_000_000 }, Fixed { raw: 2_000_000_000_000 }))
    );
}

#[test]
fn the_largest_numbers_are_handled_exactly() {
    let most = Fixed { raw: i64::MAX };
    let least = Fixed { raw: i64::MIN };
    let s = Sphere::new(Point(most, most, most), most, Color(0, 0, 0), num(-1000), num(0));
    let origin = Point(least, least, least);
    assert_eq!(
        s.intersect_ray(origin, Vector(most, most, most)),
        Some((Fixed { raw: 2_577_350 }, Fixed { raw: 1_422_649 }))
    );
    assert_eq!(
        s.intersect_ray(origin, Vector(least, least, least)),
        Some((Fixed { raw: -1_422_650 }, Fixed { raw: -2_577_351 }))
    );
    let one = Fixed { raw: 1 };
    assert_eq!(s.intersect_ray(origin, Vector(one, one, one)), Some((most, most)));
    assert_eq!(s.intersect_ray(origin, Vector(most, least, most)), None);
}

#[test]
fn the_roots_of_a_ray_through_the_center_are_symmetric() {
    let s = Sphere::new(Point(num(1000), num(-2000), num(5000)), num(1500), Color(0, 0, 0), num(-1000), num(0));
    let origin = Point(num(-1000), num(1000), num(0));
    // from the origin to the center: the center lies at parameter 1
    let direction = Vector(num(2000), num(-3000), num(5000));
    let (t1, t2) = s.intersect_ray(origin, direction).unwrap();
    assert_eq!((t1, t2), (Fixed { raw: 1_243_332 }, Fixed { raw: 756_667 }));
    // 2 * dot(direction, center - origin) / dot(direction, direction) is 2; each root is rounded down
    assert_eq!(t1.add(t2), Fixed { raw: 1_999_999 });
}

#[test]
fn the_roots_of_any_ray_add_up_to_minus_b_over_a() {
    let s = Sphere::new(Point(num(1000), num(-2000), num(5000)), num(1500), Color(0, 0, 0), num(-1000), num(0));
    let origin = Point(num(-1000), num(1000), num(0));
    let direction = Vector(num(700), num(-1000), num(1900));
    let (t1, t2) = s.intersect_ray(origin, direction).unwrap();
    assert_eq!((t1, t2), (Fixed { raw: 3_372_400 }, Fixed { raw: 2_078_579 }));
    // -b / a is 27.8 / 5.1 = 5.450980...; each root is rounded down
    assert_eq!(t1.add(t2), Fixed { raw: 5_450_979 });
}

#[test]
fn the_normal_points_from_the_center_to_the_surface() {
    let s = Sphere::new(Point(num(1000), num(2000), num(3000)), num(2000), Color(1, 2, 3), num(-1000), num(0));
    assert_eq!(s.normal(Point(num(3000), num(2000), num(3000))), Vector(num(1000), num(0), num(0)));
    assert_eq!(
        s.normal(Point(num(1000), num(4000), num(5000))),
        Vector(num(0), Fixed { raw: 707_106 }, Fixed { raw: 707_106 })
    );
}

#[test]
fn the_normal_has_length_one() {
    let s = Sphere::new(Point(num(1000), num(2000), num(3000)), num(7000), Color(1, 2, 3), num(-1000), num(0));
    let on_surface = Point(num(3000), num(-1000), num(9000));
    let length = s.normal(on_surface).length();
    assert!(999_996 <= length.raw && length.raw <= 1_000_003);
    assert_eq!(length, Fixed { raw: 999_999 });
}

#[test]
fn the_normal_at_the_center_is_the_zero_vector() {
    let s = ball();
    assert_eq!(s.normal(s.center), Vector(num(0), num(0), num(0)));
}

#[test]
fn the_roots_solve_the_quadratic_within_the_precision() {
    let s = Sphere::new(Point(num(1000), num(-2000), num(5000)), num(1500), Color(0, 0, 0), num(-1000), num(0));
    let origin = Point(num(-1000), num(1000), num(0));
    let direction = Vector(num(700), num(-1000), num(1900));
    // the exact coefficients, in units of 10^-12
    let a: i128 = 5_100_000_000_000;
    let b: i128 = -27_800_000_000_000;
    let c: i128 = 35_750_000_000_000;
    let root: i128 = 6_598_484_674_529;
    assert!(root * root <= b * b - 4 * a * c && b * b - 4 * a * c < (root + 1) * (root + 1));
    let (t1, t2) = s.intersect_ray(origin, direction).unwrap();
    let scale: i128 = 1_000_000;
    let tolerance = scale * scale * (2 * root + scale) + 4 * scale * a * root + 4 * a * a;
    for t in [t1.raw as i128, t2.raw as i128] {
        let value = a * t * t + b * t * scale + c * scale * scale;
        assert!((4 * a * value).abs() <= tolerance);
        // the quadratic at the root is a few millionths at most
        assert!(value.abs() < 20 * scale * scale * scale);
    }
}
