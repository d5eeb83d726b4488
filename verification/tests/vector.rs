use computer_graphics::fixed::Fixed;
use computer_graphics::vector::{Point, Vector};

fn num(thousandths: i64) -> Fixed {
    Fixed { raw: thousandths * 1_000 }
}

fn vector(x: i64, y: i64, z: i64) -> Vector {
    Vector(num(x), num(y), num(z))
}

fn point(x: i64, y: i64, z: i64) -> Point {
    Point(num(x), num(y), num(z))
}

#[test]
fn dot_product_of_two_vectors() {
    assert_eq!(vector(1000, 2000, 3000).dot(vector(4000, -5000, 6000)), num(12_000));
    assert_eq!(vector(1000, 0, 0).dot(vector(0, 1000, 0)), num(0));
    assert_eq!(vector(500, 500, 500).dot(vector(500, 500, 500)), num(750));
}

#[test]
fn length_is_the_euclidean_norm() {
    assert_eq!(vector(3000, 4000, 0).length(), num(5000));
    assert_eq!(vector(0, 0, 0).length(), num(0));
    assert_eq!(vector(1000, 1000, 1000).length(), Fixed { raw: 1_732_050 });
    assert_eq!(vector(0, -2000, 0).length(), num(2000));
}

#[test]
fn unit_keeps_the_direction_at_length_one() {
    assert_eq!(vector(3000, 4000, 0).unit(), vector(600, 800, 0));
    assert_eq!(vector(-3000, 0, 4000).unit(), vector(-600, 0, 800));
    assert_eq!(
        vector(2000, -3000, 6000).unit(),
        Vector(Fixed { raw: 285_714 }, Fixed { raw: -428_572 }, Fixed { raw: 857_142 })
    );
    assert_eq!(vector(3000, 4000, 0).unit().length(), num(1000));
    assert_eq!(vector(2000, -3000, 6000).unit().length(), Fixed { raw: 999_999 });
}

#[test]
fn unit_of_a_vector_without_length_is_the_zero_vector() {
    assert_eq!(vector(0, 0, 0).unit(), vector(0, 0, 0));
}

#[test]
fn unit_of_a_tiny_vector_is_coarse() {
    let tiny = Vector(Fixed { raw: 1 }, Fixed { raw: 1 }, Fixed { raw: 1 });
    assert_eq!(tiny.length(), Fixed { raw: 1 });
    assert_eq!(tiny.unit(), vector(1000, 1000, 1000));
}

#[test]
fn cosine_of_the_angle_between_two_vectors() {
    assert_eq!(vector(1000, 0, 0).cos(vector(0, 1000, 0)), num(0));
    assert_eq!(vector(1000, 0, 0).cos(vector(-2000, 0, 0)), num(-1000));
    assert_eq!(vector(1000, 0, 0).cos(vector(1000, 0, 0)), num(1000));
    assert_eq!(vector(1000, 0, 0).cos(vector(1000, 1000, 0)), Fixed { raw: 707_106 });
    assert_eq!(vector(1000, 2000, 2000).cos(vector(2000, 1000, 2000)), Fixed { raw: 888_888 });
    assert_eq!(vector(0, 0, 0).cos(vector(1000, 0, 0)), num(0));
    assert_eq!(vector(1000, 0, 0).cos(vector(0, 0, 0)), num(0));
}

#[test]
fn the_cosine_does_not_depend_on_the_lengths() {
    let tiny = Vector(Fixed { raw: 1 }, Fixed { raw: 0 }, Fixed { raw: 0 });
    let small = Vector(Fixed { raw: 3 }, Fixed { raw: 4 }, Fixed { raw: 0 });
    assert_eq!(tiny.cos(small), num(600));
    assert_eq!(small.cos(tiny), num(600));
    assert_eq!(tiny.cos(Vector(Fixed { raw: 1 }, Fixed { raw: 1 }, Fixed { raw: 0 })), num(1000));
    let most = Fixed { raw: i64::MAX };
    let least = Fixed { raw: i64::MIN };
    assert_eq!(Vector(most, most, most).cos(Vector(most, most, least)), Fixed { raw: 333_333 });
    assert_eq!(Vector(most, least, most).cos(Vector(least, most, least)), num(-1000));
    assert_eq!(Vector(most, most, most).cos(small), Fixed { raw: 808_290 });
}

#[test]
fn scaling_multiplies_every_component() {
    assert_eq!(vector(1000, -2000, 500).scale(num(2500)), vector(2500, -5000, 1250));
    assert_eq!(vector(1000, -2000, 500).scale(num(-1000)), vector(-1000, 2000, -500));
    assert_eq!(point(1000, -2000, 500).scale(num(2500)), point(2500, -5000, 1250));
}

#[test]
fn mul_multiplies_component_by_component() {
    assert_eq!(vector(1000, 2000, 3000).mul(vector(4000, 5000, 6000)), vector(4000, 10_000, 18_000));
}

#[test]
fn vectors_subtract_component_by_component() {
    assert_eq!(vector(1000, 2000, 3000) - vector(500, 2500, -1000), vector(500, -500, 4000));
    assert_eq!(vector(1000, 2000, 3000).sub(vector(500, 2500, -1000)), vector(500, -500, 4000));
}

#[test]
fn points_add_and_subtract_component_by_component() {
    assert_eq!(point(1000, 2000, 3000) + point(500, 2500, -1000), point(1500, 4500, 2000));
    assert_eq!(point(1000, 2000, 3000) - point(500, 2500, -1000), point(500, -500, 4000));
    assert_eq!(point(1000, 2000, 3000).add(point(500, 2500, -1000)), point(1500, 4500, 2000));
    assert_eq!(point(1000, 2000, 3000).sub(point(500, 2500, -1000)), point(500, -500, 4000));
    let far = Point(Fixed { raw: i64::MAX }, Fixed { raw: i64::MIN }, Fixed { raw: 0 });
    assert_eq!(far + far, far);
}

#[test]
fn points_and_vectors_convert_into_each_other() {
    assert_eq!(Vector::from(point(1000, 2000, 3000)), vector(1000, 2000, 3000));
    assert_eq!(Point::from(vector(1000, 2000, 3000)), point(1000, 2000, 3000));
    assert_eq!(point(1000, 2000, 3000).to_vector(), vector(1000, 2000, 3000));
    assert_eq!(vector(1000, 2000, 3000).to_point(), point(1000, 2000, 3000));
    let v: Vector = point(7, 8, 9).into();
    assert_eq!(v, vector(7, 8, 9));
}

#[test]
fn a_point_has_three_coordinates() {
    let p = point(1000, 2000, 3000);
    assert_eq!(p.x(), num(1000));
    assert_eq!(p.y(), num(2000));
    assert_eq!(p.z(), num(3000));
    assert_eq!(Point::origin(), point(0, 0, 0));
    assert_eq!(p.dot(p), num(14_000));
}
