use computer_graphics::color::Color;
use computer_graphics::fixed::Fixed;

#[test]
fn adding_colors_saturates_each_channel() {
    assert_eq!(Color(200, 0, 0) + Color(100, 0, 0), Color(255, 0, 0));
    assert_eq!(Color(1, 2, 3) + Color(10, 20, 30), Color(11, 22, 33));
    assert_eq!(Color(255, 255, 255) + Color(255, 255, 255), Color(255, 255, 255));
    assert_eq!(Color(200, 0, 55).add(Color(100, 0, 200)), Color(255, 0, 255));
}

#[test]
fn scaling_rounds_down_and_clamps() {
    let c = Color(100, 200, 3);
    assert_eq!(c.scale(Fixed::from_ratio(1, 2)), Color(50, 100, 1));
    assert_eq!(c.scale(Fixed::from_int(2)), Color(200, 255, 6));
    assert_eq!(c.scale(Fixed::from_int(1)), c);
    assert_eq!(c.scale(Fixed::from_int(0)), Color(0, 0, 0));
    assert_eq!(c.scale(Fixed::from_ratio(999_999, 1_000_000)), Color(99, 199, 2));
    assert_eq!(c.scale(Fixed::from_ratio(255, 100)), Color(255, 255, 7));
}

#[test]
fn scaling_by_a_negative_factor_gives_black() {
    assert_eq!(Color(100, 200, 3).scale(Fixed::from_int(-1)), Color(0, 0, 0));
    assert_eq!(Color(100, 200, 3).scale(Fixed { raw: -1 }), Color(0, 0, 0));
    assert_eq!(Color(0, 0, 0).scale(Fixed { raw: i64::MIN }), Color(0, 0, 0));
}

#[test]
fn scaling_by_a_huge_factor_gives_full_channels() {
    assert_eq!(Color(1, 0, 255).scale(Fixed::max_value()), Color(255, 0, 255));
}

#[test]
fn intensify_scales_in_place() {
    let mut c = Color(100, 200, 3);
    c.intensify(Fixed::from_ratio(1, 2));
    assert_eq!(c, Color(50, 100, 1));
    c.intensify(Fixed::from_int(4));
    assert_eq!(c, Color(200, 255, 4));
}

#[test]
fn the_background_is_black() {
    assert_eq!(Color::background(), Color(0, 0, 0));
}
