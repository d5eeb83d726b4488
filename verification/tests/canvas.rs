use computer_graphics::canvas::Canvas;
use computer_graphics::color::Color;

const RED: Color = Color(255, 0, 0);
const BLACK: Color = Color(0, 0, 0);

fn picture(canvas: &Canvas, ink: Color) -> Vec<String> {
    let w = canvas.width();
    let mut rows = Vec::new();
    for row in 0..canvas.height() {
        let mut line = String::new();
        for col in 0..w {
            line.push(if canvas.pixels()[row * w + col] == ink { '#' } else { '.' });
        }
        rows.push(line);
    }
    rows
}

#[test]
fn a_new_canvas_is_all_background() {
    let canvas = Canvas::new(4, 3);
    assert_eq!(canvas.width(), 4);
    assert_eq!(canvas.height(), 3);
    assert_eq!(canvas.pixels().len(), 12);
    assert!(canvas.pixels().iter().all(|p| *p == Color::background()));
}

#[test]
fn a_canvas_may_be_empty() {
    let canvas = Canvas::new(0, 5);
    assert_eq!(canvas.pixels().len(), 0);
    assert_eq!(canvas.pixel(0, 0), None);
    let mut canvas = Canvas::new(0, 0);
    canvas.put_pixel(0, 0, RED);
    canvas.clear();
    assert_eq!(canvas.pixels().len(), 0);
}

#[test]
fn the_origin_lies_at_the_centre() {
    let mut canvas = Canvas::new(4, 4);
    canvas.put_pixel(0, 0, RED);
    assert_eq!(picture(&canvas, RED), vec!["....", "....", "..#.", "...."]);
    assert_eq!(canvas.pixel(0, 0), Some(RED));
    assert_eq!(canvas.pixel(1, 0), Some(BLACK));
}

#[test]
fn x_goes_right_and_y_goes_up() {
    let mut canvas = Canvas::new(5, 3);
    canvas.put_pixel(-2, 1, RED);
    canvas.put_pixel(2, -1, RED);
    canvas.put_pixel(1, 0, RED);
    assert_eq!(picture(&canvas, RED), vec!["#....", "...#.", "....#"]);
}

#[test]
fn the_corners_of_an_even_canvas() {
    let mut canvas = Canvas::new(4, 4);
    canvas.put_pixel(-2, 2, RED);
    canvas.put_pixel(1, 2, RED);
    canvas.put_pixel(-2, -1, RED);
    canvas.put_pixel(1, -1, RED);
    assert_eq!(picture(&canvas, RED), vec!["#..#", "....", "....", "#..#"]);
}

#[test]
fn a_pixel_outside_the_grid_is_not_painted() {
    let mut canvas = Canvas::new(4, 4);
    canvas.put_pixel(2, 0, RED);
    canvas.put_pixel(-3, 0, RED);
    canvas.put_pixel(0, 3, RED);
    canvas.put_pixel(0, -2, RED);
    canvas.put_pixel(i32::MAX, i32::MAX, RED);
    canvas.put_pixel(i32::MIN, i32::MIN, RED);
    canvas.put_pixel(i32::MAX, i32::MIN, RED);
    assert_eq!(picture(&canvas, RED), vec!["....", "....", "....", "...."]);
    assert_eq!(canvas.pixel(2, 0), None);
    assert_eq!(canvas.pixel(0, -2), None);
    assert_eq!(canvas.pixel(i32::MIN, 0), None);
}

#[test]
fn a_pixel_right_of_the_last_column_does_not_wrap_into_the_next_row() {
    let mut canvas = Canvas::new(4, 4);
    canvas.put_pixel(2, 1, RED);
    assert!(canvas.pixels().iter().all(|p| *p == BLACK));
}

#[test]
fn painting_a_pixel_twice_keeps_the_last_color() {
    let mut canvas = Canvas::new(2, 2);
    canvas.put_pixel(0, 0, RED);
    canvas.put_pixel(0, 0, Color(1, 2, 3));
    assert_eq!(canvas.pixel(0, 0), Some(Color(1, 2, 3)));
    assert_eq!(canvas.pixels().iter().filter(|p| **p != BLACK).count(), 1);
}

#[test]
fn clear_paints_everything_in_the_background_color() {
    let mut canvas = Canvas::new(3, 2);
    canvas.put_pixel(0, 0, RED);
    canvas.put_pixel(-1, 1, RED);
    canvas.clear();
    assert_eq!(canvas.width(), 3);
    assert_eq!(canvas.height(), 2);
    assert_eq!(canvas.pixels().len(), 6);
    assert!(canvas.pixels().iter().all(|p| *p == Color::background()));
}

#[test]
fn canvas_coordinates_map_to_column_and_row() {
    let canvas = Canvas::new(800, 600);
    assert_eq!(canvas.canvas_to_screen_coordinate(0, 0), (400, 300));
    assert_eq!(canvas.canvas_to_screen_coordinate(-400, 300), (0, 0));
    assert_eq!(canvas.canvas_to_screen_coordinate(399, -299), (799, 599));
    assert_eq!(canvas.canvas_to_screen_coordinate(1000, -1000), (1400, 1300));
    let odd = Canvas::new(5, 3);
    assert_eq!(odd.canvas_to_screen_coordinate(0, 0), (2, 1));
}
