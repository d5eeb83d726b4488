use computer_graphics::canvas::Canvas;
use computer_graphics::color::Color;
use computer_graphics::ppm::{parse_decimal, push_decimal};

fn text(s: &str) -> Vec<u8> {
    s.as_bytes().to_vec()
}

fn checker() -> Canvas {
    let mut canvas = Canvas::new(3, 2);
    canvas.put_pixel(-1, 1, Color(255, 0, 7));
    canvas.put_pixel(0, 1, Color(10, 20, 30));
    canvas.put_pixel(1, 0, Color(100, 200, 255));
    canvas
}

#[test]
fn numbers_are_written_in_decimal() {
    let mut out = text("n=");
    push_decimal(&mut out, 0);
    out.push(b' ');
    push_decimal(&mut out, 7);
    out.push(b' ');
    push_decimal(&mut out, 10);
    out.push(b' ');
    push_decimal(&mut out, 255);
    out.push(b' ');
    push_decimal(&mut out, 1_000_000);
    assert_eq!(out, text("n=0 7 10 255 1000000"));
    let mut out = Vec::new();
    push_decimal(&mut out, usize::MAX);
    assert_eq!(out, text(&format!("{}", usize::MAX)));
}

#[test]
fn numbers_are_read_up_to_the_first_byte_that_is_no_digit() {
    assert_eq!(parse_decimal(&text("123 45"), 0), Some((123, 3)));
    assert_eq!(parse_decimal(&text("123 45"), 1), Some((23, 3)));
    assert_eq!(parse_decimal(&text("123 45"), 4), Some((45, 6)));
    assert_eq!(parse_decimal(&text("0"), 0), Some((0, 1)));
    assert_eq!(parse_decimal(&text("0\n"), 0), Some((0, 1)));
    let largest = format!("{}", usize::MAX);
    assert_eq!(parse_decimal(&text(&largest), 0), Some((usize::MAX, largest.len())));
}

#[test]
fn what_is_no_decimal_number_is_not_read() {
    assert_eq!(parse_decimal(&text(""), 0), None);
    assert_eq!(parse_decimal(&text("12"), 2), None);
    assert_eq!(parse_decimal(&text(" 12"), 0), None);
    assert_eq!(parse_decimal(&text("-12"), 0), None);
    assert_eq!(parse_decimal(&text("+12"), 0), None);
    assert_eq!(parse_decimal(&text("x"), 0), None);
    assert_eq!(parse_decimal(&text("012"), 0), None);
    assert_eq!(parse_decimal(&text("00"), 0), None);
}

#[test]
fn a_number_beyond_the_machine_is_not_read() {
    let largest = format!("{}", usize::MAX);
    let mut beyond = if largest.ends_with('5') {
        format!("{}6", &largest[..largest.len() - 1])
    } else {
        format!("{}0", largest)
    };
    assert_eq!(parse_decimal(&text(&beyond), 0), None);
    beyond.push('0');
    assert_eq!(parse_decimal(&text(&beyond), 0), None);
    assert_eq!(parse_decimal(&text("99999999999999999999999999999999"), 0), None);
}

#[test]
fn the_text_of_a_canvas() {
    let expected = "P3\n3 2\n255\n255 0 7\n10 20 30\n0 0 0\n0 0 0\n0 0 0\n100 200 255\n";
    assert_eq!(checker().to_ppm(), text(expected));
}

#[test]
fn the_text_of_an_empty_canvas_is_its_header() {
    assert_eq!(Canvas::new(0, 0).to_ppm(), text("P3\n0 0\n255\n"));
    assert_eq!(Canvas::new(12, 0).to_ppm(), text("P3\n12 0\n255\n"));
    assert_eq!(Canvas::new(1, 1).to_ppm(), text("P3\n1 1\n255\n0 0 0\n"));
}

#[test]
fn reading_the_text_of_a_canvas_gives_the_canvas_back() {
    let canvas = checker();
    let read = Canvas::from_ppm(&canvas.to_ppm()).unwrap();
    assert_eq!(read.width(), 3);
    assert_eq!(read.height(), 2);
    assert_eq!(read.pixels(), canvas.pixels());
    assert_eq!(read.to_ppm(), canvas.to_ppm());
}

#[test]
fn every_channel_value_survives_the_round_trip() {
    let mut canvas = Canvas::new(16, 16);
    let mut value: u32 = 0;
    for y in -7..9 {
        for x in -8..8 {
            let v = value as u8;
            canvas.put_pixel(x, y, Color(v, 255 - v, v / 2));
            value += 1;
        }
    }
    let read = Canvas::from_ppm(&canvas.to_ppm()).unwrap();
    assert_eq!(read.pixels(), canvas.pixels());
    assert_eq!(read.pixel(-8, 8), Some(Color(240, 15, 120)));
    assert_eq!(read.pixel(7, -7), Some(Color(15, 240, 7)));
}

#[test]
fn an_empty_canvas_survives_the_round_trip() {
    let read = Canvas::from_ppm(&text("P3\n0 7\n255\n")).unwrap();
    assert_eq!(read.width(), 0);
    assert_eq!(read.height(), 7);
    assert_eq!(read.pixels().len(), 0);
    let read = Canvas::from_ppm(&Canvas::new(5, 0).to_ppm()).unwrap();
    assert_eq!(read.width(), 5);
    assert_eq!(read.height(), 0);
}

#[test]
fn a_text_is_read_as_written() {
    let read = Canvas::from_ppm(&text("P3\n2 1\n255\n1 2 3\n40 50 60\n")).unwrap();
    assert_eq!(read.width(), 2);
    assert_eq!(read.height(), 1);
    assert_eq!(read.pixels(), &vec![Color(1, 2, 3), Color(40, 50, 60)]);
    assert_eq!(read.pixel(-1, 0), Some(Color(1, 2, 3)));
    assert_eq!(read.pixel(0, 0), Some(Color(40, 50, 60)));
}

#[test]
fn a_text_with_a_wrong_header_is_the_text_of_no_canvas() {
    assert!(Canvas::from_ppm(&text("")).is_none());
    assert!(Canvas::from_ppm(&text("P3")).is_none());
    assert!(Canvas::from_ppm(&text("P6\n1 1\n255\n0 0 0\n")).is_none());
    assert!(Canvas::from_ppm(&text("p3\n1 1\n255\n0 0 0\n")).is_none());
    assert!(Canvas::from_ppm(&text("P3 1 1\n255\n0 0 0\n")).is_none());
    assert!(Canvas::from_ppm(&text("P3\n1\n255\n0 0 0\n")).is_none());
    assert!(Canvas::from_ppm(&text("P3\n1  1\n255\n0 0 0\n")).is_none());
    assert!(Canvas::from_ppm(&text("P3\n1 1 \n255\n0 0 0\n")).is_none());
    assert!(Canvas::from_ppm(&text("P3\n-1 1\n255\n0 0 0\n")).is_none());
    assert!(Canvas::from_ppm(&text("P3\n01 1\n255\n0 0 0\n")).is_none());
    assert!(Canvas::from_ppm(&text("P3\n1 1\n256\n0 0 0\n")).is_none());
    assert!(Canvas::from_ppm(&text("P3\n1 1\n25\n0 0 0\n")).is_none());
    assert!(Canvas::from_ppm(&text("P3\n1 1\n255")).is_none());
    assert!(Canvas::from_ppm(&text("P3\r\n1 1\r\n255\r\n0 0 0\r\n")).is_none());
}

#[test]
fn a_text_with_wrong_pixels_is_the_text_of_no_canvas() {
    assert!(Canvas::from_ppm(&text("P3\n1 1\n255\n")).is_none());
    assert!(Canvas::from_ppm(&text("P3\n1 1\n255\n0 0\n")).is_none());
    assert!(Canvas::from_ppm(&text("P3\n1 1\n255\n0 0 0")).is_none());
    assert!(Canvas::from_ppm(&text("P3\n1 1\n255\n0 0 0 \n")).is_none());
    assert!(Canvas::from_ppm(&text("P3\n1 1\n255\n0 0 256\n")).is_none());
    assert!(Canvas::from_ppm(&text("P3\n1 1\n255\n256 0 0\n")).is_none());
    assert!(Canvas::from_ppm(&text("P3\n1 1\n255\n0 00 0\n")).is_none());
    assert!(Canvas::from_ppm(&text("P3\n1 1\n255\n0 0 0 0\n")).is_none());
    assert!(Canvas::from_ppm(&text("P3\n1 1\n255\n0 0 0\n0 0 0\n")).is_none());
    assert!(Canvas::from_ppm(&text("P3\n1 1\n255\n0 0 0\n\n")).is_none());
    assert!(Canvas::from_ppm(&text("P3\n2 2\n255\n0 0 0\n0 0 0\n0 0 0\n")).is_none());
    assert!(Canvas::from_ppm(&text("P3\n0 0\n255\n0 0 0\n")).is_none());
    assert!(Canvas::from_ppm(&text("P3\n1 1\n255\n0\t0\t0\n")).is_none());
}

#[test]
fn a_text_for_more_pixels_than_the_machine_holds_is_the_text_of_no_canvas() {
    let huge = format!("P3\n{} {}\n255\n0 0 0\n", usize::MAX, usize::MAX);
    assert!(Canvas::from_ppm(&text(&huge)).is_none());
    let beyond = text("P3\n99999999999999999999999999999999 0\n255\n");
    assert!(Canvas::from_ppm(&beyond).is_none());
}
