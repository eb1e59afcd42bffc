use kelder_scherm_renderer::text::push_decimal;
use kelder_scherm_renderer::Pixel;

#[test]
fn pixel_text_is_position_and_colour_without_alpha() {
    let p = Pixel { x: 12, y: 305, color: (255, 255, 255, 255) };
    assert_eq!(p.to_string(), "12 305 255 255 255");
    let q = Pixel { x: 0, y: 0, color: (0, 7, 90, 200) };
    assert_eq!(q.to_string(), "0 0 0 7 90");
}

#[test]
fn pixel_text_of_negative_coordinates() {
    let p = Pixel { x: -12, y: -1, color: (1, 20, 255, 9) };
    assert_eq!(p.to_string(), "-12 -1 1 20 255");
}

#[test]
fn pixel_text_of_the_largest_coordinates() {
    let p = Pixel { x: isize::MAX, y: isize::MIN, color: (0, 0, 0, 0) };
    assert_eq!(p.to_string(), format!("{} {} 0 0 0", isize::MAX, isize::MIN));
}

#[test]
fn decimal_is_appended_to_what_is_there() {
    let mut out = String::from("x=");
    push_decimal(&mut out, 1032);
    assert_eq!(out, "x=1032");
    push_decimal(&mut out, -7);
    assert_eq!(out, "x=1032-7");
    push_decimal(&mut out, 0);
    assert_eq!(out, "x=1032-70");
}

#[test]
fn decimal_agrees_with_the_standard_formatting() {
    for i in -1234..=1234isize {
        let mut out = String::new();
        push_decimal(&mut out, i * 7919);
        assert_eq!(out, format!("{}", i * 7919));
    }
}
