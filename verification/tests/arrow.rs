use figo::diagrams::arrow::{draw_arrow, draw_arrow_with_width, Arrow};
use figo::error::FigoError;
use figo::style::{Charset, LineStyle};

#[test]
fn test_right_arrow_ascii() {
    let out = draw_arrow("right", 5, LineStyle::Simple, Charset::Ascii, None).unwrap();
    assert_eq!(out.trim(), "----->");
}

#[test]
fn test_left_arrow_unicode() {
    let out = draw_arrow("left", 3, LineStyle::Simple, Charset::Unicode, None).unwrap();
    assert_eq!(out.trim(), "←───");
}

#[test]
fn test_with_label() {
    let out = draw_arrow("right", 5, LineStyle::Simple, Charset::Ascii, Some("flow")).unwrap();
    assert!(out.contains("flow"));
    assert!(out.contains("----->"));
}

#[test]
fn test_bidirectional() {
    let out = draw_arrow("bidirectional", 3, LineStyle::Simple, Charset::Ascii, None).unwrap();
    assert_eq!(out.trim(), "<--->");
}

#[test]
fn test_invalid_direction() {
    assert!(draw_arrow("north", 5, LineStyle::Simple, Charset::Ascii, None).is_err());
}

#[test]
fn test_vertical_arrow_label_not_clipped() {
    let out = draw_arrow("down", 3, LineStyle::Simple, Charset::Ascii, Some("X")).unwrap();
    assert!(out.contains("X"), "single-char vertical label must be visible:\n{out}");
}

#[test]
fn test_vertical_narrow_width_label_not_lost() {
    let label: String = "a".repeat(30);
    let out = draw_arrow("down", 3, LineStyle::Simple, Charset::Ascii, Some(&label)).unwrap();
    assert_eq!(out.matches('a').count(), 30, "label chars lost:\n{out}");
}

#[test]
fn test_vertical_tall_label_not_dropped() {
    let label: String = "b".repeat(60);
    let out = draw_arrow("down", 1, LineStyle::Simple, Charset::Ascii, Some(&label)).unwrap();
    assert_eq!(out.matches('b').count(), 60, "label rows lost:\n{out}");
}

#[test]
fn test_long_horizontal_label_wraps() {
    let long_label = "数据从用户空间传输到硬件设备的完整路径";
    let out = draw_arrow("right", 10, LineStyle::Simple, Charset::Ascii, Some(long_label)).unwrap();
    let lines: Vec<&str> = out.lines().collect();
    assert!(lines.len() > 2, "expected multi-line output:\n{out}");
    assert!(out.contains(">"), "arrowhead missing:\n{out}");
    for ch in long_label.chars() {
        assert!(out.contains(ch), "label char '{ch}' missing:\n{out}");
    }
}

#[test]
fn unknown_direction_is_invalid_dimensions() {
    match Arrow::new("sideways", 3, LineStyle::Simple, Charset::Ascii) {
        Err(FigoError::InvalidDimensions(m)) => assert_eq!(m, "unknown direction 'sideways'"),
        _ => panic!("expected InvalidDimensions"),
    }
}

#[test]
fn up_arrow_exact() {
    let out = draw_arrow("up", 2, LineStyle::Simple, Charset::Ascii, None).unwrap();
    assert_eq!(out, "^\n|\n|\n");
}

#[test]
fn bold_right_arrow_with_label_exact() {
    let out = draw_arrow_with_width("right", 4, 6, LineStyle::Bold, Charset::Ascii, Some("go")).unwrap();
    assert_eq!(out, " go\n\n====>\n");
}
