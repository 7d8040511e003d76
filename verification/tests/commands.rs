use figo::commands::{
    apply_display_margin, default_width, parse_halign, parse_valign, resolve_width, terminal_width,
};
use figo::style::{HAlign, VAlign};

#[test]
fn default_width_applies_display_margin() {
    assert_eq!(apply_display_margin(120), 96);
    assert_eq!(apply_display_margin(160), 128);
    assert_eq!(apply_display_margin(80), 64);
    assert_eq!(apply_display_margin(200), 160);
}

#[test]
fn widths_resolve() {
    assert_eq!(terminal_width(), 120);
    assert_eq!(default_width(), 96);
    assert_eq!(resolve_width(0), 96);
    assert_eq!(resolve_width(50), 50);
}

#[test]
fn alignments_parse() {
    assert_eq!(parse_halign("center"), HAlign::Center);
    assert_eq!(parse_halign("right"), HAlign::Right);
    assert_eq!(parse_halign("whatever"), HAlign::Left);
    assert_eq!(parse_valign("middle"), VAlign::Middle);
    assert_eq!(parse_valign("bottom"), VAlign::Bottom);
    assert_eq!(parse_valign(""), VAlign::Top);
}
