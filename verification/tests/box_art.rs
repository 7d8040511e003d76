use figo::diagrams::box_art::{draw_box, BoxArt};
use figo::error::FigoError;
use figo::style::{BorderStyle, Charset, HAlign, VAlign};

#[test]
fn test_empty_box() {
    let out = draw_box(None, None, 20, Charset::Ascii, BorderStyle::Single).unwrap();
    assert!(out.contains('+'));
    assert!(out.contains('-'));
    assert!(out.contains('|'));
}

#[test]
fn test_box_with_title() {
    let out = draw_box(Some("Test"), Some("Hello"), 30, Charset::Unicode, BorderStyle::Single).unwrap();
    assert!(out.contains("Test"));
    assert!(out.contains("Hello"));
}

#[test]
fn test_box_with_content_wrapping() {
    let out = draw_box(
        None,
        Some("This is a long line that should wrap"),
        20,
        Charset::Ascii,
        BorderStyle::Single,
    )
    .unwrap();
    assert!(out.lines().count() > 3);
}

#[test]
fn test_long_title_keeps_right_border() {
    let long_title: String = "t".repeat(80);
    let out = draw_box(Some(&long_title), Some("x"), 40, Charset::Ascii, BorderStyle::Single).unwrap();
    assert_eq!(out.matches('t').count(), 80, "title chars lost:\n{out}");
    for (i, line) in out.lines().enumerate() {
        let trimmed = line.trim_end();
        assert!(
            trimmed.ends_with('+') || trimmed.ends_with('|'),
            "row {i} right border eaten by title:\n{out}"
        );
    }
}

#[test]
fn test_width_too_small() {
    assert!(draw_box(None, None, 3, Charset::Ascii, BorderStyle::Single).is_err());
}

#[test]
fn test_rounded_border() {
    let out = draw_box(None, None, 10, Charset::Unicode, BorderStyle::Rounded).unwrap();
    assert!(out.contains('╭'));
}

#[test]
fn test_double_border() {
    let out = draw_box(None, None, 10, Charset::Unicode, BorderStyle::Double).unwrap();
    assert!(out.contains('╔'));
}

#[test]
fn empty_box_exact() {
    let out = draw_box(None, None, 6, Charset::Ascii, BorderStyle::Single).unwrap();
    assert_eq!(out, "+----+\n|    |\n+----+\n");
}

#[test]
fn titled_box_exact() {
    let out = draw_box(Some("Hi"), Some("ab cd"), 10, Charset::Ascii, BorderStyle::Single).unwrap();
    assert_eq!(out, "+- Hi ---+\n|ab cd   |\n+--------+\n");
}

#[test]
fn box_error_messages() {
    match draw_box(None, None, 3, Charset::Ascii, BorderStyle::Single) {
        Err(FigoError::InvalidDimensions(m)) => assert_eq!(m, "width must be at least 4, got 3"),
        other => panic!("unexpected {other:?}"),
    }
    match draw_box(Some("T"), None, 6, Charset::Ascii, BorderStyle::Single) {
        Err(FigoError::InvalidDimensions(m)) => {
            assert_eq!(m, "width must be at least 7 for a title, got 6")
        }
        other => panic!("unexpected {other:?}"),
    }
    match BoxArt::new(6, Charset::Ascii).padding(2, 0).build() {
        Err(FigoError::InvalidDimensions(m)) => assert_eq!(m, "width too small for padding"),
        other => panic!("unexpected {other:?}"),
    }
}

#[test]
fn aligned_and_padded_box() {
    let out = BoxArt::new(8, Charset::Ascii)
        .content(Some("ab"))
        .padding(1, 1)
        .align(HAlign::Right, VAlign::Bottom)
        .build()
        .unwrap();
    assert_eq!(out, "+------+\n|      |\n|   ab |\n|      |\n+------+\n");
}
