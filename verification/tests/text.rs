use figo::style::HAlign;
use figo::text::{align_horizontal, split_at_display_width, word_wrap, wrap_label};

fn width(s: &str) -> usize {
    unicode_width::UnicodeWidthStr::width(s)
}

#[test]
fn test_basic_wrapping() {
    let wrapped = word_wrap("hello world foo", 8);
    assert_eq!(wrapped, vec!["hello", "world", "foo"]);
}

#[test]
fn test_long_word_breaking() {
    let wrapped = word_wrap("supercalifragilistic", 5);
    assert_eq!(wrapped, vec!["super", "calif", "ragil", "istic"]);
}

#[test]
fn test_multiline_input() {
    let wrapped = word_wrap("line one\nline two", 20);
    assert_eq!(wrapped, vec!["line one", "line two"]);
}

#[test]
fn test_center_align() {
    let lines = vec!["Hi".to_string()];
    let aligned = align_horizontal(&lines, 6, HAlign::Center);
    assert_eq!(aligned, vec!["  Hi  "]);
}

#[test]
fn test_wrap_label_cjk_long() {
    let label = "开始执行驱动注册流程并等待总线回调";
    let w = wrap_label(label, 10);
    assert!(w.line_count > 1, "should wrap into multiple lines: {:?}", w.lines);
    for line in &w.lines {
        let lw = width(line.as_str());
        assert!(lw <= 10, "line '{line}' width {lw} exceeds 10");
    }
    assert!(w.max_width > 0);
}

#[test]
fn test_wrap_label_no_truncation() {
    let label = "开始执行驱动注册流程并等待总线回调返回结果";
    let reconstructed: String = wrap_label(label, 8).lines.join("");
    assert_eq!(reconstructed, label, "wrapping must not lose characters");
}

#[test]
fn test_wrap_label_short_label() {
    let w = wrap_label("hello", 30);
    assert_eq!(w.lines, vec!["hello"]);
    assert_eq!(w.line_count, 1);
    assert_eq!(w.max_width, 5);
}

#[test]
fn test_smart_split_at_separators() {
    let lines = wrap_label("driver_bind完成", 10).lines;
    let all = lines.join("");
    assert_eq!(all, "driver_bind完成", "no chars lost: {lines:?}");
    let joined = lines.join("|");
    assert!(!joined.contains("bi|nd"), "should not split mid-word 'bind': {joined:?}");
}

#[test]
fn test_cjk_no_spaces_inserted() {
    let label = "开始执行";
    let reconstructed: String = wrap_label(label, 6).lines.join("");
    assert_eq!(reconstructed, label, "no spaces inserted between CJK: {:?}", wrap_label(label, 6).lines);
}

#[test]
fn zero_width_keeps_input_lines() {
    assert_eq!(word_wrap("a b\r\nc\n", 0), vec!["a b", "c"]);
    assert!(word_wrap("", 5).is_empty());
}

#[test]
fn empty_input_line_survives() {
    assert_eq!(word_wrap("a\n\nb", 5), vec!["a", "", "b"]);
}

#[test]
fn only_spaces_yield_no_line() {
    assert!(word_wrap("    ", 3).is_empty());
}

#[test]
fn separators_stay_with_preceding_token() {
    assert_eq!(word_wrap("driver_bind", 8), vec!["driver_", "bind"]);
}

#[test]
fn split_forces_one_char() {
    let (l, r) = split_at_display_width("你好", 1);
    assert_eq!(l, "你");
    assert_eq!(r, "好");
    let (l, r) = split_at_display_width("abcdef", 4);
    assert_eq!(l, "abcd");
    assert_eq!(r, "ef");
}

#[test]
fn wrap_label_never_narrower_than_two() {
    let w = wrap_label("abcd", 0);
    assert_eq!(w.lines, vec!["ab", "cd"]);
    assert_eq!(w.max_width, 2);
}

#[test]
fn align_left_and_right_pad() {
    let lines = vec!["ab".to_string()];
    assert_eq!(align_horizontal(&lines, 5, HAlign::Left), vec!["ab   "]);
    assert_eq!(align_horizontal(&lines, 5, HAlign::Right), vec!["   ab"]);
    assert_eq!(align_horizontal(&lines, 1, HAlign::Right), vec!["ab"]);
}
