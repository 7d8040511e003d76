use figo::canvas::Canvas;
use figo::diagrams::flowchart_shape::{draw_diamond, node_dims, NodeShape};
use figo::style::Charset;

#[test]
fn diamond_is_roughly_square_and_fits_label() {
    let (w, h) = node_dims("Is valid?", NodeShape::Diamond, 80);
    assert!(w >= 9, "diamond width {w} must fit the 9-char label");
    assert_eq!(w, h, "diamond should be square, got {w}x{h}");
}

#[test]
fn rectangle_sizing_unchanged() {
    let (w, h) = node_dims("Start", NodeShape::Rounded, 80);
    assert_eq!((w, h), (9, 3));
}

#[test]
fn diamond_renders_apex_and_edges() {
    let mut c = Canvas::new(20, 11);
    let (w, h) = node_dims("Hi", NodeShape::Diamond, 80);
    draw_diamond(&mut c, 0, 0, w, h, Charset::Unicode);
    let out = c.render(false);
    assert!(out.contains('^'), "top apex missing:\n{out}");
    assert!(out.contains('v'), "bottom apex missing:\n{out}");
    assert!(out.contains('/'), "left edge missing:\n{out}");
    assert!(out.contains('\\'), "right edge missing:\n{out}");
}

#[test]
fn diamond_is_widest_at_middle_row() {
    let (w, h) = node_dims("Is valid?", NodeShape::Diamond, 80);
    let mut c = Canvas::new(w + 2, h + 2);
    draw_diamond(&mut c, 1, 1, w, h, Charset::Unicode);
    let out = c.render(false);
    let lines: Vec<&str> = out.lines().collect();
    let mid_row = 1 + h / 2;
    let count_non_space = |line: &str| line.chars().filter(|&c| c != ' ').count();
    let mid_count = count_non_space(lines[mid_row]);
    for (i, line) in lines.iter().enumerate() {
        if i == mid_row {
            continue;
        }
        assert!(count_non_space(line) <= mid_count, "row {i} wider than the middle row:\n{out}");
    }
}

#[test]
fn long_rectangle_label_grows_rows() {
    let (w, h) = node_dims("alpha beta gamma delta", NodeShape::Rectangle, 12);
    assert_eq!(w, 12);
    assert_eq!(h, 2 + 3);
    assert_eq!(node_dims("ab", NodeShape::Rectangle, 80), (6, 3));
}

#[test]
fn small_diamond_exact() {
    let mut c = Canvas::new(7, 7);
    draw_diamond(&mut c, 0, 0, 7, 7, Charset::Ascii);
    assert_eq!(c.render(false), "   ^\n  / \\\n /   \\\n/     \\\n \\   /\n  \\ /\n   v\n");
}
