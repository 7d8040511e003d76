use figo::canvas::{Canvas, Layer};
use figo::style::{BorderStyle, Charset, LineStyle};

#[test]
fn test_canvas_put_and_render() {
    let mut c = Canvas::new(5, 3);
    c.put_str(0, 0, "Hello");
    let out = c.render(false);
    assert_eq!(out, "Hello\n\n\n");
}

#[test]
fn test_canvas_layer_protects_border() {
    let mut c = Canvas::new(8, 3);
    c.draw_border(2, 0, 4, 3, BorderStyle::Single, Charset::Ascii).unwrap();
    c.put_horizontal_layered(0, 1, 8, '-', Layer::Connector);
    let out = c.render(false);
    assert!(out.contains("|"), "expected vertical border |: {out:?}");
    assert!(
        !out.lines().nth(1).unwrap().chars().nth(2).unwrap_or(' ').eq(&'-'),
        "border should protect against connector overwrite"
    );
}

#[test]
fn test_canvas_extend_vertical() {
    let mut c = Canvas::new(5, 1);
    c.put_str(0, 0, "A");
    c.extend_vertical(2);
    assert_eq!(c.height(), 3);
    c.put_str(0, 2, "B");
    assert_eq!(c.render(false), "A\n\nB\n");
}

#[test]
fn test_zero_dim_normalized() {
    let c = Canvas::new(0, 5);
    assert_eq!(c.width(), 1);
    let c = Canvas::new(5, 0);
    assert_eq!(c.height(), 1);
}

#[test]
fn repair_makes_cross_at_intersection() {
    let mut c = Canvas::new(5, 5);
    c.put_horizontal_layered(0, 2, 5, '─', Layer::Connector);
    c.put_vertical_layered(2, 0, 5, '│', Layer::Connector);
    c.repair_connector_junctions(LineStyle::Simple, Charset::Unicode);
    assert_eq!(c.cell_char(2, 2), Some('┼'));
}

#[test]
fn repair_makes_corner_for_vhv_path() {
    let mut c = Canvas::new(6, 6);
    c.put_vertical_layered(1, 0, 4, '│', Layer::Connector);
    c.put_horizontal_layered(1, 3, 4, '─', Layer::Connector);
    c.put_vertical_layered(4, 3, 3, '│', Layer::Connector);
    c.repair_connector_junctions(LineStyle::Simple, Charset::Unicode);
    assert_eq!(c.cell_char(1, 3), Some('└'));
    assert_eq!(c.cell_char(4, 3), Some('┐'));
}

#[test]
fn repair_uses_plus_for_ascii_junctions() {
    let mut c = Canvas::new(5, 5);
    c.put_horizontal_layered(0, 2, 5, '-', Layer::Connector);
    c.put_vertical_layered(2, 0, 5, '|', Layer::Connector);
    c.repair_connector_junctions(LineStyle::Simple, Charset::Ascii);
    assert_eq!(c.cell_char(2, 2), Some('+'));
}

#[test]
fn repair_breaks_plus_runs_in_narrow_corridor() {
    let mut c = Canvas::new(4, 5);
    c.put_vertical_layered(1, 0, 5, '|', Layer::Connector);
    c.put_vertical_layered(2, 0, 5, '|', Layer::Connector);
    c.put_horizontal_layered(1, 2, 2, '-', Layer::Connector);
    c.repair_connector_junctions(LineStyle::Simple, Charset::Ascii);
    let rendered = c.render(false);
    let row = rendered.lines().nth(2).unwrap();
    assert!(!row.contains("++"), "narrow corridor should not produce ++, got: {row:?}");
}

#[test]
fn crossing_renders_as_gap() {
    let mut c = Canvas::new(20, 12);
    c.put_vertical_layered(10, 0, 12, '|', Layer::Connector);
    c.put_horizontal_layered(0, 6, 20, '-', Layer::Connector);
    c.repair_connector_junctions(LineStyle::Simple, Charset::Ascii);
    c.apply_crossing_pass(LineStyle::Simple, Charset::Ascii);
    let row = c.render(false).lines().nth(6).unwrap().to_string();
    let cells: Vec<char> = row.chars().collect();
    assert_eq!(cells[10], '|', "crossing cell keeps the vertical:\n{row}");
    assert_eq!(cells[9], ' ', "horizontal yields west of the crossing:\n{row}");
    assert_eq!(cells[11], ' ', "horizontal yields east of the crossing:\n{row}");
}

#[test]
fn endpoint_on_the_span_stays_a_junction() {
    let mut c = Canvas::new(20, 12);
    c.put_vertical_layered(10, 0, 12, '|', Layer::Connector);
    c.put_horizontal_layered(0, 6, 11, '-', Layer::Connector);
    c.repair_connector_junctions(LineStyle::Simple, Charset::Ascii);
    c.apply_crossing_pass(LineStyle::Simple, Charset::Ascii);
    let row = c.render(false).lines().nth(6).unwrap().to_string();
    let cells: Vec<char> = row.chars().collect();
    assert_eq!(cells[10], '+', "an endpoint landing is a junction:\n{row}");
}

#[test]
fn unbacked_arm_downgrades_to_a_line() {
    let mut c = Canvas::new(20, 12);
    c.put_horizontal_layered(0, 6, 7, '-', Layer::Connector);
    c.put_vertical_layered(6, 7, 3, '|', Layer::Connector);
    c.repair_connector_junctions(LineStyle::Simple, Charset::Ascii);
    let row = c.render(false).lines().nth(6).unwrap().to_string();
    assert!(row.contains('+'), "repair welds the phantom arm first:\n{row}");
    c.apply_crossing_pass(LineStyle::Simple, Charset::Ascii);
    let row = c.render(false).lines().nth(6).unwrap().to_string();
    let cells: Vec<char> = row.chars().collect();
    assert_eq!(cells[6], '-', "unbacked arm downgrades to the line:\n{row}");
}

#[test]
fn layered_write_respects_z_order() {
    let mut c = Canvas::new(3, 1);
    c.put_layered(1, 0, '#', Layer::NodeBorder, None);
    c.put_layered(1, 0, '-', Layer::Connector, None);
    assert_eq!(c.cell_char(1, 0), Some('#'));
    c.put_layered(1, 0, 'x', Layer::Label, None);
    assert_eq!(c.cell_char(1, 0), Some('x'));
}

#[test]
fn draw_rect_rejects_tiny_rects() {
    let mut c = Canvas::new(5, 5);
    assert!(c.draw_border(0, 0, 1, 3, BorderStyle::Single, Charset::Ascii).is_err());
    assert!(c.draw_border(0, 0, 3, 1, BorderStyle::Single, Charset::Ascii).is_err());
    assert!(c.draw_border(0, 0, 2, 2, BorderStyle::Single, Charset::Ascii).is_ok());
}

#[test]
fn render_trims_trailing_spaces_and_colors() {
    let mut c = Canvas::new(4, 1);
    c.put_layered(0, 0, 'a', Layer::NodeContent, Some(figo::style::Color::Red));
    assert_eq!(c.render(false), "a\n");
    let colored = c.render(true);
    assert!(colored.starts_with("\u{1b}["), "{colored:?}");
    assert!(colored.ends_with("\u{1b}[0m\n"), "{colored:?}");
}

#[test]
fn rect_outline_cell_by_cell() {
    let mut c = Canvas::new(7, 5);
    c.put_layered(2, 1, 'L', Layer::Label, None);
    assert!(c.draw_rect_raw(1, 1, 4, 3, 'a', 'b', 'c', 'd', '-', '|').is_ok());
    let rows: Vec<String> = c.render(false).lines().map(|l| l.to_string()).collect();
    assert_eq!(rows, vec!["", " aL-b", " |  |", " c--d", ""]);
}
