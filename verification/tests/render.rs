use figo::canvas::{Canvas, Layer};
use figo::geom::Rect;
use figo::render::connector::{Anchor, Connector, ConnectorStyle, Marker};
use figo::render::surface::Surface;
use figo::render::widget::PaintContext;
use figo::style::{BorderStyle, Charset, LineStyle};

#[test]
fn sub_surface_translates_and_clips() {
    let mut canvas = Canvas::new(10, 4);
    {
        let mut s = Surface::new(&mut canvas);
        assert_eq!((s.width(), s.height()), (10, 4));
        let mut t = s.sub(2, 1, 3, 2);
        assert_eq!((t.width(), t.height()), (3, 2));
        t.put(0, 0, 'a');
        // Outside the sub-surface's clip: dropped.
        t.put(3, 0, 'b');
        t.put_str(1, 1, "xyz");
    }
    let out = canvas.render(false);
    let rows: Vec<&str> = out.lines().collect();
    assert_eq!(rows[1].trim_end(), "  a");
    assert_eq!(rows[2].trim_end(), "   xy");
}

#[test]
fn surface_draws_a_border_and_fills() {
    let mut canvas = Canvas::new(6, 3);
    {
        let mut s = Surface::new(&mut canvas);
        s.draw_border(0, 0, 6, 3, BorderStyle::Single, Charset::Ascii);
        s.fill_rect(1, 1, 4, 1, '.');
    }
    let out = canvas.render(false);
    let rows: Vec<&str> = out.lines().collect();
    assert_eq!(rows[0], "+----+");
    assert_eq!(rows[1], "|....|");
    assert_eq!(rows[2], "+----+");
}

#[test]
fn wide_character_blanks_its_second_cell() {
    let mut canvas = Canvas::new(6, 1);
    {
        let mut s = Surface::new(&mut canvas);
        s.put_horizontal(0, 0, 6, '-', Layer::Connector);
        s.put_str_layered(1, 0, "中", Layer::Label);
    }
    let out = canvas.render(false);
    assert!(out.starts_with("-中"), "got {out:?}");
}

#[test]
fn connector_paints_a_straight_downward_arrow_with_label() {
    let mut canvas = Canvas::new(20, 10);
    let style = ConnectorStyle::new(LineStyle::Simple, Marker::Arrow, Charset::Ascii);
    let c = Connector::new(Rect::new(2, 0, 5, 3), Rect::new(2, 7, 5, 3), style).label("go");
    {
        let mut s = Surface::new(&mut canvas);
        c.paint(&PaintContext { charset: Charset::Ascii, color: false }, &mut s);
    }
    let out = canvas.render(false);
    let rows: Vec<&str> = out.lines().collect();
    // Both anchors at column 4; the line runs down from row 3; the
    // arrowhead sits on the target's top row; the label right of the
    // line on the middle row.
    assert_eq!(rows[3].chars().nth(4), Some('|'));
    assert_eq!(rows[7].chars().nth(4), Some('v'));
    assert!(rows[5].contains("|go"), "got:\n{out}");
}

#[test]
fn connector_routes_sideways_with_east_west_anchors() {
    let mut canvas = Canvas::new(20, 6);
    let style = ConnectorStyle::new(LineStyle::Simple, Marker::Arrow, Charset::Unicode);
    let c = Connector::new(Rect::new(0, 0, 4, 3), Rect::new(12, 0, 4, 3), style).anchors(Anchor::East, Anchor::West);
    {
        let mut s = Surface::new(&mut canvas);
        c.paint(&PaintContext { charset: Charset::Unicode, color: false }, &mut s);
    }
    let out = canvas.render(false);
    let rows: Vec<&str> = out.lines().collect();
    assert!(rows[1].contains("───"), "got:\n{out}");
    assert_eq!(rows[1].chars().nth(12), Some('→'));
}
