use figo::canvas::Canvas;
use figo::geom::{Anchor, Rect};
use figo::layout::connector::Connector;
use figo::layout::routing::Segment;
use figo::style::{Charset, LineStyle};

#[test]
fn straight_vertical_line() {
    let src = Rect::new(0, 0, 4, 3);
    let tgt = Rect::new(0, 5, 4, 3);
    let c = Connector::new(src, tgt, Anchor::South, Anchor::North, LineStyle::Simple, Charset::Ascii);
    let segs = c.compute_path();
    assert!(matches!(segs[0], Segment::V { .. }));
}

#[test]
fn avoids_obstacle_in_path() {
    let src = Rect::new(0, 0, 4, 3);
    let tgt = Rect::new(10, 8, 4, 3);
    let obstacle = Rect::new(4, 3, 6, 3);
    let c = Connector::new(src, tgt, Anchor::South, Anchor::North, LineStyle::Simple, Charset::Ascii)
        .with_avoid(obstacle);
    let path = c.compute_path();
    let intersects = path.iter().any(|s| {
        let r = match *s {
            Segment::H { x, y, len } => Rect::new(x, y, len.max(1), 1),
            Segment::V { x, y, len } => Rect::new(x, y, 1, len.max(1)),
        };
        r.overlaps(&obstacle)
    });
    assert!(!intersects, "path {path:?} intersects obstacle {obstacle:?}");
}

#[test]
fn arrowhead_points_down_for_south_source() {
    let c = Connector::new(
        Rect::new(0, 0, 4, 3),
        Rect::new(0, 5, 4, 3),
        Anchor::South,
        Anchor::North,
        LineStyle::Simple,
        Charset::Unicode,
    );
    assert_eq!(c.arrow_head, '↓');
}

#[test]
fn arrowhead_points_up_for_north_source() {
    let c = Connector::new(
        Rect::new(0, 8, 4, 3),
        Rect::new(0, 0, 4, 3),
        Anchor::North,
        Anchor::South,
        LineStyle::Simple,
        Charset::Unicode,
    );
    assert_eq!(c.arrow_head, '↑');
}

#[test]
fn render_draws_line_head_and_label() {
    let mut canvas = Canvas::new(10, 10);
    let c = Connector::new(
        Rect::new(0, 0, 3, 3),
        Rect::new(0, 6, 3, 3),
        Anchor::South,
        Anchor::North,
        LineStyle::Simple,
        Charset::Ascii,
    )
    .with_label("ok");
    c.render(&mut canvas);
    let out = canvas.render(false);
    let rows: Vec<&str> = out.lines().collect();
    assert_eq!(rows[3], " |");
    assert_eq!(rows[4], " |ok");
    assert_eq!(rows[5], " v");
}

#[test]
fn side_route_goes_around_on_the_right() {
    let mut canvas = Canvas::new(12, 9);
    let c = Connector::new(
        Rect::new(0, 6, 3, 3),
        Rect::new(0, 0, 3, 3),
        Anchor::North,
        Anchor::South,
        LineStyle::Simple,
        Charset::Ascii,
    );
    c.render_side_route(&mut canvas, &[Rect::new(0, 0, 3, 3), Rect::new(0, 6, 3, 3)], 12);
    let out = canvas.render(false);
    let rows: Vec<&str> = out.lines().collect();
    assert_eq!(rows[1], "   <-|");
    assert_eq!(rows[4], "     |");
    assert_eq!(rows[7], "   --|");
}
