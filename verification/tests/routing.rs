use figo::geom::{Anchor, Rect};
use figo::layout::routing::{
    build_three_h_segment, build_three_segment, detoured_mid_x, detoured_mid_y, natural_mid_y,
    path_intersects_any, side_route_column, snap_outside, straight_vertical, Segment,
};

#[test]
fn mid_y_sits_between_source_and_target() {
    let src = Rect::new(10, 1, 8, 3);
    let tgt = Rect::new(30, 12, 8, 3);
    let mid = natural_mid_y(4, 12, &src, &tgt);
    assert!(mid >= src.bottom() && mid < tgt.y, "mid {mid} must be in gap [4,12)");
}

#[test]
fn mid_y_collapses_when_same_row() {
    let src = Rect::new(0, 5, 4, 3);
    let tgt = Rect::new(10, 5, 4, 3);
    assert_eq!(natural_mid_y(5, 5, &src, &tgt), 5);
}

#[test]
fn mid_y_upward_sits_above_source() {
    let src = Rect::new(0, 10, 4, 3);
    let tgt = Rect::new(0, 0, 4, 3);
    assert_eq!(natural_mid_y(9, 3, &src, &tgt), 9);
}

#[test]
fn detours_and_columns() {
    let src = Rect::new(0, 0, 4, 3);
    let tgt = Rect::new(10, 10, 4, 3);
    let avoid = [Rect::new(4, 3, 6, 3)];
    assert_eq!(detoured_mid_y(3, 9, &avoid, &src, &tgt), 7);
    assert_eq!(detoured_mid_x(&[]), 1);
    assert_eq!(detoured_mid_x(&avoid), 11);
    assert_eq!(side_route_column(&[src, tgt], 40), 16);
    assert_eq!(side_route_column(&[src, tgt], 10), 9);
}

#[test]
fn snapping_and_paths() {
    let r = Rect::new(2, 2, 4, 3);
    assert_eq!(snap_outside(r, Anchor::North), (4, 1));
    assert_eq!(snap_outside(r, Anchor::South), (4, 5));
    assert_eq!(snap_outside(Rect::new(0, 0, 4, 3), Anchor::West), (0, 1));
    assert_eq!(straight_vertical(3, 5, 2), vec![Segment::V { x: 3, y: 2, len: 4 }]);
    let p = build_three_segment(1, 0, 5, 6, 3);
    assert_eq!(
        p,
        vec![
            Segment::V { x: 1, y: 0, len: 4 },
            Segment::H { x: 1, y: 3, len: 5 },
            Segment::V { x: 5, y: 3, len: 4 }
        ]
    );
    let h = build_three_h_segment(0, 1, 8, 5, 4);
    assert_eq!(
        h,
        vec![
            Segment::H { x: 0, y: 1, len: 5 },
            Segment::V { x: 4, y: 1, len: 5 },
            Segment::H { x: 4, y: 5, len: 5 }
        ]
    );
    assert!(path_intersects_any(&p, &[Rect::new(3, 3, 1, 1)]));
    assert!(!path_intersects_any(&p, &[Rect::new(8, 8, 1, 1)]));
    assert!(!path_intersects_any(&p, &[]));
}
