use figo::diagrams::flowchart_riding::{
    blockers_overlapping, clear_stretches, place_riding_label, PlacedRider, RidingRequest,
};
use figo::geom::Rect;

#[test]
fn stretches_split_by_clipped_blockers() {
    let stretches = clear_stretches(6, 16, &[(1, 4), (7, 10), (12, 15), (15, 20)]);
    assert_eq!(stretches, vec![(6, 7), (10, 12)]);
}

#[test]
fn touching_blockers_leave_no_empty_stretch() {
    let stretches = clear_stretches(0, 10, &[(3, 5), (5, 8)]);
    assert_eq!(stretches, vec![(0, 3), (8, 10)]);
}

#[test]
fn stretches_of_empty_window_and_unsorted_blockers() {
    assert_eq!(clear_stretches(5, 5, &[]), vec![]);
    assert_eq!(clear_stretches(0, 4, &[]), vec![(0, 4)]);
    assert_eq!(clear_stretches(0, 12, &[(8, 9), (2, 4), (3, 6)]), vec![(0, 2), (6, 8), (9, 12)]);
}

#[test]
fn blockers_keep_boxes_then_riders_in_span() {
    let boxes = [Rect::new(0, 2, 4, 3), Rect::new(10, 5, 4, 2)];
    let placed = [PlacedRider { span: (3, 6), rows: (9, 11) }, PlacedRider { span: (20, 30), rows: (1, 2) }];
    assert_eq!(blockers_overlapping((3, 11), &boxes, &placed), vec![(2, 5), (5, 7), (9, 11)]);
}

#[test]
fn rider_takes_the_stretch_nearest_the_target() {
    // Source box rows 1..4 at columns 17..22 (leg column 19); target at
    // row 12; one sibling block ending at row 5.
    let req = RidingRequest {
        label: "go",
        from_rect: Rect::new(17, 1, 5, 3),
        to_rect: Rect::new(17, 12, 5, 3),
        sibs: &[(40, 5)],
        boxes: &[],
        placed: &[],
        user_width: 80,
        canvas_w: 80,
        row_limit: 30,
    };
    let p = place_riding_label(&req);
    // Rows 6..12 are clear: the one-line block sits centered in them.
    assert_eq!(p.riding.block_top, 8);
    assert_eq!(p.bottom, 9);
    assert_eq!(p.riding.center_x, 19);
}
