use figo::diagrams::state::avoidance::{avoid_box_x, reroute_leg_around_boxes, shift_off_junctions};
use figo::diagrams::state::layout::StateLayout;
use figo::diagrams::state::types::StateType;
use figo::geom::Rect;

fn state_layout(id: &str, x: usize, y: usize, w: usize, h: usize) -> StateLayout {
    StateLayout { id: id.into(), label: id.into(), state_type: StateType::Simple, rect: Rect::new(x, y, w, h) }
}

#[test]
fn avoid_box_x_right_shift_never_overflows_canvas() {
    let from = Rect::new(0, 0, 10, 3);
    let to = Rect::new(0, 10, 10, 3);
    let layouts = vec![
        state_layout("from", 0, 0, 10, 3),
        state_layout("to", 0, 10, 10, 3),
        state_layout("obs", 60, 4, 30, 3),
    ];
    let x = avoid_box_x(62, 20, 5, from, to, &layouts, 100);
    assert!(x + 20 <= 100, "label overflows canvas: x={x}, lw=20, canvas=100");
    assert_eq!(x, 40, "should shift left before the box at x=60");
}

#[test]
fn avoid_box_x_right_shift_when_it_fits() {
    let from = Rect::new(0, 0, 10, 3);
    let to = Rect::new(0, 10, 10, 3);
    let layouts = vec![
        state_layout("from", 0, 0, 10, 3),
        state_layout("to", 0, 10, 10, 3),
        state_layout("obs", 20, 4, 8, 3),
    ];
    let x = avoid_box_x(22, 8, 5, from, to, &layouts, 100);
    assert_eq!(x, 28, "closer valid shift is right past the box (right edge 28)");
}

#[test]
fn avoid_box_x_prefers_left_when_right_does_not_fit() {
    let from = Rect::new(0, 0, 10, 3);
    let to = Rect::new(0, 10, 10, 3);
    let layouts = vec![
        state_layout("from", 0, 0, 10, 3),
        state_layout("to", 0, 10, 10, 3),
        state_layout("obs", 70, 4, 8, 3),
    ];
    let x = avoid_box_x(71, 8, 5, from, to, &layouts, 80);
    assert!(x + 8 <= 80, "label overflows canvas: x={x}");
    assert_eq!(x, 62, "right shift (78+8>80) invalid, left shift to 70-8=62");
}

#[test]
fn avoid_box_x_no_overlap_untouched() {
    let from = Rect::new(0, 0, 10, 3);
    let to = Rect::new(0, 10, 10, 3);
    let layouts = vec![
        state_layout("from", 0, 0, 10, 3),
        state_layout("to", 0, 10, 10, 3),
        state_layout("obs", 50, 4, 8, 3),
    ];
    let x = avoid_box_x(20, 8, 5, from, to, &layouts, 100);
    assert_eq!(x, 20);
}

#[test]
fn leg_moves_left_of_intermediate_box() {
    let from = Rect::new(0, 0, 10, 3);
    let to = Rect::new(0, 20, 10, 3);
    let layouts = vec![
        state_layout("from", 0, 0, 10, 3),
        state_layout("mid", 8, 8, 10, 3),
        state_layout("to", 0, 20, 10, 3),
    ];
    // Column 10 crosses "mid" (8..18), nearer its left edge.
    assert_eq!(reroute_leg_around_boxes(10, 3, 19, from, to, &layouts), 7);
    // Column 16 is nearer the right edge.
    assert_eq!(reroute_leg_around_boxes(16, 3, 19, from, to, &layouts), 18);
    // The box's own center column is left alone.
    assert_eq!(reroute_leg_around_boxes(13, 3, 19, from, to, &layouts), 13);
}

#[test]
fn label_steps_off_junction_columns() {
    // Junction at 14 lies in the right half of [10, 16): move left of it.
    assert_eq!(shift_off_junctions(10, 6, &[14]), 8);
    // Junction at 12 lies in the left half: move right of it.
    assert_eq!(shift_off_junctions(10, 6, &[12]), 13);
    // No junction under the label: unchanged.
    assert_eq!(shift_off_junctions(10, 6, &[3, 20]), 10);
}
