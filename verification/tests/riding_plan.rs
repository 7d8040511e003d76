use figo::diagrams::state::layout::StateLayout;
use figo::diagrams::state::riding_plan::{plan_gap_riders, TransGeom};
use figo::diagrams::state::types::{StateType, Transition};
use figo::geom::Rect;

fn lay(id: &str, x: usize, y: usize) -> StateLayout {
    StateLayout { id: id.into(), label: id.into(), state_type: StateType::Simple, rect: Rect::new(x, y, 10, 3) }
}

fn geom(from_cx: usize, to_cx: usize, avail: usize) -> TransGeom {
    let (l, r) = if from_cx < to_cx { (from_cx, to_cx) } else { (to_cx, from_cx) };
    let corridor_w = if l == r { 0 } else { r - l + 1 };
    TransGeom {
        from_cx,
        to_cx,
        left_x: l,
        right_x: r,
        corridor_w,
        avail,
        same_layer: false,
        base_x: (l + r) / 2,
        stacked_base_x: to_cx,
        embed: corridor_w > 0,
    }
}

#[test]
fn aligned_label_rides_its_leg_when_the_gap_has_a_corridor() {
    let layouts = vec![lay("a", 10, 0), lay("b", 10, 10), lay("c", 40, 10)];
    let ts = vec![
        Transition { from: "a".into(), to: "b".into(), label: Some("ride".into()) },
        Transition { from: "a".into(), to: "c".into(), label: Some("across".into()) },
    ];
    let geoms = vec![geom(15, 15, 20), geom(15, 45, 31)];
    let r = plan_gap_riders(&ts, &layouts, &geoms, 80);
    assert_eq!(r.len(), 1);
    assert_eq!(r[0].0, (0, 10));
    let g = &r[0].1;
    assert_eq!((g.below_lines, g.above_lines), (1, 0));
    assert_eq!(g.riders.len(), 1);
    let p = g.riders[0];
    assert_eq!((p.idx, p.wrap_w, p.center_x, p.span, p.lines), (0, 20, 15, (13, 17), 1));
    assert_eq!(p.row_offset, None);
    assert!(p.forward);
}

#[test]
fn no_rider_without_a_corridor_in_the_gap() {
    let layouts = vec![lay("a", 10, 0), lay("b", 10, 10)];
    let ts = vec![Transition { from: "a".into(), to: "b".into(), label: Some("down".into()) }];
    let geoms = vec![geom(15, 15, 20)];
    assert!(plan_gap_riders(&ts, &layouts, &geoms, 80).is_empty());
}

#[test]
fn overlapping_riders_stack() {
    // Two aligned edges of one gap ride legs three columns apart; their
    // wide labels overlap, so the second stacks below the first.
    let layouts = vec![lay("a", 10, 0), lay("b", 10, 10), lay("c", 13, 0), lay("d", 13, 10), lay("e", 60, 10)];
    let ts = vec![
        Transition { from: "a".into(), to: "b".into(), label: Some("first".into()) },
        Transition { from: "c".into(), to: "d".into(), label: Some("second".into()) },
        Transition { from: "a".into(), to: "e".into(), label: None },
    ];
    let geoms = vec![geom(15, 15, 30), geom(18, 18, 30), geom(15, 65, 51)];
    let r = plan_gap_riders(&ts, &layouts, &geoms, 80);
    assert_eq!(r.len(), 1);
    let g = &r[0].1;
    assert_eq!(g.riders.len(), 2);
    let (p, q) = (g.riders[0], g.riders[1]);
    assert!(p.span.0 < q.span.1 && q.span.0 < p.span.1, "{p:?} {q:?}");
    assert_eq!(p.row_offset, Some(0));
    assert_eq!(q.row_offset, Some(p.lines));
    assert_eq!(g.below_lines, p.lines + q.lines);
}

#[test]
fn riders_are_exactly_the_riding_edges_in_order() {
    let layouts = vec![lay("a", 10, 0), lay("b", 10, 10), lay("c", 13, 0), lay("d", 13, 10), lay("e", 60, 10)];
    let ts = vec![
        Transition { from: "c".into(), to: "d".into(), label: Some("one".into()) },
        Transition { from: "a".into(), to: "e".into(), label: Some("corridor".into()) },
        Transition { from: "a".into(), to: "b".into(), label: Some("two".into()) },
        Transition { from: "c".into(), to: "d".into(), label: None },
    ];
    let geoms = vec![geom(18, 18, 30), geom(15, 65, 51), geom(15, 15, 30), geom(18, 18, 30)];
    let r = plan_gap_riders(&ts, &layouts, &geoms, 80);
    assert_eq!(r.len(), 1);
    let idx: Vec<usize> = r[0].1.riders.iter().map(|p| p.idx).collect();
    assert_eq!(idx, vec![0, 2]);
}
