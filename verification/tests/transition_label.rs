use figo::canvas::Canvas;
use figo::diagrams::state::layout::StateLayout;
use figo::diagrams::state::riding_plan::TransGeom;
use figo::diagrams::state::transition_label::{
    draw_same_layer_transition, draw_transition_label, RouteGeometry, TransitionCtx,
};
use figo::diagrams::state::types::StateType;
use figo::geom::Rect;
use figo::render::surface::Surface;
use figo::render::widget::PaintContext;
use figo::style::Charset;

fn lay(id: &str, r: Rect) -> StateLayout {
    StateLayout { id: id.into(), label: id.into(), state_type: StateType::Simple, rect: r }
}

fn geom(from_cx: usize, to_cx: usize, left_x: usize, right_x: usize, avail: usize, base_x: usize) -> TransGeom {
    TransGeom {
        from_cx,
        to_cx,
        left_x,
        right_x,
        corridor_w: right_x - left_x + 1,
        avail,
        same_layer: false,
        base_x,
        stacked_base_x: base_x,
        embed: true,
    }
}

#[test]
fn same_layer_arrow_carries_its_label_on_the_corridor() {
    let a = Rect::new(0, 0, 10, 3);
    let b = Rect::new(20, 0, 10, 3);
    let layouts = vec![lay("a", a), lay("b", b)];
    let g = geom(5, 25, 10, 19, 10, 14);
    let ctx = PaintContext { charset: Charset::Ascii, color: false };
    let tcx = TransitionCtx { ctx: &ctx, from: a, to: b, canvas_width: 30, all_layouts: &layouts, geom: &g, avoid_junction_cols: &[] };
    let mut canvas = Canvas::new(30, 3);
    let drawn = {
        let mut s = Surface::new(&mut canvas);
        draw_same_layer_transition(&mut s, &tcx, Some("go"))
    };
    assert!(drawn);
    let out = canvas.render(false);
    let rows: Vec<&str> = out.lines().collect();
    assert!(rows[1].contains("---go---->"), "got:\n{out}");
}

#[test]
fn same_layer_arrow_refuses_a_box_in_between() {
    let a = Rect::new(0, 0, 10, 3);
    let b = Rect::new(20, 0, 10, 3);
    let c = Rect::new(12, 0, 4, 3);
    let layouts = vec![lay("a", a), lay("c", c), lay("b", b)];
    let g = geom(5, 25, 10, 19, 10, 14);
    let ctx = PaintContext { charset: Charset::Ascii, color: false };
    let tcx = TransitionCtx { ctx: &ctx, from: a, to: b, canvas_width: 30, all_layouts: &layouts, geom: &g, avoid_junction_cols: &[] };
    let mut canvas = Canvas::new(30, 3);
    let drawn = {
        let mut s = Surface::new(&mut canvas);
        draw_same_layer_transition(&mut s, &tcx, Some("go"))
    };
    assert!(!drawn);
    assert_eq!(canvas.render(false).trim(), "");
}

#[test]
fn corridor_label_keeps_the_corridor_and_its_junctions() {
    let a = Rect::new(5, 0, 10, 3);
    let b = Rect::new(25, 10, 10, 3);
    let layouts = vec![lay("a", a), lay("b", b)];
    let g = geom(10, 30, 10, 30, 20, 20);
    let route = RouteGeometry {
        forward: true,
        from_anchor: 3,
        to_anchor: 9,
        effective_route_y: 6,
        left_x: 10,
        right_x: 30,
        from_leg_cx: 10,
        to_leg_cx: 30,
        corridor_left: 10,
        corridor_right: 30,
    };
    let ctx = PaintContext { charset: Charset::Ascii, color: false };
    let tcx = TransitionCtx { ctx: &ctx, from: a, to: b, canvas_width: 40, all_layouts: &layouts, geom: &g, avoid_junction_cols: &[] };
    let mut canvas = Canvas::new(40, 14);
    {
        let mut s = Surface::new(&mut canvas);
        draw_transition_label(&mut s, &tcx, "hello", 0, &route);
    }
    let out = canvas.render(false);
    let rows: Vec<&str> = out.lines().collect();
    assert!(rows[6].contains("+-------hello-------+"), "got:\n{out}");
}

#[test]
fn stacked_label_restores_the_leg_above_and_below() {
    let a = Rect::new(5, 0, 10, 3);
    let b = Rect::new(25, 12, 10, 3);
    let layouts = vec![lay("a", a), lay("b", b)];
    let g = geom(10, 30, 10, 30, 20, 16);
    let route = RouteGeometry {
        forward: true,
        from_anchor: 3,
        to_anchor: 11,
        effective_route_y: 8,
        left_x: 10,
        right_x: 30,
        from_leg_cx: 10,
        to_leg_cx: 30,
        corridor_left: 10,
        corridor_right: 30,
    };
    let ctx = PaintContext { charset: Charset::Ascii, color: false };
    let tcx = TransitionCtx { ctx: &ctx, from: a, to: b, canvas_width: 40, all_layouts: &layouts, geom: &g, avoid_junction_cols: &[] };
    let mut canvas = Canvas::new(40, 16);
    {
        let mut s = Surface::new(&mut canvas);
        draw_transition_label(&mut s, &tcx, "up", 1, &route);
    }
    let out = canvas.render(false);
    let rows: Vec<&str> = out.lines().collect();
    // Row 1 stacks three rows above the corridor row: the label sits on
    // row 5 and the leg at column 10 runs from the anchor down to the
    // corridor row around it.
    assert!(rows[5].contains("up"), "got:\n{out}");
    for y in [3usize, 4, 6, 7, 8] {
        assert_eq!(rows[y].chars().nth(10), Some('|'), "row {y}:\n{out}");
    }
}
