//! Drawing one transition's label, and a same-layer transition as a
//! direct horizontal arrow, from the transition's shared geometry
//! ([`TransGeom`]): label lines centered on the geometry's column, held
//! inside the corridor when embedded, moved off sibling junction columns
//! and off boxes, with the corridor and leg lines restored around them.

use vstd::prelude::*;
use crate::canvas::{CanvasView, Layer};
use crate::diagrams::arrow::sat_add;
use crate::diagrams::state::avoidance::{avoid_box_x, avoid_boxes, off_junctions, rects_of, shift_off_junctions};
use crate::diagrams::state::layout::StateLayout;
use crate::diagrams::state::riding_plan::TransGeom;
use crate::diagrams::table::sat_mul;
use crate::geom::Rect;
use crate::layout::routing::sat_sub;
use crate::render::surface::{clip_hline, clip_put, clip_str, clip_vline, Surface, SurfaceFrame};
use crate::render::widget::PaintContext;
use crate::style::{spec_glyphs, BorderStyle, Charset};
use crate::text::{greedy_wrap, views, wrap_label};
use crate::width::{chars_of, chars_width, seq_display_width};

verus! {

/// What drawing one transition needs: the paint settings, the boxes of
/// its two ends, the canvas width, every placed state, its geometry, and
/// the junction columns of its gap's sibling corridors.
pub struct TransitionCtx<'a> {
    pub ctx: &'a PaintContext,
    pub from: Rect,
    pub to: Rect,
    pub canvas_width: usize,
    pub all_layouts: &'a [StateLayout],
    pub geom: &'a TransGeom,
    pub avoid_junction_cols: &'a [usize],
}

/// `a` or `b`, the smaller.
pub open spec fn imin2(a: int, b: int) -> int {
    if a < b { a } else { b }
}

/// `a` or `b`, the larger.
pub open spec fn imax2(a: int, b: int) -> int {
    if a > b { a } else { b }
}

/// A label wrapped to `avail` columns (at least 2), greedily.
pub open spec fn label_lines(text: Seq<char>, avail: int) -> Seq<Seq<char>> {
    greedy_wrap(text, if avail < 2 { 2 } else { avail })
}

// ---------------------------------------------------------------------
// Same-layer transitions
// ---------------------------------------------------------------------

/// Another box of the same layer stands between the two ends.
pub open spec fn same_layer_blocked(rs: Seq<Rect>, from: Rect, to: Rect, left: int, right: int) -> bool {
    exists|k: int|
        0 <= k < rs.len() && #[trigger] rs[k] != from && rs[k] != to && rs[k].y == from.y && rs[k].right() > left
            && rs[k].x < right
}

/// Column of line `i` of a same-layer label: centered on the geometry's
/// column, held between the corridor ends, then moved off boxes.
pub open spec fn same_layer_label_x(rs: Seq<Rect>, from: Rect, to: Rect, g: TransGeom, cw: int, line: Seq<char>, y: int) -> int {
    let lw = chars_width(line) as int;
    let x0 = sat_sub(g.base_x as int, lw / 2);
    let x1 = imin2(imax2(x0, g.left_x as int), sat_sub(g.right_x as int, lw));
    avoid_boxes(rs, rs.len() as int, x1, lw, y, from, to, cw)
}

/// The first `k` label lines of a same-layer transition over `v`, each
/// with the corridor line restored on both sides of it.
pub open spec fn same_layer_lines(
    v: CanvasView,
    f: SurfaceFrame,
    rs: Seq<Rect>,
    from: Rect,
    to: Rect,
    g: TransGeom,
    cw: int,
    hz: char,
    lines: Seq<Seq<char>>,
    top: int,
    k: int,
) -> CanvasView
    decreases k,
{
    if k <= 0 {
        v
    } else {
        let prev = same_layer_lines(v, f, rs, from, to, g, cw, hz, lines, top, k - 1);
        let line = lines[k - 1];
        let y = sat_add(top, k - 1);
        let lw = chars_width(line) as int;
        let x = same_layer_label_x(rs, from, to, g, cw, line, y);
        let v1 = clip_str(prev, f, x, y, line, Layer::Label, true);
        if g.corridor_w > 0 {
            let end = sat_add(x, lw);
            let v2 = if x > g.left_x { clip_hline(v1, f, g.left_x as int, y, x - g.left_x, hz, Layer::Connector) } else { v1 };
            if end <= g.right_x { clip_hline(v2, f, end, y, g.right_x - end, hz, Layer::Connector) } else { v2 }
        } else {
            v1
        }
    }
}

/// A same-layer transition drawn over `v`: the corridor line on the ends'
/// middle row, the arrowhead at its right end pointing from the source to
/// the target, then the label lines centered on that row.
pub open spec fn same_layer_view(
    v: CanvasView,
    f: SurfaceFrame,
    rs: Seq<Rect>,
    from: Rect,
    to: Rect,
    g: TransGeom,
    cw: int,
    charset: Charset,
    label: Option<Seq<char>>,
) -> CanvasView {
    let hz = spec_glyphs(BorderStyle::Single, charset).horizontal;
    let ly = sat_add(from.y as int, from.h as int / 2);
    let v1 = if g.right_x > g.left_x { clip_hline(v, f, g.left_x as int, ly, g.right_x - g.left_x, hz, Layer::Connector) } else { v };
    let arrow = if g.from_cx < g.to_cx {
        if charset == Charset::Ascii { '>' } else { '▶' }
    } else {
        if charset == Charset::Ascii { '<' } else { '◀' }
    };
    let v2 = clip_put(v1, f, g.right_x as int, ly, arrow, Layer::ConnectorEnd);
    match label {
        None => v2,
        Some(text) => {
            let lines = label_lines(text, g.avail as int);
            let top = sat_sub(ly, lines.len() as int / 2);
            same_layer_lines(v2, f, rs, from, to, g, cw, hz, lines, top, lines.len() as int)
        },
    }
}

/// Draw a same-layer transition as a direct horizontal arrow with its
/// label on the corridor (see [`same_layer_view`]). Returns `false`, and
/// draws nothing, when another box of the layer stands between the two
/// ends; the caller then routes the transition around.
pub fn draw_same_layer_transition(surface: &mut Surface<'_>, tcx: &TransitionCtx, label: Option<&str>) -> (drawn: bool)
    requires
        old(surface).wf(),
    ensures
        final(surface).wf(),
        final(surface).frame() == old(surface).frame(),
        *final(old(surface).target()) == *final(final(surface).target()),
        drawn <==> !same_layer_blocked(rects_of(tcx.all_layouts@), tcx.from, tcx.to, tcx.geom.left_x as int, tcx.geom.right_x as int),
        final(surface).canvas_view() == if drawn {
            same_layer_view(
                old(surface).canvas_view(),
                old(surface).frame(),
                rects_of(tcx.all_layouts@),
                tcx.from,
                tcx.to,
                *tcx.geom,
                tcx.canvas_width as int,
                tcx.ctx.charset,
                match label { Some(l) => Some(l@), None => None },
            )
        } else {
            old(surface).canvas_view()
        },
{
    let ghost rs = rects_of(tcx.all_layouts@);
    let ghost f = surface.frame();
    let ghost v0 = surface.canvas_view();
    let g = tcx.geom;
    let left = g.left_x;
    let right = g.right_x;
    let mut k: usize = 0;
    while k < tcx.all_layouts.len()
        invariant
            k <= tcx.all_layouts@.len(),
            rs == rects_of(tcx.all_layouts@),
            left == tcx.geom.left_x,
            right == tcx.geom.right_x,
            forall|j: int| 0 <= j < k ==> !(#[trigger] rs[j] != tcx.from && rs[j] != tcx.to && rs[j].y == tcx.from.y && rs[j].right() > left
                && rs[j].x < right),
            surface.wf(),
            surface.frame() == f,
            surface.canvas_view() == v0,
            *final(old(surface).target()) == *final(surface.target()),
        decreases tcx.all_layouts@.len() - k,
    {
        let r = tcx.all_layouts[k].rect;
        assert(r == rs[k as int]);
        if r != tcx.from && r != tcx.to && r.y == tcx.from.y && r.right() > left && r.x < right {
            return false;
        }
        k = k + 1;
    }
    let glyphs = BorderStyle::Single.glyphs(tcx.ctx.charset);
    let hz = glyphs.horizontal;
    let ly = tcx.from.y.saturating_add(tcx.from.h / 2);
    if right > left {
        surface.put_horizontal(left, ly, right - left, hz, Layer::Connector);
    }
    let arrow = if g.from_cx < g.to_cx {
        match tcx.ctx.charset {
            Charset::Ascii => '>',
            Charset::Unicode => '▶',
        }
    } else {
        match tcx.ctx.charset {
            Charset::Ascii => '<',
            Charset::Unicode => '◀',
        }
    };
    surface.put_layered(right, ly, arrow, Layer::ConnectorEnd);
    let ghost v2 = surface.canvas_view();
    if let Some(text) = label {
        let lines = wrap_label(text, g.avail).lines;
        let ghost ls = views(lines@);
        let n = lines.len();
        let top = ly.saturating_sub(n / 2);
        let mut i: usize = 0;
        while i < n
            invariant
                i <= n,
                n == lines@.len(),
                ls == views(lines@),
                ls == label_lines(text@, tcx.geom.avail as int),
                top as int == sat_sub(ly as int, n as int / 2),
                rs == rects_of(tcx.all_layouts@),
                left == tcx.geom.left_x,
                right == tcx.geom.right_x,
                g == tcx.geom,
                hz == spec_glyphs(BorderStyle::Single, tcx.ctx.charset).horizontal,
                surface.wf(),
                surface.frame() == f,
                surface.canvas_view() == same_layer_lines(v2, f, rs, tcx.from, tcx.to, *tcx.geom, tcx.canvas_width as int, hz, ls, top as int, i as int),
                *final(old(surface).target()) == *final(surface.target()),
            decreases n - i,
        {
            let line = lines[i].as_str();
            assert(ls[i as int] == line@);
            let lw = seq_display_width(chars_of(line).as_slice());
            let x0 = g.base_x.saturating_sub(lw / 2);
            let x1a = if x0 > left {
                x0
            } else {
                left
            };
            let cap = right.saturating_sub(lw);
            let x1 = if x1a < cap {
                x1a
            } else {
                cap
            };
            let y = top.saturating_add(i);
            let x = avoid_box_x(x1, lw, y, tcx.from, tcx.to, tcx.all_layouts, tcx.canvas_width);
            surface.put_str_layered(x, y, line, Layer::Label);
            if g.corridor_w > 0 {
                let end = x.saturating_add(lw);
                if x > left {
                    surface.put_horizontal(left, y, x - left, hz, Layer::Connector);
                }
                if end <= right {
                    surface.put_horizontal(end, y, right - end, hz, Layer::Connector);
                }
            }
            i = i + 1;
        }
    }
    true
}


// ---------------------------------------------------------------------
// Labels of routed transitions
// ---------------------------------------------------------------------

/// The drawn route of a transition, as label placement reads it: its
/// direction, the anchor rows of its ends, the corridor row, the columns
/// the label is held between, the legs' columns, and the corridor's ends.
#[derive(Clone, Copy, Debug, PartialEq, Eq, Structural)]
pub struct RouteGeometry {
    pub forward: bool,
    pub from_anchor: usize,
    pub to_anchor: usize,
    pub effective_route_y: usize,
    pub left_x: usize,
    pub right_x: usize,
    pub from_leg_cx: usize,
    pub to_leg_cx: usize,
    pub corridor_left: usize,
    pub corridor_right: usize,
}

/// Column of label line `line` on row `y`: centered on the geometry's
/// column (the stacked one above the corridor row), kept inside the
/// canvas, held inside the corridor when the label is embedded and
/// narrower than it, moved off the sibling junction columns on the
/// corridor row, then moved off boxes.
pub open spec fn route_label_x(
    rs: Seq<Rect>,
    from: Rect,
    to: Rect,
    g: TransGeom,
    cw: int,
    cols: Seq<usize>,
    route: RouteGeometry,
    row: int,
    line: Seq<char>,
    y: int,
) -> int {
    let lw = chars_width(line) as int;
    let base = if row > 0 { g.stacked_base_x } else { g.base_x };
    let x0 = imin2(sat_sub(base as int, lw / 2), sat_sub(cw, lw));
    let x1 = if g.embed && lw < g.corridor_w {
        imin2(imax2(x0, route.left_x as int), sat_sub(sat_add(route.right_x as int, 1), lw))
    } else {
        x0
    };
    let x2 = if y == route.effective_route_y && cols.len() > 0 {
        imin2(off_junctions(cols, x1, lw, (cols.len() + 1) as nat), sat_sub(cw, lw))
    } else {
        x1
    };
    avoid_boxes(rs, rs.len() as int, x2, lw, y, from, to, cw)
}

/// First row of the label block: centered on the corridor row, or
/// `3 * row` rows above it when stacked.
pub open spec fn route_label_top(ery: int, row: int, n: int) -> int {
    if row == 0 {
        sat_sub(ery, n / 2)
    } else {
        sat_sub(sat_sub(ery, sat_mul(row, 3)), n / 2)
    }
}

/// The first `k` label lines written over `v`.
pub open spec fn route_label_lines(
    v: CanvasView,
    f: SurfaceFrame,
    rs: Seq<Rect>,
    from: Rect,
    to: Rect,
    g: TransGeom,
    cw: int,
    cols: Seq<usize>,
    route: RouteGeometry,
    row: int,
    lines: Seq<Seq<char>>,
    top: int,
    k: int,
) -> CanvasView
    decreases k,
{
    if k <= 0 {
        v
    } else {
        let prev = route_label_lines(v, f, rs, from, to, g, cw, cols, route, row, lines, top, k - 1);
        let y = sat_add(top, k - 1);
        clip_str(prev, f, route_label_x(rs, from, to, g, cw, cols, route, row, lines[k - 1], y), y, lines[k - 1], Layer::Label, true)
    }
}

/// A transition's label drawn over `v` (see [`draw_transition_label`]):
/// the label lines; then, when the corridor row crosses the block, the
/// corridor line restored on both sides of that row's line with a
/// junction at each corridor end it reaches; then the leg restored above
/// a stacked block (from the leg's anchor) and below the block down to
/// the corridor row.
pub open spec fn transition_label_view(
    v: CanvasView,
    f: SurfaceFrame,
    rs: Seq<Rect>,
    from: Rect,
    to: Rect,
    g: TransGeom,
    cw: int,
    cols: Seq<usize>,
    charset: Charset,
    text: Seq<char>,
    row: int,
    route: RouteGeometry,
) -> CanvasView {
    let glyphs = spec_glyphs(BorderStyle::Single, charset);
    let lines = label_lines(text, g.avail as int);
    let n = lines.len() as int;
    let ery = route.effective_route_y as int;
    let top = route_label_top(ery, row, n);
    let v1 = route_label_lines(v, f, rs, from, to, g, cw, cols, route, row, lines, top, n);
    let cl = route.corridor_left as int;
    let cr = route.corridor_right as int;
    let v2 = if g.corridor_w > 0 && ery >= top && ery < sat_add(top, n) {
        let line = lines[ery - top];
        let lx = route_label_x(rs, from, to, g, cw, cols, route, row, line, ery);
        let end = sat_add(lx, chars_width(line) as int);
        let jc = if charset == Charset::Ascii { '+' } else { '┼' };
        let a = if lx > cl { clip_hline(v1, f, cl, ery, lx - cl, glyphs.horizontal, Layer::Connector) } else { v1 };
        let b = if end <= cr { clip_hline(a, f, end, ery, sat_add(cr - end, 1), glyphs.horizontal, Layer::Connector) } else { a };
        let c = if lx > cl { clip_put(b, f, cl, ery, jc, Layer::Connector) } else { b };
        if end <= cr { clip_put(c, f, cr, ery, jc, Layer::Connector) } else { c }
    } else {
        v1
    };
    let vcol = if route.forward { route.from_leg_cx } else { route.to_leg_cx } as int;
    let below = sat_add(top, n);
    let below_len = if ery >= below { sat_add(ery - below, 1) } else { 0 };
    if row > 0 {
        let top_y = if route.forward { route.from_anchor } else { route.to_anchor } as int;
        let leg_top = imin2(top_y, ery);
        let v3 = clip_vline(v2, f, vcol, leg_top, sat_sub(top, leg_top), glyphs.vertical, Layer::Connector);
        clip_vline(v3, f, vcol, below, below_len, glyphs.vertical, Layer::Connector)
    } else if g.corridor_w > 0 {
        clip_vline(v2, f, vcol, below, below_len, glyphs.vertical, Layer::Connector)
    } else {
        v2
    }
}

/// Column of one label line (see [`route_label_x`]).
fn route_label_x_exec(tcx: &TransitionCtx, route: &RouteGeometry, row: usize, line: &str, y: usize) -> (r: (usize, usize))
    ensures
        r.0 as int == route_label_x(
            rects_of(tcx.all_layouts@),
            tcx.from,
            tcx.to,
            *tcx.geom,
            tcx.canvas_width as int,
            tcx.avoid_junction_cols@,
            *route,
            row as int,
            line@,
            y as int,
        ),
        r.1 == chars_width(line@),
{
    let g = tcx.geom;
    let cw = tcx.canvas_width;
    let lw = seq_display_width(chars_of(line).as_slice());
    let base = if row > 0 {
        g.stacked_base_x
    } else {
        g.base_x
    };
    let a = base.saturating_sub(lw / 2);
    let cap = cw.saturating_sub(lw);
    let x0 = if a < cap {
        a
    } else {
        cap
    };
    let x1 = if g.embed && lw < g.corridor_w {
        let lo = if x0 > route.left_x {
            x0
        } else {
            route.left_x
        };
        let hi = route.right_x.saturating_add(1).saturating_sub(lw);
        if lo < hi {
            lo
        } else {
            hi
        }
    } else {
        x0
    };
    let x2 = if y == route.effective_route_y && tcx.avoid_junction_cols.len() > 0 {
        let s = shift_off_junctions(x1, lw, tcx.avoid_junction_cols);
        if s < cap {
            s
        } else {
            cap
        }
    } else {
        x1
    };
    (avoid_box_x(x2, lw, y, tcx.from, tcx.to, tcx.all_layouts, cw), lw)
}

/// Draw a routed transition's label block at stack row `row` of its gap
/// and restore the corridor line and the leg around it (see
/// [`transition_label_view`]).
pub fn draw_transition_label(surface: &mut Surface<'_>, tcx: &TransitionCtx, text: &str, row: usize, route: &RouteGeometry)
    requires
        old(surface).wf(),
    ensures
        final(surface).wf(),
        final(surface).frame() == old(surface).frame(),
        *final(old(surface).target()) == *final(final(surface).target()),
        final(surface).canvas_view() == transition_label_view(
            old(surface).canvas_view(),
            old(surface).frame(),
            rects_of(tcx.all_layouts@),
            tcx.from,
            tcx.to,
            *tcx.geom,
            tcx.canvas_width as int,
            tcx.avoid_junction_cols@,
            tcx.ctx.charset,
            text@,
            row as int,
            *route,
        ),
{
    let ghost rs = rects_of(tcx.all_layouts@);
    let ghost f = surface.frame();
    let ghost v0 = surface.canvas_view();
    let g = tcx.geom;
    let glyphs = BorderStyle::Single.glyphs(tcx.ctx.charset);
    let lines = wrap_label(text, g.avail).lines;
    let ghost ls = views(lines@);
    let n = lines.len();
    let ery = route.effective_route_y;
    let top = if row == 0 {
        ery.saturating_sub(n / 2)
    } else {
        ery.saturating_sub(crate::diagrams::table::mul_sat(row, 3)).saturating_sub(n / 2)
    };
    let mut i: usize = 0;
    while i < n
        invariant
            i <= n,
            n == lines@.len(),
            ls == views(lines@),
            top as int == route_label_top(ery as int, row as int, n as int),
            ery == route.effective_route_y,
            surface.wf(),
            surface.frame() == f,
            surface.canvas_view() == route_label_lines(v0, f, rs, tcx.from, tcx.to, *tcx.geom, tcx.canvas_width as int, tcx.avoid_junction_cols@, *route, row as int, ls, top as int, i as int),
            rs == rects_of(tcx.all_layouts@),
            *final(old(surface).target()) == *final(surface.target()),
        decreases n - i,
    {
        let line = lines[i].as_str();
        assert(ls[i as int] == line@);
        let y = top.saturating_add(i);
        let (x, _lw) = route_label_x_exec(tcx, route, row, line, y);
        surface.put_str_layered(x, y, line, Layer::Label);
        i = i + 1;
    }
    assert(ls == label_lines(text@, g.avail as int));
    let cl = route.corridor_left;
    let cr = route.corridor_right;
    let below = top.saturating_add(n);
    if g.corridor_w > 0 && ery >= top && ery < below {
        let idx = ery - top;
        let line = lines[idx].as_str();
        assert(ls[idx as int] == line@);
        let (lx, lw) = route_label_x_exec(tcx, route, row, line, ery);
        let end = lx.saturating_add(lw);
        let jc = if tcx.ctx.charset == Charset::Ascii {
            '+'
        } else {
            '┼'
        };
        if lx > cl {
            surface.put_horizontal(cl, ery, lx - cl, glyphs.horizontal, Layer::Connector);
        }
        if end <= cr {
            surface.put_horizontal(end, ery, (cr - end).saturating_add(1), glyphs.horizontal, Layer::Connector);
        }
        if lx > cl {
            surface.put_layered(cl, ery, jc, Layer::Connector);
        }
        if end <= cr {
            surface.put_layered(cr, ery, jc, Layer::Connector);
        }
    }
    let vcol = if route.forward {
        route.from_leg_cx
    } else {
        route.to_leg_cx
    };
    let below_len = if ery >= below {
        (ery - below).saturating_add(1)
    } else {
        0
    };
    if row > 0 {
        let top_y = if route.forward {
            route.from_anchor
        } else {
            route.to_anchor
        };
        let leg_top = if top_y < ery {
            top_y
        } else {
            ery
        };
        surface.put_vertical(vcol, leg_top, top.saturating_sub(leg_top), glyphs.vertical, Layer::Connector);
        surface.put_vertical(vcol, below, below_len, glyphs.vertical, Layer::Connector);
    } else if g.corridor_w > 0 {
        surface.put_vertical(vcol, below, below_len, glyphs.vertical, Layer::Connector);
    }
}

} // verus!
