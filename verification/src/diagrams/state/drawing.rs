//! Drawing a state diagram on a surface: the initial-state arrow, the
//! state boxes (accepting states with a double border), and the
//! transitions with their labels.

use vstd::prelude::*;
use crate::canvas::{CanvasView, Layer};
use crate::diagrams::arrow::sat_add;
use crate::diagrams::state::label_rows::{find_lay, lay_rect, lemma_lay_index_range, midpoint, str_eq, Lay};
use crate::diagrams::state::types::Transition;
use crate::diagrams::state::layout::{lay_view, lay_views, state_label_lines, state_lines, StateLayout};
use crate::diagrams::state::types::StateType;
use crate::diagrams::table::{imax, mul_sat, sat_mul};
use crate::geom::Rect;
use crate::layout::routing::sat_sub;
use crate::render::surface::{clip_hline, clip_put, clip_rect, clip_str, clip_vline, Surface, SurfaceFrame};
use crate::style::{spec_glyphs, BorderStyle, Charset};
use crate::text::{greedy_wrap, views, wrap_label};
use crate::width::{chars_of, chars_width, seq_display_width};

verus! {

/// A bound on every coordinate of a drawing, so that its arithmetic
/// stays far from the machine range.
pub open spec fn small(x: int) -> bool {
    0 <= x < usize::MAX / 8
}

/// A box whose edges are all within the bound, at least one row tall.
pub open spec fn box_ok(r: Rect) -> bool {
    &&& small(r.x + r.w + 2)
    &&& small(r.y + r.h + 2)
    &&& r.h >= 1
}

/// The arrow into the initial state's box `r`: a dot six columns left
/// of the box on its second row, a four-cell shaft, and `>`.
pub open spec fn initial_view(v: CanvasView, f: SurfaceFrame, r: Rect, charset: Charset) -> CanvasView {
    let ix = sat_sub(r.x as int, 6);
    let iy = r.y + 1;
    let dot = if charset == Charset::Ascii { '*' } else { '●' };
    let v1 = clip_put(v, f, ix, iy, dot, Layer::NodeContent);
    let v2 = clip_hline(v1, f, ix + 1, iy, 4, '─', Layer::NodeContent);
    clip_put(v2, f, ix + 5, iy, '>', Layer::NodeContent)
}

/// Draw the arrow into the initial state (see [`initial_view`]).
pub fn draw_initial_arrow(surface: &mut Surface<'_>, r: Rect, charset: Charset)
    requires
        old(surface).wf(),
        box_ok(r),
    ensures
        final(surface).wf(),
        final(surface).frame() == old(surface).frame(),
        final(surface).canvas_view() == initial_view(old(surface).canvas_view(), old(surface).frame(), r, charset),
        *final(old(surface).target()) == *final(final(surface).target()),
{
    let ix = r.x.saturating_sub(6);
    let iy = r.y + 1;
    let dot = if charset == Charset::Ascii { '*' } else { '●' };
    surface.put(ix, iy, dot);
    surface.put_horizontal(ix + 1, iy, 4, '─', Layer::NodeContent);
    surface.put(ix + 5, iy, '>');
}

/// Column where a label of `lw` columns starts centered in box `r`.
pub open spec fn centered_x(r: Rect, lw: int) -> int {
    r.x + sat_sub(r.w as int, lw) / 2
}

/// First row of a block of `n` label lines centered in box `r`.
pub open spec fn label_top(r: Rect, n: int) -> int {
    r.y + sat_sub(r.h + 1, n) / 2
}

/// The first `k` of `lines` written at the node-content layer, each
/// centered in box `r`, one row after another from [`label_top`].
pub open spec fn box_lines_view(v: CanvasView, f: SurfaceFrame, r: Rect, lines: Seq<Seq<char>>, k: int) -> CanvasView
    decreases k,
{
    if k <= 0 {
        v
    } else {
        clip_str(
            box_lines_view(v, f, r, lines, k - 1),
            f,
            centered_x(r, chars_width(lines[k - 1]) as int),
            sat_add(label_top(r, lines.len() as int), k - 1),
            lines[k - 1],
            Layer::NodeContent,
            true,
        )
    }
}

/// A state box over `v`: its rounded border with its label lines (see
/// [`state_lines`]) centered in it; an accepting state at least 4 by 4
/// also gets an inner rounded border one cell in, its interior blanked,
/// and the lines written again on top.
pub open spec fn state_view(v: CanvasView, f: SurfaceFrame, l: Lay, charset: Charset) -> CanvasView {
    let r = l.3;
    let g = spec_glyphs(BorderStyle::Rounded, charset);
    let lines = state_lines(l.1, r.w as int);
    let n = lines.len() as int;
    let v1 = clip_rect(v, f, r.x as int, r.y as int, r.w as int, r.h as int, g);
    let v2 = box_lines_view(v1, f, r, lines, n);
    if l.2 == StateType::Accepting && r.w >= 4 && r.h >= 4 {
        let v3 = clip_rect(v2, f, r.x + 1, r.y + 1, r.w - 2, r.h - 2, g);
        let v4 = blank_rows(v3, f, r.x + 2, r.y + 2, r.w - 4, r.h - 4);
        box_lines_view(v4, f, r, lines, n)
    } else {
        v2
    }
}

/// Write label lines centered in box `r` (see [`box_lines_view`]).
fn draw_box_lines(surface: &mut Surface<'_>, r: Rect, lines: &Vec<String>)
    requires
        old(surface).wf(),
        box_ok(r),
    ensures
        final(surface).wf(),
        final(surface).frame() == old(surface).frame(),
        final(surface).canvas_view() == box_lines_view(old(surface).canvas_view(), old(surface).frame(), r, views(lines@), lines@.len() as int),
        *final(old(surface).target()) == *final(final(surface).target()),
{
    let ghost f = surface.frame();
    let ghost v0 = surface.canvas_view();
    let n = lines.len();
    let top = r.y + (r.h + 1).saturating_sub(n) / 2;
    let mut i: usize = 0;
    while i < n
        invariant
            i <= n,
            n == lines@.len(),
            box_ok(r),
            top as int == label_top(r, n as int),
            surface.wf(),
            surface.frame() == f,
            surface.canvas_view() == box_lines_view(v0, f, r, views(lines@), i as int),
            *final(old(surface).target()) == *final(surface.target()),
        decreases n - i,
    {
        let lw = seq_display_width(chars_of(lines[i].as_str()).as_slice());
        let lx = r.x + r.w.saturating_sub(lw) / 2;
        assert(views(lines@)[i as int] == lines@[i as int]@);
        surface.put_str_layered(lx, top.saturating_add(i), lines[i].as_str(), Layer::NodeContent);
        i = i + 1;
    }
}

/// Rows `0..k` of the `w`-wide band from `(x, y)` blanked at the
/// node-content layer.
pub open spec fn blank_rows(v: CanvasView, f: SurfaceFrame, x: int, y: int, w: int, k: int) -> CanvasView
    decreases k,
{
    if k <= 0 {
        v
    } else {
        clip_hline(blank_rows(v, f, x, y, w, k - 1), f, x, y + k - 1, w, ' ', Layer::NodeContent)
    }
}

/// The states `0..k` drawn in order.
pub open spec fn states_view(v: CanvasView, f: SurfaceFrame, ls: Seq<Lay>, charset: Charset, k: int) -> CanvasView
    decreases k,
{
    if k <= 0 {
        v
    } else {
        state_view(states_view(v, f, ls, charset, k - 1), f, ls[k - 1], charset)
    }
}

/// Draw one state box (see [`state_view`]).
fn draw_state(surface: &mut Surface<'_>, l: &StateLayout, charset: Charset)
    requires
        old(surface).wf(),
        box_ok(l.rect),
    ensures
        final(surface).wf(),
        final(surface).frame() == old(surface).frame(),
        final(surface).canvas_view() == state_view(old(surface).canvas_view(), old(surface).frame(), lay_view(*l), charset),
        *final(old(surface).target()) == *final(final(surface).target()),
{
    let r = l.rect;
    let g = BorderStyle::Rounded.glyphs(charset);
    let lines = state_label_lines(l.label.as_str(), r.w);
    surface.draw_rect(r.x, r.y, r.w, r.h, &g);
    draw_box_lines(surface, r, &lines);
    if l.state_type == StateType::Accepting && r.w >= 4 && r.h >= 4 {
        surface.draw_rect(r.x + 1, r.y + 1, r.w - 2, r.h - 2, &g);
        let ghost f = surface.frame();
        let ghost v3 = surface.canvas_view();
        let ih = r.h - 2;
        let mut ry: usize = 1;
        while ry + 1 < ih
            invariant
                1 <= ry <= ih - 1,
                ih >= 2,
                ih == r.h - 2,
                box_ok(r),
                r.w >= 4,
                surface.wf(),
                surface.frame() == f,
                surface.canvas_view() == blank_rows(v3, f, r.x + 2, r.y + 2, r.w - 4, ry - 1),
                *final(old(surface).target()) == *final(surface.target()),
            decreases ih - ry,
        {
            surface.put_horizontal(r.x + 2, r.y + 1 + ry, r.w - 4, ' ', Layer::NodeContent);
            ry = ry + 1;
        }
        draw_box_lines(surface, r, &lines);
    }
}

/// Draw every state box in order (see [`states_view`]).
pub fn draw_states(surface: &mut Surface<'_>, layouts: &Vec<StateLayout>, charset: Charset)
    requires
        old(surface).wf(),
        forall|i: int| 0 <= i < layouts@.len() ==> box_ok(#[trigger] layouts@[i].rect),
    ensures
        final(surface).wf(),
        final(surface).frame() == old(surface).frame(),
        final(surface).canvas_view() == states_view(
            old(surface).canvas_view(),
            old(surface).frame(),
            lay_views(layouts@),
            charset,
            layouts@.len() as int,
        ),
        *final(old(surface).target()) == *final(final(surface).target()),
{
    let ghost f = surface.frame();
    let ghost v0 = surface.canvas_view();
    let ghost ls = lay_views(layouts@);
    let mut k: usize = 0;
    while k < layouts.len()
        invariant
            k <= layouts@.len(),
            ls == lay_views(layouts@),
            forall|i: int| 0 <= i < layouts@.len() ==> box_ok(#[trigger] layouts@[i].rect),
            surface.wf(),
            surface.frame() == f,
            surface.canvas_view() == states_view(v0, f, ls, charset, k as int),
            *final(old(surface).target()) == *final(surface.target()),
        decreases layouts@.len() - k,
    {
        assert(ls[k as int] == lay_view(layouts@[k as int]));
        draw_state(surface, &layouts[k], charset);
        k = k + 1;
    }
}

/// Width a self-loop label on box `r` wraps to: the canvas right of the
/// loop and a gap, at least 10 columns.
pub open spec fn self_loop_avail(r: Rect, canvas_w: int) -> int {
    imax(sat_sub(canvas_w, r.x + r.w + 3), 10)
}

/// The first `k` lines of a self-loop label over `v`, one per row from
/// the box's top row, two columns right of the loop but pulled left to
/// fit in the canvas.
pub open spec fn self_loop_lines(v: CanvasView, f: SurfaceFrame, r: Rect, lines: Seq<Seq<char>>, canvas_w: int, k: int) -> CanvasView
    decreases k,
{
    if k <= 0 {
        v
    } else {
        let prev = self_loop_lines(v, f, r, lines, canvas_w, k - 1);
        let lw = chars_width(lines[k - 1]) as int;
        let lx = imin_i(r.x + r.w + 3, sat_sub(canvas_w, lw));
        clip_str(prev, f, lx, sat_add(r.y as int, k - 1), lines[k - 1], Layer::Label, true)
    }
}

/// `a` or `b`, the smaller.
pub open spec fn imin_i(a: int, b: int) -> int {
    if a < b { a } else { b }
}

/// A self-transition on box `r`: a line down the column two right of
/// the box, joined to the box's bottom row, with `<` into the box's
/// middle row, and its label, wrapped greedily, right of the loop.
pub open spec fn self_loop_view(v: CanvasView, f: SurfaceFrame, r: Rect, charset: Charset, label: Option<Seq<char>>, canvas_w: int) -> CanvasView {
    let g = spec_glyphs(BorderStyle::Single, charset);
    let loop_x = r.x + r.w + 1;
    let top = r.y as int;
    let mid = r.y + r.h / 2;
    let bot = r.y + r.h - 1;
    let v1 = clip_vline(v, f, loop_x, top, r.h as int, g.vertical, Layer::Connector);
    let v2 = clip_hline(v1, f, r.x + r.w, bot, 2, g.horizontal, Layer::Connector);
    let tr = if charset == Charset::Ascii { '+' } else { '┐' };
    let br = if charset == Charset::Ascii { '+' } else { '┘' };
    let v3 = clip_put(v2, f, loop_x, top, tr, Layer::Connector);
    let v4 = clip_put(v3, f, loop_x, bot, br, Layer::Connector);
    let v5 = clip_put(v4, f, r.x + r.w, mid, '<', Layer::ConnectorEnd);
    match label {
        None => v5,
        Some(text) => {
            let lines = greedy_wrap(text, self_loop_avail(r, canvas_w));
            self_loop_lines(v5, f, r, lines, canvas_w, lines.len() as int)
        },
    }
}

/// Draw a self-transition (see [`self_loop_view`]).
fn draw_self_loop(surface: &mut Surface<'_>, r: Rect, label: Option<&str>, charset: Charset, canvas_width: usize)
    requires
        old(surface).wf(),
        box_ok(r),
        small(canvas_width as int),
    ensures
        final(surface).wf(),
        final(surface).frame() == old(surface).frame(),
        final(surface).canvas_view() == self_loop_view(
            old(surface).canvas_view(),
            old(surface).frame(),
            r,
            charset,
            match label { Some(l) => Some(l@), None => None },
            canvas_width as int,
        ),
        *final(old(surface).target()) == *final(final(surface).target()),
{
    let g = BorderStyle::Single.glyphs(charset);
    let loop_x = r.x + r.w + 1;
    let top = r.y;
    let mid = r.y + r.h / 2;
    let bot = r.y + r.h - 1;
    surface.put_vertical(loop_x, top, r.h, g.vertical, Layer::Connector);
    surface.put_horizontal(r.x + r.w, bot, loop_x - (r.x + r.w) + 1, g.horizontal, Layer::Connector);
    let tr = if charset == Charset::Ascii { '+' } else { '┐' };
    let br = if charset == Charset::Ascii { '+' } else { '┘' };
    surface.put_layered(loop_x, top, tr, Layer::Connector);
    surface.put_layered(loop_x, bot, br, Layer::Connector);
    surface.put_layered(r.x + r.w, mid, '<', Layer::ConnectorEnd);
    let ghost f = surface.frame();
    let ghost v5 = surface.canvas_view();
    if let Some(text) = label {
        let a = canvas_width.saturating_sub(loop_x + 2);
        let avail = if a > 10 {
            a
        } else {
            10
        };
        let lines = wrap_label(text, avail).lines;
        let ghost ls = views(lines@);
        let n = lines.len();
        let mut i: usize = 0;
        while i < n
            invariant
                i <= n,
                n == lines@.len(),
                ls == views(lines@),
                box_ok(r),
                small(canvas_width as int),
                loop_x == r.x + r.w + 1,
                surface.wf(),
                surface.frame() == f,
                surface.canvas_view() == self_loop_lines(v5, f, r, ls, canvas_width as int, i as int),
                *final(old(surface).target()) == *final(surface.target()),
            decreases n - i,
        {
            let line = lines[i].as_str();
            assert(ls[i as int] == line@);
            let lw = seq_display_width(chars_of(line).as_slice());
            let cap = canvas_width.saturating_sub(lw);
            let lx = if loop_x + 2 < cap {
                loop_x + 2
            } else {
                cap
            };
            surface.put_str_layered(lx, r.y.saturating_add(i), line, Layer::Label);
            i = i + 1;
        }
    }
}

/// Geometry of a transition between two boxes: center columns, the rows
/// where the line leaves the source and meets the target, the corridor
/// row halfway between, and the corridor's left and right columns.
pub struct Route {
    pub fcx: int,
    pub tcx: int,
    pub fwd: bool,
    pub fa: int,
    pub ta: int,
    pub ry: int,
    pub left: int,
    pub right: int,
}

/// The route between `from` and `to`: leaving the source's bottom (or
/// top, upward) and meeting the target's top (or bottom row).
pub open spec fn route(from: Rect, to: Rect) -> Route {
    let fcx = from.x + from.w / 2;
    let tcx = to.x + to.w / 2;
    let fwd = from.y < to.y;
    let fa = if fwd { from.y + from.h } else { from.y as int };
    let ta = if fwd { to.y as int } else { to.y + to.h - 1 };
    Route {
        fcx,
        tcx,
        fwd,
        fa,
        ta,
        ry: (fa + ta) / 2,
        left: if fcx < tcx { fcx } else { tcx },
        right: if fcx < tcx { tcx } else { fcx },
    }
}

/// The wrap width of a transition label: the corridor, at least 10; a
/// straight line wraps at the room right of it, at least 10.
pub open spec fn transition_avail(rt: Route, canvas_w: int) -> int {
    if rt.right > rt.left {
        imax(rt.right - rt.left + 1, 10)
    } else {
        imax(sat_sub(canvas_w, rt.fcx + 2), 10)
    }
}

/// First row of a label block of `n` lines on label row `row`: centered
/// on the corridor row, two rows higher per label row.
pub open spec fn block_top(rt: Route, row: int, n: int) -> int {
    if row == 0 {
        sat_sub(rt.ry, n / 2)
    } else {
        sat_sub(sat_sub(rt.ry, sat_mul(row, 2)), n / 2)
    }
}

/// The column a label block centers on: the corridor's middle on row 0,
/// else the leg above the corridor (the source's going down, the
/// target's going up).
pub open spec fn base_x(rt: Route, row: int) -> int {
    if row > 0 {
        if rt.fwd { rt.fcx } else { rt.tcx }
    } else {
        (rt.fcx + rt.tcx) / 2
    }
}

/// Start column of a label line `lw` wide: centered on the base column,
/// pulled left to end inside the canvas, and on row 0 kept inside a
/// corridor it fits in.
pub open spec fn line_x(rt: Route, row: int, lw: int, canvas_w: int) -> int {
    let x0 = sat_sub(base_x(rt, row), lw / 2);
    let cap = sat_sub(canvas_w, lw);
    let x1 = if x0 < cap { x0 } else { cap };
    if row == 0 && rt.right > rt.left && lw < rt.right - rt.left + 1 {
        let x2 = if x1 > rt.left { x1 } else { rt.left };
        let lim = rt.right + 1 - lw;
        if x2 < lim { x2 } else { lim }
    } else {
        x1
    }
}

/// Label lines `0..k` of a transition over `v`: each written at
/// [`line_x`] on its row of the block; a line on the corridor row has
/// the corridor redrawn on both sides of it.
pub open spec fn label_lines_view(
    v: CanvasView,
    f: SurfaceFrame,
    rt: Route,
    row: int,
    lines: Seq<Seq<char>>,
    canvas_w: int,
    h: char,
    k: int,
) -> CanvasView
    decreases k,
{
    if k <= 0 {
        v
    } else {
        let prev = label_lines_view(v, f, rt, row, lines, canvas_w, h, k - 1);
        let l = lines[k - 1];
        let lw = chars_width(l) as int;
        let lx = line_x(rt, row, lw, canvas_w);
        let ly = sat_add(block_top(rt, row, lines.len() as int), k - 1);
        let v1 = clip_str(prev, f, lx, ly, l, Layer::Label, true);
        if ly == rt.ry && rt.right > rt.left {
            let le = sat_add(lx, lw);
            let v2 = if lx > rt.left { clip_hline(v1, f, rt.left, rt.ry, lx - rt.left, h, Layer::Connector) } else { v1 };
            if le < rt.right { clip_hline(v2, f, le, rt.ry, rt.right - le + 1, h, Layer::Connector) } else { v2 }
        } else {
            v1
        }
    }
}

/// The lines of a transition between distinct boxes over `v`: legs
/// from each anchor to the corridor row, the corridor between the legs,
/// and the arrowhead on the target's facing row.
pub open spec fn route_view(v: CanvasView, f: SurfaceFrame, from: Rect, to: Rect, charset: Charset) -> CanvasView {
    let g = spec_glyphs(BorderStyle::Single, charset);
    let rt = route(from, to);
    let (fs, fl) = if rt.fa < rt.ry { (rt.fa, rt.ry - rt.fa + 1) } else { (rt.ry, rt.fa - rt.ry + 1) };
    let (ts, tl) = if rt.ta < rt.ry { (rt.ta, rt.ry - rt.ta + 1) } else { (rt.ry, rt.ta - rt.ry + 1) };
    let v1 = clip_vline(v, f, rt.fcx, fs, fl, g.vertical, Layer::Connector);
    let v2 = clip_vline(v1, f, rt.tcx, ts, tl, g.vertical, Layer::Connector);
    let v3 = if rt.right > rt.left { clip_hline(v2, f, rt.left, rt.ry, rt.right - rt.left + 1, g.horizontal, Layer::Connector) } else { v2 };
    let arrow = if rt.fwd {
        if charset == Charset::Ascii { 'v' } else { '▼' }
    } else {
        if charset == Charset::Ascii { '^' } else { '▲' }
    };
    let ay = if rt.fwd { to.y as int } else { to.y + to.h - 1 };
    clip_put(v3, f, rt.tcx, ay, arrow, Layer::ConnectorEnd)
}

/// The leg of a stacked label (row above 0) redrawn above and below its
/// block of `n` lines.
pub open spec fn leg_restore_view(v: CanvasView, f: SurfaceFrame, rt: Route, row: int, n: int, vch: char) -> CanvasView {
    if row > 0 {
        let vcol = if rt.fwd { rt.fcx } else { rt.tcx };
        let top_y = if rt.fwd { rt.fa } else { rt.ta };
        let leg_top = if top_y < rt.ry { top_y } else { rt.ry };
        let bt = block_top(rt, row, n);
        let v6 = if leg_top < bt { clip_vline(v, f, vcol, leg_top, bt - leg_top, vch, Layer::Connector) } else { v };
        let below = sat_add(bt, n);
        if below <= rt.ry { clip_vline(v6, f, vcol, below, rt.ry - below + 1, vch, Layer::Connector) } else { v6 }
    } else {
        v
    }
}

/// A transition between distinct boxes over `v`: its lines (see
/// [`route_view`]), then, with a label, the label block (see
/// [`label_lines_view`]) and the redrawn leg of a stacked label.
pub open spec fn transition_view(
    v: CanvasView,
    f: SurfaceFrame,
    from: Rect,
    to: Rect,
    label: Option<Seq<char>>,
    lines: Seq<Seq<char>>,
    row: int,
    charset: Charset,
    canvas_w: int,
) -> CanvasView {
    let g = spec_glyphs(BorderStyle::Single, charset);
    let rt = route(from, to);
    let v4 = route_view(v, f, from, to, charset);
    match label {
        None => v4,
        Some(_) => {
            let n = lines.len() as int;
            let v5 = label_lines_view(v4, f, rt, row, lines, canvas_w, g.horizontal, n);
            leg_restore_view(v5, f, rt, row, n, g.vertical)
        },
    }
}

/// The route of a transition, computed.
fn route_exec(from: Rect, to: Rect) -> (r: (usize, usize, bool, usize, usize, usize, usize, usize))
    requires
        box_ok(from),
        box_ok(to),
    ensures
        ({
            let rt = route(from, to);
            &&& r.0 as int == rt.fcx
            &&& r.1 as int == rt.tcx
            &&& r.2 == rt.fwd
            &&& r.3 as int == rt.fa
            &&& r.4 as int == rt.ta
            &&& r.5 as int == rt.ry
            &&& r.6 as int == rt.left
            &&& r.7 as int == rt.right
        }),
{
    let fcx = from.x + from.w / 2;
    let tcx = to.x + to.w / 2;
    let fwd = from.y < to.y;
    let fa = if fwd { from.y + from.h } else { from.y };
    let ta = if fwd { to.y } else { to.y + to.h - 1 };
    let ry = (fa + ta) / 2;
    let left = if fcx < tcx { fcx } else { tcx };
    let right = if fcx < tcx { tcx } else { fcx };
    (fcx, tcx, fwd, fa, ta, ry, left, right)
}

/// Draw the lines of a transition (see [`route_view`]).
fn draw_route(surface: &mut Surface<'_>, from: Rect, to: Rect, charset: Charset)
    requires
        old(surface).wf(),
        box_ok(from),
        box_ok(to),
    ensures
        final(surface).wf(),
        final(surface).frame() == old(surface).frame(),
        final(surface).canvas_view() == route_view(old(surface).canvas_view(), old(surface).frame(), from, to, charset),
        *final(old(surface).target()) == *final(final(surface).target()),
{
    let g = BorderStyle::Single.glyphs(charset);
    let (fcx, tcx, fwd, fa, ta, ry, left, right) = route_exec(from, to);
    if fa < ry {
        surface.put_vertical(fcx, fa, ry - fa + 1, g.vertical, Layer::Connector);
    } else {
        surface.put_vertical(fcx, ry, fa - ry + 1, g.vertical, Layer::Connector);
    }
    if ta < ry {
        surface.put_vertical(tcx, ta, ry - ta + 1, g.vertical, Layer::Connector);
    } else {
        surface.put_vertical(tcx, ry, ta - ry + 1, g.vertical, Layer::Connector);
    }
    if right > left {
        surface.put_horizontal(left, ry, right - left + 1, g.horizontal, Layer::Connector);
    }
    let arrow = if fwd {
        if charset == Charset::Ascii { 'v' } else { '▼' }
    } else {
        if charset == Charset::Ascii { '^' } else { '▲' }
    };
    let ay = if fwd { to.y } else { to.y + to.h - 1 };
    surface.put_layered(tcx, ay, arrow, Layer::ConnectorEnd);
}

/// Write the label block of a transition (see [`label_lines_view`]).
fn draw_label_lines(
    surface: &mut Surface<'_>,
    from: Rect,
    to: Rect,
    lines: &Vec<String>,
    row: usize,
    canvas_width: usize,
    h: char,
)
    requires
        old(surface).wf(),
        box_ok(from),
        box_ok(to),
        small(canvas_width as int),
    ensures
        final(surface).wf(),
        final(surface).frame() == old(surface).frame(),
        final(surface).canvas_view() == label_lines_view(
            old(surface).canvas_view(),
            old(surface).frame(),
            route(from, to),
            row as int,
            views(lines@),
            canvas_width as int,
            h,
            lines@.len() as int,
        ),
        *final(old(surface).target()) == *final(final(surface).target()),
{
    let ghost f = surface.frame();
    let ghost v0 = surface.canvas_view();
    let ghost rt = route(from, to);
    let ghost ls = views(lines@);
    let (fcx, tcx, fwd, _fa, _ta, ry, left, right) = route_exec(from, to);
    let n = lines.len();
    let bt = if row == 0 {
        ry.saturating_sub(n / 2)
    } else {
        ry.saturating_sub(mul_sat(row, 2)).saturating_sub(n / 2)
    };
    let bx = if row > 0 {
        if fwd { fcx } else { tcx }
    } else {
        midpoint(fcx, tcx)
    };
    let mut i: usize = 0;
    while i < n
        invariant
            i <= n,
            n == lines@.len(),
            ls == views(lines@),
            rt == route(from, to),
            box_ok(from),
            box_ok(to),
            left as int == rt.left,
            right as int == rt.right,
            ry as int == rt.ry,
            bt as int == block_top(rt, row as int, n as int),
            bx as int == base_x(rt, row as int),
            surface.wf(),
            surface.frame() == f,
            surface.canvas_view() == label_lines_view(v0, f, rt, row as int, ls, canvas_width as int, h, i as int),
            *final(old(surface).target()) == *final(surface.target()),
        decreases n - i,
    {
        let lw = crate::width::str_width(lines[i].as_str());
        assert(ls[i as int] == lines@[i as int]@);
        let x0 = bx.saturating_sub(lw / 2);
        let cap = canvas_width.saturating_sub(lw);
        let mut lx = if x0 < cap { x0 } else { cap };
        if row == 0 && right > left && lw < right - left + 1 {
            let x2 = if lx > left { lx } else { left };
            let lim = right + 1 - lw;
            lx = if x2 < lim { x2 } else { lim };
        }
        assert(lx as int == line_x(rt, row as int, lw as int, canvas_width as int));
        let ly = bt.saturating_add(i);
        surface.put_str_layered(lx, ly, lines[i].as_str(), Layer::Label);
        if ly == ry && right > left {
            let le = lx.saturating_add(lw);
            if lx > left {
                surface.put_horizontal(left, ry, lx - left, h, Layer::Connector);
            }
            if le < right {
                surface.put_horizontal(le, ry, right - le + 1, h, Layer::Connector);
            }
        }
        i = i + 1;
    }
}

/// Redraw the leg of a stacked label (see [`leg_restore_view`]).
fn restore_leg(surface: &mut Surface<'_>, from: Rect, to: Rect, row: usize, n: usize, vch: char)
    requires
        old(surface).wf(),
        box_ok(from),
        box_ok(to),
    ensures
        final(surface).wf(),
        final(surface).frame() == old(surface).frame(),
        final(surface).canvas_view() == leg_restore_view(
            old(surface).canvas_view(),
            old(surface).frame(),
            route(from, to),
            row as int,
            n as int,
            vch,
        ),
        *final(old(surface).target()) == *final(final(surface).target()),
{
    if row > 0 {
        let (fcx, tcx, fwd, fa, ta, ry, _left, _right) = route_exec(from, to);
        let bt = ry.saturating_sub(mul_sat(row, 2)).saturating_sub(n / 2);
        let vcol = if fwd { fcx } else { tcx };
        let top_y = if fwd { fa } else { ta };
        let leg_top = if top_y < ry { top_y } else { ry };
        if leg_top < bt {
            surface.put_vertical(vcol, leg_top, bt - leg_top, vch, Layer::Connector);
        }
        let below = bt.saturating_add(n);
        if below <= ry {
            surface.put_vertical(vcol, below, ry - below + 1, vch, Layer::Connector);
        }
    }
}

/// Draw a transition between distinct boxes (see [`transition_view`]);
/// gives the label's wrapping.
pub fn draw_external_transition(
    surface: &mut Surface<'_>,
    from: Rect,
    to: Rect,
    label: Option<&str>,
    row: usize,
    charset: Charset,
    canvas_width: usize,
) -> (lines: Ghost<Seq<Seq<char>>>)
    requires
        old(surface).wf(),
        box_ok(from),
        box_ok(to),
        small(canvas_width as int),
    ensures
        final(surface).wf(),
        final(surface).frame() == old(surface).frame(),
        label matches Some(text) ==> crate::diagrams::arrow::wraps_label(
            lines@,
            text@,
            transition_avail(route(from, to), canvas_width as int),
        ),
        final(surface).canvas_view() == transition_view(
            old(surface).canvas_view(),
            old(surface).frame(),
            from,
            to,
            match label {
                Some(t) => Some(t@),
                None => None,
            },
            lines@,
            row as int,
            charset,
            canvas_width as int,
        ),
        *final(old(surface).target()) == *final(final(surface).target()),
{
    let g = BorderStyle::Single.glyphs(charset);
    draw_route(surface, from, to, charset);
    let text = match label {
        None => {
            return Ghost(Seq::empty());
        },
        Some(t) => t,
    };
    let (fcx, _tcx, _fwd, _fa, _ta, _ry, left, right) = route_exec(from, to);
    let avail = if right > left {
        let c = right - left + 1;
        if c > 10 { c } else { 10 }
    } else {
        let c = canvas_width.saturating_sub(fcx + 2);
        if c > 10 { c } else { 10 }
    };
    let (lines, n, _mw) = crate::diagrams::state::spacing::wrap_text(text, avail);
    draw_label_lines(surface, from, to, &lines, row, canvas_width, g.horizontal);
    restore_leg(surface, from, to, row, n, g.vertical);
    Ghost(views(lines@))
}
/// Transition `t` drawn over `v` on the placed states `ls`: nothing when
/// an end is not placed; a self-loop for a self-transition; otherwise
/// the transition with its label on label row `row`, wrapped as `lines`.
pub open spec fn transition_step(
    v: CanvasView,
    f: SurfaceFrame,
    ls: Seq<Lay>,
    t: Transition,
    row: int,
    lines: Seq<Seq<char>>,
    charset: Charset,
    canvas_w: int,
) -> CanvasView {
    match (lay_rect(ls, t.from@), lay_rect(ls, t.to@)) {
        (Some(a), Some(b)) => if t.from@ == t.to@ {
            self_loop_view(
                v,
                f,
                a,
                charset,
                match t.label {
                    Some(l) => Some(l@),
                    None => None,
                },
                canvas_w,
            )
        } else {
            transition_view(
                v,
                f,
                a,
                b,
                match t.label {
                    Some(l) => Some(l@),
                    None => None,
                },
                lines,
                row,
                charset,
                canvas_w,
            )
        },
        _ => v,
    }
}

/// Transitions `0..k` drawn in order.
pub open spec fn transitions_view(
    v: CanvasView,
    f: SurfaceFrame,
    ls: Seq<Lay>,
    ts: Seq<Transition>,
    rows: Seq<int>,
    w: Seq<Seq<Seq<char>>>,
    charset: Charset,
    canvas_w: int,
    k: int,
) -> CanvasView
    decreases k,
{
    if k <= 0 {
        v
    } else {
        transition_step(
            transitions_view(v, f, ls, ts, rows, w, charset, canvas_w, k - 1),
            f,
            ls,
            ts[k - 1],
            rows[k - 1],
            w[k - 1],
            charset,
            canvas_w,
        )
    }
}

/// `lines` is the label of `t` wrapped as its drawing wraps it.
pub open spec fn draw_wrap_ok(ls: Seq<Lay>, t: Transition, lines: Seq<Seq<char>>, canvas_w: int) -> bool {
    match (lay_rect(ls, t.from@), lay_rect(ls, t.to@), t.label) {
        (Some(a), Some(b), Some(text)) => t.from@ != t.to@ ==> crate::diagrams::arrow::wraps_label(
            lines,
            text@,
            transition_avail(route(a, b), canvas_w),
        ),
        _ => true,
    }
}

/// Draw every transition in order (see [`transitions_view`]); gives the
/// label wrappings used.
pub fn draw_transitions(
    surface: &mut Surface<'_>,
    layouts: &Vec<StateLayout>,
    transitions: &[Transition],
    rows: &Vec<usize>,
    charset: Charset,
    canvas_width: usize,
) -> (w: Ghost<Seq<Seq<Seq<char>>>>)
    requires
        old(surface).wf(),
        rows@.len() == transitions@.len(),
        forall|i: int| 0 <= i < layouts@.len() ==> box_ok(#[trigger] layouts@[i].rect),
        small(canvas_width as int),
    ensures
        final(surface).wf(),
        final(surface).frame() == old(surface).frame(),
        w@.len() == transitions@.len(),
        forall|k: int| 0 <= k < transitions@.len() ==> #[trigger] draw_wrap_ok(
            lay_views(layouts@),
            transitions@[k],
            w@[k],
            canvas_width as int,
        ),
        final(surface).canvas_view() == transitions_view(
            old(surface).canvas_view(),
            old(surface).frame(),
            lay_views(layouts@),
            transitions@,
            rows@.map_values(|v: usize| v as int),
            w@,
            charset,
            canvas_width as int,
            transitions@.len() as int,
        ),
        *final(old(surface).target()) == *final(final(surface).target()),
{
    let ghost f = surface.frame();
    let ghost v0 = surface.canvas_view();
    let ghost ls = lay_views(layouts@);
    let ghost ts = transitions@;
    let ghost rs = rows@.map_values(|v: usize| v as int);
    let ghost mut w: Seq<Seq<Seq<char>>> = Seq::empty();
    let n = transitions.len();
    let mut k: usize = 0;
    while k < n
        invariant
            k <= n,
            n == ts.len(),
            ts == transitions@,
            ls == lay_views(layouts@),
            rs == rows@.map_values(|v: usize| v as int),
            rows@.len() == n,
            forall|i: int| 0 <= i < layouts@.len() ==> box_ok(#[trigger] layouts@[i].rect),
            small(canvas_width as int),
            w.len() == k,
            forall|j: int| 0 <= j < k ==> #[trigger] draw_wrap_ok(ls, ts[j], w[j], canvas_width as int),
            surface.wf(),
            surface.frame() == f,
            surface.canvas_view() == transitions_view(v0, f, ls, ts, rs, w, charset, canvas_width as int, k as int),
            *final(old(surface).target()) == *final(surface.target()),
        decreases n - k,
    {
        let t = &transitions[k];
        let ghost mut lines: Seq<Seq<char>> = Seq::empty();
        let ghost cur = surface.canvas_view();
        let fi = find_lay(layouts, t.from.as_str());
        let ti = find_lay(layouts, t.to.as_str());
        proof {
            lemma_lay_index_range(ls, t.from@, ls.len() as int);
            lemma_lay_index_range(ls, t.to@, ls.len() as int);
        }
        match (fi, ti) {
            (Some(a), Some(b)) => {
                let fr = layouts[a].rect;
                let tr = layouts[b].rect;
                assert(ls[a as int] == lay_view(layouts@[a as int]));
                assert(ls[b as int] == lay_view(layouts@[b as int]));
                if str_eq(t.from.as_str(), t.to.as_str()) {
                    let label = match &t.label {
                        Some(s) => Some(s.as_str()),
                        None => None,
                    };
                    draw_self_loop(surface, fr, label, charset, canvas_width);
                } else {
                    let label = match &t.label {
                        Some(s) => Some(s.as_str()),
                        None => None,
                    };
                    assert(rs[k as int] == rows@[k as int] as int);
                    let gl = draw_external_transition(surface, fr, tr, label, rows[k], charset, canvas_width);
                    proof {
                        lines = gl@;
                    }
                }
                assert(surface.canvas_view() == transition_step(cur, f, ls, *t, rs[k as int], lines, charset, canvas_width as int));
            },
            _ => {
                assert(surface.canvas_view() == transition_step(cur, f, ls, *t, rs[k as int], lines, charset, canvas_width as int));
            },
        }
        proof {
            let w2 = w.push(lines);
            assert(w2[k as int] == lines);
            assert forall|j: int| 0 <= j <= k implies #[trigger] transitions_view(v0, f, ls, ts, rs, w2, charset, canvas_width as int, j)
                == transitions_view(v0, f, ls, ts, rs, w, charset, canvas_width as int, j) by {
                lemma_transitions_prefix(v0, f, ls, ts, rs, w, w2, charset, canvas_width as int, j);
            }
            assert(transitions_view(v0, f, ls, ts, rs, w2, charset, canvas_width as int, k + 1) == transition_step(
                transitions_view(v0, f, ls, ts, rs, w2, charset, canvas_width as int, k as int),
                f,
                ls,
                ts[k as int],
                rs[k as int],
                w2[k as int],
                charset,
                canvas_width as int,
            ));
            assert forall|j: int| 0 <= j < k + 1 implies #[trigger] draw_wrap_ok(ls, ts[j], w2[j], canvas_width as int) by {
                if j < k {
                    assert(w2[j] == w[j]);
                }
            }
            w = w2;
        }
        k = k + 1;
    }
    Ghost(w)
}

proof fn lemma_transitions_prefix(
    v: CanvasView,
    f: SurfaceFrame,
    ls: Seq<Lay>,
    ts: Seq<Transition>,
    rows: Seq<int>,
    w: Seq<Seq<Seq<char>>>,
    w2: Seq<Seq<Seq<char>>>,
    charset: Charset,
    canvas_w: int,
    k: int,
)
    requires
        0 <= k <= w.len(),
        k <= w2.len(),
        forall|j: int| 0 <= j < k ==> w[j] == w2[j],
    ensures
        transitions_view(v, f, ls, ts, rows, w, charset, canvas_w, k) == transitions_view(
            v,
            f,
            ls,
            ts,
            rows,
            w2,
            charset,
            canvas_w,
            k,
        ),
    decreases k,
{
    if k > 0 {
        lemma_transitions_prefix(v, f, ls, ts, rows, w, w2, charset, canvas_w, k - 1);
    }
}

} // verus!
