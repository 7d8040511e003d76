//! Connectors: orthogonal lines between two nodes with an arrowhead and
//! an optional label.
//!
//! The router walks canonical patterns (straight run,
//! vertical-horizontal-vertical, horizontal-vertical-horizontal,
//! L-shape) and takes a detour when the path would cross an avoidance
//! rectangle.

use vstd::prelude::*;
use crate::canvas::{Canvas, CanvasView, Layer};
use crate::diagrams::arrow::{sat_add, wraps_label};
use crate::geom::{Anchor, Rect};
use crate::layout::node::{
    horizontal_line_glyph, spec_horizontal_line_glyph, spec_vertical_line_glyph, vertical_line_glyph,
};
use crate::layout::routing::{
    anchor_dir, build_three_h_segment, build_three_segment, detoured_mid_x, detoured_mid_y,
    h_between, max_right, natural_mid_y, path_intersects_any, side_column, side_route_column, small,
    snap_outside, spec_detoured_mid_y, spec_intersects_any, spec_natural_mid_y, step,
    straight_vertical, three_segment, v_between, Segment,
};
use crate::layout::riding::{
    corridor_label_avail, corridor_label_block_top, spec_corridor_label_avail,
    spec_corridor_label_block_top,
};
use crate::style::{Charset, LineStyle};
use crate::text::{views, wrap_label};
use crate::width::{chars_of, chars_width, seq_display_width};

verus! {

/// A direction an arrowhead points.
#[derive(Clone, Copy, Debug, PartialEq, Eq, Structural)]
pub enum Dir {
    Up,
    Down,
    Left,
    Right,
}

/// The arrowhead glyph for a direction.
pub open spec fn spec_glyph_for(dir: Dir, style: LineStyle, charset: Charset) -> char {
    match (dir, style, charset) {
        (Dir::Up, LineStyle::Bold, _) => '⇑',
        (Dir::Up, _, Charset::Unicode) => '↑',
        (Dir::Up, _, Charset::Ascii) => '^',
        (Dir::Down, LineStyle::Bold, _) => '⇓',
        (Dir::Down, _, Charset::Unicode) => '↓',
        (Dir::Down, _, Charset::Ascii) => 'v',
        (Dir::Left, LineStyle::Bold, _) => '⇐',
        (Dir::Left, _, Charset::Unicode) => '←',
        (Dir::Left, _, Charset::Ascii) => '<',
        (Dir::Right, LineStyle::Bold, _) => '⇒',
        (Dir::Right, _, Charset::Unicode) => '→',
        (Dir::Right, _, Charset::Ascii) => '>',
    }
}

/// The arrowhead glyph for a direction.
pub fn glyph_for(dir: Dir, style: LineStyle, charset: Charset) -> (r: char)
    ensures
        r == spec_glyph_for(dir, style, charset),
{
    match (dir, style, charset) {
        (Dir::Up, LineStyle::Bold, _) => '⇑',
        (Dir::Up, _, Charset::Unicode) => '↑',
        (Dir::Up, _, Charset::Ascii) => '^',
        (Dir::Down, LineStyle::Bold, _) => '⇓',
        (Dir::Down, _, Charset::Unicode) => '↓',
        (Dir::Down, _, Charset::Ascii) => 'v',
        (Dir::Left, LineStyle::Bold, _) => '⇐',
        (Dir::Left, _, Charset::Unicode) => '←',
        (Dir::Left, _, Charset::Ascii) => '<',
        (Dir::Right, LineStyle::Bold, _) => '⇒',
        (Dir::Right, _, Charset::Unicode) => '→',
        (Dir::Right, _, Charset::Ascii) => '>',
    }
}

/// Direction an arrow leaving the source through `src` points: down out
/// of the south side, up out of the north side, left out of the west
/// side, otherwise right.
pub open spec fn pair_dir(src: Anchor) -> Dir {
    match src {
        Anchor::South | Anchor::SouthEast | Anchor::SouthWest => Dir::Down,
        Anchor::North | Anchor::NorthEast | Anchor::NorthWest => Dir::Up,
        Anchor::West => Dir::Left,
        _ => Dir::Right,
    }
}

/// The arrowhead pointing inward along the source's anchor direction.
pub fn arrow_glyph_for_pair(src: Anchor, tgt: Anchor, style: LineStyle, charset: Charset) -> (r: char)
    ensures
        r == spec_glyph_for(pair_dir(src), style, charset),
{
    let dir = match src {
        Anchor::South | Anchor::SouthEast | Anchor::SouthWest => Dir::Down,
        Anchor::North | Anchor::NorthEast | Anchor::NorthWest => Dir::Up,
        Anchor::West => Dir::Left,
        _ => Dir::Right,
    };
    glyph_for(dir, style, charset)
}

/// Direction of the last step of a path: vertical movement first, then
/// horizontal, down when there is none.
pub open spec fn path_dir(dx: int, dy: int) -> Dir {
    if dy > 0 {
        Dir::Down
    } else if dy < 0 {
        Dir::Up
    } else if dx > 0 {
        Dir::Right
    } else if dx < 0 {
        Dir::Left
    } else {
        Dir::Down
    }
}

/// The arrowhead for the direction a path arrives in.
pub fn arrow_from_path(last_dx: i32, last_dy: i32, style: LineStyle, charset: Charset) -> (r: char)
    ensures
        r == spec_glyph_for(path_dir(last_dx as int, last_dy as int), style, charset),
{
    let dir = if last_dy > 0 {
        Dir::Down
    } else if last_dy < 0 {
        Dir::Up
    } else if last_dx > 0 {
        Dir::Right
    } else if last_dx < 0 {
        Dir::Left
    } else {
        Dir::Down
    };
    glyph_for(dir, style, charset)
}

/// A connector: endpoints, anchors, the endpoint rects, obstacles,
/// style, arrowhead, label, and the width limit for wrapping the label.
#[derive(Debug)]
pub struct Connector {
    pub source: (usize, usize),
    pub target: (usize, usize),
    pub source_anchor: Anchor,
    pub target_anchor: Anchor,
    pub source_rect: Rect,
    pub target_rect: Rect,
    pub avoid: Vec<Rect>,
    pub style: LineStyle,
    pub charset: Charset,
    pub arrow_tail: bool,
    pub arrow_head: char,
    pub label: Option<String>,
    /// Hard limit for label wrapping; the canvas width when absent.
    pub user_width: Option<usize>,
}

/// The point one cell outside `r` along `a`.
pub open spec fn snapped(r: Rect, a: Anchor) -> (usize, usize) {
    (step(r.anchor(a).0 as int, anchor_dir(a).0) as usize, step(r.anchor(a).1 as int, anchor_dir(a).1) as usize)
}

/// The rects' anchors stay far from the machine range.
pub open spec fn rect_small(r: Rect) -> bool {
    small(r.x + r.w + 2) && small(r.y + r.h + 2)
}

impl Connector {
    /// A connector from `source_anchor` of the source rect to
    /// `target_anchor` of the target rect, its ends one cell outside the
    /// rects, its arrowhead pointing into the target.
    pub fn new(
        source_rect: Rect,
        target_rect: Rect,
        source_anchor: Anchor,
        target_anchor: Anchor,
        style: LineStyle,
        charset: Charset,
    ) -> (r: Connector)
        requires
            rect_small(source_rect),
            rect_small(target_rect),
        ensures
            r.source == snapped(source_rect, source_anchor),
            r.target == snapped(target_rect, target_anchor),
            r.source_anchor == source_anchor,
            r.target_anchor == target_anchor,
            r.source_rect == source_rect,
            r.target_rect == target_rect,
            r.avoid@.len() == 0,
            r.style == style,
            r.charset == charset,
            !r.arrow_tail,
            r.arrow_head == spec_glyph_for(pair_dir(source_anchor), style, charset),
            r.label is None,
            r.user_width is None,
    {
        let head = arrow_glyph_for_pair(source_anchor, target_anchor, style, charset);
        Connector {
            source: snap_outside(source_rect, source_anchor),
            target: snap_outside(target_rect, target_anchor),
            source_anchor,
            target_anchor,
            source_rect,
            target_rect,
            avoid: Vec::new(),
            style,
            charset,
            arrow_tail: false,
            arrow_head: head,
            label: None,
            user_width: None,
        }
    }

    /// Set the width limit for label wrapping.
    pub fn with_user_width(self, width: usize) -> (r: Connector)
        ensures
            r == (Connector { user_width: Some(width), ..self }),
    {
        Connector { user_width: Some(width), ..self }
    }

    /// Add one rectangle to avoid.
    pub fn with_avoid(self, rect: Rect) -> (r: Connector)
        ensures
            r.avoid@ == self.avoid@.push(rect),
            r == (Connector { avoid: r.avoid, ..self }),
    {
        let mut avoid = self.avoid;
        avoid.push(rect);
        Connector { avoid, ..self }
    }

    /// Add many rectangles to avoid.
    pub fn with_avoids(self, rects: &[Rect]) -> (r: Connector)
        ensures
            r.avoid@ == self.avoid@ + rects@,
            r == (Connector { avoid: r.avoid, ..self }),
    {
        let mut avoid = self.avoid;
        avoid.extend_from_slice(rects);
        Connector { avoid, ..self }
    }

    /// Set the label.
    pub fn with_label(self, label: &str) -> (r: Connector)
        ensures
            r.label matches Some(l) && l@ == label@,
            r == (Connector { label: r.label, ..self }),
    {
        Connector { label: Some(label.to_owned()), ..self }
    }
}

/// The connector's points and rects stay far from the machine range.
pub open spec fn connector_small(c: Connector) -> bool {
    &&& small(c.source.0 as int)
    &&& small(c.source.1 as int)
    &&& small(c.target.0 as int)
    &&& small(c.target.1 as int)
    &&& rect_small(c.source_rect)
    &&& rect_small(c.target_rect)
    &&& max_right(c.avoid@) + 2 <= usize::MAX
}

/// The path the connector takes (see [`Connector::compute_path`]).
pub open spec fn spec_compute_path(c: Connector) -> Seq<Segment> {
    let (sx, sy) = c.source;
    let (tx, ty) = c.target;
    let vertical = (c.source_anchor == Anchor::South && c.target_anchor == Anchor::North) || (
    c.source_anchor == Anchor::North && c.target_anchor == Anchor::South);
    let horizontal = (c.source_anchor == Anchor::East && c.target_anchor == Anchor::West) || (
    c.source_anchor == Anchor::West && c.target_anchor == Anchor::East);
    let detoured = three_segment(
        sx,
        sy,
        tx,
        ty,
        spec_detoured_mid_y(sy as int, ty as int, c.avoid@, c.source_rect, c.target_rect) as usize,
    );
    if vertical {
        if sx == tx {
            seq![v_between(sx, sy as int, ty as int)]
        } else {
            let p = three_segment(
                sx,
                sy,
                tx,
                ty,
                spec_natural_mid_y(sy as int, ty as int, c.source_rect, c.target_rect) as usize,
            );
            if !spec_intersects_any(p, c.avoid@) {
                p
            } else {
                detoured
            }
        }
    } else if horizontal {
        if sy == ty {
            seq![h_between(sy, sx as int, tx as int)]
        } else {
            let mid_x = ((sx + tx) / 2) as usize;
            let p = seq![h_between(sy, sx as int, mid_x as int), v_between(mid_x, sy as int, ty as int), h_between(ty, mid_x as int, tx as int)];
            if !spec_intersects_any(p, c.avoid@) {
                p
            } else {
                let dx = (if c.avoid@.len() == 0 { 1 } else { max_right(c.avoid@) + 1 }) as usize;
                seq![h_between(sy, sx as int, dx as int), v_between(dx, sy as int, ty as int), h_between(ty, dx as int, tx as int)]
            }
        }
    } else if sx == tx {
        seq![v_between(sx, sy as int, ty as int)]
    } else {
        let p = seq![
            Segment::H { x: if sx < tx { sx } else { tx }, y: sy, len: (if sx < tx { tx - sx } else { sx - tx }) as usize },
            Segment::V { x: tx, y: if sy < ty { sy } else { ty }, len: (if sy < ty { ty - sy } else { sy - ty }) as usize },
        ];
        if !spec_intersects_any(p, c.avoid@) {
            p
        } else {
            detoured
        }
    }
}

/// The segments `0..k` of `path` drawn as connector lines.
pub open spec fn draw_segments(v: CanvasView, path: Seq<Segment>, h: char, vch: char, k: int) -> CanvasView
    decreases k,
{
    if k <= 0 {
        v
    } else {
        let w = draw_segments(v, path, h, vch, k - 1);
        match path[k - 1] {
            Segment::H { x, y, len } => w.hline(x as int, y as int, len as int, h, Layer::Connector),
            Segment::V { x, y, len } => w.vline(x as int, y as int, len as int, vch, Layer::Connector),
        }
    }
}

proof fn lemma_max_right_bound(rs: Seq<Rect>, i: int)
    requires
        0 <= i < rs.len(),
    ensures
        rs[i].right() <= max_right(rs),
    decreases rs.len(),
{
    if i < rs.len() - 1 {
        lemma_max_right_bound(rs.drop_last(), i);
    }
}

impl Connector {
    /// The orthogonal path from source to target: for a vertical flow a
    /// straight run or a corridor row (detoured past obstacles), for a
    /// horizontal flow a straight run or a corridor column, otherwise an
    /// L-shape (detoured through a corridor row when it crosses an
    /// obstacle).
    pub fn compute_path(&self) -> (r: Vec<Segment>)
        requires
            connector_small(*self),
        ensures
            r@ == spec_compute_path(*self),
    {
        let (sx, sy) = self.source;
        let (tx, ty) = self.target;
        let vertical = (self.source_anchor == Anchor::South && self.target_anchor == Anchor::North) || (
        self.source_anchor == Anchor::North && self.target_anchor == Anchor::South);
        let horizontal = (self.source_anchor == Anchor::East && self.target_anchor == Anchor::West) || (
        self.source_anchor == Anchor::West && self.target_anchor == Anchor::East);
        if vertical {
            if sx == tx {
                return straight_vertical(sx, sy, ty);
            }
            let mid_y = natural_mid_y(sy, ty, &self.source_rect, &self.target_rect);
            let path = build_three_segment(sx, sy, tx, ty, mid_y);
            if !path_intersects_any(path.as_slice(), self.avoid.as_slice()) {
                return path;
            }
            return self.detoured(sx, sy, tx, ty);
        }
        if horizontal {
            if sy == ty {
                let seg = if sx < tx {
                    Segment::H { x: sx, y: sy, len: tx - sx + 1 }
                } else {
                    Segment::H { x: tx, y: sy, len: sx - tx + 1 }
                };
                return vec![seg];
            }
            let mid_x = (sx + tx) / 2;
            let path = build_three_h_segment(sx, sy, tx, ty, mid_x);
            if !path_intersects_any(path.as_slice(), self.avoid.as_slice()) {
                return path;
            }
            let dx = detoured_mid_x(self.avoid.as_slice());
            return build_three_h_segment(sx, sy, tx, ty, dx);
        }
        if sx == tx {
            return straight_vertical(sx, sy, ty);
        }
        let h = Segment::H {
            x: if sx < tx {
                sx
            } else {
                tx
            },
            y: sy,
            len: if sx < tx {
                tx - sx
            } else {
                sx - tx
            },
        };
        let v = Segment::V {
            x: tx,
            y: if sy < ty {
                sy
            } else {
                ty
            },
            len: if sy < ty {
                ty - sy
            } else {
                sy - ty
            },
        };
        let path = vec![h, v];
        if !path_intersects_any(path.as_slice(), self.avoid.as_slice()) {
            return path;
        }
        self.detoured(sx, sy, tx, ty)
    }

    /// The three-segment path through the detoured corridor row.
    fn detoured(&self, sx: usize, sy: usize, tx: usize, ty: usize) -> (r: Vec<Segment>)
        requires
            connector_small(*self),
            (sx, sy) == self.source,
            (tx, ty) == self.target,
        ensures
            r@ == three_segment(
                sx,
                sy,
                tx,
                ty,
                spec_detoured_mid_y(sy as int, ty as int, self.avoid@, self.source_rect, self.target_rect) as usize,
            ),
    {
        proof {
            lemma_max_bottom_small(self.avoid@, self.target_rect.y as int);
        }
        let safe_y = detoured_mid_y(sy, ty, self.avoid.as_slice(), &self.source_rect, &self.target_rect);
        build_three_segment(sx, sy, tx, ty, safe_y)
    }
}

proof fn lemma_max_bottom_small(avoid: Seq<Rect>, limit: int)
    requires
        0 <= limit,
    ensures
        0 <= crate::layout::routing::max_bottom_upto(avoid, limit) <= limit,
    decreases avoid.len(),
{
    if avoid.len() > 0 {
        lemma_max_bottom_small(avoid.drop_last(), limit);
    }
}

/// Every horizontal segment of `path` ends within the machine range.
pub open spec fn h_fits(path: Seq<Segment>) -> bool {
    forall|k: int|
        0 <= k < path.len() && (#[trigger] path[k]) is H ==> path[k]->H_x + path[k]->H_len
            <= usize::MAX
}

/// Label lines `0..k` beside a purely vertical connector: just below
/// the source, each line pulled left so it ends inside `w_limit`.
pub open spec fn beside_rows(v: CanvasView, lines: Seq<Seq<char>>, sx: int, sy: int, w_limit: int, k: int) -> CanvasView
    decreases k,
{
    if k <= 0 {
        v
    } else {
        let l = lines[k - 1];
        let lw = chars_width(l) as int;
        let cap = if w_limit > lw { w_limit - lw } else { 0 };
        let lx = if sx + 1 < cap { sx + 1 } else { cap };
        beside_rows(v, lines, sx, sy, w_limit, k - 1).put_str(lx, sat_add(sy + 1, k - 1), l, Layer::Label, None)
    }
}

/// Label lines `0..k` of a corridor label block whose top row is `top`:
/// each centered on `center` and kept inside the corridor `(x, len)`.
pub open spec fn corridor_rows(
    v: CanvasView,
    lines: Seq<Seq<char>>,
    center: int,
    x: int,
    len: int,
    top: int,
    k: int,
) -> CanvasView
    decreases k,
{
    if k <= 0 {
        v
    } else {
        let i = k - 1;
        let l = lines[i];
        let lw = chars_width(l) as int;
        let c0 = if center > lw / 2 { center - lw / 2 } else { 0 };
        let base_x = if c0 > x { c0 } else { x };
        let right = if x + len > lw { x + len - lw } else { 0 };
        let lx0 = if base_x < right { base_x } else { right };
        let lx = if lx0 > x { lx0 } else { x };
        corridor_rows(v, lines, center, x, len, top, k - 1).put_str(lx, sat_add(top, i), l, Layer::Label, None)
    }
}

/// Index of the first horizontal segment among `path[k..]`.
pub open spec fn first_h(path: Seq<Segment>, k: int) -> Option<int>
    decreases path.len() - k,
{
    if k >= path.len() || k < 0 {
        None
    } else if path[k] is H {
        Some(k)
    } else {
        first_h(path, k + 1)
    }
}

/// Width the label wraps to and where its lines go, for a connector
/// whose path is `path` drawn on a canvas `canvas_w` wide.
pub open spec fn label_avail(c: Connector, path: Seq<Segment>, canvas_w: int) -> int {
    let (sx, _) = c.source;
    let w_limit = match c.user_width {
        Some(w) => w as int,
        None => canvas_w,
    };
    match first_h(path, 0) {
        None => {
            let a = if w_limit > sx + 2 { w_limit - (sx + 2) } else { 0 };
            let b = if a > 2 { a } else { 2 };
            if b < w_limit { b } else { w_limit }
        },
        Some(k) => spec_corridor_label_avail(path[k]->H_len as int, w_limit),
    }
}

/// The canvas after the label, wrapped to `lines`, is placed.
pub open spec fn label_view(c: Connector, v: CanvasView, path: Seq<Segment>, lines: Seq<Seq<char>>) -> CanvasView {
    let (sx, sy) = c.source;
    let (tx, ty) = c.target;
    let w_limit = match c.user_width {
        Some(w) => w as int,
        None => v.width as int,
    };
    match first_h(path, 0) {
        None => beside_rows(v, lines, sx as int, sy as int, w_limit, lines.len() as int),
        Some(k) => {
            let (x, y, len) = (path[k]->H_x as int, path[k]->H_y as int, path[k]->H_len as int);
            let center = if sx != tx { (sx + tx) / 2 } else { x + len / 2 };
            let top = spec_corridor_label_block_top(y, lines.len() as int, sy as int, ty as int);
            corridor_rows(v, lines, center, x, len, top, lines.len() as int)
        },
    }
}

/// The canvas after the connector is drawn over `v` with its label
/// wrapped to `lines`: the path at the connector layer, the arrowhead
/// at the target, then the label.
pub open spec fn connector_view(c: Connector, v: CanvasView, lines: Seq<Seq<char>>) -> CanvasView {
    let path = spec_compute_path(c);
    let v1 = draw_segments(
        v,
        path,
        spec_horizontal_line_glyph(c.style, c.charset),
        spec_vertical_line_glyph(c.style, c.charset),
        path.len() as int,
    ).put(c.target.0 as int, c.target.1 as int, c.arrow_head, Layer::ConnectorEnd, None);
    match c.label {
        Some(_) => label_view(c, v1, path, lines),
        None => v1,
    }
}

/// The label text (empty when absent).
pub open spec fn label_chars(c: Connector) -> Seq<char> {
    match c.label {
        Some(l) => l@,
        None => Seq::empty(),
    }
}

impl Connector {
    /// Draw `path` as connector lines.
    fn render_segments(&self, canvas: &mut Canvas, path: &Vec<Segment>)
        requires
            old(canvas)@.wf(),
        ensures
            final(canvas)@.wf(),
            final(canvas)@.width == old(canvas)@.width,
            final(canvas)@ == draw_segments(
                old(canvas)@,
                path@,
                spec_horizontal_line_glyph(self.style, self.charset),
                spec_vertical_line_glyph(self.style, self.charset),
                path@.len() as int,
            ),
    {
        let h = horizontal_line_glyph(self.style, self.charset);
        let v = vertical_line_glyph(self.style, self.charset);
        let ghost v0 = canvas@;
        let mut k: usize = 0;
        while k < path.len()
            invariant
                k <= path@.len(),
                canvas@.wf(),
                canvas@.width == v0.width,
                canvas@ == draw_segments(v0, path@, h, v, k as int),
            decreases path@.len() - k,
        {
            match path[k] {
                Segment::H { x, y, len } => {
                    canvas.put_horizontal_layered(x, y, len, h, Layer::Connector);
                },
                Segment::V { x, y, len } => {
                    canvas.put_vertical_layered(x, y, len, v, Layer::Connector);
                },
            }
            k = k + 1;
        }
    }

    /// Place the label: below the source, beside the line, for a purely
    /// vertical path; else as a block centered on the first horizontal
    /// corridor row, wrapped to the corridor minus its padding and kept
    /// between the source and target rows.
    fn draw_label(&self, canvas: &mut Canvas, label: &str, path: &Vec<Segment>) -> (lines: Ghost<Seq<Seq<char>>>)
        requires
            old(canvas)@.wf(),
            connector_small(*self),
            h_fits(path@),
        ensures
            final(canvas)@.wf(),
            wraps_label(lines@, label@, label_avail(*self, path@, old(canvas)@.width as int)),
            final(canvas)@ == label_view(*self, old(canvas)@, path@, lines@),
    {
        let (sx, sy) = self.source;
        let (tx, ty) = self.target;
        let w_limit = match self.user_width {
            Some(w) => w,
            None => canvas.width(),
        };
        let mut k: usize = 0;
        while k < path.len()
            invariant
                k <= path@.len(),
                first_h(path@, 0) == first_h(path@, k as int),
            ensures
                k <= path@.len(),
                first_h(path@, 0) == first_h(path@, k as int),
                k < path@.len() ==> path@[k as int] is H,
            decreases path@.len() - k,
        {
            if let Segment::H { .. } = path[k] {
                break;
            }
            k = k + 1;
        }
        let ghost v0 = canvas@;
        if k >= path.len() {
            assert(first_h(path@, 0) is None);
            let a = w_limit.saturating_sub(sx + 2);
            let b = if a > 2 { a } else { 2 };
            let avail = if b < w_limit { b } else { w_limit };
            let lines = wrap_label(label, avail).lines;
            let mut i: usize = 0;
            while i < lines.len()
                invariant
                    i <= lines@.len(),
                    small(sx as int),
                    small(sy as int),
                    canvas@.wf(),
                    canvas@ == beside_rows(v0, views(lines@), sx as int, sy as int, w_limit as int, i as int),
                decreases lines@.len() - i,
            {
                let l = chars_of(lines[i].as_str());
                let lw = seq_display_width(l.as_slice());
                let cap = w_limit.saturating_sub(lw);
                let lx = if sx + 1 < cap { sx + 1 } else { cap };
                assert(views(lines@)[i as int] == l@);
                canvas.put_chars_layered(lx, (sy + 1).saturating_add(i), l.as_slice(), Layer::Label, None);
                i = i + 1;
            }
            return Ghost(views(lines@));
        }
        assert(first_h(path@, 0) == Some(k as int));
        assert(path@[k as int] is H);
        let (x, y, len) = match path[k] {
            Segment::H { x, y, len } => (x, y, len),
            Segment::V { x, y, len } => (x, y, len),
        };
        let center = if sx != tx {
            (sx + tx) / 2
        } else {
            x + len / 2
        };
        let avail = corridor_label_avail(len, w_limit);
        let wl = wrap_label(label, avail);
        let lines = wl.lines;
        let n = lines.len();
        let top = corridor_label_block_top(y, n, sy, ty);
        let mut i: usize = 0;
        while i < n
            invariant
                i <= n,
                n == lines@.len(),
                x + len <= usize::MAX,
                canvas@.wf(),
                top == spec_corridor_label_block_top(y as int, n as int, sy as int, ty as int),
                canvas@ == corridor_rows(v0, views(lines@), center as int, x as int, len as int, top as int, i as int),
            decreases n - i,
        {
            let l = chars_of(lines[i].as_str());
            let lw = seq_display_width(l.as_slice());
            let c0 = center.saturating_sub(lw / 2);
            let base_x = if c0 > x { c0 } else { x };
            let right = (x + len).saturating_sub(lw);
            let lx0 = if base_x < right { base_x } else { right };
            let lx = if lx0 > x { lx0 } else { x };
            assert(views(lines@)[i as int] == l@);
            canvas.put_chars_layered(lx, top.saturating_add(i), l.as_slice(), Layer::Label, None);
            i = i + 1;
        }
        Ghost(views(lines@))
    }
}

proof fn lemma_path_h_fits(c: Connector)
    requires
        connector_small(c),
    ensures
        h_fits(spec_compute_path(c)),
{
    let p = spec_compute_path(c);
    assert forall|k: int| 0 <= k < p.len() && (#[trigger] p[k]) is H implies p[k]->H_x + p[k]->H_len <= usize::MAX by {
        lemma_max_bottom_small(c.avoid@, c.target_rect.y as int);
    }
}

/// The side route drawn over `v`: out of the source's east side to the
/// rail column right of every rect, along the rail, into the target's
/// east side with a left-pointing arrowhead, the label (wrapped to
/// `lines`) beside the rail from the source row down.
pub open spec fn side_route_view(
    c: Connector,
    v: CanvasView,
    all: Seq<Rect>,
    canvas_w: int,
    lines: Seq<Seq<char>>,
) -> CanvasView {
    let route_x = side_column(all, canvas_w);
    let sr = c.source_rect.right() as int;
    let scy = c.source_rect.cy() as int;
    let tr = c.target_rect.right() as int;
    let tcy = c.target_rect.cy() as int;
    let h = spec_horizontal_line_glyph(c.style, c.charset);
    let vch = spec_vertical_line_glyph(c.style, c.charset);
    let v1 = if route_x > sr { v.hline(sr, scy, route_x - sr, h, Layer::Connector) } else { v };
    let (lo, hi) = if scy < tcy { (scy, tcy) } else { (tcy, scy) };
    let v2 = v1.vline(route_x, lo, hi - lo + 1, vch, Layer::Connector);
    let v3 = if route_x > tr { v2.hline(tr, tcy, route_x - tr, h, Layer::Connector) } else { v2 };
    let v4 = v3.put(tr, tcy, spec_glyph_for(Dir::Left, c.style, c.charset), Layer::ConnectorEnd, None);
    match c.label {
        Some(_) => rail_rows(v4, lines, route_x + 1, scy, canvas_w, lines.len() as int),
        None => v4,
    }
}

/// Label lines `0..k` from column `lx` and row `y0` down, each pulled
/// left to end inside `canvas_w`.
pub open spec fn rail_rows(v: CanvasView, lines: Seq<Seq<char>>, lx: int, y0: int, canvas_w: int, k: int) -> CanvasView
    decreases k,
{
    if k <= 0 {
        v
    } else {
        let l = lines[k - 1];
        let lw = chars_width(l) as int;
        let cap = if canvas_w > lw { canvas_w - lw } else { 0 };
        let x = if lx < cap { lx } else { cap };
        rail_rows(v, lines, lx, y0, canvas_w, k - 1).put_str(x, sat_add(y0, k - 1), l, Layer::Label, None)
    }
}

/// The label wrap width on the rail: the room right of the rail, at
/// least 10.
pub open spec fn rail_avail(all: Seq<Rect>, canvas_w: int) -> int {
    let route_x = side_column(all, canvas_w);
    let a = if canvas_w > route_x + 1 { canvas_w - (route_x + 1) } else { 0 };
    if a > 10 { a } else { 10 }
}

impl Connector {
    /// Draw the connector: its path at the connector layer, the
    /// arrowhead at the target, then the label clear of the line.
    pub fn render(&self, canvas: &mut Canvas)
        requires
            old(canvas)@.wf(),
            connector_small(*self),
        ensures
            final(canvas)@.wf(),
            exists|lines: Seq<Seq<char>>|
                #[trigger] wraps_label(
                    lines,
                    label_chars(*self),
                    label_avail(*self, spec_compute_path(*self), old(canvas)@.width as int),
                ) && final(canvas)@ == connector_view(*self, old(canvas)@, lines),
    {
        let ghost v0 = canvas@;
        let path = self.compute_path();
        self.render_segments(canvas, &path);
        let (tx, ty) = self.target;
        canvas.put_layered(tx, ty, self.arrow_head, Layer::ConnectorEnd, None);
        proof {
            lemma_path_h_fits(*self);
        }
        match &self.label {
            Some(label) => {
                let lines = self.draw_label(canvas, label.as_str(), &path);
                assert(wraps_label(lines@, label_chars(*self), label_avail(*self, spec_compute_path(*self), v0.width as int)));
            },
            None => {
                assert(wraps_label(Seq::<Seq<char>>::empty(), label_chars(*self), label_avail(*self, spec_compute_path(*self), v0.width as int)));
            },
        }
    }

    /// Draw a back-edge along a side rail right of every rect in `all`
    /// (see [`side_route_view`]), so it does not cross intermediate
    /// nodes; its arrowhead points left into the target's east side.
    pub fn render_side_route(&self, canvas: &mut Canvas, all_rects: &[Rect], canvas_w: usize)
        requires
            old(canvas)@.wf(),
            max_right(all_rects@) + 4 <= usize::MAX,
            rect_small(self.source_rect),
            rect_small(self.target_rect),
        ensures
            final(canvas)@.wf(),
            exists|lines: Seq<Seq<char>>|
                #[trigger] wraps_label(lines, label_chars(*self), rail_avail(all_rects@, canvas_w as int))
                    && final(canvas)@ == side_route_view(*self, old(canvas)@, all_rects@, canvas_w as int, lines),
    {
        let route_x = side_route_column(all_rects, canvas_w);
        let sr = self.source_rect.right();
        let scy = self.source_rect.cy();
        let tr = self.target_rect.right();
        let tcy = self.target_rect.cy();
        let h = horizontal_line_glyph(self.style, self.charset);
        let v = vertical_line_glyph(self.style, self.charset);
        if route_x > sr {
            canvas.put_horizontal_layered(sr, scy, route_x - sr, h, Layer::Connector);
        }
        let (lo, hi) = if scy < tcy {
            (scy, tcy)
        } else {
            (tcy, scy)
        };
        canvas.put_vertical_layered(route_x, lo, hi - lo + 1, v, Layer::Connector);
        if route_x > tr {
            canvas.put_horizontal_layered(tr, tcy, route_x - tr, h, Layer::Connector);
        }
        let head = arrow_from_path(-1, 0, self.style, self.charset);
        canvas.put_layered(tr, tcy, head, Layer::ConnectorEnd, None);
        let ghost v4 = canvas@;
        match &self.label {
            Some(label) => {
                let lx = route_x + 1;
                let a = canvas_w.saturating_sub(lx);
                let avail = if a > 10 {
                    a
                } else {
                    10
                };
                let lines = wrap_label(label.as_str(), avail).lines;
                let mut i: usize = 0;
                while i < lines.len()
                    invariant
                        i <= lines@.len(),
                        canvas@.wf(),
                        canvas@ == rail_rows(v4, views(lines@), lx as int, scy as int, canvas_w as int, i as int),
                    decreases lines@.len() - i,
                {
                    let l = chars_of(lines[i].as_str());
                    let lw = seq_display_width(l.as_slice());
                    let cap = canvas_w.saturating_sub(lw);
                    let x = if lx < cap {
                        lx
                    } else {
                        cap
                    };
                    assert(views(lines@)[i as int] == l@);
                    canvas.put_chars_layered(x, scy.saturating_add(i), l.as_slice(), Layer::Label, None);
                    i = i + 1;
                }
                assert(wraps_label(views(lines@), label_chars(*self), rail_avail(all_rects@, canvas_w as int)));
            },
            None => {
                assert(wraps_label(Seq::<Seq<char>>::empty(), label_chars(*self), rail_avail(all_rects@, canvas_w as int)));
            },
        }
    }
}

} // verus!
