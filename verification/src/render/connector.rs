//! Orthogonal connectors between two widget rectangles, painted on a
//! surface: out of the source's anchor, down (or up) to the middle row,
//! across, and on to the target's anchor, with an arrowhead there unless
//! the connector has no marker.

use vstd::prelude::*;
use crate::canvas::{CanvasView, Layer};
use crate::geom::Rect;
use crate::render::surface::{clip_hline, clip_put, clip_str, clip_vline, Surface, SurfaceFrame};
use crate::render::widget::PaintContext;
use crate::style::{Charset, LineStyle};
use crate::width::{chars_width, str_width};

verus! {

/// Marker placed at the target end of a connector.
#[derive(Clone, Copy, Debug, PartialEq, Eq, Structural)]
pub enum Marker {
    Arrow,
    CrowFoot,
    Dot,
    /// No marker: the line simply ends.
    Plain,
}

/// Line style, end marker and character set of a connector.
#[derive(Clone, Copy, Debug)]
pub struct ConnectorStyle {
    pub line: LineStyle,
    pub marker: Marker,
    pub charset: Charset,
}

impl ConnectorStyle {
    pub fn new(line: LineStyle, marker: Marker, charset: Charset) -> (r: Self)
        ensures
            r == (ConnectorStyle { line, marker, charset }),
    {
        ConnectorStyle { line, marker, charset }
    }
}

/// Anchor point on a rectangle's perimeter.
#[derive(Clone, Copy, Debug, PartialEq, Eq, Structural)]
pub enum Anchor {
    North,
    South,
    East,
    West,
}

/// An orthogonal connector between two rectangles.
pub struct Connector {
    pub from: Rect,
    pub to: Rect,
    pub from_anchor: Anchor,
    pub to_anchor: Anchor,
    pub style: ConnectorStyle,
    pub label: Option<String>,
    pub avoid: Vec<Rect>,
}

/// Horizontal line glyph of a style.
pub open spec fn spec_line_char(style: ConnectorStyle) -> char {
    match (style.line, style.charset) {
        (LineStyle::Bold, _) => '━',
        (_, Charset::Unicode) => '─',
        (LineStyle::BoxDrawing, _) => '─',
        (_, Charset::Ascii) => '-',
    }
}

/// Vertical line glyph of a style.
pub open spec fn spec_vert_char(style: ConnectorStyle) -> char {
    match (style.line, style.charset) {
        (LineStyle::Bold, _) => '┃',
        (_, Charset::Unicode) => '│',
        (LineStyle::BoxDrawing, _) => '│',
        (_, Charset::Ascii) => '|',
    }
}

/// Arrowhead for the step direction `(dx, dy)`; `>` for any other step.
pub open spec fn spec_arrow_char(charset: Charset, dx: int, dy: int) -> char {
    match charset {
        Charset::Unicode => if dx == 1 && dy == 0 {
            '→'
        } else if dx == -1 && dy == 0 {
            '←'
        } else if dx == 0 && dy == 1 {
            '↓'
        } else if dx == 0 && dy == -1 {
            '↑'
        } else {
            '>'
        },
        Charset::Ascii => if dx == 1 && dy == 0 {
            '>'
        } else if dx == -1 && dy == 0 {
            '<'
        } else if dx == 0 && dy == 1 {
            'v'
        } else if dx == 0 && dy == -1 {
            '^'
        } else {
            '>'
        },
    }
}

/// The perimeter cell of `rect` at `anchor`: edge midpoints, South and
/// East on the last row and column.
pub open spec fn perimeter(rect: Rect, anchor: Anchor) -> (int, int) {
    match anchor {
        Anchor::North => (rect.cx() as int, rect.y as int),
        Anchor::South => (rect.cx() as int, nonneg(rect.bottom() as int - 1)),
        Anchor::East => (nonneg(rect.right() as int - 1), rect.cy() as int),
        Anchor::West => (rect.x as int, rect.cy() as int),
    }
}

/// Unit step out of a rectangle through `anchor`.
pub open spec fn exit_step(anchor: Anchor) -> (int, int) {
    match anchor {
        Anchor::North => (0, -1),
        Anchor::South => (0, 1),
        Anchor::East => (1, 0),
        Anchor::West => (-1, 0),
    }
}

/// Sign of `a - b`.
pub open spec fn sign_of(a: int, b: int) -> int {
    if a > b {
        1
    } else if a < b {
        -1
    } else {
        0
    }
}

/// Non-negative part.
pub open spec fn nonneg(a: int) -> int {
    if a > 0 { a } else { 0 }
}

/// Coordinates of a connector that fit in the 32-bit arithmetic of its
/// routing: every rectangle edge below `i32::MAX`.
pub open spec fn paint_fits(c: Connector) -> bool {
    &&& c.from.x + c.from.w < 0x7fff_ffff
    &&& c.from.y + c.from.h < 0x7fff_ffff
    &&& c.to.x + c.to.w < 0x7fff_ffff
    &&& c.to.y + c.to.h < 0x7fff_ffff
}

/// The middle row of a route from row `sy` to row `ey`.
pub open spec fn mid_row(sy: int, ey: int) -> int {
    if sy == ey { sy } else { (sy + ey) / 2 }
}

/// The three legs of a route from `(sx, sy)` to `(ex, ey)` drawn over
/// `v`: vertical at `sx` to the middle row, horizontal along it, vertical
/// at `ex` to `ey`, each only when it has length.
pub open spec fn legs_view(v: CanvasView, f: SurfaceFrame, sx: int, sy: int, ex: int, ey: int, h: char, vc: char) -> CanvasView {
    let mid_y = mid_row(sy, ey);
    let v1 = if sy != mid_y {
        if sy < mid_y { clip_vline(v, f, sx, sy, mid_y - sy + 1, vc, Layer::Connector) } else { clip_vline(v, f, sx, mid_y, sy - mid_y + 1, vc, Layer::Connector) }
    } else {
        v
    };
    let v2 = if sx != ex {
        if sx < ex { clip_hline(v1, f, sx, mid_y, ex - sx + 1, h, Layer::Connector) } else { clip_hline(v1, f, ex, mid_y, sx - ex + 1, h, Layer::Connector) }
    } else {
        v1
    };
    if mid_y != ey {
        if mid_y < ey { clip_vline(v2, f, ex, mid_y, ey - mid_y + 1, vc, Layer::Connector) } else { clip_vline(v2, f, ex, ey, mid_y - ey + 1, vc, Layer::Connector) }
    } else {
        v2
    }
}

/// Where the route starts: one cell outside the source anchor.
pub open spec fn route_start(c: Connector) -> (int, int) {
    let (fx, fy) = perimeter(c.from, c.from_anchor);
    let (edx, edy) = exit_step(c.from_anchor);
    (nonneg(fx + edx), nonneg(fy + edy))
}

/// The column the route ends in: the target anchor's, stepped back
/// against a horizontal exit.
pub open spec fn route_end_col(c: Connector) -> int {
    let (tx, _) = perimeter(c.to, c.to_anchor);
    nonneg(tx - exit_step(c.from_anchor).0)
}

/// The canvas after painting `c` on a surface with frame `f` over `v`:
/// the route's legs from one cell outside the source to the target
/// perimeter (see [`legs_view`]), the arrowhead on the target perimeter
/// pointing from source to target (none for [`Marker::Plain`]), then the label: right of a purely
/// vertical line on the middle row, else centered between the two
/// anchor columns on the row below the horizontal run.
pub open spec fn paint_view(c: Connector, v: CanvasView, f: SurfaceFrame) -> CanvasView {
    let (fx, fy) = perimeter(c.from, c.from_anchor);
    let (tx, ty) = perimeter(c.to, c.to_anchor);
    let (sx, sy) = route_start(c);
    let ex = route_end_col(c);
    let mid_y = mid_row(sy, ty);
    let v3 = legs_view(v, f, sx, sy, ex, ty, spec_line_char(c.style), spec_vert_char(c.style));
    let v4 = if c.style.marker == Marker::Plain {
        v3
    } else {
        clip_put(v3, f, tx, ty, spec_arrow_char(c.style.charset, sign_of(tx, fx), sign_of(ty, fy)), Layer::ConnectorEnd)
    };
    match c.label {
        None => v4,
        Some(l) => if sx == ex {
            clip_str(v4, f, ex + 1, mid_y, l@, Layer::Label, true)
        } else {
            let half = chars_width(l@) as int / 2;
            let label_x = nonneg((fx + tx) / 2 - half);
            clip_str(v4, f, label_x, mid_y + 1, l@, Layer::Label, true)
        },
    }
}

/// Draw the legs of a route (see [`legs_view`]).
fn draw_legs(surface: &mut Surface<'_>, sx: usize, sy: usize, ex: usize, ey: usize, h: char, vc: char)
    requires
        old(surface).wf(),
        sx <= 0x7fff_ffff,
        sy <= 0x7fff_ffff,
        ex <= 0x7fff_ffff,
        ey <= 0x7fff_ffff,
    ensures
        final(surface).wf(),
        final(surface).frame() == old(surface).frame(),
        final(surface).canvas_view() == legs_view(old(surface).canvas_view(), old(surface).frame(), sx as int, sy as int, ex as int, ey as int, h, vc),
        *final(old(surface).target()) == *final(final(surface).target()),
{
    let mid_y = if sy == ey { sy } else { (sy + ey) / 2 };
    if sy != mid_y {
        if sy < mid_y {
            surface.put_vertical(sx, sy, mid_y - sy + 1, vc, Layer::Connector);
        } else {
            surface.put_vertical(sx, mid_y, sy - mid_y + 1, vc, Layer::Connector);
        }
    }
    if sx != ex {
        if sx < ex {
            surface.put_horizontal(sx, mid_y, ex - sx + 1, h, Layer::Connector);
        } else {
            surface.put_horizontal(ex, mid_y, sx - ex + 1, h, Layer::Connector);
        }
    }
    if mid_y != ey {
        if mid_y < ey {
            surface.put_vertical(ex, mid_y, ey - mid_y + 1, vc, Layer::Connector);
        } else {
            surface.put_vertical(ex, ey, mid_y - ey + 1, vc, Layer::Connector);
        }
    }
}

impl Connector {
    /// A connector from the south of `from` to the north of `to`, with
    /// no label and nothing to avoid.
    pub fn new(from: Rect, to: Rect, style: ConnectorStyle) -> (r: Self)
        ensures
            r.from == from,
            r.to == to,
            r.from_anchor == Anchor::South,
            r.to_anchor == Anchor::North,
            r.style == style,
            r.label is None,
            r.avoid@ == Seq::<Rect>::empty(),
    {
        Connector {
            from,
            to,
            from_anchor: Anchor::South,
            to_anchor: Anchor::North,
            style,
            label: None,
            avoid: Vec::new(),
        }
    }

    /// Set the anchors at both ends.
    pub fn anchors(self, from: Anchor, to: Anchor) -> (r: Self)
        ensures
            r.from_anchor == from,
            r.to_anchor == to,
            r.from == self.from,
            r.to == self.to,
            r.style == self.style,
            r.label == self.label,
            r.avoid@ == self.avoid@,
    {
        let mut c = self;
        c.from_anchor = from;
        c.to_anchor = to;
        c
    }

    /// Set the label.
    pub fn label(self, label: &str) -> (r: Self)
        ensures
            r.label matches Some(l) && l@ == label@,
            r.from == self.from,
            r.to == self.to,
            r.from_anchor == self.from_anchor,
            r.to_anchor == self.to_anchor,
            r.style == self.style,
            r.avoid@ == self.avoid@,
    {
        let mut c = self;
        c.label = Some(label.to_string());
        c
    }

    /// Add rectangles to avoid.
    pub fn avoid(self, rects: Vec<Rect>) -> (r: Self)
        ensures
            r.avoid@ == self.avoid@ + rects@,
            r.from == self.from,
            r.to == self.to,
            r.from_anchor == self.from_anchor,
            r.to_anchor == self.to_anchor,
            r.style == self.style,
            r.label == self.label,
    {
        let mut c = self;
        let mut i: usize = 0;
        let ghost a0 = c.avoid@;
        while i < rects.len()
            invariant
                i <= rects@.len(),
                c.avoid@ == a0 + rects@.take(i as int),
                c.from == self.from,
                c.to == self.to,
                c.from_anchor == self.from_anchor,
                c.to_anchor == self.to_anchor,
                c.style == self.style,
                c.label == self.label,
            decreases rects@.len() - i,
        {
            c.avoid.push(rects[i]);
            assert(rects@.take(i + 1) =~= rects@.take(i as int).push(rects@[i as int]));
            i = i + 1;
        }
        assert(rects@.take(rects@.len() as int) =~= rects@);
        c
    }

    fn line_char(&self) -> (r: char)
        ensures
            r == spec_line_char(self.style),
    {
        match (self.style.line, self.style.charset) {
            (LineStyle::Bold, _) => '━',
            (_, Charset::Unicode) | (LineStyle::BoxDrawing, _) => '─',
            (_, Charset::Ascii) => '-',
        }
    }

    fn vert_char(&self) -> (r: char)
        ensures
            r == spec_vert_char(self.style),
    {
        match (self.style.line, self.style.charset) {
            (LineStyle::Bold, _) => '┃',
            (_, Charset::Unicode) | (LineStyle::BoxDrawing, _) => '│',
            (_, Charset::Ascii) => '|',
        }
    }

    fn arrow_char(&self, dx: i32, dy: i32) -> (r: char)
        ensures
            r == spec_arrow_char(self.style.charset, dx as int, dy as int),
    {
        match (self.style.charset, dx, dy) {
            (Charset::Unicode, 1, 0) => '→',
            (Charset::Unicode, -1, 0) => '←',
            (Charset::Unicode, 0, 1) => '↓',
            (Charset::Unicode, 0, -1) => '↑',
            (Charset::Ascii, 1, 0) => '>',
            (Charset::Ascii, -1, 0) => '<',
            (Charset::Ascii, 0, 1) => 'v',
            (Charset::Ascii, 0, -1) => '^',
            _ => '>',
        }
    }

    /// Paint the connector on `surface` (see [`paint_view`]).
    pub fn paint(&self, _ctx: &PaintContext, surface: &mut Surface<'_>)
        requires
            old(surface).wf(),
            paint_fits(*self),
        ensures
            final(surface).wf(),
            final(surface).frame() == old(surface).frame(),
            final(surface).canvas_view() == paint_view(*self, old(surface).canvas_view(), old(surface).frame()),
            *final(old(surface).target()) == *final(final(surface).target()),
    {
        let (fx, fy) = Self::perimeter_point(&self.from, self.from_anchor);
        let (tx, ty) = Self::perimeter_point(&self.to, self.to_anchor);
        let h_ch = self.line_char();
        let v_ch = self.vert_char();
        let (sx, sy) = match self.from_anchor {
            Anchor::North => (fx, fy.saturating_sub(1)),
            Anchor::South => (fx, fy + 1),
            Anchor::East => (fx + 1, fy),
            Anchor::West => (fx.saturating_sub(1), fy),
        };
        let ex = match self.from_anchor {
            Anchor::East => tx.saturating_sub(1),
            Anchor::West => tx + 1,
            _ => tx,
        };
        let mid_y = if sy == ty { sy } else { (sy + ty) / 2 };
        let ghost v0 = surface.canvas_view();
        let ghost f = surface.frame();
        assert((sx as int, sy as int) == route_start(*self));
        assert(ex as int == route_end_col(*self));
        draw_legs(surface, sx, sy, ex, ty, h_ch, v_ch);
        let dx: i32 = if tx > fx {
            1
        } else if tx < fx {
            -1
        } else {
            0
        };
        let dy: i32 = if ty > fy {
            1
        } else if ty < fy {
            -1
        } else {
            0
        };
        let arrow = self.arrow_char(dx, dy);
        assert(arrow == spec_arrow_char(self.style.charset, sign_of(tx as int, fx as int), sign_of(ty as int, fy as int)));
        if !matches!(self.style.marker, Marker::Plain) {
            surface.put_layered(tx, ty, arrow, Layer::ConnectorEnd);
        }
        let ghost v4 = surface.canvas_view();
        assert(mid_y as int == mid_row(sy as int, ty as int));
        match &self.label {
            None => {
                assert(surface.canvas_view() == paint_view(*self, v0, f));
            },
            Some(label) => {
                if sx == ex {
                    surface.put_str_layered(ex + 1, mid_y, label.as_str(), Layer::Label);
                } else {
                    let lw = str_width(label.as_str());
                    let label_x = ((fx + tx) / 2).saturating_sub(lw / 2);
                    assert(label_x as int == nonneg((fx + tx) / 2 - chars_width(label@) as int / 2));
                    surface.put_str_layered(label_x, mid_y + 1, label.as_str(), Layer::Label);
                }
            },
        }
    }

    fn perimeter_point(rect: &Rect, anchor: Anchor) -> (r: (usize, usize))
        requires
            rect.x + rect.w < 0x7fff_ffff,
            rect.y + rect.h < 0x7fff_ffff,
        ensures
            r.0 as int == perimeter(*rect, anchor).0,
            r.1 as int == perimeter(*rect, anchor).1,
    {
        let (cx, cy) = rect.center();
        match anchor {
            Anchor::North => (cx, rect.y),
            Anchor::South => (cx, rect.bottom().saturating_sub(1)),
            Anchor::East => (rect.right().saturating_sub(1), cy),
            Anchor::West => (rect.x, cy),
        }
    }
}

} // verus!
