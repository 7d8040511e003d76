//! Flowchart node shapes: sizing, and the diamond drawn for decision
//! nodes with `/` and `\` edges around a centered label.

use vstd::prelude::*;
use crate::canvas::{Canvas, CanvasView, Layer};
use crate::diagrams::arrow::{sat_add, wraps_label};
use crate::style::Charset;
use crate::text::{views, wrap_label};
use crate::width::{chars_of, chars_width, seq_display_width};

verus! {

/// Node shapes in a flowchart.
#[derive(Debug, Clone, Copy, PartialEq, Eq, Structural)]
pub enum NodeShape {
    /// Square-cornered rectangle.
    Rectangle,
    /// Rounded-corner rectangle.
    Rounded,
    /// Diamond (decision node) with diagonal edges.
    Diamond,
}

/// Width of a rectangle node: the label plus border and padding, within
/// `total_width`, at least 6.
pub open spec fn rect_node_width(label_w: int, total_width: int) -> int {
    let a = sat_add(label_w, 4);
    let b = if a < total_width { a } else { total_width };
    if b > 6 { b } else { 6 }
}

/// Half-height of a diamond: half the label plus one, at least 3.
pub open spec fn diamond_radius(label_w: int) -> int {
    let r = (label_w + 1) / 2 + 1;
    if r > 3 { r } else { 3 }
}

/// The size a node's label and shape call for. A rectangle whose label
/// does not fit on one row grows one row per wrapped line (`lines` is
/// that wrapping); a diamond is square, `2r + 1` on each side, wide
/// enough for the label on its middle row.
pub open spec fn spec_node_dims(label: Seq<char>, shape: NodeShape, total_width: int, lines: Seq<Seq<char>>) -> (int, int) {
    let lw = chars_width(label) as int;
    match shape {
        NodeShape::Diamond => {
            let side = sat_add(2 * diamond_radius(lw), 1);
            (side, side)
        },
        _ => {
            let w = rect_node_width(lw, total_width);
            if sat_add(lw, 4) > w {
                (w, sat_add(2, lines.len() as int))
            } else {
                (w, 3)
            }
        },
    }
}

/// A rectangle's label does not fit on one row.
pub open spec fn rect_label_wraps(label: Seq<char>, total_width: int) -> bool {
    let lw = chars_width(label) as int;
    sat_add(lw, 4) > rect_node_width(lw, total_width)
}

/// The wrap width of a rectangle label that does not fit on one row.
pub open spec fn node_wrap_width(label: Seq<char>, total_width: int) -> int {
    let w = rect_node_width(chars_width(label) as int, total_width);
    if w - 2 > 2 { w - 2 } else { 2 }
}

/// Compute the `(width, height)` of a node given its label and shape
/// (see [`spec_node_dims`]).
pub fn node_dims(label: &str, shape: NodeShape, total_width: usize) -> (r: (usize, usize))
    ensures
        shape == NodeShape::Diamond ==> (r.0 as int, r.1 as int) == spec_node_dims(
            label@,
            shape,
            total_width as int,
            Seq::empty(),
        ),
        shape != NodeShape::Diamond && !rect_label_wraps(label@, total_width as int) ==> (
        r.0 as int, r.1 as int) == spec_node_dims(label@, shape, total_width as int, Seq::empty()),
        shape != NodeShape::Diamond && rect_label_wraps(label@, total_width as int) ==> exists|
            lines: Seq<Seq<char>>,
        |
            #[trigger] wraps_label(lines, label@, node_wrap_width(label@, total_width as int))
                && (r.0 as int, r.1 as int) == spec_node_dims(label@, shape, total_width as int, lines),
{
    let label_w = seq_display_width(chars_of(label).as_slice());
    match shape {
        NodeShape::Diamond => {
            let r0 = label_w / 2 + label_w % 2 + 1;
            let r = if r0 > 3 {
                r0
            } else {
                3
            };
            let side = crate::diagrams::table::mul_sat(r, 2).saturating_add(1);
            (side, side)
        },
        _ => {
            let a = label_w.saturating_add(4);
            let b = if a < total_width {
                a
            } else {
                total_width
            };
            let w = if b > 6 {
                b
            } else {
                6
            };
            if a > w {
                let inner_w = if w - 2 > 2 {
                    w - 2
                } else {
                    2
                };
                let wl = wrap_label(label, inner_w);
                let n = wl.line_count;
                assert(wraps_label(views(wl.lines@), label@, node_wrap_width(label@, total_width as int)));
                (w, n.saturating_add(2))
            } else {
                (w, 3)
            }
        },
    }
}

/// The diamond's cells on row `row` of its `w` by `h` box at `(x, y)`:
/// the apexes `^` and `v` on the first and last rows, `/` and `\`
/// edges widening to the middle row and narrowing below it, with the
/// cells between the edges blanked at the node-content layer so lines
/// routed behind the node stay hidden.
pub open spec fn diamond_row(v: CanvasView, x: int, y: int, w: int, h: int, row: int) -> CanvasView {
    let mid_x = x + w / 2;
    let half_h = h / 2;
    let last = h - 1;
    let cy = y + row;
    if row == 0 {
        v.put(mid_x, cy, '^', Layer::NodeBorder, None)
    } else if row == last {
        v.put(mid_x, cy, 'v', Layer::NodeBorder, None)
    } else if row <= half_h {
        v.put(mid_x - row, cy, '/', Layer::NodeBorder, None).put(mid_x + row, cy, '\\', Layer::NodeBorder, None).hline(
            mid_x - row + 1,
            cy,
            2 * row - 1,
            ' ',
            Layer::NodeContent,
        )
    } else {
        let off = last - row;
        v.put(mid_x - off, cy, '\\', Layer::NodeBorder, None).put(mid_x + off, cy, '/', Layer::NodeBorder, None).hline(
            mid_x - off + 1,
            cy,
            2 * off - 1,
            ' ',
            Layer::NodeContent,
        )
    }
}

/// Rows `0..k` of the diamond.
pub open spec fn diamond_rows(v: CanvasView, x: int, y: int, w: int, h: int, k: int) -> CanvasView
    decreases k,
{
    if k <= 0 {
        v
    } else {
        diamond_row(diamond_rows(v, x, y, w, h, k - 1), x, y, w, h, k - 1)
    }
}

/// Draw a diamond in the `w` by `h` box at `(x, y)`: its border at the
/// node-border layer, its interior blanked at the node-content layer
/// (see [`diamond_row`]).
pub fn draw_diamond(canvas: &mut Canvas, x: usize, y: usize, w: usize, h: usize, charset: Charset)
    requires
        old(canvas)@.wf(),
        h >= 1,
        h / 2 <= x + w / 2,
        x + w / 2 + h / 2 <= usize::MAX,
        y + h <= usize::MAX,
    ensures
        final(canvas)@.wf(),
        final(canvas)@ == diamond_rows(old(canvas)@, x as int, y as int, w as int, h as int, h as int),
{
    let mid_x = x + w / 2;
    let half_h = h / 2;
    let last = h - 1;
    let ghost v0 = canvas@;
    let mut row: usize = 0;
    while row < h
        invariant
            row <= h,
            h >= 1,
            mid_x == x + w / 2,
            half_h == h / 2,
            last == h - 1,
            half_h <= mid_x,
            mid_x + half_h <= usize::MAX,
            y + h <= usize::MAX,
            canvas@.wf(),
            canvas@ == diamond_rows(v0, x as int, y as int, w as int, h as int, row as int),
        decreases h - row,
    {
        let cy = y + row;
        if row == 0 {
            canvas.put_layered(mid_x, cy, '^', Layer::NodeBorder, None);
        } else if row == last {
            canvas.put_layered(mid_x, cy, 'v', Layer::NodeBorder, None);
        } else if row <= half_h {
            canvas.put_layered(mid_x - row, cy, '/', Layer::NodeBorder, None);
            canvas.put_layered(mid_x + row, cy, '\\', Layer::NodeBorder, None);
            canvas.put_horizontal_layered(mid_x - row + 1, cy, 2 * row - 1, ' ', Layer::NodeContent);
        } else {
            let off = last - row;
            canvas.put_layered(mid_x - off, cy, '\\', Layer::NodeBorder, None);
            canvas.put_layered(mid_x + off, cy, '/', Layer::NodeBorder, None);
            canvas.put_horizontal_layered(mid_x - off + 1, cy, 2 * off - 1, ' ', Layer::NodeContent);
        }
        row = row + 1;
    }
}

} // verus!
