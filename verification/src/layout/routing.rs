//! Orthogonal routing geometry shared by the connector router.

use vstd::prelude::*;
use crate::geom::{Anchor, Rect};

verus! {

/// One straight segment of a connector path.
#[derive(Clone, Copy, Debug, PartialEq, Eq, Structural)]
pub enum Segment {
    /// Horizontal segment starting at `(x, y)` with length `len`.
    H { x: usize, y: usize, len: usize },
    /// Vertical segment starting at `(x, y)` with length `len`.
    V { x: usize, y: usize, len: usize },
}

/// `a - b`, floored at zero.
pub open spec fn sat_sub(a: int, b: int) -> int {
    if a > b {
        a - b
    } else {
        0
    }
}

pub open spec fn min(a: int, b: int) -> int {
    if a < b {
        a
    } else {
        b
    }
}

pub open spec fn max(a: int, b: int) -> int {
    if a > b {
        a
    } else {
        b
    }
}

/// Distance between two coordinates.
pub open spec fn dist(a: int, b: int) -> int {
    if a <= b {
        b - a
    } else {
        a - b
    }
}

/// The corridor row of a vertical-flow connector from row `sy` to row
/// `ty`: just below the source when flowing down, just above it when
/// flowing up, `sy` when level.
pub open spec fn spec_natural_mid_y(sy: int, ty: int, src: Rect, tgt: Rect) -> int {
    if sy < ty {
        let lo = src.bottom() as int;
        let hi = tgt.y as int;
        let mid = if hi > lo {
            lo + 1
        } else {
            lo
        };
        min(max(mid, lo), sat_sub(hi, 1))
    } else if sy > ty {
        let lo = tgt.bottom() as int;
        let hi = src.y as int;
        let mid = if hi > lo {
            sat_sub(hi, 1)
        } else {
            lo
        };
        if mid >= src.y {
            sat_sub(src.y as int, 1)
        } else {
            mid
        }
    } else {
        sy
    }
}

/// Largest bottom edge among the rects of `avoid` that end at or above
/// row `limit` (0 when none does).
pub open spec fn max_bottom_upto(avoid: Seq<Rect>, limit: int) -> int
    decreases avoid.len(),
{
    if avoid.len() == 0 {
        0
    } else {
        let r = avoid.last();
        let rest = max_bottom_upto(avoid.drop_last(), limit);
        if r.bottom() <= limit {
            max(rest, r.bottom() as int)
        } else {
            rest
        }
    }
}

/// Smallest top edge among the rects of `avoid` that start at or below
/// row `limit` (`usize::MAX` when none does).
pub open spec fn min_top_from(avoid: Seq<Rect>, limit: int) -> int
    decreases avoid.len(),
{
    if avoid.len() == 0 {
        usize::MAX as int
    } else {
        let r = avoid.last();
        let rest = min_top_from(avoid.drop_last(), limit);
        if r.y >= limit {
            min(rest, r.y as int)
        } else {
            rest
        }
    }
}

/// Largest right edge among `rs` (0 when empty).
pub open spec fn max_right(rs: Seq<Rect>) -> int
    decreases rs.len(),
{
    if rs.len() == 0 {
        0
    } else {
        max(max_right(rs.drop_last()), rs.last().right() as int)
    }
}

/// The detoured corridor row: past every obstacle between source and
/// target, on the side the flow goes to.
pub open spec fn spec_detoured_mid_y(sy: int, ty: int, avoid: Seq<Rect>, src: Rect, tgt: Rect) -> int {
    if avoid.len() == 0 || sy == ty {
        spec_natural_mid_y(sy, ty, src, tgt)
    } else if sy < ty {
        let safe = max(src.bottom() as int, max_bottom_upto(avoid, tgt.y as int)) + 1;
        min(safe, sat_sub(tgt.y as int, 1))
    } else {
        let safe = sat_sub(min(src.y as int, min_top_from(avoid, tgt.bottom() as int)), 1);
        max(safe, tgt.bottom() + 1)
    }
}

/// The cells a segment covers, as a rect (at least one cell long).
pub open spec fn segment_rect(s: Segment) -> Rect {
    match s {
        Segment::H { x, y, len } => Rect { x, y, w: if len > 0 { len } else { 1 }, h: 1 },
        Segment::V { x, y, len } => Rect { x, y, w: 1, h: if len > 0 { len } else { 1 } },
    }
}

/// A vertical segment from row `a` to row `b` (either order) in column
/// `x`, both ends included.
pub open spec fn v_between(x: usize, a: int, b: int) -> Segment {
    if a <= b {
        Segment::V { x, y: a as usize, len: (b - a + 1) as usize }
    } else {
        Segment::V { x, y: b as usize, len: (a - b + 1) as usize }
    }
}

/// A horizontal segment from column `a` to column `b` (either order) in
/// row `y`, both ends included.
pub open spec fn h_between(y: usize, a: int, b: int) -> Segment {
    if a <= b {
        Segment::H { x: a as usize, y, len: (b - a + 1) as usize }
    } else {
        Segment::H { x: b as usize, y, len: (a - b + 1) as usize }
    }
}

/// Pick the horizontal-corridor row (`mid_y`) for a vertical-flow
/// connector so the horizontal segment sits in the gap between source
/// and target: one row below the source bottom when flowing down, one
/// row above the source top when flowing up.
pub fn natural_mid_y(sy: usize, ty: usize, src: &Rect, tgt: &Rect) -> (r: usize)
    ensures
        r == spec_natural_mid_y(sy as int, ty as int, *src, *tgt),
        sy < ty && src.bottom() < tgt.y ==> src.bottom() <= r < tgt.y,
        sy > ty && tgt.bottom() < src.y ==> tgt.bottom() <= r < src.y,
{
    if sy < ty {
        let lo = src.bottom();
        let hi = tgt.y;
        let mid = if hi > lo {
            lo + 1
        } else {
            lo
        };
        let m = if mid > lo {
            mid
        } else {
            lo
        };
        let cap = hi.saturating_sub(1);
        if m < cap {
            m
        } else {
            cap
        }
    } else if sy > ty {
        let lo = tgt.bottom();
        let hi = src.y;
        let mid = if hi > lo {
            hi.saturating_sub(1)
        } else {
            lo
        };
        if mid >= src.y {
            src.y.saturating_sub(1)
        } else {
            mid
        }
    } else {
        sy
    }
}

/// Largest bottom edge among the rects of `avoid` that end at or above
/// row `limit`.
fn max_bottom_upto_exec(avoid: &[Rect], limit: usize) -> (r: usize)
    ensures
        r == max_bottom_upto(avoid@, limit as int),
{
    let mut best: usize = 0;
    let mut i: usize = 0;
    while i < avoid.len()
        invariant
            i <= avoid@.len(),
            best == max_bottom_upto(avoid@.take(i as int), limit as int),
        decreases avoid@.len() - i,
    {
        assert(avoid@.take(i + 1).drop_last() =~= avoid@.take(i as int));
        let b = avoid[i].bottom();
        if b <= limit && b > best {
            best = b;
        }
        i = i + 1;
    }
    assert(avoid@.take(avoid@.len() as int) =~= avoid@);
    best
}

/// Smallest top edge among the rects of `avoid` that start at or below
/// row `limit`.
fn min_top_from_exec(avoid: &[Rect], limit: usize) -> (r: usize)
    ensures
        r == min_top_from(avoid@, limit as int),
{
    let mut best: usize = usize::MAX;
    let mut i: usize = 0;
    while i < avoid.len()
        invariant
            i <= avoid@.len(),
            best == min_top_from(avoid@.take(i as int), limit as int),
        decreases avoid@.len() - i,
    {
        assert(avoid@.take(i + 1).drop_last() =~= avoid@.take(i as int));
        let t = avoid[i].y;
        if t >= limit && t < best {
            best = t;
        }
        i = i + 1;
    }
    assert(avoid@.take(avoid@.len() as int) =~= avoid@);
    best
}

/// Largest right edge among `rs` (0 when empty).
pub fn max_right_exec(rs: &[Rect]) -> (r: usize)
    ensures
        r == max_right(rs@),
{
    let mut best: usize = 0;
    let mut i: usize = 0;
    while i < rs.len()
        invariant
            i <= rs@.len(),
            best == max_right(rs@.take(i as int)),
        decreases rs@.len() - i,
    {
        assert(rs@.take(i + 1).drop_last() =~= rs@.take(i as int));
        let r = rs[i].right();
        if r > best {
            best = r;
        }
        i = i + 1;
    }
    assert(rs@.take(rs@.len() as int) =~= rs@);
    best
}

/// Detoured `mid_y` for a vertical-flow path whose natural corridor
/// crosses an obstacle: the corridor moves past every obstacle that
/// lies between source and target, preferring the direction of flow.
pub fn detoured_mid_y(sy: usize, ty: usize, avoid: &[Rect], src: &Rect, tgt: &Rect) -> (r: usize)
    requires
        avoid@.len() > 0 && sy < ty ==> max(
            src.bottom() as int,
            max_bottom_upto(avoid@, tgt.y as int),
        ) < usize::MAX,
        avoid@.len() > 0 && sy > ty ==> tgt.bottom() < usize::MAX,
    ensures
        r == spec_detoured_mid_y(sy as int, ty as int, avoid@, *src, *tgt),
{
    if avoid.len() == 0 || sy == ty {
        return natural_mid_y(sy, ty, src, tgt);
    }
    if sy < ty {
        let mb = max_bottom_upto_exec(avoid, tgt.y);
        let sb = src.bottom();
        let safe = if sb > mb {
            sb
        } else {
            mb
        };
        let safe = safe + 1;
        let cap = tgt.y.saturating_sub(1);
        if safe < cap {
            safe
        } else {
            cap
        }
    } else {
        let mt = min_top_from_exec(avoid, tgt.bottom());
        let m = if src.y < mt {
            src.y
        } else {
            mt
        };
        let safe = m.saturating_sub(1);
        let floor = tgt.bottom() + 1;
        if safe > floor {
            safe
        } else {
            floor
        }
    }
}

/// Detoured `mid_x` for a horizontal-flow path: one column right of
/// every obstacle, or column 1 when there is none.
pub fn detoured_mid_x(avoid: &[Rect]) -> (r: usize)
    requires
        max_right(avoid@) < usize::MAX,
    ensures
        avoid@.len() == 0 ==> r == 1,
        avoid@.len() > 0 ==> r == max_right(avoid@) + 1,
{
    if avoid.len() == 0 {
        return 1;
    }
    let m = max_right_exec(avoid);
    m + 1
}

/// Two columns right of the rightmost rect, clamped to the last column
/// of a canvas `canvas_w` wide.
pub open spec fn side_column(all: Seq<Rect>, canvas_w: int) -> int {
    min(max_right(all) + 2, sat_sub(canvas_w, 1))
}

/// A column for a vertical corridor right of all rectangles, used to
/// route back-edges around intermediate nodes: two columns right of the
/// rightmost rect, clamped to the canvas width.
pub fn side_route_column(all: &[Rect], canvas_w: usize) -> (r: usize)
    requires
        max_right(all@) + 2 <= usize::MAX,
    ensures
        r == side_column(all@, canvas_w as int),
{
    let m = max_right_exec(all);
    let candidate = m + 2;
    let edge = canvas_w.saturating_sub(1);
    if candidate < edge {
        candidate
    } else {
        edge
    }
}

/// One step from `v` by `d` (-1, 0 or +1), floored at zero.
pub open spec fn step(v: int, d: int) -> int {
    max(v + d, 0)
}

/// The column and row offsets pointing outward from `anchor`.
pub open spec fn anchor_dir(anchor: Anchor) -> (int, int) {
    match anchor {
        Anchor::North => (0, -1),
        Anchor::South => (0, 1),
        Anchor::East => (1, 0),
        Anchor::West => (-1, 0),
        Anchor::NorthEast => (1, -1),
        Anchor::NorthWest => (-1, -1),
        Anchor::SouthEast => (1, 1),
        Anchor::SouthWest => (-1, 1),
        Anchor::Center => (0, 0),
    }
}

fn step_exec(v: usize, d: i8) -> (r: usize)
    requires
        -1 <= d <= 1,
        v < usize::MAX,
    ensures
        r == step(v as int, d as int),
{
    if d < 0 {
        v.saturating_sub(1)
    } else if d > 0 {
        v + 1
    } else {
        v
    }
}

/// Snap a point one cell outside the rect's perimeter along the anchor
/// direction, so connector lines start and end just outside the border.
pub fn snap_outside(rect: Rect, anchor: Anchor) -> (r: (usize, usize))
    requires
        rect.anchor(anchor).0 < usize::MAX,
        rect.anchor(anchor).1 < usize::MAX,
    ensures
        r.0 == step(rect.anchor(anchor).0 as int, anchor_dir(anchor).0),
        r.1 == step(rect.anchor(anchor).1 as int, anchor_dir(anchor).1),
{
    let (x, y) = rect.anchor(anchor);
    let (dx, dy): (i8, i8) = match anchor {
        Anchor::North => (0, -1),
        Anchor::South => (0, 1),
        Anchor::East => (1, 0),
        Anchor::West => (-1, 0),
        Anchor::NorthEast => (1, -1),
        Anchor::NorthWest => (-1, -1),
        Anchor::SouthEast => (1, 1),
        Anchor::SouthWest => (-1, 1),
        Anchor::Center => (0, 0),
    };
    (step_exec(x, dx), step_exec(y, dy))
}

/// The rect a segment covers.
pub fn segment_cells(seg: &Segment) -> (r: Rect)
    ensures
        r == segment_rect(*seg),
{
    match *seg {
        Segment::H { x, y, len } => Rect::new(x, y, if len > 0 { len } else { 1 }, 1),
        Segment::V { x, y, len } => Rect::new(x, y, 1, if len > 0 { len } else { 1 }),
    }
}

/// True when some segment of `path` overlaps some rectangle of `avoid`.
pub fn path_intersects_any(path: &[Segment], avoid: &[Rect]) -> (r: bool)
    ensures
        r == exists|i: int, j: int|
            0 <= i < path@.len() && 0 <= j < avoid@.len() && (#[trigger] avoid@[j]).overlaps(
                &segment_rect(#[trigger] path@[i]),
            ),
{
    if avoid.len() == 0 {
        return false;
    }
    let mut i: usize = 0;
    while i < path.len()
        invariant
            i <= path@.len(),
            forall|a: int, b: int|
                0 <= a < i && 0 <= b < avoid@.len() ==> !(#[trigger] avoid@[b]).overlaps(
                    &segment_rect(#[trigger] path@[a]),
                ),
        decreases path@.len() - i,
    {
        let r = segment_cells(&path[i]);
        let mut j: usize = 0;
        while j < avoid.len()
            invariant
                i < path@.len(),
                j <= avoid@.len(),
                r == segment_rect(path@[i as int]),
                forall|b: int| 0 <= b < j ==> !(#[trigger] avoid@[b]).overlaps(&r),
            decreases avoid@.len() - j,
        {
            if avoid[j].overlaps(&r) {
                return true;
            }
            j = j + 1;
        }
        i = i + 1;
    }
    false
}

/// A straight vertical segment from `(x, sy)` to `(x, ty)`.
pub fn straight_vertical(x: usize, sy: usize, ty: usize) -> (r: Vec<Segment>)
    requires
        dist(sy as int, ty as int) < usize::MAX,
    ensures
        r@ == seq![v_between(x, sy as int, ty as int)],
{
    let seg = if sy < ty {
        Segment::V { x, y: sy, len: ty - sy + 1 }
    } else {
        Segment::V { x, y: ty, len: sy - ty + 1 }
    };
    vec![seg]
}

/// A three-segment vertical-horizontal-vertical path through the
/// horizontal corridor at row `mid_y`.
pub fn build_three_segment(sx: usize, sy: usize, tx: usize, ty: usize, mid_y: usize) -> (r: Vec<
    Segment,
>)
    requires
        dist(sy as int, mid_y as int) < usize::MAX,
        dist(sx as int, tx as int) < usize::MAX,
        dist(ty as int, mid_y as int) < usize::MAX,
    ensures
        r@ == seq![
            v_between(sx, sy as int, mid_y as int),
            h_between(mid_y, sx as int, tx as int),
            v_between(tx, mid_y as int, ty as int),
        ],
{
    let mut segs: Vec<Segment> = Vec::new();
    if sy <= mid_y {
        segs.push(Segment::V { x: sx, y: sy, len: mid_y - sy + 1 });
    } else {
        segs.push(Segment::V { x: sx, y: mid_y, len: sy - mid_y + 1 });
    }
    if sx <= tx {
        segs.push(Segment::H { x: sx, y: mid_y, len: tx - sx + 1 });
    } else {
        segs.push(Segment::H { x: tx, y: mid_y, len: sx - tx + 1 });
    }
    if mid_y <= ty {
        segs.push(Segment::V { x: tx, y: mid_y, len: ty - mid_y + 1 });
    } else {
        segs.push(Segment::V { x: tx, y: ty, len: mid_y - ty + 1 });
    }
    assert(segs@ =~= seq![
        v_between(sx, sy as int, mid_y as int),
        h_between(mid_y, sx as int, tx as int),
        v_between(tx, mid_y as int, ty as int),
    ]);
    segs
}

/// A three-segment horizontal-vertical-horizontal path through the
/// vertical corridor at column `mid_x`.
pub fn build_three_h_segment(sx: usize, sy: usize, tx: usize, ty: usize, mid_x: usize) -> (r: Vec<
    Segment,
>)
    requires
        dist(sx as int, mid_x as int) < usize::MAX,
        dist(sy as int, ty as int) < usize::MAX,
        dist(tx as int, mid_x as int) < usize::MAX,
    ensures
        r@ == seq![
            h_between(sy, sx as int, mid_x as int),
            v_between(mid_x, sy as int, ty as int),
            h_between(ty, mid_x as int, tx as int),
        ],
{
    let mut segs: Vec<Segment> = Vec::new();
    if sx <= mid_x {
        segs.push(Segment::H { x: sx, y: sy, len: mid_x - sx + 1 });
    } else {
        segs.push(Segment::H { x: mid_x, y: sy, len: sx - mid_x + 1 });
    }
    if sy <= ty {
        segs.push(Segment::V { x: mid_x, y: sy, len: ty - sy + 1 });
    } else {
        segs.push(Segment::V { x: mid_x, y: ty, len: sy - ty + 1 });
    }
    if mid_x <= tx {
        segs.push(Segment::H { x: mid_x, y: ty, len: tx - mid_x + 1 });
    } else {
        segs.push(Segment::H { x: tx, y: ty, len: mid_x - tx + 1 });
    }
    assert(segs@ =~= seq![
        h_between(sy, sx as int, mid_x as int),
        v_between(mid_x, sy as int, ty as int),
        h_between(ty, mid_x as int, tx as int),
    ]);
    segs
}

/// Cells of a horizontal corridor between columns `a` and `b`, both
/// ends included.
pub fn h_corridor_len(a: usize, b: usize) -> (r: usize)
    requires
        dist(a as int, b as int) < usize::MAX,
    ensures
        r == dist(a as int, b as int) + 1,
{
    if a <= b {
        b - a + 1
    } else {
        a - b + 1
    }
}

/// The three-segment vertical-horizontal-vertical path through row
/// `mid`.
pub open spec fn three_segment(sx: usize, sy: usize, tx: usize, ty: usize, mid: usize) -> Seq<Segment> {
    seq![v_between(sx, sy as int, mid as int), h_between(mid, sx as int, tx as int), v_between(tx, mid as int, ty as int)]
}

/// Some segment of `path` overlaps some rect of `avoid`.
pub open spec fn spec_intersects_any(path: Seq<Segment>, avoid: Seq<Rect>) -> bool {
    exists|i: int, j: int|
        0 <= i < path.len() && 0 <= j < avoid.len() && (#[trigger] avoid[j]).overlaps(
            &segment_rect(#[trigger] path[i]),
        )
}

/// The path of a vertical-flow connector from `s` to `t`: straight when
/// the columns agree, else through the natural corridor row, or through
/// the detoured row when the natural path crosses an obstacle.
pub open spec fn spec_vertical_flow_path(
    s: (usize, usize),
    t: (usize, usize),
    src: Rect,
    tgt: Rect,
    avoid: Seq<Rect>,
) -> Seq<Segment> {
    if s.0 == t.0 {
        seq![v_between(s.0, s.1 as int, t.1 as int)]
    } else {
        let mid = spec_natural_mid_y(s.1 as int, t.1 as int, src, tgt) as usize;
        let p = three_segment(s.0, s.1, t.0, t.1, mid);
        if !spec_intersects_any(p, avoid) {
            p
        } else {
            let safe = spec_detoured_mid_y(s.1 as int, t.1 as int, avoid, src, tgt) as usize;
            three_segment(s.0, s.1, t.0, t.1, safe)
        }
    }
}

/// Coordinates well inside the machine range (half of `usize::MAX`).
pub open spec fn small(v: int) -> bool {
    0 <= v < usize::MAX / 2
}

proof fn lemma_max_bottom_upto_le(avoid: Seq<Rect>, limit: int)
    requires
        0 <= limit,
    ensures
        0 <= max_bottom_upto(avoid, limit) <= limit,
    decreases avoid.len(),
{
    if avoid.len() > 0 {
        lemma_max_bottom_upto_le(avoid.drop_last(), limit);
    }
}

/// The path of a vertical-flow connector (see
/// [`spec_vertical_flow_path`]).
pub fn vertical_flow_path(
    source: (usize, usize),
    target: (usize, usize),
    src: &Rect,
    tgt: &Rect,
    avoid: &[Rect],
) -> (r: Vec<Segment>)
    requires
        small(source.0 as int),
        small(source.1 as int),
        small(target.0 as int),
        small(target.1 as int),
        small(src.bottom() as int),
        small(tgt.bottom() as int),
    ensures
        r@ == spec_vertical_flow_path(source, target, *src, *tgt, avoid@),
{
    let (sx, sy) = source;
    let (tx, ty) = target;
    if sx == tx {
        return straight_vertical(sx, sy, ty);
    }
    let mid_y = natural_mid_y(sy, ty, src, tgt);
    let path = build_three_segment(sx, sy, tx, ty, mid_y);
    if !path_intersects_any(path.as_slice(), avoid) {
        return path;
    }
    proof {
        lemma_max_bottom_upto_le(avoid@, tgt.y as int);
    }
    let safe_y = detoured_mid_y(sy, ty, avoid, src, tgt);
    build_three_segment(sx, sy, tx, ty, safe_y)
}

} // verus!
