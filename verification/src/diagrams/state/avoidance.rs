//! Collision avoidance for transition drawing: moving a vertical leg
//! around an intermediate box, moving a label off the boxes on its row,
//! and moving a label off sibling junction columns.

use vstd::prelude::*;
use crate::diagrams::state::layout::StateLayout;
use crate::geom::Rect;

verus! {

/// The boxes of placed states.
pub open spec fn rects_of(s: Seq<StateLayout>) -> Seq<Rect> {
    Seq::new(s.len(), |k: int| s[k].rect)
}

/// Box `r` blocks a leg at column `cx` spanning rows `lo..=hi` between
/// `from` and `to`: it is neither end, lies strictly between the ends'
/// rows, is not centered on `cx`, and the leg crosses it.
pub open spec fn leg_blocked_by(r: Rect, cx: int, lo: int, hi: int, from: Rect, to: Rect) -> bool {
    &&& r != from
    &&& r != to
    &&& from.y < r.y < to.y
    &&& cx != r.cx()
    &&& lo < r.bottom()
    &&& hi >= r.y
    &&& r.x <= cx < r.right()
}

/// Column of a leg rerouted around box `r`: just left of it when the
/// left edge is no farther than the right one, else just right of it.
pub open spec fn around(r: Rect, cx: int) -> int {
    let dist_left = cx - r.x;
    let dist_right = r.right() - (cx + 1);
    if dist_left <= dist_right {
        if r.x >= 1 { r.x - 1 } else { 0 }
    } else {
        r.right() as int
    }
}

/// The leg's column after looking at boxes `k..`: moved around the
/// first box that blocks it, else unchanged.
pub open spec fn reroute_from(rs: Seq<Rect>, k: int, cx: int, lo: int, hi: int, from: Rect, to: Rect) -> int
    decreases rs.len() - k,
{
    if k >= rs.len() || k < 0 {
        cx
    } else if leg_blocked_by(rs[k], cx, lo, hi, from, to) {
        around(rs[k], cx)
    } else {
        reroute_from(rs, k + 1, cx, lo, hi, from, to)
    }
}

/// If a vertical leg at column `cx` from `anchor_y` to `route_y` passes
/// through an intermediate box (neither `from` nor `to`, strictly
/// between their rows, not centered on the leg), move the leg to the
/// nearer side of the first such box; otherwise keep `cx`.
pub fn reroute_leg_around_boxes(
    cx: usize,
    anchor_y: usize,
    route_y: usize,
    from: Rect,
    to: Rect,
    all_layouts: &[StateLayout],
) -> (r: usize)
    ensures
        r == reroute_from(
            rects_of(all_layouts@),
            0,
            cx as int,
            if anchor_y < route_y { anchor_y as int } else { route_y as int },
            if anchor_y > route_y { anchor_y as int } else { route_y as int },
            from,
            to,
        ),
{
    let lo = if anchor_y < route_y { anchor_y } else { route_y };
    let hi = if anchor_y > route_y { anchor_y } else { route_y };
    let ghost rs = rects_of(all_layouts@);
    let mut k: usize = 0;
    while k < all_layouts.len()
        invariant
            k <= all_layouts@.len(),
            rs == rects_of(all_layouts@),
            lo == if anchor_y < route_y { anchor_y } else { route_y },
            hi == if anchor_y > route_y { anchor_y } else { route_y },
            reroute_from(rs, k as int, cx as int, lo as int, hi as int, from, to) == reroute_from(
                rs,
                0,
                cx as int,
                lo as int,
                hi as int,
                from,
                to,
            ),
        decreases all_layouts@.len() - k,
    {
        let r = all_layouts[k].rect;
        assert(r == rs[k as int]);
        if r != from && r != to && r.y > from.y && r.y < to.y {
            let box_cx = r.x.saturating_add(r.w / 2);
            if cx != box_cx && lo < r.bottom() && hi >= r.y && cx >= r.x && cx < r.right() {
                let dist_left = cx - r.x;
                let dist_right = r.right() - (cx + 1);
                assert(leg_blocked_by(rs[k as int], cx as int, lo as int, hi as int, from, to));
                assert(reroute_from(rs, k as int, cx as int, lo as int, hi as int, from, to) == around(r, cx as int));
                let res = if dist_left <= dist_right {
                    r.x.saturating_sub(1)
                } else {
                    r.right()
                };
                assert(res == around(r, cx as int));
                return res;
            }
        }
        k = k + 1;
    }
    cx
}

/// Box `r` is on row `y` and overlaps the label span `[x, x + lw)`
/// (the two ends excepted).
pub open spec fn label_hits(r: Rect, x: int, lw: int, y: int, from: Rect, to: Rect) -> bool {
    &&& r != from
    &&& r != to
    &&& r.y <= y < r.bottom()
    &&& x + lw > r.x
    &&& x < r.right()
}

/// One step of box avoidance: a label hitting `r` moves just right of
/// it when that keeps it inside the canvas and is no farther than moving
/// just left of it; otherwise it moves just left.
pub open spec fn avoid_step(r: Rect, x: int, lw: int, y: int, from: Rect, to: Rect, canvas_w: int) -> int {
    if label_hits(r, x, lw, y, from, to) {
        let right = r.right() as int;
        let left = if r.x >= lw { r.x - lw } else { 0 };
        let d_right = if right > x { right - x } else { 0 };
        let d_left = if x > left { x - left } else { 0 };
        if right + lw <= canvas_w && d_right <= d_left {
            right
        } else {
            left
        }
    } else {
        x
    }
}

/// The label's column after the steps for boxes `0..k`, in order.
pub open spec fn avoid_boxes(rs: Seq<Rect>, k: int, x: int, lw: int, y: int, from: Rect, to: Rect, canvas_w: int) -> int
    decreases k,
{
    if k <= 0 {
        x
    } else {
        avoid_step(rs[k - 1], avoid_boxes(rs, k - 1, x, lw, y, from, to, canvas_w), lw, y, from, to, canvas_w)
    }
}

/// Move the label `[label_x, label_x + lw)` on row `label_y` off every
/// box it hits (the two ends excepted), box by box in order; a move to
/// the right is taken only when the label still fits in the canvas.
pub fn avoid_box_x(
    label_x: usize,
    lw: usize,
    label_y: usize,
    from: Rect,
    to: Rect,
    all_layouts: &[StateLayout],
    canvas_width: usize,
) -> (r: usize)
    requires
        label_x + lw <= usize::MAX,
    ensures
        r == avoid_boxes(
            rects_of(all_layouts@),
            all_layouts@.len() as int,
            label_x as int,
            lw as int,
            label_y as int,
            from,
            to,
            canvas_width as int,
        ),
{
    let ghost rs = rects_of(all_layouts@);
    let mut x = label_x;
    let mut k: usize = 0;
    while k < all_layouts.len()
        invariant
            k <= all_layouts@.len(),
            rs == rects_of(all_layouts@),
            x + lw <= usize::MAX,
            x as int == avoid_boxes(rs, k as int, label_x as int, lw as int, label_y as int, from, to, canvas_width as int),
        decreases all_layouts@.len() - k,
    {
        let r = all_layouts[k].rect;
        assert(r == rs[k as int]);
        let label_end = x + lw;
        if r != from && r != to && label_y >= r.y && label_y < r.bottom() && label_end > r.x && x < r.right() {
            let shift_right = r.right();
            let shift_right_ok = lw <= canvas_width && shift_right <= canvas_width - lw;
            let shift_left = r.x.saturating_sub(lw);
            if shift_right_ok && shift_right.saturating_sub(x) <= x.saturating_sub(shift_left) {
                x = shift_right;
            } else {
                x = shift_left;
            }
        }
        k = k + 1;
    }
    x
}

/// The first column of `cols` inside `[x, x + lw)` (the end capped at
/// `usize::MAX`).
pub open spec fn first_junction(cols: Seq<usize>, x: int, lw: int) -> Option<int>
    decreases cols.len(),
{
    if cols.len() == 0 {
        None
    } else if x <= cols[0] < sat_end(x, lw) {
        Some(cols[0] as int)
    } else {
        first_junction(cols.drop_first(), x, lw)
    }
}

/// `x + lw`, capped at `usize::MAX`.
pub open spec fn sat_end(x: int, lw: int) -> int {
    if x + lw > usize::MAX { usize::MAX as int } else { x + lw }
}

/// The label's column after up to `fuel` moves off junction columns:
/// each move takes the first junction under the label and puts the
/// label wholly on the nearer side of it; it stops when no junction is
/// under the label or a move would not change the column.
pub open spec fn off_junctions(cols: Seq<usize>, x: int, lw: int, fuel: nat) -> int
    decreases fuel,
{
    if fuel == 0 {
        x
    } else {
        match first_junction(cols, x, lw) {
            None => x,
            Some(c) => {
                let nx = if c >= x + lw / 2 {
                    if c >= lw { c - lw } else { 0 }
                } else {
                    c + 1
                };
                if nx == x { x } else { off_junctions(cols, nx, lw, (fuel - 1) as nat) }
            },
        }
    }
}

proof fn lemma_first_junction_inside(cols: Seq<usize>, x: int, lw: int)
    ensures
        first_junction(cols, x, lw) matches Some(c) ==> x <= c < sat_end(x, lw),
    decreases cols.len(),
{
    if cols.len() > 0 {
        lemma_first_junction_inside(cols.drop_first(), x, lw);
    }
}

/// Index of the first column of `cols` inside `[x, x + lw)`.
fn find_junction(cols: &[usize], x: usize, lw: usize) -> (r: Option<usize>)
    ensures
        r matches Some(c) ==> first_junction(cols@, x as int, lw as int) == Some(c as int),
        r is None ==> first_junction(cols@, x as int, lw as int) is None,
{
    let end = x.saturating_add(lw);
    let mut k: usize = 0;
    assert(cols@.skip(0) =~= cols@);
    while k < cols.len()
        invariant
            k <= cols@.len(),
            end == sat_end(x as int, lw as int),
            first_junction(cols@.skip(k as int), x as int, lw as int) == first_junction(cols@, x as int, lw as int),
        decreases cols@.len() - k,
    {
        assert(cols@.skip(k as int).drop_first() =~= cols@.skip(k + 1));
        assert(cols@.skip(k as int)[0] == cols@[k as int]);
        if x <= cols[k] && cols[k] < end {
            return Some(cols[k]);
        }
        k = k + 1;
    }
    None
}

/// Move the label `[label_x, label_x + lw)` off the junction columns
/// `cols` (see [`off_junctions`], with one more move than there are
/// columns).
pub fn shift_off_junctions(label_x: usize, lw: usize, cols: &[usize]) -> (r: usize)
    ensures
        r == off_junctions(cols@, label_x as int, lw as int, (cols@.len() + 1) as nat),
{
    let mut x = label_x;
    let total = cols.len();
    let mut fuel = total;
    while true
        invariant
            total == cols@.len(),
            fuel <= total,
            off_junctions(cols@, x as int, lw as int, (fuel + 1) as nat) == off_junctions(
                cols@,
                label_x as int,
                lw as int,
                (total + 1) as nat,
            ),
        decreases fuel,
    {
        let found = find_junction(cols, x, lw);
        proof {
            lemma_first_junction_inside(cols@, x as int, lw as int);
        }
        let c = match found {
            None => {
                return x;
            },
            Some(c) => c,
        };
        let nx = if c - x >= lw / 2 {
            c.saturating_sub(lw)
        } else {
            c + 1
        };
        if nx == x {
            return x;
        }
        assert(off_junctions(cols@, x as int, lw as int, (fuel + 1) as nat) == off_junctions(
            cols@,
            nx as int,
            lw as int,
            fuel as nat,
        ));
        x = nx;
        if fuel == 0 {
            return x;
        }
        fuel = fuel - 1;
    }
    x
}

} // verus!
