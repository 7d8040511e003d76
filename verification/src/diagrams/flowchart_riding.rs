//! Placement of fork-riding labels in flowcharts.
//!
//! A purely vertical connector whose source also has corridor siblings
//! cannot put its label on the row below the source (the siblings'
//! corridor labels sit there), so the label rides its own leg instead.
//! Riders are placed one by one in declaration order, before the canvas
//! is sized; each treats the boxes in its columns and the riders placed
//! before it as blocked rows. The capacity ladder:
//! 1. the clear stretch of the leg nearest the target that holds the
//!    block and a `|` rail above and below it;
//! 2. the same without rails;
//! 3. beside the cluster of blocking boxes, to the left or right;
//! 4. the tallest clear stretch seen, block at its top.
//! Sums that would pass `usize::MAX` saturate.

use vstd::prelude::*;
use crate::diagrams::arrow::{sat_add, wraps_label};
use crate::diagrams::gantt::wrap_entry;
use crate::diagrams::table::{imax, imin};
use crate::geom::Rect;
use crate::layout::riding::{
    beside_line_label_avail, nearest_among, riding_placement_cols, spec_beside_line_label_avail,
    spec_riding_placement, RidingLabel,
};
use crate::layout::routing::sat_sub;
use crate::text::{views, widest};
use crate::width::{chars_of, seq_display_width};

verus! {

// ---------------------------------------------------------------------
// Clear stretches
// ---------------------------------------------------------------------

/// Row `r` lies inside one of the half-open row ranges.
pub open spec fn row_blocked(bs: Seq<(usize, usize)>, r: int) -> bool {
    exists|k: int| 0 <= k < bs.len() && (#[trigger] bs[k]).0 <= r && r < bs[k].1
}

/// The maximal runs of unblocked rows in `lo .. r`, top to bottom.
pub open spec fn clear_runs(bs: Seq<(usize, usize)>, lo: int, r: int) -> Seq<(usize, usize)>
    decreases r - lo,
{
    if r <= lo {
        Seq::empty()
    } else {
        let prev = clear_runs(bs, lo, r - 1);
        if row_blocked(bs, r - 1) {
            prev
        } else if prev.len() > 0 && prev.last().1 == r - 1 {
            prev.update(prev.len() - 1, (prev.last().0, r as usize))
        } else {
            prev.push(((r - 1) as usize, r as usize))
        }
    }
}

proof fn lemma_runs_last(bs: Seq<(usize, usize)>, lo: int, r: int)
    requires
        0 <= lo <= r <= usize::MAX,
    ensures
        clear_runs(bs, lo, r).len() > 0 ==> clear_runs(bs, lo, r).last().1 <= r,
        clear_runs(bs, lo, r).len() > 0 && clear_runs(bs, lo, r).last().1 == r ==> r > lo && !row_blocked(
            bs,
            r - 1,
        ),
    decreases r - lo,
{
    if r > lo {
        lemma_runs_last(bs, lo, r - 1);
    }
}

/// Blocked rows `r .. e` add no run.
proof fn lemma_runs_blocked(bs: Seq<(usize, usize)>, lo: int, r: int, e: int)
    requires
        lo <= r <= e,
        forall|x: int| r <= x < e ==> row_blocked(bs, x),
    ensures
        clear_runs(bs, lo, e) == clear_runs(bs, lo, r),
    decreases e - r,
{
    if e > r {
        lemma_runs_blocked(bs, lo, r, e - 1);
    }
}

/// Clear rows `r .. q` after a blocked row (or the window's top) are one
/// new run.
proof fn lemma_runs_clear(bs: Seq<(usize, usize)>, lo: int, r: int, q: int)
    requires
        0 <= lo <= r < q <= usize::MAX,
        r == lo || row_blocked(bs, r - 1),
        forall|x: int| r <= x < q ==> !row_blocked(bs, x),
    ensures
        clear_runs(bs, lo, q) == clear_runs(bs, lo, r).push((r as usize, q as usize)),
    decreases q - r,
{
    lemma_runs_last(bs, lo, r);
    if q == r + 1 {
        let prev = clear_runs(bs, lo, r);
        if prev.len() > 0 && prev.last().1 == r {
            assert(r > lo && !row_blocked(bs, r - 1));
        }
    } else {
        lemma_runs_clear(bs, lo, r, q - 1);
    }
}

/// Split `row_lo .. row_hi` into the maximal stretches clear of every
/// blocked row range.
pub fn clear_stretches(row_lo: usize, row_hi: usize, blockers: &[(usize, usize)]) -> (r: Vec<(usize, usize)>)
    ensures
        r@ == clear_runs(blockers@, row_lo as int, row_hi as int),
{
    let ghost bs = blockers@;
    let mut out: Vec<(usize, usize)> = Vec::new();
    if row_hi <= row_lo {
        return out;
    }
    let mut r = row_lo;
    while r < row_hi
        invariant
            bs == blockers@,
            row_lo <= r <= row_hi,
            r < row_hi ==> (r == row_lo || row_blocked(bs, r - 1)),
            out@ == clear_runs(bs, row_lo as int, r as int),
        decreases row_hi - r,
    {
        // The farthest end of a blocker covering `r`.
        let mut cover: Option<usize> = None;
        let mut k: usize = 0;
        while k < blockers.len()
            invariant
                bs == blockers@,
                k <= bs.len(),
                match cover {
                    Some(e) => e > r && exists|j: int| 0 <= j < k && (#[trigger] bs[j]).0 <= r && r < bs[j].1 && bs[j].1
                        == e,
                    None => forall|j: int| 0 <= j < k ==> !((#[trigger] bs[j]).0 <= r && r < bs[j].1),
                },
                forall|j: int| 0 <= j < k && (#[trigger] bs[j]).0 <= r && r < bs[j].1 ==> (cover matches Some(e) && bs[j].1 <= e),
            decreases bs.len() - k,
        {
            let (a, b) = blockers[k];
            if a <= r && r < b {
                match cover {
                    Some(e) => {
                        if b > e {
                            cover = Some(b);
                        }
                    },
                    None => {
                        cover = Some(b);
                    },
                }
            }
            k = k + 1;
        }
        match cover {
            Some(e) => {
                let next = if e < row_hi {
                    e
                } else {
                    row_hi
                };
                proof {
                    let j = choose|j: int| 0 <= j < bs.len() && (#[trigger] bs[j]).0 <= r && r < bs[j].1 && bs[j].1 == e;
                    assert forall|x: int| r <= x < next implies row_blocked(bs, x) by {
                        assert(bs[j].0 <= x && x < bs[j].1);
                    }
                    lemma_runs_blocked(bs, row_lo as int, r as int, next as int);
                    assert(row_blocked(bs, next - 1)) by {
                        assert(bs[j].0 <= next - 1 && next - 1 < bs[j].1);
                    }
                }
                r = next;
            },
            None => {
                // The nearest blocker start below `r`.
                let mut q = row_hi;
                let mut k2: usize = 0;
                while k2 < blockers.len()
                    invariant
                        bs == blockers@,
                        k2 <= bs.len(),
                        r < q <= row_hi,
                        forall|j: int| 0 <= j < k2 && (#[trigger] bs[j]).0 > r && bs[j].0 < bs[j].1 ==> q <= bs[j].0,
                        q == row_hi || exists|j: int| 0 <= j < k2 && (#[trigger] bs[j]).0 == q && q < bs[j].1,
                    decreases bs.len() - k2,
                {
                    let (a, b) = blockers[k2];
                    if a > r && a < b && a < q {
                        q = a;
                    }
                    k2 = k2 + 1;
                }
                proof {
                    assert forall|x: int| r <= x < q implies !row_blocked(bs, x) by {
                        if row_blocked(bs, x) {
                            let j = choose|j: int| 0 <= j < bs.len() && (#[trigger] bs[j]).0 <= x && x < bs[j].1;
                            if bs[j].0 <= r {
                                assert(bs[j].0 <= r && r < bs[j].1);
                            } else {
                                assert(q <= bs[j].0);
                            }
                        }
                    }
                    lemma_runs_clear(bs, row_lo as int, r as int, q as int);
                    if q < row_hi {
                        let j = choose|j: int| 0 <= j < bs.len() && (#[trigger] bs[j]).0 == q && q < bs[j].1;
                        assert(bs[j].0 <= q && q < bs[j].1);
                    }
                }
                out.push((r, q));
                if q < row_hi {
                    // `q` starts a blocker: skip past it on the next round.
                    proof {
                        let j = choose|j: int| 0 <= j < bs.len() && (#[trigger] bs[j]).0 == q && q < bs[j].1;
                        assert(bs[j].0 <= q && q < bs[j].1);
                        lemma_runs_blocked(bs, row_lo as int, q as int, q as int);
                    }
                }
                r = q;
                proof {
                    if r < row_hi {
                        assert(row_blocked(bs, r as int)) by {
                            let j = choose|j: int| 0 <= j < bs.len() && (#[trigger] bs[j]).0 == r && r < bs[j].1;
                            assert(bs[j].0 <= r && r < bs[j].1);
                        }
                    }
                }
                if r < row_hi {
                    // Row `r` is blocked: take one step so the loop
                    // invariant's "row above is blocked" holds.
                    proof {
                        lemma_runs_blocked(bs, row_lo as int, r as int, r as int + 1);
                    }
                    r = r + 1;
                }
            },
        }
    }
    out
}


// ---------------------------------------------------------------------
// Blockers
// ---------------------------------------------------------------------

/// An already placed riding block: its column span and its rows, both
/// half-open.
#[derive(Clone, Copy, Debug)]
pub struct PlacedRider {
    pub span: (usize, usize),
    pub rows: (usize, usize),
}

/// The rows of the first `k` boxes that overlap the columns of `span`.
pub open spec fn box_blockers(span: (usize, usize), boxes: Seq<Rect>, k: int) -> Seq<(usize, usize)>
    decreases k,
{
    if k <= 0 {
        Seq::empty()
    } else {
        let prev = box_blockers(span, boxes, k - 1);
        let r = boxes[k - 1];
        if r.right() > span.0 && r.x < span.1 {
            prev.push((r.y, r.bottom()))
        } else {
            prev
        }
    }
}

/// The rows of the first `k` placed riders whose spans meet `span`.
pub open spec fn rider_blockers(span: (usize, usize), placed: Seq<PlacedRider>, k: int) -> Seq<(usize, usize)>
    decreases k,
{
    if k <= 0 {
        Seq::empty()
    } else {
        let prev = rider_blockers(span, placed, k - 1);
        let p = placed[k - 1];
        if p.span.1 > span.0 && p.span.0 < span.1 {
            prev.push(p.rows)
        } else {
            prev
        }
    }
}

/// Blocked rows for a column span: the boxes in its columns, then the
/// placed riders meeting it.
pub open spec fn spec_blockers(span: (usize, usize), boxes: Seq<Rect>, placed: Seq<PlacedRider>) -> Seq<(usize, usize)> {
    box_blockers(span, boxes, boxes.len() as int) + rider_blockers(span, placed, placed.len() as int)
}

/// Row ranges blocked for a column span (see `spec_blockers`).
pub fn blockers_overlapping(span: (usize, usize), boxes: &[Rect], placed: &[PlacedRider]) -> (r: Vec<(usize, usize)>)
    ensures
        r@ == spec_blockers(span, boxes@, placed@),
{
    let mut out: Vec<(usize, usize)> = Vec::new();
    let mut i: usize = 0;
    while i < boxes.len()
        invariant
            i <= boxes@.len(),
            out@ == box_blockers(span, boxes@, i as int),
        decreases boxes@.len() - i,
    {
        let r = boxes[i];
        if r.right() > span.0 && r.x < span.1 {
            out.push((r.y, r.bottom()));
        }
        i = i + 1;
    }
    let ghost head = out@;
    let mut j: usize = 0;
    while j < placed.len()
        invariant
            j <= placed@.len(),
            head == box_blockers(span, boxes@, boxes@.len() as int),
            out@ == head + rider_blockers(span, placed@, j as int),
        decreases placed@.len() - j,
    {
        let p = placed[j];
        if p.span.1 > span.0 && p.span.0 < span.1 {
            out.push(p.rows);
        }
        j = j + 1;
    }
    out
}


// ---------------------------------------------------------------------
// Placement
// ---------------------------------------------------------------------

/// Where a riding block went: the directive for the connector, the row
/// below the block, and its column span (half-open).
#[derive(Clone, Copy, Debug)]
pub struct RidingPlacement {
    pub riding: RidingLabel,
    pub bottom: usize,
    pub span: (usize, usize),
}

/// One rider to place.
pub struct RidingRequest<'a> {
    pub label: &'a str,
    pub from_rect: Rect,
    pub to_rect: Rect,
    /// Same-source corridor siblings: far leg column and the row of
    /// their label block's bottom.
    pub sibs: &'a [(usize, usize)],
    /// Every node rect but the rider's own two.
    pub boxes: &'a [Rect],
    /// Riders placed before this one.
    pub placed: &'a [PlacedRider],
    /// Hard limit for wrapping.
    pub user_width: usize,
    /// Canvas width: the right bound for beside spans.
    pub canvas_w: usize,
    /// Lowest row a beside placement may use.
    pub row_limit: usize,
}

/// A beside-the-cluster candidate: whether it has room for the rails,
/// its distance to the target's top row and to the leg column, its top
/// row and its span.
#[derive(Clone, Copy, Debug)]
pub struct BesideCandidate {
    pub rails: bool,
    pub dist_ty: usize,
    pub dist_leg: usize,
    pub block_top: usize,
    pub span: (usize, usize),
}

/// A candidate beats `b` when it has rails and `b` has not, then when it
/// is nearer the target's top, then nearer the leg.
pub open spec fn spec_better(b: BesideCandidate, rails: bool, dist_ty: int, dist_leg: int) -> bool {
    if rails != b.rails {
        rails
    } else if dist_ty != b.dist_ty {
        dist_ty < b.dist_ty
    } else {
        dist_leg < b.dist_leg
    }
}

impl BesideCandidate {
    /// See `spec_better`.
    pub fn better(&self, rails: bool, dist_ty: usize, dist_leg: usize) -> (r: bool)
        ensures
            r == spec_better(*self, rails, dist_ty as int, dist_leg as int),
    {
        if rails != self.rails {
            rails
        } else if dist_ty != self.dist_ty {
            dist_ty < self.dist_ty
        } else {
            dist_leg < self.dist_leg
        }
    }
}

/// The request's texts and lists as values.
pub struct RequestSpec {
    pub label: Seq<char>,
    pub from_rect: Rect,
    pub to_rect: Rect,
    pub sibs: Seq<(usize, usize)>,
    pub boxes: Seq<Rect>,
    pub placed: Seq<PlacedRider>,
    pub user_width: usize,
    pub canvas_w: usize,
    pub row_limit: usize,
}

impl<'a> View for RidingRequest<'a> {
    type V = RequestSpec;

    open spec fn view(&self) -> RequestSpec {
        RequestSpec {
            label: self.label@,
            from_rect: self.from_rect,
            to_rect: self.to_rect,
            sibs: self.sibs@,
            boxes: self.boxes@,
            placed: self.placed@,
            user_width: self.user_width,
            canvas_w: self.canvas_w,
            row_limit: self.row_limit,
        }
    }
}

/// The row below the lowest of the first `k` sibling blocks.
pub open spec fn sibs_below(sibs: Seq<(usize, usize)>, k: int) -> Option<int>
    decreases k,
{
    if k <= 0 {
        None
    } else {
        let b = sat_add(sibs[k - 1].1 as int, 1);
        match sibs_below(sibs, k - 1) {
            Some(m) => Some(imax(m, b)),
            None => Some(b),
        }
    }
}

/// First row the rider may use: below every sibling block, or the row
/// below the source.
pub open spec fn below_row(q: RequestSpec) -> int {
    match sibs_below(q.sibs, q.sibs.len() as int) {
        Some(m) => m,
        None => sat_add(q.from_rect.bottom() as int, 1),
    }
}

/// The siblings' leg columns.
pub open spec fn far_cols(sibs: Seq<(usize, usize)>) -> Seq<usize> {
    Seq::new(sibs.len(), |i: int| sibs[i].0)
}

/// The rider's leg column: the source's center.
pub open spec fn leg_col(q: RequestSpec) -> int {
    sat_add(q.from_rect.x as int, q.from_rect.w as int / 2)
}

/// Wrap width and center column from the sibling-aware ladder.
pub open spec fn ride_cols(q: RequestSpec) -> (int, int) {
    spec_riding_placement(
        far_cols(q.sibs),
        leg_col(q),
        q.canvas_w as int,
        spec_beside_line_label_avail(leg_col(q), q.user_width as int),
    )
}

/// The block's widest-case span around the ladder's center.
pub open spec fn ride_span(q: RequestSpec) -> (usize, usize) {
    let lo = sat_sub(ride_cols(q).1, ride_cols(q).0 / 2);
    (lo as usize, sat_add(lo, ride_cols(q).0) as usize)
}

/// The last of the first `k` stretches at least `need` rows tall.
pub open spec fn last_fit(ss: Seq<(usize, usize)>, need: int, k: int) -> Option<(usize, usize)>
    decreases k,
{
    if k <= 0 {
        None
    } else if ss[k - 1].1 - ss[k - 1].0 >= need {
        Some(ss[k - 1])
    } else {
        last_fit(ss, need, k - 1)
    }
}

/// The on-line stretches between the sibling blocks and the target.
pub open spec fn online_stretches(q: RequestSpec) -> Seq<(usize, usize)> {
    clear_runs(spec_blockers(ride_span(q), q.boxes, q.placed), below_row(q), q.to_rect.y as int)
}

/// Tiers 1 and 2: the stretch nearest the target with room for the
/// block and its rails, else for the block alone.
pub open spec fn online_fit(q: RequestSpec, n: int) -> Option<(usize, usize)> {
    let ss = online_stretches(q);
    match last_fit(ss, sat_add(n, 2), ss.len() as int) {
        Some(s) => Some(s),
        None => last_fit(ss, n, ss.len() as int),
    }
}

/// Columns of the blocking boxes (the first `k`) and the target: the
/// boxes above the target's top, below the rider's first row, that meet
/// the span.
pub open spec fn cluster(q: RequestSpec, k: int) -> (int, int)
    decreases k,
{
    if k <= 0 {
        (q.to_rect.x as int, q.to_rect.right() as int)
    } else {
        let prev = cluster(q, k - 1);
        let r = q.boxes[k - 1];
        let sp = ride_span(q);
        if r.y < q.to_rect.y && r.bottom() > below_row(q) && r.right() > sp.0 && r.x < sp.1 {
            (imin(prev.0, r.x as int), imax(prev.1, r.right() as int))
        } else {
            prev
        }
    }
}

/// The spans beside the cluster, wider side first, that can hold the
/// widest line `mw`.
pub open spec fn beside_spans(q: RequestSpec, mw: int) -> Seq<(usize, usize)> {
    let c = cluster(q, q.boxes.len() as int);
    let wrap_w = ride_cols(q).0;
    let left_w = imin(c.0, wrap_w);
    let right_w = imin(sat_sub(q.canvas_w as int, c.1), wrap_w);
    let left = ((c.0 - left_w) as usize, c.0 as usize);
    let right = (c.1 as usize, sat_add(c.1, right_w) as usize);
    let order = if left_w >= right_w {
        seq![left, right]
    } else {
        seq![right, left]
    };
    let keep0 = order[0].1 > order[0].0 && order[0].1 - order[0].0 >= mw;
    let keep1 = order[1].1 > order[1].0 && order[1].1 - order[1].0 >= mw;
    (if keep0 {
        seq![order[0]]
    } else {
        Seq::empty()
    }) + (if keep1 {
        seq![order[1]]
    } else {
        Seq::empty()
    })
}

/// The first `k` stretches paired with their span.
pub open spec fn paired(ss: Seq<(usize, usize)>, sp: (usize, usize), k: int) -> Seq<((usize, usize), (usize, usize))>
    decreases k,
{
    if k <= 0 {
        Seq::empty()
    } else {
        paired(ss, sp, k - 1).push((ss[k - 1], sp))
    }
}

/// The clear stretches beside the cluster, down to the row limit.
pub open spec fn beside_stretches(q: RequestSpec, bs: (usize, usize)) -> Seq<(usize, usize)> {
    clear_runs(spec_blockers(bs, q.boxes, q.placed), below_row(q), q.row_limit as int)
}

/// The beside stretches of the first `k` beside spans, in order.
pub open spec fn beside_items(q: RequestSpec, spans: Seq<(usize, usize)>, k: int) -> Seq<((usize, usize), (usize, usize))>
    decreases k,
{
    if k <= 0 {
        Seq::empty()
    } else {
        let ss = beside_stretches(q, spans[k - 1]);
        beside_items(q, spans, k - 1) + paired(ss, spans[k - 1], ss.len() as int)
    }
}

/// The candidate for an `n`-row block in stretch `s` of span `bs`: as
/// near the target's top as the stretch allows.
pub open spec fn candidate(q: RequestSpec, s: (usize, usize), bs: (usize, usize), n: int) -> BesideCandidate {
    let ty = q.to_rect.y as int;
    let want = sat_sub(ty, n);
    let top = if want < s.0 {
        s.0 as int
    } else if want > s.1 - n {
        s.1 - n
    } else {
        want
    };
    let dist_ty = if top >= ty {
        top - ty
    } else {
        sat_sub(ty, sat_add(top, n))
    };
    let center = bs.0 + (bs.1 - bs.0) / 2;
    let dist_leg = if center >= leg_col(q) {
        center - leg_col(q)
    } else {
        leg_col(q) - center
    };
    BesideCandidate {
        rails: s.1 - s.0 >= sat_add(n, 2),
        dist_ty: dist_ty as usize,
        dist_leg: dist_leg as usize,
        block_top: top as usize,
        span: bs,
    }
}

/// Tier 3: the best candidate among the first `k` items (the first of
/// equals).
pub open spec fn best_beside(q: RequestSpec, items: Seq<((usize, usize), (usize, usize))>, n: int, k: int) -> Option<
    BesideCandidate,
>
    decreases k,
{
    if k <= 0 {
        None
    } else {
        let prev = best_beside(q, items, n, k - 1);
        let (s, bs) = items[k - 1];
        if s.1 - s.0 < n {
            prev
        } else {
            let c = candidate(q, s, bs, n);
            match prev {
                None => Some(c),
                Some(b) => if spec_better(b, c.rails, c.dist_ty as int, c.dist_leg as int) {
                    Some(c)
                } else {
                    prev
                },
            }
        }
    }
}

/// The tallest of the first `k` items (the first of equals): its height,
/// top row and span.
pub open spec fn tallest(items: Seq<((usize, usize), (usize, usize))>, k: int) -> Option<(int, usize, (usize, usize))>
    decreases k,
{
    if k <= 0 {
        None
    } else {
        let prev = tallest(items, k - 1);
        let (s, sp) = items[k - 1];
        let h = s.1 - s.0;
        match prev {
            None => Some((h, s.0, sp)),
            Some(w) => if h > w.0 {
                Some((h, s.0, sp))
            } else {
                prev
            },
        }
    }
}

/// Center column of a span.
pub open spec fn span_center(sp: (usize, usize)) -> int {
    sp.0 + (sp.1 - sp.0) / 2
}

/// Where the rider goes when its label wraps into `lines`.
pub open spec fn spec_place(q: RequestSpec, lines: Seq<Seq<char>>) -> RidingPlacement {
    let n = lines.len() as int;
    let (wrap_w, center_x) = ride_cols(q);
    let span = ride_span(q);
    match online_fit(q, n) {
        Some(s) => {
            let top = s.0 + sat_sub(s.1 - s.0, n) / 2;
            RidingPlacement {
                riding: RidingLabel { wrap_w: wrap_w as usize, center_x: center_x as usize, block_top: top as usize },
                bottom: sat_add(top, n) as usize,
                span,
            }
        },
        None => beside_place(q, lines),
    }
}

/// Tiers 3 and 4: beside the cluster, else the tallest stretch seen.
pub open spec fn beside_place(q: RequestSpec, lines: Seq<Seq<char>>) -> RidingPlacement {
    let n = lines.len() as int;
    let (wrap_w, center_x) = ride_cols(q);
    let span = ride_span(q);
    let spans = beside_spans(q, widest(lines) as int);
    let items = beside_items(q, spans, spans.len() as int);
    match best_beside(q, items, n, items.len() as int) {
        Some(b) => RidingPlacement {
            riding: RidingLabel {
                wrap_w: wrap_w as usize,
                center_x: span_center(b.span) as usize,
                block_top: b.block_top,
            },
            bottom: sat_add(b.block_top as int, n) as usize,
            span: b.span,
        },
        None => {
            let ss = online_stretches(q);
            let all = paired(ss, span, ss.len() as int) + items;
            match tallest(all, all.len() as int) {
                Some(w) => RidingPlacement {
                    riding: RidingLabel {
                        wrap_w: wrap_w as usize,
                        center_x: span_center(w.2) as usize,
                        block_top: w.1,
                    },
                    bottom: sat_add(w.1 as int, n) as usize,
                    span: w.2,
                },
                None => RidingPlacement {
                    riding: RidingLabel {
                        wrap_w: wrap_w as usize,
                        center_x: center_x as usize,
                        block_top: below_row(q) as usize,
                    },
                    bottom: sat_add(below_row(q), n) as usize,
                    span,
                },
            }
        },
    }
}

/// The request's leg and sibling columns stay in the machine range.
pub open spec fn request_fits(q: RequestSpec) -> bool {
    &&& leg_col(q) + 2 <= usize::MAX
    &&& nearest_among(far_cols(q.sibs), leg_col(q), q.sibs.len() as int) matches Some(d) ==> 2 * d <= usize::MAX
}


/// Widest of a list of lines.
pub fn widest_of_lines(lines: &Vec<String>) -> (r: usize)
    ensures
        r == widest(views(lines@)),
{
    let ghost ls = views(lines@);
    let mut best: usize = 0;
    let mut i: usize = 0;
    while i < lines.len()
        invariant
            i <= lines@.len(),
            ls == views(lines@),
            best == widest(ls.take(i as int)),
        decreases lines@.len() - i,
    {
        let w = seq_display_width(chars_of(lines[i].as_str()).as_slice());
        proof {
            assert(ls.take(i as int + 1).drop_last() =~= ls.take(i as int));
            assert(ls.take(i as int + 1).last() == lines@[i as int]@);
        }
        if w > best {
            best = w;
        }
        i = i + 1;
    }
    assert(ls.take(i as int) =~= ls);
    best
}

/// See `last_fit`.
fn last_fit_of(ss: &Vec<(usize, usize)>, need: usize) -> (r: Option<(usize, usize)>)
    ensures
        r == last_fit(ss@, need as int, ss@.len() as int),
        r matches Some(x) ==> x.0 <= x.1,
{
    let mut k: usize = ss.len();
    while k > 0
        invariant
            k <= ss@.len(),
            last_fit(ss@, need as int, ss@.len() as int) == last_fit(ss@, need as int, k as int),
        decreases k,
    {
        let (a, b) = ss[k - 1];
        if b >= a && b - a >= need {
            return Some((a, b));
        }
        k = k - 1;
    }
    None
}

/// `paired` as a list.
fn pair_with(out: &mut Vec<((usize, usize), (usize, usize))>, ss: &Vec<(usize, usize)>, sp: (usize, usize))
    ensures
        final(out)@ == old(out)@ + paired(ss@, sp, ss@.len() as int),
{
    let ghost o = out@;
    let mut k: usize = 0;
    while k < ss.len()
        invariant
            k <= ss@.len(),
            out@ == o + paired(ss@, sp, k as int),
        decreases ss@.len() - k,
    {
        out.push((ss[k], sp));
        k = k + 1;
    }
}

/// See `best_beside`.
fn best_of(q: Ghost<RequestSpec>, items: &Vec<((usize, usize), (usize, usize))>, n: usize, ty: usize, leg: usize) -> (r: Option<BesideCandidate>)
    requires
        ty == q@.to_rect.y,
        leg as int == leg_col(q@),
        forall|k: int| 0 <= k < items@.len() ==> (#[trigger] items@[k]).1.0 <= items@[k].1.1,
    ensures
        r == best_beside(q@, items@, n as int, items@.len() as int),
        r matches Some(c) ==> c.span.0 <= c.span.1,
{
    let mut best: Option<BesideCandidate> = None;
    let mut k: usize = 0;
    while k < items.len()
        invariant
            k <= items@.len(),
            ty == q@.to_rect.y,
            leg as int == leg_col(q@),
            forall|j: int| 0 <= j < items@.len() ==> (#[trigger] items@[j]).1.0 <= items@[j].1.1,
            best == best_beside(q@, items@, n as int, k as int),
            best matches Some(c) ==> c.span.0 <= c.span.1,
        decreases items@.len() - k,
    {
        let (st, bs) = items[k];
        if st.1 >= st.0 && st.1 - st.0 >= n {
            let want = ty.saturating_sub(n);
            let top = if want < st.0 {
                st.0
            } else if want > st.1 - n {
                st.1 - n
            } else {
                want
            };
            let dist_ty = if top >= ty {
                top - ty
            } else {
                ty.saturating_sub(top.saturating_add(n))
            };
            let center = bs.0 + (bs.1 - bs.0) / 2;
            let dist_leg = if center >= leg {
                center - leg
            } else {
                leg - center
            };
            let rails = st.1 - st.0 >= n.saturating_add(2);
            let c = BesideCandidate { rails, dist_ty, dist_leg, block_top: top, span: bs };
            assert(c == candidate(q@, st, bs, n as int));
            match best {
                None => {
                    best = Some(c);
                },
                Some(b) => {
                    if b.better(rails, dist_ty, dist_leg) {
                        best = Some(c);
                    }
                },
            }
        }
        k = k + 1;
    }
    best
}


/// See `tallest`.
fn tallest_of(items: &Vec<((usize, usize), (usize, usize))>) -> (r: Option<(usize, usize, (usize, usize))>)
    requires
        forall|k: int| 0 <= k < items@.len() ==> (#[trigger] items@[k]).0.0 <= items@[k].0.1,
        forall|k: int| 0 <= k < items@.len() ==> (#[trigger] items@[k]).1.0 <= items@[k].1.1,
    ensures
        r matches Some(x) ==> x.2.0 <= x.2.1,
        match tallest(items@, items@.len() as int) {
            Some(w) => r matches Some(x) && x.0 as int == w.0 && x.1 == w.1 && x.2 == w.2,
            None => r is None,
        },
{
    let mut best: Option<(usize, usize, (usize, usize))> = None;
    let mut k: usize = 0;
    while k < items.len()
        invariant
            k <= items@.len(),
            forall|j: int| 0 <= j < items@.len() ==> (#[trigger] items@[j]).0.0 <= items@[j].0.1,
            forall|j: int| 0 <= j < items@.len() ==> (#[trigger] items@[j]).1.0 <= items@[j].1.1,
            best matches Some(x) ==> x.2.0 <= x.2.1,
            match tallest(items@, k as int) {
                Some(w) => best matches Some(x) && x.0 as int == w.0 && x.1 == w.1 && x.2 == w.2,
                None => best is None,
            },
        decreases items@.len() - k,
    {
        let (st, sp) = items[k];
        let h = st.1 - st.0;
        match best {
            None => {
                best = Some((h, st.0, sp));
            },
            Some(w) => {
                if h > w.0 {
                    best = Some((h, st.0, sp));
                }
            },
        }
        k = k + 1;
    }
    best
}

/// Clear runs always run downward.
proof fn lemma_runs_ordered(bs: Seq<(usize, usize)>, lo: int, r: int)
    requires
        0 <= lo,
        r <= usize::MAX,
    ensures
        forall|k: int| 0 <= k < clear_runs(bs, lo, r).len() ==> (#[trigger] clear_runs(bs, lo, r)[k]).0 < clear_runs(bs, lo, r)[k].1,
    decreases r - lo,
{
    if r > lo {
        lemma_runs_ordered(bs, lo, r - 1);
        let prev = clear_runs(bs, lo, r - 1);
        let cur = clear_runs(bs, lo, r);
        assert forall|k: int| 0 <= k < cur.len() implies (#[trigger] cur[k]).0 < cur[k].1 by {
            if !row_blocked(bs, r - 1) && prev.len() > 0 && prev.last().1 == r - 1 {
                if k < prev.len() - 1 {
                    assert(cur[k] == prev[k]);
                } else {
                    assert(prev[prev.len() - 1].0 < prev[prev.len() - 1].1);
                }
            } else if !row_blocked(bs, r - 1) {
                if k < prev.len() {
                    assert(cur[k] == prev[k]);
                }
            }
        }
    }
}

/// Place one riding label (see the module docs for the ladder). The
/// placement is the one for the greedy wrapping (see `wraps_label`) of the label at the ladder's
/// width (see `spec_place`).
pub fn place_riding_label(req: &RidingRequest) -> (r: RidingPlacement)
    requires
        request_fits(req@),
    ensures
        exists|lines: Seq<Seq<char>>|
            #[trigger] wraps_label(lines, req@.label, ride_cols(req@).0) && r == spec_place(req@, lines),
{
    let ghost q = req@;
    let sy = req.from_rect.bottom();
    let ty = req.to_rect.y;
    let leg = req.from_rect.x.saturating_add(req.from_rect.w / 2);
    // The rider starts below every sibling's label block.
    let mut below: Option<usize> = None;
    let mut far: Vec<usize> = Vec::new();
    let mut k: usize = 0;
    while k < req.sibs.len()
        invariant
            q == req@,
            k <= q.sibs.len(),
            far@ == far_cols(q.sibs).take(k as int),
            match sibs_below(q.sibs, k as int) {
                Some(m) => below == Some(m as usize) && m <= usize::MAX,
                None => below is None,
            },
        decreases q.sibs.len() - k,
    {
        let (c, bb) = req.sibs[k];
        let b = bb.saturating_add(1);
        below = match below {
            Some(m) => Some(if m > b {
                m
            } else {
                b
            }),
            None => Some(b),
        };
        far.push(c);
        proof {
            assert(far_cols(q.sibs).take(k as int + 1) =~= far_cols(q.sibs).take(k as int).push(c));
        }
        k = k + 1;
    }
    assert(far@ =~= far_cols(q.sibs));
    let first_row = match below {
        Some(m) => m,
        None => sy.saturating_add(1),
    };
    assert(first_row as int == below_row(q));
    let avail = beside_line_label_avail(leg, req.user_width);
    let (wrap_w, center_x) = riding_placement_cols(far.as_slice(), leg, req.canvas_w, avail);
    let lines = wrap_entry(req.label, wrap_w);
    let ghost ls = views(lines@);
    let n = lines.len();
    let mw = widest_of_lines(&lines);
    let lo = center_x.saturating_sub(wrap_w / 2);
    let span = (lo, lo.saturating_add(wrap_w));
    assert(span == ride_span(q));
    // Tiers 1 and 2: on the leg, nearest the target.
    let blockers = blockers_overlapping(span, req.boxes, req.placed);
    let stretches = clear_stretches(first_row, ty, blockers.as_slice());
    let fit = match last_fit_of(&stretches, n.saturating_add(2)) {
        Some(s) => Some(s),
        None => last_fit_of(&stretches, n),
    };
    assert(fit == online_fit(q, n as int));
    if let Some((slo, shi)) = fit {
        let top = slo + (shi - slo).saturating_sub(n) / 2;
        proof {
            assert(wraps_label(ls, q.label, ride_cols(q).0));
        }
        return RidingPlacement {
            riding: RidingLabel { wrap_w, center_x, block_top: top },
            bottom: top.saturating_add(n),
            span,
        };
    }
    let r = place_beside(req, &lines, n, mw, first_row, span, wrap_w, center_x, leg, &stretches, Ghost(blockers@));
    proof {
        assert(wraps_label(ls, q.label, ride_cols(q).0));
    }
    r
}

/// Columns of the blocking cluster (see `cluster`).
fn cluster_of(req: &RidingRequest, first_row: usize, span: (usize, usize)) -> (r: (usize, usize))
    requires
        first_row as int == below_row(req@),
        span == ride_span(req@),
    ensures
        (r.0 as int, r.1 as int) == cluster(req@, req@.boxes.len() as int),
{
    let ghost q = req@;
    let ty = req.to_rect.y;
    let mut cl = req.to_rect.x;
    let mut cr = req.to_rect.right();
    let mut i: usize = 0;
    while i < req.boxes.len()
        invariant
            q == req@,
            i <= q.boxes.len(),
            span == ride_span(q),
            first_row as int == below_row(q),
            ty == q.to_rect.y,
            (cl as int, cr as int) == cluster(q, i as int),
        decreases q.boxes.len() - i,
    {
        let r = req.boxes[i];
        if r.y < ty && r.bottom() > first_row && r.right() > span.0 && r.x < span.1 {
            if r.x < cl {
                cl = r.x;
            }
            if r.right() > cr {
                cr = r.right();
            }
        }
        i = i + 1;
    }
    (cl, cr)
}

/// The usable spans beside the cluster (see `beside_spans`).
fn beside_spans_of(req: &RidingRequest, first_row: usize, span: (usize, usize), wrap_w: usize, mw: usize) -> (r: Vec<(usize, usize)>)
    requires
        first_row as int == below_row(req@),
        span == ride_span(req@),
        wrap_w as int == ride_cols(req@).0,
    ensures
        r@ == beside_spans(req@, mw as int),
        forall|t: int| 0 <= t < r@.len() ==> (#[trigger] r@[t]).0 <= r@[t].1,
{
    let (cl, cr) = cluster_of(req, first_row, span);
    let left_w = if cl < wrap_w {
        cl
    } else {
        wrap_w
    };
    let rroom = req.canvas_w.saturating_sub(cr);
    let right_w = if rroom < wrap_w {
        rroom
    } else {
        wrap_w
    };
    let left = (cl - left_w, cl);
    let right = (cr, cr.saturating_add(right_w));
    let (first, second) = if left_w >= right_w {
        (left, right)
    } else {
        (right, left)
    };
    let mut spans: Vec<(usize, usize)> = Vec::new();
    if first.1 > first.0 && first.1 - first.0 >= mw {
        spans.push(first);
    }
    if second.1 > second.0 && second.1 - second.0 >= mw {
        spans.push(second);
    }
    assert(spans@ =~= beside_spans(req@, mw as int));
    spans
}

/// The stretches beside the cluster, paired with their span (see
/// `beside_items`).
fn beside_items_of(req: &RidingRequest, spans: &Vec<(usize, usize)>, first_row: usize) -> (r: Vec<((usize, usize), (usize, usize))>)
    requires
        first_row as int == below_row(req@),
        forall|t: int| 0 <= t < spans@.len() ==> (#[trigger] spans@[t]).0 <= spans@[t].1,
    ensures
        r@ == beside_items(req@, spans@, spans@.len() as int),
        forall|t: int| 0 <= t < r@.len() ==> (#[trigger] r@[t]).0.0 < r@[t].0.1 && r@[t].1.0 <= r@[t].1.1,
{
    let ghost q = req@;
    let mut items: Vec<((usize, usize), (usize, usize))> = Vec::new();
    let mut j: usize = 0;
    while j < spans.len()
        invariant
            q == req@,
            j <= spans@.len(),
            first_row as int == below_row(q),
            items@ == beside_items(q, spans@, j as int),
        decreases spans@.len() - j,
    {
        let bs = spans[j];
        let bl = blockers_overlapping(bs, req.boxes, req.placed);
        let ss = clear_stretches(first_row, req.row_limit, bl.as_slice());
        pair_with(&mut items, &ss, bs);
        j = j + 1;
    }
    proof {
        lemma_items_ordered(q, spans@, spans@.len() as int);
    }
    items
}

/// Tier 4: the tallest stretch seen (see `tallest`).
fn tallest_placement(
    items: &Vec<((usize, usize), (usize, usize))>,
    stretches: &Vec<(usize, usize)>,
    span: (usize, usize),
    n: usize,
    wrap_w: usize,
    center_x: usize,
    first_row: usize,
) -> (r: RidingPlacement)
    requires
        forall|t: int| 0 <= t < items@.len() ==> (#[trigger] items@[t]).0.0 < items@[t].0.1 && items@[t].1.0 <= items@[t].1.1,
        forall|t: int| 0 <= t < stretches@.len() ==> (#[trigger] stretches@[t]).0 < stretches@[t].1,
        span.0 <= span.1,
    ensures
        ({
            let all = paired(stretches@, span, stretches@.len() as int) + items@;
            r == match tallest(all, all.len() as int) {
                Some(w) => RidingPlacement {
                    riding: RidingLabel { wrap_w, center_x: span_center(w.2) as usize, block_top: w.1 },
                    bottom: sat_add(w.1 as int, n as int) as usize,
                    span: w.2,
                },
                None => RidingPlacement {
                    riding: RidingLabel { wrap_w, center_x, block_top: first_row },
                    bottom: sat_add(first_row as int, n as int) as usize,
                    span,
                },
            }
        }),
{
    let mut all: Vec<((usize, usize), (usize, usize))> = Vec::new();
    pair_with(&mut all, stretches, span);
    let mut t: usize = 0;
    while t < items.len()
        invariant
            t <= items@.len(),
            all@ == paired(stretches@, span, stretches@.len() as int) + items@.take(t as int),
        decreases items@.len() - t,
    {
        all.push(items[t]);
        proof {
            assert(items@.take(t as int + 1) =~= items@.take(t as int).push(items@[t as int]));
        }
        t = t + 1;
    }
    assert(items@.take(t as int) =~= items@);
    proof {
        lemma_paired_ordered(stretches@, span, stretches@.len() as int);
        assert forall|u: int| 0 <= u < all@.len() implies (#[trigger] all@[u]).0.0 <= all@[u].0.1 && all@[u].1.0 <= all@[u].1.1 by {
            let np = paired(stretches@, span, stretches@.len() as int).len();
            if u >= np {
                assert(all@[u] == items@[u - np]);
            }
        }
    }
    match tallest_of(&all) {
        Some((_, top, sp)) => {
            let center = sp.0 + (sp.1 - sp.0) / 2;
            RidingPlacement {
                riding: RidingLabel { wrap_w, center_x: center, block_top: top },
                bottom: top.saturating_add(n),
                span: sp,
            }
        },
        None => RidingPlacement {
            riding: RidingLabel { wrap_w, center_x, block_top: first_row },
            bottom: first_row.saturating_add(n),
            span,
        },
    }
}

/// Tiers 3 and 4 of `place_riding_label` (see `beside_place`).
fn place_beside(
    req: &RidingRequest,
    lines: &Vec<String>,
    n: usize,
    mw: usize,
    first_row: usize,
    span: (usize, usize),
    wrap_w: usize,
    center_x: usize,
    leg: usize,
    stretches: &Vec<(usize, usize)>,
    Ghost(blk): Ghost<Seq<(usize, usize)>>,
) -> (r: RidingPlacement)
    requires
        n == lines@.len(),
        mw == widest(views(lines@)),
        first_row as int == below_row(req@),
        span == ride_span(req@),
        (wrap_w as int, center_x as int) == ride_cols(req@),
        leg as int == leg_col(req@),
        blk == spec_blockers(span, req@.boxes, req@.placed),
        stretches@ == clear_runs(blk, first_row as int, req@.to_rect.y as int),
        stretches@ == online_stretches(req@),
    ensures
        r == beside_place(req@, views(lines@)),
{
    let ghost q = req@;
    let ty = req.to_rect.y;
    let spans = beside_spans_of(req, first_row, span, wrap_w, mw);
    let items = beside_items_of(req, &spans, first_row);
    let best = best_of(Ghost(q), &items, n, ty, leg);
    if let Some(b) = best {
        let center = b.span.0 + (b.span.1 - b.span.0) / 2;
        return RidingPlacement {
            riding: RidingLabel { wrap_w, center_x: center, block_top: b.block_top },
            bottom: b.block_top.saturating_add(n),
            span: b.span,
        };
    }
    proof {
        lemma_runs_ordered(blk, first_row as int, ty as int);
    }
    tallest_placement(&items, stretches, span, n, wrap_w, center_x, first_row)
}

proof fn lemma_paired_ordered(ss: Seq<(usize, usize)>, sp: (usize, usize), k: int)
    requires
        0 <= k <= ss.len(),
        forall|j: int| 0 <= j < ss.len() ==> (#[trigger] ss[j]).0 < ss[j].1,
    ensures
        paired(ss, sp, k).len() == k,
        forall|t: int| 0 <= t < k ==> (#[trigger] paired(ss, sp, k)[t]) == (ss[t], sp),
    decreases k,
{
    if k > 0 {
        lemma_paired_ordered(ss, sp, k - 1);
    }
}

proof fn lemma_items_ordered(q: RequestSpec, spans: Seq<(usize, usize)>, k: int)
    requires
        0 <= k <= spans.len(),
        forall|t: int| 0 <= t < spans.len() ==> (#[trigger] spans[t]).0 <= spans[t].1,
        below_row(q) >= 0,
    ensures
        forall|t: int|
            0 <= t < beside_items(q, spans, k).len() ==> (#[trigger] beside_items(q, spans, k)[t]).0.0
                < beside_items(q, spans, k)[t].0.1 && beside_items(q, spans, k)[t].1.0 <= beside_items(
                q,
                spans,
                k,
            )[t].1.1,
    decreases k,
{
    if k > 0 {
        lemma_items_ordered(q, spans, k - 1);
        let ss = beside_stretches(q, spans[k - 1]);
        lemma_runs_ordered(spec_blockers(spans[k - 1], q.boxes, q.placed), below_row(q), q.row_limit as int);
        lemma_paired_ordered(ss, spans[k - 1], ss.len() as int);
        let prev = beside_items(q, spans, k - 1);
        let cur = beside_items(q, spans, k);
        assert forall|t: int| 0 <= t < cur.len() implies (#[trigger] cur[t]).0.0 < cur[t].0.1 && cur[t].1.0 <= cur[t].1.1 by {
            if t >= prev.len() {
                assert(cur[t] == paired(ss, spans[k - 1], ss.len() as int)[t - prev.len()]);
            } else {
                assert(cur[t] == prev[t]);
            }
        }
    }
}

} // verus!
