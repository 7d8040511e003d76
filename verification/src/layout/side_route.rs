//! Side-route geometry: the right-hand rail around every node.
//!
//! Back-edges, and forward edges whose every vertical-horizontal-vertical
//! corridor would pierce an obstacle, travel this rail. The obstacle
//! check and the drawing code read the same segments.

use vstd::prelude::*;
use crate::geom::{Anchor, Rect};
use crate::layout::routing::{
    path_intersects_any, segment_rect, small, snap_outside, spec_intersects_any,
    spec_vertical_flow_path, step, anchor_dir, vertical_flow_path, Segment,
};

verus! {

/// The rail segments with explicit leg rows (see
/// [`side_route_segments_at`]).
pub open spec fn spec_side_route_segments_at(
    src: Rect,
    tgt: Rect,
    rail_x: usize,
    exit_row: usize,
    entry_row: usize,
    jog_col: Option<usize>,
) -> Seq<Segment> {
    let src_right = src.right();
    let tgt_right = tgt.right();
    let entry_leg = if rail_x > tgt_right {
        seq![Segment::H { x: tgt_right, y: entry_row, len: (rail_x - tgt_right) as usize }]
    } else {
        Seq::empty()
    };
    match jog_col {
        Some(jog) => {
            let up_row = (src.y - 2) as usize;
            let start = src.cx();
            let first = if jog > start {
                seq![Segment::H { x: start, y: exit_row, len: (jog - start) as usize }]
            } else {
                Seq::empty()
            };
            let up = seq![Segment::V { x: jog, y: up_row, len: (exit_row - up_row + 1) as usize }];
            let across = if rail_x > jog {
                seq![Segment::H { x: jog, y: up_row, len: (rail_x - jog) as usize }]
            } else {
                Seq::empty()
            };
            let (lo, hi) = if up_row <= entry_row {
                (up_row, entry_row)
            } else {
                (entry_row, up_row)
            };
            first + up + across + seq![Segment::V { x: rail_x, y: lo, len: (hi - lo + 1) as usize }]
                + entry_leg
        },
        None => {
            let exit_leg = if rail_x > src_right {
                let start = if exit_row == src.cy() {
                    src_right
                } else {
                    src.cx()
                };
                seq![Segment::H { x: start, y: exit_row, len: (rail_x - start) as usize }]
            } else {
                Seq::empty()
            };
            let (lo, hi) = if exit_row <= entry_row {
                (exit_row, entry_row)
            } else {
                (entry_row, exit_row)
            };
            exit_leg + seq![Segment::V { x: rail_x, y: lo, len: (hi - lo + 1) as usize }] + entry_leg
        },
    }
}

/// The rail segments can be computed without leaving the machine range.
pub open spec fn side_route_ok(
    src: Rect,
    rail_x: usize,
    exit_row: usize,
    entry_row: usize,
    jog_col: Option<usize>,
) -> bool {
    &&& exit_row < usize::MAX
    &&& entry_row < usize::MAX
    &&& (jog_col is Some ==> src.y >= 2 && exit_row + 2 >= src.y)
}

/// Segments of the right side route with explicit leg rows: out of the
/// source's east side (or, for a detour row, from above its top vertex)
/// to the rail column, along the rail, into the target's east side. A
/// jog column reroutes the exit leg around a sibling's incoming arrow:
/// east on the detour row to the jog, up one row, then east to the rail.
pub fn side_route_segments_at(
    src: &Rect,
    tgt: &Rect,
    rail_x: usize,
    exit_row: usize,
    entry_row: usize,
    jog_col: Option<usize>,
) -> (r: Vec<Segment>)
    requires
        side_route_ok(*src, rail_x, exit_row, entry_row, jog_col),
    ensures
        r@ == spec_side_route_segments_at(*src, *tgt, rail_x, exit_row, entry_row, jog_col),
{
    let src_right = src.right();
    let tgt_right = tgt.right();
    let mut segs: Vec<Segment> = Vec::new();
    if let Some(jog) = jog_col {
        let up_row = src.y - 2;
        let start = src.cx();
        if jog > start {
            segs.push(Segment::H { x: start, y: exit_row, len: jog - start });
        }
        segs.push(Segment::V { x: jog, y: up_row, len: exit_row - up_row + 1 });
        if rail_x > jog {
            segs.push(Segment::H { x: jog, y: up_row, len: rail_x - jog });
        }
        let (lo, hi) = if up_row <= entry_row {
            (up_row, entry_row)
        } else {
            (entry_row, up_row)
        };
        segs.push(Segment::V { x: rail_x, y: lo, len: hi - lo + 1 });
        if rail_x > tgt_right {
            segs.push(Segment::H { x: tgt_right, y: entry_row, len: rail_x - tgt_right });
        }
        assert(segs@ =~= spec_side_route_segments_at(*src, *tgt, rail_x, exit_row, entry_row, jog_col));
        return segs;
    }
    if rail_x > src_right {
        let start = if exit_row == src.cy() {
            src_right
        } else {
            src.cx()
        };
        segs.push(Segment::H { x: start, y: exit_row, len: rail_x - start });
    }
    let (lo, hi) = if exit_row <= entry_row {
        (exit_row, entry_row)
    } else {
        (entry_row, exit_row)
    };
    segs.push(Segment::V { x: rail_x, y: lo, len: hi - lo + 1 });
    if rail_x > tgt_right {
        segs.push(Segment::H { x: tgt_right, y: entry_row, len: rail_x - tgt_right });
    }
    assert(segs@ =~= spec_side_route_segments_at(*src, *tgt, rail_x, exit_row, entry_row, jog_col));
    segs
}

/// Segments of the right side route with the natural leg rows (the
/// endpoints' center rows).
pub fn side_route_segments(src: &Rect, tgt: &Rect, rail_x: usize) -> (r: Vec<Segment>)
    requires
        src.cy() < usize::MAX,
        tgt.cy() < usize::MAX,
    ensures
        r@ == spec_side_route_segments_at(*src, *tgt, rail_x, src.cy(), tgt.cy(), None),
{
    side_route_segments_at(src, tgt, rail_x, src.cy(), tgt.cy(), None)
}

/// A side-route rendering plan: the rail column reserved for the edge,
/// the leg rows, and the back-edge readability directives.
#[derive(Clone, Debug)]
pub struct SideRoutePlan {
    pub rail_x: usize,
    pub exit_row: usize,
    pub entry_row: usize,
    /// Back-edge labels embed in the exit leg next to the source.
    pub label_near_source: bool,
    /// Columns of same-layer siblings' incoming arrowheads that exit
    /// legs and labels must dodge.
    pub sibling_arrows: Vec<usize>,
    /// Reroute the exit leg around a sibling's arrowhead.
    pub jog_col: Option<usize>,
}

impl SideRoutePlan {
    /// The plain side ride on `rail_x` with natural leg rows.
    pub fn natural(rail_x: usize, src: &Rect, tgt: &Rect) -> (r: SideRoutePlan)
        ensures
            r.rail_x == rail_x,
            r.exit_row == src.cy(),
            r.entry_row == tgt.cy(),
            !r.label_near_source,
            r.sibling_arrows@.len() == 0,
            r.jog_col is None,
    {
        SideRoutePlan {
            rail_x,
            exit_row: src.cy(),
            entry_row: tgt.cy(),
            label_near_source: false,
            sibling_arrows: Vec::new(),
            jog_col: None,
        }
    }
}

/// Smallest of `cols[..k]` strictly between `lo` and `hi`.
pub open spec fn min_between(cols: Seq<usize>, lo: int, hi: int, k: int) -> Option<int>
    decreases k,
{
    if k <= 0 {
        None
    } else {
        let rest = min_between(cols, lo, hi, k - 1);
        let c = cols[k - 1] as int;
        if lo < c && c < hi {
            match rest {
                Some(m) => Some(if c < m { c } else { m }),
                None => Some(c),
            }
        } else {
            rest
        }
    }
}

/// The jog column: two columns before the first sibling arrow east of
/// the source's top vertex, when the exit leg runs on the row just
/// above the source and that column is still east of the vertex.
pub open spec fn spec_exit_jog_col(src: Rect, rail_x: int, exit_row: int, cols: Seq<usize>) -> Option<int> {
    if src.y < 2 || exit_row + 1 != src.y {
        None
    } else {
        let start = src.cx() as int;
        match min_between(cols, start + 1, rail_x, cols.len() as int) {
            Some(first) => if first - 2 > start {
                Some(first - 2)
            } else {
                None
            },
            None => None,
        }
    }
}

proof fn lemma_min_between_range(cols: Seq<usize>, lo: int, hi: int, k: int)
    requires
        0 <= k <= cols.len(),
    ensures
        min_between(cols, lo, hi, k) matches Some(m) ==> lo < m < hi && m <= usize::MAX,
    decreases k,
{
    if k > 0 {
        lemma_min_between_range(cols, lo, hi, k - 1);
    }
}

/// The column where the exit leg jogs up one row to dodge the arrowhead
/// of a same-layer sibling's incoming edge (see [`spec_exit_jog_col`]).
pub fn side_route_exit_jog_col(
    src: &Rect,
    rail_x: usize,
    exit_row: usize,
    sibling_arrow_cols: &[usize],
) -> (r: Option<usize>)
    requires
        src.cx() < usize::MAX,
    ensures
        match r {
            Some(j) => spec_exit_jog_col(*src, rail_x as int, exit_row as int, sibling_arrow_cols@)
                == Some(j as int),
            None => spec_exit_jog_col(*src, rail_x as int, exit_row as int, sibling_arrow_cols@) is None,
        },
{
    if src.y < 2 || exit_row >= usize::MAX || exit_row + 1 != src.y {
        return None;
    }
    let start = src.cx();
    let ghost cols = sibling_arrow_cols@;
    let mut first: Option<usize> = None;
    let mut i: usize = 0;
    while i < sibling_arrow_cols.len()
        invariant
            i <= cols.len(),
            cols == sibling_arrow_cols@,
            start < usize::MAX,
            match first {
                Some(m) => min_between(cols, start + 1, rail_x as int, i as int) == Some(m as int),
                None => min_between(cols, start + 1, rail_x as int, i as int) is None,
            },
        decreases cols.len() - i,
    {
        let a = sibling_arrow_cols[i];
        if a > start + 1 && a < rail_x {
            first = match first {
                Some(m) => Some(if a < m { a } else { m }),
                None => Some(a),
            };
        }
        i = i + 1;
    }
    proof {
        lemma_min_between_range(cols, start + 1, rail_x as int, cols.len() as int);
    }
    match first {
        Some(f) => {
            let jog = f - 2;
            if jog > start {
                Some(jog)
            } else {
                None
            }
        },
        None => None,
    }
}

/// The rows a leg may detour to around `r`: the two rows above its top,
/// and the rows two and three below its exclusive bottom edge (the
/// bottom row itself holds the endpoint's own south arrowhead).
pub open spec fn detour_rows(r: Rect) -> Seq<usize> {
    let a = if r.y >= 1 { seq![(r.y - 1) as usize] } else { Seq::empty() };
    let b = seq![(r.bottom() + 1) as usize];
    let c = if r.y >= 2 { seq![(r.y - 2) as usize] } else { Seq::empty() };
    let d = seq![(r.bottom() + 2) as usize];
    a + b + c + d
}

/// A leg from column `x` on row `y` east to the rail is clear.
pub open spec fn leg_clear(x: int, y: usize, avoid: Seq<Rect>, rail_x: int) -> bool {
    rail_x <= x || !spec_intersects_any(seq![Segment::H { x: x as usize, y, len: (rail_x - x) as usize }], avoid)
}

/// First row of `rows[k..]` whose leg is clear.
pub open spec fn first_clear(rows: Seq<usize>, x: int, avoid: Seq<Rect>, rail_x: int, k: int) -> Option<usize>
    decreases rows.len() - k,
{
    if k >= rows.len() || k < 0 {
        None
    } else if leg_clear(x, rows[k], avoid, rail_x) {
        Some(rows[k])
    } else {
        first_clear(rows, x, avoid, rail_x, k + 1)
    }
}

/// The row of one side-route leg: the natural row when its eastward
/// span is clear, else the first clear detour row, else the natural
/// row (the line then runs behind the obstacle; the edge is never
/// dropped).
pub open spec fn spec_leg_row(
    natural_row: usize,
    natural_x: int,
    detour_x: int,
    rows: Seq<usize>,
    avoid: Seq<Rect>,
    rail_x: int,
) -> usize {
    if leg_clear(natural_x, natural_row, avoid, rail_x) {
        natural_row
    } else {
        match first_clear(rows, detour_x, avoid, rail_x, 0) {
            Some(r) => r,
            None => natural_row,
        }
    }
}

fn clear_leg(x: usize, y: usize, avoid: &[Rect], rail_x: usize) -> (r: bool)
    ensures
        r == leg_clear(x as int, y, avoid@, rail_x as int),
{
    if rail_x <= x {
        return true;
    }
    let len = rail_x - x;
    let seg = vec![Segment::H { x, y, len }];
    assert(seg@ =~= seq![Segment::H { x, y, len: (rail_x - x) as usize }]);
    !path_intersects_any(seg.as_slice(), avoid)
}

fn leg_row(
    natural_row: usize,
    natural_x: usize,
    detour_x: usize,
    detour_rows: &Vec<usize>,
    avoid: &[Rect],
    rail_x: usize,
) -> (r: usize)
    ensures
        r == spec_leg_row(natural_row, natural_x as int, detour_x as int, detour_rows@, avoid@, rail_x as int),
{
    if clear_leg(natural_x, natural_row, avoid, rail_x) {
        return natural_row;
    }
    let mut k: usize = 0;
    while k < detour_rows.len()
        invariant
            k <= detour_rows@.len(),
            !leg_clear(natural_x as int, natural_row, avoid@, rail_x as int),
            first_clear(detour_rows@, detour_x as int, avoid@, rail_x as int, 0) == first_clear(
                detour_rows@,
                detour_x as int,
                avoid@,
                rail_x as int,
                k as int,
            ),
        decreases detour_rows@.len() - k,
    {
        if clear_leg(detour_x, detour_rows[k], avoid, rail_x) {
            return detour_rows[k];
        }
        k = k + 1;
    }
    natural_row
}

fn detours(r: &Rect) -> (v: Vec<usize>)
    requires
        r.bottom() + 2 <= usize::MAX,
    ensures
        v@ == detour_rows(*r),
{
    let mut v: Vec<usize> = Vec::new();
    if r.y >= 1 {
        v.push(r.y - 1);
    }
    v.push(r.bottom() + 1);
    if r.y >= 2 {
        v.push(r.y - 2);
    }
    v.push(r.bottom() + 2);
    assert(v@ =~= detour_rows(*r));
    v
}

/// Exit and entry rows for a side route whose horizontal legs must
/// clear every avoidance rect: each leg keeps its endpoint's center row
/// when the eastward span there is clear, else shifts to the nearest
/// clear row just outside the endpoint, above first. `tgt_flex` is
/// false for diamond targets, whose east side can only receive the
/// arrow on the center row.
pub fn side_route_leg_rows(src: &Rect, tgt: &Rect, avoid: &[Rect], rail_x: usize, tgt_flex: bool) -> (r: (
    usize,
    usize,
))
    requires
        src.bottom() + 2 <= usize::MAX,
        tgt.bottom() + 2 <= usize::MAX,
    ensures
        r.0 == spec_leg_row(src.cy(), src.right() as int, src.cx() as int, detour_rows(*src), avoid@, rail_x as int),
        r.1 == spec_leg_row(
            tgt.cy(),
            tgt.right() as int,
            tgt.right() as int,
            if tgt_flex { detour_rows(*tgt) } else { Seq::empty() },
            avoid@,
            rail_x as int,
        ),
{
    let sd = detours(src);
    let exit_row = leg_row(src.cy(), src.right(), src.cx(), &sd, avoid, rail_x);
    let td: Vec<usize> = if tgt_flex {
        detours(tgt)
    } else {
        Vec::new()
    };
    let entry_row = leg_row(tgt.cy(), tgt.right(), tgt.right(), &td, avoid, rail_x);
    (exit_row, entry_row)
}

/// A downward forward edge (South anchor to North anchor) cannot take
/// any vertical-horizontal-vertical path without piercing an avoidance
/// rect, while the right side route at `rail_x` is clean.
pub open spec fn spec_forward_edge_side_routed(src: Rect, tgt: Rect, avoid: Seq<Rect>, rail_x: usize) -> bool {
    let s = (
        step(src.anchor(Anchor::South).0 as int, anchor_dir(Anchor::South).0) as usize,
        step(src.anchor(Anchor::South).1 as int, anchor_dir(Anchor::South).1) as usize,
    );
    let t = (
        step(tgt.anchor(Anchor::North).0 as int, anchor_dir(Anchor::North).0) as usize,
        step(tgt.anchor(Anchor::North).1 as int, anchor_dir(Anchor::North).1) as usize,
    );
    spec_intersects_any(spec_vertical_flow_path(s, t, src, tgt, avoid), avoid) && !spec_intersects_any(
        spec_side_route_segments_at(src, tgt, rail_x, src.cy(), tgt.cy(), None),
        avoid,
    )
}

/// True when a downward forward edge must take the side route (see
/// [`spec_forward_edge_side_routed`]).
pub fn forward_edge_side_routed(src: &Rect, tgt: &Rect, avoid: &[Rect], rail_x: usize) -> (r: bool)
    requires
        small(src.bottom() as int + 1),
        small(tgt.bottom() as int + 1),
        small(src.right() as int + 1),
        small(tgt.right() as int + 1),
    ensures
        r == spec_forward_edge_side_routed(*src, *tgt, avoid@, rail_x),
{
    let source = snap_outside(*src, Anchor::South);
    let target = snap_outside(*tgt, Anchor::North);
    let vertical = vertical_flow_path(source, target, src, tgt, avoid);
    if !path_intersects_any(vertical.as_slice(), avoid) {
        return false;
    }
    let side = side_route_segments(src, tgt, rail_x);
    !path_intersects_any(side.as_slice(), avoid)
}

} // verus!
