//! Riding labels of a state diagram, planned once per vertical gap: an
//! aligned edge (no corridor) with a label, in a gap that also carries a
//! corridor edge, rides its own leg beside the fork instead of sharing
//! the sibling's corridor row. Each rider gets a wrap width and center
//! column clear of the gap's junction and leg columns, and riders whose
//! blocks overlap are stacked.

use vstd::prelude::*;
use crate::diagrams::arrow::sat_add;
use crate::diagrams::state::label_rows::{find_lay, gap_key, lay_rect, lemma_lay_index_range, Lay};
use crate::diagrams::state::layout::{lay_view, lay_views, StateLayout};
use crate::diagrams::state::types::Transition;
use crate::layout::riding::{
    allocate_riding_rows, col_dist, nearest_among, riding_demand, riding_offset, riding_placement_cols,
    spec_riding_placement, total_lines, RidingCandidate,
};
use crate::layout::routing::sat_sub;
use crate::text::{greedy_wrap, widest, wrap_label};

verus! {

/// The shared geometry of one transition: the center columns of its two
/// ends, the columns its corridor runs between and its width (0 for an
/// aligned edge whose ends share a column), the width its label may
/// take, whether its ends sit in one layer, the column its label
/// centers on (on its own row and when stacked above it), and whether
/// the label is held inside the corridor.
#[derive(Clone, Copy, Debug, PartialEq, Eq, Structural)]
pub struct TransGeom {
    pub from_cx: usize,
    pub to_cx: usize,
    pub left_x: usize,
    pub right_x: usize,
    pub corridor_w: usize,
    pub avail: usize,
    pub same_layer: bool,
    pub base_x: usize,
    pub stacked_base_x: usize,
    pub embed: bool,
}

/// One riding label's plan: its transition, the width it wraps to and
/// the column its block centers on, the block's column span (half
/// open) and line count, its row offset when stacked with overlapping
/// riders (`None` when clear of every other), and whether the edge runs
/// downward.
#[derive(Clone, Copy, Debug)]
pub struct RiderPlan {
    pub idx: usize,
    pub wrap_w: usize,
    pub center_x: usize,
    pub span: (usize, usize),
    pub lines: usize,
    pub row_offset: Option<usize>,
    pub forward: bool,
}

/// The riders of one gap with the rows their stacks need below the fork
/// (downward riders) and above it (upward riders).
#[derive(Debug)]
pub struct GapRiders {
    pub below_lines: usize,
    pub above_lines: usize,
    pub riders: Vec<RiderPlan>,
}

/// The gap of transition `t` as (upper row, lower row): none for a
/// self-transition or an end that is not placed.
pub open spec fn gap_of(ls: Seq<Lay>, t: Transition) -> Option<(usize, usize)> {
    if t.from@ == t.to@ {
        None
    } else {
        match (lay_rect(ls, t.from@), lay_rect(ls, t.to@)) {
            (Some(f), Some(g)) => Some((gap_key(f, g).top, gap_key(f, g).bottom)),
            _ => None,
        }
    }
}

/// The corridor junction columns of gap `key` among the first `k`
/// transitions: both ends of every corridor edge.
pub open spec fn junction_cols(ts: Seq<Transition>, ls: Seq<Lay>, gs: Seq<TransGeom>, key: (usize, usize), k: int) -> Seq<usize>
    decreases k,
{
    if k <= 0 {
        Seq::empty()
    } else {
        let prev = junction_cols(ts, ls, gs, key, k - 1);
        if gap_of(ls, ts[k - 1]) == Some(key) && gs[k - 1].corridor_w > 0 {
            prev.push(gs[k - 1].left_x).push(gs[k - 1].right_x)
        } else {
            prev
        }
    }
}

/// The leg columns of the aligned edges of gap `key` among the first
/// `k` transitions.
pub open spec fn leg_cols(ts: Seq<Transition>, ls: Seq<Lay>, gs: Seq<TransGeom>, key: (usize, usize), k: int) -> Seq<usize>
    decreases k,
{
    if k <= 0 {
        Seq::empty()
    } else {
        let prev = leg_cols(ts, ls, gs, key, k - 1);
        if gap_of(ls, ts[k - 1]) == Some(key) && gs[k - 1].corridor_w == 0 {
            prev.push(gs[k - 1].to_cx)
        } else {
            prev
        }
    }
}

/// Transition `i` rides its leg: a labelled aligned edge whose gap has a
/// corridor edge too.
pub open spec fn is_rider(ts: Seq<Transition>, ls: Seq<Lay>, gs: Seq<TransGeom>, i: int) -> bool {
    &&& ts[i].label is Some
    &&& gap_of(ls, ts[i]) is Some
    &&& gs[i].corridor_w == 0
    &&& junction_cols(ts, ls, gs, gap_of(ls, ts[i])->0, ts.len() as int).len() > 0
}

/// The plan of rider `i` before stacking: wrap width and center column
/// from the riding placement clear of its gap's junction and leg
/// columns (the placement looks only at which columns occur, not at
/// their order or repeats), and its label wrapped there.
pub open spec fn base_plan(ts: Seq<Transition>, ls: Seq<Lay>, gs: Seq<TransGeom>, w: int, i: int) -> RiderPlan {
    let key = gap_of(ls, ts[i])->0;
    let n = ts.len() as int;
    let avoid = junction_cols(ts, ls, gs, key, n) + leg_cols(ts, ls, gs, key, n);
    let (ww, cx) = spec_riding_placement(avoid, gs[i].to_cx as int, w, gs[i].avail as int);
    let lines = greedy_wrap(ts[i].label->0@, if ww < 2 { 2 } else { ww });
    let mw = widest(lines) as int;
    let lo = sat_sub(cx, mw / 2);
    RiderPlan {
        idx: i as usize,
        wrap_w: ww as usize,
        center_x: cx as usize,
        span: (lo as usize, sat_add(lo, mw) as usize),
        lines: lines.len() as usize,
        row_offset: None,
        forward: lay_rect(ls, ts[i].from@)->0.y < lay_rect(ls, ts[i].to@)->0.y,
    }
}


/// Every column of the geometry is far from the machine range.
pub open spec fn geoms_small(gs: Seq<TransGeom>) -> bool {
    forall|i: int| 0 <= i < gs.len() ==> {
        &&& (#[trigger] gs[i]).from_cx <= usize::MAX / 4
        &&& gs[i].to_cx <= usize::MAX / 4
        &&& gs[i].left_x <= usize::MAX / 4
        &&& gs[i].right_x <= usize::MAX / 4
    }
}

proof fn lemma_nearest_bound(cols: Seq<usize>, ride: int, k: int, b: int)
    requires
        0 <= k <= cols.len(),
        0 <= ride <= b,
        forall|i: int| 0 <= i < cols.len() ==> #[trigger] cols[i] <= b,
    ensures
        nearest_among(cols, ride, k) matches Some(d) ==> 0 <= d <= b,
    decreases k,
{
    if k > 0 {
        lemma_nearest_bound(cols, ride, k - 1, b);
        assert(cols[k - 1] <= b);
    }
}

/// The gap of `t` and whether it runs downward (see [`gap_of`]).
fn gap_of_exec(layouts: &[StateLayout], t: &Transition) -> (r: Option<(usize, usize, bool)>)
    ensures
        match r {
            Some((a, b, fwd)) => gap_of(lay_views(layouts@), *t) == Some((a, b)) && fwd == (lay_rect(lay_views(layouts@), t.from@)->0.y
                < lay_rect(lay_views(layouts@), t.to@)->0.y),
            None => gap_of(lay_views(layouts@), *t) is None,
        },
{
    let ghost ls = lay_views(layouts@);
    if crate::diagrams::state::label_rows::str_eq(t.from.as_str(), t.to.as_str()) {
        return None;
    }
    let fi = find_lay(layouts, t.from.as_str());
    let ti = find_lay(layouts, t.to.as_str());
    proof {
        lemma_lay_index_range(ls, t.from@, ls.len() as int);
        lemma_lay_index_range(ls, t.to@, ls.len() as int);
    }
    match (fi, ti) {
        (Some(a), Some(b)) => {
            let f = layouts[a].rect;
            let g = layouts[b].rect;
            assert(ls[a as int] == lay_view(layouts@[a as int]));
            assert(ls[b as int] == lay_view(layouts@[b as int]));
            if f.y < g.y {
                Some((f.y, g.y, true))
            } else {
                Some((g.y, f.y, false))
            }
        },
        _ => None,
    }
}

/// The junction and leg columns of gap `key`, junctions first.
fn avoid_cols(transitions: &[Transition], layouts: &[StateLayout], geoms: &[TransGeom], key: (usize, usize)) -> (r: (Vec<usize>, usize))
    requires
        geoms@.len() == transitions@.len(),
    ensures
        r.0@ == junction_cols(transitions@, lay_views(layouts@), geoms@, key, transitions@.len() as int) + leg_cols(
            transitions@,
            lay_views(layouts@),
            geoms@,
            key,
            transitions@.len() as int,
        ),
        r.1 == junction_cols(transitions@, lay_views(layouts@), geoms@, key, transitions@.len() as int).len(),
{
    let ghost ls = lay_views(layouts@);
    let mut junctions: Vec<usize> = Vec::new();
    let mut legs: Vec<usize> = Vec::new();
    let mut k: usize = 0;
    while k < transitions.len()
        invariant
            k <= transitions@.len(),
            geoms@.len() == transitions@.len(),
            ls == lay_views(layouts@),
            junctions@ == junction_cols(transitions@, ls, geoms@, key, k as int),
            legs@ == leg_cols(transitions@, ls, geoms@, key, k as int),
        decreases transitions@.len() - k,
    {
        match gap_of_exec(layouts, &transitions[k]) {
            Some((a, b, _)) => {
                if a == key.0 && b == key.1 {
                    let g = geoms[k];
                    if g.corridor_w > 0 {
                        junctions.push(g.left_x);
                        junctions.push(g.right_x);
                    } else {
                        legs.push(g.to_cx);
                    }
                }
            },
            None => {},
        }
        k = k + 1;
    }
    let nj = junctions.len();
    let ghost j0 = junctions@;
    junctions.append(&mut legs);
    (junctions, nj)
}

/// The plan of transition `i` before stacking, when it rides (see
/// [`base_plan`]).
fn plan_of(transitions: &[Transition], layouts: &[StateLayout], geoms: &[TransGeom], width: usize, i: usize) -> (r: Option<RiderPlan>)
    requires
        geoms@.len() == transitions@.len(),
        geoms_small(geoms@),
        i < transitions@.len(),
    ensures
        r is Some <==> is_rider(transitions@, lay_views(layouts@), geoms@, i as int),
        r matches Some(p) ==> p == base_plan(transitions@, lay_views(layouts@), geoms@, width as int, i as int),
{
    let ghost ls = lay_views(layouts@);
    let t = &transitions[i];
    let label = match &t.label {
        Some(l) => l,
        None => {
            return None;
        },
    };
    let (a, b, fwd) = match gap_of_exec(layouts, t) {
        Some(x) => x,
        None => {
            return None;
        },
    };
    let g = geoms[i];
    if g.corridor_w != 0 {
        return None;
    }
    let (avoid, nj) = avoid_cols(transitions, layouts, geoms, (a, b));
    if nj == 0 {
        return None;
    }
    proof {
        let key = (a, b);
        let n = transitions@.len() as int;
        assert forall|q: int| 0 <= q < avoid@.len() implies #[trigger] avoid@[q] <= usize::MAX / 4 by {
            lemma_cols_small(transitions@, ls, geoms@, key, n);
            let jc = junction_cols(transitions@, ls, geoms@, key, n);
            if q < jc.len() {
                assert(avoid@[q] == jc[q]);
            } else {
                assert(avoid@[q] == leg_cols(transitions@, ls, geoms@, key, n)[q - jc.len()]);
            }
        }
        assert(g.to_cx <= usize::MAX / 4);
        lemma_nearest_bound(avoid@, g.to_cx as int, avoid@.len() as int, (usize::MAX / 4) as int);
    }
    let (ww, cx) = riding_placement_cols(avoid.as_slice(), g.to_cx, width, g.avail);
    let wl = wrap_label(label.as_str(), ww);
    let mw = wl.max_width;
    let lo = cx.saturating_sub(mw / 2);
    Some(RiderPlan {
        idx: i,
        wrap_w: ww,
        center_x: cx,
        span: (lo, lo.saturating_add(mw)),
        lines: wl.line_count,
        row_offset: None,
        forward: fwd,
    })
}

proof fn lemma_cols_small(ts: Seq<Transition>, ls: Seq<Lay>, gs: Seq<TransGeom>, key: (usize, usize), k: int)
    requires
        0 <= k <= ts.len(),
        gs.len() == ts.len(),
        geoms_small(gs),
    ensures
        forall|q: int| 0 <= q < junction_cols(ts, ls, gs, key, k).len() ==> #[trigger] junction_cols(ts, ls, gs, key, k)[q] <= usize::MAX / 4,
        forall|q: int| 0 <= q < leg_cols(ts, ls, gs, key, k).len() ==> #[trigger] leg_cols(ts, ls, gs, key, k)[q] <= usize::MAX / 4,
    decreases k,
{
    if k > 0 {
        lemma_cols_small(ts, ls, gs, key, k - 1);
        let g = gs[k - 1];
        assert(g.left_x <= usize::MAX / 4 && g.right_x <= usize::MAX / 4 && g.to_cx <= usize::MAX / 4);
        let pj = junction_cols(ts, ls, gs, key, k - 1);
        let cj = junction_cols(ts, ls, gs, key, k);
        assert forall|q: int| 0 <= q < cj.len() implies #[trigger] cj[q] <= usize::MAX / 4 by {
            if q < pj.len() {
                assert(pj[q] <= usize::MAX / 4);
            }
        }
        let pl = leg_cols(ts, ls, gs, key, k - 1);
        let cl = leg_cols(ts, ls, gs, key, k);
        assert forall|q: int| 0 <= q < cl.len() implies #[trigger] cl[q] <= usize::MAX / 4 by {
            if q < pl.len() {
                assert(pl[q] <= usize::MAX / 4);
            }
        }
    }
}


// ---------------------------------------------------------------------
// Grouping by gap and stacking
// ---------------------------------------------------------------------

/// The gaps with riders among the first `k` transitions, in the order
/// of their first rider.
pub open spec fn rider_keys(ts: Seq<Transition>, ls: Seq<Lay>, gs: Seq<TransGeom>, k: int) -> Seq<(usize, usize)>
    decreases k,
{
    if k <= 0 {
        Seq::empty()
    } else {
        let prev = rider_keys(ts, ls, gs, k - 1);
        if is_rider(ts, ls, gs, k - 1) && !prev.contains(gap_of(ls, ts[k - 1])->0) {
            prev.push(gap_of(ls, ts[k - 1])->0)
        } else {
            prev
        }
    }
}

/// The riders of gap `key` among the first `k` transitions, in order.
pub open spec fn gap_members(ts: Seq<Transition>, ls: Seq<Lay>, gs: Seq<TransGeom>, key: (usize, usize), k: int) -> Seq<int>
    decreases k,
{
    if k <= 0 {
        Seq::empty()
    } else {
        let prev = gap_members(ts, ls, gs, key, k - 1);
        if is_rider(ts, ls, gs, k - 1) && gap_of(ls, ts[k - 1]) == Some(key) {
            prev.push(k - 1)
        } else {
            prev
        }
    }
}

/// The block of a rider as a stacking candidate.
pub open spec fn cand_of(p: RiderPlan) -> RidingCandidate {
    RidingCandidate { span_lo: p.span.0, span_hi: p.span.1, lines: p.lines }
}

/// The candidates of the first `k` riders running downward (`fwd`) or
/// upward.
pub open spec fn half_cands(plans: Seq<RiderPlan>, fwd: bool, k: int) -> Seq<RidingCandidate>
    decreases k,
{
    if k <= 0 {
        Seq::empty()
    } else {
        let prev = half_cands(plans, fwd, k - 1);
        if plans[k - 1].forward == fwd {
            prev.push(cand_of(plans[k - 1]))
        } else {
            prev
        }
    }
}

/// An offset as a column count.
pub open spec fn opt_usize(o: Option<int>) -> Option<usize> {
    match o {
        Some(v) => Some(v as usize),
        None => None,
    }
}

/// The row offset of rider `j` among the riders of its half: stacked
/// below the overlapping riders before it, none when it overlaps no
/// other (and none at all should the half's line count pass the machine
/// range).
pub open spec fn offset_of(plans: Seq<RiderPlan>, j: int) -> Option<usize> {
    let fwd = plans[j].forward;
    let c = half_cands(plans, fwd, plans.len() as int);
    if total_lines(c) <= usize::MAX {
        opt_usize(riding_offset(c, half_cands(plans, fwd, j).len() as int))
    } else {
        None
    }
}

/// The rows the stacked riders of one half need.
pub open spec fn half_demand(plans: Seq<RiderPlan>, fwd: bool) -> usize {
    let c = half_cands(plans, fwd, plans.len() as int);
    if total_lines(c) <= usize::MAX {
        riding_demand(c, c.len() as int) as usize
    } else {
        0
    }
}

/// The riders of one gap with their row offsets, and the demands of the
/// two halves.
pub open spec fn gap_group(plans: Seq<RiderPlan>) -> (usize, usize, Seq<RiderPlan>) {
    (
        half_demand(plans, true),
        half_demand(plans, false),
        Seq::new(plans.len(), |j: int| RiderPlan { row_offset: offset_of(plans, j), ..plans[j] }),
    )
}

/// Every gap's riding labels, gaps in the order of their first rider.
pub open spec fn spec_gap_riders(ts: Seq<Transition>, ls: Seq<Lay>, gs: Seq<TransGeom>, w: int) -> Seq<((usize, usize), (usize, usize, Seq<RiderPlan>))> {
    let keys = rider_keys(ts, ls, gs, ts.len() as int);
    Seq::new(
        keys.len(),
        |g: int| {
            let ms = gap_members(ts, ls, gs, keys[g], ts.len() as int);
            (keys[g], gap_group(Seq::new(ms.len(), |j: int| base_plan(ts, ls, gs, w, ms[j]))))
        },
    )
}

/// The key of group `g` of the riding plan.
pub open spec fn group_key(ts: Seq<Transition>, ls: Seq<Lay>, gs: Seq<TransGeom>, w: int, g: int) -> (usize, usize) {
    spec_gap_riders(ts, ls, gs, w)[g].0
}

/// The rider plans of group `g` of the riding plan.
pub open spec fn group_plans(ts: Seq<Transition>, ls: Seq<Lay>, gs: Seq<TransGeom>, w: int, g: int) -> Seq<RiderPlan> {
    spec_gap_riders(ts, ls, gs, w)[g].1.2
}

proof fn lemma_gap_members(ts: Seq<Transition>, ls: Seq<Lay>, gs: Seq<TransGeom>, key: (usize, usize), k: int)
    requires
        0 <= k <= ts.len(),
    ensures
        forall|j: int|
            0 <= j < gap_members(ts, ls, gs, key, k).len() ==> 0 <= #[trigger] gap_members(ts, ls, gs, key, k)[j] < k
                && is_rider(ts, ls, gs, gap_members(ts, ls, gs, key, k)[j]) && gap_of(
                ls,
                ts[gap_members(ts, ls, gs, key, k)[j]],
            ) == Some(key),
        forall|a: int, b: int|
            0 <= a < b < gap_members(ts, ls, gs, key, k).len() ==> #[trigger] gap_members(ts, ls, gs, key, k)[a]
                < #[trigger] gap_members(ts, ls, gs, key, k)[b],
        forall|i: int|
            0 <= i < k && #[trigger] is_rider(ts, ls, gs, i) && gap_of(ls, ts[i]) == Some(key) ==> gap_members(
                ts,
                ls,
                gs,
                key,
                k,
            ).contains(i),
    decreases k,
{
    if k > 0 {
        lemma_gap_members(ts, ls, gs, key, k - 1);
        let prev = gap_members(ts, ls, gs, key, k - 1);
        let m = gap_members(ts, ls, gs, key, k);
        if is_rider(ts, ls, gs, k - 1) && gap_of(ls, ts[k - 1]) == Some(key) {
            assert(m == prev.push(k - 1));
            assert forall|i: int| 0 <= i < k && #[trigger] is_rider(ts, ls, gs, i) && gap_of(ls, ts[i]) == Some(key) implies m.contains(i) by {
                if i < k - 1 {
                    assert(prev.contains(i));
                    let j = choose|j: int| 0 <= j < prev.len() && prev[j] == i;
                    assert(m[j] == i);
                } else {
                    assert(m[prev.len() as int] == i);
                }
            }
            assert forall|j: int| 0 <= j < m.len() implies 0 <= #[trigger] m[j] < k && is_rider(ts, ls, gs, m[j]) && gap_of(ls, ts[m[j]]) == Some(key) by {
                if j < prev.len() {
                    assert(m[j] == prev[j]);
                }
            }
            assert forall|a: int, b: int| 0 <= a < b < m.len() implies #[trigger] m[a] < #[trigger] m[b] by {
                assert(m[a] == prev[a]);
                if b < prev.len() {
                    assert(m[b] == prev[b]);
                }
            }
        } else {
            assert(m == prev);
            assert forall|i: int| 0 <= i < k && #[trigger] is_rider(ts, ls, gs, i) && gap_of(ls, ts[i]) == Some(key) implies m.contains(i) by {
                assert(i < k - 1);
            }
        }
    }
}

proof fn lemma_rider_keys(ts: Seq<Transition>, ls: Seq<Lay>, gs: Seq<TransGeom>, k: int)
    requires
        0 <= k <= ts.len(),
    ensures
        forall|i: int|
            0 <= i < k && #[trigger] is_rider(ts, ls, gs, i) ==> rider_keys(ts, ls, gs, k).contains(
                gap_of(ls, ts[i])->0,
            ),
    decreases k,
{
    if k > 0 {
        lemma_rider_keys(ts, ls, gs, k - 1);
        let prev = rider_keys(ts, ls, gs, k - 1);
        let r = rider_keys(ts, ls, gs, k);
        assert forall|i: int| 0 <= i < k && #[trigger] is_rider(ts, ls, gs, i) implies r.contains(gap_of(ls, ts[i])->0) by {
            let key = gap_of(ls, ts[i])->0;
            if i < k - 1 {
                assert(prev.contains(key));
                if r != prev {
                    assert(r == prev.push(gap_of(ls, ts[k - 1])->0));
                    let j = choose|j: int| 0 <= j < prev.len() && prev[j] == key;
                    assert(r[j] == key);
                }
            } else if !prev.contains(key) {
                assert(r == prev.push(key));
                assert(r[prev.len() as int] == key);
            }
        }
    }
}

proof fn lemma_group(ts: Seq<Transition>, ls: Seq<Lay>, gs: Seq<TransGeom>, w: int, g: int)
    requires
        ts.len() <= usize::MAX,
        0 <= g < rider_keys(ts, ls, gs, ts.len() as int).len(),
    ensures
        spec_gap_riders(ts, ls, gs, w).len() == rider_keys(ts, ls, gs, ts.len() as int).len(),
        group_key(ts, ls, gs, w, g) == rider_keys(ts, ls, gs, ts.len() as int)[g],
        group_plans(ts, ls, gs, w, g).len() == gap_members(
            ts,
            ls,
            gs,
            rider_keys(ts, ls, gs, ts.len() as int)[g],
            ts.len() as int,
        ).len(),
        forall|j: int|
            0 <= j < group_plans(ts, ls, gs, w, g).len() ==> (#[trigger] group_plans(ts, ls, gs, w, g)[j]).idx
                == gap_members(ts, ls, gs, rider_keys(ts, ls, gs, ts.len() as int)[g], ts.len() as int)[j],
{
    let n = ts.len() as int;
    let keys = rider_keys(ts, ls, gs, n);
    let ms = gap_members(ts, ls, gs, keys[g], n);
    lemma_gap_members(ts, ls, gs, keys[g], n);
    let plans = Seq::new(ms.len(), |j: int| base_plan(ts, ls, gs, w, ms[j]));
    assert(group_plans(ts, ls, gs, w, g) == gap_group(plans).2);
    assert forall|j: int| 0 <= j < group_plans(ts, ls, gs, w, g).len() implies (#[trigger] group_plans(ts, ls, gs, w, g)[j]).idx
        == ms[j] by {
        assert(gap_group(plans).2[j].idx == plans[j].idx);
        assert(0 <= ms[j] < n);
    }
}

/// Riding-plan membership: the riders of each gap are exactly the
/// riding transitions of that gap (labelled, aligned, in a gap that has
/// a corridor edge), listed in ascending transition order, and every
/// riding transition is planned in its own gap's group.
pub proof fn law_gap_riders_membership(ts: Seq<Transition>, ls: Seq<Lay>, gs: Seq<TransGeom>, w: int)
    requires
        ts.len() <= usize::MAX,
    ensures
        forall|g: int, j: int|
            0 <= g < spec_gap_riders(ts, ls, gs, w).len() && 0 <= j < group_plans(ts, ls, gs, w, g).len() ==> {
                let i = (#[trigger] group_plans(ts, ls, gs, w, g)[j]).idx as int;
                &&& 0 <= i < ts.len()
                &&& is_rider(ts, ls, gs, i)
                &&& gap_of(ls, ts[i]) == Some(group_key(ts, ls, gs, w, g))
            },
        forall|g: int, a: int, b: int|
            0 <= g < spec_gap_riders(ts, ls, gs, w).len() && 0 <= a < b < group_plans(ts, ls, gs, w, g).len()
                ==> (#[trigger] group_plans(ts, ls, gs, w, g)[a]).idx < (#[trigger] group_plans(ts, ls, gs, w, g)[b]).idx,
        forall|i: int|
            0 <= i < ts.len() && #[trigger] is_rider(ts, ls, gs, i) ==> exists|g: int, j: int|
                0 <= g < spec_gap_riders(ts, ls, gs, w).len() && 0 <= j < group_plans(ts, ls, gs, w, g).len()
                    && group_key(ts, ls, gs, w, g) == gap_of(ls, ts[i])->0
                    && (#[trigger] group_plans(ts, ls, gs, w, g)[j]).idx == i,
{
    let n = ts.len() as int;
    let keys = rider_keys(ts, ls, gs, n);
    let r = spec_gap_riders(ts, ls, gs, w);
    lemma_rider_keys(ts, ls, gs, n);
    assert forall|g: int, j: int|
        0 <= g < r.len() && 0 <= j < group_plans(ts, ls, gs, w, g).len() implies {
            let i = (#[trigger] group_plans(ts, ls, gs, w, g)[j]).idx as int;
            &&& 0 <= i < ts.len()
            &&& is_rider(ts, ls, gs, i)
            &&& gap_of(ls, ts[i]) == Some(group_key(ts, ls, gs, w, g))
        } by {
        lemma_group(ts, ls, gs, w, g);
        lemma_gap_members(ts, ls, gs, keys[g], n);
        let ms = gap_members(ts, ls, gs, keys[g], n);
        assert(0 <= ms[j] < n);
    }
    assert forall|g: int, a: int, b: int|
        0 <= g < r.len() && 0 <= a < b < group_plans(ts, ls, gs, w, g).len() implies (#[trigger] group_plans(
            ts,
            ls,
            gs,
            w,
            g,
        )[a]).idx < (#[trigger] group_plans(ts, ls, gs, w, g)[b]).idx by {
        lemma_group(ts, ls, gs, w, g);
        lemma_gap_members(ts, ls, gs, keys[g], n);
        let ms = gap_members(ts, ls, gs, keys[g], n);
        assert(ms[a] < ms[b]);
        assert(0 <= ms[b] < n);
    }
    assert forall|i: int| 0 <= i < ts.len() && #[trigger] is_rider(ts, ls, gs, i) implies exists|g: int, j: int|
        0 <= g < r.len() && 0 <= j < group_plans(ts, ls, gs, w, g).len() && group_key(ts, ls, gs, w, g) == gap_of(
            ls,
            ts[i],
        )->0 && (#[trigger] group_plans(ts, ls, gs, w, g)[j]).idx == i by {
        let key = gap_of(ls, ts[i])->0;
        assert(keys.contains(key));
        let g = choose|g: int| 0 <= g < keys.len() && keys[g] == key;
        lemma_group(ts, ls, gs, w, g);
        lemma_gap_members(ts, ls, gs, key, n);
        let ms = gap_members(ts, ls, gs, key, n);
        assert(gap_of(ls, ts[i]) == Some(key));
        assert(ms.contains(i));
        let j = choose|j: int| 0 <= j < ms.len() && ms[j] == i;
        assert(group_plans(ts, ls, gs, w, g)[j].idx == i);
    }
}

/// The plans held by a gap-rider list.
pub open spec fn gap_riders_view(r: Seq<((usize, usize), GapRiders)>) -> Seq<((usize, usize), (usize, usize, Seq<RiderPlan>))> {
    r.map_values(|e: ((usize, usize), GapRiders)| (e.0, (e.1.below_lines, e.1.above_lines, e.1.riders@)))
}

proof fn lemma_half_cands_len(plans: Seq<RiderPlan>, fwd: bool, j: int, k: int)
    requires
        0 <= j <= k <= plans.len(),
    ensures
        half_cands(plans, fwd, j).len() <= half_cands(plans, fwd, k).len(),
        j < k && plans[j].forward == fwd ==> half_cands(plans, fwd, j).len() < half_cands(plans, fwd, k).len(),
    decreases k - j,
{
    if j < k {
        lemma_half_cands_len(plans, fwd, j + 1, k);
    }
}

/// The row offsets of one half (none for riders of the other half) and
/// its demand (see [`offset_of`], [`half_demand`]).
fn half_offsets(riders: &Vec<RiderPlan>, fwd: bool) -> (r: (Vec<Option<usize>>, usize))
    ensures
        r.0@.len() == riders@.len(),
        forall|j: int| 0 <= j < riders@.len() && riders@[j].forward == fwd ==> #[trigger] r.0@[j] == offset_of(riders@, j),
        r.1 == half_demand(riders@, fwd),
{
    let ghost ps = riders@;
    let n = riders.len();
    let mut cands: Vec<RidingCandidate> = Vec::new();
    let mut j: usize = 0;
    while j < n
        invariant
            j <= n,
            n == ps.len(),
            riders@ == ps,
            cands@ == half_cands(ps, fwd, j as int),
        decreases n - j,
    {
        let p = riders[j];
        if p.forward == fwd {
            cands.push(RidingCandidate { span_lo: p.span.0, span_hi: p.span.1, lines: p.lines });
        }
        j = j + 1;
    }
    let ghost c = cands@;
    let mut total: usize = 0;
    let mut ok = true;
    let mut q: usize = 0;
    while q < cands.len()
        invariant
            q <= c.len(),
            cands@ == c,
            ok ==> total == total_lines(c.take(q as int)),
            !ok ==> total_lines(c) > usize::MAX,
        decreases c.len() - q,
    {
        proof {
            assert(c.take(q + 1).drop_last() =~= c.take(q as int));
            lemma_total_lines_mono(c, q + 1);
        }
        if ok {
            if cands[q].lines > usize::MAX - total {
                ok = false;
            } else {
                total = total + cands[q].lines;
            }
        }
        q = q + 1;
    }
    assert(c.take(c.len() as int) =~= c);
    let (offsets, demand) = if ok {
        allocate_riding_rows(cands.as_slice())
    } else {
        (Vec::new(), 0)
    };
    let cl = cands.len();
    let mut offs: Vec<Option<usize>> = Vec::new();
    let mut rank: usize = 0;
    let mut k: usize = 0;
    while k < n
        invariant
            k <= n,
            n == ps.len(),
            riders@ == ps,
            c == half_cands(ps, fwd, n as int),
            cl == c.len(),
            rank as int == half_cands(ps, fwd, k as int).len(),
            ok ==> offsets@.len() == c.len(),
            ok ==> forall|i: int|
                0 <= i < c.len() ==> match #[trigger] offsets@[i] {
                    Some(o) => riding_offset(c, i) == Some(o as int),
                    None => riding_offset(c, i) is None,
                },
            ok <==> total_lines(c) <= usize::MAX,
            offs@.len() == k,
            forall|i: int| 0 <= i < k && ps[i].forward == fwd ==> #[trigger] offs@[i] == offset_of(ps, i),
        decreases n - k,
    {
        proof {
            lemma_half_cands_len(ps, fwd, k as int, n as int);
        }
        if riders[k].forward == fwd {
            let o = if ok {
                offsets[rank]
            } else {
                None
            };
            proof {
                if ok {
                    match o {
                        Some(v) => assert(riding_offset(c, rank as int) == Some(v as int)),
                        None => {},
                    }
                }
            }
            offs.push(o);
            rank = rank + 1;
        } else {
            offs.push(None);
        }
        k = k + 1;
    }
    (offs, demand)
}

proof fn lemma_total_lines_mono(c: Seq<RidingCandidate>, k: int)
    requires
        0 <= k <= c.len(),
    ensures
        total_lines(c.take(k)) <= total_lines(c),
        total_lines(c.take(k)) >= 0,
    decreases c.len() - k,
{
    if k < c.len() {
        lemma_total_lines_mono(c, k + 1);
        assert(c.take(k + 1).drop_last() =~= c.take(k));
    } else {
        assert(c.take(k) =~= c);
    }
    lemma_total_lines_nonneg(c.take(k));
}

proof fn lemma_total_lines_nonneg(c: Seq<RidingCandidate>)
    ensures
        total_lines(c) >= 0,
    decreases c.len(),
{
    if c.len() > 0 {
        lemma_total_lines_nonneg(c.drop_last());
    }
}


/// Plan every gap's riding labels (see [`spec_gap_riders`]): the riders
/// of each gap with their wrap widths, centers, spans and stacking row
/// offsets, and the rows each half of the gap needs. `geoms` holds the
/// geometry of each transition, in the same order.
pub fn plan_gap_riders(
    transitions: &[Transition],
    layouts: &[StateLayout],
    geoms: &[TransGeom],
    width: usize,
) -> (r: Vec<((usize, usize), GapRiders)>)
    requires
        geoms@.len() == transitions@.len(),
        geoms_small(geoms@),
    ensures
        gap_riders_view(r@) == spec_gap_riders(transitions@, lay_views(layouts@), geoms@, width as int),
{
    let ghost ts = transitions@;
    let ghost ls = lay_views(layouts@);
    let ghost gs = geoms@;
    let n = transitions.len();
    let mut plans: Vec<Option<RiderPlan>> = Vec::new();
    let mut pkeys: Vec<(usize, usize)> = Vec::new();
    let mut keys: Vec<(usize, usize)> = Vec::new();
    let mut i: usize = 0;
    while i < n
        invariant
            i <= n,
            n == ts.len(),
            ts == transitions@,
            ls == lay_views(layouts@),
            gs == geoms@,
            geoms@.len() == transitions@.len(),
            geoms_small(geoms@),
            plans@.len() == i,
            pkeys@.len() == i,
            forall|j: int| 0 <= j < i ==> ((#[trigger] plans@[j]) is Some <==> is_rider(ts, ls, gs, j)),
            forall|j: int| 0 <= j < i ==> ((#[trigger] plans@[j]) matches Some(p) ==> p == base_plan(ts, ls, gs, width as int, j)),
            forall|j: int| 0 <= j < i && is_rider(ts, ls, gs, j) ==> gap_of(ls, ts[j]) == Some(#[trigger] pkeys@[j]),
            keys@ == rider_keys(ts, ls, gs, i as int),
        decreases n - i,
    {
        let p = plan_of(transitions, layouts, geoms, width, i);
        let mut key: (usize, usize) = (0, 0);
        if p.is_some() {
            match gap_of_exec(layouts, &transitions[i]) {
                Some((a, b, _)) => {
                    key = (a, b);
                },
                None => {},
            }
            let mut found = false;
            let mut q: usize = 0;
            while q < keys.len()
                invariant
                    q <= keys@.len(),
                    found <==> keys@.take(q as int).contains(key),
                decreases keys@.len() - q,
            {
                proof {
                    assert(keys@.take(q + 1) =~= keys@.take(q as int).push(keys@[q as int]));
                }
                let ghost t0 = keys@.take(q as int);
                let ghost t1 = keys@.take(q + 1);
                if keys[q].0 == key.0 && keys[q].1 == key.1 {
                    found = true;
                    assert(t1[q as int] == key);
                } else {
                    assert(t1[q as int] != key);
                    assert(t1.contains(key) ==> t0.contains(key)) by {
                        if t1.contains(key) {
                            let w = choose|w: int| 0 <= w < t1.len() && t1[w] == key;
                            assert(w < q);
                            assert(t0[w] == key);
                        }
                    }
                    assert(t0.contains(key) ==> t1.contains(key)) by {
                        if t0.contains(key) {
                            let w = choose|w: int| 0 <= w < t0.len() && t0[w] == key;
                            assert(t1[w] == key);
                        }
                    }
                }
                q = q + 1;
            }
            assert(keys@.take(keys@.len() as int) =~= keys@);
            if !found {
                keys.push(key);
            }
        }
        plans.push(p);
        pkeys.push(key);
        i = i + 1;
    }
    let mut out: Vec<((usize, usize), GapRiders)> = Vec::new();
    let ghost spec = spec_gap_riders(ts, ls, gs, width as int);
    let mut g: usize = 0;
    while g < keys.len()
        invariant
            g <= keys@.len(),
            n == ts.len(),
            keys@ == rider_keys(ts, ls, gs, n as int),
            spec == spec_gap_riders(ts, ls, gs, width as int),
            plans@.len() == n,
            pkeys@.len() == n,
            forall|j: int| 0 <= j < n ==> ((#[trigger] plans@[j]) is Some <==> is_rider(ts, ls, gs, j)),
            forall|j: int| 0 <= j < n ==> ((#[trigger] plans@[j]) matches Some(p) ==> p == base_plan(ts, ls, gs, width as int, j)),
            forall|j: int| 0 <= j < n && is_rider(ts, ls, gs, j) ==> gap_of(ls, ts[j]) == Some(#[trigger] pkeys@[j]),
            out@.len() == g,
            forall|h: int| 0 <= h < g ==> #[trigger] gap_riders_view(out@)[h] == spec[h],
        decreases keys@.len() - g,
    {
        let key = keys[g];
        let mut riders: Vec<RiderPlan> = Vec::new();
        let mut k: usize = 0;
        while k < n
            invariant
                k <= n,
                n == ts.len(),
                plans@.len() == n,
                pkeys@.len() == n,
                forall|j: int| 0 <= j < n ==> ((#[trigger] plans@[j]) is Some <==> is_rider(ts, ls, gs, j)),
                forall|j: int| 0 <= j < n ==> ((#[trigger] plans@[j]) matches Some(p) ==> p == base_plan(ts, ls, gs, width as int, j)),
                forall|j: int| 0 <= j < n && is_rider(ts, ls, gs, j) ==> gap_of(ls, ts[j]) == Some(#[trigger] pkeys@[j]),
                riders@ == Seq::new(
                    gap_members(ts, ls, gs, key, k as int).len(),
                    |j: int| base_plan(ts, ls, gs, width as int, gap_members(ts, ls, gs, key, k as int)[j]),
                ),
            decreases n - k,
        {
            match plans[k] {
                Some(p) => {
                    if pkeys[k].0 == key.0 && pkeys[k].1 == key.1 {
                        riders.push(p);
                    }
                },
                None => {},
            }
            proof {
                let ms = gap_members(ts, ls, gs, key, k + 1);
                let prev = gap_members(ts, ls, gs, key, k as int);
                assert(riders@ =~= Seq::new(ms.len(), |j: int| base_plan(ts, ls, gs, width as int, ms[j])));
            }
            k = k + 1;
        }
        let ghost rp = riders@;
        let (ot, dt) = half_offsets(&riders, true);
        let (of, df) = half_offsets(&riders, false);
        let mut fin: Vec<RiderPlan> = Vec::new();
        let mut j: usize = 0;
        while j < riders.len()
            invariant
                j <= rp.len(),
                riders@ == rp,
                ot@.len() == rp.len(),
                of@.len() == rp.len(),
                forall|x: int| 0 <= x < rp.len() && rp[x].forward == true ==> #[trigger] ot@[x] == offset_of(rp, x),
                forall|x: int| 0 <= x < rp.len() && rp[x].forward == false ==> #[trigger] of@[x] == offset_of(rp, x),
                fin@ == Seq::new(j as nat, |x: int| RiderPlan { row_offset: offset_of(rp, x), ..rp[x] }),
            decreases rp.len() - j,
        {
            let p = riders[j];
            let off = if p.forward {
                ot[j]
            } else {
                of[j]
            };
            fin.push(RiderPlan { row_offset: off, ..p });
            assert(fin@ =~= Seq::new((j + 1) as nat, |x: int| RiderPlan { row_offset: offset_of(rp, x), ..rp[x] }));
            j = j + 1;
        }
        let ghost prev_out = gap_riders_view(out@);
        out.push((key, GapRiders { below_lines: dt, above_lines: df, riders: fin }));
        proof {
            assert(gap_riders_view(out@) =~= prev_out.push(gap_riders_view(out@)[g as int]));
            assert(gap_riders_view(out@)[g as int] == spec[g as int]);
        }
        g = g + 1;
    }
    assert(gap_riders_view(out@) =~= spec);
    out
}

} // verus!
