//! Spacing of a state layout around its transition labels: corridors
//! widened so labels fit, layer gaps grown for stacked and wrapped
//! labels, and the whole layout pushed down below the topmost labels.

use vstd::prelude::*;
use crate::diagrams::arrow::{sat_add, wraps_label};
use crate::diagrams::state::label_rows::{
    find_lay, gap_key, lay_index, lemma_lay_index_range, str_eq, GapKey, Lay,
};
use crate::diagrams::state::layout::{lay_view, lay_views, StateLayout};
use crate::diagrams::state::types::Transition;
use crate::diagrams::table::{imax, mul_sat, sat_mul};
use crate::geom::Rect;
use crate::layout::routing::{dist, sat_sub};
use crate::text::{views, widest, wrap_label};

verus! {

/// A label wrapped at `avail` columns, with its line count and widest
/// line.
pub fn wrap_text(text: &str, avail: usize) -> (r: (Vec<String>, usize, usize))
    ensures
        wraps_label(views(r.0@), text@, avail as int),
        r.1 == r.0@.len(),
        r.2 == widest(views(r.0@)),
{
    let wl = wrap_label(text, avail);
    (wl.lines, wl.line_count, wl.max_width)
}

/// The placed states at the two ends of `t` (the last of each id),
/// unless it is a self-transition or an end is not placed.
pub open spec fn resolve(ls: Seq<Lay>, t: Transition) -> Option<(int, int)> {
    if t.from@ == t.to@ {
        None
    } else {
        match (lay_index(ls, t.from@, ls.len() as int), lay_index(ls, t.to@, ls.len() as int)) {
            (Some(a), Some(b)) => Some((a, b)),
            _ => None,
        }
    }
}

/// Ends of `t` (see [`resolve`]).
pub fn resolve_exec(layouts: &[StateLayout], t: &Transition) -> (r: Option<(usize, usize)>)
    ensures
        match r {
            Some((a, b)) => resolve(lay_views(layouts@), *t) == Some((a as int, b as int)) && a < layouts@.len() && b
                < layouts@.len(),
            None => resolve(lay_views(layouts@), *t) is None,
        },
{
    let ghost ls = lay_views(layouts@);
    if str_eq(t.from.as_str(), t.to.as_str()) {
        return None;
    }
    let fi = find_lay(layouts, t.from.as_str());
    let ti = find_lay(layouts, t.to.as_str());
    proof {
        lemma_lay_index_range(ls, t.from@, ls.len() as int);
        lemma_lay_index_range(ls, t.to@, ls.len() as int);
    }
    match (fi, ti) {
        (Some(a), Some(b)) => Some((a, b)),
        _ => None,
    }
}

/// `l` moved to column `x`.
pub open spec fn with_x(l: Lay, x: int) -> Lay {
    (l.0, l.1, l.2, Rect { x: x as usize, ..l.3 })
}

/// `l` moved to row `y`.
pub open spec fn with_y(l: Lay, y: int) -> Lay {
    (l.0, l.1, l.2, Rect { y: y as usize, ..l.3 })
}

/// The states on row `y` at or right of column `x` moved `extra`
/// columns right, or, leftward, those at or left of `x` moved `extra`
/// columns left (stopping at column 0).
pub open spec fn shift_row(ls: Seq<Lay>, y: usize, x: usize, right: bool, extra: int) -> Seq<Lay> {
    Seq::new(
        ls.len(),
        |i: int|
            if ls[i].3.y == y && (if right { ls[i].3.x >= x } else { ls[i].3.x <= x }) {
                with_x(ls[i], if right { sat_add(ls[i].3.x as int, extra) } else { sat_sub(ls[i].3.x as int, extra) })
            } else {
                ls[i]
            },
    )
}

/// Width of the corridor between two center columns, both legs
/// included (capped at `usize::MAX`).
pub open spec fn corridor(a: int, b: int) -> int {
    sat_add(dist(a, b), 1)
}

/// [`corridor`] of two columns.
pub fn corridor_exec(a: usize, b: usize) -> (r: usize)
    ensures
        r == corridor(a as int, b as int),
{
    if a < b { (b - a).saturating_add(1) } else { (a - b).saturating_add(1) }
}

/// The layout after widening for transition `t` (ends resolved in
/// `ls0`), its label wrapped to the canvas width as `lines`: labels widen
/// their corridor up to the canvas width before they wrap. When the
/// label plus two cells each side does not fit the corridor, the target
/// state and the states beyond it on its row move away from the source
/// by the shortfall, never past the canvas width `cw`.
pub open spec fn widen_step(ls0: Seq<Lay>, ls: Seq<Lay>, t: Transition, lines: Seq<Seq<char>>, cw: int) -> Seq<Lay> {
    match (resolve(ls0, t), t.label) {
        (Some((a, b)), Some(_)) => {
            let fcx = ls[a].3.cx() as int;
            let tcx = ls[b].3.cx() as int;
            let cwid = corridor(fcx, tcx);
            let needed = widest(lines) + 4;
            let max_needed = if cw < needed { cw } else { needed };
            if fcx == tcx || needed <= cwid || max_needed <= cwid {
                ls
            } else {
                shift_row(ls, ls[b].3.y, ls[b].3.x, tcx > fcx, max_needed - cwid)
            }
        },
        _ => ls,
    }
}

/// The layout after widening for the first `k` transitions.
pub open spec fn widened(ls0: Seq<Lay>, ts: Seq<Transition>, w: Seq<Seq<Seq<char>>>, cw: int, k: int) -> Seq<Lay>
    decreases k,
{
    if k <= 0 {
        ls0
    } else {
        widen_step(ls0, widened(ls0, ts, w, cw, k - 1), ts[k - 1], w[k - 1], cw)
    }
}

/// `lines` is the label of `t` wrapped to the canvas width `cw`, when
/// the widening looks at it.
pub open spec fn widen_wrap_ok(ls0: Seq<Lay>, ls: Seq<Lay>, t: Transition, lines: Seq<Seq<char>>, cw: int) -> bool {
    match (resolve(ls0, t), t.label) {
        (Some((a, b)), Some(text)) => {
            let fcx = ls[a].3.cx() as int;
            let tcx = ls[b].3.cx() as int;
            fcx != tcx ==> wraps_label(lines, text@, cw)
        },
        _ => true,
    }
}

/// Every wrapping of `w` is the one the widening uses.
pub open spec fn widen_wraps(ls0: Seq<Lay>, ts: Seq<Transition>, w: Seq<Seq<Seq<char>>>, cw: int) -> bool {
    &&& w.len() == ts.len()
    &&& forall|k: int| 0 <= k < ts.len() ==> #[trigger] widen_wrap_ok(ls0, widened(ls0, ts, w, cw, k), ts[k], w[k], cw)
}

proof fn lemma_shift_keeps_ids(ls: Seq<Lay>, y: usize, x: usize, right: bool, extra: int)
    ensures
        shift_row(ls, y, x, right, extra).len() == ls.len(),
        forall|i: int| 0 <= i < ls.len() ==> (#[trigger] shift_row(ls, y, x, right, extra)[i]).0 == ls[i].0,
{
}

/// Move the states of row `y` as [`shift_row`] says.
fn shift_row_exec(layouts: &mut Vec<StateLayout>, y: usize, x: usize, right: bool, extra: usize)
    ensures
        lay_views(final(layouts)@) == shift_row(lay_views(old(layouts)@), y, x, right, extra as int),
{
    let ghost ls = lay_views(layouts@);
    let n = layouts.len();
    let mut i: usize = 0;
    while i < n
        invariant
            i <= n,
            n == layouts@.len(),
            ls.len() == n,
            forall|j: int| 0 <= j < i ==> lay_view(#[trigger] layouts@[j]) == shift_row(ls, y, x, right, extra as int)[j],
            forall|j: int| i <= j < n ==> lay_view(#[trigger] layouts@[j]) == ls[j],
        decreases n - i,
    {
        let ry = layouts[i].rect.y;
        let rx = layouts[i].rect.x;
        assert(lay_view(layouts@[i as int]) == ls[i as int]);
        if ry == y && (if right { rx >= x } else { rx <= x }) {
            let nx = if right { rx.saturating_add(extra) } else { rx.saturating_sub(extra) };
            layouts[i].rect.x = nx;
        }
        i = i + 1;
    }
    proof {
        assert(lay_views(layouts@) =~= shift_row(ls, y, x, right, extra as int));
    }
}

proof fn lemma_lay_index_same_ids(a: Seq<Lay>, b: Seq<Lay>, id: Seq<char>, k: int)
    requires
        a.len() == b.len(),
        k <= a.len(),
        forall|i: int| 0 <= i < a.len() ==> (#[trigger] a[i]).0 == b[i].0,
    ensures
        lay_index(a, id, k) == lay_index(b, id, k),
    decreases k,
{
    if k > 0 {
        assert(a[k - 1].0 == b[k - 1].0);
        lemma_lay_index_same_ids(a, b, id, k - 1);
    }
}

proof fn lemma_widened_prefix(
    ls0: Seq<Lay>,
    ts: Seq<Transition>,
    w: Seq<Seq<Seq<char>>>,
    w2: Seq<Seq<Seq<char>>>,
    cw: int,
    k: int,
)
    requires
        0 <= k <= w.len(),
        k <= w2.len(),
        forall|j: int| 0 <= j < k ==> w[j] == w2[j],
    ensures
        widened(ls0, ts, w, cw, k) == widened(ls0, ts, w2, cw, k),
    decreases k,
{
    if k > 0 {
        lemma_widened_prefix(ls0, ts, w, w2, cw, k - 1);
    }
}

/// Widen the corridors so every label fits (see [`widened`]); gives the
/// wrappings used.
pub fn expand_corridors_for_labels(layouts: &mut Vec<StateLayout>, transitions: &[Transition], canvas_width: usize) -> (w: Ghost<
    Seq<Seq<Seq<char>>>,
>)
    ensures
        widen_wraps(lay_views(old(layouts)@), transitions@, w@, canvas_width as int),
        lay_views(final(layouts)@) == widened(
            lay_views(old(layouts)@),
            transitions@,
            w@,
            canvas_width as int,
            transitions@.len() as int,
        ),
{
    let ghost ls0 = lay_views(layouts@);
    let ghost ts = transitions@;
    let ghost cw = canvas_width as int;
    let ghost mut w: Seq<Seq<Seq<char>>> = Seq::empty();
    let n = transitions.len();
    let mut k: usize = 0;
    while k < n
        invariant
            k <= n,
            n == ts.len(),
            ts == transitions@,
            cw == canvas_width as int,
            w.len() == k,
            lay_views(layouts@).len() == ls0.len(),
            forall|i: int| 0 <= i < ls0.len() ==> (#[trigger] lay_views(layouts@)[i]).0 == ls0[i].0,
            lay_views(layouts@) == widened(ls0, ts, w, cw, k as int),
            forall|j: int| 0 <= j < k ==> #[trigger] widen_wrap_ok(ls0, widened(ls0, ts, w, cw, j), ts[j], w[j], cw),
        decreases n - k,
    {
        let ghost cur = lay_views(layouts@);
        let ghost mut lines: Seq<Seq<char>> = Seq::empty();
        let t = &transitions[k];
        let ends = resolve_exec(layouts, t);
        proof {
            lemma_lay_index_same_ids(cur, ls0, t.from@, cur.len() as int);
            lemma_lay_index_same_ids(cur, ls0, t.to@, cur.len() as int);
            assert(resolve(cur, *t) == resolve(ls0, *t));
        }
        match (ends, &t.label) {
            (Some((a, b)), Some(text)) => {
                let fcx = layouts[a].rect.cx();
                let tcx = layouts[b].rect.cx();
                assert(cur[a as int] == lay_view(layouts@[a as int]));
                assert(cur[b as int] == lay_view(layouts@[b as int]));
                if fcx != tcx {
                    let cwid = corridor_exec(fcx, tcx);
                    let (ls, _n, max_lw) = wrap_text(text.as_str(), canvas_width);
                    proof {
                        lines = views(ls@);
                    }
                    let needed = max_lw.saturating_add(4);
                    let max_needed = if canvas_width < needed { canvas_width } else { needed };
                    let too_narrow = max_lw > cwid || cwid - max_lw < 4;
                    if too_narrow && max_needed > cwid {
                        let y = layouts[b].rect.y;
                        let x = layouts[b].rect.x;
                        proof {
                            lemma_shift_keeps_ids(cur, y, x, tcx > fcx, (max_needed - cwid) as int);
                        }
                        shift_row_exec(layouts, y, x, tcx > fcx, max_needed - cwid);
                        assert(lay_views(layouts@) == widen_step(ls0, cur, *t, lines, cw));
                    } else {
                        assert(lay_views(layouts@) == widen_step(ls0, cur, *t, lines, cw));
                    }
                } else {
                    assert(lay_views(layouts@) == widen_step(ls0, cur, *t, lines, cw));
                }
            },
            _ => {
                assert(lay_views(layouts@) == widen_step(ls0, cur, *t, lines, cw));
            },
        }
        proof {
            let w2 = w.push(lines);
            assert(widened(ls0, ts, w2, cw, k + 1) == widen_step(ls0, widened(ls0, ts, w2, cw, k as int), ts[k as int], lines, cw));
            assert forall|j: int| 0 <= j <= k implies #[trigger] widened(ls0, ts, w2, cw, j) == widened(ls0, ts, w, cw, j) by {
                lemma_widened_prefix(ls0, ts, w, w2, cw, j);
            }
            assert forall|j: int| 0 <= j < k + 1 implies #[trigger] widen_wrap_ok(ls0, widened(ls0, ts, w2, cw, j), ts[j], w2[j], cw) by {
                if j < k {
                    assert(w2[j] == w[j]);
                }
            }
            w = w2;
        }
        k = k + 1;
    }
    Ghost(w)
}

/// Wrap width used to estimate how many lines a label in the gap
/// between `f` and `g` takes: the corridor (80 for a straight line), at
/// least 10.
pub open spec fn estimate_avail(f: Rect, g: Rect) -> int {
    let c = if f.cx() != g.cx() { corridor(f.cx() as int, g.cx() as int) } else { 80 };
    imax(c, 10)
}

/// The gap transition `t` crosses and the rows it needs there: twice
/// its label row plus its label's line count (1 without a label), when
/// both ends are placed and it is no self-transition.
pub open spec fn gap_extent(ls: Seq<Lay>, t: Transition, row: int, lines: Seq<Seq<char>>) -> Option<(GapKey, int)> {
    match resolve(ls, t) {
        None => None,
        Some((a, b)) => {
            let n = match t.label {
                Some(_) => lines.len() as int,
                None => 1,
            };
            Some((gap_key(ls[a].3, ls[b].3), sat_add(sat_mul(row, 2), n)))
        },
    }
}

/// `lines` is the label of `t` wrapped at the estimate width, when the
/// gap estimate looks at it.
pub open spec fn gap_wrap_ok(ls: Seq<Lay>, t: Transition, lines: Seq<Seq<char>>) -> bool {
    match (resolve(ls, t), t.label) {
        (Some((a, b)), Some(text)) => wraps_label(lines, text@, estimate_avail(ls[a].3, ls[b].3)),
        _ => true,
    }
}

/// Extra rows for the gaps whose lower row is `ty`, from the first `k`
/// transitions: twice the largest need above one row.
pub open spec fn ty_extra(ls: Seq<Lay>, ts: Seq<Transition>, rows: Seq<int>, w: Seq<Seq<Seq<char>>>, ty: int, k: int) -> int
    decreases k,
{
    if k <= 0 {
        0
    } else {
        let prev = ty_extra(ls, ts, rows, w, ty, k - 1);
        match gap_extent(ls, ts[k - 1], rows[k - 1], w[k - 1]) {
            Some((key, e)) => if key.bottom == ty && e > 1 { imax(prev, sat_mul(e, 2)) } else { prev },
            None => prev,
        }
    }
}

/// Some gap among the first `k` transitions needs more than one row.
pub open spec fn any_extra(ls: Seq<Lay>, ts: Seq<Transition>, rows: Seq<int>, w: Seq<Seq<Seq<char>>>, k: int) -> bool
    decreases k,
{
    if k <= 0 {
        false
    } else {
        any_extra(ls, ts, rows, w, k - 1) || match gap_extent(ls, ts[k - 1], rows[k - 1], w[k - 1]) {
            Some((_, e)) => e > 1,
            None => false,
        }
    }
}

/// `s` (ordered by row) with `e` inserted after every entry whose row
/// is no greater than its own.
pub open spec fn insert_by_y(s: Seq<Lay>, e: Lay) -> Seq<Lay>
    decreases s.len(),
{
    if s.len() == 0 {
        seq![e]
    } else if s.last().3.y <= e.3.y {
        s.push(e)
    } else {
        insert_by_y(s.drop_last(), e).push(s.last())
    }
}

/// The first `k` placed states ordered by row, ties in order.
pub open spec fn sort_by_y(s: Seq<Lay>, k: int) -> Seq<Lay>
    decreases k,
{
    if k <= 0 {
        Seq::empty()
    } else {
        insert_by_y(sort_by_y(s, k - 1), s[k - 1])
    }
}

/// Rows added above sorted state `j` and all before it: each distinct
/// row's extra counted at its first state.
pub open spec fn cum_extra(sorted: Seq<Lay>, extra: spec_fn(int) -> int, j: int) -> int
    decreases j + 1,
{
    if j < 0 {
        0
    } else {
        let add = if j == 0 || sorted[j - 1].3.y != sorted[j].3.y { extra(sorted[j].3.y as int) } else { 0 };
        sat_add(cum_extra(sorted, extra, j - 1), add)
    }
}

/// The layout with its gaps grown: unchanged when no gap needs more
/// than one row; otherwise ordered by row and every state pushed down by
/// the extra rows of its own row and all rows above it.
pub open spec fn grown(ls: Seq<Lay>, ts: Seq<Transition>, rows: Seq<int>, w: Seq<Seq<Seq<char>>>) -> Seq<Lay> {
    if !any_extra(ls, ts, rows, w, ts.len() as int) {
        ls
    } else {
        let sorted = sort_by_y(ls, ls.len() as int);
        let extra = |ty: int| ty_extra(ls, ts, rows, w, ty, ts.len() as int);
        Seq::new(
            sorted.len(),
            |j: int| with_y(sorted[j], sat_add(sorted[j].3.y as int, cum_extra(sorted, extra, j))),
        )
    }
}

/// Every wrapping of `w` is the one the gap estimate uses.
pub open spec fn gap_wraps(ls: Seq<Lay>, ts: Seq<Transition>, w: Seq<Seq<Seq<char>>>) -> bool {
    &&& w.len() == ts.len()
    &&& forall|k: int| 0 <= k < ts.len() ==> #[trigger] gap_wrap_ok(ls, ts[k], w[k])
}

proof fn lemma_insert_y_shape(s: Seq<Lay>, e: Lay, j: int)
    requires
        0 <= j <= s.len(),
        j == 0 || s[j - 1].3.y <= e.3.y,
        forall|i: int| j <= i < s.len() ==> (#[trigger] s[i]).3.y > e.3.y,
    ensures
        insert_by_y(s, e) == s.subrange(0, j).push(e) + s.subrange(j, s.len() as int),
    decreases s.len(),
{
    if s.len() == 0 {
        assert(s.subrange(0, 0).push(e) + s.subrange(0, 0) =~= seq![e]);
    } else if j == s.len() {
        assert(s.subrange(0, j).push(e) + s.subrange(j, s.len() as int) =~= s.push(e));
    } else {
        let t = s.drop_last();
        assert forall|i: int| j <= i < t.len() implies (#[trigger] t[i]).3.y > e.3.y by {
            assert(t[i] == s[i]);
        }
        lemma_insert_y_shape(t, e, j);
        assert((t.subrange(0, j).push(e) + t.subrange(j, t.len() as int)).push(s.last()) =~= s.subrange(0, j).push(e)
            + s.subrange(j, s.len() as int));
    }
}

/// Order the states by row, ties kept in order (see [`sort_by_y`]).
fn sort_layouts_by_y(layouts: &mut Vec<StateLayout>)
    ensures
        lay_views(final(layouts)@) == sort_by_y(lay_views(old(layouts)@), old(layouts)@.len() as int),
{
    let ghost ls = lay_views(layouts@);
    let n = layouts.len();
    let mut out: Vec<StateLayout> = Vec::new();
    let mut k: usize = 0;
    while k < n
        invariant
            k <= n,
            n == ls.len(),
            layouts@.len() == n - k,
            forall|i: int| 0 <= i < n - k ==> lay_view(#[trigger] layouts@[i]) == ls[i + k],
            lay_views(out@) == sort_by_y(ls, k as int),
        decreases n - k,
    {
        let e = layouts.remove(0);
        assert(lay_view(e) == ls[k as int]);
        let ghost s = lay_views(out@);
        let ey = e.rect.y;
        let mut j = out.len();
        while j > 0
            invariant
                j <= out@.len(),
                s == lay_views(out@),
                ey == lay_view(e).3.y,
                forall|i: int| j <= i < s.len() ==> (#[trigger] s[i]).3.y > ey,
            ensures
                j == 0 || s[j - 1].3.y <= ey,
                forall|i: int| j <= i < s.len() ==> (#[trigger] s[i]).3.y > ey,
            decreases j,
        {
            assert(s[j - 1] == lay_view(out@[j - 1]));
            if out[j - 1].rect.y <= ey {
                break;
            }
            j = j - 1;
        }
        proof {
            lemma_insert_y_shape(s, lay_view(e), j as int);
        }
        out.insert(j, e);
        proof {
            assert(lay_views(out@) =~= s.subrange(0, j as int).push(ls[k as int]) + s.subrange(j as int, s.len() as int));
        }
        k = k + 1;
    }
    *layouts = out;
}

/// What the gap estimate keeps of transition `k`: the lower row of its
/// gap and the rows it needs there.
pub open spec fn ext_of(ls: Seq<Lay>, ts: Seq<Transition>, rows: Seq<int>, w: Seq<Seq<Seq<char>>>, k: int) -> Option<(usize, usize)> {
    match gap_extent(ls, ts[k], rows[k], w[k]) {
        Some((key, e)) => Some((key.bottom, e as usize)),
        None => None,
    }
}

proof fn lemma_extent_small(ls: Seq<Lay>, t: Transition, row: int, lines: Seq<Seq<char>>)
    requires
        row >= 0,
    ensures
        gap_extent(ls, t, row, lines) matches Some((_, e)) ==> 0 <= e <= usize::MAX,
{
}

/// [`ty_extra`] over all transitions, from their kept extents.
fn ty_extra_exec(
    exts: &Vec<Option<(usize, usize)>>,
    ty: usize,
    Ghost(ls): Ghost<Seq<Lay>>,
    Ghost(ts): Ghost<Seq<Transition>>,
    Ghost(rows): Ghost<Seq<int>>,
    Ghost(w): Ghost<Seq<Seq<Seq<char>>>>,
) -> (r: usize)
    requires
        exts@.len() == ts.len(),
        rows.len() == ts.len(),
        forall|k: int| 0 <= k < ts.len() ==> rows[k] >= 0,
        forall|k: int| 0 <= k < ts.len() ==> #[trigger] exts@[k] == ext_of(ls, ts, rows, w, k),
    ensures
        r == ty_extra(ls, ts, rows, w, ty as int, ts.len() as int),
{
    let mut best: usize = 0;
    let mut k: usize = 0;
    while k < exts.len()
        invariant
            k <= exts@.len(),
            exts@.len() == ts.len(),
            rows.len() == ts.len(),
            forall|j: int| 0 <= j < ts.len() ==> rows[j] >= 0,
            forall|j: int| 0 <= j < ts.len() ==> #[trigger] exts@[j] == ext_of(ls, ts, rows, w, j),
            best == ty_extra(ls, ts, rows, w, ty as int, k as int),
        decreases exts@.len() - k,
    {
        assert(exts@[k as int] == ext_of(ls, ts, rows, w, k as int));
        proof {
            lemma_extent_small(ls, ts[k as int], rows[k as int], w[k as int]);
        }
        match exts[k] {
            Some((bottom, e)) => {
                if bottom == ty && e > 1 {
                    let d = mul_sat(e, 2);
                    if d > best {
                        best = d;
                    }
                }
            },
            None => {},
        }
        k = k + 1;
    }
    best
}

/// Grow the layer gaps for the labels (see [`grown`]); gives the
/// wrappings used.
pub fn apply_gap_expansion(layouts: &mut Vec<StateLayout>, transitions: &[Transition], rows: &Vec<usize>) -> (w: Ghost<
    Seq<Seq<Seq<char>>>,
>)
    requires
        rows@.len() == transitions@.len(),
    ensures
        gap_wraps(lay_views(old(layouts)@), transitions@, w@),
        lay_views(final(layouts)@) == grown(
            lay_views(old(layouts)@),
            transitions@,
            rows@.map_values(|v: usize| v as int),
            w@,
        ),
{
    let ghost ls = lay_views(layouts@);
    let ghost ts = transitions@;
    let ghost rs = rows@.map_values(|v: usize| v as int);
    let ghost mut w: Seq<Seq<Seq<char>>> = Seq::empty();
    let n = transitions.len();
    let mut exts: Vec<Option<(usize, usize)>> = Vec::new();
    let mut any = false;
    let mut k: usize = 0;
    while k < n
        invariant
            k <= n,
            n == ts.len(),
            ts == transitions@,
            ls == lay_views(layouts@),
            rs == rows@.map_values(|v: usize| v as int),
            rows@.len() == n,
            w.len() == k,
            exts@.len() == k,
            forall|j: int| 0 <= j < k ==> #[trigger] gap_wrap_ok(ls, ts[j], w[j]),
            forall|j: int| 0 <= j < k ==> #[trigger] exts@[j] == ext_of(ls, ts, rs, w, j),
            any == any_extra(ls, ts, rs, w, k as int),
        decreases n - k,
    {
        let t = &transitions[k];
        let ghost mut lines: Seq<Seq<char>> = Seq::empty();
        let ends = resolve_exec(layouts, t);
        let mut ext: Option<(usize, usize)> = None;
        match ends {
            Some((a, b)) => {
                let f = layouts[a].rect;
                let g = layouts[b].rect;
                assert(ls[a as int] == lay_view(layouts@[a as int]));
                assert(ls[b as int] == lay_view(layouts@[b as int]));
                let nl: usize = match &t.label {
                    Some(text) => {
                        let c = if f.cx() != g.cx() { corridor_exec(f.cx(), g.cx()) } else { 80 };
                        let avail = if c > 10 { c } else { 10 };
                        let (ls2, cnt, _mw) = wrap_text(text.as_str(), avail);
                        proof {
                            lines = views(ls2@);
                        }
                        cnt
                    },
                    None => 1,
                };
                let e = mul_sat(rows[k], 2).saturating_add(nl);
                let bottom = if f.y < g.y { g.y } else { f.y };
                if e > 1 {
                    any = true;
                }
                ext = Some((bottom, e));
            },
            None => {},
        }
        proof {
            let w2 = w.push(lines);
            assert(rs[k as int] == rows@[k as int] as int);
            assert forall|j: int| 0 <= j < k + 1 implies #[trigger] gap_wrap_ok(ls, ts[j], w2[j]) by {
                if j < k {
                    assert(w2[j] == w[j]);
                }
            }
            assert forall|j: int| 0 <= j < k ==> #[trigger] ext_of(ls, ts, rs, w2, j) == ext_of(ls, ts, rs, w, j) by {
                if 0 <= j < k {
                    assert(w2[j] == w[j]);
                }
            }
            assert(ext == ext_of(ls, ts, rs, w2, k as int));
            lemma_any_extra_prefix(ls, ts, rs, w, w2, k as int);
            w = w2;
        }
        exts.push(ext);
        k = k + 1;
    }
    if !any {
        return Ghost(w);
    }
    sort_layouts_by_y(layouts);
    let ghost sorted = lay_views(layouts@);
    let ghost extra = |ty: int| ty_extra(ls, ts, rs, w, ty, ts.len() as int);
    let m = layouts.len();
    let mut cumul: usize = 0;
    let mut prev_y: usize = 0;
    let mut j: usize = 0;
    while j < m
        invariant
            j <= m,
            m == sorted.len(),
            layouts@.len() == m,
            n == ts.len(),
            rows@.len() == n,
            rs.len() == n,
            rs == rows@.map_values(|v: usize| v as int),
            exts@.len() == n,
            forall|i: int| 0 <= i < n ==> rs[i] >= 0,
            forall|i: int| 0 <= i < n ==> #[trigger] exts@[i] == ext_of(ls, ts, rs, w, i),
            extra == (|ty: int| ty_extra(ls, ts, rs, w, ty, ts.len() as int)),
            j > 0 ==> prev_y == sorted[j - 1].3.y,
            j > 0 ==> cumul as int == cum_extra(sorted, extra, j - 1),
            j == 0 ==> cumul == 0,
            forall|i: int| 0 <= i < j ==> lay_view(#[trigger] layouts@[i]) == with_y(
                sorted[i],
                sat_add(sorted[i].3.y as int, cum_extra(sorted, extra, i)),
            ),
            forall|i: int| j <= i < m ==> lay_view(#[trigger] layouts@[i]) == sorted[i],
        decreases m - j,
    {
        let oy = layouts[j].rect.y;
        assert(lay_view(layouts@[j as int]) == sorted[j as int]);
        let ghost before = cumul as int;
        if j == 0 || prev_y != oy {
            assert forall|i: int| 0 <= i < n implies rs[i] >= 0 by {
                assert(rs[i] == rows@[i] as int);
            }
            let add = ty_extra_exec(&exts, oy, Ghost(ls), Ghost(ts), Ghost(rs), Ghost(w));
            assert(add as int == extra(oy as int));
            cumul = cumul.saturating_add(add);
            assert(cumul as int == sat_add(before, extra(sorted[j as int].3.y as int)));
        }
        assert(cum_extra(sorted, extra, j as int) == sat_add(
            cum_extra(sorted, extra, j - 1),
            if j == 0 || sorted[j - 1].3.y != sorted[j as int].3.y { extra(sorted[j as int].3.y as int) } else { 0 },
        ));
        assert(cumul as int == cum_extra(sorted, extra, j as int));
        layouts[j].rect.y = oy.saturating_add(cumul);
        prev_y = oy;
        j = j + 1;
    }
    proof {
        assert(lay_views(layouts@) =~= grown(ls, ts, rs, w));
    }
    Ghost(w)
}

proof fn lemma_any_extra_prefix(
    ls: Seq<Lay>,
    ts: Seq<Transition>,
    rs: Seq<int>,
    w: Seq<Seq<Seq<char>>>,
    w2: Seq<Seq<Seq<char>>>,
    k: int,
)
    requires
        0 <= k <= w.len(),
        k <= w2.len(),
        forall|j: int| 0 <= j < k ==> w[j] == w2[j],
    ensures
        any_extra(ls, ts, rs, w, k) == any_extra(ls, ts, rs, w2, k),
    decreases k,
{
    if k > 0 {
        lemma_any_extra_prefix(ls, ts, rs, w, w2, k - 1);
    }
}

} // verus!
