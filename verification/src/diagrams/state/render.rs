//! State machine diagrams: states as rounded boxes (accepting states
//! with a double border) in layers, transitions routed orthogonally with
//! arrowheads and their labels set into the corridors.

use vstd::prelude::*;
use crate::canvas::{blank_view, Canvas, CanvasView};
use crate::diagrams::arrow::{sat_add, wraps_label};
use crate::diagrams::state::drawing::{
    box_ok, draw_initial_arrow, draw_states, draw_transitions, draw_wrap_ok, initial_view, self_loop_avail,
    small, states_view, transitions_view,
};
use crate::diagrams::state::label_rows::{
    compute_label_rows, find_lay, label_rows, lay_rect, lemma_lay_index_range, midpoint, str_eq, Lay,
};
use crate::diagrams::state::layout::{
    is_state_layout, lay_view, lay_views, layout_states, LayoutParams, StateLayout,
};
use crate::diagrams::state::spacing::{
    apply_gap_expansion, corridor, corridor_exec, expand_corridors_for_labels, gap_wraps, grown, widen_wraps,
    widened, with_y, wrap_text,
};
use crate::diagrams::state::types::{StateNode, Transition};
use crate::diagrams::table::{imax, mul_sat, sat_mul};
use crate::error::{FigoError, Result};
use crate::layout::routing::sat_sub;
use crate::render::surface::{Surface, SurfaceFrame};
use crate::style::{Charset, LineStyle};
use crate::text::{greedy_wrap, views, widest, wrap_label};
use crate::width::string_from_chars;

verus! {

/// Builder for state machine diagrams.
pub struct StateDiagram<'a> {
    width: usize,
    charset: Charset,
    states: Vec<StateNode>,
    initial: Option<&'a str>,
    transitions: Vec<Transition>,
    color: bool,
}

/// What a state diagram holds.
pub struct StateSpec {
    pub width: usize,
    pub charset: Charset,
    pub states: Seq<StateNode>,
    pub initial: Option<Seq<char>>,
    pub transitions: Seq<Transition>,
    pub color: bool,
}

impl<'a> View for StateDiagram<'a> {
    type V = StateSpec;

    closed spec fn view(&self) -> StateSpec {
        StateSpec {
            width: self.width,
            charset: self.charset,
            states: self.states@,
            initial: match self.initial {
                Some(s) => Some(s@),
                None => None,
            },
            transitions: self.transitions@,
            color: self.color,
        }
    }
}

/// The layout spacing every state diagram uses.
pub open spec fn default_params() -> LayoutParams {
    LayoutParams {
        gap_x: 6,
        gap_y: 3,
        left_margin: 8,
        top_margin: 2,
        min_state_width: 14,
        state_height: 3,
        accepting_extra_height: 2,
    }
}

/// The message of a diagram without states.
pub open spec fn no_states_message() -> Seq<char> {
    seq!['n', 'o', ' ', 's', 't', 'a', 't', 'e', 's', ' ', 's', 'p', 'e', 'c', 'i', 'f', 'i', 'e', 'd']
}

/// The message of a diagram whose drawing would leave the safe range.
pub open spec fn too_large_message() -> Seq<char> {
    seq!['s', 't', 'a', 't', 'e', ' ', 'd', 'i', 'a', 'g', 'r', 'a', 'm', ' ', 't', 'o', 'o', ' ', 'l', 'a', 'r', 'g', 'e']
}

/// A layout and the label wrappings one drawing uses: the layered
/// layout, then the wrappings for widening corridors, for growing gaps,
/// for sizing the canvas, and for drawing.
pub struct StateWitness {
    pub lay: Seq<Lay>,
    pub w1: Seq<Seq<Seq<char>>>,
    pub w2: Seq<Seq<Seq<char>>>,
    pub w3: Seq<Seq<Seq<char>>>,
    pub w4: Seq<Seq<Seq<char>>>,
}

/// Largest of the first `k` rows (0 for none).
pub open spec fn max_row(rows: Seq<int>, k: int) -> int
    decreases k,
{
    if k <= 0 { 0 } else { imax(max_row(rows, k - 1), rows[k - 1]) }
}

/// Rightmost box edge among the first `k` states.
pub open spec fn max_right(ls: Seq<Lay>, k: int) -> int
    decreases k,
{
    if k <= 0 { 0 } else { imax(max_right(ls, k - 1), ls[k - 1].3.right() as int) }
}

/// Lowest box edge among the first `k` states.
pub open spec fn max_bottom(ls: Seq<Lay>, k: int) -> int
    decreases k,
{
    if k <= 0 { 0 } else { imax(max_bottom(ls, k - 1), ls[k - 1].3.bottom() as int) }
}

/// Every state moved `dy` rows down.
pub open spec fn shift_all(ls: Seq<Lay>, dy: int) -> Seq<Lay> {
    Seq::new(ls.len(), |i: int| with_y(ls[i], sat_add(ls[i].3.y as int, dy)))
}

/// The label rows of the drawing.
pub open spec fn rows_of(g: StateSpec, d: StateWitness) -> Seq<int> {
    label_rows(widened(d.lay, g.transitions, d.w1, g.width as int, g.transitions.len() as int), g.transitions)
}

/// The final layout: widened, gaps grown, then pushed down below the
/// highest stacked label.
pub open spec fn final_lay(g: StateSpec, d: StateWitness) -> Seq<Lay> {
    let e = widened(d.lay, g.transitions, d.w1, g.width as int, g.transitions.len() as int);
    let rows = label_rows(e, g.transitions);
    let gr = grown(e, g.transitions, rows, d.w2);
    let mr = max_row(rows, rows.len() as int);
    if mr > 0 { shift_all(gr, sat_add(mr, 1)) } else { gr }
}

/// Where transition `t`'s label ends on the canvas, as sized: centered
/// on the corridor middle (row 0) or on its upper leg, at its widest
/// line (0 without a label or placed ends).
pub open spec fn label_end(ls: Seq<Lay>, t: Transition, row: int, lines: Seq<Seq<char>>) -> int {
    match (t.label, lay_rect(ls, t.from@), lay_rect(ls, t.to@)) {
        (Some(_), Some(a), Some(b)) => {
            let fcx = a.cx() as int;
            let tcx = b.cx() as int;
            let bx = if row > 0 {
                if a.y < b.y { fcx } else { tcx }
            } else {
                (fcx + tcx) / 2
            };
            let lw = widest(lines) as int;
            sat_add(sat_sub(bx, lw / 2), lw)
        },
        _ => 0,
    }
}

/// `lines` is the label of `t` wrapped as the sizing wraps it: at the
/// corridor (the diagram width for a straight line), at least 10.
pub open spec fn size_wrap_ok(ls: Seq<Lay>, t: Transition, lines: Seq<Seq<char>>, width: int) -> bool {
    match (t.label, lay_rect(ls, t.from@), lay_rect(ls, t.to@)) {
        (Some(text), Some(a), Some(b)) => {
            let c = if a.cx() != b.cx() { corridor(a.cx() as int, b.cx() as int) } else { width };
            wraps_label(lines, text@, imax(c, 10))
        },
        _ => true,
    }
}

/// Canvas width after sizing for the first `k` labels.
pub open spec fn sized_width(ls: Seq<Lay>, ts: Seq<Transition>, rows: Seq<int>, w: Seq<Seq<Seq<char>>>, base: int, k: int) -> int
    decreases k,
{
    if k <= 0 { base } else { imax(sized_width(ls, ts, rows, w, base, k - 1), label_end(ls, ts[k - 1], rows[k - 1], w[k - 1])) }
}

/// Canvas width: right of every box plus a gap, at least the diagram
/// width, and wide enough for every label.
pub open spec fn total_width(g: StateSpec, d: StateWitness) -> int {
    let f = final_lay(g, d);
    let base = imax(sat_add(max_right(f, f.len() as int), 6), g.width as int);
    sized_width(f, g.transitions, rows_of(g, d), d.w3, base, g.transitions.len() as int)
}

/// Lowest row end (exclusive) of the self-loop labels among the first
/// `k` transitions, drawn on a canvas `cw` wide (0 for none).
pub open spec fn loop_reach(ls: Seq<Lay>, ts: Seq<Transition>, cw: int, k: int) -> int
    decreases k,
{
    if k <= 0 {
        0
    } else {
        let prev = loop_reach(ls, ts, cw, k - 1);
        let t = ts[k - 1];
        let here = match (t.label, lay_rect(ls, t.from@)) {
            (Some(text), Some(r)) => if t.from@ == t.to@ {
                sat_add(r.y as int, greedy_wrap(text@, self_loop_avail(r, cw)).len() as int)
            } else {
                0
            },
            _ => 0,
        };
        imax(prev, here)
    }
}

/// Canvas height: below every box, room for the lowest gap and the
/// stacked label rows, and tall enough for every self-loop label.
pub open spec fn total_height(g: StateSpec, d: StateWitness) -> int {
    let f = final_lay(g, d);
    let rows = rows_of(g, d);
    imax(
        sat_add(sat_add(sat_add(max_bottom(f, f.len() as int), 6), sat_mul(max_row(rows, rows.len() as int), 2)), 6),
        loop_reach(f, g.transitions, total_width(g, d), g.transitions.len() as int),
    )
}

/// The self-loop label reach (see [`loop_reach`]).
fn loop_reach_exec(layouts: &Vec<StateLayout>, transitions: &[Transition], cw: usize) -> (r: usize)
    ensures
        r as int == loop_reach(lay_views(layouts@), transitions@, cw as int, transitions@.len() as int),
{
    let ghost ls = lay_views(layouts@);
    let mut best: usize = 0;
    let mut k: usize = 0;
    while k < transitions.len()
        invariant
            k <= transitions@.len(),
            ls == lay_views(layouts@),
            best as int == loop_reach(ls, transitions@, cw as int, k as int),
        decreases transitions@.len() - k,
    {
        let t = &transitions[k];
        let mut here: usize = 0;
        match &t.label {
            Some(text) => {
                if str_eq(t.from.as_str(), t.to.as_str()) {
                    match find_lay(layouts, t.from.as_str()) {
                        Some(i) => {
                            proof {
                                lemma_lay_index_range(ls, t.from@, ls.len() as int);
                            }
                            let r = layouts[i].rect;
                            assert(ls[i as int] == lay_view(layouts@[i as int]));
                            let a = cw.saturating_sub(r.x.saturating_add(r.w).saturating_add(3));
                            let avail = if a > 10 {
                                a
                            } else {
                                10
                            };
                            proof {
                                assert(r.x + r.w + 3 <= usize::MAX || a == 0);
                            }
                            let n = wrap_label(text.as_str(), avail).line_count;
                            here = r.y.saturating_add(n);
                        },
                        None => {},
                    }
                }
            },
            None => {},
        }
        if here > best {
            best = here;
        }
        k = k + 1;
    }
    best
}

/// The layout and the wrappings before drawing are the ones each stage
/// uses.
pub open spec fn witness_ok(g: StateSpec, d: StateWitness) -> bool {
    let ts = g.transitions;
    let e = widened(d.lay, ts, d.w1, g.width as int, ts.len() as int);
    let f = final_lay(g, d);
    &&& is_state_layout(g.states, ts, g.initial is Some, g.width as int, default_params(), d.lay)
    &&& widen_wraps(d.lay, ts, d.w1, g.width as int)
    &&& gap_wraps(e, ts, d.w2)
    &&& d.w3.len() == ts.len()
    &&& forall|k: int| 0 <= k < ts.len() ==> #[trigger] size_wrap_ok(f, ts[k], d.w3[k], g.width as int)
}

/// The drawing's label wrappings are the ones it draws with.
pub open spec fn draw_ok(g: StateSpec, d: StateWitness) -> bool {
    let ts = g.transitions;
    let f = final_lay(g, d);
    &&& d.w4.len() == ts.len()
    &&& forall|k: int| 0 <= k < ts.len() ==> #[trigger] draw_wrap_ok(f, ts[k], d.w4[k], total_width(g, d))
}

/// The drawing stays in the safe range: every box and both canvas
/// sizes.
pub open spec fn fits(g: StateSpec, d: StateWitness) -> bool {
    let f = final_lay(g, d);
    &&& forall|i: int| 0 <= i < f.len() ==> box_ok(#[trigger] f[i].3)
    &&& small(total_width(g, d))
    &&& small(total_height(g, d))
}

/// The text of the drawing: on a blank canvas of the computed size, the
/// initial arrow (when the initial state is placed), the states, the
/// transitions, junctions repaired.
pub open spec fn state_text(g: StateSpec, d: StateWitness) -> Seq<char> {
    let f = final_lay(g, d);
    let v0 = blank_view(total_width(g, d) as nat, total_height(g, d) as nat);
    let fr = SurfaceFrame { x: 0, y: 0, w: v0.width, h: v0.height };
    let v1 = match g.initial {
        Some(id) => match lay_rect(f, id) {
            Some(r) => initial_view(v0, fr, r, g.charset),
            None => v0,
        },
        None => v0,
    };
    let v2 = states_view(v1, fr, f, g.charset, f.len() as int);
    let v3 = transitions_view(
        v2,
        fr,
        f,
        g.transitions,
        rows_of(g, d),
        d.w4,
        g.charset,
        total_width(g, d),
        g.transitions.len() as int,
    );
    v3.repaired(g.charset, LineStyle::Simple).rendered(g.color)
}

/// What building `g` gives: `MissingFields` without states; otherwise,
/// for some layered layout and wrapping of the labels, the drawing, or
/// `InvalidDimensions` when it would leave the safe range.
pub open spec fn state_result(g: StateSpec, r: Result<String>) -> bool {
    if g.states.len() == 0 {
        r matches Err(FigoError::MissingFields(m)) && m@ == no_states_message()
    } else {
        exists|d: StateWitness|
            #[trigger] witness_ok(g, d) && if fits(g, d) {
                r matches Ok(s) && draw_ok(g, d) && s@ == state_text(g, d)
            } else {
                r matches Err(FigoError::InvalidDimensions(m)) && m@ == too_large_message()
            }
    }
}

/// An owned copy of `s`.
fn owned(s: &str) -> (r: String)
    ensures
        r@ == s@,
{
    string_from_chars(crate::width::chars_of(s).as_slice())
}

impl<'a> StateDiagram<'a> {
    /// An empty diagram `width` columns wide.
    pub fn new(width: usize, charset: Charset) -> (r: Self)
        ensures
            r@ == (StateSpec {
                width,
                charset,
                states: Seq::empty(),
                initial: None,
                transitions: Seq::empty(),
                color: false,
            }),
    {
        StateDiagram { width, charset, states: Vec::new(), initial: None, transitions: Vec::new(), color: false }
    }

    /// Add a state.
    pub fn add_state(self, state: StateNode) -> (r: Self)
        ensures
            r@ == (StateSpec { states: self@.states.push(state), ..self@ }),
    {
        let mut s = self;
        s.states.push(state);
        s
    }

    /// Set the initial state (entry point).
    pub fn initial(self, state_id: &'a str) -> (r: Self)
        ensures
            r@ == (StateSpec { initial: Some(state_id@), ..self@ }),
    {
        let mut s = self;
        s.initial = Some(state_id);
        s
    }

    /// Add a transition between two states, by id.
    pub fn add_transition(self, from: &str, to: &str, label: Option<&str>) -> (r: Self)
        ensures
            r@.transitions.len() == self@.transitions.len() + 1,
            r@.transitions.subrange(0, self@.transitions.len() as int) == self@.transitions,
            r@.transitions.last().from@ == from@,
            r@.transitions.last().to@ == to@,
            match label {
                Some(l) => r@.transitions.last().label matches Some(m) && m@ == l@,
                None => r@.transitions.last().label is None,
            },
            r@.width == self@.width,
            r@.charset == self@.charset,
            r@.states == self@.states,
            r@.initial == self@.initial,
            r@.color == self@.color,
    {
        let mut s = self;
        let l = match label {
            Some(t) => Some(owned(t)),
            None => None,
        };
        s.transitions.push(Transition { from: owned(from), to: owned(to), label: l });
        s
    }

    /// Turn colored output on or off.
    pub fn color(self, enabled: bool) -> (r: Self)
        ensures
            r@ == (StateSpec { color: enabled, ..self@ }),
    {
        let mut s = self;
        s.color = enabled;
        s
    }
}

/// Move every state `dy` rows down (see [`shift_all`]).
fn shift_all_exec(layouts: &mut Vec<StateLayout>, dy: usize)
    ensures
        lay_views(final(layouts)@) == shift_all(lay_views(old(layouts)@), dy as int),
{
    let ghost ls = lay_views(layouts@);
    let n = layouts.len();
    let mut i: usize = 0;
    while i < n
        invariant
            i <= n,
            n == layouts@.len(),
            ls.len() == n,
            forall|j: int| 0 <= j < i ==> lay_view(#[trigger] layouts@[j]) == shift_all(ls, dy as int)[j],
            forall|j: int| i <= j < n ==> lay_view(#[trigger] layouts@[j]) == ls[j],
        decreases n - i,
    {
        assert(lay_view(layouts@[i as int]) == ls[i as int]);
        let y = layouts[i].rect.y;
        layouts[i].rect.y = y.saturating_add(dy);
        i = i + 1;
    }
    proof {
        assert(lay_views(layouts@) =~= shift_all(ls, dy as int));
    }
}

/// Largest row (see [`max_row`]).
fn max_row_exec(rows: &Vec<usize>) -> (r: usize)
    ensures
        r as int == max_row(rows@.map_values(|v: usize| v as int), rows@.len() as int),
{
    let ghost rs = rows@.map_values(|v: usize| v as int);
    let mut best: usize = 0;
    let mut k: usize = 0;
    while k < rows.len()
        invariant
            k <= rows@.len(),
            rs == rows@.map_values(|v: usize| v as int),
            best as int == max_row(rs, k as int),
        decreases rows@.len() - k,
    {
        assert(rs[k as int] == rows@[k as int] as int);
        if rows[k] > best {
            best = rows[k];
        }
        k = k + 1;
    }
    best
}

/// Rightmost and lowest box edges (see [`max_right`], [`max_bottom`]).
fn extents(layouts: &Vec<StateLayout>) -> (r: (usize, usize))
    ensures
        r.0 as int == max_right(lay_views(layouts@), layouts@.len() as int),
        r.1 as int == max_bottom(lay_views(layouts@), layouts@.len() as int),
{
    let ghost ls = lay_views(layouts@);
    let mut right: usize = 0;
    let mut bottom: usize = 0;
    let mut k: usize = 0;
    while k < layouts.len()
        invariant
            k <= layouts@.len(),
            ls == lay_views(layouts@),
            right as int == max_right(ls, k as int),
            bottom as int == max_bottom(ls, k as int),
        decreases layouts@.len() - k,
    {
        assert(ls[k as int] == lay_view(layouts@[k as int]));
        let r = layouts[k].rect.right();
        let b = layouts[k].rect.bottom();
        if r > right {
            right = r;
        }
        if b > bottom {
            bottom = b;
        }
        k = k + 1;
    }
    (right, bottom)
}

/// Widen the canvas for every label (see [`sized_width`]); gives the
/// wrappings used.
fn size_for_labels(
    layouts: &Vec<StateLayout>,
    transitions: &[Transition],
    rows: &Vec<usize>,
    base: usize,
    width: usize,
) -> (r: (usize, Ghost<Seq<Seq<Seq<char>>>>))
    requires
        rows@.len() == transitions@.len(),
    ensures
        r.1@.len() == transitions@.len(),
        forall|k: int| 0 <= k < transitions@.len() ==> #[trigger] size_wrap_ok(
            lay_views(layouts@),
            transitions@[k],
            r.1@[k],
            width as int,
        ),
        r.0 as int == sized_width(
            lay_views(layouts@),
            transitions@,
            rows@.map_values(|v: usize| v as int),
            r.1@,
            base as int,
            transitions@.len() as int,
        ),
{
    let ghost ls = lay_views(layouts@);
    let ghost ts = transitions@;
    let ghost rs = rows@.map_values(|v: usize| v as int);
    let ghost mut w: Seq<Seq<Seq<char>>> = Seq::empty();
    let mut total = base;
    let n = transitions.len();
    let mut k: usize = 0;
    while k < n
        invariant
            k <= n,
            n == ts.len(),
            ts == transitions@,
            ls == lay_views(layouts@),
            rs == rows@.map_values(|v: usize| v as int),
            rows@.len() == n,
            w.len() == k,
            forall|j: int| 0 <= j < k ==> #[trigger] size_wrap_ok(ls, ts[j], w[j], width as int),
            total as int == sized_width(ls, ts, rs, w, base as int, k as int),
        decreases n - k,
    {
        let t = &transitions[k];
        let ghost mut lines: Seq<Seq<char>> = Seq::empty();
        let mut end: usize = 0;
        let fi = find_lay(layouts, t.from.as_str());
        let ti = find_lay(layouts, t.to.as_str());
        proof {
            lemma_lay_index_range(ls, t.from@, ls.len() as int);
            lemma_lay_index_range(ls, t.to@, ls.len() as int);
        }
        match (&t.label, fi, ti) {
            (Some(text), Some(a), Some(b)) => {
                let fr = layouts[a].rect;
                let tr = layouts[b].rect;
                assert(ls[a as int] == lay_view(layouts@[a as int]));
                assert(ls[b as int] == lay_view(layouts@[b as int]));
                let fcx = fr.cx();
                let tcx = tr.cx();
                let bx = if rows[k] > 0 {
                    if fr.y < tr.y { fcx } else { tcx }
                } else {
                    midpoint(fcx, tcx)
                };
                let c = if fcx != tcx { corridor_exec(fcx, tcx) } else { width };
                let avail = if c > 10 { c } else { 10 };
                let (ls2, _n, lw) = wrap_text(text.as_str(), avail);
                proof {
                    lines = views(ls2@);
                }
                assert(rs[k as int] == rows@[k as int] as int);
                end = bx.saturating_sub(lw / 2).saturating_add(lw);
                assert(end as int == label_end(ls, *t, rs[k as int], lines));
            },
            _ => {},
        }
        proof {
            let w2 = w.push(lines);
            assert(w2[k as int] == lines);
            lemma_sized_prefix(ls, ts, rs, w, w2, base as int, k as int);
            assert forall|j: int| 0 <= j < k + 1 implies #[trigger] size_wrap_ok(ls, ts[j], w2[j], width as int) by {
                if j < k {
                    assert(w2[j] == w[j]);
                }
            }
            w = w2;
        }
        if end > total {
            total = end;
        }
        k = k + 1;
    }
    (total, Ghost(w))
}

proof fn lemma_sized_prefix(
    ls: Seq<Lay>,
    ts: Seq<Transition>,
    rs: Seq<int>,
    w: Seq<Seq<Seq<char>>>,
    w2: Seq<Seq<Seq<char>>>,
    base: int,
    k: int,
)
    requires
        0 <= k <= w.len(),
        k <= w2.len(),
        forall|j: int| 0 <= j < k ==> w[j] == w2[j],
    ensures
        sized_width(ls, ts, rs, w, base, k) == sized_width(ls, ts, rs, w2, base, k),
    decreases k,
{
    if k > 0 {
        lemma_sized_prefix(ls, ts, rs, w, w2, base, k - 1);
    }
}

fn no_states_text() -> (r: String)
    ensures
        r@ == no_states_message(),
{
    let v = vec!['n', 'o', ' ', 's', 't', 'a', 't', 'e', 's', ' ', 's', 'p', 'e', 'c', 'i', 'f', 'i', 'e', 'd'];
    assert(v@ =~= no_states_message());
    string_from_chars(v.as_slice())
}

fn too_large_text() -> (r: String)
    ensures
        r@ == too_large_message(),
{
    let v = vec!['s', 't', 'a', 't', 'e', ' ', 'd', 'i', 'a', 'g', 'r', 'a', 'm', ' ', 't', 'o', 'o', ' ', 'l', 'a', 'r', 'g', 'e'];
    assert(v@ =~= too_large_message());
    string_from_chars(v.as_slice())
}

/// Every box is within the safe range.
fn boxes_ok(layouts: &Vec<StateLayout>) -> (r: bool)
    ensures
        r == forall|i: int| 0 <= i < layouts@.len() ==> box_ok(#[trigger] layouts@[i].rect),
{
    let b = usize::MAX / 8;
    let mut k: usize = 0;
    while k < layouts.len()
        invariant
            k <= layouts@.len(),
            b == usize::MAX / 8,
            forall|i: int| 0 <= i < k ==> box_ok(#[trigger] layouts@[i].rect),
        decreases layouts@.len() - k,
    {
        let r = layouts[k].rect;
        if r.x >= b || r.w >= b || r.y >= b || r.h >= b || r.x + r.w + 2 >= b || r.y + r.h + 2 >= b || r.h < 1 {
            assert(!box_ok(layouts@[k as int].rect));
            return false;
        }
        k = k + 1;
    }
    true
}

impl<'a> StateDiagram<'a> {
    /// Draw the diagram (see [`state_result`]).
    pub fn build(&self) -> (r: Result<String>)
        ensures
            state_result(self@, r),
    {
        let ghost g = self@;
        if self.states.len() == 0 {
            return Err(FigoError::MissingFields(no_states_text()));
        }
        let params = LayoutParams::default();
        let mut layouts = layout_states(
            self.states.as_slice(),
            self.transitions.as_slice(),
            self.initial,
            self.width,
            &params,
        );
        let ghost lay0 = lay_views(layouts@);
        let w1 = expand_corridors_for_labels(&mut layouts, self.transitions.as_slice(), self.width);
        let ghost e = lay_views(layouts@);
        let rows = compute_label_rows(self.transitions.as_slice(), &layouts);
        let w2 = apply_gap_expansion(&mut layouts, self.transitions.as_slice(), &rows);
        let mr = max_row_exec(&rows);
        if mr > 0 {
            shift_all_exec(&mut layouts, mr.saturating_add(1));
        }
        let (right, bottom) = extents(&layouts);
        let base0 = right.saturating_add(6);
        let base = if base0 > self.width { base0 } else { self.width };
        let (total_w, w3) = size_for_labels(&layouts, self.transitions.as_slice(), &rows, base, self.width);
        let h0 = bottom.saturating_add(6).saturating_add(mul_sat(mr, 2)).saturating_add(6);
        let reach = loop_reach_exec(&layouts, self.transitions.as_slice(), total_w);
        let total_h = if h0 > reach {
            h0
        } else {
            reach
        };
        let ghost d0 = StateWitness { lay: lay0, w1: w1@, w2: w2@, w3: w3@, w4: Seq::empty() };
        proof {
            assert(params == default_params());
            assert(g.states == self.states@);
            assert(g.transitions == self.transitions@);
            assert(lay_views(layouts@) == final_lay(g, d0));
            assert(rows@.map_values(|v: usize| v as int) == rows_of(g, d0));
            assert(total_w as int == total_width(g, d0));
            assert(total_h as int == total_height(g, d0));
            assert(witness_ok(g, d0));
        }
        let bound = usize::MAX / 8;
        if !boxes_ok(&layouts) || total_w >= bound || total_h >= bound {
            proof {
                if !(forall|i: int| 0 <= i < layouts@.len() ==> box_ok(#[trigger] layouts@[i].rect)) {
                    let i = choose|i: int| 0 <= i < layouts@.len() && !box_ok(#[trigger] layouts@[i].rect);
                    assert(final_lay(g, d0)[i].3 == layouts@[i].rect);
                }
                assert(!fits(g, d0));
            }
            return Err(FigoError::InvalidDimensions(too_large_text()));
        }
        let mut canvas = Canvas::new(total_w, total_h);
        let ghost w4: Seq<Seq<Seq<char>>>;
        {
            let mut surface = Surface::new(&mut canvas);
            match self.initial {
                Some(id) => match find_lay(&layouts, id) {
                    Some(i) => {
                        proof {
                            lemma_lay_index_range(lay_views(layouts@), id@, layouts@.len() as int);
                        }
                        draw_initial_arrow(&mut surface, layouts[i].rect, self.charset);
                    },
                    None => {},
                },
                None => {},
            }
            draw_states(&mut surface, &layouts, self.charset);
            let gw = draw_transitions(
                &mut surface,
                &layouts,
                self.transitions.as_slice(),
                &rows,
                self.charset,
                total_w,
            );
            proof {
                w4 = gw@;
                surface.lemma_view();
                Surface::lemma_done(surface);
            }
        }
        canvas.repair_connector_junctions(LineStyle::Simple, self.charset);
        let out = canvas.render(self.color);
        proof {
            let d = StateWitness { w4, ..d0 };
            assert(witness_ok(g, d));
            assert(fits(g, d));
            assert(draw_ok(g, d));
            assert(out@ == state_text(g, d));
        }
        Ok(out)
    }

    /// Same as [`StateDiagram::build`].
    pub fn render(&self) -> (r: Result<String>)
        ensures
            state_result(self@, r),
    {
        self.build()
    }
}

} // verus!
