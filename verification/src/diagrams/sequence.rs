//! Sequence diagrams: participants with lifelines and the messages
//! between them.
//!
//! Each participant owns a lane of `lane_width` cells; its box sits one
//! cell into the lane so neighbouring boxes are two cells apart. Names
//! always fit their lane; message labels widen the lanes (or the right
//! margin, for a self message on the last lane) up to the display
//! budget, and otherwise wrap inside the free columns between the
//! lifelines. Sums and products that would pass `usize::MAX` saturate.

use vstd::prelude::*;
use crate::canvas::{blank_view, Canvas, CanvasView, Layer};
use crate::diagrams::arrow::{sat_add, wraps_label};
use crate::diagrams::table::{imax, imin, mul_sat, sat_mul};
use crate::error::{FigoError, Result};
use crate::geom::{Anchor, Rect};
use crate::layout::connector::{connector_small, connector_view, rect_small, snapped, Connector};
use crate::layout::routing::{sat_sub, small};
use crate::style::{spec_glyphs, BorderGlyphs, BorderStyle, Charset, LineStyle};
use crate::diagrams::gantt::wrap_entry;
use crate::text::{chars_eq, views};
use crate::width::{chars_of, chars_width, seq_display_width, string_from_chars};

verus! {

/// Gap between neighbouring participant boxes.
pub const LANE_GAP: usize = 2;

/// Columns a self-message loop takes right of its lifeline.
pub const SELF_LOOP_COLS: usize = 4;

/// Cap on the lane width spread over a wide canvas.
pub const IDEAL_LANE_CAP: usize = 40;

/// A message from one participant to another (or to itself).
#[derive(Debug, Clone)]
pub struct SequenceMessage {
    pub from: String,
    pub to: String,
    pub label: String,
}

/// Builder for sequence diagrams.
pub struct SequenceDiagram<'a> {
    width: usize,
    label_budget: usize,
    charset: Charset,
    participants: Vec<&'a str>,
    messages: Vec<SequenceMessage>,
    color: bool,
}

/// A message's texts.
pub struct MsgSpec {
    pub from: Seq<char>,
    pub to: Seq<char>,
    pub label: Seq<char>,
}

/// The settings and contents of a sequence diagram.
pub struct SeqSpec {
    pub width: usize,
    pub label_budget: usize,
    pub charset: Charset,
    pub participants: Seq<Seq<char>>,
    pub messages: Seq<MsgSpec>,
    pub color: bool,
}

pub open spec fn msg_spec(m: SequenceMessage) -> MsgSpec {
    MsgSpec { from: m.from@, to: m.to@, label: m.label@ }
}

pub open spec fn msgs_spec(ms: Seq<SequenceMessage>) -> Seq<MsgSpec> {
    Seq::new(ms.len(), |i: int| msg_spec(ms[i]))
}

pub open spec fn names_spec(ps: Seq<&str>) -> Seq<Seq<char>> {
    Seq::new(ps.len(), |i: int| ps[i]@)
}

impl<'a> View for SequenceDiagram<'a> {
    type V = SeqSpec;

    closed spec fn view(&self) -> SeqSpec {
        SeqSpec {
            width: self.width,
            label_budget: self.label_budget,
            charset: self.charset,
            participants: names_spec(self.participants@),
            messages: msgs_spec(self.messages@),
            color: self.color,
        }
    }
}

/// An owned copy of `s`.
fn owned(s: &str) -> (r: String)
    ensures
        r@ == s@,
{
    string_from_chars(chars_of(s).as_slice())
}

impl<'a> SequenceDiagram<'a> {
    /// A diagram `width` columns wide whose labels may not widen it.
    pub fn new(width: usize, charset: Charset) -> (r: Self)
        ensures
            r@ == (SeqSpec {
                width,
                label_budget: width,
                charset,
                participants: Seq::empty(),
                messages: Seq::empty(),
                color: false,
            }),
    {
        let r = SequenceDiagram {
            width,
            label_budget: width,
            charset,
            participants: Vec::new(),
            messages: Vec::new(),
            color: false,
        };
        assert(names_spec(r.participants@) =~= Seq::empty());
        assert(msgs_spec(r.messages@) =~= Seq::empty());
        r
    }

    /// Let message labels widen the diagram up to `budget` columns.
    pub fn label_budget(self, budget: usize) -> (r: Self)
        ensures
            r@ == (SeqSpec { label_budget: budget, ..self@ }),
    {
        SequenceDiagram { label_budget: budget, ..self }
    }

    /// Add a participant.
    pub fn add_participant(self, name: &'a str) -> (r: Self)
        ensures
            r@ == (SeqSpec { participants: self@.participants.push(name@), ..self@ }),
    {
        let mut s = self;
        let ghost p0 = s.participants@;
        s.participants.push(name);
        assert(names_spec(s.participants@) =~= names_spec(p0).push(name@));
        s
    }

    /// Add a message.
    pub fn add_message(self, from: &str, to: &str, label: &str) -> (r: Self)
        ensures
            r@ == (SeqSpec {
                messages: self@.messages.push(MsgSpec { from: from@, to: to@, label: label@ }),
                ..self@
            }),
    {
        let mut s = self;
        let ghost m0 = s.messages@;
        let m = SequenceMessage { from: owned(from), to: owned(to), label: owned(label) };
        s.messages.push(m);
        assert(msgs_spec(s.messages@) =~= msgs_spec(m0).push(MsgSpec { from: from@, to: to@, label: label@ }));
        s
    }

    /// Enable or disable color output.
    pub fn color(self, enabled: bool) -> (r: Self)
        ensures
            r@ == (SeqSpec { color: enabled, ..self@ }),
    {
        SequenceDiagram { color: enabled, ..self }
    }
}

// ---------------------------------------------------------------------
// Lanes
// ---------------------------------------------------------------------

/// Index of the last of the first `k` participants named `name`.
pub open spec fn name_index(ps: Seq<Seq<char>>, name: Seq<char>, k: int) -> Option<int>
    decreases k,
{
    if k <= 0 {
        None
    } else if ps[k - 1] == name {
        Some(k - 1)
    } else {
        name_index(ps, name, k - 1)
    }
}

proof fn lemma_name_index_range(ps: Seq<Seq<char>>, name: Seq<char>, k: int)
    ensures
        name_index(ps, name, k) matches Some(i) ==> 0 <= i < k,
    decreases k,
{
    if k > 0 {
        lemma_name_index_range(ps, name, k - 1);
    }
}

proof fn lemma_name_index_exact(ps: Seq<Seq<char>>, name: Seq<char>, k: int)
    requires
        0 <= k <= ps.len(),
    ensures
        name_index(ps, name, k) matches Some(i) ==> 0 <= i < k && ps[i] == name && forall|j: int|
            i < j < k ==> ps[j] != name,
        name_index(ps, name, k) is None <==> forall|j: int| 0 <= j < k ==> ps[j] != name,
    decreases k,
{
    if k > 0 {
        lemma_name_index_exact(ps, name, k - 1);
    }
}

/// Participant lookup is by exact name: a message end resolves to a
/// participant exactly when one has that name, and then to one whose
/// name equals it (the last of equal names); an unknown name falls back
/// to the first participant.
pub proof fn law_participant_lookup_is_exact(ps: Seq<Seq<char>>, name: Seq<char>)
    ensures
        (exists|i: int| 0 <= i < ps.len() && ps[i] == name) <==> name_index(ps, name, ps.len() as int) is Some,
        name_index(ps, name, ps.len() as int) matches Some(i) ==> 0 <= i < ps.len() && ps[i] == name
            && forall|j: int| i < j < ps.len() ==> ps[j] != name,
        forall|i: int|
            0 <= i < ps.len() && #[trigger] ps[i] == name ==> 0 <= index_or_first(ps, name) < ps.len() && ps[index_or_first(
                ps,
                name,
            )] == name,
        (forall|i: int| 0 <= i < ps.len() ==> ps[i] != name) ==> index_or_first(ps, name) == 0,
{
    lemma_name_index_exact(ps, name, ps.len() as int);
}

/// The participant a message end names (the first one when none is).
pub open spec fn index_or_first(ps: Seq<Seq<char>>, name: Seq<char>) -> int {
    match name_index(ps, name, ps.len() as int) {
        Some(i) => i,
        None => 0,
    }
}

/// Number of lanes.
pub open spec fn lane_count(g: SeqSpec) -> int {
    imax(g.participants.len() as int, 1)
}

/// Widest of the first `k` names.
pub open spec fn max_name_w(ps: Seq<Seq<char>>, k: int) -> int
    decreases k,
{
    if k <= 0 {
        0
    } else {
        imax(max_name_w(ps, k - 1), chars_width(ps[k - 1]) as int)
    }
}

/// Lane width that fits the widest name: the name, two cells of padding
/// on each side and the gap.
pub open spec fn name_lane(g: SeqSpec) -> int {
    let w = if g.participants.len() == 0 {
        5
    } else {
        max_name_w(g.participants, g.participants.len() as int)
    };
    sat_add(w, 6)
}

/// Lane width before labels: the width spread over the lanes (at most
/// 40), never narrower than the names need.
pub open spec fn base_lane(g: SeqSpec) -> int {
    imax(imin(g.width as int / lane_count(g), IDEAL_LANE_CAP as int), name_lane(g))
}

/// `a / b` rounded up.
pub open spec fn ceil_div(a: int, b: int) -> int {
    a / b + if a % b == 0 {
        0int
    } else {
        1int
    }
}

/// What the labels of the first `k` messages ask for: the lane width,
/// and the right margin for a self message on the last lane.
pub open spec fn label_needs(g: SeqSpec, k: int) -> (int, int)
    decreases k,
{
    if k <= 0 {
        (0, 0)
    } else {
        let prev = label_needs(g, k - 1);
        let m = g.messages[k - 1];
        let ps = g.participants;
        if m.label.len() == 0 {
            prev
        } else {
            match (name_index(ps, m.from, ps.len() as int), name_index(ps, m.to, ps.len() as int)) {
                (Some(fi), Some(ti)) => {
                    let lw = chars_width(m.label) as int;
                    if fi == ti {
                        let need = sat_add(sat_add(SELF_LOOP_COLS as int, lw), 1);
                        if fi + 1 < lane_count(g) {
                            (imax(prev.0, need), prev.1)
                        } else {
                            (prev.0, imax(prev.1, need))
                        }
                    } else {
                        let span = imax(if fi > ti {
                            fi - ti
                        } else {
                            ti - fi
                        }, 1);
                        (imax(prev.0, ceil_div(sat_add(lw, 2), span)), prev.1)
                    }
                },
                _ => prev,
            }
        }
    }
}

/// Width of every lane: what the labels ask for, at least the base lane,
/// at most the budget share (which never goes below the base lane).
pub open spec fn lane_width(g: SeqSpec) -> int {
    let needs = label_needs(g, g.messages.len() as int);
    imin(imax(base_lane(g), needs.0), imax(g.label_budget as int / lane_count(g), base_lane(g)))
}

/// Right margin for a last-lane self label, within the budget.
pub open spec fn right_margin(g: SeqSpec) -> int {
    let needs = label_needs(g, g.messages.len() as int);
    imin(needs.1, sat_sub(g.label_budget as int, sat_mul(lane_width(g), lane_count(g))))
}

/// Inner width of a participant box.
pub open spec fn box_width(g: SeqSpec) -> int {
    lane_width(g) - LANE_GAP
}

/// Lifeline column of participant `i`: the center of its box.
pub open spec fn lifeline(g: SeqSpec, i: int) -> int {
    sat_add(sat_add(sat_mul(i, lane_width(g)), 1), (box_width(g) - 1) / 2)
}

/// Lanes run left to right: participant `j` after participant `i`
/// has its lifeline exactly `j - i` lane widths further right.
pub proof fn law_lifelines_left_to_right(g: SeqSpec, i: int, j: int)
    requires
        0 <= i <= j,
        lane_width(g) > 0,
        box_width(g) >= 1,
        j * lane_width(g) + box_width(g) + 1 <= usize::MAX,
    ensures
        lifeline(g, j) - lifeline(g, i) == (j - i) * lane_width(g),
        i < j ==> lifeline(g, i) < lifeline(g, j),
{
    let lw = lane_width(g);
    assert(0 <= i * lw <= j * lw) by (nonlinear_arith)
        requires
            0 <= i <= j,
            lw > 0,
    ;
    assert((j - i) * lw == j * lw - i * lw) by (nonlinear_arith);
    assert(i < j ==> i * lw < j * lw) by (nonlinear_arith)
        requires
            lw > 0,
    ;
    assert(sat_mul(i, lw) == i * lw);
    assert(sat_mul(j, lw) == j * lw);
}

/// Width of the diagram: the lanes and margin, at least `width`, and
/// room right of a last-lane self loop for a two-column label.
pub open spec fn total_width(g: SeqSpec) -> int {
    let needs = label_needs(g, g.messages.len() as int);
    imax(
        imax(sat_add(sat_mul(lane_width(g), lane_count(g)), right_margin(g)), g.width as int),
        if needs.1 > 0 {
            sat_add(lifeline(g, lane_count(g) - 1), (SELF_LOOP_COLS + 2) as int)
        } else {
            0
        },
    )
}

/// Free columns (inclusive) for a message's label: between the lifeline
/// of the leftmost end and the next lifeline to its right, or from right
/// of a self loop to the next lifeline (or the diagram's edge). A label
/// wrapped to this region never covers a lifeline column.
pub open spec fn label_region(g: SeqSpec, f: int, t: int) -> (int, int) {
    if f == t {
        (
            sat_add(lifeline(g, f), SELF_LOOP_COLS as int),
            if f + 1 < lane_count(g) {
                sat_sub(lifeline(g, f + 1), 1)
            } else {
                sat_sub(total_width(g), 1)
            },
        )
    } else {
        let lo = imin(f, t);
        (sat_add(lifeline(g, lo), 1), sat_sub(lifeline(g, lo + 1), 1))
    }
}

/// Width of a label region.
pub open spec fn region_width(r: (int, int)) -> int {
    sat_add(sat_sub(r.1, r.0), 1)
}

proof fn lemma_lane_bounds(g: SeqSpec)
    ensures
        lane_width(g) >= 6,
        box_width(g) >= 4,
        lane_count(g) >= 1,
        lane_width(g) <= usize::MAX,
        total_width(g) <= usize::MAX,
{
    let nl = name_lane(g);
    assert(nl >= 6);
    assert(nl <= usize::MAX);
    assert(lane_count(g) >= 1);
    let d = lane_count(g);
    assert(g.width as int / d <= g.width) by (nonlinear_arith)
        requires
            d >= 1,
            g.width >= 0,
    ;
    assert(g.label_budget as int / d <= g.label_budget) by (nonlinear_arith)
        requires
            d >= 1,
            g.label_budget >= 0,
    ;
}


/// Lane geometry of a diagram: the lane count, the lane width and the
/// diagram width.
struct LaneLayout {
    n: usize,
    lane_width: usize,
    total_width: usize,
}

/// The lane geometry is that of `g`.
spec fn lanes_of(l: LaneLayout, g: SeqSpec) -> bool {
    &&& l.n == lane_count(g)
    &&& l.lane_width == lane_width(g)
    &&& l.total_width == total_width(g)
}

impl<'a> SequenceDiagram<'a> {
    /// Index of the last participant named `name`.
    fn find_participant(&self, name: &str) -> (r: Option<usize>)
        ensures
            match r {
                Some(i) => name_index(self@.participants, name@, self@.participants.len() as int) == Some(i as int),
                None => name_index(self@.participants, name@, self@.participants.len() as int) is None,
            },
    {
        let ghost ps = self@.participants;
        let target = chars_of(name);
        let mut k: usize = self.participants.len();
        assert(ps.len() == self.participants@.len());
        while k > 0
            invariant
                ps == self@.participants,
                ps.len() == self.participants@.len(),
                k <= ps.len(),
                target@ == name@,
                name_index(ps, name@, ps.len() as int) == name_index(ps, name@, k as int),
            decreases k,
        {
            let cand = chars_of(self.participants[k - 1]);
            proof {
                assert(ps[k - 1] == self.participants@[k - 1]@);
            }
            if chars_eq(cand.as_slice(), target.as_slice()) {
                return Some(k - 1);
            }
            k = k - 1;
        }
        None
    }

    /// The lane geometry (see `lane_width` and `total_width`).
    fn lanes(&self) -> (r: LaneLayout)
        ensures
            lanes_of(r, self@),
    {
        let ghost g = self@;
        proof {
            lemma_lane_bounds(g);
        }
        let np = self.participants.len();
        let n: usize = if np > 1 {
            np
        } else {
            1
        };
        let mut mw: usize = 0;
        let mut i: usize = 0;
        while i < np
            invariant
                g == self@,
                np == g.participants.len(),
                i <= np,
                mw == max_name_w(g.participants, i as int),
            decreases np - i,
        {
            proof {
                assert(g.participants[i as int] == self.participants@[i as int]@);
            }
            let w = seq_display_width(chars_of(self.participants[i]).as_slice());
            if w > mw {
                mw = w;
            }
            i = i + 1;
        }
        let widest: usize = if np == 0 {
            5
        } else {
            mw
        };
        let name_lane = widest.saturating_add(6);
        let share = self.width / n;
        let capped = if share < IDEAL_LANE_CAP {
            share
        } else {
            IDEAL_LANE_CAP
        };
        let base = if capped > name_lane {
            capped
        } else {
            name_lane
        };
        assert(base == base_lane(g));
        let mut label_lane: usize = 0;
        let mut label_margin: usize = 0;
        let mut k: usize = 0;
        while k < self.messages.len()
            invariant
                g == self@,
                k <= g.messages.len(),
                g.messages.len() == self.messages@.len(),
                n as int == lane_count(g),
                (label_lane as int, label_margin as int) == label_needs(g, k as int),
            decreases g.messages.len() - k,
        {
            let m = &self.messages[k];
            proof {
                assert(g.messages[k as int] == msg_spec(self.messages@[k as int]));
                lemma_name_index_range(g.participants, m.from@, g.participants.len() as int);
                lemma_name_index_range(g.participants, m.to@, g.participants.len() as int);
            }
            let label = chars_of(m.label.as_str());
            if label.len() > 0 {
                let fi = self.find_participant(m.from.as_str());
                let ti = self.find_participant(m.to.as_str());
                match (fi, ti) {
                    (Some(f), Some(t)) => {
                        let lw = seq_display_width(label.as_slice());
                        if f == t {
                            let need = SELF_LOOP_COLS.saturating_add(lw).saturating_add(1);
                            if f + 1 < n {
                                if need > label_lane {
                                    label_lane = need;
                                }
                            } else {
                                if need > label_margin {
                                    label_margin = need;
                                }
                            }
                        } else {
                            let d = if f > t {
                                f - t
                            } else {
                                t - f
                            };
                            let a = lw.saturating_add(2);
                            assert(d >= 2 ==> a / d < usize::MAX) by (nonlinear_arith)
                                requires
                                    d >= 1,
                                    a <= usize::MAX,
                            ;
                            assert(d == 1 ==> a % d == 0) by (nonlinear_arith)
                                requires
                                    d >= 1,
                            ;
                            let q = a / d + if a % d == 0 {
                                0
                            } else {
                                1
                            };
                            if q > label_lane {
                                label_lane = q;
                            }
                        }
                    },
                    _ => {},
                }
            }
            k = k + 1;
        }
        let bshare = self.label_budget / n;
        let lane_cap = if bshare > base {
            bshare
        } else {
            base
        };
        let want = if label_lane > base {
            label_lane
        } else {
            base
        };
        let lane_w = if want < lane_cap {
            want
        } else {
            lane_cap
        };
        assert(lane_w == lane_width(g));
        let margin_cap = self.label_budget.saturating_sub(mul_sat(lane_w, n));
        let right_margin = if label_margin < margin_cap {
            label_margin
        } else {
            margin_cap
        };
        let layout0 = LaneLayout { n, lane_width: lane_w, total_width: 0 };
        let last = layout0.lifeline(n - 1, Ghost(g));
        let floor: usize = if label_margin > 0 {
            last.saturating_add(SELF_LOOP_COLS + 2)
        } else {
            0
        };
        let a = mul_sat(lane_w, n).saturating_add(right_margin);
        let b = if a > self.width {
            a
        } else {
            self.width
        };
        let total = if b > floor {
            b
        } else {
            floor
        };
        LaneLayout { n, lane_width: lane_w, total_width: total }
    }
}

impl LaneLayout {
    /// Inner width of a participant box.
    fn box_width(&self, Ghost(g): Ghost<SeqSpec>) -> (r: usize)
        requires
            self.lane_width == lane_width(g),
        ensures
            r == box_width(g),
    {
        proof {
            lemma_lane_bounds(g);
        }
        self.lane_width - LANE_GAP
    }

    /// Lifeline column of participant `i`.
    fn lifeline(&self, i: usize, Ghost(g): Ghost<SeqSpec>) -> (r: usize)
        requires
            self.lane_width == lane_width(g),
        ensures
            r == lifeline(g, i as int),
    {
        let bw = self.box_width(Ghost(g));
        mul_sat(i, self.lane_width).saturating_add(1).saturating_add((bw - 1) / 2)
    }

    /// Free columns for the label of a message from `f` to `t`.
    fn label_region(&self, f: usize, t: usize, Ghost(g): Ghost<SeqSpec>) -> (r: (usize, usize))
        requires
            lanes_of(*self, g),
        ensures
            r.0 as int == label_region(g, f as int, t as int).0,
            r.1 as int == label_region(g, f as int, t as int).1,
    {
        if f == t {
            let lx = self.lifeline(f, Ghost(g));
            let right = if f < self.n - 1 {
                self.lifeline(f + 1, Ghost(g)).saturating_sub(1)
            } else {
                self.total_width.saturating_sub(1)
            };
            (lx.saturating_add(SELF_LOOP_COLS), right)
        } else {
            let lo = if f < t {
                f
            } else {
                t
            };
            let a = self.lifeline(lo, Ghost(g));
            let b = self.lifeline(lo + 1, Ghost(g));
            (a.saturating_add(1), b.saturating_sub(1))
        }
    }
}


// ---------------------------------------------------------------------
// The picture
// ---------------------------------------------------------------------

/// Participant boxes use rounded borders.
pub open spec fn seq_glyphs(g: SeqSpec) -> BorderGlyphs {
    spec_glyphs(BorderStyle::Rounded, g.charset)
}

/// The two participants of message `m`.
pub open spec fn msg_ends(g: SeqSpec, m: int) -> (int, int) {
    (index_or_first(g.participants, g.messages[m].from), index_or_first(g.participants, g.messages[m].to))
}

/// Free columns for the label of message `m`.
pub open spec fn msg_region(g: SeqSpec, m: int) -> (int, int) {
    label_region(g, msg_ends(g, m).0, msg_ends(g, m).1)
}

/// Rows of message `m` with `n` label lines: the label (at least one
/// row), the arrow row and a blank row; a self loop takes one row more.
pub open spec fn msg_height(g: SeqSpec, m: int, n: int) -> int {
    sat_add(imax(n, 1), if msg_ends(g, m).0 == msg_ends(g, m).1 {
        3int
    } else {
        2int
    })
}

/// Rows of the first `k` messages.
pub open spec fn msgs_height(g: SeqSpec, ls: Seq<Seq<Seq<char>>>, k: int) -> int
    decreases k,
{
    if k <= 0 {
        0
    } else {
        sat_add(msgs_height(g, ls, k - 1), msg_height(g, k - 1, ls[k - 1].len() as int))
    }
}

/// Height of the diagram: the header, the messages and a last row.
pub open spec fn seq_height(g: SeqSpec, ls: Seq<Seq<Seq<char>>>) -> int {
    sat_add(sat_add(3, msgs_height(g, ls, g.messages.len() as int)), 1)
}

/// Arrow row of message `m`: below the rows its label takes.
pub open spec fn arrow_row(g: SeqSpec, ls: Seq<Seq<Seq<char>>>, m: int) -> int {
    sat_add(sat_add(4, msgs_height(g, ls, m)), imax(ls[m].len() as int, 1))
}

/// Arrowhead of a message going right or left.
pub open spec fn head_glyph(cs: Charset, rightward: bool) -> char {
    match cs {
        Charset::Unicode => if rightward {
            '\u{25b6}'
        } else {
            '\u{25c0}'
        },
        Charset::Ascii => if rightward {
            '>'
        } else {
            '<'
        },
    }
}

/// `c` is the connector of a message from column `fx` to column `tx` on
/// row `y`: between two one-cell rects on the lifelines, leaving the
/// source on the side facing the target, with the charset's arrowhead.
pub open spec fn msg_conn_ok(c: Connector, fx: int, tx: int, y: int, cs: Charset) -> bool {
    let right = fx < tx;
    let sa = if right {
        Anchor::East
    } else {
        Anchor::West
    };
    let ta = if right {
        Anchor::West
    } else {
        Anchor::East
    };
    let sr = Rect { x: fx as usize, y: y as usize, w: 1, h: 1 };
    let tr = Rect { x: tx as usize, y: y as usize, w: 1, h: 1 };
    &&& c.source == snapped(sr, sa)
    &&& c.target == snapped(tr, ta)
    &&& c.source_anchor == sa
    &&& c.target_anchor == ta
    &&& c.source_rect == sr
    &&& c.target_rect == tr
    &&& c.avoid@.len() == 0
    &&& c.style == LineStyle::Simple
    &&& c.charset == cs
    &&& !c.arrow_tail
    &&& c.arrow_head == head_glyph(cs, right)
    &&& c.label is None
    &&& c.user_width is None
}

/// Columns and row of a message are far from the machine range.
pub open spec fn msg_small(fx: int, tx: int, y: int) -> bool {
    small(fx + 3) && small(tx + 3) && small(y + 3)
}

/// Lifelines `0..k`, from the header's bottom row to the last row.
pub open spec fn lifelines(v: CanvasView, g: SeqSpec, h: int, k: int) -> CanvasView
    decreases k,
{
    if k <= 0 {
        v
    } else {
        lifelines(v, g, h, k - 1).vline(
            lifeline(g, k - 1),
            3,
            sat_add(sat_sub(sat_sub(h, 1), 3), 1),
            seq_glyphs(g).vertical,
            Layer::Connector,
        )
    }
}

/// Header boxes `0..k`: the box, its name centered, and the tee where
/// the lifeline leaves it.
pub open spec fn headers(v: CanvasView, g: SeqSpec, k: int) -> CanvasView
    decreases k,
{
    if k <= 0 {
        v
    } else {
        let i = k - 1;
        let hx = sat_add(sat_mul(i, lane_width(g)), 1);
        let name = g.participants[i];
        let name_x = sat_add(hx, sat_sub(box_width(g), chars_width(name) as int) / 2);
        headers(v, g, k - 1).rect(hx, 0, box_width(g), 3, seq_glyphs(g)).put_str(
            name_x,
            1,
            name,
            Layer::NodeContent,
            None,
        ).put(lifeline(g, i), 2, seq_glyphs(g).tee_up, Layer::NodeBorder, None)
    }
}

/// Label lines `0..k` of a message, each centered in its region when it
/// fits, ending just above the arrow row `y`.
pub open spec fn msg_label_rows(v: CanvasView, region: (int, int), y: int, lines: Seq<Seq<char>>, k: int) -> CanvasView
    decreases k,
{
    if k <= 0 {
        v
    } else {
        let i = k - 1;
        let rw = region_width(region);
        let lw = chars_width(lines[i]) as int;
        let x = if lw <= rw {
            sat_add(region.0, (rw - lw) / 2)
        } else {
            region.0
        };
        let num = imax(lines.len() as int, 1);
        msg_label_rows(v, region, y, lines, k - 1).put_str(
            x,
            sat_add(sat_sub(y, num), i),
            lines[i],
            Layer::Label,
            None,
        )
    }
}

/// A self message: a small loop right of the lifeline ending in `<`, its
/// label right of the loop, above the arrow row.
pub open spec fn self_msg(v: CanvasView, fx: int, y: int, v_ch: char, lines: Seq<Seq<char>>) -> CanvasView {
    let uni = v_ch == '\u{2502}';
    let ctr = if uni {
        '\u{2510}'
    } else {
        '+'
    };
    let cbr = if uni {
        '\u{2518}'
    } else {
        '+'
    };
    let h_ch = if uni {
        '\u{2500}'
    } else {
        '-'
    };
    let w = v.put(fx, y, h_ch, Layer::Connector, None).put(fx + 1, y, ctr, Layer::Connector, None).vline(
        fx + 2,
        y + 1,
        2,
        v_ch,
        Layer::Connector,
    ).put(fx + 2, y + 2, cbr, Layer::Connector, None).put(fx, y + 2, '<', Layer::ConnectorEnd, None).hline(
        fx + 1,
        y + 2,
        2,
        h_ch,
        Layer::Connector,
    );
    self_labels(w, fx + SELF_LOOP_COLS, sat_sub(y, imax(lines.len() as int, 1)), lines, lines.len() as int)
}

/// Lines `0..k` of a self message's label from (`x`, `y`).
pub open spec fn self_labels(v: CanvasView, x: int, y: int, lines: Seq<Seq<char>>, k: int) -> CanvasView
    decreases k,
{
    if k <= 0 {
        v
    } else {
        self_labels(v, x, y, lines, k - 1).put_str(x, y + k - 1, lines[k - 1], Layer::Label, None)
    }
}

/// Messages `0..k`; the arrows are the connectors `cs`.
pub open spec fn draw_msgs(v: CanvasView, g: SeqSpec, ls: Seq<Seq<Seq<char>>>, cs: Seq<Connector>, k: int) -> CanvasView
    decreases k,
{
    if k <= 0 {
        v
    } else {
        let m = k - 1;
        let prev = draw_msgs(v, g, ls, cs, k - 1);
        let (f, t) = msg_ends(g, m);
        let fx = lifeline(g, f);
        let tx = lifeline(g, t);
        let y = arrow_row(g, ls, m);
        let v_ch = seq_glyphs(g).vertical;
        if !msg_small(fx, tx, y) {
            prev
        } else if fx == tx {
            self_msg(prev, fx, y, v_ch, ls[m])
        } else {
            let w = connector_view(cs[m], prev, Seq::empty()).put(fx, y, v_ch, Layer::Connector, None).put(
                tx,
                y,
                v_ch,
                Layer::Connector,
                None,
            );
            msg_label_rows(w, msg_region(g, m), y, ls[m], ls[m].len() as int)
        }
    }
}

/// The labels `ls` wrap the messages' labels to their regions, and the
/// connectors `cs` are the messages' arrows.
pub open spec fn msgs_ok(g: SeqSpec, ls: Seq<Seq<Seq<char>>>, cs: Seq<Connector>) -> bool {
    &&& ls.len() == g.messages.len()
    &&& cs.len() == g.messages.len()
    &&& forall|m: int|
        0 <= m < g.messages.len() ==> #[trigger] wraps_label(
            ls[m],
            g.messages[m].label,
            region_width(msg_region(g, m)),
        )
    &&& forall|m: int|
        0 <= m < g.messages.len() ==> arrow_drawn(g, ls, m) ==> msg_conn_ok(
            #[trigger] cs[m],
            lifeline(g, msg_ends(g, m).0),
            lifeline(g, msg_ends(g, m).1),
            arrow_row(g, ls, m),
            g.charset,
        )
}

/// Message `m` is drawn as an arrow between two lifelines.
pub open spec fn arrow_drawn(g: SeqSpec, ls: Seq<Seq<Seq<char>>>, m: int) -> bool {
    let fx = lifeline(g, msg_ends(g, m).0);
    let tx = lifeline(g, msg_ends(g, m).1);
    msg_small(fx, tx, arrow_row(g, ls, m)) && fx != tx
}

/// The diagram drawn with wrapped labels `ls` and arrows `cs`: lifelines
/// first, header boxes over them, then the messages, and the junctions
/// repaired.
pub open spec fn seq_view(g: SeqSpec, ls: Seq<Seq<Seq<char>>>, cs: Seq<Connector>) -> CanvasView {
    let h = seq_height(g, ls);
    let n = g.participants.len() as int;
    let v1 = headers(lifelines(blank_view(total_width(g) as nat, h as nat), g, h, n), g, n);
    draw_msgs(v1, g, ls, cs, g.messages.len() as int).repaired(g.charset, LineStyle::Simple)
}

/// Message of a diagram without participants.
pub open spec fn no_participants_message() -> Seq<char> {
    seq!['n', 'o', ' ', 'p', 'a', 'r', 't', 'i', 'c', 'i', 'p', 'a', 'n', 't', 's', ' ', 's', 'p', 'e', 'c', 'i', 'f', 'i', 'e', 'd']
}

/// Message of a diagram without messages.
pub open spec fn no_messages_message() -> Seq<char> {
    seq!['n', 'o', ' ', 'm', 'e', 's', 's', 'a', 'g', 'e', 's', ' ', 's', 'p', 'e', 'c', 'i', 'f', 'i', 'e', 'd']
}

/// Message of a diagram whose boxes would be too narrow.
pub open spec fn too_narrow_message() -> Seq<char> {
    seq![
        'w', 'i', 'd', 't', 'h', ' ', 't', 'o', 'o', ' ', 's', 'm', 'a', 'l', 'l', ' ', 'f', 'o', 'r', ' ', 'p', 'a', 'r', 't', 'i', 'c', 'i', 'p', 'a', 'n', 't', ' ', 'n', 'a', 'm', 'e', 's'
    ]
}

fn text_of(v: Vec<char>, Ghost(t): Ghost<Seq<char>>) -> (r: String)
    requires
        v@ == t,
    ensures
        r@ == t,
{
    string_from_chars(v.as_slice())
}

/// The wrapped label lines of each message.
pub open spec fn msg_lines(v: Seq<Vec<String>>) -> Seq<Seq<Seq<char>>> {
    Seq::new(v.len(), |m: int| views(v[m]@))
}

/// Draw a self message (see `self_msg`).
fn draw_self_message(canvas: &mut Canvas, fx: usize, y: usize, v_ch: char, lines: &Vec<String>)
    requires
        old(canvas)@.wf(),
        small(fx + 3),
        small(y + 3),
    ensures
        final(canvas)@.wf(),
        final(canvas)@ == self_msg(old(canvas)@, fx as int, y as int, v_ch, views(lines@)),
{
    let uni = v_ch == '\u{2502}';
    let ctr = if uni {
        '\u{2510}'
    } else {
        '+'
    };
    let cbr = if uni {
        '\u{2518}'
    } else {
        '+'
    };
    let h_ch = if uni {
        '\u{2500}'
    } else {
        '-'
    };
    canvas.put_layered(fx, y, h_ch, Layer::Connector, None);
    canvas.put_layered(fx + 1, y, ctr, Layer::Connector, None);
    canvas.put_vertical_layered(fx + 2, y + 1, 2, v_ch, Layer::Connector);
    canvas.put_layered(fx + 2, y + 2, cbr, Layer::Connector, None);
    canvas.put_layered(fx, y + 2, '<', Layer::ConnectorEnd, None);
    canvas.put_horizontal_layered(fx + 1, y + 2, 2, h_ch, Layer::Connector);
    let num: usize = if lines.len() > 1 {
        lines.len()
    } else {
        1
    };
    let sy = y.saturating_sub(num);
    let lx = fx + SELF_LOOP_COLS;
    let ghost v0 = canvas@;
    let ghost ls = views(lines@);
    let mut i: usize = 0;
    while i < lines.len()
        invariant
            i <= lines@.len(),
            ls == views(lines@),
            num == imax(lines@.len() as int, 1),
            sy as int == sat_sub(y as int, num as int),
            canvas@.wf(),
            canvas@ == self_labels(v0, lx as int, sy as int, ls, i as int),
        decreases lines@.len() - i,
    {
        let l = chars_of(lines[i].as_str());
        proof {
            assert(ls[i as int] == lines@[i as int]@);
        }
        canvas.put_chars_layered(lx, sy + i, l.as_slice(), Layer::Label, None);
        i = i + 1;
    }
}


impl<'a> SequenceDiagram<'a> {
    /// The participant a message end names, or the first one.
    fn index_of(&self, name: &str) -> (r: usize)
        ensures
            r as int == index_or_first(self@.participants, name@),
    {
        match self.find_participant(name) {
            Some(i) => i,
            None => 0,
        }
    }

    /// Each message's label wrapped to its region, and the rows all
    /// messages take.
    fn wrap_messages(&self, lanes: &LaneLayout) -> (r: (Vec<Vec<String>>, usize))
        requires
            lanes_of(*lanes, self@),
        ensures
            r.0@.len() == self@.messages.len(),
            forall|m: int|
                0 <= m < self@.messages.len() ==> #[trigger] wraps_label(
                    msg_lines(r.0@)[m],
                    self@.messages[m].label,
                    region_width(msg_region(self@, m)),
                ),
            r.1 as int == msgs_height(self@, msg_lines(r.0@), self@.messages.len() as int),
    {
        let ghost g = self@;
        let mut out: Vec<Vec<String>> = Vec::new();
        let mut rows: usize = 0;
        let mut m: usize = 0;
        while m < self.messages.len()
            invariant
                g == self@,
                lanes_of(*lanes, g),
                g.messages.len() == self.messages@.len(),
                m <= g.messages.len(),
                out@.len() == m,
                forall|j: int|
                    0 <= j < m ==> #[trigger] wraps_label(
                        msg_lines(out@)[j],
                        g.messages[j].label,
                        region_width(msg_region(g, j)),
                    ),
                rows as int == msgs_height(g, msg_lines(out@), m as int),
            decreases g.messages.len() - m,
        {
            let msg = &self.messages[m];
            proof {
                assert(g.messages[m as int] == msg_spec(self.messages@[m as int]));
            }
            let f = self.index_of(msg.from.as_str());
            let t = self.index_of(msg.to.as_str());
            let (left, right) = lanes.label_region(f, t, Ghost(g));
            let avail = right.saturating_sub(left).saturating_add(1);
            let lines = wrap_entry(msg.label.as_str(), avail);
            let n = lines.len();
            let base: usize = if f == t {
                3
            } else {
                2
            };
            let h = (if n > 1 {
                n
            } else {
                1
            }).saturating_add(base);
            let ghost before = out@;
            out.push(lines);
            proof {
                assert(msg_lines(out@)[m as int] == views(lines@));
                assert(views(lines@).len() == n);
                assert forall|j: int| 0 <= j < m implies msg_lines(out@)[j] == msg_lines(before)[j] by {}
                assert forall|j: int| 0 <= j < m + 1 implies #[trigger] wraps_label(
                    msg_lines(out@)[j],
                    g.messages[j].label,
                    region_width(msg_region(g, j)),
                ) by {
                    if j < m {
                        assert(msg_lines(out@)[j] == msg_lines(before)[j]);
                    } else {
                        assert(avail as int == region_width(msg_region(g, j)));
                    }
                }
                assert(msgs_height(g, msg_lines(out@), m as int) == msgs_height(g, msg_lines(before), m as int)) by {
                    lemma_msgs_height_prefix(g, msg_lines(out@), msg_lines(before), m as int);
                }
            }
            rows = rows.saturating_add(h);
            m = m + 1;
        }
        (out, rows)
    }
}

/// `msgs_height` of the first `k` messages reads only their lines.
proof fn lemma_msgs_height_prefix(g: SeqSpec, a: Seq<Seq<Seq<char>>>, b: Seq<Seq<Seq<char>>>, k: int)
    requires
        k <= a.len(),
        k <= b.len(),
        forall|j: int| 0 <= j < k ==> a[j] == b[j],
    ensures
        msgs_height(g, a, k) == msgs_height(g, b, k),
    decreases k,
{
    if k > 0 {
        lemma_msgs_height_prefix(g, a, b, k - 1);
    }
}


/// Draw the label lines of an arrow message, centered in its region.
fn draw_msg_labels(canvas: &mut Canvas, left: usize, right: usize, y: usize, lines: &Vec<String>)
    requires
        old(canvas)@.wf(),
    ensures
        final(canvas)@.wf(),
        final(canvas)@ == msg_label_rows(
            old(canvas)@,
            (left as int, right as int),
            y as int,
            views(lines@),
            lines@.len() as int,
        ),
{
    let ghost v0 = canvas@;
    let ghost ls = views(lines@);
    let rw = right.saturating_sub(left).saturating_add(1);
    let num: usize = if lines.len() > 1 {
        lines.len()
    } else {
        1
    };
    let mut i: usize = 0;
    while i < lines.len()
        invariant
            i <= lines@.len(),
            ls == views(lines@),
            rw as int == region_width((left as int, right as int)),
            num as int == imax(ls.len() as int, 1),
            canvas@.wf(),
            canvas@ == msg_label_rows(v0, (left as int, right as int), y as int, ls, i as int),
        decreases lines@.len() - i,
    {
        let l = chars_of(lines[i].as_str());
        proof {
            assert(ls[i as int] == lines@[i as int]@);
        }
        let lw = seq_display_width(l.as_slice());
        let x = if lw <= rw {
            left.saturating_add((rw - lw) / 2)
        } else {
            left
        };
        canvas.put_chars_layered(x, y.saturating_sub(num).saturating_add(i), l.as_slice(), Layer::Label, None);
        i = i + 1;
    }
}

impl<'a> SequenceDiagram<'a> {
    /// Draw the lifelines.
    fn draw_lifelines(&self, canvas: &mut Canvas, lanes: &LaneLayout, h: usize, v_ch: char)
        requires
            old(canvas)@.wf(),
            lanes_of(*lanes, self@),
            v_ch == seq_glyphs(self@).vertical,
        ensures
            final(canvas)@.wf(),
            final(canvas)@ == lifelines(old(canvas)@, self@, h as int, self@.participants.len() as int),
    {
        let ghost g = self@;
        let ghost v0 = canvas@;
        let len = h.saturating_sub(1).saturating_sub(3).saturating_add(1);
        let mut i: usize = 0;
        while i < self.participants.len()
            invariant
                g == self@,
                lanes_of(*lanes, g),
                v_ch == seq_glyphs(g).vertical,
                g.participants.len() == self.participants@.len(),
                i <= g.participants.len(),
                len as int == sat_add(sat_sub(sat_sub(h as int, 1), 3), 1),
                canvas@.wf(),
                canvas@ == lifelines(v0, g, h as int, i as int),
            decreases g.participants.len() - i,
        {
            let x = lanes.lifeline(i, Ghost(g));
            canvas.put_vertical_layered(x, 3, len, v_ch, Layer::Connector);
            i = i + 1;
        }
    }

    /// Draw the header boxes.
    fn draw_headers(&self, canvas: &mut Canvas, lanes: &LaneLayout, bw: usize, glyphs: &BorderGlyphs)
        requires
            old(canvas)@.wf(),
            lanes_of(*lanes, self@),
            bw as int == box_width(self@),
            bw >= 6,
            *glyphs == seq_glyphs(self@),
        ensures
            final(canvas)@.wf(),
            final(canvas)@ == headers(old(canvas)@, self@, self@.participants.len() as int),
    {
        let ghost g = self@;
        let ghost v0 = canvas@;
        let mut i: usize = 0;
        while i < self.participants.len()
            invariant
                g == self@,
                lanes_of(*lanes, g),
                bw as int == box_width(g),
                bw >= 6,
                *glyphs == seq_glyphs(g),
                g.participants.len() == self.participants@.len(),
                i <= g.participants.len(),
                canvas@.wf(),
                canvas@ == headers(v0, g, i as int),
            decreases g.participants.len() - i,
        {
            let name = self.participants[i];
            proof {
                assert(g.participants[i as int] == name@);
            }
            let hx = mul_sat(i, lanes.lane_width).saturating_add(1);
            let _ = canvas.draw_rect(hx, 0, bw, 3, glyphs);
            let nw = seq_display_width(chars_of(name).as_slice());
            let name_x = hx.saturating_add(bw.saturating_sub(nw) / 2);
            canvas.put_str_layered(name_x, 1, name, Layer::NodeContent, None);
            let lx = lanes.lifeline(i, Ghost(g));
            canvas.put_layered(lx, 2, glyphs.tee_up, Layer::NodeBorder, None);
            i = i + 1;
        }
    }
}


/// `small(v)` for an executable value.
fn is_small(v: usize) -> (r: bool)
    ensures
        r == small(v as int + 3),
{
    v < usize::MAX / 2 - 3
}

impl<'a> SequenceDiagram<'a> {
    /// Draw the messages; returns the connectors of the arrows.
    fn draw_messages(&self, canvas: &mut Canvas, lanes: &LaneLayout, all: &Vec<Vec<String>>, v_ch: char) -> (cs: Ghost<Seq<Connector>>)
        requires
            old(canvas)@.wf(),
            lanes_of(*lanes, self@),
            all@.len() == self@.messages.len(),
            v_ch == seq_glyphs(self@).vertical,
        ensures
            final(canvas)@.wf(),
            cs@.len() == self@.messages.len(),
            forall|m: int|
                0 <= m < self@.messages.len() ==> arrow_drawn(self@, msg_lines(all@), m) ==> msg_conn_ok(
                    #[trigger] cs@[m],
                    lifeline(self@, msg_ends(self@, m).0),
                    lifeline(self@, msg_ends(self@, m).1),
                    arrow_row(self@, msg_lines(all@), m),
                    self@.charset,
                ),
            final(canvas)@ == draw_msgs(old(canvas)@, self@, msg_lines(all@), cs@, self@.messages.len() as int),
    {
        let ghost g = self@;
        let ghost ls = msg_lines(all@);
        let ghost v0 = canvas@;
        let ghost mut cs: Seq<Connector> = Seq::empty();
        let mut msg_y: usize = 4;
        let mut m: usize = 0;
        while m < self.messages.len()
            invariant
                g == self@,
                ls == msg_lines(all@),
                lanes_of(*lanes, g),
                all@.len() == g.messages.len(),
                g.messages.len() == self.messages@.len(),
                v_ch == seq_glyphs(g).vertical,
                m <= g.messages.len(),
                msg_y as int == sat_add(4, msgs_height(g, ls, m as int)),
                cs.len() == m,
                forall|j: int|
                    0 <= j < m ==> arrow_drawn(g, ls, j) ==> msg_conn_ok(
                        #[trigger] cs[j],
                        lifeline(g, msg_ends(g, j).0),
                        lifeline(g, msg_ends(g, j).1),
                        arrow_row(g, ls, j),
                        g.charset,
                    ),
                canvas@.wf(),
                canvas@ == draw_msgs(v0, g, ls, cs, m as int),
            decreases g.messages.len() - m,
        {
            let msg = &self.messages[m];
            proof {
                assert(g.messages[m as int] == msg_spec(self.messages@[m as int]));
                assert(ls[m as int] == views(all@[m as int]@));
            }
            let lines = &all[m];
            let f = self.index_of(msg.from.as_str());
            let t = self.index_of(msg.to.as_str());
            let fx = lanes.lifeline(f, Ghost(g));
            let tx = lanes.lifeline(t, Ghost(g));
            let n = lines.len();
            let num: usize = if n > 1 {
                n
            } else {
                1
            };
            let y = msg_y.saturating_add(num);
            assert(y as int == arrow_row(g, ls, m as int));
            let ghost before = cs;
            let ghost vb = canvas@;
            if is_small(fx) && is_small(tx) && is_small(y) {
                if fx == tx {
                    draw_self_message(canvas, fx, y, v_ch, lines);
                    proof {
                        cs = cs.push(vstd::pervasive::arbitrary());
                    }
                } else {
                    let right = fx < tx;
                    let sa = if right {
                        Anchor::East
                    } else {
                        Anchor::West
                    };
                    let ta = if right {
                        Anchor::West
                    } else {
                        Anchor::East
                    };
                    let head: char = match self.charset {
                        Charset::Unicode => if right {
                            '\u{25b6}'
                        } else {
                            '\u{25c0}'
                        },
                        Charset::Ascii => if right {
                            '>'
                        } else {
                            '<'
                        },
                    };
                    let src = Rect::new(fx, y, 1, 1);
                    let tgt = Rect::new(tx, y, 1, 1);
                    let mut c = Connector::new(src, tgt, sa, ta, LineStyle::Simple, self.charset);
                    c.arrow_head = head;
                    c.render(canvas);
                    proof {
                        let lc = choose|lc: Seq<Seq<char>>|
                            #[trigger] wraps_label(
                                lc,
                                crate::layout::connector::label_chars(c),
                                crate::layout::connector::label_avail(
                                    c,
                                    crate::layout::connector::spec_compute_path(c),
                                    vb.width as int,
                                ),
                            ) && canvas@ == connector_view(c, vb, lc);
                        assert(connector_view(c, vb, lc) == connector_view(c, vb, Seq::empty()));
                        cs = cs.push(c);
                    }
                    canvas.put_layered(fx, y, v_ch, Layer::Connector, None);
                    canvas.put_layered(tx, y, v_ch, Layer::Connector, None);
                    let (left, rright) = lanes.label_region(f, t, Ghost(g));
                    draw_msg_labels(canvas, left, rright, y, lines);
                }
            } else {
                proof {
                    cs = cs.push(vstd::pervasive::arbitrary());
                }
            }
            proof {
                assert(cs.len() == m + 1);
                assert forall|j: int| 0 <= j < m implies cs[j] == before[j] by {}
                lemma_draw_msgs_prefix(v0, g, ls, cs, before, m as int);
                assert(views(lines@).len() == n);
            }
            msg_y = msg_y.saturating_add(
                num.saturating_add(
                    if f == t {
                        3
                    } else {
                        2
                    },
                ),
            );
            m = m + 1;
        }
        Ghost(cs)
    }
}

/// `draw_msgs` of the first `k` messages reads only their connectors.
proof fn lemma_draw_msgs_prefix(v: CanvasView, g: SeqSpec, ls: Seq<Seq<Seq<char>>>, a: Seq<Connector>, b: Seq<Connector>, k: int)
    requires
        k <= a.len(),
        k <= b.len(),
        forall|j: int| 0 <= j < k ==> a[j] == b[j],
    ensures
        draw_msgs(v, g, ls, a, k) == draw_msgs(v, g, ls, b, k),
    decreases k,
{
    if k > 0 {
        lemma_draw_msgs_prefix(v, g, ls, a, b, k - 1);
    }
}


/// `out` is the diagram drawn with its labels wrapped greedily (see `wraps_label`).
pub open spec fn seq_drawn(g: SeqSpec, out: Seq<char>) -> bool {
    exists|ls: Seq<Seq<Seq<char>>>, cs: Seq<Connector>|
        #[trigger] msgs_ok(g, ls, cs) && out == seq_view(g, ls, cs).rendered(g.color)
}

/// What drawing `g` gives: `MissingFields` without participants or
/// without messages, `InvalidDimensions` when the boxes would be
/// narrower than 6 cells, and otherwise the drawn diagram.
pub open spec fn seq_result(g: SeqSpec, r: Result<String>) -> bool {
    if g.participants.len() == 0 {
        r matches Err(FigoError::MissingFields(m)) && m@ == no_participants_message()
    } else if g.messages.len() == 0 {
        r matches Err(FigoError::MissingFields(m)) && m@ == no_messages_message()
    } else if box_width(g) < 6 {
        r matches Err(FigoError::InvalidDimensions(m)) && m@ == too_narrow_message()
    } else {
        r matches Ok(s) && seq_drawn(g, s@)
    }
}

impl<'a> SequenceDiagram<'a> {
    /// Draw the diagram. Without participants or without messages it is
    /// refused with `MissingFields`; when the boxes would be narrower
    /// than 6 cells, with `InvalidDimensions`.
    pub fn build(&self) -> (r: Result<String>)
        ensures
            seq_result(self@, r),
    {
        let ghost g = self@;
        if self.participants.len() == 0 {
            let v = vec!['n', 'o', ' ', 'p', 'a', 'r', 't', 'i', 'c', 'i', 'p', 'a', 'n', 't', 's', ' ', 's', 'p', 'e', 'c', 'i', 'f', 'i', 'e', 'd'];
            assert(v@ =~= no_participants_message());
            return Err(FigoError::MissingFields(text_of(v, Ghost(no_participants_message()))));
        }
        if self.messages.len() == 0 {
            let v = vec!['n', 'o', ' ', 'm', 'e', 's', 's', 'a', 'g', 'e', 's', ' ', 's', 'p', 'e', 'c', 'i', 'f', 'i', 'e', 'd'];
            assert(v@ =~= no_messages_message());
            return Err(FigoError::MissingFields(text_of(v, Ghost(no_messages_message()))));
        }
        let glyphs = BorderStyle::Rounded.glyphs(self.charset);
        let v_ch = glyphs.vertical;
        let lanes = self.lanes();
        let bw = lanes.box_width(Ghost(g));
        if bw < 6 {
            let v = vec![
                'w', 'i', 'd', 't', 'h', ' ', 't', 'o', 'o', ' ', 's', 'm', 'a', 'l', 'l', ' ', 'f', 'o', 'r', ' ', 'p', 'a', 'r', 't', 'i', 'c', 'i', 'p', 'a', 'n', 't', ' ', 'n', 'a', 'm', 'e', 's'
            ];
            assert(v@ =~= too_narrow_message());
            return Err(FigoError::InvalidDimensions(text_of(v, Ghost(too_narrow_message()))));
        }
        let (all, rows) = self.wrap_messages(&lanes);
        let ghost ls = msg_lines(all@);
        let h = rows.saturating_add(3).saturating_add(1);
        proof {
            assert(h as int == seq_height(g, ls));
        }
        let mut canvas = Canvas::new(lanes.total_width, h);
        self.draw_lifelines(&mut canvas, &lanes, h, v_ch);
        self.draw_headers(&mut canvas, &lanes, bw, &glyphs);
        let cs = self.draw_messages(&mut canvas, &lanes, &all, v_ch);
        canvas.repair_connector_junctions(LineStyle::Simple, self.charset);
        let out = canvas.render(self.color);
        proof {
            assert(msgs_ok(g, ls, cs@));
            assert(out@ == seq_view(g, ls, cs@).rendered(g.color));
        }
        Ok(out)
    }

    /// Same as `build`.
    pub fn render(&self) -> (r: Result<String>)
        ensures
            seq_result(self@, r),
    {
        self.build()
    }
}

} // verus!
