//! Riding-label primitives shared by the state and flowchart diagrams:
//! the sibling-aware wrap-width ladder, the riding directive a connector
//! label follows, and the row allocation that keeps overlapping riding
//! blocks from covering each other.

use vstd::prelude::*;

verus! {

/// Wrap width for a label centered on a horizontal corridor of `len`
/// cells: the corridor minus padding on each side, at least 2, at most
/// the canvas limit.
pub open spec fn spec_corridor_label_avail(len: int, w_limit: int) -> int {
    let a = if len > 4 { len - 4 } else { 0 };
    let b = if a > 2 { a } else { 2 };
    if b < w_limit { b } else { w_limit }
}

pub fn corridor_label_avail(len: usize, w_limit: usize) -> (r: usize)
    ensures
        r == spec_corridor_label_avail(len as int, w_limit as int),
{
    let a = len.saturating_sub(4);
    let b = if a > 2 { a } else { 2 };
    if b < w_limit { b } else { w_limit }
}

/// Wrap width for a label beside a vertical line at column `sx`,
/// bounded by the canvas width.
pub open spec fn spec_beside_line_label_avail(sx: int, w_limit: int) -> int {
    let a = if w_limit > sx + 2 { w_limit - (sx + 2) } else { 0 };
    let b = if a > 2 { a } else { 2 };
    if b < w_limit { b } else { w_limit }
}

pub fn beside_line_label_avail(sx: usize, w_limit: usize) -> (r: usize)
    requires
        sx + 2 <= usize::MAX,
    ensures
        r == spec_beside_line_label_avail(sx as int, w_limit as int),
{
    let a = w_limit.saturating_sub(sx + 2);
    let b = if a > 2 { a } else { 2 };
    if b < w_limit { b } else { w_limit }
}

/// Distance between two columns.
pub open spec fn col_dist(a: int, b: int) -> int {
    if a <= b { b - a } else { a - b }
}

/// Distance from `ride` to the nearest column of `cols` other than
/// `ride` itself, among the first `k` (none: `None`).
pub open spec fn nearest_among(cols: Seq<usize>, ride: int, k: int) -> Option<int>
    decreases k,
{
    if k <= 0 {
        None
    } else {
        let rest = nearest_among(cols, ride, k - 1);
        let c = cols[k - 1] as int;
        if c == ride {
            rest
        } else {
            let d = col_dist(c, ride);
            match rest {
                Some(m) => Some(if d < m { d } else { m }),
                None => Some(d),
            }
        }
    }
}

/// Largest column of `cols[..k]` left of `ride`.
pub open spec fn left_of(cols: Seq<usize>, ride: int, k: int) -> Option<int>
    decreases k,
{
    if k <= 0 {
        None
    } else {
        let rest = left_of(cols, ride, k - 1);
        let c = cols[k - 1] as int;
        if c < ride {
            match rest {
                Some(m) => Some(if c > m { c } else { m }),
                None => Some(c),
            }
        } else {
            rest
        }
    }
}

/// Smallest column of `cols[..k]` right of `ride`.
pub open spec fn right_of(cols: Seq<usize>, ride: int, k: int) -> Option<int>
    decreases k,
{
    if k <= 0 {
        None
    } else {
        let rest = right_of(cols, ride, k - 1);
        let c = cols[k - 1] as int;
        if c > ride {
            match rest {
                Some(m) => Some(if c < m { c } else { m }),
                None => Some(c),
            }
        } else {
            rest
        }
    }
}

/// Wrap width and center column for a label riding its own line at
/// `ride`: on the line, as wide as stays clear of the nearest sibling
/// leg (`2d - 1` for distance `d`) when that is at least 2; else
/// centered in the wider free span beside the line.
pub open spec fn spec_riding_placement(cols: Seq<usize>, ride: int, canvas_width: int, avail: int) -> (int, int) {
    let near = nearest_among(cols, ride, cols.len() as int);
    if near is Some && 2 * near->0 - 1 >= 2 {
        let m = 2 * near->0 - 1;
        (if avail < m { avail } else { m }, ride)
    } else {
        let lb = match left_of(cols, ride, cols.len() as int) {
            Some(c) => c + 1,
            None => 0,
        };
        let rb = match right_of(cols, ride, cols.len() as int) {
            Some(c) => c,
            None => canvas_width,
        };
        let lw = if ride > lb { ride - lb } else { 0 };
        let rw = if rb > ride + 1 { rb - (ride + 1) } else { 0 };
        if lw >= rw {
            (lw, lb + lw / 2)
        } else {
            (rw, ride + 1 + rw / 2)
        }
    }
}

/// A corridor label block never starts above the source anchor row, and
/// when the gap between the anchor rows holds the block, it never
/// reaches past the target anchor row either.
pub proof fn law_corridor_block_between_anchors(y: int, n: int, sy: int, ty: int)
    requires
        n >= 1,
        sy >= 0,
    ensures
        spec_corridor_label_block_top(y, n, sy, ty) >= sy,
        sy + n - 1 <= ty ==> spec_corridor_label_block_top(y, n, sy, ty) + n - 1 <= ty,
{
}

/// A block riding its line, `w` wide and centered on the ride column
/// (`(w - 1) / 2` cells each side at most), stays clear of every
/// sibling leg column: the riding width is at most `2d - 1` for the
/// nearest sibling leg `d` columns away.
pub proof fn law_riding_block_clear_of_siblings(cols: Seq<usize>, ride: int, canvas_width: int, avail: int, c: usize)
    requires
        ({
            let near = nearest_among(cols, ride, cols.len() as int);
            near is Some && 2 * near->0 - 1 >= 2
        }),
        cols.contains(c),
        c != ride,
    ensures
        ({
            let (w, center) = spec_riding_placement(cols, ride, canvas_width, avail);
            &&& center == ride
            &&& w / 2 < col_dist(c as int, ride)
        }),
{
    let k = choose|k: int| 0 <= k < cols.len() && cols[k] == c;
    lemma_nearest_le(cols, ride, cols.len() as int, k);
}

proof fn lemma_nearest_le(cols: Seq<usize>, ride: int, m: int, k: int)
    requires
        0 <= k < m <= cols.len(),
        cols[k] as int != ride,
    ensures
        nearest_among(cols, ride, m) matches Some(d) && d <= col_dist(cols[k] as int, ride),
    decreases m,
{
    if k < m - 1 {
        lemma_nearest_le(cols, ride, m - 1, k);
    }
}

proof fn lemma_nearest_bound(cols: Seq<usize>, ride: int, k: int)
    requires
        0 <= k <= cols.len(),
        0 <= ride <= usize::MAX,
    ensures
        nearest_among(cols, ride, k) matches Some(m) ==> 0 < m <= usize::MAX,
    decreases k,
{
    if k > 0 {
        lemma_nearest_bound(cols, ride, k - 1);
    }
}

proof fn lemma_left_bound(cols: Seq<usize>, ride: int, k: int)
    requires
        0 <= k <= cols.len(),
    ensures
        left_of(cols, ride, k) matches Some(m) ==> 0 <= m < ride && m <= usize::MAX,
    decreases k,
{
    if k > 0 {
        lemma_left_bound(cols, ride, k - 1);
    }
}

proof fn lemma_right_bound(cols: Seq<usize>, ride: int, k: int)
    requires
        0 <= k <= cols.len(),
    ensures
        right_of(cols, ride, k) matches Some(m) ==> ride < m <= usize::MAX,
    decreases k,
{
    if k > 0 {
        lemma_right_bound(cols, ride, k - 1);
    }
}

/// Wrap width and center column for a label riding its own line (see
/// [`spec_riding_placement`]).
pub fn riding_placement_cols(
    avoid_cols: &[usize],
    ride_col: usize,
    canvas_width: usize,
    avail: usize,
) -> (r: (usize, usize))
    requires
        ride_col < usize::MAX,
        nearest_among(avoid_cols@, ride_col as int, avoid_cols@.len() as int) matches Some(d) ==> 2 * d
            <= usize::MAX,
    ensures
        (r.0 as int, r.1 as int) == spec_riding_placement(
            avoid_cols@,
            ride_col as int,
            canvas_width as int,
            avail as int,
        ),
{
    let ghost cols = avoid_cols@;
    let mut near: Option<usize> = None;
    let mut left: Option<usize> = None;
    let mut right: Option<usize> = None;
    let mut i: usize = 0;
    while i < avoid_cols.len()
        invariant
            i <= cols.len(),
            cols == avoid_cols@,
            ride_col < usize::MAX,
            match near {
                Some(d) => nearest_among(cols, ride_col as int, i as int) == Some(d as int),
                None => nearest_among(cols, ride_col as int, i as int) is None,
            },
            match left {
                Some(d) => left_of(cols, ride_col as int, i as int) == Some(d as int),
                None => left_of(cols, ride_col as int, i as int) is None,
            },
            match right {
                Some(d) => right_of(cols, ride_col as int, i as int) == Some(d as int),
                None => right_of(cols, ride_col as int, i as int) is None,
            },
        decreases cols.len() - i,
    {
        let c = avoid_cols[i];
        if c != ride_col {
            let d = if c <= ride_col { ride_col - c } else { c - ride_col };
            near = match near {
                Some(m) => Some(if d < m { d } else { m }),
                None => Some(d),
            };
        }
        if c < ride_col {
            left = match left {
                Some(m) => Some(if c > m { c } else { m }),
                None => Some(c),
            };
        }
        if c > ride_col {
            right = match right {
                Some(m) => Some(if c < m { c } else { m }),
                None => Some(c),
            };
        }
        i = i + 1;
    }
    proof {
        lemma_nearest_bound(cols, ride_col as int, cols.len() as int);
        lemma_left_bound(cols, ride_col as int, cols.len() as int);
        lemma_right_bound(cols, ride_col as int, cols.len() as int);
    }
    if let Some(d) = near {
        if 2 * d - 1 >= 2 {
            let m = 2 * d - 1;
            return (if avail < m { avail } else { m }, ride_col);
        }
    }
    let lb: usize = match left {
        Some(c) => c + 1,
        None => 0,
    };
    let rb: usize = match right {
        Some(c) => c,
        None => canvas_width,
    };
    let lw = ride_col.saturating_sub(lb);
    let rw = rb.saturating_sub(ride_col + 1);
    if lw >= rw {
        (lw, lb + lw / 2)
    } else {
        (rw, ride_col + 1 + rw / 2)
    }
}

/// Top row of a corridor label block of `n` lines: centered on the
/// corridor row `y`, but never above `sy` nor reaching past `ty`.
pub open spec fn spec_corridor_label_block_top(y: int, n: int, sy: int, ty: int) -> int {
    let a = if y > n / 2 { y - n / 2 } else { 0 };
    let nm1 = if n > 1 { n - 1 } else { 0 };
    let b = if ty > nm1 { ty - nm1 } else { 0 };
    let c = if a < b { a } else { b };
    if c > sy { c } else { sy }
}

pub fn corridor_label_block_top(y: usize, n: usize, sy: usize, ty: usize) -> (r: usize)
    ensures
        r == spec_corridor_label_block_top(y as int, n as int, sy as int, ty as int),
{
    let a = y.saturating_sub(n / 2);
    let b = ty.saturating_sub(n.saturating_sub(1));
    let c = if a < b { a } else { b };
    if c > sy { c } else { sy }
}

/// Riding directive for a purely vertical connector: its label rides
/// an exclusive stretch of the leg instead of the default row below the
/// source.
#[derive(Clone, Copy, Debug, PartialEq, Eq, Structural)]
pub struct RidingLabel {
    pub wrap_w: usize,
    /// Column the block centers on.
    pub center_x: usize,
    pub block_top: usize,
}

/// A riding block to place: its column span (half-open) and its wrapped
/// line count.
#[derive(Clone, Copy, Debug, PartialEq, Eq, Structural)]
pub struct RidingCandidate {
    /// Inclusive left column of the block's widest line.
    pub span_lo: usize,
    /// Exclusive right column of the block's widest line.
    pub span_hi: usize,
    /// Wrapped line count.
    pub lines: usize,
}

/// Two blocks share at least one column.
pub open spec fn spans_overlap(a: RidingCandidate, b: RidingCandidate) -> bool {
    a.span_lo < b.span_hi && b.span_lo < a.span_hi
}

/// `p` is a chain of candidate indices, each block overlapping the next.
pub open spec fn is_chain(c: Seq<RidingCandidate>, p: Seq<int>) -> bool {
    &&& p.len() >= 1
    &&& forall|k: int| 0 <= k < p.len() ==> 0 <= #[trigger] p[k] < c.len()
    &&& forall|k: int| 0 <= k < p.len() - 1 ==> spans_overlap(c[#[trigger] p[k]], c[p[k + 1]])
}

/// Blocks `i` and `j` are linked through a chain of overlapping blocks
/// (overlap taken transitively).
pub open spec fn linked(c: Seq<RidingCandidate>, i: int, j: int) -> bool {
    exists|p: Seq<int>| #[trigger] is_chain(c, p) && p[0] == i && p.last() == j
}

/// Block `i` overlaps no other block, directly or through others.
pub open spec fn solo(c: Seq<RidingCandidate>, i: int) -> bool {
    forall|j: int| 0 <= j < c.len() && j != i ==> !#[trigger] linked(c, i, j)
}

/// Lines of the blocks before `k` that are linked to `i`.
pub open spec fn linked_lines_before(c: Seq<RidingCandidate>, i: int, k: int) -> int
    decreases k,
{
    if k <= 0 {
        0
    } else {
        linked_lines_before(c, i, k - 1) + (if linked(c, i, k - 1) {
            c[k - 1].lines as int
        } else {
            0
        })
    }
}

/// Row offset of block `i`: solo blocks keep their own position
/// (`None`); stacked blocks start below the linked blocks declared
/// before them.
pub open spec fn riding_offset(c: Seq<RidingCandidate>, i: int) -> Option<int> {
    if solo(c, i) {
        None
    } else {
        Some(linked_lines_before(c, i, i))
    }
}

/// Rows block `i` reaches down to: its offset plus its lines.
pub open spec fn riding_reach(c: Seq<RidingCandidate>, i: int) -> int {
    match riding_offset(c, i) {
        Some(o) => o + c[i].lines,
        None => c[i].lines as int,
    }
}

/// Largest reach among the first `k` blocks (0 for none): the group's
/// row demand.
pub open spec fn riding_demand(c: Seq<RidingCandidate>, k: int) -> int
    decreases k,
{
    if k <= 0 {
        0
    } else {
        let m = riding_demand(c, k - 1);
        let r = riding_reach(c, k - 1);
        if r > m {
            r
        } else {
            m
        }
    }
}

/// Total lines of all blocks.
pub open spec fn total_lines(c: Seq<RidingCandidate>) -> int
    decreases c.len(),
{
    if c.len() == 0 {
        0
    } else {
        total_lines(c.drop_last()) + c.last().lines
    }
}

// --- chain lemmas ------------------------------------------------------

proof fn lemma_linked_refl(c: Seq<RidingCandidate>, i: int)
    requires
        0 <= i < c.len(),
    ensures
        linked(c, i, i),
{
    let p = seq![i];
    assert(is_chain(c, p));
}

proof fn lemma_linked_step(c: Seq<RidingCandidate>, i: int, j: int, k: int)
    requires
        linked(c, i, j),
        0 <= k < c.len(),
        spans_overlap(c[j], c[k]),
    ensures
        linked(c, i, k),
{
    let p = choose|p: Seq<int>| #[trigger] is_chain(c, p) && p[0] == i && p.last() == j;
    let q = p.push(k);
    assert forall|t: int| 0 <= t < q.len() - 1 implies spans_overlap(c[#[trigger] q[t]], c[q[t + 1]]) by {
        if t < p.len() - 1 {
            assert(q[t] == p[t] && q[t + 1] == p[t + 1]);
        }
    }
    assert forall|t: int| 0 <= t < q.len() implies 0 <= #[trigger] q[t] < c.len() by {
        if t < p.len() {
            assert(q[t] == p[t]);
        }
    }
    assert(is_chain(c, q));
    assert(q[0] == i && q.last() == k);
}

proof fn lemma_linked_sym(c: Seq<RidingCandidate>, i: int, j: int)
    requires
        linked(c, i, j),
    ensures
        linked(c, j, i),
{
    let p = choose|p: Seq<int>| #[trigger] is_chain(c, p) && p[0] == i && p.last() == j;
    let q = p.reverse();
    assert forall|t: int| 0 <= t < q.len() implies 0 <= #[trigger] q[t] < c.len() by {
        assert(q[t] == p[p.len() - 1 - t]);
    }
    assert forall|t: int| 0 <= t < q.len() - 1 implies spans_overlap(c[#[trigger] q[t]], c[q[t + 1]]) by {
        let u = p.len() - 2 - t;
        assert(q[t] == p[u + 1]);
        assert(q[t + 1] == p[u]);
        assert(spans_overlap(c[p[u]], c[p[u + 1]]));
    }
    assert(is_chain(c, q));
    assert(q[0] == j && q.last() == i);
}

proof fn lemma_linked_trans(c: Seq<RidingCandidate>, i: int, j: int, k: int)
    requires
        linked(c, i, j),
        linked(c, j, k),
    ensures
        linked(c, i, k),
{
    let p = choose|p: Seq<int>| #[trigger] is_chain(c, p) && p[0] == i && p.last() == j;
    let q = choose|q: Seq<int>| #[trigger] is_chain(c, q) && q[0] == j && q.last() == k;
    let r = p + q.drop_first();
    assert forall|t: int| 0 <= t < r.len() implies 0 <= #[trigger] r[t] < c.len() by {
        if t < p.len() {
            assert(r[t] == p[t]);
        } else {
            assert(r[t] == q[t - p.len() + 1]);
        }
    }
    assert forall|t: int| 0 <= t < r.len() - 1 implies spans_overlap(c[#[trigger] r[t]], c[r[t + 1]]) by {
        if t < p.len() - 1 {
            assert(r[t] == p[t] && r[t + 1] == p[t + 1]);
        } else if t == p.len() - 1 {
            assert(r[t] == p[t]);
            assert(p[t] == q[0]);
            assert(r[t + 1] == q[1]);
        } else {
            let u = t - p.len() + 1;
            assert(r[t] == q[u]);
            assert(r[t + 1] == q[u + 1]);
        }
    }
    assert(is_chain(c, r));
    if q.len() == 1 {
        assert(r =~= p);
        assert(k == j);
    } else {
        assert(r.last() == q.last());
    }
}

/// Labels that agree along every overlap agree along every chain.
proof fn lemma_chain_labels(c: Seq<RidingCandidate>, cl: Seq<usize>, p: Seq<int>, k: int)
    requires
        is_chain(c, p),
        cl.len() == c.len(),
        forall|a: int, b: int|
            0 <= a < c.len() && 0 <= b < c.len() && spans_overlap(c[a], c[b]) ==> #[trigger] cl[a]
                == #[trigger] cl[b],
        0 <= k < p.len(),
    ensures
        cl[p[0]] == cl[p[k]],
    decreases k,
{
    if k > 0 {
        lemma_chain_labels(c, cl, p, k - 1);
        assert(spans_overlap(c[p[k - 1]], c[p[k]]));
    }
}

proof fn lemma_lines_before_match(
    c: Seq<RidingCandidate>,
    cl: Seq<usize>,
    i: int,
    k: int,
)
    requires
        0 <= i < c.len(),
        0 <= k <= c.len(),
        cl.len() == c.len(),
        forall|j: int| 0 <= j < c.len() ==> (cl[j] == cl[i] <==> #[trigger] linked(c, i, j)),
    ensures
        label_lines_before(c, cl, cl[i] as int, k) == linked_lines_before(c, i, k),
    decreases k,
{
    if k > 0 {
        lemma_lines_before_match(c, cl, i, k - 1);
        assert(cl[k - 1] == cl[i] <==> linked(c, i, k - 1));
    }
}

/// Lines of the blocks before `k` whose label is `l`.
pub open spec fn label_lines_before(c: Seq<RidingCandidate>, cl: Seq<usize>, l: int, k: int) -> int
    decreases k,
{
    if k <= 0 {
        0
    } else {
        label_lines_before(c, cl, l, k - 1) + (if cl[k - 1] == l {
            c[k - 1].lines as int
        } else {
            0
        })
    }
}

/// Blocks before `k` whose label is `l`.
pub open spec fn label_count_before(cl: Seq<usize>, l: int, k: int) -> int
    decreases k,
{
    if k <= 0 {
        0
    } else {
        label_count_before(cl, l, k - 1) + (if cl[k - 1] == l { 1int } else { 0int })
    }
}

proof fn lemma_label_lines_bound(c: Seq<RidingCandidate>, cl: Seq<usize>, l: int, k: int)
    requires
        0 <= k <= c.len(),
        cl.len() == c.len(),
    ensures
        0 <= label_lines_before(c, cl, l, k) <= total_lines(c.take(k)),
    decreases k,
{
    if k > 0 {
        lemma_label_lines_bound(c, cl, l, k - 1);
        assert(c.take(k).drop_last() =~= c.take(k - 1));
    }
}

proof fn lemma_count_one(cl: Seq<usize>, i: int, k: int)
    requires
        0 <= i < cl.len(),
        i < k <= cl.len(),
    ensures
        label_count_before(cl, cl[i] as int, k) == 1 <==> forall|j: int|
            0 <= j < k && j != i ==> #[trigger] cl[j] != cl[i],
        label_count_before(cl, cl[i] as int, k) >= 1,
    decreases k,
{
    let l = cl[i] as int;
    if k - 1 > i {
        lemma_count_one(cl, i, k - 1);
        if cl[k - 1] == cl[i] {
            assert(cl[k - 1] == cl[i]);
        } else {
            assert((forall|j: int| 0 <= j < k && j != i ==> #[trigger] cl[j] != cl[i]) <==> (forall|
                j: int,
            | 0 <= j < k - 1 && j != i ==> #[trigger] cl[j] != cl[i]));
        }
    } else {
        lemma_count_zero_before(cl, l, i, i);
        if label_count_before(cl, l, i) == 0 {
            assert forall|j: int| 0 <= j < k && j != i implies #[trigger] cl[j] != cl[i] by {
                lemma_count_zero_means_absent(cl, l, i, j);
            }
        } else {
            if forall|j: int| 0 <= j < k && j != i ==> #[trigger] cl[j] != cl[i] {
                assert forall|j: int| 0 <= j < i implies #[trigger] cl[j] != l by {
                    assert(cl[j] != cl[i]);
                }
                lemma_count_absent_means_zero(cl, l, i);
            }
        }
    }
}

proof fn lemma_count_zero_before(cl: Seq<usize>, l: int, i: int, k: int)
    requires
        0 <= k <= i < cl.len(),
    ensures
        label_count_before(cl, l, k) >= 0,
    decreases k,
{
    if k > 0 {
        lemma_count_zero_before(cl, l, i, k - 1);
    }
}

proof fn lemma_count_zero_means_absent(cl: Seq<usize>, l: int, k: int, j: int)
    requires
        0 <= j < k <= cl.len(),
        label_count_before(cl, l, k) == 0,
    ensures
        cl[j] != l,
    decreases k,
{
    lemma_count_zero_before(cl, l, k - 1, k - 1);
    if j < k - 1 {
        lemma_count_zero_means_absent(cl, l, k - 1, j);
    }
}

proof fn lemma_count_absent_means_zero(cl: Seq<usize>, l: int, k: int)
    requires
        0 <= k <= cl.len(),
        forall|j: int| 0 <= j < k ==> #[trigger] cl[j] != l,
    ensures
        label_count_before(cl, l, k) == 0,
    decreases k,
{
    if k > 0 {
        lemma_count_absent_means_zero(cl, l, k - 1);
    }
}

/// Sum of the labels.
pub open spec fn label_sum(s: Seq<usize>) -> int
    decreases s.len(),
{
    if s.len() == 0 {
        0
    } else {
        label_sum(s.drop_last()) + s.last()
    }
}

proof fn lemma_label_sum_update(s: Seq<usize>, k: int, v: usize)
    requires
        0 <= k < s.len(),
    ensures
        label_sum(s.update(k, v)) == label_sum(s) - s[k] + v,
    decreases s.len(),
{
    if k == s.len() - 1 {
        assert(s.update(k, v).drop_last() =~= s.drop_last());
    } else {
        lemma_label_sum_update(s.drop_last(), k, v);
        assert(s.update(k, v).drop_last() =~= s.drop_last().update(k, v));
    }
}

proof fn lemma_label_sum_nonneg(s: Seq<usize>)
    ensures
        label_sum(s) >= 0,
    decreases s.len(),
{
    if s.len() > 0 {
        lemma_label_sum_nonneg(s.drop_last());
    }
}

proof fn lemma_total_lines_take(c: Seq<RidingCandidate>, k: int)
    requires
        0 <= k <= c.len(),
    ensures
        total_lines(c.take(k)) <= total_lines(c),
        total_lines(c.take(k)) >= 0,
    decreases c.len() - k,
{
    lemma_total_nonneg(c.take(k));
    if k < c.len() {
        lemma_total_lines_take(c, k + 1);
        assert(c.take(k + 1).drop_last() =~= c.take(k));
        assert(c.take(k + 1).last() == c[k]);
    } else {
        assert(c.take(k) =~= c);
        lemma_total_nonneg(c);
    }
}

proof fn lemma_total_nonneg(c: Seq<RidingCandidate>)
    ensures
        total_lines(c) >= 0,
    decreases c.len(),
{
    if c.len() > 0 {
        lemma_total_nonneg(c.drop_last());
    }
}

/// Cluster labels: blocks get the same label exactly when they are
/// linked through overlapping blocks.
fn cluster_labels(cands: &[RidingCandidate]) -> (cl: Vec<usize>)
    ensures
        cl@.len() == cands@.len(),
        forall|i: int| 0 <= i < cl@.len() ==> cl@[i] < cl@.len(),
        forall|i: int, j: int|
            0 <= i < cl@.len() && 0 <= j < cl@.len() ==> (cl@[i] == cl@[j] <==> #[trigger] linked(
                cands@,
                i,
                j,
            )),
{
    let ghost c = cands@;
    let n = cands.len();
    let mut cl: Vec<usize> = Vec::new();
    let mut k: usize = 0;
    while k < n
        invariant
            k <= n,
            n == c.len(),
            c == cands@,
            cl@.len() == k,
            forall|i: int| 0 <= i < k ==> cl@[i] == i,
        decreases n - k,
    {
        cl.push(k);
        k = k + 1;
    }
    proof {
        assert forall|i: int| 0 <= i < n implies linked(c, i, cl@[i] as int) by {
            lemma_linked_refl(c, i);
        }
    }
    loop
        invariant
            n == c.len(),
            c == cands@,
            cl@.len() == n,
            forall|i: int| 0 <= i < n ==> cl@[i] < n,
            forall|i: int| 0 <= i < n ==> linked(c, i, #[trigger] cl@[i] as int),
        ensures
            cl@.len() == n,
            forall|i: int| 0 <= i < n ==> cl@[i] < n,
            forall|a: int, b: int| 0 <= a < n && 0 <= b < n ==> (cl@[a] == cl@[b]
                <==> #[trigger] linked(c, a, b)),
        decreases label_sum(cl@),
    {
        let ghost start = cl@;
        let mut changed = false;
        let mut i: usize = 0;
        while i < n
            invariant
                n == c.len(),
                c == cands@,
                cl@.len() == n,
                i <= n,
                forall|a: int| 0 <= a < n ==> cl@[a] < n,
                forall|a: int| 0 <= a < n ==> linked(c, a, #[trigger] cl@[a] as int),
                !changed ==> cl@ == start,
                changed ==> label_sum(cl@) < label_sum(start),
                !changed ==> forall|a: int, b: int|
                    0 <= a < i && 0 <= b < n && spans_overlap(c[a], c[b]) ==> #[trigger] cl@[a]
                        == #[trigger] cl@[b],
            decreases n - i,
        {
            let mut j: usize = 0;
            while j < n
                invariant
                    n == c.len(),
                    c == cands@,
                    cl@.len() == n,
                    i < n,
                    j <= n,
                    forall|a: int| 0 <= a < n ==> cl@[a] < n,
                    forall|a: int| 0 <= a < n ==> linked(c, a, #[trigger] cl@[a] as int),
                    !changed ==> cl@ == start,
                    changed ==> label_sum(cl@) < label_sum(start),
                    !changed ==> forall|a: int, b: int|
                        0 <= a < i && 0 <= b < n && spans_overlap(c[a], c[b]) ==> #[trigger] cl@[a]
                            == #[trigger] cl@[b],
                    !changed ==> forall|b: int|
                        0 <= b < j && spans_overlap(c[i as int], c[b]) ==> cl@[i as int]
                            == #[trigger] cl@[b],
                decreases n - j,
            {
                if i != j && cl[i] != cl[j] {
                    let a = cands[i];
                    let b = cands[j];
                    if a.span_lo < b.span_hi && b.span_lo < a.span_hi {
                        let li = cl[i];
                        let lj = cl[j];
                        let m = if li < lj {
                            li
                        } else {
                            lj
                        };
                        let ghost before = cl@;
                        proof {
                            let p = seq![i as int, j as int];
                            assert(is_chain(c, p));
                            assert(linked(c, i as int, j as int));
                            lemma_linked_sym(c, i as int, j as int);
                            lemma_linked_trans(c, i as int, j as int, lj as int);
                            lemma_linked_trans(c, j as int, i as int, li as int);
                            lemma_label_sum_update(before, i as int, m);
                            lemma_label_sum_update(before.update(i as int, m), j as int, m);
                        }
                        cl.set(i, m);
                        cl.set(j, m);
                        changed = true;
                    }
                }
                j = j + 1;
            }
            i = i + 1;
        }
        if !changed {
            proof {
                assert forall|a: int, b: int|
                    0 <= a < n && 0 <= b < n && spans_overlap(c[a], c[b]) implies #[trigger] cl@[a]
                        == #[trigger] cl@[b] by {}
                assert forall|a: int, b: int| 0 <= a < n && 0 <= b < n implies (cl@[a] == cl@[b]
                    <==> #[trigger] linked(c, a, b)) by {
                    if cl@[a] == cl@[b] {
                        let l = cl@[a] as int;
                        assert(linked(c, b, cl@[b] as int));
                        lemma_linked_sym(c, b, l);
                        lemma_linked_trans(c, a, l, b);
                    }
                    if linked(c, a, b) {
                        let p = choose|p: Seq<int>| #[trigger] is_chain(c, p) && p[0] == a && p.last() == b;
                        lemma_chain_labels(c, cl@, p, p.len() - 1);
                    }
                }
            }
            break;
        }
        proof {
            lemma_label_sum_nonneg(cl@);
        }
    }
    cl
}

/// Row allocation for a group of riding blocks sharing one leg segment.
/// Blocks whose column spans overlap, directly or through other blocks,
/// would collide on the same rows, so each such cluster is stacked on
/// successive row bands in declaration order; a block clear of every
/// other keeps its own centered position (`None`). Also returns the
/// group's row demand: the lowest row any block reaches.
pub fn allocate_riding_rows(candidates: &[RidingCandidate]) -> (r: (Vec<Option<usize>>, usize))
    requires
        total_lines(candidates@) <= usize::MAX,
    ensures
        r.0@.len() == candidates@.len(),
        forall|i: int|
            0 <= i < candidates@.len() ==> match #[trigger] r.0@[i] {
                Some(o) => riding_offset(candidates@, i) == Some(o as int),
                None => riding_offset(candidates@, i) is None,
            },
        r.1 == riding_demand(candidates@, candidates@.len() as int),
{
    let ghost c = candidates@;
    let n = candidates.len();
    let cl = cluster_labels(candidates);
    let mut count: Vec<usize> = Vec::new();
    let mut next: Vec<usize> = Vec::new();
    let mut k: usize = 0;
    while k < n
        invariant
            k <= n,
            count@.len() == k,
            next@.len() == k,
            forall|l: int| 0 <= l < k ==> count@[l] == 0 && next@[l] == 0,
        decreases n - k,
    {
        count.push(0);
        next.push(0);
        k = k + 1;
    }
    let mut i: usize = 0;
    while i < n
        invariant
            i <= n,
            n == c.len(),
            c == candidates@,
            cl@.len() == n,
            count@.len() == n,
            forall|a: int| 0 <= a < n ==> cl@[a] < n,
            forall|l: int| 0 <= l < n ==> #[trigger] count@[l] == label_count_before(cl@, l, i as int),
        decreases n - i,
    {
        let l = cl[i];
        proof {
            lemma_count_bound(cl@, l as int, i as int);
        }
        count.set(l, count[l] + 1);
        i = i + 1;
    }
    let mut offsets: Vec<Option<usize>> = Vec::new();
    let mut demand: usize = 0;
    let mut i: usize = 0;
    while i < n
        invariant
            i <= n,
            n == c.len(),
            c == candidates@,
            total_lines(c) <= usize::MAX,
            cl@.len() == n,
            count@.len() == n,
            next@.len() == n,
            forall|a: int| 0 <= a < n ==> cl@[a] < n,
            forall|a: int, b: int|
                0 <= a < n && 0 <= b < n ==> (cl@[a] == cl@[b] <==> #[trigger] linked(c, a, b)),
            forall|l: int| 0 <= l < n ==> #[trigger] count@[l] == label_count_before(cl@, l, n as int),
            forall|l: int| 0 <= l < n ==> #[trigger] next@[l] == label_lines_before(c, cl@, l, i as int),
            offsets@.len() == i,
            forall|a: int|
                0 <= a < i ==> match #[trigger] offsets@[a] {
                    Some(o) => riding_offset(c, a) == Some(o as int),
                    None => riding_offset(c, a) is None,
                },
            demand == riding_demand(c, i as int),
        decreases n - i,
    {
        let l = cl[i];
        let lines = candidates[i].lines;
        proof {
            assert forall|j: int| 0 <= j < n implies (cl@[j] == cl@[i as int] <==> #[trigger] linked(c, i as int, j)) by {
                assert(cl@[i as int] == cl@[j] <==> linked(c, i as int, j));
            }
            lemma_lines_before_match(c, cl@, i as int, i as int);
            lemma_count_one(cl@, i as int, n as int);
            assert(solo(c, i as int) <==> count@[l as int] == 1) by {
                if count@[l as int] == 1 {
                    assert forall|j: int| 0 <= j < c.len() && j != i implies !#[trigger] linked(c, i as int, j) by {
                        assert(cl@[j] != cl@[i as int]);
                    }
                }
                if solo(c, i as int) {
                    assert forall|j: int| 0 <= j < n && j != i implies #[trigger] cl@[j] != cl@[i as int] by {
                        assert(!linked(c, i as int, j));
                    }
                }
            }
            lemma_label_lines_bound(c, cl@, l as int, i as int + 1);
            lemma_total_lines_take(c, i as int + 1);
            assert(label_lines_before(c, cl@, l as int, i as int + 1) == next@[l as int] + lines);
        }
        let reach: usize = if count[l] == 1 {
            offsets.push(None);
            lines
        } else {
            offsets.push(Some(next[l]));
            next[l] + lines
        };
        let nl = next[l] + lines;
        next.set(l, nl);
        if reach > demand {
            demand = reach;
        }
        i = i + 1;
    }
    (offsets, demand)
}

proof fn lemma_count_bound(cl: Seq<usize>, l: int, k: int)
    requires
        0 <= k <= cl.len(),
    ensures
        0 <= label_count_before(cl, l, k) <= k,
    decreases k,
{
    if k > 0 {
        lemma_count_bound(cl, l, k - 1);
    }
}

} // verus!
