//! Row assignment for transition labels: labels in the same gap that
//! would overlap horizontally are stacked on successive rows.

use vstd::prelude::*;
use crate::diagrams::state::layout::{lay_view, lay_views, StateLayout};
use crate::diagrams::state::types::Transition;
use crate::geom::Rect;
use crate::layout::routing::sat_sub;
use crate::text::chars_eq;
use crate::width::{chars_of, chars_width, str_width};

verus! {

/// What a placed state holds: id, label, kind and box.
pub type Lay = (Seq<char>, Seq<char>, crate::diagrams::state::types::StateType, Rect);

/// Index of the last of the first `k` placed states named `id`.
pub open spec fn lay_index(ls: Seq<Lay>, id: Seq<char>, k: int) -> Option<int>
    decreases k,
{
    if k <= 0 {
        None
    } else if ls[k - 1].0 == id {
        Some(k - 1)
    } else {
        lay_index(ls, id, k - 1)
    }
}

/// Box of the last placed state named `id`.
pub open spec fn lay_rect(ls: Seq<Lay>, id: Seq<char>) -> Option<Rect> {
    match lay_index(ls, id, ls.len() as int) {
        Some(i) => Some(ls[i].3),
        None => None,
    }
}

pub proof fn lemma_lay_index_range(ls: Seq<Lay>, id: Seq<char>, k: int)
    ensures
        lay_index(ls, id, k) matches Some(i) ==> 0 <= i < k && ls[i].0 == id,
    decreases k,
{
    if k > 0 {
        lemma_lay_index_range(ls, id, k - 1);
    }
}

/// True when the two strings hold the same characters.
pub fn str_eq(a: &str, b: &str) -> (r: bool)
    ensures
        r == (a@ == b@),
{
    let x = chars_of(a);
    let y = chars_of(b);
    chars_eq(x.as_slice(), y.as_slice())
}

/// Index of the last placed state named `id` (see [`lay_index`]).
pub fn find_lay(layouts: &[StateLayout], id: &str) -> (r: Option<usize>)
    ensures
        match r {
            Some(i) => lay_index(lay_views(layouts@), id@, layouts@.len() as int) == Some(i as int),
            None => lay_index(lay_views(layouts@), id@, layouts@.len() as int) is None,
        },
{
    let ghost ls = lay_views(layouts@);
    let mut k: usize = layouts.len();
    while k > 0
        invariant
            k <= layouts@.len(),
            ls == lay_views(layouts@),
            lay_index(ls, id@, layouts@.len() as int) == lay_index(ls, id@, k as int),
        decreases k,
    {
        assert(ls[k - 1] == lay_view(layouts@[k - 1]));
        if str_eq(layouts[k - 1].id.as_str(), id) {
            return Some(k - 1);
        }
        k = k - 1;
    }
    None
}

/// `(a + b) / 2` without overflow.
pub fn midpoint(a: usize, b: usize) -> (r: usize)
    ensures
        r == (a + b) / 2,
{
    if a <= b {
        a + (b - a) / 2
    } else {
        b + (a - b) / 2
    }
}

/// A vertical gap between two layers, named by the rows of its upper
/// and lower boxes. Transitions that share a gap share its corridor
/// rows.
#[derive(Clone, Copy, Debug, PartialEq, Eq, Structural)]
pub struct GapKey {
    pub top: usize,
    pub bottom: usize,
}

/// A transition label's span on its row and the gap it lives in.
#[derive(Clone, Copy, Debug, PartialEq, Eq, Structural)]
pub struct LabelInfo {
    pub x: usize,
    pub width: usize,
    pub key: GapKey,
}

/// The gap between boxes `f` and `g`: the upper and the lower row.
pub open spec fn gap_key(f: Rect, g: Rect) -> GapKey {
    if f.y < g.y {
        GapKey { top: f.y, bottom: g.y }
    } else {
        GapKey { top: g.y, bottom: f.y }
    }
}

/// The label span of transition `t` over the placed states `ls`: none
/// for a self-transition, one without a label, or one whose ends are
/// not placed; else centered between the two center columns.
pub open spec fn label_info(ls: Seq<Lay>, t: Transition) -> Option<LabelInfo> {
    if t.from@ == t.to@ {
        None
    } else {
        match (t.label, lay_rect(ls, t.from@), lay_rect(ls, t.to@)) {
            (Some(text), Some(f), Some(g)) => {
                let w = chars_width(text@);
                Some(LabelInfo {
                    x: sat_sub((f.cx() + g.cx()) / 2, w as int / 2) as usize,
                    width: w,
                    key: gap_key(f, g),
                })
            },
            _ => None,
        }
    }
}

/// The label spans of every transition.
pub open spec fn label_infos(ls: Seq<Lay>, ts: Seq<Transition>) -> Seq<Option<LabelInfo>> {
    Seq::new(ts.len(), |k: int| label_info(ls, ts[k]))
}

/// Left column of label `i` (0 when it has none).
pub open spec fn info_x(infos: Seq<Option<LabelInfo>>, i: int) -> int {
    match infos[i] {
        Some(l) => l.x as int,
        None => 0,
    }
}

/// `s` (ordered by left column) with `e` inserted after every entry
/// whose column is no greater than its own.
pub open spec fn insert_by_x(infos: Seq<Option<LabelInfo>>, s: Seq<int>, e: int) -> Seq<int>
    decreases s.len(),
{
    if s.len() == 0 {
        seq![e]
    } else if info_x(infos, s.last()) <= info_x(infos, e) {
        s.push(e)
    } else {
        insert_by_x(infos, s.drop_last(), e).push(s.last())
    }
}

/// The labels among the first `k` transitions, ordered by left column,
/// ties in transition order.
pub open spec fn by_x(infos: Seq<Option<LabelInfo>>, k: int) -> Seq<int>
    decreases k,
{
    if k <= 0 {
        Seq::empty()
    } else if infos[k - 1] is Some {
        insert_by_x(infos, by_x(infos, k - 1), k - 1)
    } else {
        by_x(infos, k - 1)
    }
}

/// Two labels of the same gap whose spans overlap.
pub open spec fn clash(a: LabelInfo, b: LabelInfo) -> bool {
    &&& a.key == b.key
    &&& a.x < b.x + b.width
    &&& a.x + a.width > b.x
}

/// Row `r` already holds a label, among the first `k` in `ord`, that
/// clashes with label `p`.
pub open spec fn row_taken(infos: Seq<Option<LabelInfo>>, ord: Seq<int>, rows: Seq<int>, k: int, p: int, r: int) -> bool {
    exists|j: int|
        0 <= j < k && #[trigger] rows[ord[j]] == r && clash(infos[ord[j]]->0, infos[p]->0)
}

/// The first row from `r` on that label `p` can take.
pub open spec fn first_free(infos: Seq<Option<LabelInfo>>, ord: Seq<int>, rows: Seq<int>, k: int, p: int, r: int) -> int
    decreases infos.len() - r,
{
    if r >= infos.len() || !row_taken(infos, ord, rows, k, p, r) {
        r
    } else {
        first_free(infos, ord, rows, k, p, r + 1)
    }
}

/// Rows of the labels after placing the first `k` of `ord`, each on the
/// first row where it clashes with no label placed before it (0 for a
/// transition not placed).
pub open spec fn rows_upto(infos: Seq<Option<LabelInfo>>, ord: Seq<int>, k: int) -> Seq<int>
    decreases k,
{
    if k <= 0 {
        Seq::new(infos.len(), |i: int| 0int)
    } else {
        let prev = rows_upto(infos, ord, k - 1);
        prev.update(ord[k - 1], first_free(infos, ord, prev, k - 1, ord[k - 1], 0))
    }
}

/// The label row of every transition: labels are placed in order of
/// their left column, each on the first row where it overlaps no label
/// of its gap placed before it.
pub open spec fn label_rows(ls: Seq<Lay>, ts: Seq<Transition>) -> Seq<int> {
    let infos = label_infos(ls, ts);
    let ord = by_x(infos, ts.len() as int);
    rows_upto(infos, ord, ord.len() as int)
}

/// The label span of `t` (see [`label_info`]).
fn info_of(layouts: &[StateLayout], t: &Transition) -> (r: Option<LabelInfo>)
    ensures
        r == label_info(lay_views(layouts@), *t),
{
    let ghost ls = lay_views(layouts@);
    if str_eq(t.from.as_str(), t.to.as_str()) {
        return None;
    }
    let text = match &t.label {
        Some(s) => s,
        None => {
            return None;
        },
    };
    let fi = find_lay(layouts, t.from.as_str());
    let ti = find_lay(layouts, t.to.as_str());
    proof {
        lemma_lay_index_range(ls, t.from@, ls.len() as int);
        lemma_lay_index_range(ls, t.to@, ls.len() as int);
    }
    match (fi, ti) {
        (Some(a), Some(b)) => {
            let f = layouts[a].rect;
            let g = layouts[b].rect;
            assert(ls[a as int] == lay_view(layouts@[a as int]));
            assert(ls[b as int] == lay_view(layouts@[b as int]));
            let fcx = f.cx();
            let gcx = g.cx();
            let w = str_width(text.as_str());
            let x = midpoint(fcx, gcx).saturating_sub(w / 2);
            let key = if f.y < g.y {
                GapKey { top: f.y, bottom: g.y }
            } else {
                GapKey { top: g.y, bottom: f.y }
            };
            Some(LabelInfo { x, width: w, key })
        },
        _ => None,
    }
}

/// `a < b + c` without overflow.
fn lt_sum(a: usize, b: usize, c: usize) -> (r: bool)
    ensures
        r == (a < b + c),
{
    if a < b {
        true
    } else {
        a - b < c
    }
}

/// The two labels clash (see [`clash`]).
fn clash_exec(a: LabelInfo, b: LabelInfo) -> (r: bool)
    ensures
        r == clash(a, b),
{
    a.key == b.key && lt_sum(a.x, b.x, b.width) && lt_sum(b.x, a.x, a.width)
}

proof fn lemma_insert_shape(infos: Seq<Option<LabelInfo>>, s: Seq<int>, e: int, j: int)
    requires
        0 <= j <= s.len(),
        j == 0 || info_x(infos, s[j - 1]) <= info_x(infos, e),
        forall|i: int| j <= i < s.len() ==> info_x(infos, #[trigger] s[i]) > info_x(infos, e),
    ensures
        insert_by_x(infos, s, e) == s.subrange(0, j).push(e) + s.subrange(j, s.len() as int),
    decreases s.len(),
{
    if s.len() == 0 {
        assert(s.subrange(0, 0).push(e) + s.subrange(0, 0) =~= seq![e]);
    } else if j == s.len() {
        assert(info_x(infos, s.last()) <= info_x(infos, e));
        assert(s.subrange(0, j).push(e) + s.subrange(j, s.len() as int) =~= s.push(e));
    } else {
        let t = s.drop_last();
        assert(info_x(infos, s.last()) > info_x(infos, e));
        assert forall|i: int| j <= i < t.len() implies info_x(infos, #[trigger] t[i]) > info_x(infos, e) by {
            assert(t[i] == s[i]);
        }
        lemma_insert_shape(infos, t, e, j);
        assert(t.subrange(0, j).push(e) + t.subrange(j, t.len() as int) + seq![s.last()] =~= s.subrange(0, j).push(e)
            + s.subrange(j, s.len() as int));
        assert((t.subrange(0, j).push(e) + t.subrange(j, t.len() as int)).push(s.last()) =~= t.subrange(0, j).push(e)
            + t.subrange(j, t.len() as int) + seq![s.last()]);
    }
}

proof fn lemma_insert_members(infos: Seq<Option<LabelInfo>>, s: Seq<int>, e: int)
    ensures
        forall|i: int| 0 <= i < insert_by_x(infos, s, e).len() ==> #[trigger] insert_by_x(infos, s, e)[i] == e
            || s.contains(insert_by_x(infos, s, e)[i]),
        insert_by_x(infos, s, e).len() == s.len() + 1,
    decreases s.len(),
{
    if s.len() > 0 && info_x(infos, s.last()) > info_x(infos, e) {
        let t = s.drop_last();
        lemma_insert_members(infos, t, e);
        let r = insert_by_x(infos, s, e);
        assert forall|i: int| 0 <= i < r.len() implies #[trigger] r[i] == e || s.contains(r[i]) by {
            if i < r.len() - 1 {
                let x = insert_by_x(infos, t, e)[i];
                assert(r[i] == x);
                if x != e {
                    let w = choose|w: int| 0 <= w < t.len() && t[w] == x;
                    assert(s[w] == x);
                }
            } else {
                assert(r[i] == s[s.len() - 1]);
            }
        }
    } else if s.len() > 0 {
        let r = insert_by_x(infos, s, e);
        assert forall|i: int| 0 <= i < r.len() implies #[trigger] r[i] == e || s.contains(r[i]) by {
            if i < s.len() {
                assert(r[i] == s[i]);
            }
        }
    }
}

proof fn lemma_by_x_members(infos: Seq<Option<LabelInfo>>, k: int)
    requires
        0 <= k <= infos.len(),
    ensures
        forall|i: int| 0 <= i < by_x(infos, k).len() ==> 0 <= #[trigger] by_x(infos, k)[i] < k && infos[by_x(infos, k)[i]] is Some,
    decreases k,
{
    if k > 0 {
        lemma_by_x_members(infos, k - 1);
        if infos[k - 1] is Some {
            let s = by_x(infos, k - 1);
            lemma_insert_members(infos, s, k - 1);
            let r = by_x(infos, k);
            assert forall|i: int| 0 <= i < r.len() implies 0 <= #[trigger] r[i] < k && infos[r[i]] is Some by {
                if r[i] != k - 1 {
                    let w = choose|w: int| 0 <= w < s.len() && s[w] == r[i];
                    assert(s[w] == r[i]);
                }
            }
        }
    }
}

/// `ord` with label `e` inserted (see [`insert_by_x`]).
fn insert_label(ord: &Vec<usize>, infos: &Vec<Option<LabelInfo>>, e: usize) -> (r: Vec<usize>)
    requires
        e < infos@.len(),
        forall|i: int| 0 <= i < ord@.len() ==> #[trigger] ord@[i] < infos@.len(),
    ensures
        r@.map_values(|v: usize| v as int) == insert_by_x(infos@, ord@.map_values(|v: usize| v as int), e as int),
        forall|i: int| 0 <= i < r@.len() ==> #[trigger] r@[i] < infos@.len(),
        r@.len() == ord@.len() + 1,
{
    let ghost s = ord@.map_values(|v: usize| v as int);
    let xe = match infos[e] {
        Some(l) => l.x,
        None => 0,
    };
    let mut j = ord.len();
    while j > 0
        invariant
            j <= ord@.len(),
            s == ord@.map_values(|v: usize| v as int),
            forall|i: int| 0 <= i < ord@.len() ==> #[trigger] ord@[i] < infos@.len(),
            xe as int == info_x(infos@, e as int),
            forall|i: int| j <= i < s.len() ==> info_x(infos@, #[trigger] s[i]) > info_x(infos@, e as int),
        ensures
            j == 0 || info_x(infos@, s[j - 1]) <= info_x(infos@, e as int),
            forall|i: int| j <= i < s.len() ==> info_x(infos@, #[trigger] s[i]) > info_x(infos@, e as int),
        decreases j,
    {
        let xj = match infos[ord[j - 1]] {
            Some(l) => l.x,
            None => 0,
        };
        assert(s[j - 1] == ord@[j - 1] as int);
        if xj <= xe {
            break;
        }
        j = j - 1;
    }
    proof {
        lemma_insert_shape(infos@, s, e as int, j as int);
    }
    let mut r: Vec<usize> = Vec::new();
    let mut i: usize = 0;
    while i < j
        invariant
            i <= j <= ord@.len(),
            r@ == ord@.subrange(0, i as int),
        decreases j - i,
    {
        r.push(ord[i]);
        i = i + 1;
    }
    r.push(e);
    let mut i: usize = j;
    while i < ord.len()
        invariant
            j <= i <= ord@.len(),
            r@ == ord@.subrange(0, j as int).push(e) + ord@.subrange(j as int, i as int),
        decreases ord@.len() - i,
    {
        r.push(ord[i]);
        proof {
            assert(ord@.subrange(j as int, i + 1) =~= ord@.subrange(j as int, i as int).push(ord@[i as int]));
        }
        i = i + 1;
    }
    proof {
        assert(r@.map_values(|v: usize| v as int) =~= s.subrange(0, j as int).push(e as int) + s.subrange(j as int, s.len() as int));
    }
    r
}

/// The label row of every transition (see [`label_rows`]).
pub fn compute_label_rows(transitions: &[Transition], layouts: &[StateLayout]) -> (rows: Vec<usize>)
    ensures
        rows@.len() == transitions@.len(),
        rows@.map_values(|v: usize| v as int) == label_rows(lay_views(layouts@), transitions@),
{
    let ghost ls = lay_views(layouts@);
    let ghost ts = transitions@;
    let n = transitions.len();
    let ghost gi = label_infos(ls, ts);
    let mut infos: Vec<Option<LabelInfo>> = Vec::new();
    let mut k: usize = 0;
    while k < n
        invariant
            k <= n,
            n == ts.len(),
            ts == transitions@,
            ls == lay_views(layouts@),
            gi == label_infos(ls, ts),
            infos@ == gi.subrange(0, k as int),
        decreases n - k,
    {
        let info = info_of(layouts, &transitions[k]);
        infos.push(info);
        proof {
            assert(gi.subrange(0, k + 1) =~= gi.subrange(0, k as int).push(gi[k as int]));
        }
        k = k + 1;
    }
    proof {
        assert(infos@ =~= gi);
    }
    let mut ord: Vec<usize> = Vec::new();
    let mut k: usize = 0;
    while k < n
        invariant
            k <= n,
            n == ts.len(),
            infos@ == gi,
            gi.len() == n,
            ord@.map_values(|v: usize| v as int) == by_x(gi, k as int),
            forall|i: int| 0 <= i < ord@.len() ==> #[trigger] ord@[i] < n,
        decreases n - k,
    {
        if infos[k].is_some() {
            ord = insert_label(&ord, &infos, k);
        }
        k = k + 1;
    }
    let ghost go = by_x(gi, n as int);
    proof {
        lemma_by_x_members(gi, n as int);
    }
    let m = ord.len();
    let mut rows: Vec<usize> = Vec::new();
    let mut i: usize = 0;
    while i < n
        invariant
            i <= n,
            rows@.len() == i,
            forall|j: int| 0 <= j < i ==> rows@[j] == 0,
        decreases n - i,
    {
        rows.push(0);
        i = i + 1;
    }
    proof {
        assert(rows@.map_values(|v: usize| v as int) =~= rows_upto(gi, go, 0));
    }
    let mut k: usize = 0;
    while k < m
        invariant
            k <= m,
            m == ord@.len(),
            n == gi.len(),
            infos@ == gi,
            go == ord@.map_values(|v: usize| v as int),
            forall|i: int| 0 <= i < ord@.len() ==> #[trigger] ord@[i] < n,
            rows@.len() == n,
            rows@.map_values(|v: usize| v as int) == rows_upto(gi, go, k as int),
            forall|i: int| 0 <= i < go.len() ==> 0 <= #[trigger] go[i] < n && gi[go[i]] is Some,
        decreases m - k,
    {
        let p = ord[k];
        assert(go[k as int] == p as int);
        let ghost prev = rows_upto(gi, go, k as int);
        let ip = match infos[p] {
            Some(l) => l,
            None => LabelInfo { x: 0, width: 0, key: GapKey { top: 0, bottom: 0 } },
        };
        let mut r: usize = 0;
        while r < n
            invariant
                r <= n,
                k < m,
                m == ord@.len(),
                n == gi.len(),
                infos@ == gi,
                go == ord@.map_values(|v: usize| v as int),
                forall|i: int| 0 <= i < ord@.len() ==> #[trigger] ord@[i] < n,
                rows@.len() == n,
                rows@.map_values(|v: usize| v as int) == prev,
                p as int == go[k as int],
                gi[p as int] matches Some(l) ==> ip == l,
                forall|i: int| 0 <= i < go.len() ==> 0 <= #[trigger] go[i] < n && gi[go[i]] is Some,
                first_free(gi, go, prev, k as int, p as int, 0) == first_free(gi, go, prev, k as int, p as int, r as int),
            ensures
                r <= n,
                rows@.len() == n,
                rows@.map_values(|v: usize| v as int) == prev,
                first_free(gi, go, prev, k as int, p as int, 0) == r,
            decreases n - r,
        {
            let mut taken = false;
            let mut j: usize = 0;
            while j < k
                invariant
                    j <= k < m,
                    m == ord@.len(),
                    n == gi.len(),
                    infos@ == gi,
                    go == ord@.map_values(|v: usize| v as int),
                    forall|i: int| 0 <= i < ord@.len() ==> #[trigger] ord@[i] < n,
                    rows@.len() == n,
                    rows@.map_values(|v: usize| v as int) == prev,
                    gi[p as int] matches Some(l) ==> ip == l,
                    forall|i: int| 0 <= i < go.len() ==> 0 <= #[trigger] go[i] < n && gi[go[i]] is Some,
                    gi[p as int] is Some,
                    taken <==> exists|jj: int|
                        0 <= jj < j && #[trigger] prev[go[jj]] == r && clash(gi[go[jj]]->0, gi[p as int]->0),
                decreases k - j,
            {
                let q = ord[j];
                assert(go[j as int] == q as int);
                let iq = match infos[q] {
                    Some(l) => l,
                    None => LabelInfo { x: 0, width: 0, key: GapKey { top: 0, bottom: 0 } },
                };
                assert(prev[q as int] == rows@[q as int] as int);
                if rows[q] == r && clash_exec(iq, ip) {
                    taken = true;
                }
                j = j + 1;
            }
            if !taken {
                assert(!row_taken(gi, go, prev, k as int, p as int, r as int));
                break;
            }
            assert(row_taken(gi, go, prev, k as int, p as int, r as int));
            r = r + 1;
        }
        rows.set(p, r);
        proof {
            assert(rows@.map_values(|v: usize| v as int) =~= prev.update(p as int, r as int));
        }
        k = k + 1;
    }
    rows
}

proof fn lemma_insert_has(infos: Seq<Option<LabelInfo>>, s: Seq<int>, e: int)
    ensures
        insert_by_x(infos, s, e).contains(e),
        forall|x: int| s.contains(x) ==> insert_by_x(infos, s, e).contains(x),
        s.no_duplicates() && !s.contains(e) ==> insert_by_x(infos, s, e).no_duplicates(),
    decreases s.len(),
{
    lemma_insert_members(infos, s, e);
    let r = insert_by_x(infos, s, e);
    if s.len() == 0 {
        assert(r[0] == e);
    } else if info_x(infos, s.last()) <= info_x(infos, e) {
        assert(r[s.len() as int] == e);
        assert forall|x: int| s.contains(x) implies r.contains(x) by {
            let w = choose|w: int| 0 <= w < s.len() && s[w] == x;
            assert(r[w] == x);
        }
    } else {
        let t = s.drop_last();
        lemma_insert_has(infos, t, e);
        lemma_insert_members(infos, t, e);
        let rt = insert_by_x(infos, t, e);
        assert(r == rt.push(s.last()));
        let we = choose|w: int| 0 <= w < rt.len() && rt[w] == e;
        assert(r[we] == e);
        assert forall|x: int| s.contains(x) implies r.contains(x) by {
            let w = choose|w: int| 0 <= w < s.len() && s[w] == x;
            if w == s.len() - 1 {
                assert(r[r.len() - 1] == x);
            } else {
                assert(t[w] == x);
                assert(t.contains(x));
                let w2 = choose|w2: int| 0 <= w2 < rt.len() && rt[w2] == x;
                assert(r[w2] == x);
            }
        }
        if s.no_duplicates() && !s.contains(e) {
            assert(!t.contains(e)) by {
                if t.contains(e) {
                    let w = choose|w: int| 0 <= w < t.len() && t[w] == e;
                    assert(s[w] == e);
                }
            }
            assert(t.no_duplicates());
            assert(!rt.contains(s.last())) by {
                if rt.contains(s.last()) {
                    let w = choose|w: int| 0 <= w < rt.len() && rt[w] == s.last();
                    assert(rt[w] == e || t.contains(rt[w]));
                    if rt[w] == e {
                        assert(s[s.len() - 1] == e);
                    } else {
                        let w3 = choose|w3: int| 0 <= w3 < t.len() && t[w3] == s.last();
                        assert(s[w3] == s[s.len() - 1]);
                    }
                }
            }
            assert forall|i: int, j: int| 0 <= i < r.len() && 0 <= j < r.len() && i != j implies r[i] != r[j] by {
                if i < r.len() - 1 && j < r.len() - 1 {
                    assert(r[i] == rt[i] && r[j] == rt[j]);
                } else if i == r.len() - 1 {
                    assert(r[j] == rt[j]);
                } else {
                    assert(r[i] == rt[i]);
                }
            }
        }
    }
}

proof fn lemma_by_x_complete(infos: Seq<Option<LabelInfo>>, k: int)
    requires
        0 <= k <= infos.len(),
    ensures
        forall|i: int| 0 <= i < k && infos[i] is Some ==> by_x(infos, k).contains(i),
        by_x(infos, k).no_duplicates(),
    decreases k,
{
    if k > 0 {
        lemma_by_x_complete(infos, k - 1);
        lemma_by_x_members(infos, k - 1);
        let s = by_x(infos, k - 1);
        if infos[k - 1] is Some {
            assert(!s.contains(k - 1)) by {
                if s.contains(k - 1) {
                    let w = choose|w: int| 0 <= w < s.len() && s[w] == k - 1;
                    assert(s[w] < k - 1);
                }
            }
            lemma_insert_has(infos, s, k - 1);
            assert(by_x(infos, k) == insert_by_x(infos, s, k - 1));
            assert forall|i: int| 0 <= i < k && infos[i] is Some implies #[trigger] by_x(infos, k).contains(i) by {
                if i < k - 1 {
                    assert(s.contains(i));
                }
            }
        } else {
            assert(by_x(infos, k) == s);
            assert forall|i: int| 0 <= i < k && infos[i] is Some implies #[trigger] by_x(infos, k).contains(i) by {
                assert(i < k - 1);
                assert(s.contains(i));
            }
        }
    }
}

proof fn lemma_free_row_exists(infos: Seq<Option<LabelInfo>>, ord: Seq<int>, rows: Seq<int>, k: int, p: int) -> (r: int)
    requires
        0 <= k < infos.len(),
        k <= ord.len(),
    ensures
        0 <= r < infos.len(),
        !row_taken(infos, ord, rows, k, p, r),
{
    let n = infos.len() as int;
    let ws = Seq::new(k as nat, |j: int| rows[ord[j]]);
    ws.lemma_cardinality_of_set();
    vstd::set_lib::lemma_int_range(0, n);
    if forall|r: int| 0 <= r < n ==> row_taken(infos, ord, rows, k, p, r) {
        assert(vstd::set_lib::set_int_range(0, n).subset_of(ws.to_set())) by {
            assert forall|r: int| vstd::set_lib::set_int_range(0, n).contains(r) implies ws.to_set().contains(r) by {
                assert(row_taken(infos, ord, rows, k, p, r));
                let j = choose|j: int| 0 <= j < k && #[trigger] rows[ord[j]] == r && clash(infos[ord[j]]->0, infos[p]->0);
                assert(ws[j] == r);
            }
        }
        vstd::set_lib::lemma_len_subset(vstd::set_lib::set_int_range(0, n), ws.to_set());
        assert(false);
    }
    choose|r: int| 0 <= r < n && !row_taken(infos, ord, rows, k, p, r)
}

proof fn lemma_first_free_free(infos: Seq<Option<LabelInfo>>, ord: Seq<int>, rows: Seq<int>, k: int, p: int, r0: int, rf: int)
    requires
        0 <= r0 <= rf < infos.len(),
        !row_taken(infos, ord, rows, k, p, rf),
    ensures
        first_free(infos, ord, rows, k, p, r0) < infos.len(),
        !row_taken(infos, ord, rows, k, p, first_free(infos, ord, rows, k, p, r0)),
    decreases rf - r0,
{
    if row_taken(infos, ord, rows, k, p, r0) {
        lemma_first_free_free(infos, ord, rows, k, p, r0 + 1, rf);
    }
}

proof fn lemma_rows_apart(infos: Seq<Option<LabelInfo>>, ord: Seq<int>, k: int)
    requires
        0 <= k <= ord.len(),
        ord.len() <= infos.len(),
        ord.no_duplicates(),
        forall|i: int| 0 <= i < ord.len() ==> 0 <= #[trigger] ord[i] < infos.len(),
    ensures
        rows_upto(infos, ord, k).len() == infos.len(),
        forall|a: int, b: int|
            0 <= a < b < k && clash(infos[ord[a]]->0, infos[ord[b]]->0) ==> #[trigger] rows_upto(infos, ord, k)[ord[a]]
                != #[trigger] rows_upto(infos, ord, k)[ord[b]],
    decreases k,
{
    if k > 0 {
        lemma_rows_apart(infos, ord, k - 1);
        let prev = rows_upto(infos, ord, k - 1);
        let p = ord[k - 1];
        let rf = lemma_free_row_exists(infos, ord, prev, k - 1, p);
        lemma_first_free_free(infos, ord, prev, k - 1, p, 0, rf);
        let r = first_free(infos, ord, prev, k - 1, p, 0);
        let cur = rows_upto(infos, ord, k);
        assert(cur == prev.update(p, r));
        assert forall|a: int, b: int|
            0 <= a < b < k && clash(infos[ord[a]]->0, infos[ord[b]]->0) implies #[trigger] cur[ord[a]] != #[trigger] cur[ord[b]] by {
            assert(ord[a] != p);
            if b < k - 1 {
                assert(ord[b] != p);
                assert(cur[ord[a]] == prev[ord[a]]);
                assert(cur[ord[b]] == prev[ord[b]]);
            } else {
                assert(cur[ord[a]] == prev[ord[a]]);
                assert(cur[p] == r);
                if prev[ord[a]] == r {
                    assert(row_taken(infos, ord, prev, k - 1, p, r));
                }
            }
        }
    }
}

/// Two labels of the same gap whose spans overlap never share a label
/// row.
pub proof fn law_clashing_labels_on_different_rows(ls: Seq<Lay>, ts: Seq<Transition>, p: int, q: int)
    requires
        0 <= p < ts.len(),
        0 <= q < ts.len(),
        p != q,
        label_infos(ls, ts)[p] is Some,
        label_infos(ls, ts)[q] is Some,
        clash(label_infos(ls, ts)[p]->0, label_infos(ls, ts)[q]->0),
    ensures
        label_rows(ls, ts)[p] != label_rows(ls, ts)[q],
{
    let infos = label_infos(ls, ts);
    let n = ts.len() as int;
    let ord = by_x(infos, n);
    lemma_by_x_members(infos, n);
    lemma_by_x_complete(infos, n);
    assert(ord.len() <= infos.len()) by {
        assert(ord.to_set().subset_of(vstd::set_lib::set_int_range(0, n)));
        ord.unique_seq_to_set();
        vstd::set_lib::lemma_int_range(0, n);
        vstd::set_lib::lemma_len_subset(ord.to_set(), vstd::set_lib::set_int_range(0, n));
    }
    lemma_rows_apart(infos, ord, ord.len() as int);
    assert(ord.contains(p));
    assert(ord.contains(q));
    let a = choose|a: int| 0 <= a < ord.len() && ord[a] == p;
    let b = choose|b: int| 0 <= b < ord.len() && ord[b] == q;
    assert(a != b);
    if a < b {
        assert(rows_upto(infos, ord, ord.len() as int)[ord[a]] != rows_upto(infos, ord, ord.len() as int)[ord[b]]);
    } else {
        assert(clash(infos[ord[b]]->0, infos[ord[a]]->0));
        assert(rows_upto(infos, ord, ord.len() as int)[ord[b]] != rows_upto(infos, ord, ord.len() as int)[ord[a]]);
    }
}

} // verus!
