//! Layered-layout phases after layering: crossing reduction by the
//! median heuristic, x-coordinate assignment that keeps chains of
//! aligned states in one column, and widening of column gaps for
//! transition labels.

use vstd::prelude::*;
use crate::diagrams::state::label_rows::str_eq;
use crate::diagrams::state::types::Transition;
use crate::geom::Size;
use crate::width::{chars_width, str_width};

verus! {

// ---------------------------------------------------------------------
// Positions and medians
// ---------------------------------------------------------------------

/// Index of the last of the first `k` entries of `s` equal to `node`.
pub open spec fn last_pos(s: Seq<usize>, node: usize, k: int) -> Option<int>
    decreases k,
{
    if k <= 0 {
        None
    } else if s[k - 1] == node {
        Some(k - 1)
    } else {
        last_pos(s, node, k - 1)
    }
}

/// Index of the first entry of `s` equal to `node`, among the first `k`.
pub open spec fn first_pos(s: Seq<usize>, node: usize, k: int) -> Option<int>
    decreases k,
{
    if k <= 0 {
        None
    } else {
        match first_pos(s, node, k - 1) {
            Some(i) => Some(i),
            None => if s[k - 1] == node { Some(k - 1) } else { None },
        }
    }
}

/// Positions in `adjacent` of the first `k` neighbours in `nbs` that
/// occur there (the last occurrence of each), in neighbour order.
pub open spec fn nb_positions(adjacent: Seq<usize>, nbs: Seq<usize>, k: int) -> Seq<int>
    decreases k,
{
    if k <= 0 {
        Seq::empty()
    } else {
        let prev = nb_positions(adjacent, nbs, k - 1);
        match last_pos(adjacent, nbs[k - 1], adjacent.len() as int) {
            Some(p) => prev.push(p),
            None => prev,
        }
    }
}

/// The median key of `node` in `layer` against `adjacent`: the middle
/// (upper middle for an even count) of its neighbours' positions in
/// neighbour order; with no neighbour there, its own first position in
/// `layer`.
pub open spec fn median_key(layer: Seq<usize>, adjacent: Seq<usize>, nbs: Seq<Seq<usize>>, node: usize) -> int {
    let ps = nb_positions(adjacent, nbs[node as int], nbs[node as int].len() as int);
    if ps.len() == 0 {
        match first_pos(layer, node, layer.len() as int) {
            Some(i) => i,
            None => 0,
        }
    } else {
        ps[ps.len() as int / 2]
    }
}

/// `s` (ordered by key) with `e` inserted after every entry whose key is
/// no greater than its own.
pub open spec fn insert_by_key(s: Seq<usize>, e: usize, key: spec_fn(usize) -> int) -> Seq<usize>
    decreases s.len(),
{
    if s.len() == 0 {
        seq![e]
    } else if key(s.last()) <= key(e) {
        s.push(e)
    } else {
        insert_by_key(s.drop_last(), e, key).push(s.last())
    }
}

/// The first `k` entries of `s` ordered by key, ties in order.
pub open spec fn sort_by_key(s: Seq<usize>, key: spec_fn(usize) -> int, k: int) -> Seq<usize>
    decreases k,
{
    if k <= 0 {
        Seq::empty()
    } else {
        insert_by_key(sort_by_key(s, key, k - 1), s[k - 1], key)
    }
}

/// `layer` reordered by the median positions of its nodes' neighbours
/// in `adjacent` (ties keep their order); a layer of at most one node is
/// left alone.
pub open spec fn sorted_by_median(layer: Seq<usize>, adjacent: Seq<usize>, nbs: Seq<Seq<usize>>) -> Seq<usize> {
    if layer.len() <= 1 {
        layer
    } else {
        sort_by_key(layer, |n: usize| median_key(layer, adjacent, nbs, n), layer.len() as int)
    }
}

/// Index of the last entry of `s` equal to `node`.
fn last_pos_exec(s: &Vec<usize>, node: usize) -> (r: Option<usize>)
    ensures
        match r {
            Some(i) => last_pos(s@, node, s@.len() as int) == Some(i as int),
            None => last_pos(s@, node, s@.len() as int) is None,
        },
{
    let mut k = s.len();
    while k > 0
        invariant
            k <= s@.len(),
            last_pos(s@, node, s@.len() as int) == last_pos(s@, node, k as int),
        decreases k,
    {
        if s[k - 1] == node {
            return Some(k - 1);
        }
        k = k - 1;
    }
    None
}

/// Index of the first entry of `s` equal to `node`.
fn first_pos_exec(s: &Vec<usize>, node: usize) -> (r: Option<usize>)
    ensures
        match r {
            Some(i) => first_pos(s@, node, s@.len() as int) == Some(i as int),
            None => first_pos(s@, node, s@.len() as int) is None,
        },
{
    let mut k: usize = 0;
    while k < s.len()
        invariant
            k <= s@.len(),
            first_pos(s@, node, k as int) is None,
        decreases s@.len() - k,
    {
        if s[k] == node {
            proof {
                lemma_first_pos_stays(s@, node, k + 1, s@.len() as int);
            }
            return Some(k);
        }
        k = k + 1;
    }
    None
}

proof fn lemma_first_pos_stays(s: Seq<usize>, node: usize, k: int, m: int)
    requires
        0 < k <= m <= s.len(),
        first_pos(s, node, k) is Some,
    ensures
        first_pos(s, node, m) == first_pos(s, node, k),
    decreases m - k,
{
    if m > k {
        lemma_first_pos_stays(s, node, k, m - 1);
    }
}

/// The median key of `node` (see [`median_key`]).
fn median_key_exec(layer: &Vec<usize>, adjacent: &Vec<usize>, nbs: &[Vec<usize>], node: usize) -> (r: usize)
    requires
        node < nbs@.len(),
    ensures
        r as int == median_key(layer@, adjacent@, nbs_view(nbs@), node),
{
    let ghost nv = nbs_view(nbs@);
    let nl = &nbs[node];
    assert(nv[node as int] == nl@);
    let mut ps: Vec<usize> = Vec::new();
    let mut k: usize = 0;
    while k < nl.len()
        invariant
            k <= nl@.len(),
            nv == nbs_view(nbs@),
            nl@ == nv[node as int],
            ps@.map_values(|v: usize| v as int) == nb_positions(adjacent@, nl@, k as int),
        decreases nl@.len() - k,
    {
        match last_pos_exec(adjacent, nl[k]) {
            Some(p) => {
                ps.push(p);
            },
            None => {},
        }
        k = k + 1;
    }
    assert(ps@.map_values(|v: usize| v as int).len() == ps@.len());
    if ps.len() == 0 {
        match first_pos_exec(layer, node) {
            Some(i) => i,
            None => 0,
        }
    } else {
        let m = ps[ps.len() / 2];
        assert(ps@.map_values(|v: usize| v as int)[ps@.len() as int / 2] == m as int);
        m
    }
}

/// Neighbour lists as sequences.
pub open spec fn nbs_view(nbs: Seq<Vec<usize>>) -> Seq<Seq<usize>> {
    Seq::new(nbs.len(), |i: int| nbs[i]@)
}

/// Layers as sequences.
pub open spec fn layers_view(ls: Seq<Vec<usize>>) -> Seq<Seq<usize>> {
    Seq::new(ls.len(), |i: int| ls[i]@)
}

proof fn lemma_insert_key_shape(s: Seq<usize>, e: usize, key: spec_fn(usize) -> int, j: int)
    requires
        0 <= j <= s.len(),
        j == 0 || key(s[j - 1]) <= key(e),
        forall|i: int| j <= i < s.len() ==> key(#[trigger] s[i]) > key(e),
    ensures
        insert_by_key(s, e, key) == s.subrange(0, j).push(e) + s.subrange(j, s.len() as int),
    decreases s.len(),
{
    if s.len() == 0 {
        assert(s.subrange(0, 0).push(e) + s.subrange(0, 0) =~= seq![e]);
    } else if j == s.len() {
        assert(s.subrange(0, j).push(e) + s.subrange(j, s.len() as int) =~= s.push(e));
    } else {
        let t = s.drop_last();
        assert forall|i: int| j <= i < t.len() implies key(#[trigger] t[i]) > key(e) by {
            assert(t[i] == s[i]);
        }
        lemma_insert_key_shape(t, e, key, j);
        assert((t.subrange(0, j).push(e) + t.subrange(j, t.len() as int)).push(s.last()) =~= s.subrange(0, j).push(e)
            + s.subrange(j, s.len() as int));
    }
}

/// `layer` reordered by median (see [`sorted_by_median`]).
fn sort_by_median(layer: &Vec<usize>, adjacent: &Vec<usize>, nbs: &[Vec<usize>]) -> (r: Vec<usize>)
    requires
        layer@.len() > 1 ==> forall|i: int| 0 <= i < layer@.len() ==> #[trigger] layer@[i] < nbs@.len(),
    ensures
        r@ == sorted_by_median(layer@, adjacent@, nbs_view(nbs@)),
{
    if layer.len() <= 1 {
        let mut r: Vec<usize> = Vec::new();
        let mut i: usize = 0;
        while i < layer.len()
            invariant
                i <= layer@.len(),
                r@ == layer@.subrange(0, i as int),
            decreases layer@.len() - i,
        {
            r.push(layer[i]);
            i = i + 1;
        }
        assert(r@ =~= layer@);
        return r;
    }
    let ghost key = |n: usize| median_key(layer@, adjacent@, nbs_view(nbs@), n);
    let mut out: Vec<usize> = Vec::new();
    let mut keys: Vec<usize> = Vec::new();
    let mut k: usize = 0;
    while k < layer.len()
        invariant
            k <= layer@.len(),
            forall|i: int| 0 <= i < layer@.len() ==> #[trigger] layer@[i] < nbs@.len(),
            key == (|n: usize| median_key(layer@, adjacent@, nbs_view(nbs@), n)),
            out@ == sort_by_key(layer@, key, k as int),
            keys@.len() == out@.len(),
            forall|i: int| 0 <= i < out@.len() ==> #[trigger] keys@[i] as int == key(out@[i]),
        decreases layer@.len() - k,
    {
        let e = layer[k];
        let ke = median_key_exec(layer, adjacent, nbs, e);
        let ghost s = out@;
        let mut j = out.len();
        while j > 0
            invariant
                j <= out@.len(),
                s == out@,
                keys@.len() == out@.len(),
                forall|i: int| 0 <= i < out@.len() ==> #[trigger] keys@[i] as int == key(out@[i]),
                ke as int == key(e),
                forall|i: int| j <= i < s.len() ==> key(#[trigger] s[i]) > key(e),
            ensures
                j == 0 || key(s[j - 1]) <= key(e),
                forall|i: int| j <= i < s.len() ==> key(#[trigger] s[i]) > key(e),
            decreases j,
        {
            assert(keys@[j - 1] as int == key(out@[j - 1]));
            if keys[j - 1] <= ke {
                break;
            }
            j = j - 1;
        }
        proof {
            lemma_insert_key_shape(s, e, key, j as int);
        }
        let ghost ks = keys@;
        out.insert(j, e);
        keys.insert(j, ke);
        proof {
            assert(out@ =~= s.subrange(0, j as int).push(e) + s.subrange(j as int, s.len() as int));
            assert forall|i: int| 0 <= i < out@.len() implies #[trigger] keys@[i] as int == key(out@[i]) by {
                if i < j {
                    assert(keys@[i] == ks[i]);
                    assert(out@[i] == s[i]);
                } else if i > j {
                    assert(keys@[i] == ks[i - 1]);
                    assert(out@[i] == s[i - 1]);
                }
            }
        }
        k = k + 1;
    }
    out
}

// ---------------------------------------------------------------------
// Crossings
// ---------------------------------------------------------------------

/// The nodes among the first `k` whose successor list holds `node`, in
/// order.
pub open spec fn preds_upto(adj: Seq<Seq<usize>>, node: usize, k: int) -> Seq<usize>
    decreases k,
{
    if k <= 0 {
        Seq::empty()
    } else {
        let p = preds_upto(adj, node, k - 1);
        if adj[k - 1].contains(node) { p.push((k - 1) as usize) } else { p }
    }
}

/// The predecessors of `node`: every node whose successor list holds
/// it, in order.
pub open spec fn preds_of(adj: Seq<Seq<usize>>, node: usize) -> Seq<usize> {
    preds_upto(adj, node, adj.len() as int)
}

/// `a + b`, capped at `usize::MAX`.
pub open spec fn cap_add(a: int, b: int) -> int {
    if a + b > usize::MAX { usize::MAX as int } else { a + b }
}

/// How many of the first `k` nodes of `q` sit in `upper` left of
/// position `i` (capped).
pub open spec fn count_left(upper: Seq<usize>, i: int, q: Seq<usize>, k: int) -> int
    decreases k,
{
    if k <= 0 {
        0
    } else {
        let add = match last_pos(upper, q[k - 1], upper.len() as int) {
            Some(i2) => if i2 < i { 1int } else { 0 },
            None => 0,
        };
        cap_add(count_left(upper, i, q, k - 1), add)
    }
}

/// Over the lower nodes `lo..k`, the predecessors placed left of
/// position `i` (capped).
pub open spec fn count_later(upper: Seq<usize>, lower: Seq<usize>, adj: Seq<Seq<usize>>, i: int, lo: int, k: int) -> int
    decreases k - lo,
{
    if k <= lo {
        0
    } else {
        let q = preds_of(adj, lower[k - 1]);
        cap_add(count_later(upper, lower, adj, i, lo, k - 1), count_left(upper, i, q, q.len() as int))
    }
}

/// Crossings of the edges into lower node `j` through its first `s`
/// predecessors with the edges into every later lower node (capped).
pub open spec fn count_from(upper: Seq<usize>, lower: Seq<usize>, adj: Seq<Seq<usize>>, j: int, s: int) -> int
    decreases s,
{
    if s <= 0 {
        0
    } else {
        let p = preds_of(adj, lower[j]);
        let add = match last_pos(upper, p[s - 1], upper.len() as int) {
            Some(i) => count_later(upper, lower, adj, i, j + 1, lower.len() as int),
            None => 0,
        };
        cap_add(count_from(upper, lower, adj, j, s - 1), add)
    }
}

/// Crossings between two adjacent layers, over the first `k` lower
/// nodes (capped): a pair of edges crosses when the later lower node's
/// predecessor sits left of the earlier one's.
pub open spec fn pair_crossings(upper: Seq<usize>, lower: Seq<usize>, adj: Seq<Seq<usize>>, k: int) -> int
    decreases k,
{
    if k <= 0 {
        0
    } else {
        let p = preds_of(adj, lower[k - 1]);
        cap_add(pair_crossings(upper, lower, adj, k - 1), count_from(upper, lower, adj, k - 1, p.len() as int))
    }
}

/// Crossings over the first `k` pairs of adjacent layers (capped).
pub open spec fn total_crossings(layers: Seq<Seq<usize>>, adj: Seq<Seq<usize>>, k: int) -> int
    decreases k,
{
    if k <= 0 {
        0
    } else {
        cap_add(
            total_crossings(layers, adj, k - 1),
            pair_crossings(layers[k - 1], layers[k], adj, layers[k].len() as int),
        )
    }
}

/// Crossings of a layering (capped).
pub open spec fn crossings(layers: Seq<Seq<usize>>, adj: Seq<Seq<usize>>) -> int {
    if layers.len() <= 1 { 0 } else { total_crossings(layers, adj, layers.len() - 1) }
}

/// The predecessors of `node` (see [`preds_of`]).
fn preds_exec(adj: &[Vec<usize>], node: usize) -> (r: Vec<usize>)
    ensures
        r@ == preds_of(nbs_view(adj@), node),
{
    let ghost av = nbs_view(adj@);
    let mut r: Vec<usize> = Vec::new();
    let mut i: usize = 0;
    while i < adj.len()
        invariant
            i <= adj@.len(),
            av == nbs_view(adj@),
            r@ == preds_upto(av, node, i as int),
        decreases adj@.len() - i,
    {
        let succ = &adj[i];
        assert(av[i as int] == succ@);
        let mut found = false;
        let mut t: usize = 0;
        while t < succ.len()
            invariant
                t <= succ@.len(),
                found <==> exists|u: int| 0 <= u < t && succ@[u] == node,
            decreases succ@.len() - t,
        {
            if succ[t] == node {
                found = true;
            }
            t = t + 1;
        }
        if found {
            r.push(i);
        }
        i = i + 1;
    }
    r
}

/// [`count_left`] over all of `q`.
fn count_left_exec(upper: &Vec<usize>, i: usize, q: &Vec<usize>) -> (r: usize)
    ensures
        r as int == count_left(upper@, i as int, q@, q@.len() as int),
{
    let mut c: usize = 0;
    let mut k: usize = 0;
    while k < q.len()
        invariant
            k <= q@.len(),
            c as int == count_left(upper@, i as int, q@, k as int),
        decreases q@.len() - k,
    {
        match last_pos_exec(upper, q[k]) {
            Some(i2) => {
                if i2 < i {
                    c = c.saturating_add(1);
                }
            },
            None => {},
        }
        k = k + 1;
    }
    c
}

/// Crossings between two adjacent layers (see [`pair_crossings`]).
fn count_layer_pair_crossings(upper: &Vec<usize>, lower: &Vec<usize>, adj: &[Vec<usize>]) -> (r: usize)
    ensures
        r as int == pair_crossings(upper@, lower@, nbs_view(adj@), lower@.len() as int),
{
    let ghost av = nbs_view(adj@);
    let n = lower.len();
    let mut total: usize = 0;
    let mut j: usize = 0;
    while j < n
        invariant
            j <= n,
            n == lower@.len(),
            av == nbs_view(adj@),
            total as int == pair_crossings(upper@, lower@, av, j as int),
        decreases n - j,
    {
        let p = preds_exec(adj, lower[j]);
        let mut acc: usize = 0;
        let mut s: usize = 0;
        while s < p.len()
            invariant
                s <= p@.len(),
                j < n,
                n == lower@.len(),
                av == nbs_view(adj@),
                p@ == preds_of(av, lower@[j as int]),
                acc as int == count_from(upper@, lower@, av, j as int, s as int),
            decreases p@.len() - s,
        {
            match last_pos_exec(upper, p[s]) {
                Some(i) => {
                    let mut later: usize = 0;
                    let mut j2: usize = j + 1;
                    while j2 < n
                        invariant
                            j + 1 <= j2 <= n,
                            n == lower@.len(),
                            av == nbs_view(adj@),
                            later as int == count_later(upper@, lower@, av, i as int, j + 1, j2 as int),
                        decreases n - j2,
                    {
                        let q = preds_exec(adj, lower[j2]);
                        let c = count_left_exec(upper, i, &q);
                        later = later.saturating_add(c);
                        j2 = j2 + 1;
                    }
                    acc = acc.saturating_add(later);
                },
                None => {},
            }
            s = s + 1;
        }
        total = total.saturating_add(acc);
        j = j + 1;
    }
    total
}

/// Crossings of a layering (see [`crossings`]).
fn count_total_crossings(layers: &Vec<Vec<usize>>, adj: &[Vec<usize>]) -> (r: usize)
    ensures
        r as int == crossings(layers_view(layers@), nbs_view(adj@)),
{
    let ghost lv = layers_view(layers@);
    if layers.len() <= 1 {
        return 0;
    }
    let mut total: usize = 0;
    let mut i: usize = 0;
    let last = layers.len() - 1;
    while i < last
        invariant
            i <= last,
            last == layers@.len() - 1,
            lv == layers_view(layers@),
            total as int == total_crossings(lv, nbs_view(adj@), i as int),
        decreases layers@.len() - i,
    {
        assert(lv[i as int] == layers@[i as int]@);
        assert(lv[i + 1] == layers@[i + 1]@);
        let c = count_layer_pair_crossings(&layers[i], &layers[i + 1], adj);
        total = total.saturating_add(c);
        i = i + 1;
    }
    total
}

// ---------------------------------------------------------------------
// Crossing reduction
// ---------------------------------------------------------------------

/// Bottom-up sweep over layers `i, i - 1, .., 0`: each sorted by the
/// median of its successors in the layer below.
pub open spec fn sweep_up(cur: Seq<Seq<usize>>, adj: Seq<Seq<usize>>, i: int) -> Seq<Seq<usize>>
    decreases i + 1,
{
    if i < 0 || i + 1 >= cur.len() {
        cur
    } else {
        sweep_up(cur.update(i, sorted_by_median(cur[i], cur[i + 1], adj)), adj, i - 1)
    }
}

/// Top-down sweep over layers `i, i + 1, ..`: each sorted by the median
/// of its predecessors in the layer above.
pub open spec fn sweep_down(cur: Seq<Seq<usize>>, preds: Seq<Seq<usize>>, i: int) -> Seq<Seq<usize>>
    decreases cur.len() - i,
{
    if i < 1 || i >= cur.len() {
        cur
    } else {
        sweep_down(cur.update(i, sorted_by_median(cur[i], cur[i - 1], preds)), preds, i + 1)
    }
}

/// Round `r`: a bottom-up sweep on even rounds, top-down on odd ones.
pub open spec fn one_round(cur: Seq<Seq<usize>>, adj: Seq<Seq<usize>>, preds: Seq<Seq<usize>>, r: int) -> Seq<Seq<usize>> {
    if r % 2 == 0 { sweep_up(cur, adj, cur.len() - 2) } else { sweep_down(cur, preds, 1) }
}

/// The layering after the first `r` rounds.
pub open spec fn after_rounds(layers: Seq<Seq<usize>>, adj: Seq<Seq<usize>>, preds: Seq<Seq<usize>>, r: int) -> Seq<Seq<usize>>
    decreases r,
{
    if r <= 0 { layers } else { one_round(after_rounds(layers, adj, preds, r - 1), adj, preds, r - 1) }
}

/// The layering with the fewest crossings among the start and the
/// first `r` rounds (the earliest on ties), with its crossing count.
pub open spec fn best_upto(layers: Seq<Seq<usize>>, adj: Seq<Seq<usize>>, preds: Seq<Seq<usize>>, r: int) -> (Seq<Seq<usize>>, int)
    decreases r,
{
    if r <= 0 {
        (layers, crossings(layers, adj))
    } else {
        let (b, c) = best_upto(layers, adj, preds, r - 1);
        let cur = after_rounds(layers, adj, preds, r);
        let cc = crossings(cur, adj);
        if cc < c { (cur, cc) } else { (b, c) }
    }
}

/// Number of sweep rounds.
pub const MAX_ROUNDS: usize = 24;

/// The layering that crossing reduction gives: none for no layers, else
/// the best of the start and 24 alternating sweeps.
pub open spec fn reduced(layers: Seq<Seq<usize>>, adj: Seq<Seq<usize>>, preds: Seq<Seq<usize>>) -> Seq<Seq<usize>> {
    if layers.len() == 0 { Seq::empty() } else { best_upto(layers, adj, preds, MAX_ROUNDS as int).0 }
}

/// In a layer of more than one node above the bottom layer, every node
/// has a successor list.
pub open spec fn cover_up(layers: Seq<Seq<usize>>, adj_len: int) -> bool {
    forall|i: int, j: int|
        0 <= i < layers.len() && 0 <= j < layers[i].len() && layers[i].len() > 1 && i + 1 < layers.len()
            ==> (#[trigger] layers[i][j]) < adj_len
}

/// In a layer of more than one node below the top layer, every node has
/// a predecessor list.
pub open spec fn cover_down(layers: Seq<Seq<usize>>, preds_len: int) -> bool {
    forall|i: int, j: int|
        0 <= i < layers.len() && 0 <= j < layers[i].len() && layers[i].len() > 1 && i >= 1
            ==> (#[trigger] layers[i][j]) < preds_len
}

/// Every node a sweep looks up has its neighbour list.
pub open spec fn lists_cover(layers: Seq<Seq<usize>>, adj_len: int, preds_len: int) -> bool {
    cover_up(layers, adj_len) && cover_down(layers, preds_len)
}

/// Two layerings hold the same nodes in each layer.
pub open spec fn same_layers(a: Seq<Seq<usize>>, b: Seq<Seq<usize>>) -> bool {
    &&& a.len() == b.len()
    &&& forall|i: int| 0 <= i < a.len() ==> (#[trigger] a[i]).to_multiset() == b[i].to_multiset()
}

proof fn lemma_insert_key_ms(s: Seq<usize>, e: usize, key: spec_fn(usize) -> int)
    ensures
        insert_by_key(s, e, key).to_multiset() == s.to_multiset().insert(e),
        insert_by_key(s, e, key).len() == s.len() + 1,
    decreases s.len(),
{
    broadcast use vstd::seq_lib::group_to_multiset_ensures;

    if s.len() == 0 {
        assert(seq![e] =~= Seq::<usize>::empty().push(e));
    } else if key(s.last()) <= key(e) {
    } else {
        let t = s.drop_last();
        lemma_insert_key_ms(t, e, key);
        assert(s =~= t.push(s.last()));
        assert(insert_by_key(s, e, key).to_multiset() =~= t.to_multiset().insert(e).insert(s.last()));
        assert(s.to_multiset().insert(e) =~= t.to_multiset().insert(s.last()).insert(e));
    }
}

proof fn lemma_sort_key_ms(s: Seq<usize>, key: spec_fn(usize) -> int, k: int)
    requires
        0 <= k <= s.len(),
    ensures
        sort_by_key(s, key, k).to_multiset() == s.take(k).to_multiset(),
        sort_by_key(s, key, k).len() == k,
    decreases k,
{
    broadcast use vstd::seq_lib::group_to_multiset_ensures;

    if k > 0 {
        lemma_sort_key_ms(s, key, k - 1);
        lemma_insert_key_ms(sort_by_key(s, key, k - 1), s[k - 1], key);
        assert(s.take(k) =~= s.take(k - 1).push(s[k - 1]));
    } else {
        assert(s.take(0) =~= Seq::<usize>::empty());
    }
}

/// Sorting a layer by median keeps its nodes.
pub proof fn lemma_median_sort_keeps(layer: Seq<usize>, adjacent: Seq<usize>, nbs: Seq<Seq<usize>>)
    ensures
        sorted_by_median(layer, adjacent, nbs).to_multiset() == layer.to_multiset(),
        sorted_by_median(layer, adjacent, nbs).len() == layer.len(),
{
    if layer.len() > 1 {
        let key = |n: usize| median_key(layer, adjacent, nbs, n);
        lemma_sort_key_ms(layer, key, layer.len() as int);
        assert(layer.take(layer.len() as int) =~= layer);
    }
}

proof fn lemma_same_member(a: Seq<Seq<usize>>, b: Seq<Seq<usize>>, i: int, j: int) -> (w: int)
    requires
        same_layers(a, b),
        0 <= i < b.len(),
        0 <= j < b[i].len(),
    ensures
        0 <= w < a[i].len(),
        a[i][w] == b[i][j],
        a[i].len() == b[i].len(),
{
    broadcast use vstd::seq_lib::group_to_multiset_ensures;

    assert(a[i].to_multiset() == b[i].to_multiset());
    assert(a[i].to_multiset().len() == a[i].len());
    assert(b[i].to_multiset().len() == b[i].len());
    assert(b[i].contains(b[i][j]));
    assert(b[i].to_multiset().count(b[i][j]) > 0);
    assert(a[i].contains(b[i][j]));
    choose|w: int| 0 <= w < a[i].len() && a[i][w] == b[i][j]
}

proof fn lemma_same_layers_cover(a: Seq<Seq<usize>>, b: Seq<Seq<usize>>, adj_len: int, preds_len: int)
    requires
        same_layers(a, b),
    ensures
        cover_up(a, adj_len) ==> cover_up(b, adj_len),
        cover_down(a, preds_len) ==> cover_down(b, preds_len),
{
    if cover_up(a, adj_len) {
        assert forall|i: int, j: int|
            0 <= i < b.len() && 0 <= j < b[i].len() && b[i].len() > 1 && i + 1 < b.len() implies (#[trigger] b[i][j])
            < adj_len by {
            let w = lemma_same_member(a, b, i, j);
            assert(a[i][w] == b[i][j]);
        }
    }
    if cover_down(a, preds_len) {
        assert forall|i: int, j: int|
            0 <= i < b.len() && 0 <= j < b[i].len() && b[i].len() > 1 && i >= 1 implies (#[trigger] b[i][j]) < preds_len by {
            let w = lemma_same_member(a, b, i, j);
            assert(a[i][w] == b[i][j]);
        }
    }
}

proof fn lemma_sweep_up_keeps(cur: Seq<Seq<usize>>, adj: Seq<Seq<usize>>, i: int)
    ensures
        same_layers(cur, sweep_up(cur, adj, i)),
    decreases i + 1,
{
    if !(i < 0 || i + 1 >= cur.len()) {
        let next = cur.update(i, sorted_by_median(cur[i], cur[i + 1], adj));
        lemma_median_sort_keeps(cur[i], cur[i + 1], adj);
        lemma_sweep_up_keeps(next, adj, i - 1);
        assert(same_layers(cur, next));
    }
}

proof fn lemma_sweep_down_keeps(cur: Seq<Seq<usize>>, preds: Seq<Seq<usize>>, i: int)
    ensures
        same_layers(cur, sweep_down(cur, preds, i)),
    decreases cur.len() - i,
{
    if !(i < 1 || i >= cur.len()) {
        let next = cur.update(i, sorted_by_median(cur[i], cur[i - 1], preds));
        lemma_median_sort_keeps(cur[i], cur[i - 1], preds);
        lemma_sweep_down_keeps(next, preds, i + 1);
        assert(same_layers(cur, next));
    }
}

proof fn lemma_rounds_keep(layers: Seq<Seq<usize>>, adj: Seq<Seq<usize>>, preds: Seq<Seq<usize>>, r: int)
    ensures
        same_layers(layers, after_rounds(layers, adj, preds, r)),
    decreases r,
{
    if r > 0 {
        let prev = after_rounds(layers, adj, preds, r - 1);
        lemma_rounds_keep(layers, adj, preds, r - 1);
        if (r - 1) % 2 == 0 {
            lemma_sweep_up_keeps(prev, adj, prev.len() - 2);
        } else {
            lemma_sweep_down_keeps(prev, preds, 1);
        }
    }
}

/// Crossing reduction keeps every layer's nodes, and never ends with
/// more crossings than it started with.
pub proof fn law_reduce_crossings_keeps_layers_and_never_adds_crossings(
    layers: Seq<Seq<usize>>,
    adj: Seq<Seq<usize>>,
    preds: Seq<Seq<usize>>,
)
    ensures
        same_layers(layers, reduced(layers, adj, preds)),
        crossings(reduced(layers, adj, preds), adj) <= crossings(layers, adj),
{
    if layers.len() > 0 {
        lemma_best_keeps(layers, adj, preds, MAX_ROUNDS as int);
    }
}

proof fn lemma_best_keeps(layers: Seq<Seq<usize>>, adj: Seq<Seq<usize>>, preds: Seq<Seq<usize>>, r: int)
    ensures
        same_layers(layers, best_upto(layers, adj, preds, r).0),
        best_upto(layers, adj, preds, r).1 == crossings(best_upto(layers, adj, preds, r).0, adj),
        best_upto(layers, adj, preds, r).1 <= crossings(layers, adj),
    decreases r,
{
    if r > 0 {
        lemma_best_keeps(layers, adj, preds, r - 1);
        lemma_rounds_keep(layers, adj, preds, r);
    } else {
        assert forall|i: int| 0 <= i < layers.len() implies (#[trigger] layers[i]).to_multiset() == layers[i].to_multiset() by {}
    }
}

/// A copy of a list of lists.
fn copy_vec(v: &Vec<usize>) -> (r: Vec<usize>)
    ensures
        r@ == v@,
{
    let mut r: Vec<usize> = Vec::new();
    let mut i: usize = 0;
    while i < v.len()
        invariant
            i <= v@.len(),
            r@ == v@.subrange(0, i as int),
        decreases v@.len() - i,
    {
        r.push(v[i]);
        i = i + 1;
    }
    assert(r@ =~= v@);
    r
}

/// A copy of a layering.
fn copy_layers(ls: &[Vec<usize>]) -> (r: Vec<Vec<usize>>)
    ensures
        layers_view(r@) == layers_view(ls@),
{
    let mut r: Vec<Vec<usize>> = Vec::new();
    let mut i: usize = 0;
    while i < ls.len()
        invariant
            i <= ls@.len(),
            r@.len() == i,
            forall|j: int| 0 <= j < i ==> (#[trigger] r@[j])@ == ls@[j]@,
        decreases ls@.len() - i,
    {
        r.push(copy_vec(&ls[i]));
        i = i + 1;
    }
    assert(layers_view(r@) =~= layers_view(ls@));
    r
}

/// One bottom-up sweep (see [`sweep_up`]).
fn sweep_up_exec(current: &mut Vec<Vec<usize>>, adj: &[Vec<usize>])
    requires
        old(current)@.len() >= 1,
        cover_up(layers_view(old(current)@), adj@.len() as int),
    ensures
        layers_view(final(current)@) == sweep_up(layers_view(old(current)@), nbs_view(adj@), old(current)@.len() - 2),
        final(current)@.len() == old(current)@.len(),
{
    let ghost start = layers_view(current@);
    let ghost av = nbs_view(adj@);
    let n = current.len();
    let mut i: usize = n - 1;
    while i > 0
        invariant
            i <= n - 1,
            n == current@.len(),
            n >= 1,
            av == nbs_view(adj@),
            cover_up(layers_view(current@), adj@.len() as int),
            sweep_up(layers_view(current@), av, i - 1) == sweep_up(start, av, n - 2),
        decreases i,
    {
        let k = i - 1;
        let ghost cur = layers_view(current@);
        assert(cur[k as int] == current@[k as int]@);
        assert(cur[k + 1] == current@[k + 1]@);
        assert forall|j: int| 0 <= j < current@[k as int]@.len() && current@[k as int]@.len() > 1 implies #[trigger] current@[k as int]@[j] < adj@.len() by {
            assert(cur[k as int][j] == current@[k as int]@[j]);
        }
        let sorted = sort_by_median(&current[k], &current[k + 1], adj);
        proof {
            lemma_median_sort_keeps(cur[k as int], cur[k + 1], av);
        }
        current[k] = sorted;
        proof {
            let next = cur.update(k as int, sorted_by_median(cur[k as int], cur[k + 1], av));
            assert(layers_view(current@) =~= next);
            assert(same_layers(cur, next));
            lemma_same_layers_cover(cur, next, adj@.len() as int, 0);
        }
        i = k;
    }
}

/// One top-down sweep (see [`sweep_down`]).
fn sweep_down_exec(current: &mut Vec<Vec<usize>>, preds: &[Vec<usize>])
    requires
        cover_down(layers_view(old(current)@), preds@.len() as int),
    ensures
        layers_view(final(current)@) == sweep_down(layers_view(old(current)@), nbs_view(preds@), 1),
        final(current)@.len() == old(current)@.len(),
{
    let ghost start = layers_view(current@);
    let ghost pv = nbs_view(preds@);
    let n = current.len();
    let mut i: usize = 1;
    while i < n
        invariant
            1 <= i,
            n == current@.len(),
            pv == nbs_view(preds@),
            cover_down(layers_view(current@), preds@.len() as int),
            sweep_down(layers_view(current@), pv, i as int) == sweep_down(start, pv, 1),
        decreases n - i,
    {
        let ghost cur = layers_view(current@);
        assert(cur[i as int] == current@[i as int]@);
        assert(cur[i - 1] == current@[i - 1]@);
        assert forall|j: int| 0 <= j < current@[i as int]@.len() && current@[i as int]@.len() > 1 implies #[trigger] current@[i as int]@[j] < preds@.len() by {
            assert(cur[i as int][j] == current@[i as int]@[j]);
        }
        let sorted = sort_by_median(&current[i], &current[i - 1], preds);
        proof {
            lemma_median_sort_keeps(cur[i as int], cur[i - 1], pv);
        }
        current[i] = sorted;
        proof {
            let next = cur.update(i as int, sorted_by_median(cur[i as int], cur[i - 1], pv));
            assert(layers_view(current@) =~= next);
            assert(same_layers(cur, next));
            lemma_same_layers_cover(cur, next, 0, preds@.len() as int);
        }
        i = i + 1;
    }
}

/// Reorder the nodes of each layer to cut edge crossings (see
/// [`reduced`]): alternating bottom-up and top-down median sweeps,
/// keeping the layering with the fewest crossings seen.
pub fn reduce_crossings(layers: &[Vec<usize>], adj: &[Vec<usize>], predecessors: &[Vec<usize>]) -> (r: Vec<Vec<usize>>)
    requires
        lists_cover(layers_view(layers@), adj@.len() as int, predecessors@.len() as int),
    ensures
        layers_view(r@) == reduced(layers_view(layers@), nbs_view(adj@), nbs_view(predecessors@)),
{
    let ghost lv = layers_view(layers@);
    let ghost av = nbs_view(adj@);
    let ghost pv = nbs_view(predecessors@);
    if layers.len() == 0 {
        let r: Vec<Vec<usize>> = Vec::new();
        assert(layers_view(r@) =~= Seq::<Seq<usize>>::empty());
        return r;
    }
    let mut current = copy_layers(layers);
    let mut best = copy_layers(layers);
    let mut best_c = count_total_crossings(&current, adj);
    let mut round: usize = 0;
    while round < MAX_ROUNDS
        invariant
            round <= MAX_ROUNDS,
            lv.len() >= 1,
            lv == layers_view(layers@),
            av == nbs_view(adj@),
            pv == nbs_view(predecessors@),
            lists_cover(lv, adj@.len() as int, predecessors@.len() as int),
            layers_view(current@) == after_rounds(lv, av, pv, round as int),
            current@.len() == lv.len(),
            layers_view(best@) == best_upto(lv, av, pv, round as int).0,
            best_c as int == best_upto(lv, av, pv, round as int).1,
        decreases MAX_ROUNDS - round,
    {
        proof {
            lemma_rounds_keep(lv, av, pv, round as int);
            lemma_same_layers_cover(lv, after_rounds(lv, av, pv, round as int), adj@.len() as int, predecessors@.len() as int);
        }
        if round % 2 == 0 {
            sweep_up_exec(&mut current, adj);
        } else {
            sweep_down_exec(&mut current, predecessors);
        }
        let c = count_total_crossings(&current, adj);
        if c < best_c {
            best_c = c;
            best = copy_layers(current.as_slice());
        }
        round = round + 1;
    }
    best
}

// ---------------------------------------------------------------------
// Coordinate assignment
// ---------------------------------------------------------------------

/// The vertical alignment built so far: for each node, the node above
/// it in its chain and the node below it.
pub struct Alignment {
    pub up: Seq<Option<usize>>,
    pub down: Seq<Option<usize>>,
}

/// The first `k` successors in `succ` that lie in `layer`, in order.
pub open spec fn succs_in(succ: Seq<usize>, layer: Seq<usize>, k: int) -> Seq<usize>
    decreases k,
{
    if k <= 0 {
        Seq::empty()
    } else {
        let p = succs_in(succ, layer, k - 1);
        if layer.contains(succ[k - 1]) { p.push(succ[k - 1]) } else { p }
    }
}

/// Position of `s` in `layer` (its first occurrence; 0 when absent).
pub open spec fn pos_in(layer: Seq<usize>, s: usize) -> int {
    match first_pos(layer, s, layer.len() as int) {
        Some(i) => i,
        None => 0,
    }
}

/// Scanning successors `t..` of `u`: the first whose position is at
/// least `r` and at most `lim` and that has no node above it yet gets
/// `u` above it; the next scan then starts right of it.
pub open spec fn align_scan(a: Alignment, u: usize, succs: Seq<usize>, layer: Seq<usize>, r: int, lim: int, t: int) -> (Alignment, int)
    decreases succs.len() - t,
{
    if t >= succs.len() || t < 0 {
        (a, r)
    } else {
        let sn = succs[t];
        let p = pos_in(layer, sn);
        if p >= r && p <= lim && a.up[sn as int] is None {
            (Alignment { up: a.up.update(sn as int, Some(u)), down: a.down.update(u as int, Some(sn)) }, p + 1)
        } else {
            align_scan(a, u, succs, layer, r, lim, t + 1)
        }
    }
}

/// Aligning upper node `u` with one of its successors in `layer`,
/// within the median span of their positions.
pub open spec fn align_node(a: Alignment, u: usize, succs: Seq<usize>, layer: Seq<usize>, r: int) -> (Alignment, int) {
    if succs.len() == 0 {
        (a, r)
    } else {
        let half = succs.len() as int / 2;
        let med = pos_in(layer, succs[half]);
        align_scan(a, u, succs, layer, r, cap_add(med, half), 0)
    }
}

/// The alignment after the first `k` nodes of `upper` against `layer`.
pub open spec fn align_layer(a: Alignment, upper: Seq<usize>, layer: Seq<usize>, adj: Seq<Seq<usize>>, k: int) -> (Alignment, int)
    decreases k,
{
    if k <= 0 {
        (a, 0)
    } else {
        let (b, r) = align_layer(a, upper, layer, adj, k - 1);
        let u = upper[k - 1];
        align_node(b, u, succs_in(adj[u as int], layer, adj[u as int].len() as int), layer, r)
    }
}

/// The alignment after the layer pairs `(0, 1) .. (k - 2, k - 1)`.
pub open spec fn aligned(layers: Seq<Seq<usize>>, adj: Seq<Seq<usize>>, n: nat, k: int) -> Alignment
    decreases k,
{
    if k <= 1 {
        Alignment { up: Seq::new(n, |i: int| None), down: Seq::new(n, |i: int| None) }
    } else {
        align_layer(aligned(layers, adj, n, k - 1), layers[k - 2], layers[k - 1], adj, layers[k - 2].len() as int).0
    }
}

/// Block roots after the first `k` nodes: a node aligned under another
/// takes that node's root at that moment; others are their own root.
pub open spec fn roots_upto(up: Seq<Option<usize>>, n: nat, k: int) -> Seq<usize>
    decreases k,
{
    if k <= 0 {
        Seq::new(n, |i: int| i as usize)
    } else {
        let prev = roots_upto(up, n, k - 1);
        match up[k - 1] {
            Some(u) => prev.update(k - 1, prev[u as int]),
            None => prev,
        }
    }
}

/// Placement state: which block roots have a column and which column,
/// and each node's own column.
pub struct Placing {
    pub has: Seq<bool>,
    pub col: Seq<int>,
    pub x: Seq<int>,
}

/// The placement after the first `k` nodes of `layer`, with the right
/// edge of the last one placed: each node goes at its block's column
/// when the block has one (pushed right of the previous node plus the
/// gap), else right of the previous node and at least at the margin.
pub open spec fn place_layer(
    st: Placing,
    layer: Seq<usize>,
    roots: Seq<usize>,
    sizes: Seq<Size>,
    gap: int,
    margin: int,
    k: int,
) -> (Placing, int)
    decreases k,
{
    if k <= 0 {
        (st, 0)
    } else {
        let (p, prev_right) = place_layer(st, layer, roots, sizes, gap, margin, k - 1);
        let node = layer[k - 1];
        let root = roots[node as int];
        let min_x = cap_add(prev_right, if prev_right > 0 { gap } else { 0 });
        let existing = if p.has[root as int] { p.col[root as int] } else { usize::MAX as int };
        let placed = if existing == usize::MAX {
            if min_x > margin { min_x } else { margin }
        } else {
            if existing > min_x { existing } else { min_x }
        };
        (
            Placing { has: p.has.update(root as int, true), col: p.col.update(root as int, placed), x: p.x.update(node as int, placed) },
            cap_add(placed, sizes[node as int].w as int),
        )
    }
}

/// The placement after the first `k` layers.
pub open spec fn placed_upto(layers: Seq<Seq<usize>>, roots: Seq<usize>, sizes: Seq<Size>, gap: int, margin: int, k: int) -> Placing
    decreases k,
{
    if k <= 0 {
        let n = sizes.len();
        Placing { has: Seq::new(n, |i: int| false), col: Seq::new(n, |i: int| 0), x: Seq::new(n, |i: int| 0) }
    } else {
        place_layer(placed_upto(layers, roots, sizes, gap, margin, k - 1), layers[k - 1], roots, sizes, gap, margin, layers[k - 1].len() as int).0
    }
}

/// Every node's column before centering: where the left-to-right sweep
/// placed it (a node keeps its block's column unless the minimum gap to
/// its left neighbour pushed it further right).
pub open spec fn block_cols(layers: Seq<Seq<usize>>, adj: Seq<Seq<usize>>, sizes: Seq<Size>, gap: int, margin: int) -> Seq<int> {
    let n = sizes.len();
    let roots = roots_upto(aligned(layers, adj, n, layers.len() as int).up, n, n as int);
    placed_upto(layers, roots, sizes, gap, margin, layers.len() as int).x
}

/// Rightmost right edge over the first `k` nodes (capped).
pub open spec fn right_edge(xs: Seq<int>, sizes: Seq<Size>, k: int) -> int
    decreases k,
{
    if k <= 0 {
        0
    } else {
        let r = cap_add(xs[k - 1], sizes[k - 1].w as int);
        let m = right_edge(xs, sizes, k - 1);
        if r > m { r } else { m }
    }
}

/// The columns coordinate assignment gives: none without nodes; else
/// the block columns shifted right to center everything in the canvas.
pub open spec fn coordinates(
    layers: Seq<Seq<usize>>,
    adj: Seq<Seq<usize>>,
    sizes: Seq<Size>,
    gap: int,
    canvas_w: int,
    margin: int,
) -> Seq<int> {
    if sizes.len() == 0 {
        Seq::empty()
    } else {
        let xs = block_cols(layers, adj, sizes, gap, margin);
        let total = right_edge(xs, sizes, sizes.len() as int);
        let offset = if total < canvas_w { (canvas_w - total) / 2 } else { 0 };
        Seq::new(sizes.len(), |i: int| cap_add(xs[i], offset))
    }
}

/// Every node of every layer is a node of the graph, and every node
/// above the bottom layer has a successor list.
pub open spec fn coords_ok(layers: Seq<Seq<usize>>, adj_len: int, n: int) -> bool {
    forall|i: int, j: int|
        0 <= i < layers.len() && 0 <= j < layers[i].len() ==> {
            &&& (#[trigger] layers[i][j]) < n
            &&& (i + 1 < layers.len() ==> layers[i][j] < adj_len)
        }
}

/// Successors of `u` in `layer` (see [`succs_in`]).
fn succs_in_exec(succ: &Vec<usize>, layer: &Vec<usize>) -> (r: Vec<usize>)
    ensures
        r@ == succs_in(succ@, layer@, succ@.len() as int),
        forall|i: int| 0 <= i < r@.len() ==> layer@.contains(#[trigger] r@[i]),
{
    let mut r: Vec<usize> = Vec::new();
    let mut k: usize = 0;
    while k < succ.len()
        invariant
            k <= succ@.len(),
            r@ == succs_in(succ@, layer@, k as int),
            forall|i: int| 0 <= i < r@.len() ==> layer@.contains(#[trigger] r@[i]),
        decreases succ@.len() - k,
    {
        let found = first_pos_exec(layer, succ[k]);
        proof {
            lemma_first_pos_found(layer@, succ@[k as int], layer@.len() as int);
        }
        if found.is_some() {
            r.push(succ[k]);
        }
        k = k + 1;
    }
    r
}

proof fn lemma_first_pos_found(s: Seq<usize>, node: usize, k: int)
    requires
        0 <= k <= s.len(),
    ensures
        first_pos(s, node, k) is Some <==> exists|i: int| 0 <= i < k && s[i] == node,
        first_pos(s, node, k) matches Some(i) ==> 0 <= i < k && s[i] == node,
    decreases k,
{
    if k > 0 {
        lemma_first_pos_found(s, node, k - 1);
    }
}

/// Position of `s` in `layer` (see [`pos_in`]).
fn pos_in_exec(layer: &Vec<usize>, s: usize) -> (r: usize)
    ensures
        r as int == pos_in(layer@, s),
        layer@.contains(s) ==> r < layer@.len(),
{
    proof {
        lemma_first_pos_found(layer@, s, layer@.len() as int);
    }
    match first_pos_exec(layer, s) {
        Some(i) => i,
        None => 0,
    }
}

/// Every node named in the alignment is a node of the graph.
pub open spec fn align_ok(a: Alignment, n: nat) -> bool {
    &&& a.up.len() == n
    &&& a.down.len() == n
    &&& forall|i: int| 0 <= i < n ==> ((#[trigger] a.up[i]) matches Some(u) ==> u < n)
}

/// Align the layers (see [`aligned`]).
fn align_all(layers: &[Vec<usize>], adj: &[Vec<usize>], n: usize) -> (r: (Vec<Option<usize>>, Vec<Option<usize>>))
    requires
        coords_ok(layers_view(layers@), adj@.len() as int, n as int),
    ensures
        r.0@ == aligned(layers_view(layers@), nbs_view(adj@), n as nat, layers@.len() as int).up,
        r.1@ == aligned(layers_view(layers@), nbs_view(adj@), n as nat, layers@.len() as int).down,
        align_ok(aligned(layers_view(layers@), nbs_view(adj@), n as nat, layers@.len() as int), n as nat),
{
    let ghost lv = layers_view(layers@);
    let ghost av = nbs_view(adj@);
    let mut up: Vec<Option<usize>> = Vec::new();
    let mut down: Vec<Option<usize>> = Vec::new();
    let mut i: usize = 0;
    while i < n
        invariant
            i <= n,
            up@.len() == i,
            down@.len() == i,
            forall|j: int| 0 <= j < i ==> (#[trigger] up@[j]) is None && down@[j] is None,
        decreases n - i,
    {
        up.push(None);
        down.push(None);
        i = i + 1;
    }
    proof {
        assert(up@ =~= aligned(lv, av, n as nat, 1).up);
        assert(down@ =~= aligned(lv, av, n as nat, 1).down);
    }
    let nl = layers.len();
    if nl == 0 {
        proof {
            assert(up@ =~= aligned(lv, av, n as nat, 0).up);
            assert(down@ =~= aligned(lv, av, n as nat, 0).down);
        }
        return (up, down);
    }
    let mut li: usize = 1;
    while li < nl
        invariant
            1 <= li,
            li <= nl,
            nl == lv.len(),
            lv == layers_view(layers@),
            av == nbs_view(adj@),
            coords_ok(lv, adj@.len() as int, n as int),
            up@ == aligned(lv, av, n as nat, li as int).up,
            down@ == aligned(lv, av, n as nat, li as int).down,
            align_ok(aligned(lv, av, n as nat, li as int), n as nat),
        decreases nl - li,
    {
        let upper = &layers[li - 1];
        let layer = &layers[li];
        assert(lv[li - 1] == upper@);
        assert(lv[li as int] == layer@);
        let ghost a0 = aligned(lv, av, n as nat, li as int);
        let mut r: usize = 0;
        let mut k: usize = 0;
        while k < upper.len()
            invariant
                k <= upper@.len(),
                1 <= li,
                li < nl,
                nl == lv.len(),
                lv == layers_view(layers@),
                av == nbs_view(adj@),
                upper@ == lv[li - 1],
                layer@ == lv[li as int],
                coords_ok(lv, adj@.len() as int, n as int),
                (Alignment { up: up@, down: down@ }, r as int) == align_layer(a0, upper@, layer@, av, k as int),
                align_ok(Alignment { up: up@, down: down@ }, n as nat),
                r <= layer@.len(),
            decreases upper@.len() - k,
        {
            let u = upper[k];
            assert(lv[li - 1][k as int] == u);
            assert(coords_ok(lv, adj@.len() as int, n as int));
            assert(0 <= li - 1 < lv.len() && 0 <= k < lv[li - 1].len());
            assert(u < adj@.len() && u < n);
            assert(av[u as int] == adj@[u as int]@);
            let succs = succs_in_exec(&adj[u], layer);
            let ghost st = Alignment { up: up@, down: down@ };
            let ghost r0 = r as int;
            if succs.len() > 0 {
                let half = succs.len() / 2;
                let med = pos_in_exec(layer, succs[half]);
                let lim = med.saturating_add(half);
                let ll = layer.len();
                let mut t: usize = 0;
                while t < succs.len()
                    invariant_except_break
                        up@ == st.up,
                        down@ == st.down,
                        r as int == r0,
                        align_scan(st, u, succs@, layer@, r0, lim as int, t as int) == align_scan(
                            st,
                            u,
                            succs@,
                            layer@,
                            r0,
                            lim as int,
                            0,
                        ),
                    invariant
                        t <= succs@.len(),
                        half == succs@.len() / 2,
                        lim as int == cap_add(pos_in(layer@, succs@[half as int]), half as int),
                        u < n,
                        forall|i: int| 0 <= i < succs@.len() ==> layer@.contains(#[trigger] succs@[i]),
                        forall|i: int, j: int| 0 <= i < lv.len() && 0 <= j < lv[i].len() ==> (#[trigger] lv[i][j]) < n,
                        layer@ == lv[li as int],
                        li < lv.len(),
                        align_ok(Alignment { up: up@, down: down@ }, n as nat),
                        r <= layer@.len(),
                        ll == layer@.len(),
                    ensures
                        (Alignment { up: up@, down: down@ }, r as int) == align_scan(st, u, succs@, layer@, r0, lim as int, 0),
                        align_ok(Alignment { up: up@, down: down@ }, n as nat),
                        r <= layer@.len(),
                    decreases succs@.len() - t,
                {
                    let sn = succs[t];
                    assert(layer@.contains(sn));
                    let p = pos_in_exec(layer, sn);
                    assert(p < layer@.len());
                    let ghost w = choose|w: int| 0 <= w < layer@.len() && layer@[w] == sn;
                    assert(lv[li as int][w] == sn);
                    if p >= r && p <= lim && up[sn].is_none() {
                        up.set(sn, Some(u));
                        down.set(u, Some(sn));
                        r = p + 1;
                        break;
                    }
                    t = t + 1;
                }
            }
            k = k + 1;
        }
        li = li + 1;
    }
    (up, down)
}

proof fn lemma_roots_small(up: Seq<Option<usize>>, n: nat, k: int)
    requires
        0 <= k <= n,
        up.len() == n,
        forall|i: int| 0 <= i < n ==> ((#[trigger] up[i]) matches Some(u) ==> u < n),
    ensures
        roots_upto(up, n, k).len() == n,
        forall|i: int| 0 <= i < n ==> (#[trigger] roots_upto(up, n, k)[i]) < n,
    decreases k,
{
    if k > 0 {
        lemma_roots_small(up, n, k - 1);
        let prev = roots_upto(up, n, k - 1);
        assert(up[k - 1] matches Some(u) ==> u < n);
    }
}

/// Block roots (see [`roots_upto`]).
fn roots_exec(up: &Vec<Option<usize>>, n: usize) -> (r: Vec<usize>)
    requires
        up@.len() == n,
        forall|i: int| 0 <= i < n ==> ((#[trigger] up@[i]) matches Some(u) ==> u < n),
    ensures
        r@ == roots_upto(up@, n as nat, n as int),
        r@.len() == n,
        forall|i: int| 0 <= i < n ==> (#[trigger] r@[i]) < n,
{
    let mut r: Vec<usize> = Vec::new();
    let mut i: usize = 0;
    while i < n
        invariant
            i <= n,
            r@.len() == i,
            forall|j: int| 0 <= j < i ==> (#[trigger] r@[j]) == j,
        decreases n - i,
    {
        r.push(i);
        i = i + 1;
    }
    proof {
        assert(r@ =~= roots_upto(up@, n as nat, 0));
    }
    let mut k: usize = 0;
    while k < n
        invariant
            k <= n,
            up@.len() == n,
            forall|i: int| 0 <= i < n ==> ((#[trigger] up@[i]) matches Some(u) ==> u < n),
            r@ == roots_upto(up@, n as nat, k as int),
        decreases n - k,
    {
        proof {
            lemma_roots_small(up@, n as nat, k as int);
        }
        match up[k] {
            Some(u) => {
                assert(u < n);
                let v = r[u];
                r.set(k, v);
            },
            None => {},
        }
        k = k + 1;
    }
    proof {
        lemma_roots_small(up@, n as nat, n as int);
    }
    r
}

/// Every node of every layer is a node of the graph.
pub open spec fn nodes_ok(layers: Seq<Seq<usize>>, n: int) -> bool {
    forall|i: int, j: int| 0 <= i < layers.len() && 0 <= j < layers[i].len() ==> (#[trigger] layers[i][j]) < n
}

/// Place one layer (see [`place_layer`]).
fn place_layer_exec(
    layer: &Vec<usize>,
    roots: &Vec<usize>,
    sizes: &[Size],
    gap: usize,
    margin: usize,
    has: &mut Vec<bool>,
    col: &mut Vec<usize>,
    x: &mut Vec<usize>,
)
    requires
        roots@.len() == sizes@.len(),
        forall|i: int| 0 <= i < roots@.len() ==> (#[trigger] roots@[i]) < sizes@.len(),
        forall|j: int| 0 <= j < layer@.len() ==> (#[trigger] layer@[j]) < sizes@.len(),
        old(has)@.len() == sizes@.len(),
        old(col)@.len() == sizes@.len(),
        old(x)@.len() == sizes@.len(),
    ensures
        ({
            let p = place_layer(
                Placing {
                    has: old(has)@,
                    col: old(col)@.map_values(|v: usize| v as int),
                    x: old(x)@.map_values(|v: usize| v as int),
                },
                layer@,
                roots@,
                sizes@,
                gap as int,
                margin as int,
                layer@.len() as int,
            ).0;
            &&& final(has)@ == p.has
            &&& final(col)@.map_values(|v: usize| v as int) == p.col
            &&& final(x)@.map_values(|v: usize| v as int) == p.x
        }),
        final(has)@.len() == sizes@.len(),
        final(col)@.len() == sizes@.len(),
        final(x)@.len() == sizes@.len(),
{
    let ghost st0 = Placing {
        has: has@,
        col: col@.map_values(|v: usize| v as int),
        x: x@.map_values(|v: usize| v as int),
    };
    let mut prev_right: usize = 0;
    let mut k: usize = 0;
    while k < layer.len()
        invariant
            k <= layer@.len(),
            roots@.len() == sizes@.len(),
            forall|i: int| 0 <= i < roots@.len() ==> (#[trigger] roots@[i]) < sizes@.len(),
            forall|j: int| 0 <= j < layer@.len() ==> (#[trigger] layer@[j]) < sizes@.len(),
            has@.len() == sizes@.len(),
            col@.len() == sizes@.len(),
            x@.len() == sizes@.len(),
            ({
                let (p, pr) = place_layer(st0, layer@, roots@, sizes@, gap as int, margin as int, k as int);
                &&& has@ == p.has
                &&& col@.map_values(|v: usize| v as int) == p.col
                &&& x@.map_values(|v: usize| v as int) == p.x
                &&& prev_right as int == pr
            }),
        decreases layer@.len() - k,
    {
        let node = layer[k];
        let root = roots[node];
        let w = sizes[node].w;
        let min_x = prev_right.saturating_add(if prev_right > 0 { gap } else { 0 });
        let existing = if has[root] { col[root] } else { usize::MAX };
        let placed = if existing == usize::MAX {
            if min_x > margin { min_x } else { margin }
        } else {
            if existing > min_x { existing } else { min_x }
        };
        let ghost c0 = col@;
        let ghost x0 = x@;
        has.set(root, true);
        col.set(root, placed);
        x.set(node, placed);
        proof {
            assert(col@.map_values(|v: usize| v as int) =~= c0.map_values(|v: usize| v as int).update(root as int, placed as int));
            assert(x@.map_values(|v: usize| v as int) =~= x0.map_values(|v: usize| v as int).update(node as int, placed as int));
        }
        prev_right = placed.saturating_add(w);
        k = k + 1;
    }
}

/// Place the layers (see [`placed_upto`]).
fn place_exec(layers: &[Vec<usize>], roots: &Vec<usize>, sizes: &[Size], gap: usize, margin: usize) -> (r: (
    Vec<bool>,
    Vec<usize>,
    Vec<usize>,
))
    requires
        roots@.len() == sizes@.len(),
        forall|i: int| 0 <= i < roots@.len() ==> (#[trigger] roots@[i]) < sizes@.len(),
        nodes_ok(layers_view(layers@), sizes@.len() as int),
    ensures
        ({
            let p = placed_upto(layers_view(layers@), roots@, sizes@, gap as int, margin as int, layers@.len() as int);
            &&& r.0@ == p.has
            &&& r.1@.map_values(|v: usize| v as int) == p.col
            &&& r.2@.map_values(|v: usize| v as int) == p.x
        }),
        r.0@.len() == sizes@.len(),
        r.1@.len() == sizes@.len(),
        r.2@.len() == sizes@.len(),
{
    let ghost lv = layers_view(layers@);
    let n = sizes.len();
    let mut has: Vec<bool> = Vec::new();
    let mut col: Vec<usize> = Vec::new();
    let mut x: Vec<usize> = Vec::new();
    let mut i: usize = 0;
    while i < n
        invariant
            i <= n,
            n == sizes@.len(),
            has@.len() == i,
            col@.len() == i,
            x@.len() == i,
            forall|j: int| 0 <= j < i ==> !(#[trigger] has@[j]),
            forall|j: int| 0 <= j < i ==> (#[trigger] col@[j]) == 0,
            forall|j: int| 0 <= j < i ==> (#[trigger] x@[j]) == 0,
        decreases n - i,
    {
        has.push(false);
        col.push(0);
        x.push(0);
        i = i + 1;
    }
    proof {
        let p0 = placed_upto(lv, roots@, sizes@, gap as int, margin as int, 0);
        assert(has@ =~= p0.has);
        assert(col@.map_values(|v: usize| v as int) =~= p0.col);
        assert(x@.map_values(|v: usize| v as int) =~= p0.x);
    }
    let mut li: usize = 0;
    while li < layers.len()
        invariant
            li <= layers@.len(),
            n == sizes@.len(),
            lv == layers_view(layers@),
            roots@.len() == sizes@.len(),
            forall|i: int| 0 <= i < roots@.len() ==> (#[trigger] roots@[i]) < sizes@.len(),
            nodes_ok(lv, n as int),
            has@.len() == n,
            col@.len() == n,
            x@.len() == n,
            ({
                let p = placed_upto(lv, roots@, sizes@, gap as int, margin as int, li as int);
                &&& has@ == p.has
                &&& col@.map_values(|v: usize| v as int) == p.col
                &&& x@.map_values(|v: usize| v as int) == p.x
            }),
        decreases layers@.len() - li,
    {
        assert(lv[li as int] == layers@[li as int]@);
        assert forall|j: int| 0 <= j < layers@[li as int]@.len() implies (#[trigger] layers@[li as int]@[j]) < sizes@.len() by {
            assert(lv[li as int][j] == layers@[li as int]@[j]);
        }
        place_layer_exec(&layers[li], roots, sizes, gap, margin, &mut has, &mut col, &mut x);
        li = li + 1;
    }
    (has, col, x)
}

/// Assign x-coordinates to the nodes of a layering (see
/// [`coordinates`]): chains of aligned nodes share one column where the
/// gaps allow, each layer is packed left to right with at least
/// `min_gap` between nodes and at least `left_margin` in, and the whole
/// is centered in the canvas.
pub fn assign_coordinates(
    layers: &[Vec<usize>],
    adj: &[Vec<usize>],
    sizes: &[Size],
    min_gap: usize,
    canvas_width: usize,
    left_margin: usize,
) -> (r: Vec<usize>)
    requires
        coords_ok(layers_view(layers@), adj@.len() as int, sizes@.len() as int),
    ensures
        r@.map_values(|v: usize| v as int) == coordinates(
            layers_view(layers@),
            nbs_view(adj@),
            sizes@,
            min_gap as int,
            canvas_width as int,
            left_margin as int,
        ),
{
    let ghost lv = layers_view(layers@);
    let ghost av = nbs_view(adj@);
    let n = sizes.len();
    if n == 0 {
        let r: Vec<usize> = Vec::new();
        assert(r@.map_values(|v: usize| v as int) =~= Seq::<int>::empty());
        return r;
    }
    let (up, _down) = align_all(layers, adj, n);
    let roots = roots_exec(&up, n);
    proof {
        assert forall|i: int, j: int| 0 <= i < lv.len() && 0 <= j < lv[i].len() implies (#[trigger] lv[i][j]) < n by {
        }
    }
    let (has, col, x) = place_exec(layers, &roots, sizes, min_gap, left_margin);
    let ghost p = placed_upto(lv, roots@, sizes@, min_gap as int, left_margin as int, lv.len() as int);
    let ghost bc = block_cols(lv, av, sizes@, min_gap as int, left_margin as int);
    let mut xs: Vec<usize> = Vec::new();
    let mut i: usize = 0;
    while i < n
        invariant
            i <= n,
            n == sizes@.len(),
            roots@.len() == n,
            forall|j: int| 0 <= j < n ==> (#[trigger] roots@[j]) < n,
            has@.len() == n,
            col@.len() == n,
            x@.len() == n,
            has@ == p.has,
            col@.map_values(|v: usize| v as int) == p.col,
            x@.map_values(|v: usize| v as int) == p.x,
            roots@ == roots_upto(aligned(lv, av, n as nat, lv.len() as int).up, n as nat, n as int),
            p == placed_upto(lv, roots@, sizes@, min_gap as int, left_margin as int, lv.len() as int),
            bc == block_cols(lv, av, sizes@, min_gap as int, left_margin as int),
            xs@.len() == i,
            forall|j: int| 0 <= j < i ==> (#[trigger] xs@[j]) as int == bc[j],
        decreases n - i,
    {
        let v = x[i];
        assert(p.x[i as int] == x@[i as int] as int);
        xs.push(v);
        i = i + 1;
    }
    let ghost xv = xs@.map_values(|v: usize| v as int);
    assert(xv =~= bc);
    let mut total: usize = 0;
    let mut k: usize = 0;
    while k < n
        invariant
            k <= n,
            n == sizes@.len(),
            xs@.len() == n,
            xv == xs@.map_values(|v: usize| v as int),
            total as int == right_edge(xv, sizes@, k as int),
        decreases n - k,
    {
        let r = xs[k].saturating_add(sizes[k].w);
        if r > total {
            total = r;
        }
        k = k + 1;
    }
    let offset = if total < canvas_width { (canvas_width - total) / 2 } else { 0 };
    let mut out: Vec<usize> = Vec::new();
    let mut j: usize = 0;
    while j < n
        invariant
            j <= n,
            n == sizes@.len(),
            xs@.len() == n,
            out@.len() == j,
            forall|t: int| 0 <= t < j ==> (#[trigger] out@[t]) as int == cap_add(xs@[t] as int, offset as int),
        decreases n - j,
    {
        out.push(xs[j].saturating_add(offset));
        j = j + 1;
    }
    proof {
        assert(out@.map_values(|v: usize| v as int) =~= coordinates(lv, av, sizes@, min_gap as int, canvas_width as int, left_margin as int));
    }
    out
}


/// No node appears twice in the layering.
pub open spec fn layers_distinct(layers: Seq<Seq<usize>>) -> bool {
    forall|l1: int, j1: int, l2: int, j2: int|
        0 <= l1 < layers.len() && 0 <= j1 < layers[l1].len() && 0 <= l2 < layers.len() && 0 <= j2 < layers[l2].len()
            && (l1 != l2 || j1 != j2) ==> #[trigger] layers[l1][j1] != #[trigger] layers[l2][j2]
}

/// Node `b` starts at or right of column `x[a]` plus `a`'s width, plus
/// `gap` when that width is positive (capped at `usize::MAX`).
pub open spec fn gap_ok(x: Seq<int>, sizes: Seq<Size>, gap: int, a: int, b: int) -> bool {
    &&& x[b] >= cap_add(x[a], sizes[a].w as int)
    &&& sizes[a].w > 0 ==> x[b] >= cap_add(cap_add(x[a], sizes[a].w as int), gap)
}

/// Every pair of neighbours among the first `k` nodes of `layer` keeps
/// the gap in `x`.
pub open spec fn layer_gaps(x: Seq<int>, layer: Seq<usize>, sizes: Seq<Size>, gap: int, k: int) -> bool {
    forall|j: int| 0 <= j && j + 1 < k ==> #[trigger] gap_ok(x, sizes, gap, layer[j] as int, layer[j + 1] as int)
}

/// The nodes of `layer` from the `k`th on, and every node outside it,
/// have the same column in `x` and `y`.
pub open spec fn outside_same(x: Seq<int>, y: Seq<int>, layer: Seq<usize>, k: int) -> bool {
    forall|i: int| 0 <= i < x.len() && (forall|j: int| 0 <= j < k ==> layer[j] != i) ==> #[trigger] x[i] == y[i]
}

/// What placing one layer does to the columns: nodes outside the layer
/// keep theirs, and each node of the layer starts at least its left
/// neighbour's width, and the gap when that width is positive, right of
/// it.
proof fn lemma_place_layer_gaps(
    st: Placing,
    layer: Seq<usize>,
    roots: Seq<usize>,
    sizes: Seq<Size>,
    gap: int,
    margin: int,
    k: int,
)
    requires
        0 <= k <= layer.len(),
        gap >= 0,
        st.x.len() == sizes.len(),
        forall|j: int| 0 <= j < layer.len() ==> (#[trigger] layer[j]) < sizes.len(),
        forall|i: int, j: int| 0 <= i < layer.len() && 0 <= j < layer.len() && i != j ==> #[trigger] layer[i] != #[trigger] layer[j],
    ensures
        place_layer(st, layer, roots, sizes, gap, margin, k).0.x.len() == sizes.len(),
        place_layer(st, layer, roots, sizes, gap, margin, k).1 >= 0,
        outside_same(place_layer(st, layer, roots, sizes, gap, margin, k).0.x, st.x, layer, k),
        k > 0 ==> place_layer(st, layer, roots, sizes, gap, margin, k).1 == cap_add(
            place_layer(st, layer, roots, sizes, gap, margin, k).0.x[layer[k - 1] as int],
            sizes[layer[k - 1] as int].w as int,
        ),
        k > 0 ==> place_layer(st, layer, roots, sizes, gap, margin, k).0.x[layer[k - 1] as int] >= 0,
        layer_gaps(place_layer(st, layer, roots, sizes, gap, margin, k).0.x, layer, sizes, gap, k),
    decreases k,
{
    if k > 0 {
        lemma_place_layer_gaps(st, layer, roots, sizes, gap, margin, k - 1);
        let q = place_layer(st, layer, roots, sizes, gap, margin, k - 1).0;
        let p = place_layer(st, layer, roots, sizes, gap, margin, k).0;
        let node = layer[k - 1] as int;
        assert(p.x == q.x.update(node, p.x[node]));
        assert forall|i: int| 0 <= i < p.x.len() && (forall|j: int| 0 <= j < k ==> layer[j] != i) implies #[trigger] p.x[i] == st.x[i] by {
            assert(layer[k - 1] != i);
            assert(q.x[i] == st.x[i]);
        }
        assert forall|j: int| 0 <= j && j + 1 < k implies #[trigger] gap_ok(p.x, sizes, gap, layer[j] as int, layer[j + 1] as int) by {
            assert(layer[j] != layer[k - 1]);
            if j + 1 < k - 1 {
                assert(layer[j + 1] != layer[k - 1]);
                assert(gap_ok(q.x, sizes, gap, layer[j] as int, layer[j + 1] as int));
            }
        }
    }
}

/// After the first `k` layers are placed, the layers among them keep the
/// gaps their own placement gave.
proof fn lemma_placed_gaps(layers: Seq<Seq<usize>>, roots: Seq<usize>, sizes: Seq<Size>, gap: int, margin: int, k: int)
    requires
        0 <= k <= layers.len(),
        gap >= 0,
        nodes_ok(layers, sizes.len() as int),
        layers_distinct(layers),
    ensures
        placed_upto(layers, roots, sizes, gap, margin, k).x.len() == sizes.len(),
        forall|l: int| 0 <= l < k ==> #[trigger] layer_gaps(placed_upto(layers, roots, sizes, gap, margin, k).x, layers[l], sizes, gap, layers[l].len() as int),
    decreases k,
{
    if k > 0 {
        lemma_placed_gaps(layers, roots, sizes, gap, margin, k - 1);
        let st = placed_upto(layers, roots, sizes, gap, margin, k - 1);
        let layer = layers[k - 1];
        assert forall|i: int, j: int| 0 <= i < layer.len() && 0 <= j < layer.len() && i != j implies #[trigger] layer[i] != #[trigger] layer[j] by {
            assert(layers[k - 1][i] != layers[k - 1][j]);
        }
        assert forall|j: int| 0 <= j < layer.len() implies (#[trigger] layer[j]) < sizes.len() by {
            assert(layers[k - 1][j] < sizes.len());
        }
        lemma_place_layer_gaps(st, layer, roots, sizes, gap, margin, layer.len() as int);
        let x = placed_upto(layers, roots, sizes, gap, margin, k).x;
        assert forall|l: int| 0 <= l < k implies #[trigger] layer_gaps(x, layers[l], sizes, gap, layers[l].len() as int) by {
            if l < k - 1 {
                assert(layer_gaps(st.x, layers[l], sizes, gap, layers[l].len() as int));
                assert forall|j: int| 0 <= j && j + 1 < layers[l].len() implies #[trigger] gap_ok(x, sizes, gap, layers[l][j] as int, layers[l][j + 1] as int) by {
                    let a = layers[l][j] as int;
                    let b = layers[l][j + 1] as int;
                    assert forall|t: int| 0 <= t < layer.len() implies layer[t] != a by {
                        assert(layers[k - 1][t] != layers[l][j]);
                    }
                    assert forall|t: int| 0 <= t < layer.len() implies layer[t] != b by {
                        assert(layers[k - 1][t] != layers[l][j + 1]);
                    }
                    assert(a < sizes.len() && b < sizes.len());
                    assert(x[a] == st.x[a]);
                    assert(x[b] == st.x[b]);
                    assert(gap_ok(st.x, sizes, gap, a, b));
                }
            }
        }
    }
}

/// Coordinate assignment keeps the minimum gap: within a layer, each
/// node starts at least the width of its left neighbour, plus `gap` when
/// that width is positive, right of it (up to the `usize` limit).
pub proof fn law_coordinates_keep_gap(
    layers: Seq<Seq<usize>>,
    adj: Seq<Seq<usize>>,
    sizes: Seq<Size>,
    gap: int,
    canvas_w: int,
    margin: int,
    l: int,
    j: int,
)
    requires
        coords_ok(layers, adj.len() as int, sizes.len() as int),
        layers_distinct(layers),
        gap >= 0,
        0 <= l < layers.len(),
        0 <= j,
        j + 1 < layers[l].len(),
    ensures
        ({
            let c = coordinates(layers, adj, sizes, gap, canvas_w, margin);
            let a = layers[l][j] as int;
            let b = layers[l][j + 1] as int;
            &&& c[b] >= cap_add(c[a], sizes[a].w as int)
            &&& sizes[a].w > 0 ==> c[b] >= cap_add(c[a], sizes[a].w + gap)
        }),
{
    let n = sizes.len();
    assert(nodes_ok(layers, n as int)) by {
        assert forall|i: int, t: int| 0 <= i < layers.len() && 0 <= t < layers[i].len() implies (#[trigger] layers[i][t]) < n by {
        }
    }
    let roots = roots_upto(aligned(layers, adj, n, layers.len() as int).up, n, n as int);
    lemma_placed_gaps(layers, roots, sizes, gap, margin, layers.len() as int);
    let xs = block_cols(layers, adj, sizes, gap, margin);
    let a = layers[l][j] as int;
    let b = layers[l][j + 1] as int;
    assert(layer_gaps(xs, layers[l], sizes, gap, layers[l].len() as int));
    assert(gap_ok(xs, sizes, gap, a, b));
    assert(a < n && b < n);
}


// ---------------------------------------------------------------------
// Column gaps for transition labels
// ---------------------------------------------------------------------

/// The entries of an id-to-index table as plain values.
pub open spec fn id_map_view(m: Seq<(String, usize)>) -> Seq<(Seq<char>, usize)> {
    m.map_values(|e: (String, usize)| (e.0@, e.1))
}

/// The index the table maps `id` to: the last of the first `k` entries
/// for it, as a map collected from the entries keeps it.
pub open spec fn map_lookup(m: Seq<(Seq<char>, usize)>, id: Seq<char>, k: int) -> Option<usize>
    decreases k,
{
    if k <= 0 {
        None
    } else if m[k - 1].0 == id {
        Some(m[k - 1].1)
    } else {
        map_lookup(m, id, k - 1)
    }
}

/// The gap transition `t` asks for between its two ends, as (from
/// index, to index, width): none for a self-transition, an unknown end,
/// an end without a column, or two ends in one column; else its label's
/// width plus two cells each side, or `min_gap` without a label.
pub open spec fn gap_req(m: Seq<(Seq<char>, usize)>, x: Seq<usize>, t: Transition, min_gap: int) -> Option<(usize, usize, usize)> {
    if t.from@ == t.to@ {
        None
    } else {
        match (map_lookup(m, t.from@, m.len() as int), map_lookup(m, t.to@, m.len() as int)) {
            (Some(f), Some(g)) => if f >= x.len() || g >= x.len() || x[f as int] == x[g as int] {
                None
            } else {
                Some(
                    (
                        f,
                        g,
                        match t.label {
                            Some(l) => cap_add(chars_width(l@) as int, 4) as usize,
                            None => min_gap as usize,
                        },
                    ),
                )
            },
            _ => None,
        }
    }
}

/// The gaps the first `k` transitions ask for, in order.
pub open spec fn gap_reqs(m: Seq<(Seq<char>, usize)>, x: Seq<usize>, ts: Seq<Transition>, min_gap: int, k: int) -> Seq<(usize, usize, usize)>
    decreases k,
{
    if k <= 0 {
        Seq::empty()
    } else {
        let prev = gap_reqs(m, x, ts, min_gap, k - 1);
        match gap_req(m, x, ts[k - 1], min_gap) {
            Some(r) => prev.push(r),
            None => prev,
        }
    }
}

/// The columns after meeting gap `r`: when the free space between the
/// left end's right edge and the right end falls short of the asked
/// width, the right end and every node at or right of it move right by
/// the shortfall.
pub open spec fn widen_for(x: Seq<usize>, sizes: Seq<Size>, r: (usize, usize, usize)) -> Seq<usize> {
    let fx = x[r.0 as int] as int;
    let tx = x[r.1 as int] as int;
    let (left, left_w, right) = if fx < tx {
        (fx, sizes[r.0 as int].w as int, tx)
    } else {
        (tx, sizes[r.1 as int].w as int, fx)
    };
    let edge = cap_add(left, left_w);
    let free = if right > edge { right - edge } else { 0 };
    if free < r.2 {
        Seq::new(x.len(), |i: int| if x[i] >= right { cap_add(x[i] as int, r.2 - free) as usize } else { x[i] })
    } else {
        x
    }
}

/// The columns after meeting the first `k` gaps of `reqs` taken in
/// `order`.
pub open spec fn widen_all(x: Seq<usize>, sizes: Seq<Size>, reqs: Seq<(usize, usize, usize)>, order: Seq<usize>, k: int) -> Seq<usize>
    decreases k,
{
    if k <= 0 {
        x
    } else {
        widen_for(widen_all(x, sizes, reqs, order, k - 1), sizes, reqs[order[k - 1] as int])
    }
}

/// The order in which the gaps are met: by the column of their `from`
/// end, leftmost first, ties in transition order.
pub open spec fn req_order(x: Seq<usize>, reqs: Seq<(usize, usize, usize)>) -> Seq<usize> {
    sort_by_key(Seq::new(reqs.len(), |i: int| i as usize), |i: usize| x[reqs[i as int].0 as int] as int, reqs.len() as int)
}

/// The columns after widening every gap a transition asks for.
pub open spec fn column_gaps(m: Seq<(Seq<char>, usize)>, x: Seq<usize>, ts: Seq<Transition>, sizes: Seq<Size>, min_gap: int) -> Seq<usize> {
    let reqs = gap_reqs(m, x, ts, min_gap, ts.len() as int);
    let order = req_order(x, reqs);
    widen_all(x, sizes, reqs, order, order.len() as int)
}

fn map_lookup_exec(m: &[(String, usize)], id: &str) -> (r: Option<usize>)
    ensures
        r == map_lookup(id_map_view(m@), id@, m@.len() as int),
{
    let ghost mv = id_map_view(m@);
    let mut k = m.len();
    while k > 0
        invariant
            k <= m@.len(),
            mv == id_map_view(m@),
            map_lookup(mv, id@, m@.len() as int) == map_lookup(mv, id@, k as int),
        decreases k,
    {
        assert(mv[k - 1] == (m@[k - 1].0@, m@[k - 1].1));
        if str_eq(m[k - 1].0.as_str(), id) {
            return Some(m[k - 1].1);
        }
        k = k - 1;
    }
    None
}

/// Widen the column gaps so each transition's label fits between its
/// ends (see [`column_gaps`]): each labelled transition asks for its
/// label's width plus two cells each side, others for `min_gap`; the
/// gaps are met leftmost first by shifting the right end, and every
/// node at or right of it, rightward. `id_to_idx` maps state ids to
/// indices in `x` (a later entry for an id wins).
pub fn compute_column_gaps(
    x: &mut Vec<usize>,
    transitions: &[Transition],
    id_to_idx: &[(String, usize)],
    sizes: &[Size],
    min_gap: usize,
)
    requires
        old(x)@.len() <= sizes@.len(),
    ensures
        final(x)@ == column_gaps(id_map_view(id_to_idx@), old(x)@, transitions@, sizes@, min_gap as int),
{
    let ghost m = id_map_view(id_to_idx@);
    let ghost x0 = x@;
    let n = x.len();
    let mut reqs: Vec<(usize, usize, usize)> = Vec::new();
    let mut k: usize = 0;
    while k < transitions.len()
        invariant
            k <= transitions@.len(),
            x@ == x0,
            n == x0.len(),
            m == id_map_view(id_to_idx@),
            reqs@ == gap_reqs(m, x0, transitions@, min_gap as int, k as int),
            forall|i: int| 0 <= i < reqs@.len() ==> (#[trigger] reqs@[i]).0 < n && reqs@[i].1 < n,
        decreases transitions@.len() - k,
    {
        let t = &transitions[k];
        if !str_eq(t.from.as_str(), t.to.as_str()) {
            let fi = map_lookup_exec(id_to_idx, t.from.as_str());
            let ti = map_lookup_exec(id_to_idx, t.to.as_str());
            match (fi, ti) {
                (Some(f), Some(g)) => {
                    if f < n && g < n && x[f] != x[g] {
                        let needed = match &t.label {
                            Some(l) => str_width(l.as_str()).saturating_add(4),
                            None => min_gap,
                        };
                        reqs.push((f, g, needed));
                    }
                },
                _ => {},
            }
        }
        k = k + 1;
    }
    let ghost rq = reqs@;
    let r_len = reqs.len();
    let ghost key = |i: usize| x0[rq[i as int].0 as int] as int;
    let ghost ids = Seq::new(rq.len(), |i: int| i as usize);
    let mut order: Vec<usize> = Vec::new();
    let mut keys: Vec<usize> = Vec::new();
    let mut e: usize = 0;
    while e < r_len
        invariant
            e <= r_len,
            r_len == rq.len(),
            reqs@ == rq,
            x@ == x0,
            n == x0.len(),
            forall|i: int| 0 <= i < rq.len() ==> (#[trigger] rq[i]).0 < n && rq[i].1 < n,
            key == (|i: usize| x0[rq[i as int].0 as int] as int),
            ids == Seq::new(rq.len(), |i: int| i as usize),
            order@ == sort_by_key(ids, key, e as int),
            keys@.len() == order@.len(),
            forall|i: int| 0 <= i < order@.len() ==> (#[trigger] order@[i]) < r_len,
            forall|i: int| 0 <= i < order@.len() ==> #[trigger] keys@[i] as int == key(order@[i]),
        decreases r_len - e,
    {
        let ke = x[reqs[e].0];
        assert(ids[e as int] == e);
        let ghost s = order@;
        let mut j = order.len();
        while j > 0
            invariant
                j <= order@.len(),
                s == order@,
                keys@.len() == order@.len(),
                forall|i: int| 0 <= i < order@.len() ==> #[trigger] keys@[i] as int == key(order@[i]),
                ke as int == key(e),
                forall|i: int| j <= i < s.len() ==> key(#[trigger] s[i]) > key(e),
            ensures
                j == 0 || key(s[j - 1]) <= key(e),
                forall|i: int| j <= i < s.len() ==> key(#[trigger] s[i]) > key(e),
            decreases j,
        {
            assert(keys@[j - 1] as int == key(order@[j - 1]));
            if keys[j - 1] <= ke {
                break;
            }
            j = j - 1;
        }
        proof {
            lemma_insert_key_shape(s, e, key, j as int);
        }
        let ghost ks = keys@;
        order.insert(j, e);
        keys.insert(j, ke);
        proof {
            assert(order@ =~= s.subrange(0, j as int).push(e) + s.subrange(j as int, s.len() as int));
            assert forall|i: int| 0 <= i < order@.len() implies #[trigger] keys@[i] as int == key(order@[i]) && order@[i] < r_len by {
                if i < j {
                    assert(keys@[i] == ks[i]);
                    assert(order@[i] == s[i]);
                } else if i > j {
                    assert(keys@[i] == ks[i - 1]);
                    assert(order@[i] == s[i - 1]);
                }
            }
        }
        e = e + 1;
    }
    assert(order@ == req_order(x0, rq));
    let mut q: usize = 0;
    while q < order.len()
        invariant
            q <= order@.len(),
            reqs@ == rq,
            n == x0.len(),
            x@.len() == n,
            n <= sizes@.len(),
            forall|i: int| 0 <= i < rq.len() ==> (#[trigger] rq[i]).0 < n && rq[i].1 < n,
            forall|i: int| 0 <= i < order@.len() ==> (#[trigger] order@[i]) < rq.len(),
            x@ == widen_all(x0, sizes@, rq, order@, q as int),
        decreases order@.len() - q,
    {
        let (f, g, needed) = reqs[order[q]];
        let ghost xq = x@;
        let fx = x[f];
        let tx = x[g];
        let (left, left_w, right) = if fx < tx {
            (fx, sizes[f].w, tx)
        } else {
            (tx, sizes[g].w, fx)
        };
        let edge = left.saturating_add(left_w);
        let free = if right > edge {
            right - edge
        } else {
            0
        };
        if free < needed {
            let extra = needed - free;
            let mut i: usize = 0;
            while i < n
                invariant
                    i <= n,
                    n == xq.len(),
                    x@.len() == n,
                    forall|t: int| 0 <= t < n ==> #[trigger] x@[t] == if t < i && xq[t] >= right {
                        cap_add(xq[t] as int, extra as int) as usize
                    } else {
                        xq[t]
                    },
                decreases n - i,
            {
                if x[i] >= right {
                    let v = x[i].saturating_add(extra);
                    x.set(i, v);
                }
                i = i + 1;
            }
            assert(x@ =~= widen_for(xq, sizes@, rq[order@[q as int] as int]));
        } else {
            assert(x@ =~= widen_for(xq, sizes@, rq[order@[q as int] as int]));
        }
        q = q + 1;
    }

}

} // verus!
