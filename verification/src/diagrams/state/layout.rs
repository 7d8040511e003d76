//! Layered layout for state machine diagrams.
//!
//! A depth-first search marks the transitions that close cycles (back
//! edges); the remaining transitions form a DAG, and every state sits on
//! the layer of its longest path from a root. Each layer is centered in
//! the canvas, layers stacked top to bottom.

use vstd::prelude::*;
use crate::diagrams::arrow::sat_add;
use crate::diagrams::table::{mul_sat, sat_mul};
use crate::layout::routing::sat_sub;
use crate::diagrams::state::types::{StateNode, StateType, Transition};
use crate::geom::{Rect, Size};
use crate::text::{chars_eq, greedy_wrap, views, wrap_label, NODE_WRAP_WIDTH_PCT};
use crate::width::{chars_of, chars_width, seq_display_width, string_from_chars};

verus! {

// ---------------------------------------------------------------------
// Graph model
// ---------------------------------------------------------------------

/// The adjacency lists as sequences.
pub open spec fn adj_view(adj: Seq<Vec<usize>>) -> Seq<Seq<usize>> {
    adj.map_values(|v: Vec<usize>| v@)
}

/// Every listed successor is a node.
pub open spec fn adj_ok(adj: Seq<Seq<usize>>) -> bool {
    forall|u: int, k: int| 0 <= u < adj.len() && 0 <= k < adj[u].len() ==> #[trigger] adj[u][k] < adj.len()
}

/// `u -> v` is an edge.
pub open spec fn is_edge(adj: Seq<Seq<usize>>, u: int, v: int) -> bool {
    0 <= u < adj.len() && exists|k: int| 0 <= k < adj[u].len() && #[trigger] adj[u][k] == v
}

/// `v` occurs in `order` before position `p`.
pub open spec fn before(order: Seq<usize>, v: int, p: int) -> bool {
    exists|q: int| 0 <= q < p && #[trigger] order[q] == v
}

/// No node occurs twice.
pub open spec fn distinct(order: Seq<usize>) -> bool {
    forall|a: int, b: int| 0 <= a < b < order.len() ==> order[a] != order[b]
}

/// The back-edge list holds the pair.
pub open spec fn is_back(back: Seq<(usize, usize)>, u: int, v: int) -> bool {
    exists|k: int| 0 <= k < back.len() && #[trigger] back[k] == (u as usize, v as usize)
}

/// Every edge out of a node of `order` is a back edge or leads to a
/// node placed earlier in `order` (a post-order of the forward edges).
pub open spec fn postorder_ok(adj: Seq<Seq<usize>>, order: Seq<usize>, back: Seq<(usize, usize)>) -> bool {
    forall|p: int, k: int|
        0 <= p < order.len() && 0 <= k < adj[order[p] as int].len() ==> is_back(
            back,
            order[p] as int,
            #[trigger] adj[order[p] as int][k] as int,
        ) || before(order, adj[order[p] as int][k] as int, p)
}

/// Every back edge is an edge.
pub open spec fn back_ok(adj: Seq<Seq<usize>>, back: Seq<(usize, usize)>) -> bool {
    forall|k: int| 0 <= k < back.len() ==> is_edge(adj, (#[trigger] back[k]).0 as int, back[k].1 as int)
}

/// Search marks.
#[derive(Clone, Copy, Debug, PartialEq, Eq, Structural)]
pub enum Visit {
    Unvisited,
    Visiting,
    Visited,
}

/// Number of unvisited nodes.
pub open spec fn unvisited(s: Seq<Visit>) -> nat
    decreases s.len(),
{
    if s.len() == 0 {
        0
    } else {
        unvisited(s.drop_last()) + (if s.last() == Visit::Unvisited { 1nat } else { 0nat })
    }
}

/// `b` only moved nodes out of `Unvisited` relative to `a`.
pub open spec fn progressed(a: Seq<Visit>, b: Seq<Visit>) -> bool {
    &&& a.len() == b.len()
    &&& forall|x: int| 0 <= x < a.len() && a[x] == Visit::Visited ==> #[trigger] b[x] == Visit::Visited
    &&& forall|x: int| 0 <= x < a.len() && a[x] == Visit::Visiting ==> #[trigger] b[x] == Visit::Visiting
    &&& forall|x: int| 0 <= x < a.len() && b[x] == Visit::Visiting ==> #[trigger] a[x] == Visit::Visiting
    &&& forall|x: int| 0 <= x < a.len() && b[x] == Visit::Unvisited ==> #[trigger] a[x] == Visit::Unvisited
}

proof fn lemma_unvisited_mono(a: Seq<Visit>, b: Seq<Visit>)
    requires
        a.len() == b.len(),
        forall|x: int| 0 <= x < a.len() && b[x] == Visit::Unvisited ==> #[trigger] a[x] == Visit::Unvisited,
    ensures
        unvisited(b) <= unvisited(a),
    decreases a.len(),
{
    if a.len() > 0 {
        lemma_unvisited_mono(a.drop_last(), b.drop_last());
    }
}

proof fn lemma_unvisited_strict(a: Seq<Visit>, b: Seq<Visit>, i: int)
    requires
        a.len() == b.len(),
        forall|x: int| 0 <= x < a.len() && b[x] == Visit::Unvisited ==> #[trigger] a[x] == Visit::Unvisited,
        0 <= i < a.len(),
        a[i] == Visit::Unvisited,
        b[i] != Visit::Unvisited,
    ensures
        unvisited(b) < unvisited(a),
    decreases a.len(),
{
    if i < a.len() - 1 {
        lemma_unvisited_strict(a.drop_last(), b.drop_last(), i);
    } else {
        lemma_unvisited_mono(a.drop_last(), b.drop_last());
    }
}

/// The search state is consistent: visited nodes are exactly those in
/// `order`, in post-order of the forward edges.
pub open spec fn dfs_inv(adj: Seq<Seq<usize>>, st: Seq<Visit>, order: Seq<usize>, back: Seq<(usize, usize)>) -> bool {
    &&& adj_ok(adj)
    &&& st.len() == adj.len()
    &&& distinct(order)
    &&& forall|p: int| 0 <= p < order.len() ==> (#[trigger] order[p]) < adj.len()
    &&& forall|p: int| 0 <= p < order.len() ==> st[#[trigger] order[p] as int] == Visit::Visited
    &&& forall|x: int| 0 <= x < st.len() && st[x] == Visit::Visited ==> before(order, x, order.len() as int)
    &&& postorder_ok(adj, order, back)
    &&& back_ok(adj, back)
}

proof fn lemma_before_extend(order: Seq<usize>, o2: Seq<usize>, v: int, p: int)
    requires
        before(order, v, p),
        p <= order.len(),
        o2.len() >= order.len(),
        o2.take(order.len() as int) == order,
    ensures
        before(o2, v, p),
{
    let q = choose|q: int| 0 <= q < p && #[trigger] order[q] == v;
    assert(o2[q] == o2.take(order.len() as int)[q]);
}

proof fn lemma_is_back_extend(back: Seq<(usize, usize)>, b2: Seq<(usize, usize)>, u: int, v: int)
    requires
        is_back(back, u, v),
        b2.len() >= back.len(),
        b2.take(back.len() as int) == back,
    ensures
        is_back(b2, u, v),
{
    let k = choose|k: int| 0 <= k < back.len() && #[trigger] back[k] == (u as usize, v as usize);
    assert(b2[k] == b2.take(back.len() as int)[k]);
}

/// A search state: the marks, the post-order so far, and the back
/// edges so far.
pub type DfsState = (Seq<Visit>, Seq<usize>, Seq<(usize, usize)>);

/// The depth-first search from `node` over `a`, from state `s`: mark it
/// in progress, search its successors in list order, then mark it done
/// and append it to the post-order. `f` bounds the depth (a search from
/// state `s` needs no more than the number of unvisited nodes).
pub open spec fn dfs_node(a: Seq<Seq<usize>>, f: nat, node: int, s: DfsState) -> DfsState
    decreases f, 0int,
{
    if f == 0 {
        s
    } else {
        let s1 = (s.0.update(node, Visit::Visiting), s.1, s.2);
        let s2 = dfs_succs(a, (f - 1) as nat, node, s1, a[node].len() as int);
        (s2.0.update(node, Visit::Visited), s2.1.push(node as usize), s2.2)
    }
}

/// The search state after handling the first `k` successors of `node`:
/// an unvisited one is searched, an edge into a node in progress is a
/// back edge, a finished one is skipped.
pub open spec fn dfs_succs(a: Seq<Seq<usize>>, f: nat, node: int, s: DfsState, k: int) -> DfsState
    decreases f, k + 1,
{
    if k <= 0 {
        s
    } else {
        let prev = dfs_succs(a, f, node, s, k - 1);
        let next = a[node][k - 1] as int;
        if prev.0[next] == Visit::Unvisited {
            dfs_node(a, f, next, prev)
        } else if prev.0[next] == Visit::Visiting {
            (prev.0, prev.1, prev.2.push((node as usize, next as usize)))
        } else {
            prev
        }
    }
}

/// The search state after starting a search from each of the first `i`
/// nodes still unvisited, in index order.
pub open spec fn dfs_roots(a: Seq<Seq<usize>>, i: int) -> DfsState
    decreases i,
{
    if i <= 0 {
        (Seq::new(a.len(), |x: int| Visit::Unvisited), Seq::empty(), Seq::empty())
    } else {
        let s = dfs_roots(a, i - 1);
        if s.0[i - 1] == Visit::Unvisited {
            dfs_node(a, a.len(), i - 1, s)
        } else {
            s
        }
    }
}

proof fn lemma_unvisited_le_len(s: Seq<Visit>)
    ensures
        unvisited(s) <= s.len(),
    decreases s.len(),
{
    if s.len() > 0 {
        lemma_unvisited_le_len(s.drop_last());
    }
}

/// Depth-first search from `node`, recording back edges and the
/// post-order.
fn dfs(
    node: usize,
    adj: &Vec<Vec<usize>>,
    st: &mut Vec<Visit>,
    back: &mut Vec<(usize, usize)>,
    order: &mut Vec<usize>,
    Ghost(fuel): Ghost<nat>,
)
    requires
        fuel >= unvisited(old(st)@),
        dfs_inv(adj_view(adj@), old(st)@, old(order)@, old(back)@),
        node < adj@.len(),
        old(st)@[node as int] == Visit::Unvisited,
    ensures
        dfs_inv(adj_view(adj@), final(st)@, final(order)@, final(back)@),
        progressed(old(st)@, final(st)@),
        final(st)@[node as int] == Visit::Visited,
        final(order)@.len() >= old(order)@.len(),
        final(order)@.take(old(order)@.len() as int) == old(order)@,
        final(back)@.len() >= old(back)@.len(),
        final(back)@.take(old(back)@.len() as int) == old(back)@,
        unvisited(final(st)@) < unvisited(old(st)@),
        (final(st)@, final(order)@, final(back)@) == dfs_node(adj_view(adj@), fuel, node as int, (old(st)@, old(order)@, old(back)@)),
    decreases fuel,
{
    let ghost a = adj_view(adj@);
    let ghost st0 = st@;
    let ghost order0 = order@;
    let ghost back0 = back@;
    st.set(node, Visit::Visiting);
    proof {
        lemma_unvisited_strict(st0, st@, node as int);
    }
    let succ = &adj[node];
    assert(succ@ == a[node as int]);
    let mut k: usize = 0;
    while k < succ.len()
        invariant
            a == adj_view(adj@),
            succ@ == a[node as int],
            node < a.len(),
            k <= succ@.len(),
            adj_ok(a),
            st@.len() == a.len(),
            st@[node as int] == Visit::Visiting,
            distinct(order@),
            forall|p: int| 0 <= p < order@.len() ==> (#[trigger] order@[p]) < a.len(),
            forall|p: int| 0 <= p < order@.len() ==> st@[#[trigger] order@[p] as int] == Visit::Visited,
            forall|x: int| 0 <= x < st@.len() && st@[x] == Visit::Visited ==> before(order@, x, order@.len() as int),
            postorder_ok(a, order@, back@),
            back_ok(a, back@),
            forall|x: int| 0 <= x < st0.len() && st0[x] == Visit::Visited ==> #[trigger] st@[x] == Visit::Visited,
            forall|x: int| 0 <= x < st0.len() && st0[x] == Visit::Visiting ==> #[trigger] st@[x] == Visit::Visiting,
            forall|x: int| 0 <= x < st0.len() && st@[x] == Visit::Visiting ==> #[trigger] st0[x] == Visit::Visiting || x == node,
            forall|x: int| 0 <= x < st0.len() && st@[x] == Visit::Unvisited ==> #[trigger] st0[x] == Visit::Unvisited,
            unvisited(st@) < unvisited(st0),
            fuel >= unvisited(st0),
            (st@, order@, back@) == dfs_succs(a, (fuel - 1) as nat, node as int, (st0.update(node as int, Visit::Visiting), order0, back0), k as int),
            st0.len() == a.len(),
            order@.len() >= order0.len(),
            order@.take(order0.len() as int) == order0,
            back@.len() >= back0.len(),
            back@.take(back0.len() as int) == back0,
            forall|j: int| 0 <= j < k ==> is_back(back@, node as int, #[trigger] succ@[j] as int) || st@[succ@[j] as int] == Visit::Visited,
        decreases succ@.len() - k,
    {
        let next = succ[k];
        assert(next < a.len());
        let ghost sb = st@;
        let ghost ob = order@;
        let ghost bb = back@;
        match st[next] {
            Visit::Unvisited => {
                assert(unvisited(st@) < unvisited(st0));
                dfs(next, adj, st, back, order, Ghost((fuel - 1) as nat));
                proof {
                    assert forall|x: int| 0 <= x < st0.len() && st@[x] == Visit::Unvisited implies #[trigger] st0[x] == Visit::Unvisited by {
                        assert(sb[x] == Visit::Unvisited);
                    }
                    assert forall|x: int| 0 <= x < st0.len() && st@[x] == Visit::Visiting implies #[trigger] st0[x] == Visit::Visiting || x == node by {
                        assert(sb[x] == Visit::Visiting);
                    }
                    assert forall|x: int| 0 <= x < st0.len() && st0[x] == Visit::Visiting implies #[trigger] st@[x] == Visit::Visiting by {
                        assert(sb[x] == Visit::Visiting);
                    }
                    assert forall|x: int| 0 <= x < st0.len() && st0[x] == Visit::Visited implies #[trigger] st@[x] == Visit::Visited by {
                        assert(sb[x] == Visit::Visited);
                    }
                    assert forall|j: int| 0 <= j < k + 1 implies is_back(back@, node as int, #[trigger] succ@[j] as int) || st@[succ@[j] as int] == Visit::Visited by {
                        if j < k {
                            if is_back(bb, node as int, succ@[j] as int) {
                                lemma_is_back_extend(bb, back@, node as int, succ@[j] as int);
                            }
                        }
                    }
                    assert(order@.take(order0.len() as int) =~= order0) by {
                        assert(order@.take(ob.len() as int) == ob);
                        assert forall|i: int| 0 <= i < order0.len() implies order@.take(order0.len() as int)[i] == order0[i] by {
                            assert(order@[i] == order@.take(ob.len() as int)[i]);
                            assert(ob[i] == ob.take(order0.len() as int)[i]);
                        }
                    }
                    assert(back@.take(back0.len() as int) =~= back0) by {
                        assert forall|i: int| 0 <= i < back0.len() implies back@.take(back0.len() as int)[i] == back0[i] by {
                            assert(back@[i] == back@.take(bb.len() as int)[i]);
                            assert(bb[i] == bb.take(back0.len() as int)[i]);
                        }
                    }
                    lemma_unvisited_mono(sb, st@);
                }
            },
            Visit::Visiting => {
                back.push((node, next));
                proof {
                    assert(back@.take(bb.len() as int) =~= bb);
                    assert(is_back(back@, node as int, next as int)) by {
                        assert(back@[bb.len() as int] == (node, next));
                    }
                    assert(is_edge(a, node as int, next as int)) by {
                        assert(a[node as int][k as int] == next);
                    }
                    assert forall|i: int| 0 <= i < back@.len() implies is_edge(a, (#[trigger] back@[i]).0 as int, back@[i].1 as int) by {
                        if i < bb.len() {
                            assert(back@[i] == bb[i]);
                        }
                    }
                    assert forall|p: int, q: int|
                        0 <= p < order@.len() && 0 <= q < a[order@[p] as int].len() implies is_back(
                            back@,
                            order@[p] as int,
                            #[trigger] a[order@[p] as int][q] as int,
                        ) || before(order@, a[order@[p] as int][q] as int, p) by {
                        if is_back(bb, order@[p] as int, a[order@[p] as int][q] as int) {
                            lemma_is_back_extend(bb, back@, order@[p] as int, a[order@[p] as int][q] as int);
                        }
                    }
                    assert forall|j: int| 0 <= j < k + 1 implies is_back(back@, node as int, #[trigger] succ@[j] as int) || st@[succ@[j] as int] == Visit::Visited by {
                        if j < k && is_back(bb, node as int, succ@[j] as int) {
                            lemma_is_back_extend(bb, back@, node as int, succ@[j] as int);
                        }
                    }
                    assert(back@.take(back0.len() as int) =~= back0) by {
                        assert forall|i: int| 0 <= i < back0.len() implies back@.take(back0.len() as int)[i] == back0[i] by {
                            assert(back@[i] == bb[i]);
                            assert(bb[i] == bb.take(back0.len() as int)[i]);
                        }
                    }
                }
            },
            Visit::Visited => {},
        }
        k = k + 1;
    }
    let ghost sb = st@;
    let ghost ob = order@;
    st.set(node, Visit::Visited);
    order.push(node);
    proof {
        assert(order@.take(ob.len() as int) =~= ob);
        assert(order@.take(order0.len() as int) =~= order0) by {
            assert forall|i: int| 0 <= i < order0.len() implies order@.take(order0.len() as int)[i] == order0[i] by {
                assert(order@[i] == ob[i]);
                assert(ob[i] == ob.take(order0.len() as int)[i]);
            }
        }
        assert(!before(ob, node as int, ob.len() as int)) by {
            if before(ob, node as int, ob.len() as int) {
                let q = choose|q: int| 0 <= q < ob.len() && #[trigger] ob[q] == node;
                assert(sb[ob[q] as int] == Visit::Visited);
            }
        }
        assert(distinct(order@)) by {
            assert forall|x: int, y: int| 0 <= x < y < order@.len() implies order@[x] != order@[y] by {
                if y == ob.len() {
                    if order@[x] == order@[y] {
                        assert(before(ob, node as int, ob.len() as int));
                    }
                }
            }
        }
        assert forall|x: int| 0 <= x < st@.len() && st@[x] == Visit::Visited implies before(order@, x, order@.len() as int) by {
            if x == node {
                assert(order@[ob.len() as int] == node);
            } else {
                lemma_before_extend(ob, order@, x, ob.len() as int);
            }
        }
        assert forall|p: int| 0 <= p < order@.len() implies st@[#[trigger] order@[p] as int] == Visit::Visited by {
            if p < ob.len() {
                assert(order@[p] == ob[p]);
            }
        }
        assert forall|p: int, q: int|
            0 <= p < order@.len() && 0 <= q < a[order@[p] as int].len() implies is_back(
                back@,
                order@[p] as int,
                #[trigger] a[order@[p] as int][q] as int,
            ) || before(order@, a[order@[p] as int][q] as int, p) by {
            if p < ob.len() {
                assert(order@[p] == ob[p]);
                if before(ob, a[ob[p] as int][q] as int, p) {
                    lemma_before_extend(ob, order@, a[ob[p] as int][q] as int, p);
                }
            } else {
                assert(order@[p] == node);
                let v = succ@[q];
                if !is_back(back@, node as int, v as int) {
                    assert(sb[v as int] == Visit::Visited);
                    lemma_before_extend(ob, order@, v as int, ob.len() as int);
                }
            }
        }
        lemma_unvisited_mono(sb, st@);
    }
}

/// Depth-first search over all nodes in index order. Returns the
/// post-order of the search (every node once) and the back edges: the
/// edges into a node still on the search stack, which close cycles.
/// Every other edge leads to a node earlier in the post-order.
pub fn detect_back_edges(node_count: usize, adj: &Vec<Vec<usize>>) -> (r: (Vec<usize>, Vec<(usize, usize)>))
    requires
        adj@.len() == node_count,
        adj_ok(adj_view(adj@)),
    ensures
        r.0@.len() == node_count,
        distinct(r.0@),
        forall|p: int| 0 <= p < r.0@.len() ==> (#[trigger] r.0@[p]) < node_count,
        postorder_ok(adj_view(adj@), r.0@, r.1@),
        back_ok(adj_view(adj@), r.1@),
        r.0@ == dfs_roots(adj_view(adj@), node_count as int).1,
        r.1@ == dfs_roots(adj_view(adj@), node_count as int).2,
{
    let ghost a = adj_view(adj@);
    let mut st: Vec<Visit> = Vec::new();
    let mut k: usize = 0;
    while k < node_count
        invariant
            k <= node_count,
            st@.len() == k,
            forall|x: int| 0 <= x < k ==> st@[x] == Visit::Unvisited,
        decreases node_count - k,
    {
        st.push(Visit::Unvisited);
        k = k + 1;
    }
    let mut back: Vec<(usize, usize)> = Vec::new();
    let mut order: Vec<usize> = Vec::new();
    assert(st@ =~= Seq::new(a.len(), |x: int| Visit::Unvisited));
    let mut i: usize = 0;
    while i < node_count
        invariant
            i <= node_count,
            a == adj_view(adj@),
            a.len() == node_count,
            dfs_inv(a, st@, order@, back@),
            forall|x: int| 0 <= x < node_count ==> #[trigger] st@[x] != Visit::Visiting,
            forall|x: int| 0 <= x < i ==> #[trigger] st@[x] == Visit::Visited,
            (st@, order@, back@) == dfs_roots(a, i as int),
        decreases node_count - i,
    {
        if st[i] == Visit::Unvisited {
            let ghost sb = st@;
            proof {
                lemma_unvisited_le_len(st@);
            }
            dfs(i, adj, &mut st, &mut back, &mut order, Ghost(node_count as nat));
            proof {
                assert forall|x: int| 0 <= x < node_count implies #[trigger] st@[x] != Visit::Visiting by {
                    if st@[x] == Visit::Visiting {
                        assert(sb[x] == Visit::Visiting);
                    }
                }
                assert forall|x: int| 0 <= x < i + 1 implies #[trigger] st@[x] == Visit::Visited by {
                    if x < i {
                        assert(sb[x] == Visit::Visited);
                    }
                }
            }
        }
        i = i + 1;
    }
    proof {
        assert forall|x: int| 0 <= x < node_count implies before(order@, x, order@.len() as int) by {
            assert(st@[x] == Visit::Visited);
        }
        lemma_perm_len(order@, node_count as nat);
    }
    (order, back)
}

/// A sequence of distinct nodes holding every node below `n` has length
/// `n`.
proof fn lemma_perm_len(order: Seq<usize>, n: nat)
    requires
        distinct(order),
        forall|p: int| 0 <= p < order.len() ==> (#[trigger] order[p]) < n,
        forall|x: int| 0 <= x < n ==> before(order, x, order.len() as int),
        n <= usize::MAX + 1,
    ensures
        order.len() == n,
{
    assert(order.no_duplicates());
    let s = order.to_set();
    let full = Set::new(|x: usize| (x as int) < n);
    assert(s =~= full) by {
        assert forall|x: usize| s.contains(x) implies full.contains(x) by {
            let q = choose|q: int| 0 <= q < order.len() && order[q] == x;
            assert(order[q] < n);
        }
        assert forall|x: usize| full.contains(x) implies s.contains(x) by {
            assert(before(order, x as int, order.len() as int));
            let q = choose|q: int| 0 <= q < order.len() && #[trigger] order[q] as int == x as int;
            assert(order[q] == x);
        }
    }
    order.unique_seq_to_set();
    lemma_range_set_len(n);
}

proof fn lemma_range_set_len(n: nat)
    requires
        n <= usize::MAX + 1,
    ensures
        Set::new(|x: usize| (x as int) < n).len() == n,
        Set::new(|x: usize| (x as int) < n).finite(),
    decreases n,
{
    let s = Set::new(|x: usize| (x as int) < n);
    if n == 0 {
        assert(s =~= Set::empty());
    } else {
        lemma_range_set_len((n - 1) as nat);
        let t = Set::new(|x: usize| (x as int) < n - 1);
        assert(s =~= t.insert((n - 1) as usize));
    }
}

/// Every node below the top layer sits exactly one layer below some
/// forward predecessor: together with [`layers_descend`], each node's
/// layer is the length of the longest forward path into it.
pub open spec fn layers_tight(adj: Seq<Seq<usize>>, back: Seq<(usize, usize)>, layers: Seq<usize>) -> bool {
    forall|x: int|
        0 <= x < layers.len() && #[trigger] layers[x] > 0 ==> exists|u: int, k: int|
            0 <= u < adj.len() && 0 <= k < adj[u].len() && #[trigger] adj[u][k] == x && !is_back(back, u, x) && layers[x] == layers[u] + 1
}

/// Forward edges (those not marked back) go down at least one layer.
pub open spec fn layers_descend(adj: Seq<Seq<usize>>, back: Seq<(usize, usize)>, layers: Seq<usize>) -> bool {
    forall|u: int, k: int|
        0 <= u < adj.len() && 0 <= k < adj[u].len() && !is_back(back, u, #[trigger] adj[u][k] as int)
            ==> layers[adj[u][k] as int] >= layers[u] + 1
}

/// `order[p..]` lists `x`.
pub open spec fn at_or_after(order: Seq<usize>, x: int, p: int) -> bool {
    exists|q: int| p <= q < order.len() && #[trigger] order[q] == x
}

/// Raise each forward successor of `node` (at position `idx` of the
/// post-order) to at least one layer below it.
fn relax(
    layers: &mut Vec<usize>,
    node: usize,
    succ: &Vec<usize>,
    back: &Vec<(usize, usize)>,
    Ghost(o): Ghost<Seq<usize>>,
    Ghost(idx): Ghost<int>,
)
    requires
        0 <= idx < o.len(),
        o[idx] == node,
        distinct(o),
        old(layers)@.len() == o.len(),
        node < o.len(),
        forall|t: int| 0 <= t < succ@.len() ==> #[trigger] succ@[t] < o.len(),
        forall|t: int| 0 <= t < succ@.len() && !is_back(back@, node as int, #[trigger] succ@[t] as int) ==> before(o, succ@[t] as int, idx),
        forall|x: int| 0 <= x < o.len() ==> #[trigger] old(layers)@[x] + 1 <= o.len() - idx,
        o.len() <= usize::MAX,
    ensures
        final(layers)@.len() == o.len(),
        final(layers)@[node as int] == old(layers)@[node as int],
        forall|x: int| 0 <= x < o.len() ==> #[trigger] final(layers)@[x] >= old(layers)@[x],
        forall|x: int| 0 <= x < o.len() ==> #[trigger] final(layers)@[x] <= o.len() - idx,
        forall|x: int| 0 <= x < o.len() && !before(o, x, idx) ==> #[trigger] final(layers)@[x] == old(layers)@[x],
        forall|x: int| 0 <= x < o.len() ==> #[trigger] final(layers)@[x] == old(layers)@[x] || final(layers)@[x] <= old(layers)@[node as int] + 1,
        forall|t: int| 0 <= t < succ@.len() && !is_back(back@, node as int, #[trigger] succ@[t] as int) ==> final(layers)@[succ@[t] as int] >= final(layers)@[node as int] + 1,
        forall|x: int| 0 <= x < o.len() && #[trigger] final(layers)@[x] != old(layers)@[x] ==> final(layers)@[x] == old(layers)@[node as int] + 1 && exists|t: int|
            0 <= t < succ@.len() && #[trigger] succ@[t] == x && !is_back(back@, node as int, x),
{
    let ghost l0 = layers@;
    let ghost n = o.len();
    proof {
        assert(!before(o, node as int, idx)) by {
            if before(o, node as int, idx) {
                let q = choose|q: int| 0 <= q < idx && #[trigger] o[q] == node as int;
                assert(o[q] == o[idx]);
            }
        }
    }
    let mut j: usize = 0;
    while j < succ.len()
        invariant
            0 <= idx < n,
            n == o.len(),
            n <= usize::MAX,
            o[idx] == node,
            node < n,
            !before(o, node as int, idx),
            l0.len() == n,
            forall|t: int| 0 <= t < succ@.len() ==> #[trigger] succ@[t] < n,
            forall|t: int| 0 <= t < succ@.len() && !is_back(back@, node as int, #[trigger] succ@[t] as int) ==> before(o, succ@[t] as int, idx),
            forall|x: int| 0 <= x < n ==> #[trigger] l0[x] + 1 <= n - idx,
            j <= succ@.len(),
            layers@.len() == n,
            layers@[node as int] == l0[node as int],
            forall|x: int| 0 <= x < n ==> #[trigger] layers@[x] >= l0[x],
            forall|x: int| 0 <= x < n ==> #[trigger] layers@[x] <= n - idx,
            forall|x: int| 0 <= x < n && !before(o, x, idx) ==> #[trigger] layers@[x] == l0[x],
            forall|x: int| 0 <= x < n ==> #[trigger] layers@[x] == l0[x] || layers@[x] <= l0[node as int] + 1,
            forall|t: int| 0 <= t < j && !is_back(back@, node as int, #[trigger] succ@[t] as int) ==> layers@[succ@[t] as int] >= layers@[node as int] + 1,
            forall|x: int| 0 <= x < n && #[trigger] layers@[x] != l0[x] ==> layers@[x] == l0[node as int] + 1 && exists|t: int|
                0 <= t < j && #[trigger] succ@[t] == x && !is_back(back@, node as int, x),
        decreases succ@.len() - j,
    {
        let next = succ[j];
        let is_b = contains_pair(back, node, next);
        if !is_b {
            assert(l0[node as int] + 1 <= n - idx);
            let cand = layers[node] + 1;
            if cand > layers[next] {
                proof {
                    assert(before(o, next as int, idx));
                    assert(next != node);
                }
                layers.set(next, cand);
                proof {
                    assert(succ@[j as int] == next);
                }
            }
        }
        j = j + 1;
    }
}

/// Assign every node the layer of its longest path over the forward
/// edges, processing nodes in reverse post-order (sources first).
pub fn assign_layers(
    node_count: usize,
    adj: &Vec<Vec<usize>>,
    order: &Vec<usize>,
    back: &Vec<(usize, usize)>,
) -> (layers: Vec<usize>)
    requires
        adj@.len() == node_count,
        adj_ok(adj_view(adj@)),
        order@.len() == node_count,
        distinct(order@),
        forall|p: int| 0 <= p < order@.len() ==> (#[trigger] order@[p]) < node_count,
        postorder_ok(adj_view(adj@), order@, back@),
    ensures
        layers@.len() == node_count,
        forall|x: int| 0 <= x < node_count ==> #[trigger] layers@[x] < node_count || node_count == 0,
        layers_descend(adj_view(adj@), back@, layers@),
        layers_tight(adj_view(adj@), back@, layers@),
{
    let ghost a = adj_view(adj@);
    let ghost o = order@;
    let mut layers: Vec<usize> = Vec::new();
    let mut k: usize = 0;
    while k < node_count
        invariant
            k <= node_count,
            layers@.len() == k,
            forall|x: int| 0 <= x < k ==> layers@[x] == 0,
        decreases node_count - k,
    {
        layers.push(0);
        k = k + 1;
    }
    proof {
        lemma_every_node_listed(o, node_count as nat);
    }
    let mut idx: usize = node_count;
    while idx > 0
        invariant
            idx <= node_count,
            a == adj_view(adj@),
            o == order@,
            a.len() == node_count,
            adj_ok(a),
            o.len() == node_count,
            distinct(o),
            forall|p: int| 0 <= p < o.len() ==> (#[trigger] o[p]) < node_count,
            postorder_ok(a, o, back@),
            layers@.len() == node_count,
            forall|x: int| 0 <= x < node_count ==> #[trigger] layers@[x] <= node_count - idx,
            forall|p: int| 0 <= p < node_count ==> #[trigger] layers@[o[p] as int] + p < node_count,
            forall|x: int| 0 <= x < node_count ==> at_or_after(o, x, 0),
            forall|p: int, j: int|
                idx <= p < node_count && 0 <= j < a[o[p] as int].len() && !is_back(back@, o[p] as int, #[trigger] a[o[p] as int][j] as int)
                    ==> layers@[a[o[p] as int][j] as int] >= layers@[o[p] as int] + 1,
            forall|x: int| 0 <= x < node_count && #[trigger] layers@[x] > 0 ==> exists|p: int, j: int|
                idx <= p < node_count && 0 <= j < a[o[p] as int].len() && #[trigger] a[o[p] as int][j] == x && !is_back(back@, o[p] as int, x)
                    && layers@[x] == layers@[o[p] as int] + 1,
        decreases idx,
    {
        idx = idx - 1;
        let node = order[idx];
        let succ = &adj[node];
        let ghost l0 = layers@;
        proof {
            assert(succ@ == a[node as int]);
            assert forall|t: int| 0 <= t < succ@.len() && !is_back(back@, node as int, #[trigger] succ@[t] as int) implies before(o, succ@[t] as int, idx as int) by {
                assert(a[o[idx as int] as int][t] == succ@[t]);
            }
            assert forall|t: int| 0 <= t < succ@.len() implies #[trigger] succ@[t] < o.len() by {
                assert(a[node as int][t] == succ@[t]);
            }
        }
        relax(&mut layers, node, succ, back, Ghost(o), Ghost(idx as int));
        proof {
            assert forall|p: int| 0 <= p < node_count implies #[trigger] layers@[o[p] as int] + p < node_count by {
                if layers@[o[p] as int] != l0[o[p] as int] {
                    assert(before(o, o[p] as int, idx as int));
                    let q = choose|q: int| 0 <= q < idx && #[trigger] o[q] == o[p] as int;
                    assert(o[q] == o[p]);
                    assert(q == p);
                    assert(l0[o[idx as int] as int] + idx < node_count);
                }
            }
            lemma_layers_step(a, o, back@, l0, layers@, idx as int, node_count as nat);
            assert forall|x: int| 0 <= x < node_count && #[trigger] layers@[x] > 0 implies exists|p: int, j: int|
                idx <= p < node_count && 0 <= j < a[o[p] as int].len() && #[trigger] a[o[p] as int][j] == x && !is_back(back@, o[p] as int, x)
                    && layers@[x] == layers@[o[p] as int] + 1 by {
                if layers@[x] != l0[x] {
                    let t = choose|t: int| 0 <= t < succ@.len() && #[trigger] succ@[t] == x && !is_back(back@, node as int, x);
                    assert(a[o[idx as int] as int][t] == x);
                } else {
                    let (p, j) = choose|p: int, j: int|
                        idx + 1 <= p < node_count && 0 <= j < a[o[p] as int].len() && #[trigger] a[o[p] as int][j] == x && !is_back(back@, o[p] as int, x)
                            && l0[x] == l0[o[p] as int] + 1;
                    lemma_not_before(o, p, idx as int);
                    assert(layers@[o[p] as int] == l0[o[p] as int]);
                    assert(a[o[p] as int][j] == x);
                }
            }
        }
    }
    proof {
        lemma_layers_final(a, o, back@, layers@, node_count as nat);
        assert forall|x: int| 0 <= x < layers@.len() && #[trigger] layers@[x] > 0 implies exists|u: int, k: int|
            0 <= u < a.len() && 0 <= k < a[u].len() && #[trigger] a[u][k] == x && !is_back(back@, u, x) && layers@[x] == layers@[u] + 1 by {
            let (p, j) = choose|p: int, j: int|
                0 <= p < node_count && 0 <= j < a[o[p] as int].len() && #[trigger] a[o[p] as int][j] == x && !is_back(back@, o[p] as int, x)
                    && layers@[x] == layers@[o[p] as int] + 1;
            assert(a[o[p] as int][j] == x);
        }
        assert forall|x: int| 0 <= x < node_count implies #[trigger] layers@[x] < node_count || node_count == 0 by {
            assert(at_or_after(o, x, 0));
            let p = choose|p: int| 0 <= p < o.len() && #[trigger] o[p] == x;
            assert(layers@[o[p] as int] + p < node_count);
        }
    }
    layers
}

proof fn lemma_layers_step(
    a: Seq<Seq<usize>>,
    o: Seq<usize>,
    back: Seq<(usize, usize)>,
    l0: Seq<usize>,
    layers: Seq<usize>,
    idx: int,
    n: nat,
)
    requires
        0 <= idx < n,
        a.len() == n,
        adj_ok(a),
        o.len() == n,
        distinct(o),
        l0.len() == n,
        layers.len() == n,
        forall|p: int| 0 <= p < o.len() ==> (#[trigger] o[p]) < n,
        layers[o[idx] as int] == l0[o[idx] as int],
        forall|x: int| 0 <= x < n ==> #[trigger] layers[x] >= l0[x],
        forall|x: int| 0 <= x < n && !before(o, x, idx) ==> #[trigger] layers[x] == l0[x],
        forall|t: int|
            0 <= t < a[o[idx] as int].len() && !is_back(back, o[idx] as int, #[trigger] a[o[idx] as int][t] as int)
                ==> layers[a[o[idx] as int][t] as int] >= layers[o[idx] as int] + 1,
        forall|p: int, j: int|
            idx + 1 <= p < n && 0 <= j < a[o[p] as int].len() && !is_back(back, o[p] as int, #[trigger] a[o[p] as int][j] as int)
                ==> l0[a[o[p] as int][j] as int] >= l0[o[p] as int] + 1,
    ensures
        forall|p: int, j: int|
            idx <= p < n && 0 <= j < a[o[p] as int].len() && !is_back(back, o[p] as int, #[trigger] a[o[p] as int][j] as int)
                ==> layers[a[o[p] as int][j] as int] >= layers[o[p] as int] + 1,
{
    assert forall|p: int, t: int|
        idx <= p < n && 0 <= t < a[o[p] as int].len() && !is_back(back, o[p] as int, #[trigger] a[o[p] as int][t] as int)
            implies layers[a[o[p] as int][t] as int] >= layers[o[p] as int] + 1 by {
        if p > idx {
            lemma_not_before(o, p, idx);
            assert(layers[o[p] as int] == l0[o[p] as int]);
            assert(layers[a[o[p] as int][t] as int] >= l0[a[o[p] as int][t] as int]);
        } else {
            assert(p == idx);
        }
    }
}

proof fn lemma_layers_final(a: Seq<Seq<usize>>, o: Seq<usize>, back: Seq<(usize, usize)>, layers: Seq<usize>, n: nat)
    requires
        a.len() == n,
        o.len() == n,
        layers.len() == n,
        forall|p: int| 0 <= p < o.len() ==> (#[trigger] o[p]) < n,
        forall|x: int| 0 <= x < n ==> at_or_after(o, x, 0),
        forall|p: int, j: int|
            0 <= p < n && 0 <= j < a[o[p] as int].len() && !is_back(back, o[p] as int, #[trigger] a[o[p] as int][j] as int)
                ==> layers[a[o[p] as int][j] as int] >= layers[o[p] as int] + 1,
    ensures
        layers_descend(a, back, layers),
{
    assert forall|u: int, k: int|
        0 <= u < a.len() && 0 <= k < a[u].len() && !is_back(back, u, #[trigger] a[u][k] as int)
            implies layers[a[u][k] as int] >= layers[u] + 1 by {
        assert(at_or_after(o, u, 0));
        let p = choose|p: int| 0 <= p < o.len() && #[trigger] o[p] == u;
        assert(o[p] as int == u);
    }
}

/// A node at position `p` of a distinct list is not before `q <= p`.
proof fn lemma_not_before(o: Seq<usize>, p: int, q: int)
    requires
        distinct(o),
        0 <= q <= p < o.len(),
    ensures
        !before(o, o[p] as int, q),
{
    if before(o, o[p] as int, q) {
        let r = choose|r: int| 0 <= r < q && #[trigger] o[r] == o[p] as int;
        assert(o[r] == o[p]);
    }
}

/// A distinct list of `n` nodes below `n` lists every node below `n`.
proof fn lemma_every_node_listed(o: Seq<usize>, n: nat)
    requires
        o.len() == n,
        distinct(o),
        forall|p: int| 0 <= p < o.len() ==> (#[trigger] o[p]) < n,
        n <= usize::MAX + 1,
    ensures
        forall|x: int| 0 <= x < n ==> at_or_after(o, x, 0),
{
    assert(o.no_duplicates());
    o.unique_seq_to_set();
    let s = o.to_set();
    let full = Set::new(|x: usize| (x as int) < n);
    lemma_range_set_len(n);
    assert(s.subset_of(full)) by {
        assert forall|x: usize| s.contains(x) implies full.contains(x) by {
            let q = choose|q: int| 0 <= q < o.len() && o[q] == x;
            assert(o[q] < n);
        }
    }
    vstd::set_lib::lemma_subset_equality(s, full);
    assert forall|x: int| 0 <= x < n implies at_or_after(o, x, 0) by {
        assert(full.contains(x as usize));
        assert(s.contains(x as usize));
        let q = choose|q: int| 0 <= q < o.len() && o[q] == x as usize;
        assert(o[q] as int == x);
    }
}

/// The pair occurs in `back`.
fn contains_pair(back: &Vec<(usize, usize)>, u: usize, v: usize) -> (r: bool)
    ensures
        r == is_back(back@, u as int, v as int),
{
    let mut k: usize = 0;
    while k < back.len()
        invariant
            k <= back@.len(),
            forall|t: int| 0 <= t < k ==> back@[t] != (u, v),
        decreases back@.len() - k,
    {
        if back[k].0 == u && back[k].1 == v {
            assert(back@[k as int] == (u, v));
            return true;
        }
        k = k + 1;
    }
    false
}


// ---------------------------------------------------------------------
// Sizes and parameters
// ---------------------------------------------------------------------

/// The widest a state box grows before its label wraps: 40% of the
/// canvas width, but never below the minimum state width.
pub open spec fn box_limit(min_w: int, canvas_w: int) -> int {
    let budget = canvas_w * (NODE_WRAP_WIDTH_PCT as int) / 100;
    if budget > min_w { budget } else { min_w }
}

/// A label that, with two cells on each side, is wider than a box `w`
/// wide.
pub open spec fn label_overflows(label: Seq<char>, w: int) -> bool {
    sat_add(chars_width(label) as int, 4) > w
}

/// The lines a state box `w` wide shows: the label as it is when it
/// fits, else the label wrapped greedily to the box interior.
pub open spec fn state_lines(label: Seq<char>, w: int) -> Seq<Seq<char>> {
    if label_overflows(label, w) {
        greedy_wrap(label, if w - 2 > 2 { w - 2 } else { 2 })
    } else {
        seq![label]
    }
}

/// Box size of a state: a label that fits within [`box_limit`] gets the
/// label plus two cells on each side (at least `min_w`) by `base_h`
/// rows; a longer one gets a box [`box_limit`] wide whose label wraps,
/// one more row for each line past the first. An accepting state has
/// `extra_h` more rows for its double border.
pub open spec fn spec_state_size(label: Seq<char>, st: StateType, min_w: int, base_h: int, extra_h: int, canvas_w: int) -> Size {
    let lw = chars_width(label) as int;
    let lim = box_limit(min_w, canvas_w);
    let (w, h) = if label_overflows(label, lim) {
        (lim, sat_add(base_h, sat_sub(state_lines(label, lim).len() as int, 1)))
    } else {
        (if sat_add(lw, 4) > min_w { sat_add(lw, 4) } else { min_w }, base_h)
    };
    Size {
        w: w as usize,
        h: (match st {
            StateType::Simple => h,
            StateType::Accepting => sat_add(h, extra_h),
        }) as usize,
    }
}

/// The lines shown in a state box `w` wide (see [`state_lines`]).
pub fn state_label_lines(label: &str, w: usize) -> (r: Vec<String>)
    ensures
        views(r@) == state_lines(label@, w as int),
{
    let lw = seq_display_width(chars_of(label).as_slice());
    if lw.saturating_add(4) > w {
        let inner = if w > 4 { w - 2 } else { 2 };
        wrap_label(label, inner).lines
    } else {
        let mut r: Vec<String> = Vec::new();
        r.push(string_from_chars(chars_of(label).as_slice()));
        assert(views(r@) =~= seq![label@]);
        r
    }
}

/// The box limit for a canvas `canvas_w` wide (see [`box_limit`]).
fn box_limit_exec(min_w: usize, canvas_w: usize) -> (r: usize)
    ensures
        r == box_limit(min_w as int, canvas_w as int),
{
    assert((canvas_w as u128) * 40 <= u128::MAX) by (nonlinear_arith)
        requires
            canvas_w <= usize::MAX,
            usize::MAX <= u64::MAX,
    ;
    let wide: u128 = (canvas_w as u128) * (NODE_WRAP_WIDTH_PCT as u128);
    let q: u128 = wide / 100;
    assert(q <= canvas_w) by (nonlinear_arith)
        requires
            wide == canvas_w * 40,
            q == wide / 100,
    ;
    let budget = q as usize;
    if budget > min_w {
        budget
    } else {
        min_w
    }
}

/// Box size of a state (see `spec_state_size`).
pub fn state_size(label: &str, st: StateType, min_w: usize, base_h: usize, extra_h: usize, canvas_w: usize) -> (s: Size)
    ensures
        s == spec_state_size(label@, st, min_w as int, base_h as int, extra_h as int, canvas_w as int),
{
    let lw = seq_display_width(chars_of(label).as_slice());
    let lim = box_limit_exec(min_w, canvas_w);
    let (w, h0) = if lw.saturating_add(4) > lim {
        let n = state_label_lines(label, lim).len();
        (lim, base_h.saturating_add(n.saturating_sub(1)))
    } else {
        let w0 = lw.saturating_add(4);
        (if w0 > min_w { w0 } else { min_w }, base_h)
    };
    let h = match st {
        StateType::Simple => h0,
        StateType::Accepting => h0.saturating_add(extra_h),
    };
    Size::new(w, h)
}

/// Spacing and sizing of the layered layout.
pub struct LayoutParams {
    pub gap_x: usize,
    pub gap_y: usize,
    pub left_margin: usize,
    pub top_margin: usize,
    pub min_state_width: usize,
    pub state_height: usize,
    /// Extra rows of an accepting state (its double border).
    pub accepting_extra_height: usize,
}

impl Default for LayoutParams {
    fn default() -> (p: Self)
        ensures
            p.gap_x == 6,
            p.gap_y == 3,
            p.left_margin == 8,
            p.top_margin == 2,
            p.min_state_width == 14,
            p.state_height == 3,
            p.accepting_extra_height == 2,
    {
        LayoutParams {
            gap_x: 6,
            gap_y: 3,
            left_margin: 8,
            top_margin: 2,
            min_state_width: 14,
            state_height: 3,
            accepting_extra_height: 2,
        }
    }
}

/// A placed state.
#[derive(Debug)]
pub struct StateLayout {
    pub id: String,
    pub label: String,
    pub state_type: StateType,
    pub rect: Rect,
}

/// What a placed state holds: id, label, kind and box.
pub open spec fn lay_view(l: StateLayout) -> (Seq<char>, Seq<char>, StateType, Rect) {
    (l.id@, l.label@, l.state_type, l.rect)
}

/// The views of a list of placed states.
pub open spec fn lay_views(s: Seq<StateLayout>) -> Seq<(Seq<char>, Seq<char>, StateType, Rect)> {
    Seq::new(s.len(), |k: int| lay_view(s[k]))
}

/// Box size of state `s` under `p` on a canvas `canvas_w` wide.
pub open spec fn size_of_state(s: StateNode, p: LayoutParams, canvas_w: int) -> Size {
    spec_state_size(
        s.label@,
        s.state_type,
        p.min_state_width as int,
        p.state_height as int,
        p.accepting_extra_height as int,
        canvas_w,
    )
}

// ---------------------------------------------------------------------
// From states and transitions to the graph
// ---------------------------------------------------------------------

/// Index of the last of the first `k` states whose id is `id`.
pub open spec fn last_index(states: Seq<StateNode>, id: Seq<char>, k: int) -> Option<int>
    decreases k,
{
    if k <= 0 {
        None
    } else if states[k - 1].id@ == id {
        Some(k - 1)
    } else {
        last_index(states, id, k - 1)
    }
}

proof fn lemma_last_index_range(states: Seq<StateNode>, id: Seq<char>, k: int)
    ensures
        last_index(states, id, k) matches Some(i) ==> 0 <= i < k,
    decreases k,
{
    if k > 0 {
        lemma_last_index_range(states, id, k - 1);
    }
}

/// Adjacency lists built from the first `k` transitions: for each whose
/// two ends name states (the last state of that id), the target joins
/// the source's list.
pub open spec fn adj_spec(states: Seq<StateNode>, ts: Seq<Transition>, k: int) -> Seq<Seq<usize>>
    decreases k,
{
    if k <= 0 {
        Seq::new(states.len(), |i: int| Seq::<usize>::empty())
    } else {
        let prev = adj_spec(states, ts, k - 1);
        let n = states.len() as int;
        match (last_index(states, ts[k - 1].from@, n), last_index(states, ts[k - 1].to@, n)) {
            (Some(f), Some(g)) => prev.update(f, prev[f].push(g as usize)),
            _ => prev,
        }
    }
}

proof fn lemma_adj_spec_ok(states: Seq<StateNode>, ts: Seq<Transition>, k: int)
    ensures
        adj_spec(states, ts, k).len() == states.len(),
        adj_ok(adj_spec(states, ts, k)),
    decreases k,
{
    if k > 0 {
        lemma_adj_spec_ok(states, ts, k - 1);
        let n = states.len() as int;
        lemma_last_index_range(states, ts[k - 1].from@, n);
        lemma_last_index_range(states, ts[k - 1].to@, n);
        let prev = adj_spec(states, ts, k - 1);
        let cur = adj_spec(states, ts, k);
        assert forall|u: int, j: int| 0 <= u < cur.len() && 0 <= j < cur[u].len() implies #[trigger] cur[u][j] < cur.len() by {
            match (last_index(states, ts[k - 1].from@, n), last_index(states, ts[k - 1].to@, n)) {
                (Some(f), Some(g)) => {
                    if u == f && j == prev[f].len() {
                    } else {
                        assert(cur[u][j] == prev[u][j]);
                    }
                },
                _ => {},
            }
        }
    }
}

/// Index of the last state whose id is `id`.
fn find_state(states: &[StateNode], id: &str) -> (r: Option<usize>)
    ensures
        match r {
            Some(i) => last_index(states@, id@, states@.len() as int) == Some(i as int),
            None => last_index(states@, id@, states@.len() as int) is None,
        },
{
    let target = chars_of(id);
    let mut k: usize = states.len();
    while k > 0
        invariant
            k <= states@.len(),
            target@ == id@,
            last_index(states@, id@, states@.len() as int) == last_index(states@, id@, k as int),
        decreases k,
    {
        let cand = chars_of(states[k - 1].id.as_str());
        if chars_eq(cand.as_slice(), target.as_slice()) {
            return Some(k - 1);
        }
        k = k - 1;
    }
    None
}

/// `v` with `x` appended, as a new list.
pub(crate) fn pushed(v: &Vec<usize>, x: usize) -> (r: Vec<usize>)
    ensures
        r@ == v@.push(x),
{
    let mut r: Vec<usize> = Vec::new();
    let mut i: usize = 0;
    while i < v.len()
        invariant
            i <= v@.len(),
            r@ == v@.subrange(0, i as int),
        decreases v@.len() - i,
    {
        r.push(v[i]);
        i = i + 1;
    }
    r.push(x);
    r
}

/// The adjacency lists of the transition graph (see `adj_spec`).
pub fn build_adjacency(states: &[StateNode], transitions: &[Transition]) -> (adj: Vec<Vec<usize>>)
    ensures
        adj@.len() == states@.len(),
        adj_view(adj@) == adj_spec(states@, transitions@, transitions@.len() as int),
        adj_ok(adj_view(adj@)),
{
    let n = states.len();
    let mut adj: Vec<Vec<usize>> = Vec::new();
    let mut i: usize = 0;
    while i < n
        invariant
            i <= n,
            n == states@.len(),
            adj@.len() == i,
            forall|x: int| 0 <= x < i ==> (#[trigger] adj@[x])@ == Seq::<usize>::empty(),
        decreases n - i,
    {
        adj.push(Vec::new());
        i = i + 1;
    }
    proof {
        assert(adj_view(adj@) =~= adj_spec(states@, transitions@, 0));
    }
    let mut k: usize = 0;
    while k < transitions.len()
        invariant
            k <= transitions@.len(),
            n == states@.len(),
            adj@.len() == n,
            adj_view(adj@) == adj_spec(states@, transitions@, k as int),
        decreases transitions@.len() - k,
    {
        proof {
            lemma_adj_spec_ok(states@, transitions@, k as int);
        }
        let f = find_state(states, transitions[k].from.as_str());
        let g = find_state(states, transitions[k].to.as_str());
        proof {
            lemma_last_index_range(states@, transitions@[k as int].from@, n as int);
            lemma_last_index_range(states@, transitions@[k as int].to@, n as int);
        }
        match (f, g) {
            (Some(from), Some(to)) => {
                let row = pushed(&adj[from], to);
                adj.set(from, row);
            },
            _ => {},
        }
        proof {
            assert(adj_view(adj@) =~= adj_spec(states@, transitions@, k as int + 1));
        }
        k = k + 1;
    }
    proof {
        lemma_adj_spec_ok(states@, transitions@, transitions@.len() as int);
        assert(adj_view(adj@).len() == adj@.len());
    }
    adj
}


// ---------------------------------------------------------------------
// Placement
// ---------------------------------------------------------------------

/// The states among the first `k` that sit on layer `l`, in index order.
pub open spec fn members(layers: Seq<usize>, l: int, k: int) -> Seq<usize>
    decreases k,
{
    if k <= 0 {
        Seq::empty()
    } else if layers[k - 1] as int == l {
        members(layers, l, k - 1).push((k - 1) as usize)
    } else {
        members(layers, l, k - 1)
    }
}

pub(crate) proof fn lemma_members_range(layers: Seq<usize>, l: int, k: int)
    requires
        0 <= k <= layers.len(),
    ensures
        forall|j: int| 0 <= j < members(layers, l, k).len() ==> (#[trigger] members(layers, l, k)[j]) < k,
        members(layers, l, k).len() <= k,
    decreases k,
{
    if k > 0 {
        lemma_members_range(layers, l, k - 1);
    }
}

/// Where state `i` sits among the members of its layer: its rank is
/// the number of members before it.
pub(crate) proof fn lemma_members_rank(layers: Seq<usize>, l: int, k: int)
    requires
        0 <= k <= layers.len(),
        layers.len() <= usize::MAX,
    ensures
        forall|j: int| 0 <= j < members(layers, l, k).len() ==> {
            &&& layers[#[trigger] members(layers, l, k)[j] as int] as int == l
            &&& members(layers, l, members(layers, l, k)[j] as int).len() == j
        },
        forall|i: int| 0 <= i < k && layers[i] as int == l ==> {
            &&& #[trigger] members(layers, l, i).len() < members(layers, l, k).len()
            &&& members(layers, l, k)[members(layers, l, i).len() as int] == i
        },
    decreases k,
{
    if k > 0 {
        lemma_members_rank(layers, l, k - 1);
        let prev = members(layers, l, k - 1);
        let cur = members(layers, l, k);
        if layers[k - 1] as int == l {
            assert(cur == prev.push((k - 1) as usize));
            assert forall|j: int| 0 <= j < cur.len() implies {
                &&& layers[#[trigger] cur[j] as int] as int == l
                &&& members(layers, l, cur[j] as int).len() == j
            } by {
                if j < prev.len() {
                    assert(cur[j] == prev[j]);
                } else {
                    assert(cur[j] == (k - 1) as usize);
                }
            }
            assert forall|i: int| 0 <= i < k && layers[i] as int == l implies {
                &&& #[trigger] members(layers, l, i).len() < cur.len()
                &&& cur[members(layers, l, i).len() as int] == i
            } by {
                if i < k - 1 {
                    assert(cur[members(layers, l, i).len() as int] == prev[members(layers, l, i).len() as int]);
                }
            }
        }
    }
}

proof fn lemma_layer_row_len(
    states: Seq<StateNode>,
    sizes: Seq<Size>,
    ms: Seq<usize>,
    x0: int,
    y: int,
    gap: int,
    k: int,
)
    requires
        k >= 0,
    ensures
        layer_row(states, sizes, ms, x0, y, gap, k).len() == k,
    decreases k,
{
    if k > 0 {
        lemma_layer_row_len(states, sizes, ms, x0, y, gap, k - 1);
    }
}

/// Index, in the layer-by-layer placement, of state `i`: the layouts of
/// the layers above its own, then its rank in its layer.
pub open spec fn layout_slot(
    states: Seq<StateNode>,
    sizes: Seq<Size>,
    layers: Seq<usize>,
    canvas_w: int,
    dx: int,
    p: LayoutParams,
    i: int,
) -> int {
    (placed(states, sizes, layers, canvas_w, dx, p, layers[i] as int).0.len() + members(layers, layers[i] as int, i).len()) as int
}

/// The placed states in declaration order: entry `i` is the layout of
/// state `i`.
pub open spec fn declared(
    states: Seq<StateNode>,
    sizes: Seq<Size>,
    layers: Seq<usize>,
    canvas_w: int,
    dx: int,
    p: LayoutParams,
) -> Seq<(Seq<char>, Seq<char>, StateType, Rect)> {
    let all = placed(states, sizes, layers, canvas_w, dx, p, states.len() as int).0;
    Seq::new(states.len(), |i: int| all[layout_slot(states, sizes, layers, canvas_w, dx, p, i)])
}

/// Saturating sum of the widths of the listed states.
pub open spec fn sum_w(sizes: Seq<Size>, ms: Seq<usize>) -> int
    decreases ms.len(),
{
    if ms.len() == 0 {
        0
    } else {
        sat_add(sum_w(sizes, ms.drop_last()), sizes[ms.last() as int].w as int)
    }
}

/// Tallest of the listed states (0 for none).
pub open spec fn max_h(sizes: Seq<Size>, ms: Seq<usize>) -> int
    decreases ms.len(),
{
    if ms.len() == 0 {
        0
    } else {
        let m = max_h(sizes, ms.drop_last());
        let h = sizes[ms.last() as int].h as int;
        if h > m {
            h
        } else {
            m
        }
    }
}

/// Left edge of the `k`-th listed state of a row starting at `x0`.
pub open spec fn x_at(sizes: Seq<Size>, ms: Seq<usize>, x0: int, gap: int, k: int) -> int
    decreases k,
{
    if k <= 0 {
        x0
    } else {
        sat_add(x_at(sizes, ms, x0, gap, k - 1), sat_add(sizes[ms[k - 1] as int].w as int, gap))
    }
}

/// The first `k` states of a row, placed left to right from `x0` at row
/// `y`.
pub open spec fn layer_row(
    states: Seq<StateNode>,
    sizes: Seq<Size>,
    ms: Seq<usize>,
    x0: int,
    y: int,
    gap: int,
    k: int,
) -> Seq<(Seq<char>, Seq<char>, StateType, Rect)>
    decreases k,
{
    if k <= 0 {
        Seq::empty()
    } else {
        let i = ms[k - 1] as int;
        layer_row(states, sizes, ms, x0, y, gap, k - 1).push(
            (
                states[i].id@,
                states[i].label@,
                states[i].state_type,
                Rect { x: x_at(sizes, ms, x0, gap, k - 1) as usize, y: y as usize, w: sizes[i].w, h: sizes[i].h },
            ),
        )
    }
}

/// Width of a row: the states' widths and a gap between neighbours.
pub open spec fn row_width(sizes: Seq<Size>, ms: Seq<usize>, gap: int) -> int {
    sat_add(sum_w(sizes, ms), sat_mul(ms.len() - 1, gap))
}

/// The placed states of layers `0..l` and the top row of the next
/// non-empty layer. Each non-empty layer is centered in `canvas_w`
/// (shifted right by `dx`) and the next starts `gap_y` rows below its
/// tallest state.
pub open spec fn placed(
    states: Seq<StateNode>,
    sizes: Seq<Size>,
    layers: Seq<usize>,
    canvas_w: int,
    dx: int,
    p: LayoutParams,
    l: int,
) -> (Seq<(Seq<char>, Seq<char>, StateType, Rect)>, int)
    decreases l,
{
    if l <= 0 {
        (Seq::empty(), p.top_margin as int)
    } else {
        let prev = placed(states, sizes, layers, canvas_w, dx, p, l - 1);
        let ms = members(layers, l - 1, layers.len() as int);
        if ms.len() == 0 {
            prev
        } else {
            let total = row_width(sizes, ms, p.gap_x as int);
            let x0 = sat_sub(canvas_w, total) / 2 + dx;
            (
                prev.0 + layer_row(states, sizes, ms, x0, prev.1, p.gap_x as int, ms.len() as int),
                sat_add(prev.1, sat_add(max_h(sizes, ms), p.gap_y as int)),
            )
        }
    }
}

/// Box sizes of all states.
pub open spec fn sizes_of(states: Seq<StateNode>, p: LayoutParams, canvas_w: int) -> Seq<Size> {
    Seq::new(states.len(), |i: int| size_of_state(states[i], p, canvas_w))
}

/// Saturating sum of the widths of the listed states.
pub(crate) fn sum_widths(sizes: &Vec<Size>, ms: &Vec<usize>) -> (r: usize)
    requires
        forall|j: int| 0 <= j < ms@.len() ==> (#[trigger] ms@[j]) < sizes@.len(),
    ensures
        r == sum_w(sizes@, ms@),
{
    let mut acc: usize = 0;
    let mut j: usize = 0;
    while j < ms.len()
        invariant
            j <= ms@.len(),
            forall|t: int| 0 <= t < ms@.len() ==> (#[trigger] ms@[t]) < sizes@.len(),
            acc == sum_w(sizes@, ms@.subrange(0, j as int)),
        decreases ms@.len() - j,
    {
        proof {
            assert(ms@.subrange(0, j as int + 1).drop_last() =~= ms@.subrange(0, j as int));
        }
        acc = acc.saturating_add(sizes[ms[j]].w);
        j = j + 1;
    }
    proof {
        assert(ms@.subrange(0, j as int) =~= ms@);
    }
    acc
}

/// Tallest of the listed states.
pub(crate) fn max_height(sizes: &Vec<Size>, ms: &Vec<usize>) -> (r: usize)
    requires
        forall|j: int| 0 <= j < ms@.len() ==> (#[trigger] ms@[j]) < sizes@.len(),
    ensures
        r == max_h(sizes@, ms@),
{
    let mut acc: usize = 0;
    let mut j: usize = 0;
    while j < ms.len()
        invariant
            j <= ms@.len(),
            forall|t: int| 0 <= t < ms@.len() ==> (#[trigger] ms@[t]) < sizes@.len(),
            acc == max_h(sizes@, ms@.subrange(0, j as int)),
        decreases ms@.len() - j,
    {
        proof {
            assert(ms@.subrange(0, j as int + 1).drop_last() =~= ms@.subrange(0, j as int));
        }
        let h = sizes[ms[j]].h;
        if h > acc {
            acc = h;
        }
        j = j + 1;
    }
    proof {
        assert(ms@.subrange(0, j as int) =~= ms@);
    }
    acc
}

/// A copy of `s`.
fn copy_string(s: &String) -> (r: String)
    ensures
        r@ == s@,
{
    string_from_chars(chars_of(s.as_str()).as_slice())
}

/// Append the states of one row, left to right from `x0` at row `y`.
fn place_row(
    out: &mut Vec<StateLayout>,
    states: &[StateNode],
    sizes: &Vec<Size>,
    ms: &Vec<usize>,
    x0: usize,
    y: usize,
    gap: usize,
)
    requires
        sizes@.len() == states@.len(),
        forall|j: int| 0 <= j < ms@.len() ==> (#[trigger] ms@[j]) < sizes@.len(),
    ensures
        lay_views(final(out)@) == lay_views(old(out)@) + layer_row(
            states@,
            sizes@,
            ms@,
            x0 as int,
            y as int,
            gap as int,
            ms@.len() as int,
        ),
{
    let ghost o0 = lay_views(out@);
    let mut x: usize = x0;
    let mut j: usize = 0;
    while j < ms.len()
        invariant
            j <= ms@.len(),
            sizes@.len() == states@.len(),
            forall|t: int| 0 <= t < ms@.len() ==> (#[trigger] ms@[t]) < sizes@.len(),
            x == x_at(sizes@, ms@, x0 as int, gap as int, j as int),
            lay_views(out@) == o0 + layer_row(states@, sizes@, ms@, x0 as int, y as int, gap as int, j as int),
        decreases ms@.len() - j,
    {
        let idx = ms[j];
        let size = sizes[idx];
        let ghost before_push = out@;
        out.push(StateLayout {
            id: copy_string(&states[idx].id),
            label: copy_string(&states[idx].label),
            state_type: states[idx].state_type,
            rect: Rect::new(x, y, size.w, size.h),
        });
        proof {
            assert(out@ == before_push.push(out@.last()));
            assert(lay_views(out@) =~= lay_views(before_push).push(lay_view(out@.last())));
            assert(lay_views(out@) =~= o0 + layer_row(states@, sizes@, ms@, x0 as int, y as int, gap as int, j as int + 1));
        }
        x = x.saturating_add(size.w.saturating_add(gap));
        j = j + 1;
    }
}


/// The states of each layer `0..n`, in index order.
pub(crate) fn group_layers(layers: &Vec<usize>, n: usize) -> (g: Vec<Vec<usize>>)
    requires
        layers@.len() == n,
        forall|x: int| 0 <= x < n ==> (#[trigger] layers@[x]) < n,
    ensures
        g@.len() == n,
        forall|l: int| 0 <= l < n ==> (#[trigger] g@[l])@ == members(layers@, l, n as int),
{
    let mut g: Vec<Vec<usize>> = Vec::new();
    let mut k: usize = 0;
    while k < n
        invariant
            k <= n,
            g@.len() == k,
            forall|l: int| 0 <= l < k ==> (#[trigger] g@[l])@ == Seq::<usize>::empty(),
        decreases n - k,
    {
        g.push(Vec::new());
        k = k + 1;
    }
    let mut i: usize = 0;
    while i < n
        invariant
            i <= n,
            layers@.len() == n,
            forall|x: int| 0 <= x < n ==> (#[trigger] layers@[x]) < n,
            g@.len() == n,
            forall|l: int| 0 <= l < n ==> (#[trigger] g@[l])@ == members(layers@, l, i as int),
        decreases n - i,
    {
        let l = layers[i];
        let row = pushed(&g[l], i);
        g.set(l, row);
        proof {
            assert forall|m: int| 0 <= m < n implies (#[trigger] g@[m])@ == members(layers@, m, i as int + 1) by {
                assert(members(layers@, m, i as int + 1) == (if layers@[i as int] as int == m {
                    members(layers@, m, i as int).push(i)
                } else {
                    members(layers@, m, i as int)
                }));
            }
        }
        i = i + 1;
    }
    g
}

/// `order`, `back` and `layers` are what the search and the layering
/// give for the graph `adj` of `n` nodes: `order` and `back` are the
/// post-order and back edges of the depth-first search from every node
/// in index order ([`dfs_roots`]), so `order` lists every node once,
/// every edge not in `back` leads to a node earlier in `order`, and
/// every pair of `back` is an edge; every layer is below `n`, each edge
/// not in `back` goes at least one layer down, and each node below the
/// top layer sits just one layer below a forward predecessor (its
/// layer is its longest forward path).
pub open spec fn is_layering(
    adj: Seq<Seq<usize>>,
    order: Seq<usize>,
    back: Seq<(usize, usize)>,
    layers: Seq<usize>,
    n: nat,
) -> bool {
    &&& order == dfs_roots(adj, n as int).1
    &&& back == dfs_roots(adj, n as int).2
    &&& order.len() == n
    &&& distinct(order)
    &&& forall|p: int| 0 <= p < order.len() ==> (#[trigger] order[p]) < n
    &&& postorder_ok(adj, order, back)
    &&& back_ok(adj, back)
    &&& layers.len() == n
    &&& forall|x: int| 0 <= x < n ==> (#[trigger] layers[x]) < n
    &&& layers_descend(adj, back, layers)
    &&& layers_tight(adj, back, layers)
}

/// `out` is a layout of the diagram: none for no states; otherwise one
/// layout per state, in declaration order, placed layer by layer with
/// each layer centered (shifted 5 columns right when there is an initial
/// state), for some layering of the transition graph.
pub open spec fn is_state_layout(
    states: Seq<StateNode>,
    ts: Seq<Transition>,
    has_initial: bool,
    canvas_w: int,
    p: LayoutParams,
    out: Seq<(Seq<char>, Seq<char>, StateType, Rect)>,
) -> bool {
    if states.len() == 0 {
        out.len() == 0
    } else {
        exists|order: Seq<usize>, back: Seq<(usize, usize)>, layers: Seq<usize>|
            #[trigger] is_layering(adj_spec(states, ts, ts.len() as int), order, back, layers, states.len())
                && out == declared(
                states,
                sizes_of(states, p, canvas_w),
                layers,
                canvas_w,
                if has_initial { 5 } else { 0 },
                p,
            )
    }
}

/// Lay the states out in layers (see `is_state_layout`).
pub fn layout_states(
    states: &[StateNode],
    transitions: &[Transition],
    initial: Option<&str>,
    canvas_width: usize,
    params: &LayoutParams,
) -> (r: Vec<StateLayout>)
    ensures
        is_state_layout(states@, transitions@, initial is Some, canvas_width as int, *params, lay_views(r@)),
{
    let n = states.len();
    if n == 0 {
        let r: Vec<StateLayout> = Vec::new();
        proof {
            assert(lay_views(r@).len() == 0);
        }
        return r;
    }
    let adj = build_adjacency(states, transitions);
    let (order, back) = detect_back_edges(n, &adj);
    let layers = assign_layers(n, &adj, &order, &back);
    let groups = group_layers(&layers, n);
    let mut sizes: Vec<Size> = Vec::new();
    let mut i: usize = 0;
    while i < n
        invariant
            i <= n,
            n == states@.len(),
            sizes@.len() == i,
            forall|j: int| 0 <= j < i ==> (#[trigger] sizes@[j]) == size_of_state(states@[j], *params, canvas_width as int),
        decreases n - i,
    {
        sizes.push(
            state_size(
                states[i].label.as_str(),
                states[i].state_type,
                params.min_state_width,
                params.state_height,
                params.accepting_extra_height,
                canvas_width,
            ),
        );
        i = i + 1;
    }
    let ghost sz = sizes_of(states@, *params, canvas_width as int);
    proof {
        assert(sizes@ =~= sz);
    }
    let dx: usize = if initial.is_some() { 5 } else { 0 };
    let mut slot: Vec<usize> = Vec::new();
    let mut i: usize = 0;
    while i < n
        invariant
            i <= n,
            slot@.len() == i,
        decreases n - i,
    {
        slot.push(0);
        i = i + 1;
    }
    let mut out: Vec<StateLayout> = Vec::new();
    let mut y: usize = params.top_margin;
    let mut l: usize = 0;
    while l < n
        invariant
            slot@.len() == n,
            forall|x: int| 0 <= x < n ==> (#[trigger] layers@[x]) < n,
            forall|t: int| 0 <= t < n && layers@[t] < l ==> {
                &&& #[trigger] slot@[t] as int == layout_slot(states@, sz, layers@, canvas_width as int, dx as int, *params, t)
                &&& slot@[t] < out@.len()
            },
            l <= n,
            n == states@.len(),
            sizes@ == sz,
            sz.len() == n,
            dx <= 5,
            layers@.len() == n,
            groups@.len() == n,
            forall|m: int| 0 <= m < n ==> (#[trigger] groups@[m])@ == members(layers@, m, n as int),
            (lay_views(out@), y as int) == placed(states@, sz, layers@, canvas_width as int, dx as int, *params, l as int),
        decreases n - l,
    {
        let ms = &groups[l];
        proof {
            lemma_members_range(layers@, l as int, n as int);
        }
        proof {
            lemma_members_rank(layers@, l as int, n as int);
        }
        if ms.len() > 0 {
            let base = out.len();
            let ghost slot0 = slot@;
            let ghost out0 = out@;
            let mh = max_height(&sizes, ms);
            let sw = sum_widths(&sizes, ms);
            let total = sw.saturating_add(mul_sat(ms.len() - 1, params.gap_x));
            let start_x = canvas_width.saturating_sub(total) / 2;
            place_row(&mut out, states, &sizes, ms, start_x + dx, y, params.gap_x);
            proof {
                lemma_layer_row_len(states@, sizes@, ms@, (start_x + dx) as int, y as int, params.gap_x as int, ms@.len() as int);
                assert(lay_views(out@).len() == out@.len());
                assert(lay_views(out0).len() == out0.len());
            }
            let end = out.len();
            let mut j: usize = 0;
            while j < ms.len()
                invariant
                    j <= ms@.len(),
                    ms@ == members(layers@, l as int, n as int),
                    slot@.len() == n,
                    layers@.len() == n,
                    slot0.len() == n,
                    end == base + ms@.len(),
                    forall|t: int| 0 <= t < ms@.len() ==> (#[trigger] ms@[t]) < n,
                    forall|t: int| 0 <= t < ms@.len() ==> {
                        &&& layers@[#[trigger] ms@[t] as int] as int == l
                        &&& members(layers@, l as int, ms@[t] as int).len() == t
                    },
                    forall|t: int| 0 <= t < n && layers@[t] as int == l ==> {
                        &&& #[trigger] members(layers@, l as int, t).len() < ms@.len()
                        &&& ms@[members(layers@, l as int, t).len() as int] == t
                    },
                    forall|t: int| 0 <= t < n && layers@[t] as int != l ==> #[trigger] slot@[t] == slot0[t],
                    forall|t: int| 0 <= t < n && layers@[t] as int == l && members(layers@, l as int, t).len() < j ==> #[trigger] slot@[t] as int == base + members(layers@, l as int, t).len(),
                decreases ms@.len() - j,
            {
                let s_idx = ms[j];
                slot.set(s_idx, base + j);
                j = j + 1;
            }
            y = y.saturating_add(mh.saturating_add(params.gap_y));
        }
        l = l + 1;
    }
    let mut r: Vec<StateLayout> = Vec::new();
    let mut k: usize = 0;
    while k < n
        invariant
            k <= n,
            n == states@.len(),
            slot@.len() == n,
            layers@.len() == n,
            forall|x: int| 0 <= x < n ==> (#[trigger] layers@[x]) < n,
            forall|t: int| 0 <= t < n && layers@[t] < n ==> {
                &&& #[trigger] slot@[t] as int == layout_slot(states@, sz, layers@, canvas_width as int, dx as int, *params, t)
                &&& slot@[t] < out@.len()
            },
            r@.len() == k,
            forall|t: int| 0 <= t < k ==> lay_view(#[trigger] r@[t]) == lay_views(out@)[slot@[t] as int],
        decreases n - k,
    {
        let e = &out[slot[k]];
        r.push(StateLayout { id: copy_string(&e.id), label: copy_string(&e.label), state_type: e.state_type, rect: e.rect });
        k = k + 1;
    }
    proof {
        assert(is_layering(adj_spec(states@, transitions@, transitions@.len() as int), order@, back@, layers@, n as nat));
        assert(lay_views(r@) =~= declared(states@, sz, layers@, canvas_width as int, dx as int, *params));
    }
    r
}

} // verus!
