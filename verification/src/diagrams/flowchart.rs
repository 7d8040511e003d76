//! Flowcharts: boxes and diamonds joined by orthogonal connectors.
//!
//! Automatic layout stacks the nodes in layers (longest path over the
//! edges that do not close a cycle) and centers each layer; the gap
//! below a layer grows to hold the labels of the connectors leaving it.
//! Forward edges run top to bottom; back edges, same-layer edges and
//! forward edges with no clean corridor take a rail right of every node.
//! Sums that would pass `usize::MAX` saturate.

use vstd::prelude::*;
use crate::canvas::{blank_view, Canvas, CanvasView, Layer};
use crate::diagrams::arrow::{sat_add, wraps_label};
use crate::diagrams::flowchart_shape::{
    diamond_rows, draw_diamond, node_dims, node_wrap_width, rect_label_wraps, spec_node_dims,
};
pub use crate::diagrams::flowchart_shape::NodeShape;
use crate::diagrams::gantt::wrap_entry;
use crate::diagrams::state::layout::{
    adj_ok, adj_view, assign_layers, detect_back_edges, group_layers, is_layering, lemma_members_range, max_h,
    max_height, members, pushed, sum_w, sum_widths, x_at,
};
use crate::diagrams::table::{imax, imin, mul_sat, sat_mul};
use crate::error::{FigoError, Result};
use crate::geom::{Rect, Size};
use crate::style::{spec_glyphs, BorderStyle, Charset, LineStyle};
use crate::layout::routing::{dist, sat_sub, small};
use crate::diagrams::flowchart_riding::{
    place_riding_label, ride_cols, spec_place, PlacedRider, RequestSpec, RidingPlacement, RidingRequest,
};
use crate::geom::Anchor;
use crate::layout::connector::{
    connector_small, connector_view, label_avail as conn_label_avail, label_chars, pair_dir, rail_avail, rect_small,
    side_route_view, snapped, spec_compute_path, spec_glyph_for, Connector,
};
use crate::layout::riding::{
    spec_corridor_label_avail, spec_corridor_label_block_top, RidingLabel,
};
use crate::layout::routing::max_right;
use crate::layout::side_route::spec_forward_edge_side_routed;
use crate::text::{chars_eq, views, widest};
use crate::width::{chars_of, chars_width, seq_display_width, string_from_chars};

verus! {

/// A node: its id, label, shape and, for manual layout, its position.
#[derive(Debug, Clone)]
pub struct FlowNode {
    pub id: String,
    pub label: String,
    pub shape: NodeShape,
    pub position: Option<(usize, usize)>,
}

/// A connection between two nodes by id, with an optional label.
#[derive(Debug, Clone)]
pub struct FlowConnection {
    pub from: String,
    pub to: String,
    pub label: Option<String>,
}

/// Layout mode.
#[derive(Debug, Clone, Copy, PartialEq, Eq, Structural)]
pub enum Layout {
    /// Layered layout.
    Auto,
    /// Positions given by the nodes.
    Manual,
}

/// Builder for flowcharts.
pub struct Flowchart {
    width: usize,
    charset: crate::style::Charset,
    nodes: Vec<FlowNode>,
    connections: Vec<FlowConnection>,
    layout: Layout,
    color: bool,
}

/// A node's texts.
pub struct NodeSpec {
    pub id: Seq<char>,
    pub label: Seq<char>,
    pub shape: NodeShape,
    pub position: Option<(usize, usize)>,
}

/// A connection's texts.
pub struct ConnSpec {
    pub from: Seq<char>,
    pub to: Seq<char>,
    pub label: Option<Seq<char>>,
}

/// The settings and contents of a flowchart.
pub struct FlowSpec {
    pub width: usize,
    pub charset: crate::style::Charset,
    pub nodes: Seq<NodeSpec>,
    pub conns: Seq<ConnSpec>,
    pub layout: Layout,
    pub color: bool,
}

pub open spec fn node_spec(n: FlowNode) -> NodeSpec {
    NodeSpec { id: n.id@, label: n.label@, shape: n.shape, position: n.position }
}

pub open spec fn nodes_spec(ns: Seq<FlowNode>) -> Seq<NodeSpec> {
    Seq::new(ns.len(), |i: int| node_spec(ns[i]))
}

pub open spec fn opt_text(l: Option<String>) -> Option<Seq<char>> {
    match l {
        Some(s) => Some(s@),
        None => None,
    }
}

pub open spec fn conn_spec(c: FlowConnection) -> ConnSpec {
    ConnSpec { from: c.from@, to: c.to@, label: opt_text(c.label) }
}

pub open spec fn conns_spec(cs: Seq<FlowConnection>) -> Seq<ConnSpec> {
    Seq::new(cs.len(), |i: int| conn_spec(cs[i]))
}

impl View for Flowchart {
    type V = FlowSpec;

    closed spec fn view(&self) -> FlowSpec {
        FlowSpec {
            width: self.width,
            charset: self.charset,
            nodes: nodes_spec(self.nodes@),
            conns: conns_spec(self.connections@),
            layout: self.layout,
            color: self.color,
        }
    }
}

/// An owned copy of `s`.
fn owned(s: &str) -> (r: String)
    ensures
        r@ == s@,
{
    string_from_chars(chars_of(s).as_slice())
}

impl Flowchart {
    /// A flowchart `width` columns wide with automatic layout.
    pub fn new(width: usize, charset: crate::style::Charset) -> (r: Self)
        ensures
            r@ == (FlowSpec {
                width,
                charset,
                nodes: Seq::empty(),
                conns: Seq::empty(),
                layout: Layout::Auto,
                color: false,
            }),
    {
        let r = Flowchart {
            width,
            charset,
            nodes: Vec::new(),
            connections: Vec::new(),
            layout: Layout::Auto,
            color: false,
        };
        assert(nodes_spec(r.nodes@) =~= Seq::empty());
        assert(conns_spec(r.connections@) =~= Seq::empty());
        r
    }

    /// Add a node.
    pub fn add_node(self, node: FlowNode) -> (r: Self)
        ensures
            r@ == (FlowSpec { nodes: self@.nodes.push(node_spec(node)), ..self@ }),
    {
        let mut s = self;
        let ghost n0 = s.nodes@;
        s.nodes.push(node);
        assert(nodes_spec(s.nodes@) =~= nodes_spec(n0).push(node_spec(node)));
        s
    }

    /// Connect two nodes by id.
    pub fn connect(self, from: &str, to: &str, label: Option<&str>) -> (r: Self)
        ensures
            r@ == (FlowSpec {
                conns: self@.conns.push(
                    ConnSpec {
                        from: from@,
                        to: to@,
                        label: match label {
                            Some(l) => Some(l@),
                            None => None,
                        },
                    },
                ),
                ..self@
            }),
    {
        let mut s = self;
        let ghost c0 = s.connections@;
        let l = match label {
            Some(t) => Some(owned(t)),
            None => None,
        };
        let c = FlowConnection { from: owned(from), to: owned(to), label: l };
        s.connections.push(c);
        assert(conns_spec(s.connections@) =~= conns_spec(c0).push(conn_spec(c)));
        s
    }

    /// Set the layout mode.
    pub fn layout(self, layout: Layout) -> (r: Self)
        ensures
            r@ == (FlowSpec { layout, ..self@ }),
    {
        Flowchart { layout, ..self }
    }

    /// Enable or disable color output.
    pub fn color(self, enabled: bool) -> (r: Self)
        ensures
            r@ == (FlowSpec { color: enabled, ..self@ }),
    {
        Flowchart { color: enabled, ..self }
    }
}

// ---------------------------------------------------------------------
// The graph
// ---------------------------------------------------------------------

/// Index of the last of the first `k` nodes with id `id`.
pub open spec fn node_index(ns: Seq<NodeSpec>, id: Seq<char>, k: int) -> Option<int>
    decreases k,
{
    if k <= 0 {
        None
    } else if ns[k - 1].id == id {
        Some(k - 1)
    } else {
        node_index(ns, id, k - 1)
    }
}

proof fn lemma_node_index_range(ns: Seq<NodeSpec>, id: Seq<char>, k: int)
    ensures
        node_index(ns, id, k) matches Some(i) ==> 0 <= i < k,
    decreases k,
{
    if k > 0 {
        lemma_node_index_range(ns, id, k - 1);
    }
}

/// The two nodes connection `k` joins, when both ids name a node.
pub open spec fn conn_ends(g: FlowSpec, k: int) -> Option<(int, int)> {
    let n = g.nodes.len() as int;
    match (node_index(g.nodes, g.conns[k].from, n), node_index(g.nodes, g.conns[k].to, n)) {
        (Some(f), Some(t)) => Some((f, t)),
        _ => None,
    }
}

/// Adjacency lists from the first `k` connections.
pub open spec fn flow_adj(g: FlowSpec, k: int) -> Seq<Seq<usize>>
    decreases k,
{
    if k <= 0 {
        Seq::new(g.nodes.len(), |i: int| Seq::<usize>::empty())
    } else {
        let prev = flow_adj(g, k - 1);
        match conn_ends(g, k - 1) {
            Some((f, t)) => prev.update(f, prev[f].push(t as usize)),
            None => prev,
        }
    }
}

proof fn lemma_flow_adj_ok(g: FlowSpec, k: int)
    requires
        0 <= k <= g.conns.len(),
    ensures
        flow_adj(g, k).len() == g.nodes.len(),
        adj_ok(flow_adj(g, k)),
    decreases k,
{
    if k > 0 {
        lemma_flow_adj_ok(g, k - 1);
        let n = g.nodes.len() as int;
        lemma_node_index_range(g.nodes, g.conns[k - 1].from, n);
        lemma_node_index_range(g.nodes, g.conns[k - 1].to, n);
        let prev = flow_adj(g, k - 1);
        let cur = flow_adj(g, k);
        assert forall|u: int, j: int| 0 <= u < cur.len() && 0 <= j < cur[u].len() implies #[trigger] cur[u][j] < cur.len() by {
            match conn_ends(g, k - 1) {
                Some((f, t)) => {
                    if !(u == f && j == prev[f].len()) {
                        assert(cur[u][j] == prev[u][j]);
                    }
                },
                None => {},
            }
        }
    }
}

impl Flowchart {
    /// Index of the last node with id `id`.
    fn find_node(&self, id: &str) -> (r: Option<usize>)
        ensures
            match r {
                Some(i) => node_index(self@.nodes, id@, self@.nodes.len() as int) == Some(i as int),
                None => node_index(self@.nodes, id@, self@.nodes.len() as int) is None,
            },
    {
        let ghost ns = self@.nodes;
        let target = chars_of(id);
        let mut k: usize = self.nodes.len();
        while k > 0
            invariant
                ns == self@.nodes,
                ns.len() == self.nodes@.len(),
                k <= ns.len(),
                target@ == id@,
                node_index(ns, id@, ns.len() as int) == node_index(ns, id@, k as int),
            decreases k,
        {
            let cand = chars_of(self.nodes[k - 1].id.as_str());
            proof {
                assert(ns[k - 1] == node_spec(self.nodes@[k - 1]));
            }
            if chars_eq(cand.as_slice(), target.as_slice()) {
                return Some(k - 1);
            }
            k = k - 1;
        }
        None
    }

    /// The two nodes connection `k` joins.
    fn ends_of(&self, k: usize) -> (r: Option<(usize, usize)>)
        requires
            k < self@.conns.len(),
        ensures
            match conn_ends(self@, k as int) {
                Some((f, t)) => (r matches Some((a, b)) && a as int == f && b as int == t),
                None => r is None,
            },
            r matches Some((f, t)) ==> f < self@.nodes.len() && t < self@.nodes.len(),
    {
        let ghost g = self@;
        proof {
            assert(g.conns[k as int] == conn_spec(self.connections@[k as int]));
            lemma_node_index_range(g.nodes, g.conns[k as int].from, g.nodes.len() as int);
            lemma_node_index_range(g.nodes, g.conns[k as int].to, g.nodes.len() as int);
        }
        let c = &self.connections[k];
        match (self.find_node(c.from.as_str()), self.find_node(c.to.as_str())) {
            (Some(f), Some(t)) => Some((f, t)),
            _ => None,
        }
    }

    /// Adjacency lists by node index (see `flow_adj`).
    fn build_adjacency(&self) -> (adj: Vec<Vec<usize>>)
        ensures
            adj@.len() == self@.nodes.len(),
            adj_view(adj@) == flow_adj(self@, self@.conns.len() as int),
            adj_ok(adj_view(adj@)),
    {
        let ghost g = self@;
        let n = self.nodes.len();
        assert(n == g.nodes.len());
        let mut adj: Vec<Vec<usize>> = Vec::new();
        let mut i: usize = 0;
        while i < n
            invariant
                i <= n,
                adj@.len() == i,
                forall|x: int| 0 <= x < i ==> (#[trigger] adj@[x])@ == Seq::<usize>::empty(),
            decreases n - i,
        {
            adj.push(Vec::new());
            i = i + 1;
        }
        proof {
            assert(adj_view(adj@) =~= flow_adj(g, 0));
        }
        let mut k: usize = 0;
        while k < self.connections.len()
            invariant
                g == self@,
                g.conns.len() == self.connections@.len(),
                k <= g.conns.len(),
                n == g.nodes.len(),
                adj@.len() == n,
                adj_view(adj@) == flow_adj(g, k as int),
            decreases g.conns.len() - k,
        {
            let ghost before = adj@;
            match self.ends_of(k) {
                Some((from, to)) => {
                    assert(conn_ends(g, k as int) == Some((from as int, to as int)));
                    let row = pushed(&adj[from], to);
                    adj.set(from, row);
                    assert(adj_view(adj@) =~= adj_view(before).update(from as int, adj_view(before)[from as int].push(to)));
                },
                None => {
                    assert(conn_ends(g, k as int) is None);
                },
            }
            proof {
                assert(adj_view(adj@) =~= flow_adj(g, k as int + 1));
            }
            k = k + 1;
        }
        proof {
            lemma_flow_adj_ok(g, g.conns.len() as int);
        }
        adj
    }
}


// ---------------------------------------------------------------------
// Layered positions
// ---------------------------------------------------------------------

/// The non-empty layers among layers `0..l`, each listing its nodes in
/// index order.
pub open spec fn layer_rows(layers: Seq<usize>, l: int) -> Seq<Seq<usize>>
    decreases l,
{
    if l <= 0 {
        Seq::empty()
    } else {
        let ms = members(layers, l - 1, layers.len() as int);
        layer_rows(layers, l - 1) + (if ms.len() > 0 {
            seq![ms]
        } else {
            Seq::empty()
        })
    }
}

/// Gap between neighbours `left` and `right` after the first `k`
/// connections: a labelled connection between them widens it to the
/// label plus four cells (at most half the width).
pub open spec fn pair_gap(g: FlowSpec, left: int, right: int, gap: int, k: int) -> int
    decreases k,
{
    if k <= 0 {
        gap
    } else {
        let prev = pair_gap(g, left, right, gap, k - 1);
        match (conn_ends(g, k - 1), g.conns[k - 1].label) {
            (Some((f, t)), Some(l)) => if (f == left && t == right) || (f == right && t == left) {
                let needed = sat_add(chars_width(l) as int, 4);
                if needed > prev {
                    imin(needed, g.width as int / 2)
                } else {
                    prev
                }
            } else {
                prev
            },
            _ => prev,
        }
    }
}

/// Gap of a layer row after its first `i` neighbour pairs (from 6).
pub open spec fn row_gap(g: FlowSpec, ms: Seq<usize>, i: int) -> int
    decreases i,
{
    if i <= 0 {
        6
    } else {
        pair_gap(g, ms[i - 1] as int, ms[i] as int, row_gap(g, ms, i - 1), g.conns.len() as int)
    }
}

/// Gap between the nodes of a layer row.
pub open spec fn layer_gap(g: FlowSpec, ms: Seq<usize>) -> int {
    row_gap(g, ms, ms.len() - 1)
}

/// First column of a layer row: a lone node centers on the canvas'
/// middle column; a row of several is centered as a whole.
pub open spec fn row_start(g: FlowSpec, dims: Seq<Size>, ms: Seq<usize>) -> int {
    if ms.len() == 1 {
        sat_sub(g.width as int / 2, dims[ms[0] as int].w as int / 2)
    } else {
        sat_sub(g.width as int, sat_add(sum_w(dims, ms), sat_mul(ms.len() - 1, layer_gap(g, ms)))) / 2
    }
}

/// Left column of node `i`.
pub open spec fn node_x(g: FlowSpec, dims: Seq<Size>, layers: Seq<usize>, i: int) -> int {
    let ms = members(layers, layers[i] as int, layers.len() as int);
    let k = members(layers, layers[i] as int, i).len() as int;
    x_at(dims, ms, row_start(g, dims, ms), layer_gap(g, ms), k)
}

/// Center column of node `i`.
pub open spec fn node_cx(g: FlowSpec, dims: Seq<Size>, layers: Seq<usize>, i: int) -> int {
    sat_add(node_x(g, dims, layers, i), dims[i].w as int / 2)
}

/// Connection `k` joins two nodes and runs down the layers.
pub open spec fn is_forward(g: FlowSpec, layers: Seq<usize>, k: int) -> bool {
    conn_ends(g, k) matches Some((f, t)) && layers[f] < layers[t]
}

/// Ends of a connection (any pair when it has none).
pub open spec fn ends(g: FlowSpec, k: int) -> (int, int) {
    match conn_ends(g, k) {
        Some(e) => e,
        None => (0, 0),
    }
}

/// Wrap width of a sideways label beside a vertical line at `sx`.
pub open spec fn beside_avail(sx: int, w: int) -> int {
    crate::layout::riding::spec_beside_line_label_avail(sx, w)
}

/// Wrap width of a forward connection's label: its corridor less the
/// padding, or beside its line when it runs straight down.
pub open spec fn label_avail(g: FlowSpec, dims: Seq<Size>, layers: Seq<usize>, k: int) -> int {
    let (f, t) = ends(g, k);
    let cf = node_cx(g, dims, layers, f);
    let ct = node_cx(g, dims, layers, t);
    if cf != ct {
        crate::layout::riding::spec_corridor_label_avail(sat_add(dist(cf, ct), 1), g.width as int)
    } else {
        beside_avail(cf, g.width as int)
    }
}

/// Connection `k` is forward and labelled.
pub open spec fn labelled_forward(g: FlowSpec, layers: Seq<usize>, k: int) -> bool {
    is_forward(g, layers, k) && g.conns[k].label is Some
}

/// The label text of a connection (empty when it has none).
pub open spec fn label_of(g: FlowSpec, k: int) -> Seq<char> {
    match g.conns[k].label {
        Some(l) => l,
        None => Seq::empty(),
    }
}

/// Tallest label block of the first `k` labelled forward connections
/// leaving layer `gap`.
pub open spec fn gap_lines(g: FlowSpec, layers: Seq<usize>, w1: Seq<Seq<Seq<char>>>, gap: int, k: int) -> Option<int>
    decreases k,
{
    if k <= 0 {
        None
    } else {
        let prev = gap_lines(g, layers, w1, gap, k - 1);
        if labelled_forward(g, layers, k - 1) && layers[ends(g, k - 1).0] as int == gap {
            let n = w1[k - 1].len() as int;
            match prev {
                Some(m) => Some(imax(m, n)),
                None => Some(n),
            }
        } else {
            prev
        }
    }
}

/// Corridor siblings of source id `src` among the first `k`
/// connections: forward connections leaving it that turn sideways, with
/// their target's center column and label line count.
pub open spec fn corridor_sibs(
    g: FlowSpec,
    dims: Seq<Size>,
    layers: Seq<usize>,
    w1: Seq<Seq<Seq<char>>>,
    src: Seq<char>,
    k: int,
) -> Seq<(usize, usize)>
    decreases k,
{
    if k <= 0 {
        Seq::empty()
    } else {
        let prev = corridor_sibs(g, dims, layers, w1, src, k - 1);
        let (f, t) = ends(g, k - 1);
        let cf = node_cx(g, dims, layers, f);
        let ct = node_cx(g, dims, layers, t);
        if is_forward(g, layers, k - 1) && g.conns[k - 1].from == src && cf != ct {
            prev.push((ct as usize, w1[k - 1].len() as usize))
        } else {
            prev
        }
    }
}

/// The siblings of connection `k`'s source.
pub open spec fn sibs_of(g: FlowSpec, dims: Seq<Size>, layers: Seq<usize>, w1: Seq<Seq<Seq<char>>>, k: int) -> Seq<(usize, usize)> {
    corridor_sibs(g, dims, layers, w1, g.conns[k].from, g.conns.len() as int)
}

/// Half the machine range: columns the riding ladder can work with.
pub open spec fn ride_small(v: int) -> bool {
    0 <= v < usize::MAX / 2
}

/// Connection `k` rides its leg: labelled, forward, straight down, with
/// corridor siblings at its source, all columns within range.
pub open spec fn is_rider(g: FlowSpec, dims: Seq<Size>, layers: Seq<usize>, w1: Seq<Seq<Seq<char>>>, k: int) -> bool {
    let (f, t) = ends(g, k);
    let cf = node_cx(g, dims, layers, f);
    let sibs = sibs_of(g, dims, layers, w1, k);
    &&& labelled_forward(g, layers, k)
    &&& cf == node_cx(g, dims, layers, t)
    &&& sibs.len() > 0
    &&& ride_small(cf)
    &&& forall|j: int| 0 <= j < sibs.len() ==> ride_small((#[trigger] sibs[j]).0 as int)
}

/// Wrap width of a rider's label from the sibling-aware ladder.
pub open spec fn rider_wrap(g: FlowSpec, dims: Seq<Size>, layers: Seq<usize>, w1: Seq<Seq<Seq<char>>>, k: int) -> int {
    let cf = node_cx(g, dims, layers, ends(g, k).0);
    crate::layout::riding::spec_riding_placement(
        crate::diagrams::flowchart_riding::far_cols(sibs_of(g, dims, layers, w1, k)),
        cf,
        g.width as int,
        beside_avail(cf, g.width as int),
    ).0
}

/// Largest line count among the first `k` siblings.
pub open spec fn sibs_max_lines(sibs: Seq<(usize, usize)>, k: int) -> int
    decreases k,
{
    if k <= 0 {
        0
    } else {
        imax(sibs_max_lines(sibs, k - 1), sibs[k - 1].1 as int)
    }
}

/// A rider's block and the corridor spill it shares its gap with.
pub open spec fn rider_item(
    g: FlowSpec,
    dims: Seq<Size>,
    layers: Seq<usize>,
    w1: Seq<Seq<Seq<char>>>,
    w2: Seq<Seq<Seq<char>>>,
    k: int,
) -> (crate::layout::riding::RidingCandidate, int) {
    let (f, t) = ends(g, k);
    let cf = node_cx(g, dims, layers, f);
    let wrap = rider_wrap(g, dims, layers, w1, k);
    let lo = sat_sub(cf, wrap / 2);
    let sibs = sibs_of(g, dims, layers, w1, k);
    (
        crate::layout::riding::RidingCandidate {
            span_lo: lo as usize,
            span_hi: sat_add(lo, wrap) as usize,
            lines: w2[k].len() as usize,
        },
        if layers[t] == layers[f] + 1 {
            sat_sub(sibs_max_lines(sibs, sibs.len() as int), 2)
        } else {
            0
        },
    )
}

/// Riders (among the first `k` connections) in the gap above layer
/// `gap + 1`.
pub open spec fn gap_riders(
    g: FlowSpec,
    dims: Seq<Size>,
    layers: Seq<usize>,
    w1: Seq<Seq<Seq<char>>>,
    w2: Seq<Seq<Seq<char>>>,
    gap: int,
    k: int,
) -> Seq<(crate::layout::riding::RidingCandidate, int)>
    decreases k,
{
    if k <= 0 {
        Seq::empty()
    } else {
        let prev = gap_riders(g, dims, layers, w1, w2, gap, k - 1);
        if is_rider(g, dims, layers, w1, k - 1) && layers[ends(g, k - 1).1] - 1 == gap {
            prev.push(rider_item(g, dims, layers, w1, w2, k - 1))
        } else {
            prev
        }
    }
}

/// The riders' blocks.
pub open spec fn cands(items: Seq<(crate::layout::riding::RidingCandidate, int)>) -> Seq<crate::layout::riding::RidingCandidate> {
    Seq::new(items.len(), |i: int| items[i].0)
}

/// Largest spill among the first `k` riders.
pub open spec fn max_spill(items: Seq<(crate::layout::riding::RidingCandidate, int)>, k: int) -> int
    decreases k,
{
    if k <= 0 {
        0
    } else {
        imax(max_spill(items, k - 1), items[k - 1].1)
    }
}

/// Rows the riders of gap `gap` need: their stacked blocks, a rail row
/// above and below each, and the corridor spill.
pub open spec fn ride_demand(
    g: FlowSpec,
    dims: Seq<Size>,
    layers: Seq<usize>,
    w1: Seq<Seq<Seq<char>>>,
    w2: Seq<Seq<Seq<char>>>,
    gap: int,
) -> Option<int> {
    let items = gap_riders(g, dims, layers, w1, w2, gap, g.conns.len() as int);
    let cs = cands(items);
    if items.len() == 0 || crate::layout::riding::total_lines(cs) > usize::MAX {
        None
    } else {
        Some(sat_add(sat_add(crate::layout::riding::riding_demand(cs, cs.len() as int), 4), max_spill(items, items.len() as int)))
    }
}

/// Rows between layer row `li` and the next: at least 4, room for the
/// tallest label block leaving it, and for its riders.
pub open spec fn row_stride(
    g: FlowSpec,
    dims: Seq<Size>,
    layers: Seq<usize>,
    w1: Seq<Seq<Seq<char>>>,
    w2: Seq<Seq<Seq<char>>>,
    li: int,
) -> int {
    let lines = match gap_lines(g, layers, w1, li, g.conns.len() as int) {
        Some(m) => imax(m, 1),
        None => 1,
    };
    let s = imax(4, sat_add(lines, 2));
    match ride_demand(g, dims, layers, w1, w2, li) {
        Some(d) => imax(s, d),
        None => s,
    }
}

/// Top row of layer row `li`.
pub open spec fn row_y(
    g: FlowSpec,
    dims: Seq<Size>,
    layers: Seq<usize>,
    w1: Seq<Seq<Seq<char>>>,
    w2: Seq<Seq<Seq<char>>>,
    li: int,
) -> int
    decreases li,
{
    if li <= 0 {
        1
    } else {
        let rows = layer_rows(layers, layers.len() as int);
        sat_add(
            row_y(g, dims, layers, w1, w2, li - 1),
            sat_add(max_h(dims, rows[li - 1]), row_stride(g, dims, layers, w1, w2, li - 1)),
        )
    }
}

/// The rect of node `i` in the layered layout.
pub open spec fn auto_rect(
    g: FlowSpec,
    dims: Seq<Size>,
    layers: Seq<usize>,
    w1: Seq<Seq<Seq<char>>>,
    w2: Seq<Seq<Seq<char>>>,
    i: int,
) -> Rect {
    Rect {
        x: node_x(g, dims, layers, i) as usize,
        y: row_y(g, dims, layers, w1, w2, layer_rows(layers, layers[i] as int).len() as int) as usize,
        w: dims[i].w,
        h: dims[i].h,
    }
}

/// `w1` and `w2` wrap the labels the layout measures: each labelled
/// forward connection's label at its avail, each rider's at its ladder
/// width.
pub open spec fn layout_wraps(
    g: FlowSpec,
    dims: Seq<Size>,
    layers: Seq<usize>,
    w1: Seq<Seq<Seq<char>>>,
    w2: Seq<Seq<Seq<char>>>,
) -> bool {
    &&& w1.len() == g.conns.len()
    &&& w2.len() == g.conns.len()
    &&& forall|k: int|
        0 <= k < g.conns.len() ==> if labelled_forward(g, layers, k) {
            #[trigger] wraps_label(w1[k], label_of(g, k), label_avail(g, dims, layers, k))
        } else {
            w1[k].len() == 0
        }
    &&& forall|k: int|
        0 <= k < g.conns.len() ==> is_rider(g, dims, layers, w1, k) ==> #[trigger] wraps_label(
            w2[k],
            label_of(g, k),
            rider_wrap(g, dims, layers, w1, k),
        )
}


/// Member `k` of a layer is a node of that layer with `k` members before
/// it.
proof fn lemma_members_index(layers: Seq<usize>, l: int, m: int)
    requires
        0 <= m <= layers.len(),
        layers.len() <= usize::MAX,
    ensures
        forall|k: int|
            0 <= k < members(layers, l, m).len() ==> {
                let i = #[trigger] members(layers, l, m)[k] as int;
                &&& 0 <= i < m
                &&& layers[i] as int == l
                &&& members(layers, l, i).len() == k
            },
    decreases m,
{
    if m > 0 {
        lemma_members_index(layers, l, m - 1);
        let prev = members(layers, l, m - 1);
        let cur = members(layers, l, m);
        assert forall|k: int| 0 <= k < cur.len() implies {
            let i = #[trigger] cur[k] as int;
            &&& 0 <= i < m
            &&& layers[i] as int == l
            &&& members(layers, l, i).len() == k
        } by {
            if k < prev.len() {
                assert(cur[k] == prev[k]);
            }
        }
    }
}

/// The sizes of the nodes as `Size`s.
pub open spec fn dims_ok(g: FlowSpec, dims: Seq<Size>) -> bool {
    dims.len() == g.nodes.len()
}

impl Flowchart {
    /// Gap of neighbours `left` and `right` after all connections (see
    /// `pair_gap`).
    fn pair_gap_of(&self, left: usize, right: usize, gap: usize) -> (r: usize)
        ensures
            r as int == pair_gap(self@, left as int, right as int, gap as int, self@.conns.len() as int),
    {
        let ghost g = self@;
        let half = self.width / 2;
        let mut cur = gap;
        let mut k: usize = 0;
        while k < self.connections.len()
            invariant
                g == self@,
                g.conns.len() == self.connections@.len(),
                k <= g.conns.len(),
                half == g.width / 2,
                cur as int == pair_gap(g, left as int, right as int, gap as int, k as int),
            decreases g.conns.len() - k,
        {
            proof {
                assert(g.conns[k as int] == conn_spec(self.connections@[k as int]));
            }
            match self.ends_of(k) {
                Some((f, t)) => {
                    if (f == left && t == right) || (f == right && t == left) {
                        match &self.connections[k].label {
                            Some(l) => {
                                let lw = seq_display_width(chars_of(l.as_str()).as_slice());
                                let needed = lw.saturating_add(4);
                                if needed > cur {
                                    cur = if needed < half {
                                        needed
                                    } else {
                                        half
                                    };
                                }
                            },
                            None => {},
                        }
                    }
                },
                None => {},
            }
            k = k + 1;
        }
        cur
    }

    /// Gap of a layer row (see `layer_gap`).
    fn layer_gap_of(&self, ms: &Vec<usize>) -> (r: usize)
        requires
            ms@.len() >= 1,
        ensures
            r as int == layer_gap(self@, ms@),
    {
        let mut gap: usize = 6;
        let mut i: usize = 1;
        while i < ms.len()
            invariant
                1 <= i <= ms@.len(),
                gap as int == row_gap(self@, ms@, i as int - 1),
            decreases ms@.len() - i,
        {
            gap = self.pair_gap_of(ms[i - 1], ms[i], gap);
            i = i + 1;
        }
        gap
    }

    /// Left columns of the nodes (see `node_x`).
    fn node_xs(&self, dims: &Vec<Size>, layers: &Vec<usize>, groups: &Vec<Vec<usize>>) -> (xs: Vec<usize>)
        requires
            dims@.len() == self@.nodes.len(),
            layers@.len() == self@.nodes.len(),
            forall|x: int| 0 <= x < layers@.len() ==> (#[trigger] layers@[x]) < layers@.len(),
            groups@.len() == layers@.len(),
            forall|l: int| 0 <= l < groups@.len() ==> (#[trigger] groups@[l])@ == members(layers@, l, layers@.len() as int),
        ensures
            xs@.len() == layers@.len(),
            forall|i: int| 0 <= i < xs@.len() ==> (#[trigger] xs@[i]) as int == node_x(self@, dims@, layers@, i),
    {
        let ghost g = self@;
        let n = layers.len();
        let mut xs: Vec<usize> = Vec::new();
        let mut i: usize = 0;
        while i < n
            invariant
                i <= n,
                xs@.len() == i,
            decreases n - i,
        {
            xs.push(0);
            i = i + 1;
        }
        let mut l: usize = 0;
        while l < n
            invariant
                g == self@,
                n == layers@.len(),
                dims@.len() == n,
                l <= n,
                xs@.len() == n,
                forall|x: int| 0 <= x < n ==> (#[trigger] layers@[x]) < n,
                groups@.len() == n,
                forall|m: int| 0 <= m < n ==> (#[trigger] groups@[m])@ == members(layers@, m, n as int),
                forall|x: int| 0 <= x < n && layers@[x] < l ==> (#[trigger] xs@[x]) as int == node_x(g, dims@, layers@, x),
            decreases n - l,
        {
            let ms = &groups[l];
            proof {
                assert(ms@ == members(layers@, l as int, n as int));
                lemma_members_index(layers@, l as int, n as int);
                lemma_members_range(layers@, l as int, n as int);
            }
            if ms.len() > 0 {
                let gap = self.layer_gap_of(ms);
                let start: usize = if ms.len() == 1 {
                    (self.width / 2).saturating_sub(dims[ms[0]].w / 2)
                } else {
                    self.width.saturating_sub(sum_widths(dims, ms).saturating_add(mul_sat(ms.len() - 1, gap))) / 2
                };
                assert(start as int == row_start(g, dims@, ms@));
                let ghost xs0 = xs@;
                let mut x = start;
                let mut k: usize = 0;
                while k < ms.len()
                    invariant
                        g == self@,
                        n == layers@.len(),
                        dims@.len() == n,
                        xs@.len() == n,
                        l < n,
                        ms@ == members(layers@, l as int, n as int),
                        forall|j: int| 0 <= j < ms@.len() ==> (#[trigger] ms@[j]) < n,
                        forall|j: int|
                            0 <= j < ms@.len() ==> {
                                let i = #[trigger] ms@[j] as int;
                                &&& 0 <= i < n
                                &&& layers@[i] as int == l
                                &&& members(layers@, l as int, i).len() == j
                            },
                        k <= ms@.len(),
                        start as int == row_start(g, dims@, ms@),
                        gap as int == layer_gap(g, ms@),
                        x as int == x_at(dims@, ms@, start as int, gap as int, k as int),
                        xs0.len() == n,
                        forall|x2: int| 0 <= x2 < n && layers@[x2] != l ==> xs@[x2] == xs0[x2],
                        forall|x2: int| 0 <= x2 < n && layers@[x2] < l ==> (#[trigger] xs0[x2]) as int == node_x(g, dims@, layers@, x2),
                        forall|j: int| 0 <= j < k ==> (#[trigger] xs@[ms@[j] as int]) as int == node_x(g, dims@, layers@, ms@[j] as int),
                    decreases ms@.len() - k,
                {
                    let idx = ms[k];
                    let ghost before = xs@;
                    xs.set(idx, x);
                    proof {
                        assert forall|j: int| 0 <= j < k + 1 implies (#[trigger] xs@[ms@[j] as int]) as int == node_x(g, dims@, layers@, ms@[j] as int) by {
                            if j < k {
                                assert(ms@[j] != ms@[k as int]) by {
                                    assert(members(layers@, l as int, ms@[j] as int).len() == j);
                                }
                            }
                        }
                    }
                    x = x.saturating_add(dims[idx].w.saturating_add(gap));
                    k = k + 1;
                }
                proof {
                    assert forall|x2: int| 0 <= x2 < n && layers@[x2] < l + 1 implies (#[trigger] xs@[x2]) as int == node_x(g, dims@, layers@, x2) by {
                        if layers@[x2] == l {
                            let j = members(layers@, l as int, x2).len() as int;
                            lemma_member_at(layers@, l as int, x2, n as int);
                            assert(ms@[j] as int == x2);
                            assert(xs@[ms@[j] as int] as int == node_x(g, dims@, layers@, ms@[j] as int));
                        } else {
                            assert(xs@[x2] == xs0[x2]);
                            assert(xs0[x2] as int == node_x(g, dims@, layers@, x2));
                        }
                    }
                }
            } else {
                proof {
                    assert forall|x2: int| 0 <= x2 < n && layers@[x2] < l + 1 implies (#[trigger] xs@[x2]) as int == node_x(g, dims@, layers@, x2) by {
                        if layers@[x2] == l {
                            lemma_member_at(layers@, l as int, x2, n as int);
                            assert(false);
                        } else {
                            assert(layers@[x2] < l);
                        }
                    }
                }
            }
            l = l + 1;
        }
        xs
    }
}

/// A node `i < m` of layer `l` is member number `|members(l, i)|` of
/// `members(l, m)`.
proof fn lemma_member_at(layers: Seq<usize>, l: int, i: int, m: int)
    requires
        0 <= i < m <= layers.len(),
        layers.len() <= usize::MAX,
        layers[i] as int == l,
    ensures
        members(layers, l, i).len() < members(layers, l, m).len(),
        members(layers, l, m)[members(layers, l, i).len() as int] as int == i,
    decreases m,
{
    if m > i + 1 {
        lemma_member_at(layers, l, i, m - 1);
        let prev = members(layers, l, m - 1);
        let k = members(layers, l, i).len() as int;
        assert(members(layers, l, m)[k] == prev[k]);
    } else {
        assert(members(layers, l, m) == members(layers, l, i).push(i as usize));
    }
}


proof fn lemma_nearest_small(cols: Seq<usize>, ride: int, k: int)
    requires
        0 <= k <= cols.len(),
        ride_small(ride),
        forall|j: int| 0 <= j < cols.len() ==> ride_small((#[trigger] cols[j]) as int),
    ensures
        crate::layout::riding::nearest_among(cols, ride, k) matches Some(d) ==> 2 * d <= usize::MAX,
    decreases k,
{
    if k > 0 {
        lemma_nearest_small(cols, ride, k - 1);
        assert(ride_small(cols[k - 1] as int));
    }
}

/// Beside-the-line wrap width for any column (see `beside_avail`).
fn beside_avail_of(sx: usize, w: usize) -> (r: usize)
    ensures
        r as int == beside_avail(sx as int, w as int),
{
    let a = w.saturating_sub(sx.saturating_add(2));
    let b = if a > 2 {
        a
    } else {
        2
    };
    if b < w {
        b
    } else {
        w
    }
}

/// The positions the layout has found so far: node `i`'s left column
/// is `xs[i]`.
pub open spec fn xs_ok(g: FlowSpec, dims: Seq<Size>, layers: Seq<usize>, xs: Seq<usize>) -> bool {
    &&& dims.len() == g.nodes.len()
    &&& layers.len() == g.nodes.len()
    &&& xs.len() == g.nodes.len()
    &&& forall|x: int| 0 <= x < layers.len() ==> (#[trigger] layers[x]) < layers.len()
    &&& forall|i: int| 0 <= i < xs.len() ==> (#[trigger] xs[i]) as int == node_x(g, dims, layers, i)
}

impl Flowchart {
    /// Center column of node `i`.
    fn cx_of(&self, dims: &Vec<Size>, layers: &Vec<usize>, xs: &Vec<usize>, i: usize) -> (r: usize)
        requires
            xs_ok(self@, dims@, layers@, xs@),
            i < xs@.len(),
        ensures
            r as int == node_cx(self@, dims@, layers@, i as int),
    {
        xs[i].saturating_add(dims[i].w / 2)
    }

    /// Whether connection `k` is forward, and its two ends.
    fn forward_of(&self, layers: &Vec<usize>, k: usize) -> (r: Option<(usize, usize)>)
        requires
            k < self@.conns.len(),
            layers@.len() == self@.nodes.len(),
        ensures
            match r {
                Some((f, t)) => is_forward(self@, layers@, k as int) && ends(self@, k as int) == (f as int, t as int)
                    && f < self@.nodes.len() && t < self@.nodes.len(),
                None => !is_forward(self@, layers@, k as int),
            },
    {
        match self.ends_of(k) {
            Some((f, t)) => {
                if layers[f] < layers[t] {
                    Some((f, t))
                } else {
                    None
                }
            },
            None => None,
        }
    }

    /// Wrap the label of every labelled forward connection at its avail.
    fn wrap_forward_labels(&self, dims: &Vec<Size>, layers: &Vec<usize>, xs: &Vec<usize>) -> (w1: Vec<Vec<String>>)
        requires
            xs_ok(self@, dims@, layers@, xs@),
        ensures
            w1@.len() == self@.conns.len(),
            forall|k: int|
                0 <= k < self@.conns.len() ==> if labelled_forward(self@, layers@, k) {
                    wraps_label(views((#[trigger] w1@[k])@), label_of(self@, k), label_avail(self@, dims@, layers@, k))
                } else {
                    views(w1@[k]@).len() == 0
                },
    {
        let ghost g = self@;
        let mut w1: Vec<Vec<String>> = Vec::new();
        let mut k: usize = 0;
        while k < self.connections.len()
            invariant
                g == self@,
                xs_ok(g, dims@, layers@, xs@),
                g.conns.len() == self.connections@.len(),
                k <= g.conns.len(),
                w1@.len() == k,
                forall|j: int|
                    0 <= j < k ==> if labelled_forward(g, layers@, j) {
                        wraps_label(views((#[trigger] w1@[j])@), label_of(g, j), label_avail(g, dims@, layers@, j))
                    } else {
                        views(w1@[j]@).len() == 0
                    },
            decreases g.conns.len() - k,
        {
            proof {
                assert(g.conns[k as int] == conn_spec(self.connections@[k as int]));
            }
            let mut lines: Vec<String> = Vec::new();
            proof {
                assert(views(lines@) =~= Seq::<Seq<char>>::empty());
            }
            match self.forward_of(layers, k) {
                Some((f, t)) => {
                    match &self.connections[k].label {
                        Some(l) => {
                            let cf = self.cx_of(dims, layers, xs, f);
                            let ct = self.cx_of(dims, layers, xs, t);
                            let avail = if cf != ct {
                                let d = if cf < ct {
                                    ct - cf
                                } else {
                                    cf - ct
                                };
                                crate::layout::riding::corridor_label_avail(d.saturating_add(1), self.width)
                            } else {
                                beside_avail_of(cf, self.width)
                            };
                            lines = wrap_entry(l.as_str(), avail);
                        },
                        None => {},
                    }
                },
                None => {},
            }
            w1.push(lines);
            k = k + 1;
        }
        w1
    }

    /// The corridor siblings of connection `k`'s source (see `sibs_of`).
    fn sibs_exec(&self, dims: &Vec<Size>, layers: &Vec<usize>, xs: &Vec<usize>, w1: &Vec<Vec<String>>, k: usize) -> (r: Vec<(usize, usize)>)
        requires
            xs_ok(self@, dims@, layers@, xs@),
            k < self@.conns.len(),
            w1@.len() == self@.conns.len(),
        ensures
            r@ == sibs_of(self@, dims@, layers@, lines_of_all(w1@), k as int),
    {
        let ghost g = self@;
        let src = chars_of(self.connections[k].from.as_str());
        proof {
            assert(g.conns[k as int] == conn_spec(self.connections@[k as int]));
        }
        let mut out: Vec<(usize, usize)> = Vec::new();
        let mut j: usize = 0;
        while j < self.connections.len()
            invariant
                g == self@,
                xs_ok(g, dims@, layers@, xs@),
                g.conns.len() == self.connections@.len(),
                w1@.len() == g.conns.len(),
                src@ == g.conns[k as int].from,
                j <= g.conns.len(),
                out@ == corridor_sibs(g, dims@, layers@, lines_of_all(w1@), src@, j as int),
            decreases g.conns.len() - j,
        {
            proof {
                assert(g.conns[j as int] == conn_spec(self.connections@[j as int]));
                assert(lines_of_all(w1@)[j as int].len() == w1@[j as int]@.len());
            }
            match self.forward_of(layers, j) {
                Some((f, t)) => {
                    let cf = self.cx_of(dims, layers, xs, f);
                    let ct = self.cx_of(dims, layers, xs, t);
                    let from = chars_of(self.connections[j].from.as_str());
                    if chars_eq(from.as_slice(), src.as_slice()) && cf != ct {
                        out.push((ct, w1[j].len()));
                    }
                },
                None => {},
            }
            j = j + 1;
        }
        out
    }
}

/// The wrapped lines of every connection.
pub open spec fn lines_of_all(v: Seq<Vec<String>>) -> Seq<Seq<Seq<char>>> {
    Seq::new(v.len(), |k: int| views(v[k]@))
}


impl Flowchart {
    /// Whether connection `k` rides its leg, and its ladder wrap width
    /// and leg column if so.
    fn rider_of(&self, dims: &Vec<Size>, layers: &Vec<usize>, xs: &Vec<usize>, w1: &Vec<Vec<String>>, k: usize) -> (r: Option<(usize, usize)>)
        requires
            xs_ok(self@, dims@, layers@, xs@),
            k < self@.conns.len(),
            w1@.len() == self@.conns.len(),
        ensures
            r is Some <==> is_rider(self@, dims@, layers@, lines_of_all(w1@), k as int),
            r matches Some((wrap, cf)) ==> wrap as int == rider_wrap(self@, dims@, layers@, lines_of_all(w1@), k as int)
                && cf as int == node_cx(self@, dims@, layers@, ends(self@, k as int).0),
    {
        let ghost g = self@;
        let ghost w = lines_of_all(w1@);
        proof {
            assert(g.conns[k as int] == conn_spec(self.connections@[k as int]));
        }
        if self.connections[k].label.is_none() {
            return None;
        }
        match self.forward_of(layers, k) {
            Some((f, t)) => {
                let cf = self.cx_of(dims, layers, xs, f);
                let ct = self.cx_of(dims, layers, xs, t);
                if cf != ct {
                    return None;
                }
                let sibs = self.sibs_exec(dims, layers, xs, w1, k);
                if sibs.len() == 0 || cf >= usize::MAX / 2 {
                    return None;
                }
                let mut far: Vec<usize> = Vec::new();
                let mut j: usize = 0;
                while j < sibs.len()
                    invariant
                        g == self@,
                        w == lines_of_all(w1@),
                        sibs@ == sibs_of(g, dims@, layers@, w, k as int),
                        j <= sibs@.len(),
                        far@ == crate::diagrams::flowchart_riding::far_cols(sibs@).take(j as int),
                        forall|t2: int| 0 <= t2 < j ==> ride_small((#[trigger] sibs@[t2]).0 as int),
                    decreases sibs@.len() - j,
                {
                    if sibs[j].0 >= usize::MAX / 2 {
                        proof {
                            assert(!ride_small((sibs@[j as int]).0 as int));
                            assert(sibs@ == sibs_of(g, dims@, layers@, w, k as int));
                        }
                        return None;
                    }
                    far.push(sibs[j].0);
                    proof {
                        assert(crate::diagrams::flowchart_riding::far_cols(sibs@).take(j as int + 1) =~= crate::diagrams::flowchart_riding::far_cols(sibs@).take(j as int).push(sibs@[j as int].0));
                    }
                    j = j + 1;
                }
                proof {
                    assert(far@ =~= crate::diagrams::flowchart_riding::far_cols(sibs@));
                    lemma_nearest_small(far@, cf as int, far@.len() as int);
                }
                let avail = beside_avail_of(cf, self.width);
                let (wrap, _) = crate::layout::riding::riding_placement_cols(far.as_slice(), cf, self.width, avail);
                Some((wrap, cf))
            },
            None => None,
        }
    }

    /// Wrap every rider's label at its ladder width.
    fn wrap_rider_labels(&self, dims: &Vec<Size>, layers: &Vec<usize>, xs: &Vec<usize>, w1: &Vec<Vec<String>>) -> (w2: Vec<Vec<String>>)
        requires
            xs_ok(self@, dims@, layers@, xs@),
            w1@.len() == self@.conns.len(),
        ensures
            w2@.len() == self@.conns.len(),
            forall|k: int|
                0 <= k < self@.conns.len() ==> is_rider(self@, dims@, layers@, lines_of_all(w1@), k) ==> wraps_label(
                    views((#[trigger] w2@[k])@),
                    label_of(self@, k),
                    rider_wrap(self@, dims@, layers@, lines_of_all(w1@), k),
                ),
    {
        let ghost g = self@;
        let mut w2: Vec<Vec<String>> = Vec::new();
        let mut k: usize = 0;
        while k < self.connections.len()
            invariant
                g == self@,
                xs_ok(g, dims@, layers@, xs@),
                g.conns.len() == self.connections@.len(),
                w1@.len() == g.conns.len(),
                k <= g.conns.len(),
                w2@.len() == k,
                forall|j: int|
                    0 <= j < k ==> is_rider(g, dims@, layers@, lines_of_all(w1@), j) ==> wraps_label(
                        views((#[trigger] w2@[j])@),
                        label_of(g, j),
                        rider_wrap(g, dims@, layers@, lines_of_all(w1@), j),
                    ),
            decreases g.conns.len() - k,
        {
            proof {
                assert(g.conns[k as int] == conn_spec(self.connections@[k as int]));
            }
            let mut lines: Vec<String> = Vec::new();
            match self.rider_of(dims, layers, xs, w1, k) {
                Some((wrap, _)) => {
                    match &self.connections[k].label {
                        Some(l) => {
                            lines = wrap_entry(l.as_str(), wrap);
                        },
                        None => {},
                    }
                },
                None => {},
            }
            w2.push(lines);
            k = k + 1;
        }
        w2
    }

    /// Tallest label block leaving layer `gap` (see `gap_lines`).
    fn gap_lines_of(&self, layers: &Vec<usize>, w1: &Vec<Vec<String>>, gap: usize) -> (r: Option<usize>)
        requires
            layers@.len() == self@.nodes.len(),
            w1@.len() == self@.conns.len(),
        ensures
            match gap_lines(self@, layers@, lines_of_all(w1@), gap as int, self@.conns.len() as int) {
                Some(m) => (r matches Some(v) && v as int == m),
                None => r is None,
            },
    {
        let ghost g = self@;
        let mut best: Option<usize> = None;
        let mut k: usize = 0;
        while k < self.connections.len()
            invariant
                g == self@,
                layers@.len() == g.nodes.len(),
                g.conns.len() == self.connections@.len(),
                w1@.len() == g.conns.len(),
                k <= g.conns.len(),
                match gap_lines(g, layers@, lines_of_all(w1@), gap as int, k as int) {
                    Some(m) => best == Some(m as usize) && 0 <= m <= usize::MAX,
                    None => best is None,
                },
            decreases g.conns.len() - k,
        {
            proof {
                assert(g.conns[k as int] == conn_spec(self.connections@[k as int]));
                assert(lines_of_all(w1@)[k as int].len() == w1@[k as int]@.len());
            }
            if self.connections[k].label.is_some() {
                match self.forward_of(layers, k) {
                    Some((f, _)) => {
                        if layers[f] == gap {
                            let n = w1[k].len();
                            best = match best {
                                Some(m) => Some(if m > n {
                                    m
                                } else {
                                    n
                                }),
                                None => Some(n),
                            };
                        }
                    },
                    None => {},
                }
            }
            k = k + 1;
        }
        best
    }
}


/// `total_lines(cs) <= usize::MAX`, decided.
fn lines_fit(cs: &Vec<crate::layout::riding::RidingCandidate>) -> (r: bool)
    ensures
        r == (crate::layout::riding::total_lines(cs@) <= usize::MAX),
{
    let mut sum: usize = 0;
    let mut j: usize = 0;
    while j < cs.len()
        invariant
            j <= cs@.len(),
            sum == crate::layout::riding::total_lines(cs@.take(j as int)),
        decreases cs@.len() - j,
    {
        proof {
            assert(cs@.take(j as int + 1).drop_last() =~= cs@.take(j as int));
        }
        match sum.checked_add(cs[j].lines) {
            Some(t) => {
                sum = t;
            },
            None => {
                proof {
                    lemma_total_lines_mono(cs@, j as int + 1);
                }
                return false;
            },
        }
        j = j + 1;
    }
    assert(cs@.take(j as int) =~= cs@);
    true
}

/// Totals only grow with more blocks.
proof fn lemma_total_lines_mono(cs: Seq<crate::layout::riding::RidingCandidate>, k: int)
    requires
        0 <= k <= cs.len(),
    ensures
        crate::layout::riding::total_lines(cs.take(k)) <= crate::layout::riding::total_lines(cs),
    decreases cs.len() - k,
{
    if k < cs.len() {
        lemma_total_lines_mono(cs, k + 1);
        assert(cs.take(k + 1).drop_last() =~= cs.take(k));
    } else {
        assert(cs.take(k) =~= cs);
    }
}

impl Flowchart {
    /// Rows the riders of gap `gap` need (see `ride_demand`).
    fn ride_demand_of(
        &self,
        dims: &Vec<Size>,
        layers: &Vec<usize>,
        xs: &Vec<usize>,
        w1: &Vec<Vec<String>>,
        w2: &Vec<Vec<String>>,
        gap: usize,
    ) -> (r: Option<usize>)
        requires
            xs_ok(self@, dims@, layers@, xs@),
            w1@.len() == self@.conns.len(),
            w2@.len() == self@.conns.len(),
        ensures
            match ride_demand(self@, dims@, layers@, lines_of_all(w1@), lines_of_all(w2@), gap as int) {
                Some(d) => (r matches Some(v) && v as int == d),
                None => r is None,
            },
    {
        let ghost g = self@;
        let ghost lw1 = lines_of_all(w1@);
        let ghost lw2 = lines_of_all(w2@);
        let mut cs: Vec<crate::layout::riding::RidingCandidate> = Vec::new();
        let mut spill: usize = 0;
        let mut k: usize = 0;
        while k < self.connections.len()
            invariant
                g == self@,
                lw1 == lines_of_all(w1@),
                lw2 == lines_of_all(w2@),
                xs_ok(g, dims@, layers@, xs@),
                g.conns.len() == self.connections@.len(),
                w1@.len() == g.conns.len(),
                w2@.len() == g.conns.len(),
                k <= g.conns.len(),
                cs@ == cands(gap_riders(g, dims@, layers@, lw1, lw2, gap as int, k as int)),
                spill as int == max_spill(
                    gap_riders(g, dims@, layers@, lw1, lw2, gap as int, k as int),
                    gap_riders(g, dims@, layers@, lw1, lw2, gap as int, k as int).len() as int,
                ),
            decreases g.conns.len() - k,
        {
            let ghost items0 = gap_riders(g, dims@, layers@, lw1, lw2, gap as int, k as int);
            match self.rider_of(dims, layers, xs, w1, k) {
                Some((wrap, cf)) => {
                    match self.forward_of(layers, k) {
                        Some((f, t)) => {
                            if layers[t] >= 1 && layers[t] - 1 == gap {
                                let lo = cf.saturating_sub(wrap / 2);
                                let c = crate::layout::riding::RidingCandidate {
                                    span_lo: lo,
                                    span_hi: lo.saturating_add(wrap),
                                    lines: w2[k].len(),
                                };
                                let sibs = self.sibs_exec(dims, layers, xs, w1, k);
                                let mut m: usize = 0;
                                let mut j: usize = 0;
                                while j < sibs.len()
                                    invariant
                                        j <= sibs@.len(),
                                        m as int == sibs_max_lines(sibs@, j as int),
                                    decreases sibs@.len() - j,
                                {
                                    if sibs[j].1 > m {
                                        m = sibs[j].1;
                                    }
                                    j = j + 1;
                                }
                                let sp: usize = if layers[t] == layers[f] + 1 {
                                    m.saturating_sub(2)
                                } else {
                                    0
                                };
                                proof {
                                    assert(lw2[k as int].len() == w2@[k as int]@.len());
                                    let it = rider_item(g, dims@, layers@, lw1, lw2, k as int);
                                    assert(it.0 == c);
                                    assert(it.1 == sp as int);
                                    let items1 = gap_riders(g, dims@, layers@, lw1, lw2, gap as int, k as int + 1);
                                    assert(items1 == items0.push(it));
                                    assert(cands(items1) =~= cands(items0).push(c));
                                }
                                proof {
                                    lemma_max_spill_push(items0, rider_item(g, dims@, layers@, lw1, lw2, k as int), items0.len() as int);
                                }
                                cs.push(c);
                                if sp > spill {
                                    spill = sp;
                                }
                            }
                        },
                        None => {},
                    }
                },
                None => {},
            }
            k = k + 1;
        }
        if cs.len() == 0 || !lines_fit(&cs) {
            return None;
        }
        let (_, demand) = crate::layout::riding::allocate_riding_rows(cs.as_slice());
        Some(demand.saturating_add(4).saturating_add(spill))
    }
}


proof fn lemma_max_spill_push(items: Seq<(crate::layout::riding::RidingCandidate, int)>, it: (crate::layout::riding::RidingCandidate, int), k: int)
    requires
        0 <= k <= items.len(),
    ensures
        max_spill(items.push(it), k) == max_spill(items, k),
    decreases k,
{
    if k > 0 {
        lemma_max_spill_push(items, it, k - 1);
        assert(items.push(it)[k - 1] == items[k - 1]);
    }
}


/// `layer_rows(layers, l)` is a prefix of `layer_rows(layers, m)`, and
/// a non-empty layer `l` is the row right after it.
proof fn lemma_layer_rows_len(layers: Seq<usize>, l: int)
    requires
        0 <= l,
    ensures
        layer_rows(layers, l).len() <= l,
    decreases l,
{
    if l > 0 {
        lemma_layer_rows_len(layers, l - 1);
    }
}

proof fn lemma_layer_rows_prefix(layers: Seq<usize>, l: int, m: int)
    requires
        0 <= l < m,
    ensures
        layer_rows(layers, l).len() <= layer_rows(layers, m).len(),
        forall|j: int| 0 <= j < layer_rows(layers, l).len() ==> layer_rows(layers, m)[j] == layer_rows(layers, l)[j],
        members(layers, l, layers.len() as int).len() > 0 ==> layer_rows(layers, l).len() < layer_rows(layers, m).len()
            && layer_rows(layers, m)[layer_rows(layers, l).len() as int] == members(layers, l, layers.len() as int),
    decreases m,
{
    if m > l + 1 {
        lemma_layer_rows_prefix(layers, l, m - 1);
    }
}

/// The layout of the nodes for layer assignment `layers` (see
/// `auto_rect`), for the greedy wrapping of the measured labels.
pub open spec fn is_auto_layout(g: FlowSpec, dims: Seq<Size>, layers: Seq<usize>, rects: Seq<Rect>) -> bool {
    exists|w1: Seq<Seq<Seq<char>>>, w2: Seq<Seq<Seq<char>>>|
        #[trigger] layout_wraps(g, dims, layers, w1, w2) && rects.len() == g.nodes.len() && forall|i: int|
            0 <= i < rects.len() ==> rects[i] == auto_rect(g, dims, layers, w1, w2, i)
}

impl Flowchart {
    /// Positions of the nodes for a layer assignment (see
    /// `is_auto_layout`).
    fn assign_positions(&self, dims: &Vec<Size>, layers: &Vec<usize>) -> (r: Vec<Rect>)
        requires
            dims@.len() == self@.nodes.len(),
            layers@.len() == self@.nodes.len(),
            forall|x: int| 0 <= x < layers@.len() ==> (#[trigger] layers@[x]) < layers@.len(),
        ensures
            is_auto_layout(self@, dims@, layers@, r@),
    {
        let ghost g = self@;
        let n = layers.len();
        let groups = group_layers(layers, n);
        let xs = self.node_xs(dims, layers, &groups);
        let w1 = self.wrap_forward_labels(dims, layers, &xs);
        let w2 = self.wrap_rider_labels(dims, layers, &xs, &w1);
        let ghost lw1 = lines_of_all(w1@);
        let ghost lw2 = lines_of_all(w2@);
        let mut rects: Vec<Rect> = Vec::new();
        let mut i: usize = 0;
        while i < n
            invariant
                i <= n,
                rects@.len() == i,
            decreases n - i,
        {
            rects.push(Rect::new(0, 0, 0, 0));
            i = i + 1;
        }
        let ghost rows = layer_rows(layers@, n as int);
        let mut y: usize = 1;
        let mut li: usize = 0;
        let mut l: usize = 0;
        while l < n
            invariant
                g == self@,
                lw1 == lines_of_all(w1@),
                lw2 == lines_of_all(w2@),
                xs_ok(g, dims@, layers@, xs@),
                n == layers@.len(),
                w1@.len() == g.conns.len(),
                w2@.len() == g.conns.len(),
                groups@.len() == n,
                forall|m: int| 0 <= m < n ==> (#[trigger] groups@[m])@ == members(layers@, m, n as int),
                rows == layer_rows(layers@, n as int),
                l <= n,
                li as int == layer_rows(layers@, l as int).len(),
                y as int == row_y(g, dims@, layers@, lw1, lw2, li as int),
                rects@.len() == n,
                forall|x: int| 0 <= x < n && layers@[x] < l ==> (#[trigger] rects@[x]) == auto_rect(g, dims@, layers@, lw1, lw2, x),
            decreases n - l,
        {
            let ms = &groups[l];
            proof {
                assert(ms@ == members(layers@, l as int, n as int));
                lemma_members_index(layers@, l as int, n as int);
                lemma_members_range(layers@, l as int, n as int);
            }
            if ms.len() > 0 {
                proof {
                    lemma_layer_rows_len(layers@, l as int);
                    lemma_layer_rows_prefix(layers@, l as int, n as int);
                    assert(rows[li as int] == ms@);
                    assert(layer_rows(layers@, l as int + 1).len() == li + 1);
                }
                let mh = max_height(dims, ms);
                let ghost r0 = rects@;
                let mut k: usize = 0;
                while k < ms.len()
                    invariant
                        g == self@,
                        xs_ok(g, dims@, layers@, xs@),
                        n == layers@.len(),
                        rects@.len() == n,
                        r0.len() == n,
                        l < n,
                        ms@ == members(layers@, l as int, n as int),
                        forall|j: int|
                            0 <= j < ms@.len() ==> {
                                let i = #[trigger] ms@[j] as int;
                                &&& 0 <= i < n
                                &&& layers@[i] as int == l
                                &&& members(layers@, l as int, i).len() == j
                            },
                        li as int == layer_rows(layers@, l as int).len(),
                        y as int == row_y(g, dims@, layers@, lw1, lw2, li as int),
                        k <= ms@.len(),
                        forall|x2: int| 0 <= x2 < n && layers@[x2] != l ==> rects@[x2] == r0[x2],
                        forall|j: int| 0 <= j < k ==> (#[trigger] rects@[ms@[j] as int]) == auto_rect(g, dims@, layers@, lw1, lw2, ms@[j] as int),
                    decreases ms@.len() - k,
                {
                    let idx = ms[k];
                    let rect = Rect::new(xs[idx], y, dims[idx].w, dims[idx].h);
                    rects.set(idx, rect);
                    proof {
                        assert forall|j: int| 0 <= j < k + 1 implies (#[trigger] rects@[ms@[j] as int]) == auto_rect(g, dims@, layers@, lw1, lw2, ms@[j] as int) by {
                            if j < k {
                                assert(ms@[j] != ms@[k as int]) by {
                                    assert(members(layers@, l as int, ms@[j] as int).len() == j);
                                }
                            }
                        }
                    }
                    k = k + 1;
                }
                let lines = match self.gap_lines_of(layers, &w1, li) {
                    Some(m) => if m > 1 {
                        m
                    } else {
                        1
                    },
                    None => 1,
                };
                let s0 = lines.saturating_add(2);
                let s1 = if s0 > 4 {
                    s0
                } else {
                    4
                };
                let stride = match self.ride_demand_of(dims, layers, &xs, &w1, &w2, li) {
                    Some(d) => if d > s1 {
                        d
                    } else {
                        s1
                    },
                    None => s1,
                };
                proof {
                    assert forall|x2: int| 0 <= x2 < n && layers@[x2] < l + 1 implies (#[trigger] rects@[x2]) == auto_rect(g, dims@, layers@, lw1, lw2, x2) by {
                        if layers@[x2] == l {
                            let j = members(layers@, l as int, x2).len() as int;
                            lemma_member_at(layers@, l as int, x2, n as int);
                            assert(ms@[j] as int == x2);
                            assert(rects@[ms@[j] as int] == auto_rect(g, dims@, layers@, lw1, lw2, ms@[j] as int));
                        } else {
                            assert(rects@[x2] == r0[x2]);
                        }
                    }
                }
                y = y.saturating_add(mh.saturating_add(stride));
                li = li + 1;
            } else {
                proof {
                    assert(layer_rows(layers@, l as int + 1) =~= layer_rows(layers@, l as int));
                    assert forall|x2: int| 0 <= x2 < n && layers@[x2] < l + 1 implies (#[trigger] rects@[x2]) == auto_rect(g, dims@, layers@, lw1, lw2, x2) by {
                        if layers@[x2] == l {
                            lemma_member_at(layers@, l as int, x2, n as int);
                            assert(false);
                        } else {
                            assert(layers@[x2] < l);
                        }
                    }
                }
            }
            l = l + 1;
        }
        proof {
            assert(layout_wraps(g, dims@, layers@, lw1, lw2)) by {
                assert forall|k: int| 0 <= k < g.conns.len() implies if labelled_forward(g, layers@, k) {
                    #[trigger] wraps_label(lw1[k], label_of(g, k), label_avail(g, dims@, layers@, k))
                } else {
                    lw1[k].len() == 0
                } by {
                    assert(lw1[k] == views(w1@[k]@));
                }
                assert forall|k: int| 0 <= k < g.conns.len() implies is_rider(g, dims@, layers@, lw1, k) ==> #[trigger] wraps_label(
                    lw2[k],
                    label_of(g, k),
                    rider_wrap(g, dims@, layers@, lw1, k),
                ) by {
                    assert(lw2[k] == views(w2@[k]@));
                }
            }
        }
        rects
    }
}


// ---------------------------------------------------------------------
// Nodes
// ---------------------------------------------------------------------

/// `d` is the size `node_dims` gives node `n` (for the greedy wrapping of a
/// rectangle label that does not fit on one row).
pub open spec fn is_node_dims(n: NodeSpec, width: int, d: Size) -> bool {
    if n.shape != NodeShape::Diamond && rect_label_wraps(n.label, width) {
        exists|lines: Seq<Seq<char>>|
            #[trigger] wraps_label(lines, n.label, node_wrap_width(n.label, width)) && (d.w as int, d.h as int)
                == spec_node_dims(n.label, n.shape, width, lines)
    } else {
        (d.w as int, d.h as int) == spec_node_dims(n.label, n.shape, width, Seq::empty())
    }
}

/// Label lines `0..k` of a node, each centered in its box, the block
/// centered in the rows inside the border.
pub open spec fn node_label_rows(v: CanvasView, r: Rect, lines: Seq<Seq<char>>, k: int) -> CanvasView
    decreases k,
{
    if k <= 0 {
        v
    } else {
        let start_y = r.y + 1 + sat_sub(sat_sub(r.h as int, 2), imax(lines.len() as int, 1)) / 2;
        let lw = chars_width(lines[k - 1]) as int;
        node_label_rows(v, r, lines, k - 1).put_str(
            r.x + sat_sub(r.w as int, lw) / 2,
            sat_add(start_y, k - 1),
            lines[k - 1],
            Layer::NodeContent,
            None,
        )
    }
}

/// Interior rows `1..k` of a box filled with blanks.
pub open spec fn fill_rows(v: CanvasView, r: Rect, k: int) -> CanvasView
    decreases k,
{
    if k <= 1 {
        v
    } else {
        fill_rows(v, r, k - 1).hline(r.x + 1, r.y + k - 1, sat_sub(r.w as int, 2), ' ', Layer::NodeContent)
    }
}

/// The border and interior of a node: a diamond, or a filled box with
/// square or rounded corners.
pub open spec fn node_shape_view(v: CanvasView, shape: NodeShape, r: Rect, cs: Charset) -> CanvasView {
    match shape {
        NodeShape::Diamond => diamond_rows(v, r.x as int, r.y as int, r.w as int, r.h as int, r.h as int),
        _ => {
            let style = if shape == NodeShape::Rounded {
                BorderStyle::Rounded
            } else {
                BorderStyle::Single
            };
            let b = if r.w >= 2 && r.h >= 2 {
                v.rect(r.x as int, r.y as int, r.w as int, r.h as int, spec_glyphs(style, cs))
            } else {
                v
            };
            fill_rows(b, r, sat_sub(r.h as int, 1))
        },
    }
}

/// Wrap width of a node's label.
pub open spec fn node_inner(r: Rect) -> int {
    imax(sat_sub(r.w as int, 2), 2)
}

/// A node drawn in `r` with its label wrapped into `lines`.
pub open spec fn node_view(v: CanvasView, n: NodeSpec, r: Rect, cs: Charset, lines: Seq<Seq<char>>) -> CanvasView {
    node_label_rows(node_shape_view(v, n.shape, r, cs), r, lines, lines.len() as int)
}

/// A rect far from the machine range.
pub open spec fn rect_fits(r: Rect) -> bool {
    r.x + r.w + 4 < usize::MAX / 8 && r.y + r.h + 4 < usize::MAX / 8
}

/// A diamond's box is square.
pub open spec fn shape_ok(shape: NodeShape, r: Rect) -> bool {
    shape == NodeShape::Diamond ==> r.w == r.h && r.h >= 1
}

impl Flowchart {
    /// Draw node `i` in `r`: its shape, then its label centered.
    fn draw_node(&self, canvas: &mut Canvas, i: usize, r: Rect)
        requires
            old(canvas)@.wf(),
            i < self@.nodes.len(),
            rect_fits(r),
            shape_ok(self@.nodes[i as int].shape, r),
        ensures
            final(canvas)@.wf(),
            exists|lines: Seq<Seq<char>>|
                #[trigger] wraps_label(lines, self@.nodes[i as int].label, node_inner(r)) && final(canvas)@
                    == node_view(old(canvas)@, self@.nodes[i as int], r, self.charset, lines),
    {
        let ghost g = self@;
        let ghost v0 = canvas@;
        let node = &self.nodes[i];
        proof {
            assert(g.nodes[i as int] == node_spec(self.nodes@[i as int]));
        }
        match node.shape {
            NodeShape::Diamond => {
                draw_diamond(canvas, r.x, r.y, r.w, r.h, self.charset);
                assert(canvas@ == node_shape_view(v0, node.shape, r, self.charset));
            },
            _ => {
                let style = if node.shape == NodeShape::Rounded {
                    BorderStyle::Rounded
                } else {
                    BorderStyle::Single
                };
                let _ = canvas.draw_border(r.x, r.y, r.w, r.h, style, self.charset);
                let ghost vb = canvas@;
                let last = r.h.saturating_sub(1);
                let mut ry: usize = 1;
                while ry < last
                    invariant
                        1 <= ry,
                        ry <= last || last < 1,
                        last < 1 ==> ry == 1,
                        last as int == sat_sub(r.h as int, 1),
                        rect_fits(r),
                        canvas@.wf(),
                        canvas@ == fill_rows(vb, r, ry as int),
                    decreases last - ry,
                {
                    canvas.put_horizontal_layered(r.x + 1, r.y + ry, r.w.saturating_sub(2), ' ', Layer::NodeContent);
                    ry = ry + 1;
                }
                proof {
                    assert(canvas@ == fill_rows(vb, r, ry as int));
                    if last < 1 {
                        assert(ry == 1);
                        assert(fill_rows(vb, r, last as int) == vb);
                        assert(fill_rows(vb, r, 1) == vb);
                    } else {
                        assert(ry == last);
                    }
                    assert(canvas@ == fill_rows(vb, r, sat_sub(r.h as int, 1)));
                    assert(node.shape != NodeShape::Diamond);
                    assert(vb == (if r.w >= 2 && r.h >= 2 {
                        v0.rect(r.x as int, r.y as int, r.w as int, r.h as int, spec_glyphs(style, self.charset))
                    } else {
                        v0
                    }));
                }
                assert(canvas@ == node_shape_view(v0, node.shape, r, self.charset));
            },
        }
        let ghost v1 = canvas@;
        assert(v1 == node_shape_view(v0, node.shape, r, self.charset));
        let inner = if r.w.saturating_sub(2) > 2 {
            r.w - 2
        } else {
            2
        };
        let lines = wrap_entry(node.label.as_str(), inner);
        let ghost ls = views(lines@);
        let num: usize = if lines.len() > 1 {
            lines.len()
        } else {
            1
        };
        let start_y = r.y + 1 + r.h.saturating_sub(2).saturating_sub(num) / 2;
        let mut k: usize = 0;
        while k < lines.len()
            invariant
                k <= lines@.len(),
                ls == views(lines@),
                num as int == imax(ls.len() as int, 1),
                start_y as int == r.y + 1 + sat_sub(sat_sub(r.h as int, 2), num as int) / 2,
                rect_fits(r),
                canvas@.wf(),
                canvas@ == node_label_rows(v1, r, ls, k as int),
            decreases lines@.len() - k,
        {
            let l = chars_of(lines[k].as_str());
            proof {
                assert(ls[k as int] == lines@[k as int]@);
            }
            let lw = seq_display_width(l.as_slice());
            canvas.put_chars_layered(r.x + r.w.saturating_sub(lw) / 2, start_y.saturating_add(k), l.as_slice(), Layer::NodeContent, None);
            k = k + 1;
        }
        proof {
            assert(wraps_label(ls, g.nodes[i as int].label, node_inner(r)));
        }
    }
}


// ---------------------------------------------------------------------
// Layouts
// ---------------------------------------------------------------------

/// Every node's size is the one `node_dims` gives it.
pub open spec fn all_dims(g: FlowSpec, dims: Seq<Size>) -> bool {
    &&& dims.len() == g.nodes.len()
    &&& forall|i: int| 0 <= i < dims.len() ==> #[trigger] is_node_dims(g.nodes[i], g.width as int, dims[i])
}

/// `rects` is the layered layout of `g`: for node sizes from
/// `node_dims` and a layering of the connection graph.
pub open spec fn is_auto(g: FlowSpec, rects: Seq<Rect>) -> bool {
    exists|dims: Seq<Size>, order: Seq<usize>, back: Seq<(usize, usize)>, layers: Seq<usize>|
        #[trigger] all_dims(g, dims) && #[trigger] is_layering(
            flow_adj(g, g.conns.len() as int),
            order,
            back,
            layers,
            g.nodes.len(),
        ) && is_auto_layout(g, dims, layers, rects)
}

/// The first of the first `k` nodes without a position.
pub open spec fn first_unplaced(ns: Seq<NodeSpec>, k: int) -> Option<int>
    decreases k,
{
    if k <= 0 {
        None
    } else {
        match first_unplaced(ns, k - 1) {
            Some(i) => Some(i),
            None => if ns[k - 1].position is None {
                Some(k - 1)
            } else {
                None
            },
        }
    }
}

/// Column of a given position.
pub open spec fn pos_x(p: Option<(usize, usize)>) -> usize {
    match p {
        Some((x, _)) => x,
        None => 0,
    }
}

/// Row of a given position.
pub open spec fn pos_y(p: Option<(usize, usize)>) -> usize {
    match p {
        Some((_, y)) => y,
        None => 0,
    }
}

/// `rects` places every node at its given position, sized by
/// `node_dims`.
pub open spec fn is_manual(g: FlowSpec, rects: Seq<Rect>) -> bool {
    exists|dims: Seq<Size>|
        #[trigger] all_dims(g, dims) && rects.len() == g.nodes.len() && forall|i: int|
            0 <= i < rects.len() ==> (#[trigger] rects[i]) == (Rect {
                x: pos_x(g.nodes[i].position),
                y: pos_y(g.nodes[i].position),
                w: dims[i].w,
                h: dims[i].h,
            })
}

/// Message for a node without a position in manual layout.
pub open spec fn unplaced_message(id: Seq<char>) -> Seq<char> {
    seq!['n', 'o', 'd', 'e', ' ', '\''] + id + seq![
        '\'', ' ', 'h', 'a', 's', ' ', 'n', 'o', ' ', 'p', 'o', 's', 'i', 't', 'i', 'o', 'n', ' ', 'i', 'n', ' ', 'm', 'a', 'n', 'u', 'a', 'l', ' ', 'l', 'a', 'y', 'o', 'u', 't'
    ]
}

impl Flowchart {
    /// The size of every node.
    fn compute_dims(&self) -> (dims: Vec<Size>)
        ensures
            all_dims(self@, dims@),
    {
        let ghost g = self@;
        let mut dims: Vec<Size> = Vec::new();
        let mut i: usize = 0;
        while i < self.nodes.len()
            invariant
                g == self@,
                g.nodes.len() == self.nodes@.len(),
                i <= g.nodes.len(),
                dims@.len() == i,
                forall|j: int| 0 <= j < i ==> #[trigger] is_node_dims(g.nodes[j], g.width as int, dims@[j]),
            decreases g.nodes.len() - i,
        {
            let node = &self.nodes[i];
            proof {
                assert(g.nodes[i as int] == node_spec(self.nodes@[i as int]));
            }
            let (w, h) = node_dims(node.label.as_str(), node.shape, self.width);
            dims.push(Size::new(w, h));
            i = i + 1;
        }
        dims
    }

    /// The layered layout (see `is_auto`).
    fn layout_auto(&self) -> (r: Vec<Rect>)
        ensures
            is_auto(self@, r@),
    {
        let ghost g = self@;
        let dims = self.compute_dims();
        let adj = self.build_adjacency();
        let n = self.nodes.len();
        let (order, back) = detect_back_edges(n, &adj);
        let layers = assign_layers(n, &adj, &order, &back);
        let rects = self.assign_positions(&dims, &layers);
        proof {
            assert(all_dims(g, dims@));
            assert(is_layering(flow_adj(g, g.conns.len() as int), order@, back@, layers@, g.nodes.len()));
        }
        rects
    }

    /// Rects at the nodes' own positions; a node without one is
    /// refused with `MissingFields`.
    fn layout_manual(&self) -> (r: Result<Vec<Rect>>)
        ensures
            match first_unplaced(self@.nodes, self@.nodes.len() as int) {
                Some(i) => (r matches Err(FigoError::MissingFields(m)) && m@ == unplaced_message(self@.nodes[i].id)),
                None => (r matches Ok(v) && is_manual(self@, v@)),
            },
    {
        let ghost g = self@;
        let dims = self.compute_dims();
        let mut out: Vec<Rect> = Vec::new();
        let mut i: usize = 0;
        while i < self.nodes.len()
            invariant
                g == self@,
                g.nodes.len() == self.nodes@.len(),
                all_dims(g, dims@),
                i <= g.nodes.len(),
                first_unplaced(g.nodes, i as int) is None,
                out@.len() == i,
                forall|j: int|
                    0 <= j < i ==> (#[trigger] out@[j]) == (Rect {
                        x: pos_x(g.nodes[j].position),
                        y: pos_y(g.nodes[j].position),
                        w: dims@[j].w,
                        h: dims@[j].h,
                    }),
            decreases g.nodes.len() - i,
        {
            let node = &self.nodes[i];
            proof {
                assert(g.nodes[i as int] == node_spec(self.nodes@[i as int]));
            }
            match node.position {
                Some((x, y)) => {
                    out.push(Rect::new(x, y, dims[i].w, dims[i].h));
                },
                None => {
                    let mut m: Vec<char> = vec!['n', 'o', 'd', 'e', ' ', '\''];
                    let id = chars_of(node.id.as_str());
                    m.extend_from_slice(id.as_slice());
                    let tail = vec![
                        '\'', ' ', 'h', 'a', 's', ' ', 'n', 'o', ' ', 'p', 'o', 's', 'i', 't', 'i', 'o', 'n', ' ', 'i', 'n', ' ', 'm', 'a', 'n', 'u', 'a', 'l', ' ', 'l', 'a', 'y', 'o', 'u', 't'
                    ];
                    m.extend_from_slice(tail.as_slice());
                    proof {
                        assert(m@ =~= unplaced_message(g.nodes[i as int].id));
                        assert(first_unplaced(g.nodes, i as int + 1) == Some(i as int));
                        lemma_first_unplaced_stable(g.nodes, i as int + 1, g.nodes.len() as int);
                    }
                    return Err(FigoError::MissingFields(string_from_chars(m.as_slice())));
                },
            }
            i = i + 1;
        }
        Ok(out)
    }
}

/// Once found, the first unplaced node stays the first.
proof fn lemma_first_unplaced_stable(ns: Seq<NodeSpec>, k: int, m: int)
    requires
        0 <= k <= m,
        first_unplaced(ns, k) is Some,
    ensures
        first_unplaced(ns, m) == first_unplaced(ns, k),
    decreases m - k,
{
    if m > k {
        lemma_first_unplaced_stable(ns, k, m - 1);
    }
}


// ---------------------------------------------------------------------
// Drawing
// ---------------------------------------------------------------------

/// Columns the side rail keeps right of the rightmost node.
pub const RAIL_OFFSET: usize = 2;

/// Minimum rows between two layers.
pub const AUTO_STRIDE_ROWS: usize = 4;

/// Rows below the lowest box or riding block.
pub const CANVAS_BOTTOM_MARGIN: usize = 10;

/// Least room kept right of the widest node for the side rail.
pub const MIN_SIDE_ROOM: usize = 6;

/// The first `k` rects other than `a` and `b`.
pub open spec fn avoid_of(rs: Seq<Rect>, a: Rect, b: Rect, k: int) -> Seq<Rect>
    decreases k,
{
    if k <= 0 {
        Seq::empty()
    } else if rs[k - 1] != a && rs[k - 1] != b {
        avoid_of(rs, a, b, k - 1).push(rs[k - 1])
    } else {
        avoid_of(rs, a, b, k - 1)
    }
}

/// The rects connection `k` must avoid: every node but its two ends.
pub open spec fn conn_avoid(g: FlowSpec, rs: Seq<Rect>, k: int) -> Seq<Rect> {
    let (f, t) = ends(g, k);
    avoid_of(rs, rs[f], rs[t], rs.len() as int)
}

/// Widest extent of the nodes, at least the requested width.
pub open spec fn widest_right(g: FlowSpec, rs: Seq<Rect>) -> int {
    imax(max_right(rs), g.width as int)
}

/// Column of the side rail.
pub open spec fn rail_of(g: FlowSpec, rs: Seq<Rect>) -> int {
    let m = max_right(rs);
    imin(m + 2, imax(sat_sub(widest_right(g, rs) + MIN_SIDE_ROOM, 1), m + 1))
}

/// Connection `k` joins two nodes and its target lies lower.
pub open spec fn is_down(g: FlowSpec, rs: Seq<Rect>, k: int) -> bool {
    conn_ends(g, k) matches Some((f, t)) && rs[f].y < rs[t].y
}

/// Connection `k` joins two nodes and its target lies higher.
pub open spec fn is_up(g: FlowSpec, rs: Seq<Rect>, k: int) -> bool {
    conn_ends(g, k) matches Some((f, t)) && rs[f].y > rs[t].y
}

/// A downward connection with no clean corridor that takes the rail.
pub open spec fn side_routed(g: FlowSpec, rs: Seq<Rect>, k: int) -> bool {
    let (f, t) = ends(g, k);
    is_down(g, rs, k) && spec_forward_edge_side_routed(rs[f], rs[t], conn_avoid(g, rs, k), rail_of(g, rs) as usize)
}

/// Widest wrapped label among the first `k` connections for which
/// `pick` holds.
pub open spec fn widest_labels(ws: Seq<Seq<Seq<char>>>, pick: spec_fn(int) -> bool, k: int) -> int
    decreases k,
{
    if k <= 0 {
        0
    } else {
        let prev = widest_labels(ws, pick, k - 1);
        if pick(k - 1) {
            imax(prev, widest(ws[k - 1]) as int)
        } else {
            prev
        }
    }
}

/// Labelled side-routed connections.
pub open spec fn side_pick(g: FlowSpec, rs: Seq<Rect>) -> spec_fn(int) -> bool {
    |k: int| side_routed(g, rs, k) && g.conns[k].label is Some
}

/// Labelled upward connections.
pub open spec fn up_pick(g: FlowSpec, rs: Seq<Rect>) -> spec_fn(int) -> bool {
    |k: int| is_up(g, rs, k) && g.conns[k].label is Some
}

/// Room right of the nodes: the rail, a gap and the widest label drawn
/// beside it, at least `MIN_SIDE_ROOM`.
pub open spec fn side_room(g: FlowSpec, rs: Seq<Rect>, w3: Seq<Seq<Seq<char>>>, w4: Seq<Seq<Seq<char>>>) -> int {
    let n = g.conns.len() as int;
    let lw = imax(widest_labels(w4, up_pick(g, rs), n), widest_labels(w3, side_pick(g, rs), n));
    imax(sat_add((RAIL_OFFSET + 1) as int, lw), MIN_SIDE_ROOM as int)
}

/// Width of the drawing.
pub open spec fn total_width(g: FlowSpec, rs: Seq<Rect>, w3: Seq<Seq<Seq<char>>>, w4: Seq<Seq<Seq<char>>>) -> int {
    sat_add(widest_right(g, rs), side_room(g, rs, w3, w4))
}

/// Center column of a rect.
pub open spec fn center(r: Rect) -> int {
    r.x + r.w / 2
}

/// Lowest bottom of the first `k` rects.
pub open spec fn max_bottom(rs: Seq<Rect>, k: int) -> int
    decreases k,
{
    if k <= 0 {
        0
    } else {
        imax(max_bottom(rs, k - 1), rs[k - 1].bottom() as int)
    }
}

/// Lowest box bottom (10 for no boxes).
pub open spec fn box_bottom(rs: Seq<Rect>) -> int {
    if rs.len() == 0 {
        10
    } else {
        max_bottom(rs, rs.len() as int)
    }
}

/// A downward connection that keeps its corridor and turns sideways.
pub open spec fn is_corridor(g: FlowSpec, rs: Seq<Rect>, k: int) -> bool {
    let (f, t) = ends(g, k);
    is_down(g, rs, k) && !side_routed(g, rs, k) && center(rs[f]) != center(rs[t])
}

/// Bottom row of a corridor connection's label block (the row below
/// the source when it has none).
pub open spec fn corridor_bottom(g: FlowSpec, rs: Seq<Rect>, w5: Seq<Seq<Seq<char>>>, k: int) -> int {
    let (f, t) = ends(g, k);
    let sy = rs[f].bottom() as int;
    let ty = rs[t].y as int;
    if g.conns[k].label is Some {
        let n = w5[k].len() as int;
        sat_sub(sat_add(spec_corridor_label_block_top(sy + 1, n, sy, ty), n), 1)
    } else {
        sy + 1
    }
}

/// Wrap width of a corridor connection's label.
pub open spec fn corridor_avail(g: FlowSpec, rs: Seq<Rect>, k: int) -> int {
    let (f, t) = ends(g, k);
    spec_corridor_label_avail(dist(center(rs[f]), center(rs[t])) + 1, g.width as int)
}

/// Corridor siblings of source id `src` among the first `k`
/// connections: their target's center and label block bottom.
pub open spec fn fork_sibs(g: FlowSpec, rs: Seq<Rect>, w5: Seq<Seq<Seq<char>>>, src: Seq<char>, k: int) -> Seq<(usize, usize)>
    decreases k,
{
    if k <= 0 {
        Seq::empty()
    } else {
        let prev = fork_sibs(g, rs, w5, src, k - 1);
        if is_corridor(g, rs, k - 1) && g.conns[k - 1].from == src {
            prev.push((center(rs[ends(g, k - 1).1]) as usize, corridor_bottom(g, rs, w5, k - 1) as usize))
        } else {
            prev
        }
    }
}

/// Connection `k` rides its leg: downward, kept off the rail, labelled,
/// straight down, with corridor siblings at its source.
pub open spec fn flow_rider(g: FlowSpec, rs: Seq<Rect>, w5: Seq<Seq<Seq<char>>>, k: int) -> bool {
    let (f, t) = ends(g, k);
    &&& is_down(g, rs, k)
    &&& !side_routed(g, rs, k)
    &&& g.conns[k].label is Some
    &&& center(rs[f]) == center(rs[t])
    &&& fork_sibs(g, rs, w5, g.conns[k].from, g.conns.len() as int).len() > 0
}

/// The riders placed among the first `k` connections.
pub open spec fn placed_list(p: Seq<Option<RidingPlacement>>, k: int) -> Seq<PlacedRider>
    decreases k,
{
    if k <= 0 {
        Seq::empty()
    } else {
        match p[k - 1] {
            Some(pl) => placed_list(p, k - 1).push(PlacedRider { span: pl.span, rows: (pl.riding.block_top, pl.bottom) }),
            None => placed_list(p, k - 1),
        }
    }
}

/// The placement request of rider `k`.
pub open spec fn ride_request(
    g: FlowSpec,
    rs: Seq<Rect>,
    w3: Seq<Seq<Seq<char>>>,
    w4: Seq<Seq<Seq<char>>>,
    w5: Seq<Seq<Seq<char>>>,
    p: Seq<Option<RidingPlacement>>,
    k: int,
) -> RequestSpec {
    let (f, t) = ends(g, k);
    RequestSpec {
        label: label_of(g, k),
        from_rect: rs[f],
        to_rect: rs[t],
        sibs: fork_sibs(g, rs, w5, g.conns[k].from, g.conns.len() as int),
        boxes: conn_avoid(g, rs, k),
        placed: placed_list(p, k),
        user_width: g.width,
        canvas_w: total_width(g, rs, w3, w4) as usize,
        row_limit: sat_add(box_bottom(rs), CANVAS_BOTTOM_MARGIN as int) as usize,
    }
}

/// Lowest row below a riding block among the first `k` placements.
pub open spec fn riding_bottom(p: Seq<Option<RidingPlacement>>, k: int) -> int
    decreases k,
{
    if k <= 0 {
        0
    } else {
        match p[k - 1] {
            Some(pl) => imax(riding_bottom(p, k - 1), pl.bottom as int),
            None => riding_bottom(p, k - 1),
        }
    }
}

/// The wrappings, riding placements and connectors of one drawing.
pub struct FlowWitness {
    /// Side-routed labels wrapped at the width.
    pub w3: Seq<Seq<Seq<char>>>,
    /// Upward labels wrapped at the width.
    pub w4: Seq<Seq<Seq<char>>>,
    /// Corridor labels wrapped at their corridor.
    pub w5: Seq<Seq<Seq<char>>>,
    /// Rider labels as the placement wraps them.
    pub l6: Seq<Seq<Seq<char>>>,
    /// Riding placements.
    pub place: Seq<Option<RidingPlacement>>,
    /// Node labels.
    pub nl: Seq<Seq<Seq<char>>>,
    /// The connectors drawn.
    pub conns: Seq<Connector>,
    /// Connector labels as drawn.
    pub cl: Seq<Seq<Seq<char>>>,
}

/// Height of the drawing.
pub open spec fn total_height(rs: Seq<Rect>, p: Seq<Option<RidingPlacement>>) -> int {
    sat_add(imax(box_bottom(rs), riding_bottom(p, p.len() as int)), CANVAS_BOTTOM_MARGIN as int)
}

/// The nodes `0..k` drawn.
pub open spec fn draw_nodes(v: CanvasView, g: FlowSpec, rs: Seq<Rect>, nl: Seq<Seq<Seq<char>>>, k: int) -> CanvasView
    decreases k,
{
    if k <= 0 {
        v
    } else {
        node_view(draw_nodes(v, g, rs, nl, k - 1), g.nodes[k - 1], rs[k - 1], g.charset, nl[k - 1])
    }
}

/// Lines `0..k` of a riding block, centered on its column from its top.
pub open spec fn riding_rows(v: CanvasView, rl: RidingLabel, lines: Seq<Seq<char>>, k: int) -> CanvasView
    decreases k,
{
    if k <= 0 {
        v
    } else {
        riding_rows(v, rl, lines, k - 1).put_str(
            sat_sub(rl.center_x as int, chars_width(lines[k - 1]) as int / 2),
            sat_add(rl.block_top as int, k - 1),
            lines[k - 1],
            Layer::Label,
            None,
        )
    }
}

/// Connection `k` drawn over `v`.
pub open spec fn conn_step(v: CanvasView, g: FlowSpec, rs: Seq<Rect>, d: FlowWitness, k: int) -> CanvasView {
    match conn_ends(g, k) {
        None => v,
        Some((f, t)) => match d.place[k] {
            Some(pl) => riding_rows(connector_view(d.conns[k], v, Seq::empty()), pl.riding, d.cl[k], d.cl[k].len() as int),
            None => if rs[f].y >= rs[t].y || side_routed(g, rs, k) {
                side_route_view(d.conns[k], v, rs, v.width as int, d.cl[k])
            } else {
                connector_view(d.conns[k], v, d.cl[k])
            },
        },
    }
}

/// Connections `0..k` drawn over `v`.
pub open spec fn draw_conns(v: CanvasView, g: FlowSpec, rs: Seq<Rect>, d: FlowWitness, k: int) -> CanvasView
    decreases k,
{
    if k <= 0 {
        v
    } else {
        conn_step(draw_conns(v, g, rs, d, k - 1), g, rs, d, k - 1)
    }
}

/// `c` is the connector of connection `k`: south of its source to north
/// of its target, avoiding the other nodes, wrapped within the width,
/// carrying `label`.
pub open spec fn flow_conn_ok(c: Connector, g: FlowSpec, rs: Seq<Rect>, k: int, label: Option<Seq<char>>) -> bool {
    let (f, t) = ends(g, k);
    &&& c.source == snapped(rs[f], Anchor::South)
    &&& c.target == snapped(rs[t], Anchor::North)
    &&& c.source_anchor == Anchor::South
    &&& c.target_anchor == Anchor::North
    &&& c.source_rect == rs[f]
    &&& c.target_rect == rs[t]
    &&& c.avoid@ == conn_avoid(g, rs, k)
    &&& c.style == LineStyle::Simple
    &&& c.charset == g.charset
    &&& !c.arrow_tail
    &&& c.arrow_head == spec_glyph_for(pair_dir(Anchor::South), LineStyle::Simple, g.charset)
    &&& c.user_width == Some(g.width)
    &&& match c.label {
        Some(l) => label == Some(l@),
        None => label is None,
    }
}

/// The connector and wrapping of connection `k`, drawn over `v`, are
/// the ones the drawing uses.
pub open spec fn conn_witness_ok(v: CanvasView, g: FlowSpec, rs: Seq<Rect>, d: FlowWitness, k: int) -> bool {
    match conn_ends(g, k) {
        None => true,
        Some((f, t)) => match d.place[k] {
            Some(pl) => flow_conn_ok(d.conns[k], g, rs, k, None) && wraps_label(
                d.cl[k],
                label_of(g, k),
                pl.riding.wrap_w as int,
            ),
            None => {
                &&& flow_conn_ok(d.conns[k], g, rs, k, g.conns[k].label)
                &&& if rs[f].y >= rs[t].y || side_routed(g, rs, k) {
                    wraps_label(d.cl[k], label_chars(d.conns[k]), rail_avail(rs, v.width as int))
                } else {
                    wraps_label(
                        d.cl[k],
                        label_chars(d.conns[k]),
                        conn_label_avail(d.conns[k], spec_compute_path(d.conns[k]), v.width as int),
                    )
                }
            },
        },
    }
}

/// The canvas with the nodes drawn.
pub open spec fn nodes_view(g: FlowSpec, rs: Seq<Rect>, d: FlowWitness) -> CanvasView {
    draw_nodes(
        blank_view(total_width(g, rs, d.w3, d.w4) as nat, total_height(rs, d.place) as nat),
        g,
        rs,
        d.nl,
        g.nodes.len() as int,
    )
}

/// Rider `k`'s placement is the one `place_riding_label` gives for a
/// wrapping of its label.
pub open spec fn rider_ok(g: FlowSpec, rs: Seq<Rect>, d: FlowWitness, k: int) -> bool {
    let q = ride_request(g, rs, d.w3, d.w4, d.w5, d.place, k);
    &&& wraps_label(d.l6[k], q.label, ride_cols(q).0)
    &&& d.place[k] == Some(spec_place(q, d.l6[k]))
}

/// Every wrapping, placement and connector of `d` is the one the
/// drawing of `rs` uses.
pub open spec fn witness_ok(g: FlowSpec, rs: Seq<Rect>, d: FlowWitness) -> bool {
    let n = g.conns.len() as int;
    &&& d.w3.len() == n && d.w4.len() == n && d.w5.len() == n && d.l6.len() == n
    &&& d.place.len() == n && d.conns.len() == n && d.cl.len() == n
    &&& d.nl.len() == g.nodes.len()
    &&& forall|k: int| 0 <= k < n && side_pick(g, rs)(k) ==> #[trigger] wraps_label(d.w3[k], label_of(g, k), g.width as int)
    &&& forall|k: int| 0 <= k < n && up_pick(g, rs)(k) ==> #[trigger] wraps_label(d.w4[k], label_of(g, k), g.width as int)
    &&& forall|k: int|
        0 <= k < n && is_corridor(g, rs, k) && g.conns[k].label is Some ==> #[trigger] wraps_label(
            d.w5[k],
            label_of(g, k),
            corridor_avail(g, rs, k),
        )
    &&& forall|k: int| 0 <= k < n ==> (#[trigger] d.place[k] is Some <==> flow_rider(g, rs, d.w5, k))
    &&& forall|k: int|
        0 <= k < n && flow_rider(g, rs, d.w5, k) ==> #[trigger] rider_ok(g, rs, d, k)
    &&& forall|i: int|
        0 <= i < g.nodes.len() ==> #[trigger] wraps_label(d.nl[i], g.nodes[i].label, node_inner(rs[i]))
    &&& forall|k: int|
        0 <= k < n ==> #[trigger] conn_witness_ok(draw_conns(nodes_view(g, rs, d), g, rs, d, k), g, rs, d, k)
}

/// The text of the drawing of `rs` with witness `d`.
pub open spec fn flow_text(g: FlowSpec, rs: Seq<Rect>, d: FlowWitness) -> Seq<char> {
    draw_conns(nodes_view(g, rs, d), g, rs, d, g.conns.len() as int).repaired(g.charset, LineStyle::Simple).rendered(
        g.color,
    )
}

/// `out` is a drawing of the nodes at `rs`.
pub open spec fn drawn_at(g: FlowSpec, rs: Seq<Rect>, out: Seq<char>) -> bool {
    exists|d: FlowWitness| #[trigger] witness_ok(g, rs, d) && out == flow_text(g, rs, d)
}


/// The rects, their extents and the width stay far from the machine
/// range.
pub open spec fn all_fit(g: FlowSpec, rs: Seq<Rect>) -> bool {
    &&& g.width < usize::MAX / 8
    &&& forall|i: int| 0 <= i < rs.len() ==> #[trigger] rect_fits(rs[i])
}

proof fn lemma_max_right_fits(rs: Seq<Rect>)
    requires
        forall|i: int| 0 <= i < rs.len() ==> #[trigger] rect_fits(rs[i]),
    ensures
        max_right(rs) < usize::MAX / 8,
    decreases rs.len(),
{
    if rs.len() > 0 {
        assert forall|i: int| 0 <= i < rs.drop_last().len() implies #[trigger] rect_fits(rs.drop_last()[i]) by {
            assert(rs.drop_last()[i] == rs[i]);
        }
        lemma_max_right_fits(rs.drop_last());
        assert(rect_fits(rs[rs.len() - 1]));
    }
}

proof fn lemma_max_bottom_fits(rs: Seq<Rect>, k: int)
    requires
        0 <= k <= rs.len(),
        forall|i: int| 0 <= i < rs.len() ==> #[trigger] rect_fits(rs[i]),
    ensures
        0 <= max_bottom(rs, k) < usize::MAX / 8,
    decreases k,
{
    if k > 0 {
        lemma_max_bottom_fits(rs, k - 1);
        assert(rect_fits(rs[k - 1]));
    }
}

proof fn lemma_avoid_fits(rs: Seq<Rect>, a: Rect, b: Rect, k: int)
    requires
        0 <= k <= rs.len(),
        forall|i: int| 0 <= i < rs.len() ==> #[trigger] rect_fits(rs[i]),
    ensures
        forall|i: int| 0 <= i < avoid_of(rs, a, b, k).len() ==> #[trigger] rect_fits(avoid_of(rs, a, b, k)[i]),
    decreases k,
{
    if k > 0 {
        lemma_avoid_fits(rs, a, b, k - 1);
        let prev = avoid_of(rs, a, b, k - 1);
        let cur = avoid_of(rs, a, b, k);
        assert forall|i: int| 0 <= i < cur.len() implies #[trigger] rect_fits(cur[i]) by {
            if i < prev.len() {
                assert(cur[i] == prev[i]);
            } else {
                assert(rect_fits(rs[k - 1]));
            }
        }
    }
}

/// The rects other than `a` and `b` (see `avoid_of`).
fn avoid_rects(rs: &Vec<Rect>, a: Rect, b: Rect) -> (r: Vec<Rect>)
    ensures
        r@ == avoid_of(rs@, a, b, rs@.len() as int),
{
    let mut out: Vec<Rect> = Vec::new();
    let mut i: usize = 0;
    while i < rs.len()
        invariant
            i <= rs@.len(),
            out@ == avoid_of(rs@, a, b, i as int),
        decreases rs@.len() - i,
    {
        let r = rs[i];
        if !(r.x == a.x && r.y == a.y && r.w == a.w && r.h == a.h) && !(r.x == b.x && r.y == b.y && r.w == b.w && r.h == b.h) {
            out.push(r);
        }
        i = i + 1;
    }
    out
}

impl Flowchart {
    /// Whether each connection is side-routed, and the wrapped labels
    /// of the side-routed (`w3`) and upward (`w4`) ones.
    fn side_pass(&self, rects: &Vec<Rect>, rail: usize) -> (r: (Vec<bool>, Vec<Vec<String>>, Vec<Vec<String>>))
        requires
            rects@.len() == self@.nodes.len(),
            all_fit(self@, rects@),
            rail as int == rail_of(self@, rects@),
        ensures
            r.0@.len() == self@.conns.len(),
            r.1@.len() == self@.conns.len(),
            r.2@.len() == self@.conns.len(),
            forall|k: int| 0 <= k < self@.conns.len() ==> (#[trigger] r.0@[k]) == side_routed(self@, rects@, k),
            forall|k: int|
                0 <= k < self@.conns.len() ==> if side_pick(self@, rects@)(k) {
                    wraps_label(lines_of_all(r.1@)[k], label_of(self@, k), self@.width as int)
                } else {
                    lines_of_all(r.1@)[k].len() == 0
                },
            forall|k: int|
                0 <= k < self@.conns.len() ==> if up_pick(self@, rects@)(k) {
                    wraps_label(lines_of_all(r.2@)[k], label_of(self@, k), self@.width as int)
                } else {
                    lines_of_all(r.2@)[k].len() == 0
                },
    {
        let ghost g = self@;
        let mut sr: Vec<bool> = Vec::new();
        let mut w3: Vec<Vec<String>> = Vec::new();
        let mut w4: Vec<Vec<String>> = Vec::new();
        let mut k: usize = 0;
        while k < self.connections.len()
            invariant
                g == self@,
                rects@.len() == g.nodes.len(),
                all_fit(g, rects@),
                rail as int == rail_of(g, rects@),
                g.conns.len() == self.connections@.len(),
                k <= g.conns.len(),
                sr@.len() == k,
                w3@.len() == k,
                w4@.len() == k,
                forall|j: int| 0 <= j < k ==> (#[trigger] sr@[j]) == side_routed(g, rects@, j),
                forall|j: int|
                    0 <= j < k ==> if side_pick(g, rects@)(j) {
                        wraps_label(lines_of_all(w3@)[j], label_of(g, j), g.width as int)
                    } else {
                        lines_of_all(w3@)[j].len() == 0
                    },
                forall|j: int|
                    0 <= j < k ==> if up_pick(g, rects@)(j) {
                        wraps_label(lines_of_all(w4@)[j], label_of(g, j), g.width as int)
                    } else {
                        lines_of_all(w4@)[j].len() == 0
                    },
            decreases g.conns.len() - k,
        {
            proof {
                assert(g.conns[k as int] == conn_spec(self.connections@[k as int]));
            }
            let mut is_sr = false;
            let mut up = false;
            match self.ends_of(k) {
                Some((f, t)) => {
                    let a = rects[f];
                    let b = rects[t];
                    proof {
                        assert(rect_fits(rects@[f as int]));
                        assert(rect_fits(rects@[t as int]));
                    }
                    if a.y < b.y {
                        let avoid = avoid_rects(rects, a, b);
                        is_sr = crate::layout::side_route::forward_edge_side_routed(&a, &b, avoid.as_slice(), rail);
                    }
                    up = a.y > b.y;
                },
                None => {},
            }
            let mut l3: Vec<String> = Vec::new();
            let mut l4: Vec<String> = Vec::new();
            proof {
                assert(views(l3@) =~= Seq::<Seq<char>>::empty());
                assert(views(l4@) =~= Seq::<Seq<char>>::empty());
            }
            match &self.connections[k].label {
                Some(l) => {
                    if is_sr {
                        l3 = wrap_entry(l.as_str(), self.width);
                    }
                    if up {
                        l4 = wrap_entry(l.as_str(), self.width);
                    }
                },
                None => {},
            }
            let ghost o3 = w3@;
            let ghost o4 = w4@;
            sr.push(is_sr);
            w3.push(l3);
            w4.push(l4);
            proof {
                assert forall|j: int| 0 <= j < k implies lines_of_all(w3@)[j] == lines_of_all(o3)[j] by {}
                assert forall|j: int| 0 <= j < k implies lines_of_all(w4@)[j] == lines_of_all(o4)[j] by {}
                assert(lines_of_all(w3@)[k as int] == views(l3@));
                assert(lines_of_all(w4@)[k as int] == views(l4@));
                assert(side_pick(g, rects@)(k as int) == (is_sr && g.conns[k as int].label is Some));
                assert(up_pick(g, rects@)(k as int) == (up && g.conns[k as int].label is Some));
                assert forall|j: int| 0 <= j < k + 1 implies if side_pick(g, rects@)(j) {
                    wraps_label(lines_of_all(w3@)[j], label_of(g, j), g.width as int)
                } else {
                    lines_of_all(w3@)[j].len() == 0
                } by {
                    if j < k {
                        assert(lines_of_all(w3@)[j] == lines_of_all(o3)[j]);
                    }
                }
                assert forall|j: int| 0 <= j < k + 1 implies if up_pick(g, rects@)(j) {
                    wraps_label(lines_of_all(w4@)[j], label_of(g, j), g.width as int)
                } else {
                    lines_of_all(w4@)[j].len() == 0
                } by {
                    if j < k {
                        assert(lines_of_all(w4@)[j] == lines_of_all(o4)[j]);
                    }
                }
            }
            k = k + 1;
        }
        (sr, w3, w4)
    }
}


/// Widest wrapped label among those picked (the others have no lines).
fn widest_picked(ws: &Vec<Vec<String>>, Ghost(pick): Ghost<spec_fn(int) -> bool>) -> (r: usize)
    requires
        forall|k: int| 0 <= k < ws@.len() && !pick(k) ==> lines_of_all(ws@)[k].len() == 0,
    ensures
        r as int == widest_labels(lines_of_all(ws@), pick, ws@.len() as int),
{
    let ghost w = lines_of_all(ws@);
    let mut best: usize = 0;
    let mut k: usize = 0;
    while k < ws.len()
        invariant
            k <= ws@.len(),
            w == lines_of_all(ws@),
            forall|j: int| 0 <= j < ws@.len() && !pick(j) ==> w[j].len() == 0,
            best as int == widest_labels(w, pick, k as int),
        decreases ws@.len() - k,
    {
        let m = crate::diagrams::flowchart_riding::widest_of_lines(&ws[k]);
        proof {
            assert(w[k as int] == views(ws@[k as int]@));
            if !pick(k as int) {
                assert(w[k as int].len() == 0);
                assert(widest(w[k as int]) == 0);
            }
        }
        if m > best {
            best = m;
        }
        k = k + 1;
    }
    best
}

impl Flowchart {
    /// The corridor labels wrapped at their corridors (`w5`).
    fn fork_pass(&self, rects: &Vec<Rect>, sr: &Vec<bool>) -> (w5: Vec<Vec<String>>)
        requires
            rects@.len() == self@.nodes.len(),
            all_fit(self@, rects@),
            sr@.len() == self@.conns.len(),
            forall|k: int| 0 <= k < self@.conns.len() ==> (#[trigger] sr@[k]) == side_routed(self@, rects@, k),
        ensures
            w5@.len() == self@.conns.len(),
            forall|k: int|
                0 <= k < self@.conns.len() && is_corridor(self@, rects@, k) && self@.conns[k].label is Some ==> wraps_label(
                    #[trigger] lines_of_all(w5@)[k],
                    label_of(self@, k),
                    corridor_avail(self@, rects@, k),
                ),
    {
        let ghost g = self@;
        let mut w5: Vec<Vec<String>> = Vec::new();
        let mut k: usize = 0;
        while k < self.connections.len()
            invariant
                g == self@,
                rects@.len() == g.nodes.len(),
                all_fit(g, rects@),
                sr@.len() == g.conns.len(),
                forall|j: int| 0 <= j < g.conns.len() ==> (#[trigger] sr@[j]) == side_routed(g, rects@, j),
                g.conns.len() == self.connections@.len(),
                k <= g.conns.len(),
                w5@.len() == k,
                forall|j: int|
                    0 <= j < k && is_corridor(g, rects@, j) && g.conns[j].label is Some ==> wraps_label(
                        #[trigger] lines_of_all(w5@)[j],
                        label_of(g, j),
                        corridor_avail(g, rects@, j),
                    ),
            decreases g.conns.len() - k,
        {
            proof {
                assert(g.conns[k as int] == conn_spec(self.connections@[k as int]));
            }
            let mut lines: Vec<String> = Vec::new();
            match self.ends_of(k) {
                Some((f, t)) => {
                    let a = rects[f];
                    let b = rects[t];
                    proof {
                        assert(rect_fits(rects@[f as int]));
                        assert(rect_fits(rects@[t as int]));
                    }
                    let cf = a.x + a.w / 2;
                    let ct = b.x + b.w / 2;
                    if a.y < b.y && !sr[k] && cf != ct {
                        match &self.connections[k].label {
                            Some(l) => {
                                let d = if cf < ct {
                                    ct - cf
                                } else {
                                    cf - ct
                                };
                                let avail = crate::layout::riding::corridor_label_avail(d + 1, self.width);
                                lines = wrap_entry(l.as_str(), avail);
                            },
                            None => {},
                        }
                    }
                },
                None => {},
            }
            let ghost o5 = w5@;
            w5.push(lines);
            proof {
                assert forall|j: int|
                    0 <= j < k + 1 && is_corridor(g, rects@, j) && g.conns[j].label is Some implies wraps_label(
                        #[trigger] lines_of_all(w5@)[j],
                        label_of(g, j),
                        corridor_avail(g, rects@, j),
                    ) by {
                    if j < k {
                        assert(lines_of_all(w5@)[j] == lines_of_all(o5)[j]);
                    } else {
                        assert(lines_of_all(w5@)[j] == views(lines@));
                    }
                }
            }
            k = k + 1;
        }
        w5
    }

    /// The corridor siblings of source id `src` (see `fork_sibs`).
    #[verifier::rlimit(40)]
    #[verifier::spinoff_prover]
    fn fork_sibs_of(&self, rects: &Vec<Rect>, sr: &Vec<bool>, w5: &Vec<Vec<String>>, src: &Vec<char>) -> (r: Vec<(usize, usize)>)
        requires
            rects@.len() == self@.nodes.len(),
            all_fit(self@, rects@),
            sr@.len() == self@.conns.len(),
            forall|k: int| 0 <= k < self@.conns.len() ==> (#[trigger] sr@[k]) == side_routed(self@, rects@, k),
            w5@.len() == self@.conns.len(),
        ensures
            r@ == fork_sibs(self@, rects@, lines_of_all(w5@), src@, self@.conns.len() as int),
            forall|j: int| 0 <= j < r@.len() ==> ride_small((#[trigger] r@[j]).0 as int),
    {
        let ghost g = self@;
        let mut out: Vec<(usize, usize)> = Vec::new();
        let mut k: usize = 0;
        while k < self.connections.len()
            invariant
                g == self@,
                rects@.len() == g.nodes.len(),
                all_fit(g, rects@),
                sr@.len() == g.conns.len(),
                forall|j: int| 0 <= j < g.conns.len() ==> (#[trigger] sr@[j]) == side_routed(g, rects@, j),
                w5@.len() == g.conns.len(),
                g.conns.len() == self.connections@.len(),
                k <= g.conns.len(),
                out@ == fork_sibs(g, rects@, lines_of_all(w5@), src@, k as int),
                forall|j: int| 0 <= j < out@.len() ==> ride_small((#[trigger] out@[j]).0 as int),
            decreases g.conns.len() - k,
        {
            proof {
                assert(g.conns[k as int] == conn_spec(self.connections@[k as int]));
                assert(lines_of_all(w5@)[k as int].len() == w5@[k as int]@.len());
            }
            match self.ends_of(k) {
                Some((f, t)) => {
                    let a = rects[f];
                    let b = rects[t];
                    proof {
                        assert(rect_fits(rects@[f as int]));
                        assert(rect_fits(rects@[t as int]));
                    }
                    let cf = a.x + a.w / 2;
                    let ct = b.x + b.w / 2;
                    let from = chars_of(self.connections[k].from.as_str());
                    if a.y < b.y && !sr[k] && cf != ct && chars_eq(from.as_slice(), src.as_slice()) {
                        let sy = a.y + a.h;
                        let bb = match &self.connections[k].label {
                            Some(_) => {
                                let n = w5[k].len();
                                crate::layout::riding::corridor_label_block_top(sy + 1, n, sy, b.y).saturating_add(n).saturating_sub(1)
                            },
                            None => sy + 1,
                        };
                        proof {
                            assert(a.bottom() == sy);
                        }
                        out.push((ct, bb));
                    }
                },
                None => {},
            }
            k = k + 1;
        }
        out
    }
}


proof fn lemma_placed_list_prefix(a: Seq<Option<RidingPlacement>>, b: Seq<Option<RidingPlacement>>, k: int)
    requires
        0 <= k <= a.len(),
        k <= b.len(),
        forall|j: int| 0 <= j < k ==> a[j] == b[j],
    ensures
        placed_list(a, k) == placed_list(b, k),
        riding_bottom(a, k) == riding_bottom(b, k),
    decreases k,
{
    if k > 0 {
        lemma_placed_list_prefix(a, b, k - 1);
    }
}

proof fn lemma_riding_bottom_range(p: Seq<Option<RidingPlacement>>, k: int)
    requires
        0 <= k <= p.len(),
    ensures
        0 <= riding_bottom(p, k) <= usize::MAX,
    decreases k,
{
    if k > 0 {
        lemma_riding_bottom_range(p, k - 1);
    }
}

impl Flowchart {
    /// Place the riders in declaration order; returns the placements and
    /// the wrappings the placement used.
    fn ride_pass(
        &self,
        rects: &Vec<Rect>,
        sr: &Vec<bool>,
        w5: &Vec<Vec<String>>,
        total_w: usize,
        row_limit: usize,
        Ghost(w3): Ghost<Seq<Seq<Seq<char>>>>,
        Ghost(w4): Ghost<Seq<Seq<Seq<char>>>>,
    ) -> (r: (Vec<Option<RidingPlacement>>, Ghost<Seq<Seq<Seq<char>>>>))
        requires
            rects@.len() == self@.nodes.len(),
            all_fit(self@, rects@),
            sr@.len() == self@.conns.len(),
            forall|k: int| 0 <= k < self@.conns.len() ==> (#[trigger] sr@[k]) == side_routed(self@, rects@, k),
            w5@.len() == self@.conns.len(),
            total_w as int == total_width(self@, rects@, w3, w4),
            row_limit as int == sat_add(box_bottom(rects@), CANVAS_BOTTOM_MARGIN as int),
        ensures
            r.0@.len() == self@.conns.len(),
            r.1@.len() == self@.conns.len(),
            forall|k: int| 0 <= k < self@.conns.len() ==> (#[trigger] r.0@[k] is Some <==> flow_rider(self@, rects@, lines_of_all(w5@), k)),
            forall|k: int|
                0 <= k < self@.conns.len() && flow_rider(self@, rects@, lines_of_all(w5@), k) ==> {
                    let q = #[trigger] ride_request(self@, rects@, w3, w4, lines_of_all(w5@), r.0@, k);
                    &&& wraps_label(r.1@[k], q.label, ride_cols(q).0)
                    &&& r.0@[k] == Some(spec_place(q, r.1@[k]))
                },
    {
        let ghost g = self@;
        let ghost lw5 = lines_of_all(w5@);
        let mut place: Vec<Option<RidingPlacement>> = Vec::new();
        let mut placed: Vec<PlacedRider> = Vec::new();
        let ghost mut l6: Seq<Seq<Seq<char>>> = Seq::empty();
        let mut k: usize = 0;
        while k < self.connections.len()
            invariant
                g == self@,
                lw5 == lines_of_all(w5@),
                rects@.len() == g.nodes.len(),
                all_fit(g, rects@),
                sr@.len() == g.conns.len(),
                forall|j: int| 0 <= j < g.conns.len() ==> (#[trigger] sr@[j]) == side_routed(g, rects@, j),
                w5@.len() == g.conns.len(),
                total_w as int == total_width(g, rects@, w3, w4),
                row_limit as int == sat_add(box_bottom(rects@), CANVAS_BOTTOM_MARGIN as int),
                g.conns.len() == self.connections@.len(),
                k <= g.conns.len(),
                place@.len() == k,
                l6.len() == k,
                placed@ == placed_list(place@, k as int),
                forall|j: int| 0 <= j < k ==> (#[trigger] place@[j] is Some <==> flow_rider(g, rects@, lw5, j)),
                forall|j: int|
                    0 <= j < k && flow_rider(g, rects@, lw5, j) ==> {
                        let q = #[trigger] ride_request(g, rects@, w3, w4, lw5, place@, j);
                        &&& wraps_label(l6[j], q.label, ride_cols(q).0)
                        &&& place@[j] == Some(spec_place(q, l6[j]))
                    },
            decreases g.conns.len() - k,
        {
            proof {
                assert(g.conns[k as int] == conn_spec(self.connections@[k as int]));
            }
            let ghost p0 = place@;
            let mut got: Option<RidingPlacement> = None;
            let ghost mut lines: Seq<Seq<char>> = Seq::empty();
            match self.ends_of(k) {
                Some((f, t)) => {
                    let a = rects[f];
                    let b = rects[t];
                    proof {
                        assert(rect_fits(rects@[f as int]));
                        assert(rect_fits(rects@[t as int]));
                    }
                    let cf = a.x + a.w / 2;
                    let ct = b.x + b.w / 2;
                    if a.y < b.y && !sr[k] && cf == ct {
                        match &self.connections[k].label {
                            Some(l) => {
                                let src = chars_of(self.connections[k].from.as_str());
                                let sibs = self.fork_sibs_of(rects, sr, w5, &src);
                                if sibs.len() > 0 {
                                    let boxes = avoid_rects(rects, a, b);
                                    let req = RidingRequest {
                                        label: l.as_str(),
                                        from_rect: a,
                                        to_rect: b,
                                        sibs: sibs.as_slice(),
                                        boxes: boxes.as_slice(),
                                        placed: placed.as_slice(),
                                        user_width: self.width,
                                        canvas_w: total_w,
                                        row_limit,
                                    };
                                    proof {
                                        assert(req@ == ride_request(g, rects@, w3, w4, lw5, p0, k as int));
                                        lemma_nearest_small(
                                            crate::diagrams::flowchart_riding::far_cols(sibs@),
                                            crate::diagrams::flowchart_riding::leg_col(req@),
                                            sibs@.len() as int,
                                        );
                                    }
                                    let pl = place_riding_label(&req);
                                    proof {
                                        lines = choose|ls: Seq<Seq<char>>|
                                            #[trigger] wraps_label(ls, req@.label, ride_cols(req@).0) && pl == spec_place(req@, ls);
                                    }
                                    got = Some(pl);
                                }
                            },
                            None => {},
                        }
                    }
                },
                None => {},
            }
            place.push(got);
            proof {
                l6 = l6.push(lines);
                assert forall|j: int| 0 <= j < k implies place@[j] == p0[j] by {}
                lemma_placed_list_prefix(place@, p0, k as int);
                assert forall|j: int|
                    0 <= j < k + 1 && flow_rider(g, rects@, lw5, j) implies {
                        let q = #[trigger] ride_request(g, rects@, w3, w4, lw5, place@, j);
                        &&& wraps_label(l6[j], q.label, ride_cols(q).0)
                        &&& place@[j] == Some(spec_place(q, l6[j]))
                    } by {
                    lemma_placed_list_prefix(place@, p0, j);
                    assert(ride_request(g, rects@, w3, w4, lw5, place@, j) == ride_request(g, rects@, w3, w4, lw5, p0, j));
                }
            }
            match got {
                Some(pl) => {
                    placed.push(PlacedRider { span: pl.span, rows: (pl.riding.block_top, pl.bottom) });
                },
                None => {},
            }
            k = k + 1;
        }
        (place, Ghost(l6))
    }
}


/// Draw the lines of a riding block (see `riding_rows`).
fn draw_riding_rows(canvas: &mut Canvas, rl: RidingLabel, lines: &Vec<String>)
    requires
        old(canvas)@.wf(),
    ensures
        final(canvas)@.wf(),
        final(canvas)@ == riding_rows(old(canvas)@, rl, views(lines@), lines@.len() as int),
{
    let ghost v0 = canvas@;
    let ghost ls = views(lines@);
    let mut i: usize = 0;
    while i < lines.len()
        invariant
            i <= lines@.len(),
            ls == views(lines@),
            canvas@.wf(),
            canvas@ == riding_rows(v0, rl, ls, i as int),
        decreases lines@.len() - i,
    {
        let l = chars_of(lines[i].as_str());
        proof {
            assert(ls[i as int] == lines@[i as int]@);
        }
        let lw = seq_display_width(l.as_slice());
        canvas.put_chars_layered(rl.center_x.saturating_sub(lw / 2), rl.block_top.saturating_add(i), l.as_slice(), Layer::Label, None);
        i = i + 1;
    }
}

proof fn lemma_draw_conns_prefix(v: CanvasView, g: FlowSpec, rs: Seq<Rect>, d1: FlowWitness, d2: FlowWitness, k: int)
    requires
        0 <= k,
        d1.place == d2.place,
        k <= d1.conns.len(),
        k <= d2.conns.len(),
        k <= d1.cl.len(),
        k <= d2.cl.len(),
        forall|j: int| 0 <= j < k ==> d1.conns[j] == d2.conns[j] && d1.cl[j] == d2.cl[j],
    ensures
        draw_conns(v, g, rs, d1, k) == draw_conns(v, g, rs, d2, k),
    decreases k,
{
    if k > 0 {
        lemma_draw_conns_prefix(v, g, rs, d1, d2, k - 1);
        assert(d1.conns[k - 1] == d2.conns[k - 1]);
    }
}

impl Flowchart {
    /// Draw every node; returns the label wrappings used.
    fn draw_all_nodes(&self, canvas: &mut Canvas, rects: &Vec<Rect>) -> (nl: Ghost<Seq<Seq<Seq<char>>>>)
        requires
            old(canvas)@.wf(),
            rects@.len() == self@.nodes.len(),
            all_fit(self@, rects@),
            forall|i: int| 0 <= i < rects@.len() ==> #[trigger] shape_ok(self@.nodes[i].shape, rects@[i]),
        ensures
            final(canvas)@.wf(),
            nl@.len() == self@.nodes.len(),
            forall|i: int|
                0 <= i < self@.nodes.len() ==> #[trigger] wraps_label(nl@[i], self@.nodes[i].label, node_inner(rects@[i])),
            final(canvas)@ == draw_nodes(old(canvas)@, self@, rects@, nl@, self@.nodes.len() as int),
    {
        let ghost g = self@;
        let ghost v0 = canvas@;
        let ghost mut nl: Seq<Seq<Seq<char>>> = Seq::empty();
        let mut i: usize = 0;
        while i < rects.len()
            invariant
                g == self@,
                rects@.len() == g.nodes.len(),
                all_fit(g, rects@),
                forall|j: int| 0 <= j < rects@.len() ==> #[trigger] shape_ok(g.nodes[j].shape, rects@[j]),
                i <= rects@.len(),
                nl.len() == i,
                forall|j: int| 0 <= j < i ==> #[trigger] wraps_label(nl[j], g.nodes[j].label, node_inner(rects@[j])),
                canvas@.wf(),
                canvas@ == draw_nodes(v0, g, rects@, nl, i as int),
            decreases rects@.len() - i,
        {
            let ghost vb = canvas@;
            proof {
                assert(rect_fits(rects@[i as int]));
                assert(shape_ok(g.nodes[i as int].shape, rects@[i as int]));
            }
            self.draw_node(canvas, i, rects[i]);
            proof {
                let ls = choose|ls: Seq<Seq<char>>|
                    #[trigger] wraps_label(ls, g.nodes[i as int].label, node_inner(rects@[i as int])) && canvas@ == node_view(
                        vb,
                        g.nodes[i as int],
                        rects@[i as int],
                        self.charset,
                        ls,
                    );
                let nl0 = nl;
                nl = nl.push(ls);
                assert(draw_nodes(v0, g, rects@, nl, i as int) == draw_nodes(v0, g, rects@, nl0, i as int)) by {
                    lemma_draw_nodes_prefix(v0, g, rects@, nl, nl0, i as int);
                }
            }
            i = i + 1;
        }
        Ghost(nl)
    }
}

proof fn lemma_draw_nodes_prefix(v: CanvasView, g: FlowSpec, rs: Seq<Rect>, a: Seq<Seq<Seq<char>>>, b: Seq<Seq<Seq<char>>>, k: int)
    requires
        0 <= k <= a.len(),
        k <= b.len(),
        forall|j: int| 0 <= j < k ==> a[j] == b[j],
    ensures
        draw_nodes(v, g, rs, a, k) == draw_nodes(v, g, rs, b, k),
    decreases k,
{
    if k > 0 {
        lemma_draw_nodes_prefix(v, g, rs, a, b, k - 1);
    }
}


impl Flowchart {
    /// Draw every connection over the nodes; returns the connectors and
    /// label wrappings used.
    #[verifier::rlimit(60)]
    fn draw_connections(
        &self,
        canvas: &mut Canvas,
        rects: &Vec<Rect>,
        sr: &Vec<bool>,
        place: &Vec<Option<RidingPlacement>>,
        Ghost(d0): Ghost<FlowWitness>,
    ) -> (r: Ghost<(Seq<Connector>, Seq<Seq<Seq<char>>>)>)
        requires
            old(canvas)@.wf(),
            rects@.len() == self@.nodes.len(),
            all_fit(self@, rects@),
            sr@.len() == self@.conns.len(),
            forall|k: int| 0 <= k < self@.conns.len() ==> (#[trigger] sr@[k]) == side_routed(self@, rects@, k),
            place@ == d0.place,
            place@.len() == self@.conns.len(),
            forall|k: int| 0 <= k < self@.conns.len() ==> (#[trigger] place@[k] is Some <==> flow_rider(self@, rects@, d0.w5, k)),
        ensures
            final(canvas)@.wf(),
            r@.0.len() == self@.conns.len(),
            r@.1.len() == self@.conns.len(),
            ({
                let d = FlowWitness { conns: r@.0, cl: r@.1, ..d0 };
                &&& final(canvas)@ == draw_conns(old(canvas)@, self@, rects@, d, self@.conns.len() as int)
                &&& forall|k: int|
                    0 <= k < self@.conns.len() ==> #[trigger] conn_witness_ok(
                        draw_conns(old(canvas)@, self@, rects@, d, k),
                        self@,
                        rects@,
                        d,
                        k,
                    )
            }),
    {
        let ghost g = self@;
        let ghost v0 = canvas@;
        let ghost mut cg: Seq<Connector> = Seq::empty();
        let ghost mut clg: Seq<Seq<Seq<char>>> = Seq::empty();
        proof {
            lemma_max_right_fits(rects@);
        }
        let mut k: usize = 0;
        while k < self.connections.len()
            invariant
                g == self@,
                rects@.len() == g.nodes.len(),
                all_fit(g, rects@),
                max_right(rects@) < usize::MAX / 8,
                sr@.len() == g.conns.len(),
                forall|j: int| 0 <= j < g.conns.len() ==> (#[trigger] sr@[j]) == side_routed(g, rects@, j),
                place@ == d0.place,
                place@.len() == g.conns.len(),
                forall|j: int| 0 <= j < g.conns.len() ==> (#[trigger] place@[j] is Some <==> flow_rider(g, rects@, d0.w5, j)),
                g.conns.len() == self.connections@.len(),
                k <= g.conns.len(),
                cg.len() == k,
                clg.len() == k,
                canvas@.wf(),
                canvas@ == draw_conns(v0, g, rects@, FlowWitness { conns: cg, cl: clg, ..d0 }, k as int),
                forall|j: int|
                    0 <= j < k ==> #[trigger] conn_witness_ok(
                        draw_conns(v0, g, rects@, FlowWitness { conns: cg, cl: clg, ..d0 }, j),
                        g,
                        rects@,
                        FlowWitness { conns: cg, cl: clg, ..d0 },
                        j,
                    ),
            decreases g.conns.len() - k,
        {
            proof {
                assert(g.conns[k as int] == conn_spec(self.connections@[k as int]));
            }
            let ghost vb = canvas@;
            let ghost dk = FlowWitness { conns: cg, cl: clg, ..d0 };
            let ghost mut cnew: Connector = vstd::pervasive::arbitrary();
            let ghost mut lnew: Seq<Seq<char>> = Seq::empty();
            match self.ends_of(k) {
                Some((f, t)) => {
                    let a = rects[f];
                    let b = rects[t];
                    proof {
                        assert(rect_fits(rects@[f as int]));
                        assert(rect_fits(rects@[t as int]));
                        lemma_avoid_fits(rects@, a, b, rects@.len() as int);
                    }
                    let avoid = avoid_rects(rects, a, b);
                    proof {
                        lemma_max_right_fits(avoid@);
                    }
                    let mut c = Connector::new(a, b, Anchor::South, Anchor::North, LineStyle::Simple, self.charset).with_avoids(
                        avoid.as_slice(),
                    ).with_user_width(self.width);
                    match &place[k] {
                        Some(pl) => {
                            c.render(canvas);
                            let ghost vc = canvas@;
                            proof {
                                let lc = choose|lc: Seq<Seq<char>>|
                                    #[trigger] wraps_label(
                                        lc,
                                        label_chars(c),
                                        conn_label_avail(c, spec_compute_path(c), vb.width as int),
                                    ) && canvas@ == connector_view(c, vb, lc);
                                assert(connector_view(c, vb, lc) == connector_view(c, vb, Seq::empty()));
                            }
                            let lines = match &self.connections[k].label {
                                Some(l) => wrap_entry(l.as_str(), pl.riding.wrap_w),
                                None => Vec::new(),
                            };
                            draw_riding_rows(canvas, pl.riding, &lines);
                            proof {
                                cnew = c;
                                lnew = views(lines@);
                            }
                        },
                        None => {
                            match &self.connections[k].label {
                                Some(l) => {
                                    c.label = Some(owned(l.as_str()));
                                },
                                None => {},
                            }
                            if a.y >= b.y || sr[k] {
                                let w = canvas.width();
                                c.render_side_route(canvas, rects.as_slice(), w);
                                proof {
                                    lnew = choose|lc: Seq<Seq<char>>|
                                        #[trigger] wraps_label(lc, label_chars(c), rail_avail(rects@, w as int)) && canvas@
                                            == side_route_view(c, vb, rects@, w as int, lc);
                                }
                            } else {
                                c.render(canvas);
                                proof {
                                    lnew = choose|lc: Seq<Seq<char>>|
                                        #[trigger] wraps_label(
                                            lc,
                                            label_chars(c),
                                            conn_label_avail(c, spec_compute_path(c), vb.width as int),
                                        ) && canvas@ == connector_view(c, vb, lc);
                                }
                            }
                            proof {
                                cnew = c;
                            }
                        },
                    }
                },
                None => {},
            }
            proof {
                let cg0 = cg;
                let clg0 = clg;
                cg = cg.push(cnew);
                clg = clg.push(lnew);
                let d1 = FlowWitness { conns: cg, cl: clg, ..d0 };
                lemma_draw_conns_prefix(v0, g, rects@, d1, dk, k as int);
                assert forall|j: int|
                    0 <= j < k + 1 implies #[trigger] conn_witness_ok(draw_conns(v0, g, rects@, d1, j), g, rects@, d1, j) by {
                    lemma_draw_conns_prefix(v0, g, rects@, d1, dk, j);
                    if j < k {
                        assert(conn_witness_ok(draw_conns(v0, g, rects@, dk, j), g, rects@, dk, j));
                        assert(d1.conns[j] == dk.conns[j]);
                        assert(d1.cl[j] == dk.cl[j]);
                    }
                }
            }
            k = k + 1;
        }
        Ghost((cg, clg))
    }
}


impl Flowchart {
    /// Draw the nodes at `rects` and route every connection (see
    /// `drawn_at`).
    fn render_positions(&self, rects: &Vec<Rect>) -> (out: String)
        requires
            rects@.len() == self@.nodes.len(),
            all_fit(self@, rects@),
            forall|i: int| 0 <= i < rects@.len() ==> #[trigger] shape_ok(self@.nodes[i].shape, rects@[i]),
        ensures
            drawn_at(self@, rects@, out@),
    {
        let ghost g = self@;
        proof {
            lemma_max_right_fits(rects@);
            lemma_max_bottom_fits(rects@, rects@.len() as int);
        }
        let m = crate::layout::routing::max_right_exec(rects.as_slice());
        let max_w = if m > self.width {
            m
        } else {
            self.width
        };
        let rail = crate::layout::routing::side_route_column(rects.as_slice(), max_w + MIN_SIDE_ROOM);
        let (sr, w3, w4) = self.side_pass(rects, rail);
        let sw = widest_picked(&w3, Ghost(side_pick(g, rects@)));
        let bw = widest_picked(&w4, Ghost(up_pick(g, rects@)));
        let lw = if bw > sw {
            bw
        } else {
            sw
        };
        let room0 = (RAIL_OFFSET + 1).saturating_add(lw);
        let room = if room0 > MIN_SIDE_ROOM {
            room0
        } else {
            MIN_SIDE_ROOM
        };
        let total_w = max_w.saturating_add(room);
        assert(total_w as int == total_width(g, rects@, lines_of_all(w3@), lines_of_all(w4@)));
        let w5 = self.fork_pass(rects, &sr);
        // Lowest box bottom.
        let mut bb: usize = 0;
        let mut i: usize = 0;
        while i < rects.len()
            invariant
                i <= rects@.len(),
                bb as int == max_bottom(rects@, i as int),
                forall|j: int| 0 <= j < rects@.len() ==> #[trigger] rect_fits(rects@[j]),
            decreases rects@.len() - i,
        {
            proof {
                assert(rect_fits(rects@[i as int]));
            }
            let b = rects[i].y + rects[i].h;
            if b > bb {
                bb = b;
            }
            i = i + 1;
        }
        let box_b: usize = if rects.len() == 0 {
            10
        } else {
            bb
        };
        let row_limit = box_b.saturating_add(CANVAS_BOTTOM_MARGIN);
        let (place, l6) = self.ride_pass(
            rects,
            &sr,
            &w5,
            total_w,
            row_limit,
            Ghost(lines_of_all(w3@)),
            Ghost(lines_of_all(w4@)),
        );
        let mut rb: usize = 0;
        let mut k: usize = 0;
        while k < place.len()
            invariant
                k <= place@.len(),
                rb as int == riding_bottom(place@, k as int),
            decreases place@.len() - k,
        {
            match place[k] {
                Some(pl) => {
                    if pl.bottom > rb {
                        rb = pl.bottom;
                    }
                },
                None => {},
            }
            k = k + 1;
        }
        let tall = if box_b > rb {
            box_b
        } else {
            rb
        };
        let height = tall.saturating_add(CANVAS_BOTTOM_MARGIN);
        let mut canvas = Canvas::new(total_w, height);
        let nl = self.draw_all_nodes(&mut canvas, rects);
        let ghost d0 = FlowWitness {
            w3: lines_of_all(w3@),
            w4: lines_of_all(w4@),
            w5: lines_of_all(w5@),
            l6: l6@,
            place: place@,
            nl: nl@,
            conns: Seq::empty(),
            cl: Seq::empty(),
        };
        let ghost v1 = canvas@;
        proof {
            assert(v1 == nodes_view(g, rects@, d0));
        }
        let r = self.draw_connections(&mut canvas, rects, &sr, &place, Ghost(d0));
        canvas.repair_connector_junctions(LineStyle::Simple, self.charset);
        let out = canvas.render(self.color);
        proof {
            let d = FlowWitness { conns: r@.0, cl: r@.1, ..d0 };
            assert(nodes_view(g, rects@, d) == v1);
            assert(witness_ok(g, rects@, d)) by {
                assert forall|k: int| 0 <= k < g.conns.len() && flow_rider(g, rects@, d.w5, k) implies #[trigger] rider_ok(g, rects@, d, k) by {
                    assert(ride_request(g, rects@, d.w3, d.w4, d.w5, d.place, k) == ride_request(g, rects@, lines_of_all(w3@), lines_of_all(w4@), lines_of_all(w5@), place@, k));
                }
            }
            assert(out@ == flow_text(g, rects@, d));
        }
        out
    }
}


/// Message of a flowchart without nodes.
pub open spec fn no_nodes_message() -> Seq<char> {
    seq!['f', 'l', 'o', 'w', 'c', 'h', 'a', 'r', 't', ' ', 'm', 'u', 's', 't', ' ', 'h', 'a', 'v', 'e', ' ', 'n', 'o', 'd', 'e', 's']
}

/// Message of a flowchart whose layout reaches beyond the machine range.
pub open spec fn too_large_message() -> Seq<char> {
    seq!['f', 'l', 'o', 'w', 'c', 'h', 'a', 'r', 't', ' ', 't', 'o', 'o', ' ', 'l', 'a', 'r', 'g', 'e']
}

/// `rects` is the layout `g` asks for.
pub open spec fn laid_out(g: FlowSpec, rects: Seq<Rect>) -> bool {
    match g.layout {
        Layout::Manual => is_manual(g, rects),
        Layout::Auto => is_auto(g, rects),
    }
}

/// What building `g` gives: `MissingFields` without nodes or (in manual
/// layout) for the first node without a position; otherwise the
/// drawing of its layout, or `InvalidDimensions` when the layout
/// reaches beyond an eighth of the machine range.
pub open spec fn flow_result(g: FlowSpec, r: Result<String>) -> bool {
    if g.nodes.len() == 0 {
        r matches Err(FigoError::MissingFields(m)) && m@ == no_nodes_message()
    } else if g.layout == Layout::Manual && first_unplaced(g.nodes, g.nodes.len() as int) is Some {
        r matches Err(FigoError::MissingFields(m)) && m@ == unplaced_message(
            g.nodes[first_unplaced(g.nodes, g.nodes.len() as int)->0].id,
        )
    } else {
        exists|rects: Seq<Rect>|
            #[trigger] laid_out(g, rects) && if all_fit(g, rects) {
                r matches Ok(s) && drawn_at(g, rects, s@)
            } else {
                r matches Err(FigoError::InvalidDimensions(m)) && m@ == too_large_message()
            }
    }
}

proof fn lemma_dims_shape(g: FlowSpec, dims: Seq<Size>, i: int)
    requires
        all_dims(g, dims),
        0 <= i < dims.len(),
    ensures
        g.nodes[i].shape == NodeShape::Diamond ==> dims[i].w == dims[i].h && dims[i].h >= 1,
{
    assert(is_node_dims(g.nodes[i], g.width as int, dims[i]));
}

/// `all_fit`, decided.
fn fits_exec(width: usize, rects: &Vec<Rect>) -> (r: bool)
    ensures
        r == (width < usize::MAX / 8 && forall|i: int| 0 <= i < rects@.len() ==> #[trigger] rect_fits(rects@[i])),
{
    let b = usize::MAX / 8;
    if width >= b {
        return false;
    }
    let mut i: usize = 0;
    while i < rects.len()
        invariant
            i <= rects@.len(),
            b == usize::MAX / 8,
            forall|j: int| 0 <= j < i ==> #[trigger] rect_fits(rects@[j]),
        decreases rects@.len() - i,
    {
        let r = rects[i];
        if r.x >= b || r.w >= b || r.y >= b || r.h >= b || r.x + r.w + 4 >= b || r.y + r.h + 4 >= b {
            assert(!rect_fits(rects@[i as int]));
            return false;
        }
        i = i + 1;
    }
    true
}

impl Flowchart {
    /// Draw the flowchart (see `flow_result`).
    pub fn build(&self) -> (r: Result<String>)
        ensures
            flow_result(self@, r),
    {
        let ghost g = self@;
        if self.nodes.len() == 0 {
            let v = vec!['f', 'l', 'o', 'w', 'c', 'h', 'a', 'r', 't', ' ', 'm', 'u', 's', 't', ' ', 'h', 'a', 'v', 'e', ' ', 'n', 'o', 'd', 'e', 's'];
            assert(v@ =~= no_nodes_message());
            return Err(FigoError::MissingFields(string_from_chars(v.as_slice())));
        }
        let rects = match self.layout {
            Layout::Manual => match self.layout_manual() {
                Ok(v) => v,
                Err(e) => {
                    return Err(e);
                },
            },
            Layout::Auto => self.layout_auto(),
        };
        proof {
            assert(laid_out(g, rects@));
        }
        if !fits_exec(self.width, &rects) {
            let v = vec!['f', 'l', 'o', 'w', 'c', 'h', 'a', 'r', 't', ' ', 't', 'o', 'o', ' ', 'l', 'a', 'r', 'g', 'e'];
            assert(v@ =~= too_large_message());
            return Err(FigoError::InvalidDimensions(string_from_chars(v.as_slice())));
        }
        proof {
            assert forall|i: int| 0 <= i < rects@.len() implies #[trigger] shape_ok(g.nodes[i].shape, rects@[i]) by {
                match g.layout {
                    Layout::Manual => {
                        let dims = choose|dims: Seq<Size>|
                            #[trigger] all_dims(g, dims) && rects@.len() == g.nodes.len() && forall|j: int|
                                0 <= j < rects@.len() ==> (#[trigger] rects@[j]) == (Rect {
                                    x: pos_x(g.nodes[j].position),
                                    y: pos_y(g.nodes[j].position),
                                    w: dims[j].w,
                                    h: dims[j].h,
                                });
                        lemma_dims_shape(g, dims, i);
                    },
                    Layout::Auto => {
                        let (dims, order, back, layers) = choose|
                            dims: Seq<Size>,
                            order: Seq<usize>,
                            back: Seq<(usize, usize)>,
                            layers: Seq<usize>,
                        |
                            #[trigger] all_dims(g, dims) && #[trigger] is_layering(
                                flow_adj(g, g.conns.len() as int),
                                order,
                                back,
                                layers,
                                g.nodes.len(),
                            ) && is_auto_layout(g, dims, layers, rects@);
                        lemma_dims_shape(g, dims, i);
                        let (w1, w2) = choose|w1: Seq<Seq<Seq<char>>>, w2: Seq<Seq<Seq<char>>>|
                            #[trigger] layout_wraps(g, dims, layers, w1, w2) && rects@.len() == g.nodes.len() && forall|j: int|
                                0 <= j < rects@.len() ==> rects@[j] == auto_rect(g, dims, layers, w1, w2, j);
                        assert(rects@[i] == auto_rect(g, dims, layers, w1, w2, i));
                    },
                }
            }
        }
        Ok(self.render_positions(&rects))
    }

    /// Same as `build`.
    pub fn render(&self) -> (r: Result<String>)
        ensures
            flow_result(self@, r),
    {
        self.build()
    }
}

} // verus!
