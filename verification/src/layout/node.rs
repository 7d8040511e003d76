//! Nodes: labeled, possibly bordered rectangles on the canvas.
//!
//! A node owns a [`Rect`], an optional border, an optional title, and
//! content rows. It computes its minimum size from its content and
//! draws its border at the node-border layer and its text at the
//! node-content layer, so connectors drawn earlier are clipped at its
//! border.

use vstd::prelude::*;
use crate::canvas::{
    lemma_put_inside, lemma_put_str_inside, lemma_rect_inside, lemma_same_outside_refl,
    lemma_same_outside_trans, same_outside, Canvas, CanvasView, Layer,
};
use crate::diagrams::arrow::sat_add;
use crate::geom::{Anchor, Rect};
use crate::style::{spec_glyphs, Alignment, BorderStyle, Charset, HAlign, LineStyle, Padding, VAlign};
use crate::text::{
    aligned_line, align_chars, all_within, concat, lines_of, plain_text, strip_spaces, views,
    vv, wrap_chars, greedy_wrap,
};
use crate::width::{char_width_or, chars_of, chars_width, printable_ascii, seq_display_width, width_or};

verus! {

/// Stable identifier for a node.
#[derive(Clone, Copy, Debug, PartialEq, Eq, Structural)]
pub struct NodeId(pub u32);

/// One content row of a node: plain text (wrapped to the content width
/// when drawn) or lines already wrapped by the caller.
#[derive(Clone, Debug)]
pub enum NodeLine {
    Text(String),
    Raw(Vec<String>),
}

/// Widest display width among `ls` (0 for none).
pub open spec fn widest_of(ls: Seq<Seq<char>>) -> int {
    crate::text::widest(ls) as int
}

/// Display width of the widest line of a content row.
pub open spec fn line_widest(l: NodeLine) -> int {
    match l {
        NodeLine::Text(s) => chars_width(s@) as int,
        NodeLine::Raw(rows) => widest_of(views(rows@)),
    }
}

/// Text lines a content row contributes before wrapping.
pub open spec fn line_rows(l: NodeLine) -> Seq<Seq<char>> {
    match l {
        NodeLine::Text(s) => seq![s@],
        NodeLine::Raw(rows) => views(rows@),
    }
}

impl NodeLine {
    /// Display width of the widest line.
    pub fn widest(&self) -> (r: usize)
        ensures
            r == line_widest(*self),
    {
        match self {
            NodeLine::Text(s) => seq_display_width(chars_of(s.as_str()).as_slice()),
            NodeLine::Raw(rows) => {
                let mut best: usize = 0;
                let mut i: usize = 0;
                while i < rows.len()
                    invariant
                        i <= rows@.len(),
                        best == crate::text::widest(views(rows@).take(i as int)),
                    decreases rows@.len() - i,
                {
                    let w = seq_display_width(chars_of(rows[i].as_str()).as_slice());
                    assert(views(rows@).take(i + 1).drop_last() =~= views(rows@).take(i as int));
                    if w > best {
                        best = w;
                    }
                    i = i + 1;
                }
                assert(views(rows@).take(rows@.len() as int) =~= views(rows@));
                best
            },
        }
    }
}

/// A node to draw: border at the node-border layer, content at the
/// node-content layer.
#[derive(Clone, Debug)]
pub struct Node {
    pub id: NodeId,
    pub rect: Rect,
    pub border: Option<BorderStyle>,
    pub fill: Option<char>,
    pub title: Option<String>,
    pub title_align: HAlign,
    pub content: Vec<NodeLine>,
    pub padding: Padding,
    pub align: Alignment,
    pub charset: Charset,
    /// The title sits inside the top border edge instead of being the
    /// first content row.
    pub title_in_border: bool,
}

/// The title's text (empty when absent).
pub open spec fn title_text(n: Node) -> Seq<char> {
    match n.title {
        Some(t) => t@,
        None => Seq::empty(),
    }
}

/// Widest content row among the first `k`.
pub open spec fn content_widest(c: Seq<NodeLine>, k: int) -> int
    decreases k,
{
    if k <= 0 {
        0
    } else {
        let a = content_widest(c, k - 1);
        let b = line_widest(c[k - 1]);
        if b > a {
            b
        } else {
            a
        }
    }
}

/// Rows the first `k` content rows take.
pub open spec fn content_rows(c: Seq<NodeLine>, k: int) -> int
    decreases k,
{
    if k <= 0 {
        0
    } else {
        sat_add(
            content_rows(c, k - 1),
            match c[k - 1] {
                NodeLine::Text(_) => 1,
                NodeLine::Raw(rows) => rows@.len() as int,
            },
        )
    }
}

/// Cells of border on each axis (2 with a border, else 0).
pub open spec fn border_cells(n: Node) -> int {
    if n.border is Some {
        2
    } else {
        0
    }
}

/// Minimum width: widest content or title, plus padding and border.
pub open spec fn spec_min_width(n: Node) -> int {
    let inner = content_widest(n.content@, n.content@.len() as int);
    let tw = match n.title {
        Some(t) => chars_width(t@) as int,
        None => 0,
    };
    let m = if inner > tw {
        inner
    } else {
        tw
    };
    sat_add(sat_add(m, n.padding.horizontal * 2), border_cells(n))
}

/// Minimum height: title row (unless in the border), content rows,
/// padding and border.
pub open spec fn spec_min_height(n: Node) -> int {
    let title_row: int = if n.title is Some && !n.title_in_border {
        1
    } else {
        0
    };
    sat_add(
        sat_add(title_row + content_rows(n.content@, n.content@.len() as int), n.padding.vertical * 2),
        border_cells(n),
    )
}

/// The node's sizes stay far from `usize::MAX`.
pub open spec fn node_fits(n: Node) -> bool {
    &&& n.padding.horizontal <= usize::MAX / 4
    &&& n.padding.vertical <= usize::MAX / 4
    &&& n.rect.x + n.rect.w + n.padding.horizontal * 2 + 8 <= usize::MAX
    &&& n.rect.y + n.rect.h + n.padding.vertical * 2 + 8 <= usize::MAX
}

impl Node {
    /// A node at `rect` with no border, fill, title, or content.
    pub fn new(id: NodeId, charset: Charset, rect: Rect) -> (r: Node)
        ensures
            r.id == id,
            r.rect == rect,
            r.border is None,
            r.fill is None,
            r.title is None,
            r.title_align == HAlign::Left,
            r.content@.len() == 0,
            r.padding == (Padding { horizontal: 0, vertical: 0 }),
            r.align == (Alignment { horizontal: HAlign::Left, vertical: VAlign::Top }),
            r.charset == charset,
            !r.title_in_border,
    {
        Node {
            id,
            rect,
            border: None,
            fill: None,
            title: None,
            title_align: HAlign::Left,
            content: Vec::new(),
            padding: Padding::none(),
            align: Alignment::top_left(),
            charset,
            title_in_border: false,
        }
    }

    /// Minimum width this node needs (see [`spec_min_width`]).
    pub fn min_width(&self) -> (r: usize)
        requires
            node_fits(*self),
        ensures
            r == spec_min_width(*self),
    {
        let mut inner: usize = 0;
        let mut i: usize = 0;
        while i < self.content.len()
            invariant
                i <= self.content@.len(),
                inner == content_widest(self.content@, i as int),
            decreases self.content@.len() - i,
        {
            let w = self.content[i].widest();
            if w > inner {
                inner = w;
            }
            i = i + 1;
        }
        let tw = match &self.title {
            Some(t) => seq_display_width(chars_of(t.as_str()).as_slice()),
            None => 0,
        };
        let m = if inner > tw {
            inner
        } else {
            tw
        };
        let border: usize = if self.border.is_some() {
            2
        } else {
            0
        };
        m.saturating_add(self.padding.horizontal * 2).saturating_add(border)
    }

    /// Minimum height this node needs (see [`spec_min_height`]).
    pub fn min_height(&self) -> (r: usize)
        requires
            node_fits(*self),
        ensures
            r == spec_min_height(*self),
    {
        let title_row: usize = if self.title.is_some() && !self.title_in_border {
            1
        } else {
            0
        };
        let mut rows: usize = 0;
        let mut i: usize = 0;
        while i < self.content.len()
            invariant
                i <= self.content@.len(),
                rows == content_rows(self.content@, i as int),
            decreases self.content@.len() - i,
        {
            let k = match &self.content[i] {
                NodeLine::Text(_) => 1,
                NodeLine::Raw(r) => r.len(),
            };
            rows = rows.saturating_add(k);
            i = i + 1;
        }
        let border: usize = if self.border.is_some() {
            2
        } else {
            0
        };
        title_row.saturating_add(rows).saturating_add(self.padding.vertical * 2).saturating_add(border)
    }

    /// Anchor point on this node's perimeter.
    pub fn anchor(&self, a: Anchor) -> (r: (usize, usize))
        ensures
            r == self.rect.anchor(a),
    {
        self.rect.anchor(a)
    }
}

/// Horizontal line glyph for a line style and charset.
pub open spec fn spec_horizontal_line_glyph(style: LineStyle, charset: Charset) -> char {
    match (style, charset) {
        (LineStyle::Bold, _) => '━',
        (LineStyle::BoxDrawing, _) => '─',
        (LineStyle::Simple, Charset::Unicode) => '─',
        (LineStyle::Simple, Charset::Ascii) => '-',
    }
}

/// Vertical line glyph for a line style and charset.
pub open spec fn spec_vertical_line_glyph(style: LineStyle, charset: Charset) -> char {
    match (style, charset) {
        (LineStyle::Bold, _) => '┃',
        (LineStyle::BoxDrawing, _) => '│',
        (LineStyle::Simple, Charset::Unicode) => '│',
        (LineStyle::Simple, Charset::Ascii) => '|',
    }
}

pub fn horizontal_line_glyph(style: LineStyle, charset: Charset) -> (r: char)
    ensures
        r == spec_horizontal_line_glyph(style, charset),
{
    match (style, charset) {
        (LineStyle::Bold, _) => '━',
        (LineStyle::BoxDrawing, _) => '─',
        (LineStyle::Simple, Charset::Unicode) => '─',
        (LineStyle::Simple, Charset::Ascii) => '-',
    }
}

pub fn vertical_line_glyph(style: LineStyle, charset: Charset) -> (r: char)
    ensures
        r == spec_vertical_line_glyph(style, charset),
{
    match (style, charset) {
        (LineStyle::Bold, _) => '┃',
        (LineStyle::BoxDrawing, _) => '│',
        (LineStyle::Simple, Charset::Unicode) => '│',
        (LineStyle::Simple, Charset::Ascii) => '|',
    }
}

// ---------------------------------------------------------------------
// Drawing
// ---------------------------------------------------------------------

/// Writes of `c` over columns `x0 .. x0 + k` of row `y`.
pub open spec fn fill_row(v: CanvasView, x0: int, y: int, k: int, c: char) -> CanvasView
    decreases k,
{
    if k <= 0 {
        v
    } else {
        fill_row(v, x0, y, k - 1, c).put(x0 + k - 1, y, c, Layer::NodeContent, None)
    }
}

/// Writes of `c` over rows `y0 .. y0 + k`, columns `x0 .. x0 + w`.
pub open spec fn fill_area(v: CanvasView, x0: int, w: int, y0: int, k: int, c: char) -> CanvasView
    decreases k,
{
    if k <= 0 {
        v
    } else {
        fill_row(fill_area(v, x0, w, y0, k - 1, c), x0, y0 + k - 1, w, c)
    }
}

proof fn lemma_fill_row_inside(v: CanvasView, x0: int, row: int, k: int, c: char, x: int, y: int, w: int, h: int)
    requires
        v.wf(),
        k <= 0 || (x <= x0 && x0 + k <= x + w && y <= row < y + h),
    ensures
        fill_row(v, x0, row, k, c).wf(),
        same_outside(v, fill_row(v, x0, row, k, c), x, y, w, h),
    decreases k,
{
    if k <= 0 {
        lemma_same_outside_refl(v, x, y, w, h);
    } else {
        lemma_fill_row_inside(v, x0, row, k - 1, c, x, y, w, h);
        let p = fill_row(v, x0, row, k - 1, c);
        lemma_put_inside(p, x0 + k - 1, row, c, Layer::NodeContent, None, x, y, w, h);
        lemma_same_outside_trans(v, p, fill_row(v, x0, row, k, c), x, y, w, h);
    }
}

proof fn lemma_fill_area_inside(v: CanvasView, x0: int, fw: int, y0: int, k: int, c: char, x: int, y: int, w: int, h: int)
    requires
        v.wf(),
        fw <= 0 || k <= 0 || (x <= x0 && x0 + fw <= x + w && y <= y0 && y0 + k <= y + h),
    ensures
        fill_area(v, x0, fw, y0, k, c).wf(),
        same_outside(v, fill_area(v, x0, fw, y0, k, c), x, y, w, h),
    decreases k,
{
    if k <= 0 {
        lemma_same_outside_refl(v, x, y, w, h);
    } else {
        lemma_fill_area_inside(v, x0, fw, y0, k - 1, c, x, y, w, h);
        let p = fill_area(v, x0, fw, y0, k - 1, c);
        lemma_fill_row_inside(p, x0, y0 + k - 1, fw, c, x, y, w, h);
        lemma_same_outside_trans(v, p, fill_area(v, x0, fw, y0, k, c), x, y, w, h);
    }
}

/// A printable ASCII line no wider than `width`, aligned in `width`
/// columns, is `width` printable ASCII characters.
proof fn lemma_aligned_ascii(l: Seq<char>, width: int, align: HAlign)
    requires
        printable_ascii(l),
        l.len() <= width,
    ensures
        aligned_line(l, l.len() as int, width, align).len() == width,
        printable_ascii(aligned_line(l, l.len() as int, width, align)),
{
    let a = aligned_line(l, l.len() as int, width, align);
    let pad: nat = (width - l.len()) as nat;
    assert(printable_ascii(crate::text::spaces(pad)));
    assert(printable_ascii(crate::text::spaces(pad / 2)));
    assert(printable_ascii(crate::text::spaces((pad - pad / 2) as nat)));
    match align {
        HAlign::Left => {
            assert forall|i: int| 0 <= i < a.len() implies 0x20 <= (#[trigger] a[i]) as u32 && (a[i] as u32) < 0x7F by {
                if i < l.len() {
                    assert(a[i] == l[i]);
                } else {
                    assert(a[i] == crate::text::spaces(pad)[i - l.len()]);
                }
            }
        },
        HAlign::Right => {
            assert forall|i: int| 0 <= i < a.len() implies 0x20 <= (#[trigger] a[i]) as u32 && (a[i] as u32) < 0x7F by {
                if i < pad {
                    assert(a[i] == crate::text::spaces(pad)[i]);
                } else {
                    assert(a[i] == l[i - pad]);
                }
            }
        },
        HAlign::Center => {
            let s1 = crate::text::spaces(pad / 2);
            let s2 = crate::text::spaces((pad - pad / 2) as nat);
            assert forall|i: int| 0 <= i < a.len() implies 0x20 <= (#[trigger] a[i]) as u32 && (a[i] as u32) < 0x7F by {
                if i < s1.len() {
                    assert(a[i] == s1[i]);
                } else if i < s1.len() + l.len() {
                    assert(a[i] == l[i - s1.len()]);
                } else {
                    assert(a[i] == s2[i - s1.len() - l.len()]);
                }
            }
        },
    }
}

proof fn lemma_fit_len_le(s: Seq<char>, max: int, i: int, w: int)
    requires
        0 <= i <= s.len(),
    ensures
        0 <= fit_len(s, max, i, w) <= s.len() - i,
    decreases s.len() - i,
{
    if i < s.len() {
        lemma_fit_len_le(s, max, i + 1, w + char_width_or(s[i], 1) as int);
    }
}

proof fn lemma_border_title_ascii(n: Node)
    requires
        printable_ascii(title_text(n)),
    ensures
        printable_ascii(border_title(n)),
{
    let t = title_text(n);
    let max = if n.rect.w > 4 { n.rect.w - 4 } else { 0 };
    lemma_fit_len_le(t, max, 0, 0);
    let d = border_title(n);
    assert forall|i: int| 0 <= i < d.len() implies 0x20 <= (#[trigger] d[i]) as u32 && (d[i] as u32) < 0x7F by {
        assert(d[i] == t[i]);
    }
}

/// The node's title and rows are printable ASCII, and it is at least
/// four columns wide (room for a border title and its two spaces).
pub open spec fn node_ascii(n: Node) -> bool {
    &&& printable_ascii(title_text(n))
    &&& forall|k: int| 0 <= k < node_rows(n).len() ==> printable_ascii(#[trigger] node_rows(n)[k])
    &&& n.rect.w >= 4
}

proof fn lemma_printable_plain(s: Seq<char>)
    requires
        printable_ascii(s),
    ensures
        plain_text(s),
{
    assert forall|i: int| 0 <= i < s.len() implies (#[trigger] s[i]) == '\n' || (0x20 <= s[i] as u32 && (s[i] as u32) < 0x7F) by {}
}

proof fn lemma_all_within_add(a: Seq<Seq<char>>, b: Seq<Seq<char>>, m: int)
    requires
        all_within(a, m),
        all_within(b, m),
    ensures
        all_within(a + b, m),
{
    assert forall|k: int| 0 <= k < (a + b).len() implies (#[trigger] (a + b)[k]).len() <= m && printable_ascii((a + b)[k]) by {
        if k < a.len() {
            assert((a + b)[k] == a[k]);
        } else {
            assert((a + b)[k] == b[k - a.len()]);
        }
    }
}

proof fn lemma_padded_ascii(d: Seq<char>)
    requires
        printable_ascii(d),
    ensures
        printable_ascii(seq![' '] + d + seq![' ']),
{
    let s = seq![' '] + d + seq![' '];
    assert forall|i: int| 0 <= i < s.len() implies 0x20 <= (#[trigger] s[i]) as u32 && (s[i] as u32) < 0x7F by {
        if 0 < i < s.len() - 1 {
            assert(s[i] == d[i - 1]);
        }
    }
}

/// The border title, padded by a space on each side, lies on the
/// node's top row within its width.
proof fn lemma_border_title_inside(n: Node, v0: CanvasView, x: int, s: Seq<char>)
    requires
        v0.wf(),
        crate::canvas::narrow_chars(s),
        s == seq![' '] + border_title(n) + seq![' '],
        border_title(n).len() <= (if n.rect.w > 4 { n.rect.w - 4 } else { 0 }),
        chars_width(border_title(n)) == border_title(n).len(),
        x == border_title_x(n, chars_width(border_title(n)) as int),
        n.rect.w >= 4,
        n.rect.h >= 1,
    ensures
        same_outside(
            v0,
            v0.put_str(x, n.rect.y as int, s, Layer::NodeContent, None),
            n.rect.x as int,
            n.rect.y as int,
            n.rect.w as int,
            n.rect.h as int,
        ),
{
    assert(n.rect.x <= x && x + s.len() <= n.rect.x + n.rect.w);
    lemma_put_str_inside(
        v0,
        x,
        n.rect.y as int,
        s,
        Layer::NodeContent,
        None,
        n.rect.x as int,
        n.rect.y as int,
        n.rect.w as int,
        n.rect.h as int,
    );
}

/// Length of the longest prefix of `s[i..]` whose widths (control
/// characters counted as 1), added to `w`, stay within `max`.
pub open spec fn fit_len(s: Seq<char>, max: int, i: int, w: int) -> int
    decreases s.len() - i,
{
    if i >= s.len() || i < 0 {
        0
    } else {
        let cw = char_width_or(s[i], 1) as int;
        if w + cw > max {
            0
        } else {
            1 + fit_len(s, max, i + 1, w + cw)
        }
    }
}

/// The part of the title that fits in the top border: at most the
/// rect's width less 4 columns.
pub open spec fn border_title(n: Node) -> Seq<char> {
    let t = title_text(n);
    let max = if n.rect.w > 4 { n.rect.w - 4 } else { 0 };
    t.take(fit_len(t, max, 0, 0))
}

/// Column where the border title starts, as its alignment says.
pub open spec fn border_title_x(n: Node, dw: int) -> int {
    match n.title_align {
        HAlign::Left => n.rect.x + 2,
        HAlign::Center => n.rect.x + (if n.rect.w > dw + 2 { n.rect.w - (dw + 2) } else { 0 }) / 2,
        HAlign::Right => n.rect.x + (if n.rect.w > dw + 3 { n.rect.w - (dw + 3) } else { 0 }),
    }
}

/// The node's text rows before wrapping: the title (unless it sits in
/// the border), then each content row's lines.
pub open spec fn node_rows(n: Node) -> Seq<Seq<char>> {
    let t = if n.title is Some && !n.title_in_border {
        seq![title_text(n)]
    } else {
        Seq::empty()
    };
    t + content_lines(n.content@, n.content@.len() as int)
}

/// Lines of the first `k` content rows.
pub open spec fn content_lines(c: Seq<NodeLine>, k: int) -> Seq<Seq<char>>
    decreases k,
{
    if k <= 0 {
        Seq::empty()
    } else {
        content_lines(c, k - 1) + line_rows(c[k - 1])
    }
}

/// `p` is how a row `r` is laid out in `w` columns: kept whole when it
/// fits, else wrapped as [`crate::text::word_wrap`] wraps.
pub open spec fn piece_ok(r: Seq<char>, p: Seq<Seq<char>>, w: int) -> bool {
    if chars_width(r) <= w {
        p == seq![r]
    } else {
        p == greedy_wrap(r, w)
    }
}

/// Each row has its layout in `pieces`.
pub open spec fn pieces_ok(rows: Seq<Seq<char>>, pieces: Seq<Seq<Seq<char>>>, w: int) -> bool {
    &&& pieces.len() == rows.len()
    &&& forall|k: int| 0 <= k < rows.len() ==> #[trigger] piece_ok(rows[k], pieces[k], w)
}

/// All lines of the pieces, in order.
pub open spec fn flatten(pieces: Seq<Seq<Seq<char>>>) -> Seq<Seq<char>>
    decreases pieces.len(),
{
    if pieces.len() == 0 {
        Seq::empty()
    } else {
        flatten(pieces.drop_last()) + pieces.last()
    }
}

/// Content column of a node.
pub open spec fn inner_x(n: Node) -> int {
    n.rect.x + n.padding.horizontal + (if n.border is Some { 1int } else { 0int })
}

/// Content row of a node.
pub open spec fn inner_y(n: Node) -> int {
    n.rect.y + n.padding.vertical + (if n.border is Some { 1int } else { 0int })
}

/// Content width of a node.
pub open spec fn inner_w(n: Node) -> int {
    let used = n.padding.horizontal * 2 + border_cells(n);
    if n.rect.w > used { n.rect.w - used } else { 0 }
}

/// Content height of a node.
pub open spec fn inner_h(n: Node) -> int {
    let used = n.padding.vertical * 2 + border_cells(n);
    if n.rect.h > used { n.rect.h - used } else { 0 }
}

/// First content row offset for `total` lines, as the vertical
/// alignment says.
pub open spec fn start_y(n: Node, total: int) -> int {
    let ih = inner_h(n);
    match n.align.vertical {
        VAlign::Top => 0,
        VAlign::Middle => (if ih > total { ih - total } else { 0 }) / 2,
        VAlign::Bottom => if ih > total { ih - total } else { 0 },
    }
}

/// Lines `0..k` written from content row `y0` in column `x`, each
/// aligned in `w` columns.
pub open spec fn node_lines(v: CanvasView, lines: Seq<Seq<char>>, x: int, y0: int, w: int, align: HAlign, k: int) -> CanvasView
    decreases k,
{
    if k <= 0 {
        v
    } else {
        let l = lines[k - 1];
        node_lines(v, lines, x, y0, w, align, k - 1).put_str(
            x,
            y0 + k - 1,
            aligned_line(l, chars_width(l) as int, w, align),
            Layer::NodeContent,
            None,
        )
    }
}

/// The canvas after drawing node `n` over `v`, its rows laid out as
/// `lines`.
pub open spec fn node_picture(n: Node, v: CanvasView, lines: Seq<Seq<char>>) -> CanvasView {
    let r = n.rect;
    let v1 = match n.border {
        Some(b) => if r.w >= 2 && r.h >= 2 {
            v.rect(r.x as int, r.y as int, r.w as int, r.h as int, spec_glyphs(b, n.charset))
        } else {
            v
        },
        None => v,
    };
    let v2 = match n.fill {
        Some(c) => {
            let fw = if r.w > 2 { r.w - 2 } else { 0 };
            let fh = if r.h > 2 { r.h - 2 } else { 0 };
            fill_area(v1, r.x + 1, fw, r.y + 1, fh, c)
        },
        None => v1,
    };
    if inner_w(n) == 0 || inner_h(n) == 0 {
        v2
    } else {
        let v3 = if n.title_in_border && n.title is Some {
            let d = border_title(n);
            v2.put_str(
                border_title_x(n, chars_width(d) as int),
                r.y as int,
                seq![' '] + d + seq![' '],
                Layer::NodeContent,
                None,
            )
        } else {
            v2
        };
        let total = lines.len() as int;
        let sy = start_y(n, total);
        let count = if inner_h(n) > sy { if total < inner_h(n) - sy { total } else { inner_h(n) - sy } } else { 0 };
        node_lines(v3, lines, inner_x(n), inner_y(n) + sy, inner_w(n), n.align.horizontal, count)
    }
}

/// `after` is node `n` drawn over `before` for some layout of its rows.
pub open spec fn node_drawn(n: Node, before: CanvasView, after: CanvasView) -> bool {
    exists|pieces: Seq<Seq<Seq<char>>>|
        #[trigger] pieces_ok(node_rows(n), pieces, inner_w(n)) && after == node_picture(
            n,
            before,
            flatten(pieces),
        )
}

proof fn lemma_content_lines_push(c: Seq<NodeLine>, k: int)
    requires
        0 <= k < c.len(),
    ensures
        content_lines(c, k + 1) == content_lines(c, k) + line_rows(c[k]),
{
}

proof fn lemma_vv_push(s: Seq<Vec<char>>, x: Vec<char>)
    ensures
        vv(s.push(x)) == vv(s).push(x@),
{
    assert(vv(s.push(x)) =~= vv(s).push(x@));
}

proof fn lemma_flatten_push(p: Seq<Seq<Seq<char>>>, x: Seq<Seq<char>>)
    ensures
        flatten(p.push(x)) == flatten(p) + x,
{
    assert(p.push(x).drop_last() =~= p);
}

impl Node {
    /// Write the fill character over the node's interior.
    fn draw_fill(&self, canvas: &mut Canvas, c: char)
        requires
            old(canvas)@.wf(),
            node_fits(*self),
        ensures
            final(canvas)@.wf(),
            final(canvas)@ == fill_area(
                old(canvas)@,
                self.rect.x + 1,
                if self.rect.w > 2 { self.rect.w - 2 } else { 0 },
                self.rect.y + 1,
                if self.rect.h > 2 { self.rect.h - 2 } else { 0 },
                c,
            ),
    {
        let fw = self.rect.w.saturating_sub(2);
        let fh = self.rect.h.saturating_sub(2);
        let x0 = self.rect.x + 1;
        let y0 = self.rect.y + 1;
        let ghost v0 = canvas@;
        let mut j: usize = 0;
        while j < fh
            invariant
                j <= fh,
                y0 + fh <= usize::MAX,
                x0 + fw <= usize::MAX,
                canvas@.wf(),
                canvas@ == fill_area(v0, x0 as int, fw as int, y0 as int, j as int, c),
            decreases fh - j,
        {
            let ghost vr = canvas@;
            let mut i: usize = 0;
            while i < fw
                invariant
                    i <= fw,
                    j < fh,
                    y0 + fh <= usize::MAX,
                    x0 + fw <= usize::MAX,
                    canvas@.wf(),
                    canvas@ == fill_row(vr, x0 as int, (y0 + j) as int, i as int, c),
                decreases fw - i,
            {
                canvas.put_layered(x0 + i, y0 + j, c, Layer::NodeContent, None);
                i = i + 1;
            }
            j = j + 1;
        }
    }

    /// The part of the title that fits in the top border.
    fn border_title_chars(&self) -> (r: Vec<char>)
        ensures
            r@ == border_title(*self),
            printable_ascii(title_text(*self)) ==> r@.len() <= (if self.rect.w > 4 { self.rect.w - 4 } else { 0 }),
    {
        let t: Vec<char> = match &self.title {
            Some(s) => chars_of(s.as_str()),
            None => Vec::new(),
        };
        let max = self.rect.w.saturating_sub(4);
        let mut w: usize = 0;
        let mut k: usize = 0;
        while k < t.len()
            invariant
                k <= t@.len(),
                w <= max,
                t@ == title_text(*self),
                fit_len(t@, max as int, 0, 0) == k + fit_len(t@, max as int, k as int, w as int),
                printable_ascii(t@) ==> w == k,
            ensures
                k <= t@.len(),
                t@ == title_text(*self),
                fit_len(t@, max as int, 0, 0) == k,
                printable_ascii(t@) ==> k <= max,
            decreases t@.len() - k,
        {
            let cw = width_or(t[k], 1);
            assert(printable_ascii(t@) ==> 0x20 <= t@[k as int] as u32 && (t@[k as int] as u32) < 0x7F);
            if cw > max - w {
                break;
            }
            w = w + cw;
            k = k + 1;
        }
        let mut out: Vec<char> = Vec::new();
        let mut i: usize = 0;
        while i < k
            invariant
                i <= k <= t@.len(),
                out@ == t@.take(i as int),
            decreases k - i,
        {
            out.push(t[i]);
            i = i + 1;
            assert(out@ =~= t@.take(i as int));
        }
        out
    }

    /// Write the title inside the top border edge.
    fn draw_inline_border_title(&self, canvas: &mut Canvas)
        requires
            old(canvas)@.wf(),
            node_fits(*self),
        ensures
            final(canvas)@.wf(),
            final(canvas)@ == old(canvas)@.put_str(
                border_title_x(*self, chars_width(border_title(*self)) as int),
                self.rect.y as int,
                seq![' '] + border_title(*self) + seq![' '],
                Layer::NodeContent,
                None,
            ),
            printable_ascii(title_text(*self)) && self.rect.w >= 4 && self.rect.h >= 1 ==> same_outside(
                old(canvas)@,
                final(canvas)@,
                self.rect.x as int,
                self.rect.y as int,
                self.rect.w as int,
                self.rect.h as int,
            ),
    {
        let ghost v0 = canvas@;
        let d = self.border_title_chars();
        proof {
            if printable_ascii(title_text(*self)) {
                lemma_border_title_ascii(*self);
            }
        }
        let dw = seq_display_width(d.as_slice());
        let x = match self.title_align {
            HAlign::Left => self.rect.x + 2,
            HAlign::Center => self.rect.x + self.rect.w.saturating_sub(dw.saturating_add(2)) / 2,
            HAlign::Right => self.rect.x + self.rect.w.saturating_sub(dw.saturating_add(3)),
        };
        proof {
            assert(x == border_title_x(*self, dw as int));
        }
        let mut s: Vec<char> = Vec::new();
        s.push(' ');
        s.extend_from_slice(d.as_slice());
        s.push(' ');
        assert(s@ =~= seq![' '] + border_title(*self) + seq![' ']);
        proof {
            if printable_ascii(title_text(*self)) {
                lemma_padded_ascii(d@);
            }
        }
        canvas.put_chars_layered(x, self.rect.y, s.as_slice(), Layer::NodeContent, None);
        proof {
            if printable_ascii(title_text(*self)) && self.rect.w >= 4 && self.rect.h >= 1 {
                lemma_border_title_inside(*self, v0, x as int, s@);
            }
        }
    }

    /// The text rows before wrapping (see [`node_rows`]).
    fn rows(&self) -> (r: Vec<Vec<char>>)
        ensures
            vv(r@) == node_rows(*self),
    {
        let mut rows: Vec<Vec<char>> = Vec::new();
        if self.title.is_some() && !self.title_in_border {
            match &self.title {
                Some(t) => rows.push(chars_of(t.as_str())),
                None => {},
            }
        }
        let ghost base = vv(rows@);
        let mut i: usize = 0;
        while i < self.content.len()
            invariant
                i <= self.content@.len(),
                vv(rows@) == base + content_lines(self.content@, i as int),
            decreases self.content@.len() - i,
        {
            let ghost before = vv(rows@);
            match &self.content[i] {
                NodeLine::Text(s) => {
                    let ghost r0 = rows@;
                    let c = chars_of(s.as_str());
                    rows.push(c);
                    proof {
                        lemma_vv_push(r0, c);
                        assert(line_rows(self.content@[i as int]) == seq![s@]);
                        assert(before.push(c@) =~= before + seq![s@]);
                    }
                },
                NodeLine::Raw(ls) => {
                    let mut k: usize = 0;
                    while k < ls.len()
                        invariant
                            k <= ls@.len(),
                            vv(rows@) == before + views(ls@).take(k as int),
                        decreases ls@.len() - k,
                    {
                        let ghost r0 = rows@;
                        let c = chars_of(ls[k].as_str());
                        rows.push(c);
                        proof {
                            lemma_vv_push(r0, c);
                            assert(views(ls@).take(k + 1) =~= views(ls@).take(k as int).push(ls@[k as int]@));
                        }
                        k = k + 1;
                        assert(vv(rows@) =~= before + views(ls@).take(k as int));
                    }
                    assert(views(ls@).take(ls@.len() as int) =~= views(ls@));
                },
            }
            proof {
                lemma_content_lines_push(self.content@, i as int);
            }
            i = i + 1;
            assert(vv(rows@) =~= base + content_lines(self.content@, i as int));
        }
        assert(vv(rows@) =~= node_rows(*self));
        rows
    }

    /// Draw the node: border, fill, border title, then its rows wrapped
    /// to the content width, aligned, and clipped to the content height.
    pub fn render(&self, canvas: &mut Canvas)
        requires
            old(canvas)@.wf(),
            node_fits(*self),
        ensures
            final(canvas)@.wf(),
            node_drawn(*self, old(canvas)@, final(canvas)@),
            node_ascii(*self) ==> same_outside(
                old(canvas)@,
                final(canvas)@,
                self.rect.x as int,
                self.rect.y as int,
                self.rect.w as int,
                self.rect.h as int,
            ),
    {
        let ghost v0 = canvas@;
        proof {
            lemma_same_outside_refl(v0, self.rect.x as int, self.rect.y as int, self.rect.w as int, self.rect.h as int);
        }
        if let Some(b) = self.border {
            let g = b.glyphs(self.charset);
            let ghost vb = canvas@;
            let res = canvas.draw_rect(self.rect.x, self.rect.y, self.rect.w, self.rect.h, &g);
            proof {
                if res is Ok {
                    lemma_rect_inside(vb, self.rect.x as int, self.rect.y as int, self.rect.w as int, self.rect.h as int, g);
                } else {
                    lemma_same_outside_refl(vb, self.rect.x as int, self.rect.y as int, self.rect.w as int, self.rect.h as int);
                }
            }
        }
        if let Some(c) = self.fill {
            let ghost vf = canvas@;
            self.draw_fill(canvas, c);
            proof {
                lemma_fill_area_inside(
                    vf,
                    self.rect.x + 1,
                    if self.rect.w > 2 { self.rect.w - 2 } else { 0 },
                    self.rect.y + 1,
                    if self.rect.h > 2 { self.rect.h - 2 } else { 0 },
                    c,
                    self.rect.x as int, self.rect.y as int, self.rect.w as int, self.rect.h as int,
                );
                lemma_same_outside_trans(v0, vf, canvas@, self.rect.x as int, self.rect.y as int, self.rect.w as int, self.rect.h as int);
            }
        }
        let ghost v2 = canvas@;
        assert(same_outside(v0, v2, self.rect.x as int, self.rect.y as int, self.rect.w as int, self.rect.h as int));
        let bc: usize = if self.border.is_some() {
            1
        } else {
            0
        };
        let ix = self.rect.x + self.padding.horizontal + bc;
        let iy = self.rect.y + self.padding.vertical + bc;
        let iw = self.rect.w.saturating_sub(self.padding.horizontal * 2 + 2 * bc);
        let ih = self.rect.h.saturating_sub(self.padding.vertical * 2 + 2 * bc);
        assert(iw == inner_w(*self) && ih == inner_h(*self));
        let rows = self.rows();
        let ghost rs = node_rows(*self);
        let mut flat: Vec<Vec<char>> = Vec::new();
        let ghost mut pieces: Seq<Seq<Seq<char>>> = Seq::empty();
        let mut k: usize = 0;
        while k < rows.len()
            invariant
                k <= rows@.len(),
                vv(rows@) == rs,
                pieces.len() == k,
                forall|j: int| 0 <= j < k ==> #[trigger] piece_ok(rs[j], pieces[j], iw as int),
                vv(flat@) == flatten(pieces),
                rs == node_rows(*self),
                node_ascii(*self) && iw > 0 ==> all_within(vv(flat@), iw as int),
            decreases rows@.len() - k,
        {
            let r = &rows[k];
            let rw = seq_display_width(r.as_slice());
            let ghost f0 = vv(flat@);
            let ghost p0 = pieces;
            proof {
                assert(vv(rows@)[k as int] == r@);
            }
            if rw <= iw {
                flat.push(r.clone());
                proof {
                    pieces = pieces.push(seq![r@]);
                    assert(vv(flat@) =~= f0 + seq![r@]);
                    if node_ascii(*self) && iw > 0 {
                        assert(printable_ascii(rs[k as int]));
                        lemma_all_within_add(f0, seq![r@], iw as int);
                    }
                }
            } else {
                let mut w = wrap_chars(r.as_slice(), iw);
                let ghost wl = vv(w@);
                flat.append(&mut w);
                proof {
                    pieces = pieces.push(wl);
                    assert(vv(flat@) =~= f0 + wl);
                    if node_ascii(*self) && iw > 0 {
                        assert(printable_ascii(rs[k as int]));
                        lemma_printable_plain(r@);
                        lemma_all_within_add(f0, wl, iw as int);
                    }
                }
            }
            proof {
                lemma_flatten_push(p0, pieces.last());
                assert(rs[k as int] == r@);
                assert(piece_ok(rs[k as int], pieces[k as int], iw as int));
                assert forall|j: int| 0 <= j < k + 1 implies #[trigger] piece_ok(rs[j], pieces[j], iw as int) by {
                    if j < k {
                        assert(pieces[j] == p0[j]);
                    }
                }
            }
            k = k + 1;
        }
        if iw == 0 || ih == 0 {
            assert(pieces_ok(node_rows(*self), pieces, inner_w(*self)));
            return;
        }
        if self.title_in_border && self.title.is_some() {
            let ghost vt = canvas@;
            self.draw_inline_border_title(canvas);
            proof {
                if node_ascii(*self) {
                    lemma_same_outside_trans(v0, vt, canvas@, self.rect.x as int, self.rect.y as int, self.rect.w as int, self.rect.h as int);
                }
            }
        }
        let total = flat.len();
        let sy = match self.align.vertical {
            VAlign::Top => 0,
            VAlign::Middle => ih.saturating_sub(total) / 2,
            VAlign::Bottom => ih.saturating_sub(total),
        };
        assert(sy == start_y(*self, total as int));
        let room = ih - sy;
        let count = if total < room {
            total
        } else {
            room
        };
        let ghost v3 = canvas@;
        assert(self.rect.x <= ix && ix + iw <= self.rect.x + self.rect.w);
        assert(self.rect.y <= iy && iy + sy + count <= self.rect.y + self.rect.h);
        let mut i: usize = 0;
        while i < count
            invariant
                i <= count,
                count <= total,
                total == flat@.len(),
                iy + sy + count <= usize::MAX,
                canvas@.wf(),
                canvas@ == node_lines(v3, vv(flat@), ix as int, (iy + sy) as int, iw as int, self.align.horizontal, i as int),
                self.rect.x <= ix && ix + iw <= self.rect.x + self.rect.w,
                self.rect.y <= iy && iy + sy + count <= self.rect.y + self.rect.h,
                node_ascii(*self) ==> all_within(vv(flat@), iw as int),
                node_ascii(*self) ==> same_outside(v0, canvas@, self.rect.x as int, self.rect.y as int, self.rect.w as int, self.rect.h as int),
            decreases count - i,
        {
            let line = &flat[i];
            let lw = seq_display_width(line.as_slice());
            let a = align_chars(line.as_slice(), lw, iw, self.align.horizontal);
            proof {
                if node_ascii(*self) {
                    assert(vv(flat@)[i as int] == line@);
                    assert(printable_ascii(line@) && line@.len() <= iw);
                    lemma_aligned_ascii(line@, iw as int, self.align.horizontal);
                }
            }
            let ghost cv = canvas@;
            canvas.put_chars_layered(ix, iy + sy + i, a.as_slice(), Layer::NodeContent, None);
            proof {
                if node_ascii(*self) {
                    lemma_put_str_inside(cv, ix as int, (iy + sy + i) as int, a@, Layer::NodeContent, None, self.rect.x as int, self.rect.y as int, self.rect.w as int, self.rect.h as int);
                    lemma_same_outside_trans(v0, cv, canvas@, self.rect.x as int, self.rect.y as int, self.rect.w as int, self.rect.h as int);
                }
            }
            i = i + 1;
        }
        assert(pieces_ok(node_rows(*self), pieces, inner_w(*self)));
        assert(canvas@ == node_picture(*self, v0, flatten(pieces)));
    }
}

/// Builder for [`Node`].
#[derive(Debug)]
pub struct NodeBuilder {
    charset: Charset,
    id: NodeId,
    border: Option<BorderStyle>,
    title: Option<String>,
    content: Vec<NodeLine>,
    padding: Padding,
    align: Alignment,
    min_size: (usize, usize),
    title_in_border: bool,
}

impl NodeBuilder {
    /// The title goes in the top border (set by [`NodeBuilder::title_in_border`]).
    pub closed spec fn in_border(&self) -> bool {
        self.title_in_border
    }

    /// The builder's settings: single border, no title or content, no
    /// padding, top-left alignment, minimum size 4 by 3.
    pub closed spec fn settings(&self) -> (Charset, NodeId, Option<BorderStyle>, Option<Seq<char>>, Seq<NodeLine>, Padding, Alignment, (usize, usize)) {
        (
            self.charset,
            self.id,
            self.border,
            match self.title {
                Some(t) => Some(t@),
                None => None,
            },
            self.content@,
            self.padding,
            self.align,
            self.min_size,
        )
    }

    /// Start a node builder.
    pub fn new(id: NodeId, charset: Charset) -> (r: NodeBuilder)
        ensures
            r.settings() == (charset, id, Some(BorderStyle::Single), None::<Seq<char>>, Seq::<NodeLine>::empty(), Padding { horizontal: 0, vertical: 0 }, Alignment { horizontal: HAlign::Left, vertical: VAlign::Top }, (4usize, 3usize)),
            !r.in_border(),
    {
        let b = NodeBuilder {
            charset,
            id,
            border: Some(BorderStyle::Single),
            title: None,
            content: Vec::new(),
            padding: Padding::none(),
            align: Alignment::top_left(),
            min_size: (4, 3),
            title_in_border: false,
        };
        assert(b.settings().4 =~= Seq::<NodeLine>::empty());
        b
    }

    /// Hide the border.
    pub fn no_border(self) -> (r: NodeBuilder)
        ensures
            r.settings() == (self.settings().0, self.settings().1, None::<BorderStyle>, self.settings().3, self.settings().4, self.settings().5, self.settings().6, self.settings().7),
            r.in_border() == self.in_border(),
    {
        NodeBuilder { border: None, ..self }
    }

    /// Set the title (the first content row unless it goes in the
    /// border).
    pub fn title(self, t: &str) -> (r: NodeBuilder)
        ensures
            r.settings() == (self.settings().0, self.settings().1, self.settings().2, Some(t@), self.settings().4, self.settings().5, self.settings().6, self.settings().7),
            r.in_border() == self.in_border(),
    {
        NodeBuilder { title: Some(t.to_owned()), ..self }
    }

    /// Draw the title inside the top border edge rather than as the
    /// first content row (an empty title when none was set).
    pub fn title_in_border(self) -> (r: NodeBuilder)
        ensures
            r.settings() == (self.settings().0, self.settings().1, self.settings().2, Some(match self.settings().3 { Some(t) => t, None => Seq::<char>::empty() }), self.settings().4, self.settings().5, self.settings().6, self.settings().7),
            r.in_border(),
    {
        let title = match self.title {
            Some(t) => Some(t),
            None => Some(String::new()),
        };
        NodeBuilder { title, title_in_border: true, ..self }
    }

    /// Add a row of plain text.
    pub fn row(self, text: &str) -> (r: NodeBuilder)
        ensures
            r.settings().4.len() == self.settings().4.len() + 1,
            r.settings().4.drop_last() == self.settings().4,
            r.settings().4.last() matches NodeLine::Text(s) && s@ == text@,
            r.settings().0 == self.settings().0 && r.settings().1 == self.settings().1 && r.settings().2 == self.settings().2 && r.settings().3 == self.settings().3 && r.settings().5 == self.settings().5 && r.settings().6 == self.settings().6 && r.settings().7 == self.settings().7,
            r.in_border() == self.in_border(),
    {
        let mut content = self.content;
        content.push(NodeLine::Text(text.to_owned()));
        let r = NodeBuilder { content, ..self };
        assert(r.settings().4.drop_last() =~= self.settings().4);
        r
    }

    /// Add a row of pre-wrapped lines.
    pub fn raw(self, lines: Vec<String>) -> (r: NodeBuilder)
        ensures
            r.settings().4 == self.settings().4.push(NodeLine::Raw(lines)),
            r.settings().0 == self.settings().0 && r.settings().1 == self.settings().1 && r.settings().2 == self.settings().2 && r.settings().3 == self.settings().3 && r.settings().5 == self.settings().5 && r.settings().6 == self.settings().6 && r.settings().7 == self.settings().7,
            r.in_border() == self.in_border(),
    {
        let mut content = self.content;
        content.push(NodeLine::Raw(lines));
        NodeBuilder { content, ..self }
    }

    /// Set the padding around the content.
    pub fn padding(self, p: Padding) -> (r: NodeBuilder)
        ensures
            r.settings() == (self.settings().0, self.settings().1, self.settings().2, self.settings().3, self.settings().4, p, self.settings().6, self.settings().7),
            r.in_border() == self.in_border(),
    {
        NodeBuilder { padding: p, ..self }
    }

    /// Set the content alignment.
    pub fn align(self, h: HAlign, v: VAlign) -> (r: NodeBuilder)
        ensures
            r.settings() == (self.settings().0, self.settings().1, self.settings().2, self.settings().3, self.settings().4, self.settings().5, Alignment { horizontal: h, vertical: v }, self.settings().7),
            r.in_border() == self.in_border(),
    {
        NodeBuilder { align: Alignment { horizontal: h, vertical: v }, ..self }
    }

    /// Force a minimum size (each at least 1).
    pub fn min_size(self, w: usize, h: usize) -> (r: NodeBuilder)
        ensures
            r.settings() == (self.settings().0, self.settings().1, self.settings().2, self.settings().3, self.settings().4, self.settings().5, self.settings().6, (if w > 1 { w } else { 1usize }, if h > 1 { h } else { 1usize })),
            r.in_border() == self.in_border(),
    {
        let mw = if w > 1 {
            w
        } else {
            1
        };
        let mh = if h > 1 {
            h
        } else {
            1
        };
        NodeBuilder { min_size: (mw, mh), ..self }
    }

    /// Build the node at the origin, sized to its content but never
    /// below the minimum size. The title is the first content row unless
    /// [`NodeBuilder::title_in_border`] was called.
    pub fn build(self) -> (r: Node)
        requires
            self.settings().5.horizontal <= usize::MAX / 4,
            self.settings().5.vertical <= usize::MAX / 4,
        ensures
            r.id == self.settings().1,
            r.charset == self.settings().0,
            r.border == self.settings().2,
            r.content@ == self.settings().4,
            r.padding == self.settings().5,
            r.align == self.settings().6,
            r.title_in_border == self.in_border(),
            r.fill is None,
            r.title_align == HAlign::Left,
            (match r.title { Some(t) => Some(t@), None => None }) == self.settings().3,
            r.rect.x == 0 && r.rect.y == 0,
            r.rect.w as int == (if spec_min_width(r) > self.settings().7.0 { spec_min_width(r) } else { self.settings().7.0 as int }),
            r.rect.h as int == (if spec_min_height(r) > self.settings().7.1 { spec_min_height(r) } else { self.settings().7.1 as int }),
    {
        let ghost s = self.settings();
        let mut node = Node::new(self.id, self.charset, Rect::zero());
        node.border = self.border;
        node.title = self.title;
        node.content = self.content;
        node.padding = self.padding;
        node.align = self.align;
        node.title_in_border = self.title_in_border;
        let mw = node.min_width();
        let mh = node.min_height();
        let w = if mw > self.min_size.0 {
            mw
        } else {
            self.min_size.0
        };
        let h = if mh > self.min_size.1 {
            mh
        } else {
            self.min_size.1
        };
        node.rect = Rect::new(0, 0, w, h);
        assert(spec_min_width(node) == mw);
        node
    }
}

} // verus!
