//! Standalone arrows: horizontal (right, left, both ways) and vertical
//! (up, down), with an optional wrapped label.

use vstd::prelude::*;
use crate::canvas::{blank_view, Canvas, CanvasView, Layer};
use crate::error::{FigoError, Result};
use crate::style::{Charset, LineStyle};
use crate::text::{all_within, chars_eq, concat, greedy_wrap, lines_of, plain_text, strip_spaces, views, wrap_label};
use crate::width::{char_width_or, chars_of, chars_width, seq_display_width, string_from_chars, width_or};

verus! {

/// Where an arrow points.
#[derive(Clone, Copy, Debug, PartialEq, Eq, Structural)]
pub enum ArrowDirection {
    Right,
    Left,
    Up,
    Down,
    Bidirectional,
}

/// The direction a name stands for: `right`, `left`, `up`, `down`, or
/// `bidirectional`.
pub open spec fn direction_named(s: Seq<char>) -> Option<ArrowDirection> {
    if s == seq!['r', 'i', 'g', 'h', 't'] {
        Some(ArrowDirection::Right)
    } else if s == seq!['l', 'e', 'f', 't'] {
        Some(ArrowDirection::Left)
    } else if s == seq!['u', 'p'] {
        Some(ArrowDirection::Up)
    } else if s == seq!['d', 'o', 'w', 'n'] {
        Some(ArrowDirection::Down)
    } else if s == seq!['b', 'i', 'd', 'i', 'r', 'e', 'c', 't', 'i', 'o', 'n', 'a', 'l'] {
        Some(ArrowDirection::Bidirectional)
    } else {
        None
    }
}

/// Parse a direction name (see [`direction_named`]).
pub fn parse_direction(s: &str) -> (r: Option<ArrowDirection>)
    ensures
        r == direction_named(s@),
{
    let cs = chars_of(s);
    let v = cs.as_slice();
    if chars_eq(v, &['r', 'i', 'g', 'h', 't']) {
        Some(ArrowDirection::Right)
    } else if chars_eq(v, &['l', 'e', 'f', 't']) {
        Some(ArrowDirection::Left)
    } else if chars_eq(v, &['u', 'p']) {
        Some(ArrowDirection::Up)
    } else if chars_eq(v, &['d', 'o', 'w', 'n']) {
        Some(ArrowDirection::Down)
    } else if chars_eq(v, &['b', 'i', 'd', 'i', 'r', 'e', 'c', 't', 'i', 'o', 'n', 'a', 'l']) {
        Some(ArrowDirection::Bidirectional)
    } else {
        None
    }
}

/// Builder for drawing arrows.
#[derive(Debug)]
pub struct Arrow {
    pub direction: ArrowDirection,
    /// Line length in cells, arrowheads excluded.
    pub length: usize,
    /// Canvas width, the hard upper limit for label wrapping.
    pub width: usize,
    pub style: LineStyle,
    pub charset: Charset,
    pub label: Option<String>,
}

/// What an arrow draws: its fields, the label as text (absent and
/// empty labels draw alike).
pub struct ArrowSpec {
    pub direction: ArrowDirection,
    pub length: usize,
    pub width: usize,
    pub style: LineStyle,
    pub charset: Charset,
    pub label: Seq<char>,
}

impl View for Arrow {
    type V = ArrowSpec;

    open spec fn view(&self) -> ArrowSpec {
        ArrowSpec {
            direction: self.direction,
            length: self.length,
            width: self.width,
            style: self.style,
            charset: self.charset,
            label: label_text(self.label),
        }
    }
}

/// Line and right-pointing head glyphs.
pub open spec fn spec_arrow_chars(style: LineStyle, charset: Charset) -> (char, char) {
    match (style, charset) {
        (LineStyle::Bold, Charset::Unicode) => ('━', '⇒'),
        (LineStyle::Bold, Charset::Ascii) => ('=', '>'),
        (_, Charset::Unicode) => ('─', '→'),
        (_, Charset::Ascii) => ('-', '>'),
    }
}

/// Line and left-pointing head glyphs.
pub open spec fn spec_left_arrow_chars(style: LineStyle, charset: Charset) -> (char, char) {
    match (style, charset) {
        (LineStyle::Bold, Charset::Unicode) => ('━', '⇐'),
        (LineStyle::Bold, Charset::Ascii) => ('=', '<'),
        (_, Charset::Unicode) => ('─', '←'),
        (_, Charset::Ascii) => ('-', '<'),
    }
}

/// Head and line glyphs of a vertical arrow.
pub open spec fn spec_vertical_chars(up: bool, style: LineStyle, charset: Charset) -> (char, char) {
    if up {
        match (style, charset) {
            (LineStyle::Bold, Charset::Unicode) => ('⇑', '┃'),
            (_, Charset::Unicode) => ('↑', '│'),
            (_, Charset::Ascii) => ('^', '|'),
        }
    } else {
        match (style, charset) {
            (LineStyle::Bold, Charset::Unicode) => ('⇓', '┃'),
            (_, Charset::Unicode) => ('↓', '│'),
            (_, Charset::Ascii) => ('v', '|'),
        }
    }
}

/// The label text, when there is a non-empty one.
pub open spec fn label_text(label: Option<String>) -> Seq<char> {
    match label {
        Some(l) => l@,
        None => Seq::empty(),
    }
}

/// `lines` is a wrapping of `label` at `mw` columns as
/// [`wrap_label`] produces it.
pub open spec fn wraps_label(lines: Seq<Seq<char>>, label: Seq<char>, mw: int) -> bool {
    if label.len() == 0 {
        lines.len() == 0
    } else {
        let m = if mw < 2 { 2 } else { mw };
        &&& lines == greedy_wrap(label, m)
        &&& strip_spaces(concat(lines)) == strip_spaces(concat(lines_of(label)))
        &&& plain_text(label) ==> all_within(lines, m)
    }
}

/// `a + b`, capped at `usize::MAX`.
pub open spec fn sat_add(a: int, b: int) -> int {
    if a + b > usize::MAX {
        usize::MAX as int
    } else {
        a + b
    }
}

/// `n` copies of `c`.
pub open spec fn repeat(c: char, n: nat) -> Seq<char> {
    Seq::new(n, |i: int| c)
}

/// Label rows `0..k`, each centered over the first `total` columns.
pub open spec fn centered_rows(v: CanvasView, lines: Seq<Seq<char>>, total: int, k: int) -> CanvasView
    decreases k,
{
    if k <= 0 {
        v
    } else {
        let l = lines[k - 1];
        let lw = chars_width(l) as int;
        let x = (if total > lw { total - lw } else { 0 }) / 2;
        centered_rows(v, lines, total, k - 1).put_str(x, k - 1, l, Layer::NodeContent, None)
    }
}

/// Label rows `0..k`, starting in column `x`.
pub open spec fn rows_at(v: CanvasView, lines: Seq<Seq<char>>, x: int, k: int) -> CanvasView
    decreases k,
{
    if k <= 0 {
        v
    } else {
        rows_at(v, lines, x, k - 1).put_str(x, k - 1, lines[k - 1], Layer::NodeContent, None)
    }
}

/// `n` single-character writes of `c` down column 0 from row `y0`.
pub open spec fn column_run(v: CanvasView, y0: int, n: int, c: char) -> CanvasView
    decreases n,
{
    if n <= 0 {
        v
    } else {
        column_run(v, y0, n - 1, c).put_str(0, y0 + n - 1, seq![c], Layer::NodeContent, None)
    }
}

/// The text of an optional label (empty when absent).
pub open spec fn opt_text(label: Option<&str>) -> Seq<char> {
    match label {
        Some(l) => l@,
        None => Seq::empty(),
    }
}

/// The arrow a call of [`draw_arrow_with_width`] asks for.
pub open spec fn arrow_request(
    direction: Seq<char>,
    length: usize,
    width: usize,
    style: LineStyle,
    charset: Charset,
    label: Option<&str>,
) -> ArrowSpec {
    ArrowSpec {
        direction: direction_named(direction)->0,
        length,
        width,
        style,
        charset,
        label: opt_text(label),
    }
}

/// Cells the arrow line and its heads take.
pub open spec fn total_width(a: ArrowSpec) -> int {
    let (_, rh) = spec_arrow_chars(a.style, a.charset);
    let (_, lh) = spec_left_arrow_chars(a.style, a.charset);
    if a.direction == ArrowDirection::Bidirectional {
        a.length + char_width_or(lh, 0) + char_width_or(rh, 0)
    } else {
        a.length + char_width_or(rh, 0)
    }
}

/// The canvas of a horizontal arrow whose label wrapped to `lines`: the
/// label centered over the line, one blank row, then the arrow row.
pub open spec fn horizontal_view(a: ArrowSpec, lines: Seq<Seq<char>>) -> CanvasView {
    let (line, rh) = spec_arrow_chars(a.style, a.charset);
    let (_, lh) = spec_left_arrow_chars(a.style, a.charset);
    let lhw = char_width_or(lh, 0) as int;
    let total = total_width(a);
    let has_label = a.label.len() > 0;
    let n = lines.len() as int;
    let height: int = if !has_label { 1 } else { sat_add(n, 2) };
    let width: int = if a.width > total { a.width as int } else { total };
    let y: int = if !has_label { 0 } else { sat_add(n, 1) };
    let body = repeat(line, a.length as nat);
    let v0 = blank_view(width as nat, height as nat);
    let v1 = match a.direction {
        ArrowDirection::Left => v0.put_str(0, y, seq![lh], Layer::NodeContent, None).put_str(
            lhw,
            y,
            body,
            Layer::NodeContent,
            None,
        ),
        ArrowDirection::Bidirectional => v0.put_str(0, y, seq![lh], Layer::NodeContent, None).put_str(
            lhw,
            y,
            body,
            Layer::NodeContent,
            None,
        ).put_str(lhw + a.length, y, seq![rh], Layer::NodeContent, None),
        _ => v0.put_str(0, y, body, Layer::NodeContent, None).put_str(
            a.length as int,
            y,
            seq![rh],
            Layer::NodeContent,
            None,
        ),
    };
    if has_label {
        centered_rows(v1, lines, total, n)
    } else {
        v1
    }
}

/// The widest of `lines` (0 for none).
pub open spec fn widest_of(lines: Seq<Seq<char>>) -> int {
    crate::text::widest(lines) as int
}

/// The canvas of a vertical arrow whose label wrapped to `lines`: the
/// line in column 0, the label beside it from column 1.
pub open spec fn vertical_view(a: ArrowSpec, lines: Seq<Seq<char>>) -> CanvasView {
    let up = a.direction == ArrowDirection::Up;
    let (head, line) = spec_vertical_chars(up, a.style, a.charset);
    let has_label = a.label.len() > 0;
    let width: int = if !has_label { 1 } else { sat_add(widest_of(lines), 1) };
    let height: int = if a.length + 1 > lines.len() { a.length + 1 } else { lines.len() as int };
    let v0 = blank_view(width as nat, height as nat);
    let v1 = if up {
        column_run(v0.put_str(0, 0, seq![head], Layer::NodeContent, None), 1, a.length as int, line)
    } else {
        column_run(v0, 0, a.length as int, line).put_str(
            0,
            a.length as int,
            seq![head],
            Layer::NodeContent,
            None,
        )
    };
    if has_label {
        rows_at(v1, lines, 1, lines.len() as int)
    } else {
        v1
    }
}

proof fn lemma_column_run_col0(v: CanvasView, y0: int, n: int, c: char, y: int)
    requires
        v.wf(),
        v.in_bounds(0, y),
    ensures
        column_run(v, y0, n, c).wf(),
        column_run(v, y0, n, c).width == v.width,
        column_run(v, y0, n, c).height == v.height,
        column_run(v, y0, n, c).cell(0, y) == (if y0 <= y < y0 + n {
            crate::canvas::painted(v.cell(0, y), c, Layer::NodeContent, None)
        } else {
            v.cell(0, y)
        }),
    decreases n,
{
    if n > 0 {
        lemma_column_run_col0(v, y0, n - 1, c, y);
        crate::canvas::lemma_put_char_col0(column_run(v, y0, n - 1, c), y0 + n - 1, c, Layer::NodeContent, None, y);
    }
}

proof fn lemma_rows_at_col0(v: CanvasView, lines: Seq<Seq<char>>, k: int, y: int)
    requires
        v.wf(),
        v.in_bounds(0, y),
    ensures
        rows_at(v, lines, 1, k).wf(),
        rows_at(v, lines, 1, k).width == v.width,
        rows_at(v, lines, 1, k).height == v.height,
        rows_at(v, lines, 1, k).cell(0, y) == v.cell(0, y),
    decreases k,
{
    if k > 0 {
        lemma_rows_at_col0(v, lines, k - 1, y);
        crate::canvas::lemma_put_str_left_kept(rows_at(v, lines, 1, k - 1), 1, k - 1, lines[k - 1], Layer::NodeContent, None, 0, y);
    }
}

/// A vertical arrow's column: pointing down, the line fills rows
/// `0 .. length` and the down-pointing head sits below it on row
/// `length`; pointing up, the up-pointing head sits on row 0 and the
/// line fills rows `1 ..= length`. The label beside never covers it.
pub proof fn law_vertical_arrow_column(a: ArrowSpec, lines: Seq<Seq<char>>, y: int)
    requires
        a.direction == ArrowDirection::Up || a.direction == ArrowDirection::Down,
        0 <= y <= a.length,
        a.length < usize::MAX,
        lines.len() <= usize::MAX,
    ensures
        ({
            let v = vertical_view(a, lines);
            let line = match (a.style, a.charset) {
                (LineStyle::Bold, Charset::Unicode) => '┃',
                (_, Charset::Unicode) => '│',
                (_, Charset::Ascii) => '|',
            };
            let down_head = match (a.style, a.charset) {
                (LineStyle::Bold, Charset::Unicode) => '⇓',
                (_, Charset::Unicode) => '↓',
                (_, Charset::Ascii) => 'v',
            };
            let up_head = match (a.style, a.charset) {
                (LineStyle::Bold, Charset::Unicode) => '⇑',
                (_, Charset::Unicode) => '↑',
                (_, Charset::Ascii) => '^',
            };
            &&& a.direction == ArrowDirection::Down ==> v.cell(0, y).ch == (if y == a.length { down_head } else { line })
            &&& a.direction == ArrowDirection::Up ==> v.cell(0, y).ch == (if y == 0 { up_head } else { line })
        }),
{
    let is_up = a.direction == ArrowDirection::Up;
    let (head, line) = spec_vertical_chars(is_up, a.style, a.charset);
    let has_label = a.label.len() > 0;
    let width: int = if !has_label { 1 } else { sat_add(widest_of(lines), 1) };
    let height: int = if a.length + 1 > lines.len() { a.length + 1 } else { lines.len() as int };
    let v0 = blank_view(width as nat, height as nat);
    assert(1 <= width <= usize::MAX);
    assert(v0.wf()) by {
        assert forall|r: int| 0 <= r < v0.height implies (#[trigger] v0.grid[r]).len() == v0.width by {}
    }
    assert(v0.in_bounds(0, y));
    assert(v0.cell(0, y) == crate::canvas::blank_cell());
    let v1 = if is_up {
        let p = v0.put_str(0, 0, seq![head], Layer::NodeContent, None);
        crate::canvas::lemma_put_char_col0(v0, 0, head, Layer::NodeContent, None, y);
        lemma_column_run_col0(p, 1, a.length as int, line, y);
        column_run(p, 1, a.length as int, line)
    } else {
        let p = column_run(v0, 0, a.length as int, line);
        lemma_column_run_col0(v0, 0, a.length as int, line, y);
        crate::canvas::lemma_put_char_col0(p, a.length as int, head, Layer::NodeContent, None, y);
        p.put_str(0, a.length as int, seq![head], Layer::NodeContent, None)
    };
    assert(v1 == if is_up {
        column_run(v0.put_str(0, 0, seq![head], Layer::NodeContent, None), 1, a.length as int, line)
    } else {
        column_run(v0, 0, a.length as int, line).put_str(0, a.length as int, seq![head], Layer::NodeContent, None)
    });
    if has_label {
        lemma_rows_at_col0(v1, lines, lines.len() as int, y);
    }
}

proof fn lemma_centered_rows_keep(v: CanvasView, lines: Seq<Seq<char>>, total: int, k: int, cx: int, cy: int)
    requires
        v.wf(),
        v.in_bounds(cx, cy),
        cy >= k,
    ensures
        centered_rows(v, lines, total, k).cell(cx, cy) == v.cell(cx, cy),
        centered_rows(v, lines, total, k).wf(),
        centered_rows(v, lines, total, k).width == v.width,
        centered_rows(v, lines, total, k).height == v.height,
    decreases k,
{
    if k > 0 {
        lemma_centered_rows_keep(v, lines, total, k - 1, cx, cy);
        let l = lines[k - 1];
        let lw = chars_width(l) as int;
        let x = (if total > lw { total - lw } else { 0 }) / 2;
        crate::canvas::lemma_put_str_cell(centered_rows(v, lines, total, k - 1), x, k - 1, l, Layer::NodeContent, None, cx, cy);
    }
}

/// Where a horizontal arrow's heads sit on its arrow row (the bottom
/// row, below the label and a blank row when there is a label): a
/// right arrow's head at column `length`, after its line; a left
/// arrow's head at column 0, before its line (when that head takes a
/// column); a two-way arrow has both.
pub proof fn law_horizontal_arrow_heads(a: ArrowSpec, lines: Seq<Seq<char>>)
    requires
        a.direction == ArrowDirection::Right || a.direction == ArrowDirection::Left || a.direction
            == ArrowDirection::Bidirectional,
        lines.len() + 2 <= usize::MAX,
        total_width(a) <= usize::MAX,
    ensures
        ({
            let v = horizontal_view(a, lines);
            let y: int = if a.label.len() == 0 { 0 } else { lines.len() as int + 1 };
            let right_head = match (a.style, a.charset) {
                (LineStyle::Bold, Charset::Unicode) => '⇒',
                (LineStyle::Bold, Charset::Ascii) => '>',
                (_, Charset::Unicode) => '→',
                (_, Charset::Ascii) => '>',
            };
            let left_head = match (a.style, a.charset) {
                (LineStyle::Bold, Charset::Unicode) => '⇐',
                (LineStyle::Bold, Charset::Ascii) => '<',
                (_, Charset::Unicode) => '←',
                (_, Charset::Ascii) => '<',
            };
            let lhw = char_width_or(left_head, 0) as int;
            &&& a.direction == ArrowDirection::Right && a.length < v.width ==> v.cell(a.length as int, y).ch
                == right_head
            &&& a.direction != ArrowDirection::Right && lhw >= 1 ==> v.cell(0, y).ch == left_head
            &&& a.direction == ArrowDirection::Bidirectional && lhw + a.length < v.width ==> v.cell(
                lhw + a.length,
                y,
            ).ch == right_head
        }),
{
    let (line, rh) = spec_arrow_chars(a.style, a.charset);
    let (_, lh) = spec_left_arrow_chars(a.style, a.charset);
    let lhw = char_width_or(lh, 0) as int;
    let total = total_width(a);
    let has_label = a.label.len() > 0;
    let n = lines.len() as int;
    let height: int = if !has_label { 1 } else { sat_add(n, 2) };
    let width: int = if a.width > total { a.width as int } else { total };
    let y: int = if !has_label { 0 } else { sat_add(n, 1) };
    let body = repeat(line, a.length as nat);
    let v0 = blank_view(width as nat, height as nat);
    let l = Layer::NodeContent;
    assert(v0.wf()) by {
        assert forall|r: int| 0 <= r < v0.height implies (#[trigger] v0.grid[r]).len() == v0.width by {}
    }
    let v1 = match a.direction {
        ArrowDirection::Left => v0.put_str(0, y, seq![lh], l, None).put_str(lhw, y, body, l, None),
        ArrowDirection::Bidirectional => v0.put_str(0, y, seq![lh], l, None).put_str(lhw, y, body, l, None).put_str(
            lhw + a.length,
            y,
            seq![rh],
            l,
            None,
        ),
        _ => v0.put_str(0, y, body, l, None).put_str(a.length as int, y, seq![rh], l, None),
    };
    let v = horizontal_view(a, lines);
    assert(v == if has_label { centered_rows(v1, lines, total, n) } else { v1 });
    assert(v0.in_bounds(0, y));
    let h1 = v0.put_str(0, y, seq![lh], l, None);
    let h2 = h1.put_str(lhw, y, body, l, None);
    let r1 = v0.put_str(0, y, body, l, None);
    crate::canvas::lemma_put_str_cell(v0, 0, y, seq![lh], l, None, 0, y);
    crate::canvas::lemma_put_str_cell(h1, lhw, y, body, l, None, 0, y);
    crate::canvas::lemma_put_str_cell(h2, lhw + a.length, y, seq![rh], l, None, 0, y);
    crate::canvas::lemma_put_str_cell(v0, 0, y, body, l, None, 0, y);
    crate::canvas::lemma_put_str_cell(r1, a.length as int, y, seq![rh], l, None, 0, y);
    assert(v1.wf() && v1.width == v0.width && v1.height == v0.height);
    if has_label {
        lemma_centered_rows_keep(v1, lines, total, n, 0, y);
    }
    assert(v.width == v0.width);
    if a.direction == ArrowDirection::Right && a.length < v0.width {
        let p = v0.put_str(0, y, body, l, None);
        assert(v0.cell(a.length as int, y) == crate::canvas::blank_cell());
        crate::canvas::lemma_put_str_cell(v0, 0, y, body, l, None, a.length as int, y);
        crate::canvas::lemma_put_char_at(p, a.length as int, y, rh, l, None);
        crate::canvas::lemma_put_str_cell(p, a.length as int, y, seq![rh], l, None, a.length as int, y);
        assert(v1 == p.put_str(a.length as int, y, seq![rh], l, None));
        assert(v1.cell(a.length as int, y).ch == rh);
        if has_label {
            lemma_centered_rows_keep(v1, lines, total, n, a.length as int, y);
        }
        assert(v.cell(a.length as int, y).ch == rh);
    }
    if a.direction != ArrowDirection::Right && lhw >= 1 {
        let p = v0.put_str(0, y, seq![lh], l, None);
        assert(v0.cell(0, y) == crate::canvas::blank_cell());
        crate::canvas::lemma_put_char_at(v0, 0, y, lh, l, None);
        crate::canvas::lemma_put_str_cell(v0, 0, y, seq![lh], l, None, 0, y);
        crate::canvas::lemma_put_str_cell(p, lhw, y, body, l, None, 0, y);
        let q = p.put_str(lhw, y, body, l, None);
        crate::canvas::lemma_put_str_cell(q, lhw + a.length, y, seq![rh], l, None, 0, y);
        assert(v1.cell(0, y).ch == lh);
        if has_label {
            lemma_centered_rows_keep(v1, lines, total, n, 0, y);
        }
        assert(v.cell(0, y).ch == lh);
    }
    if a.direction == ArrowDirection::Bidirectional && lhw + a.length < v0.width {
        let p = v0.put_str(0, y, seq![lh], l, None);
        let c = lhw + a.length;
        assert(v0.cell(c, y) == crate::canvas::blank_cell());
        crate::canvas::lemma_put_str_cell(v0, 0, y, seq![lh], l, None, c, y);
        crate::canvas::lemma_put_str_cell(p, lhw, y, body, l, None, c, y);
        let q = p.put_str(lhw, y, body, l, None);
        crate::canvas::lemma_put_char_at(q, c, y, rh, l, None);
        crate::canvas::lemma_put_str_cell(q, c, y, seq![rh], l, None, c, y);
        assert(v1.cell(c, y).ch == rh);
        if has_label {
            lemma_centered_rows_keep(v1, lines, total, n, c, y);
        }
        assert(v.cell(c, y).ch == rh);
    }
}

/// The arrow's text when its label wrapped to `lines`.
pub open spec fn arrow_text(a: ArrowSpec, lines: Seq<Seq<char>>) -> Seq<char> {
    match a.direction {
        ArrowDirection::Up | ArrowDirection::Down => vertical_view(a, lines).rendered(false),
        _ => horizontal_view(a, lines).rendered(false),
    }
}

/// The wrap width the label of `a` is wrapped at.
pub open spec fn label_wrap_width(a: ArrowSpec) -> int {
    match a.direction {
        ArrowDirection::Up | ArrowDirection::Down => if a.width >= 1 { a.width - 1 } else { 0 },
        _ => {
            let t = total_width(a);
            let t10 = if t > 10 { t } else { 10 };
            if a.width < t10 { a.width as int } else { t10 }
        },
    }
}

/// Arrows stay far from the largest machine sizes.
pub open spec fn arrow_fits(a: ArrowSpec) -> bool {
    a.length + 1024 <= usize::MAX && a.width + 1024 <= usize::MAX
}

/// Write `lines` centered over `total` columns, one per row from row 0.
fn put_centered_rows(canvas: &mut Canvas, lines: &Vec<String>, total: usize)
    requires
        old(canvas)@.wf(),
    ensures
        final(canvas)@.wf(),
        final(canvas)@ == centered_rows(old(canvas)@, views(lines@), total as int, lines@.len() as int),
{
    let ghost v0 = canvas@;
    let mut i: usize = 0;
    while i < lines.len()
        invariant
            i <= lines@.len(),
            canvas@.wf(),
            canvas@ == centered_rows(v0, views(lines@), total as int, i as int),
        decreases lines@.len() - i,
    {
        let l = chars_of(lines[i].as_str());
        let lw = seq_display_width(l.as_slice());
        let x = total.saturating_sub(lw) / 2;
        canvas.put_chars_layered(x, i, l.as_slice(), Layer::NodeContent, None);
        assert(views(lines@)[i as int] == l@);
        i = i + 1;
    }
}

/// Write `lines` starting in column `x`, one per row from row 0.
fn put_rows_at(canvas: &mut Canvas, lines: &Vec<String>, x: usize)
    requires
        old(canvas)@.wf(),
    ensures
        final(canvas)@.wf(),
        final(canvas)@ == rows_at(old(canvas)@, views(lines@), x as int, lines@.len() as int),
{
    let ghost v0 = canvas@;
    let mut i: usize = 0;
    while i < lines.len()
        invariant
            i <= lines@.len(),
            canvas@.wf(),
            canvas@ == rows_at(v0, views(lines@), x as int, i as int),
        decreases lines@.len() - i,
    {
        let l = chars_of(lines[i].as_str());
        canvas.put_chars_layered(x, i, l.as_slice(), Layer::NodeContent, None);
        assert(views(lines@)[i as int] == l@);
        i = i + 1;
    }
}

/// The one-character buffer `[c]`.
fn one_char(c: char) -> (r: Vec<char>)
    ensures
        r@ == seq![c],
{
    let v = vec![c];
    assert(v@ =~= seq![c]);
    v
}

/// `n` copies of `c`.
fn repeat_char(c: char, n: usize) -> (r: Vec<char>)
    ensures
        r@ == repeat(c, n as nat),
{
    let mut v: Vec<char> = Vec::new();
    let mut i: usize = 0;
    while i < n
        invariant
            i <= n,
            v@ == repeat(c, i as nat),
        decreases n - i,
    {
        v.push(c);
        i = i + 1;
        assert(v@ =~= repeat(c, i as nat));
    }
    v
}

/// Draw a standalone arrow at the default width of 80 columns.
///
/// `direction` is one of `right`, `left`, `up`, `down`,
/// `bidirectional`; `length` is the line length without arrowheads; the
/// optional label sits above a horizontal arrow or beside a vertical one.
pub fn draw_arrow(
    direction: &str,
    length: usize,
    style: LineStyle,
    charset: Charset,
    label: Option<&str>,
) -> (r: Result<String>)
    requires
        length + 1024 <= usize::MAX,
    ensures
        (r is Err) <==> direction_named(direction@) is None,
        r is Err ==> r->Err_0 is InvalidDimensions,
        r matches Ok(s) ==> exists|lines: Seq<Seq<char>>|
            #[trigger] wraps_label(
                lines,
                opt_text(label),
                label_wrap_width(arrow_request(direction@, length, 80, style, charset, label)),
            ) && s@ == arrow_text(arrow_request(direction@, length, 80, style, charset, label), lines),
{
    draw_arrow_with_width(direction, length, 80, style, charset, label)
}

/// Same as [`draw_arrow`] with an explicit width for label wrapping.
pub fn draw_arrow_with_width(
    direction: &str,
    length: usize,
    width: usize,
    style: LineStyle,
    charset: Charset,
    label: Option<&str>,
) -> (r: Result<String>)
    requires
        length + 1024 <= usize::MAX,
        width + 1024 <= usize::MAX,
    ensures
        (r is Err) <==> direction_named(direction@) is None,
        r is Err ==> r->Err_0 is InvalidDimensions,
        r matches Ok(s) ==> exists|lines: Seq<Seq<char>>|
            #[trigger] wraps_label(
                lines,
                opt_text(label),
                label_wrap_width(arrow_request(direction@, length, width, style, charset, label)),
            ) && s@ == arrow_text(arrow_request(direction@, length, width, style, charset, label), lines),
{
    let arrow = Arrow::new(direction, length, style, charset);
    match arrow {
        Err(e) => Err(e),
        Ok(a) => {
            let mut a = a.width(width);
            if let Some(l) = label {
                a = a.label(l);
            }
            a.build()
        },
    }
}

impl Arrow {
    /// A new arrow builder; an unknown direction is refused.
    pub fn new(direction: &str, length: usize, style: LineStyle, charset: Charset) -> (r: Result<
        Arrow,
    >)
        ensures
            (r is Err) <==> direction_named(direction@) is None,
            r is Err ==> r->Err_0 is InvalidDimensions,
            r matches Ok(a) ==> a@ == (ArrowSpec {
                direction: direction_named(direction@)->0,
                length,
                width: 80,
                style,
                charset,
                label: Seq::empty(),
            }),
    {
        match parse_direction(direction) {
            Some(d) => Ok(Arrow { direction: d, length, width: 80, style, charset, label: None }),
            None => {
                let mut msg: Vec<char> = Vec::new();
                msg.extend_from_slice(
                    &['u', 'n', 'k', 'n', 'o', 'w', 'n', ' ', 'd', 'i', 'r', 'e', 'c', 't', 'i', 'o', 'n', ' ', '\''],
                );
                let d = chars_of(direction);
                msg.extend_from_slice(d.as_slice());
                msg.push('\'');
                Err(FigoError::InvalidDimensions(string_from_chars(msg.as_slice())))
            },
        }
    }

    /// Set the canvas width, the hard upper limit for label wrapping.
    pub fn width(self, width: usize) -> (r: Arrow)
        ensures
            r@ == (ArrowSpec { width, ..self@ }),
    {
        Arrow { width, ..self }
    }

    /// Set the label.
    pub fn label(self, label: &str) -> (r: Arrow)
        ensures
            r@ == (ArrowSpec { label: label@, ..self@ }),
    {
        Arrow { label: Some(label.to_owned()), ..self }
    }

    /// Render the arrow.
    pub fn build(&self) -> (r: Result<String>)
        requires
            arrow_fits(self@),
        ensures
            r matches Ok(s) && exists|lines: Seq<Seq<char>>|
                #[trigger] wraps_label(lines, self@.label, label_wrap_width(self@)) && s@
                    == arrow_text(self@, lines),
    {
        match self.direction {
            ArrowDirection::Up | ArrowDirection::Down => Ok(self.draw_vertical()),
            _ => Ok(self.draw_horizontal()),
        }
    }

    /// Render the arrow (same as [`Arrow::build`]).
    pub fn render(&self) -> (r: Result<String>)
        requires
            arrow_fits(self@),
        ensures
            r matches Ok(s) && exists|lines: Seq<Seq<char>>|
                #[trigger] wraps_label(lines, self@.label, label_wrap_width(self@)) && s@
                    == arrow_text(self@, lines),
    {
        self.build()
    }

    /// Line and right-pointing head glyphs.
    fn arrow_chars(&self) -> (r: (char, char))
        ensures
            r == spec_arrow_chars(self.style, self.charset),
    {
        match (self.style, self.charset) {
            (LineStyle::Bold, Charset::Unicode) => ('━', '⇒'),
            (LineStyle::Bold, Charset::Ascii) => ('=', '>'),
            (_, Charset::Unicode) => ('─', '→'),
            (_, Charset::Ascii) => ('-', '>'),
        }
    }

    /// Line and left-pointing head glyphs.
    fn left_arrow_chars(&self) -> (r: (char, char))
        ensures
            r == spec_left_arrow_chars(self.style, self.charset),
    {
        match (self.style, self.charset) {
            (LineStyle::Bold, Charset::Unicode) => ('━', '⇐'),
            (LineStyle::Bold, Charset::Ascii) => ('=', '<'),
            (_, Charset::Unicode) => ('─', '←'),
            (_, Charset::Ascii) => ('-', '<'),
        }
    }

    /// The label's text (empty when there is none).
    fn label_chars(&self) -> (r: Vec<char>)
        ensures
            r@ == self@.label,
    {
        match &self.label {
            Some(l) => chars_of(l.as_str()),
            None => Vec::new(),
        }
    }

    fn draw_horizontal(&self) -> (r: String)
        requires
            arrow_fits(self@),
            self@.direction != ArrowDirection::Up,
            self@.direction != ArrowDirection::Down,
        ensures
            exists|lines: Seq<Seq<char>>|
                #[trigger] wraps_label(lines, self@.label, label_wrap_width(self@)) && r@
                    == arrow_text(self@, lines),
    {
        let (line, right_head) = self.arrow_chars();
        let (_, left_head) = self.left_arrow_chars();
        let label = self.label_chars();
        let lhw = width_or(left_head, 0);
        let rhw = width_or(right_head, 0);
        let total = if self.direction == ArrowDirection::Bidirectional {
            self.length + lhw + rhw
        } else {
            self.length + rhw
        };
        assert(total == total_width(self@));
        let t10 = if total > 10 {
            total
        } else {
            10
        };
        let max_label_w = if self.width < t10 {
            self.width
        } else {
            t10
        };
        let has_label = label.len() > 0;
        let lines: Vec<String> = if !has_label {
            Vec::new()
        } else {
            let s = string_from_chars(label.as_slice());
            wrap_label(s.as_str(), max_label_w).lines
        };
        let n = lines.len();
        let height: usize = if !has_label {
            1
        } else {
            n.saturating_add(2)
        };
        let width = if self.width > total {
            self.width
        } else {
            total
        };
        let arrow_y: usize = if !has_label {
            0
        } else {
            n.saturating_add(1)
        };
        let mut canvas = Canvas::new(width, height);
        let body = repeat_char(line, self.length);
        match self.direction {
            ArrowDirection::Left => {
                canvas.put_chars_layered(0, arrow_y, one_char(left_head).as_slice(), Layer::NodeContent, None);
                canvas.put_chars_layered(lhw, arrow_y, body.as_slice(), Layer::NodeContent, None);
            },
            ArrowDirection::Bidirectional => {
                canvas.put_chars_layered(0, arrow_y, one_char(left_head).as_slice(), Layer::NodeContent, None);
                canvas.put_chars_layered(lhw, arrow_y, body.as_slice(), Layer::NodeContent, None);
                canvas.put_chars_layered(
                    lhw + self.length,
                    arrow_y,
                    one_char(right_head).as_slice(),
                    Layer::NodeContent,
                    None,
                );
            },
            _ => {
                canvas.put_chars_layered(0, arrow_y, body.as_slice(), Layer::NodeContent, None);
                canvas.put_chars_layered(
                    self.length,
                    arrow_y,
                    one_char(right_head).as_slice(),
                    Layer::NodeContent,
                    None,
                );
            },
        }
        if has_label {
            put_centered_rows(&mut canvas, &lines, total);
        }
        let out = canvas.render(false);
        assert(wraps_label(views(lines@), self@.label, label_wrap_width(self@)));
        assert(out@ == arrow_text(self@, views(lines@)));
        out
    }

    fn draw_vertical(&self) -> (r: String)
        requires
            arrow_fits(self@),
            self@.direction == ArrowDirection::Up || self@.direction == ArrowDirection::Down,
        ensures
            exists|lines: Seq<Seq<char>>|
                #[trigger] wraps_label(lines, self@.label, label_wrap_width(self@)) && r@
                    == arrow_text(self@, lines),
    {
        let up = self.direction == ArrowDirection::Up;
        let (head, line) = match (up, self.style, self.charset) {
            (true, LineStyle::Bold, Charset::Unicode) => ('⇑', '┃'),
            (true, _, Charset::Unicode) => ('↑', '│'),
            (true, _, Charset::Ascii) => ('^', '|'),
            (false, LineStyle::Bold, Charset::Unicode) => ('⇓', '┃'),
            (false, _, Charset::Unicode) => ('↓', '│'),
            (false, _, Charset::Ascii) => ('v', '|'),
        };
        assert((head, line) == spec_vertical_chars(up, self.style, self.charset));
        let label = self.label_chars();
        let has_label = label.len() > 0;
        let max_label_w = self.width.saturating_sub(1);
        let wrapped = if !has_label {
            None
        } else {
            let s = string_from_chars(label.as_slice());
            Some(wrap_label(s.as_str(), max_label_w))
        };
        let (lines, max_line_w): (Vec<String>, usize) = match wrapped {
            Some(w) => (w.lines, w.max_width),
            None => (Vec::new(), 0),
        };
        let width: usize = if !has_label {
            1
        } else {
            max_line_w.saturating_add(1)
        };
        let height = if self.length + 1 > lines.len() {
            self.length + 1
        } else {
            lines.len()
        };
        let mut canvas = Canvas::new(width, height);
        let ghost v0 = canvas@;
        if up {
            canvas.put_chars_layered(0, 0, one_char(head).as_slice(), Layer::NodeContent, None);
            let ghost v1 = canvas@;
            let mut i: usize = 0;
            while i < self.length
                invariant
                    i <= self.length,
                    self.length + 1024 <= usize::MAX,
                    canvas@.wf(),
                    canvas@ == column_run(v1, 1, i as int, line),
                decreases self.length - i,
            {
                let one = vec![line];
                assert(one@ =~= seq![line]);
                canvas.put_chars_layered(0, i + 1, one.as_slice(), Layer::NodeContent, None);
                i = i + 1;
            }
        } else {
            let mut i: usize = 0;
            while i < self.length
                invariant
                    i <= self.length,
                    canvas@.wf(),
                    canvas@ == column_run(v0, 0, i as int, line),
                decreases self.length - i,
            {
                let one = vec![line];
                assert(one@ =~= seq![line]);
                canvas.put_chars_layered(0, i, one.as_slice(), Layer::NodeContent, None);
                i = i + 1;
            }
            canvas.put_chars_layered(0, self.length, one_char(head).as_slice(), Layer::NodeContent, None);
        }
        if has_label {
            put_rows_at(&mut canvas, &lines, 1);
        }
        let out = canvas.render(false);
        assert(wraps_label(views(lines@), self@.label, label_wrap_width(self@)));
        assert(out@ == arrow_text(self@, views(lines@)));
        out
    }
}

} // verus!
