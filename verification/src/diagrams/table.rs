//! Tables: a header row and data rows in bordered, auto-sized columns.
//!
//! Column widths start from the widest cell of each column (or the
//! widths the caller gives). Surplus room is spread evenly over the
//! columns; when the content is wider than the table, columns shrink to
//! fit it, each keeping at least its header's width and sharing the rest
//! in proportion to what it wants beyond that. Only headers that do not
//! fit together make the table wider than asked. Sums that would pass
//! `usize::MAX` saturate.

use vstd::prelude::*;
use crate::canvas::{blank_view, Canvas, CanvasView, Layer};
use crate::diagrams::arrow::sat_add;
use crate::error::{FigoError, Result};
use crate::style::{spec_glyphs, BorderGlyphs, BorderStyle, Charset, HAlign, Padding};
use crate::text::{padded_as, spaces};
use crate::width::{chars_of, chars_width, seq_display_width};

verus! {

/// Builder for table diagrams.
#[derive(Debug)]
pub struct Table<'a> {
    pub width: usize,
    pub charset: Charset,
    pub headers: &'a [&'a str],
    pub rows: &'a [Vec<&'a str>],
    pub col_widths: Option<Vec<usize>>,
    pub padding: Padding,
    pub align: Vec<HAlign>,
    pub border: BorderStyle,
    pub header_separator: bool,
    pub color: bool,
}

/// What a table draws: its settings, with the texts as character
/// sequences.
pub struct TableSpec {
    pub width: usize,
    pub charset: Charset,
    pub headers: Seq<Seq<char>>,
    pub rows: Seq<Seq<Seq<char>>>,
    pub col_widths: Option<Seq<usize>>,
    pub padding: Padding,
    pub align: Seq<HAlign>,
    pub border: BorderStyle,
    pub header_separator: bool,
    pub color: bool,
}

/// The texts of a list of strings.
pub open spec fn str_views(s: Seq<&str>) -> Seq<Seq<char>> {
    s.map_values(|h: &str| h@)
}

/// The texts of a list of string rows.
pub open spec fn rows_view(rows: Seq<Vec<&str>>) -> Seq<Seq<Seq<char>>> {
    rows.map_values(|r: Vec<&str>| str_views(r@))
}

/// The texts of a row of cell buffers.
pub open spec fn cells_view(r: Seq<Vec<char>>) -> Seq<Seq<char>> {
    r.map_values(|c: Vec<char>| c@)
}

impl<'a> View for Table<'a> {
    type V = TableSpec;

    open spec fn view(&self) -> TableSpec {
        TableSpec {
            width: self.width,
            charset: self.charset,
            headers: str_views(self.headers@),
            rows: rows_view(self.rows@),
            col_widths: match self.col_widths {
                Some(v) => Some(v@),
                None => None,
            },
            padding: self.padding,
            align: self.align@,
            border: self.border,
            header_separator: self.header_separator,
            color: self.color,
        }
    }
}

// ---------------------------------------------------------------------
// Column geometry
// ---------------------------------------------------------------------

pub open spec fn imax(a: int, b: int) -> int {
    if a > b {
        a
    } else {
        b
    }
}

pub open spec fn imin(a: int, b: int) -> int {
    if a < b {
        a
    } else {
        b
    }
}

/// When the minimum widths do not fit, the room for the columns is no
/// more than their total.
proof fn lemma_avail_below_total(t: TableSpec, mins: Seq<int>, avail: int)
    requires
        table_fits(t),
        mins.len() > 0,
        sat_add(min_total(t, mins), 2) > t.width,
        avail == col_room(t, mins.len() as int),
        forall|k: int| 0 <= k < mins.len() ==> 0 <= #[trigger] mins[k] <= usize::MAX,
    ensures
        avail <= sum_sat(mins),
{
    lemma_sum_sat_range(mins);
}

/// `a * b`, capped at `usize::MAX`.
pub open spec fn sat_mul(a: int, b: int) -> int {
    if a * b > usize::MAX {
        usize::MAX as int
    } else {
        a * b
    }
}

/// `a - b`, floored at zero.
pub open spec fn sub0(a: int, b: int) -> int {
    if a > b {
        a - b
    } else {
        0
    }
}

/// Longest row (in cells).
pub open spec fn max_row_len(rows: Seq<Seq<Seq<char>>>) -> int
    decreases rows.len(),
{
    if rows.len() == 0 {
        0
    } else {
        imax(max_row_len(rows.drop_last()), rows.last().len() as int)
    }
}

/// Number of columns: the header count or the longest row.
pub open spec fn col_count(t: TableSpec) -> int {
    imax(t.headers.len() as int, max_row_len(t.rows))
}

/// Widest cell of column `ci` among the rows that have one.
pub open spec fn max_cell_width(rows: Seq<Seq<Seq<char>>>, ci: int) -> int
    decreases rows.len(),
{
    if rows.len() == 0 {
        0
    } else {
        let r = rows.last();
        let w = if ci < r.len() {
            chars_width(r[ci]) as int
        } else {
            0
        };
        imax(max_cell_width(rows.drop_last(), ci), w)
    }
}

/// Minimum width of column `ci`: the explicit width when given (10 for
/// columns past the given list), else the widest of header and cells,
/// at least 1.
pub open spec fn min_col_width(t: TableSpec, ci: int) -> int {
    match t.col_widths {
        Some(ws) => if ci < ws.len() {
            ws[ci] as int
        } else {
            10
        },
        None => {
            let hw = if ci < t.headers.len() {
                chars_width(t.headers[ci]) as int
            } else {
                0
            };
            imax(imax(hw, max_cell_width(t.rows, ci)), 1)
        },
    }
}

/// The minimum widths of the first `n` columns.
pub open spec fn min_widths(t: TableSpec, n: int) -> Seq<int> {
    Seq::new(n as nat, |ci: int| min_col_width(t, ci))
}

/// Sum of `s`, capped at `usize::MAX`.
pub open spec fn sum_sat(s: Seq<int>) -> int
    decreases s.len(),
{
    if s.len() == 0 {
        0
    } else {
        sat_add(sum_sat(s.drop_last()), s.last())
    }
}

/// Width the columns need: minimum widths, padding, and the inner
/// separators.
pub open spec fn min_total(t: TableSpec, mins: Seq<int>) -> int {
    let n = mins.len() as int;
    sat_add(sat_add(sum_sat(mins), sat_mul(t.padding.horizontal * 2, n)), sub0(n, 1))
}

/// Surplus `s` spread over the columns: each gets `s / n`, the first
/// `s % n` one more.
pub open spec fn spread(mins: Seq<int>, s: int) -> Seq<int> {
    let n = mins.len() as int;
    Seq::new(
        mins.len(),
        |i: int| sat_add(sat_add(mins[i], s / n), if i < s % n { 1int } else { 0int }),
    )
}

/// The least width column `ci` shrinks to: its header's width (at least
/// 1), but never above its minimum width.
pub open spec fn col_floor(t: TableSpec, mins: Seq<int>, ci: int) -> int {
    let hw = if ci < t.headers.len() { chars_width(t.headers[ci]) as int } else { 0 };
    imin(imax(hw, 1), mins[ci])
}

/// The floors of all columns.
pub open spec fn floors(t: TableSpec, mins: Seq<int>) -> Seq<int> {
    Seq::new(mins.len(), |i: int| col_floor(t, mins, i))
}

/// Widths shrunk to `avail` in all: each column keeps its floor, and the
/// room above the floors is shared in proportion to what each column
/// wants above its floor (rounded down). When the floors alone do not
/// fit, every column gets its floor.
pub open spec fn shrink(mins: Seq<int>, fl: Seq<int>, avail: int) -> Seq<int> {
    let f = sum_sat(fl);
    let tot = sum_sat(mins);
    if avail > f && tot > f {
        Seq::new(mins.len(), |i: int| fl[i] + (mins[i] - fl[i]) * (avail - f) / (tot - f))
    } else {
        fl
    }
}

/// Room for the columns themselves in a table `t.width` wide.
pub open spec fn col_room(t: TableSpec, n: int) -> int {
    sub0(t.width as int, sat_add(sat_add(sat_mul(t.padding.horizontal * 2, n), n), 1))
}

/// The final column widths: the minimum widths, with any surplus of the
/// requested width spread over the columns, or shrunk (see [`shrink`])
/// when the minimum widths and the two border columns do not fit.
pub open spec fn final_widths(t: TableSpec, mins: Seq<int>) -> Seq<int> {
    let n = mins.len() as int;
    let mt = min_total(t, mins);
    let surplus = sub0(t.width as int, sat_add(mt, 2));
    if surplus >= n {
        spread(mins, surplus)
    } else if sat_add(mt, 2) > t.width {
        shrink(mins, floors(t, mins), col_room(t, n))
    } else {
        mins
    }
}

/// Start column of column `i`: after the border, the padding, and the
/// preceding columns with their padding and separators.
pub open spec fn col_start(t: TableSpec, widths: Seq<int>, i: int) -> int
    decreases i,
{
    if i <= 0 {
        1 + t.padding.horizontal
    } else {
        sat_add(
            col_start(t, widths, i - 1),
            sat_add(sat_add(widths[i - 1], t.padding.horizontal * 2), 1),
        )
    }
}

/// Total width of the drawn table: its columns, their padding, the
/// separators and the two border columns.
pub open spec fn display_width(t: TableSpec, widths: Seq<int>) -> int {
    let n = widths.len() as int;
    sat_add(sat_add(sat_add(sum_sat(widths), sat_mul(t.padding.horizontal * 2, n)), n), 1)
}

// ---------------------------------------------------------------------
// Rows and cells
// ---------------------------------------------------------------------

/// Text of cell `ci` of a row (empty past its end).
pub open spec fn cell_of(row: Seq<Seq<char>>, ci: int) -> Seq<char> {
    if ci < row.len() {
        row[ci]
    } else {
        Seq::empty()
    }
}

/// The rows drawn: the header row (when there are headers) and then
/// every data row, each padded to `n` cells.
pub open spec fn all_rows(t: TableSpec, n: int) -> Seq<Seq<Seq<char>>> {
    let data = Seq::new(t.rows.len(), |r: int| Seq::new(n as nat, |ci: int| cell_of(t.rows[r], ci)));
    if t.headers.len() > 0 {
        seq![Seq::new(n as nat, |ci: int| cell_of(t.headers, ci))] + data
    } else {
        data
    }
}

/// A cell's text padded to `width` as `align` says; text at least as
/// wide as the column is kept whole.
pub open spec fn spec_aligned_cell(text: Seq<char>, width: int, align: HAlign) -> Seq<char> {
    let tl = chars_width(text) as int;
    if tl >= width {
        text
    } else {
        let pad = (width - tl) as nat;
        match align {
            HAlign::Left => text + spaces(pad),
            HAlign::Right => spaces(pad) + text,
            HAlign::Center => spaces(pad / 2) + text + spaces((pad - pad / 2) as nat),
        }
    }
}

/// Alignment of column `ci` (left past the given list).
pub open spec fn col_align(t: TableSpec, ci: int) -> HAlign {
    if ci < t.align.len() {
        t.align[ci]
    } else {
        HAlign::Left
    }
}

/// Cell alignment: a cell at least as wide as its column is kept as it
/// is; a narrower one is padded with spaces to the column width, split
/// as the column's alignment asks (see [`padded_as`]).
pub proof fn law_cell_alignment(text: Seq<char>, width: int, align: HAlign)
    ensures
        padded_as(spec_aligned_cell(text, width, align), text, chars_width(text) as int, width, align),
{
    let tl = chars_width(text) as int;
    let r = spec_aligned_cell(text, width, align);
    if tl < width {
        let pad = (width - tl) as nat;
        match align {
            HAlign::Left => {
                assert(r.subrange(0, text.len() as int) =~= text);
            },
            HAlign::Right => {
                assert(r.subrange(pad as int, (pad + text.len()) as int) =~= text);
            },
            HAlign::Center => {
                assert(r.subrange((pad / 2) as int, (pad / 2 + text.len()) as int) =~= text);
            },
        }
    }
}

/// The header separator is drawn.
pub open spec fn has_sep(t: TableSpec, n_rows: int) -> bool {
    t.header_separator && t.headers.len() > 0 && n_rows > 0
}

/// Row of table row `ri`.
pub open spec fn row_y(t: TableSpec, ri: int, sep: bool) -> int {
    let skip = 1 + t.padding.vertical * 2;
    sat_add(sat_add(1 + t.padding.vertical, sat_mul(ri, skip)), if sep && ri > 0 { 1int } else { 0int })
}

/// Total rows of the drawn table.
pub open spec fn table_height(t: TableSpec, n_rows: int, sep: bool) -> int {
    sat_add(sat_add(sat_add(1, sat_mul(n_rows, 1 + t.padding.vertical * 2)), if sep { 1int } else { 0int }), 1)
}

// ---------------------------------------------------------------------
// The picture
// ---------------------------------------------------------------------

/// `n` writes of `c` down column `x` from row `y`.
pub open spec fn vrun(v: CanvasView, x: int, y: int, n: int, c: char) -> CanvasView
    decreases n,
{
    if n <= 0 {
        v
    } else {
        vrun(v, x, y, n - 1, c).put(x, y + n - 1, c, Layer::NodeContent, None)
    }
}

/// The column separators of columns `1..k`: a vertical run between the
/// border rows, tees where it meets the top and bottom border.
pub open spec fn separators(v: CanvasView, t: TableSpec, widths: Seq<int>, h: int, g: BorderGlyphs, k: int) -> CanvasView
    decreases k,
{
    if k <= 1 {
        v
    } else {
        let x = sub0(col_start(t, widths, k - 1), 1 + t.padding.horizontal);
        vrun(separators(v, t, widths, h, g, k - 1), x, 1, h - 2, g.vertical).put(
            x,
            0,
            g.tee_down,
            Layer::NodeContent,
            None,
        ).put(x, h - 1, g.tee_up, Layer::NodeContent, None)
    }
}

/// What the header separator row writes over a cell holding `existing`.
pub open spec fn sep_glyph(existing: char, g: BorderGlyphs) -> char {
    if existing == g.vertical {
        g.cross
    } else if existing == ' ' {
        g.horizontal
    } else {
        existing
    }
}

/// The header separator row over columns `0..k` of row `y`.
pub open spec fn sep_row(v: CanvasView, y: int, g: BorderGlyphs, k: int) -> CanvasView
    decreases k,
{
    if k <= 0 {
        v
    } else {
        let w = sep_row(v, y, g, k - 1);
        let existing = if w.in_bounds(k - 1, y) {
            w.cell(k - 1, y).ch
        } else {
            ' '
        };
        w.put(k - 1, y, sep_glyph(existing, g), Layer::NodeContent, None)
    }
}

/// Cells `0..k` of one table row.
pub open spec fn row_cells(v: CanvasView, t: TableSpec, widths: Seq<int>, cells: Seq<Seq<char>>, y: int, k: int) -> CanvasView
    decreases k,
{
    if k <= 0 {
        v
    } else {
        row_cells(v, t, widths, cells, y, k - 1).put_str(
            col_start(t, widths, k - 1),
            y,
            spec_aligned_cell(cells[k - 1], widths[k - 1], col_align(t, k - 1)),
            Layer::NodeContent,
            None,
        )
    }
}

/// Table rows `0..k`.
pub open spec fn all_cells(v: CanvasView, t: TableSpec, widths: Seq<int>, rows: Seq<Seq<Seq<char>>>, sep: bool, k: int) -> CanvasView
    decreases k,
{
    if k <= 0 {
        v
    } else {
        row_cells(
            all_cells(v, t, widths, rows, sep, k - 1),
            t,
            widths,
            rows[k - 1],
            row_y(t, k - 1, sep),
            widths.len() as int,
        )
    }
}

/// The table's canvas (when it has at least one column).
pub open spec fn table_view(t: TableSpec) -> CanvasView {
    let n = col_count(t);
    let widths = final_widths(t, min_widths(t, n));
    let dw = display_width(t, widths);
    let rows = all_rows(t, n);
    let sep = has_sep(t, rows.len() as int);
    let h = table_height(t, rows.len() as int, sep);
    let g = spec_glyphs(t.border, t.charset);
    let v0 = blank_view(dw as nat, h as nat).rect(0, 0, dw, h, g);
    let v1 = separators(v0, t, widths, h, g, n);
    let v2 = if sep {
        sep_row(v1, 1 + (1 + t.padding.vertical * 2), g, dw)
    } else {
        v1
    };
    all_cells(v2, t, widths, rows, sep, rows.len() as int)
}

/// The drawn table, or the empty frame when there are no columns.
pub open spec fn table_text(t: TableSpec) -> Seq<char> {
    if col_count(t) == 0 {
        let w = imax(t.width as int, 4);
        blank_view(w as nat, 2).rect(0, 0, w, 2, spec_glyphs(t.border, t.charset)).rendered(t.color)
    } else {
        table_view(t).rendered(t.color)
    }
}

/// The table is refused: it has columns but is narrower than 2.
pub open spec fn table_error(t: TableSpec) -> bool {
    col_count(t) > 0 && display_width(t, final_widths(t, min_widths(t, col_count(t)))) < 2
}

/// Table measures stay far from `usize::MAX`.
pub open spec fn table_fits(t: TableSpec) -> bool {
    &&& t.padding.horizontal <= usize::MAX / 4
    &&& t.padding.vertical <= usize::MAX / 4
    &&& t.width + 16 <= usize::MAX
}

proof fn lemma_all_rows_len(t: TableSpec, n: int, r: int)
    requires
        0 <= r < all_rows(t, n).len(),
        n >= 0,
    ensures
        all_rows(t, n)[r].len() == n,
{
    let data = Seq::new(t.rows.len(), |r: int| Seq::new(n as nat, |ci: int| cell_of(t.rows[r], ci)));
    if t.headers.len() > 0 {
        let h = seq![Seq::new(n as nat, |ci: int| cell_of(t.headers, ci))];
        assert(all_rows(t, n) == h + data);
        if r > 0 {
            assert((h + data)[r] == data[r - 1]);
        }
    }
}

/// The values of `v` as integers.
pub open spec fn ints(v: Seq<usize>) -> Seq<int> {
    v.map_values(|w: usize| w as int)
}

/// A cell's text padded to `width` (see [`spec_aligned_cell`]).
pub fn aligned_cell(text: &[char], width: usize, align: HAlign) -> (r: Vec<char>)
    ensures
        r@ == spec_aligned_cell(text@, width as int, align),
{
    let t_len = seq_display_width(text);
    if t_len >= width {
        let mut v: Vec<char> = Vec::new();
        v.extend_from_slice(text);
        return v;
    }
    let lw = t_len;
    let v = crate::text::align_chars(text, lw, width, align);
    assert(v@ =~= spec_aligned_cell(text@, width as int, align));
    v
}

/// Draw a table with headers and rows.
pub fn draw_table<'a>(
    headers: &'a [&'a str],
    rows: &'a [Vec<&'a str>],
    width: usize,
    charset: Charset,
    border: BorderStyle,
) -> (r: Result<String>)
    requires
        width + 16 <= usize::MAX,
    ensures
        ({
            let t = TableSpec {
                width,
                charset,
                headers: str_views(headers@),
                rows: rows_view(rows@),
                col_widths: None,
                padding: Padding { horizontal: 0, vertical: 0 },
                align: Seq::empty(),
                border,
                header_separator: true,
                color: false,
            };
            &&& (r is Err) <==> table_error(t)
            &&& r is Err ==> r->Err_0 is InvalidDimensions
            &&& r matches Ok(s) ==> s@ == table_text(t)
        }),
{
    let t = Table::new(width, charset).headers(headers).rows(rows).border(border);
    t.build()
}

impl<'a> Table<'a> {
    /// A table builder: no headers or rows, auto-sized columns, no
    /// padding, left-aligned cells, single border, header separator on,
    /// no color.
    pub fn new(width: usize, charset: Charset) -> (r: Table<'a>)
        ensures
            r@ == (TableSpec {
                width,
                charset,
                headers: Seq::empty(),
                rows: Seq::empty(),
                col_widths: None,
                padding: Padding { horizontal: 0, vertical: 0 },
                align: Seq::empty(),
                border: BorderStyle::Single,
                header_separator: true,
                color: false,
            }),
    {
        let t = Table {
            width,
            charset,
            headers: &[],
            rows: &[],
            col_widths: None,
            padding: Padding::none(),
            align: Vec::new(),
            border: BorderStyle::Single,
            header_separator: true,
            color: false,
        };
        assert(t.headers@ =~= Seq::<&str>::empty());
        assert(t.rows@ =~= Seq::<Vec<&str>>::empty());
        assert(t@.headers =~= Seq::empty());
        assert(t@.rows =~= Seq::empty());
        t
    }
}

/// The character views of a grid of cell buffers.
pub open spec fn grid_views(v: Seq<Vec<Vec<char>>>) -> Seq<Seq<Seq<char>>> {
    v.map_values(|r: Vec<Vec<char>>| cells_view(r@))
}

proof fn lemma_sum_sat_push(s: Seq<int>, x: int)
    ensures
        sum_sat(s.push(x)) == sat_add(sum_sat(s), x),
{
    assert(s.push(x).drop_last() =~= s);
}


proof fn lemma_sum_sat_range(s: Seq<int>)
    requires
        forall|k: int| 0 <= k < s.len() ==> 0 <= #[trigger] s[k] <= usize::MAX,
    ensures
        0 <= sum_sat(s) <= usize::MAX,
    decreases s.len(),
{
    if s.len() > 0 {
        let d = s.drop_last();
        assert forall|k: int| 0 <= k < d.len() implies 0 <= #[trigger] d[k] <= usize::MAX by {
            assert(d[k] == s[k]);
        }
        lemma_sum_sat_range(d);
        assert(s.last() == s[s.len() - 1]);
    }
}

/// `a * b`, capped at `usize::MAX`.
pub fn mul_sat(a: usize, b: usize) -> (r: usize)
    ensures
        r == sat_mul(a as int, b as int),
{
    match a.checked_mul(b) {
        Some(p) => p,
        None => usize::MAX,
    }
}

/// Saturating sum of `v`.
fn sum_widths(v: &Vec<usize>) -> (r: usize)
    ensures
        r == sum_sat(ints(v@)),
{
    let mut acc: usize = 0;
    let mut i: usize = 0;
    while i < v.len()
        invariant
            i <= v@.len(),
            acc == sum_sat(ints(v@).take(i as int)),
        decreases v@.len() - i,
    {
        proof {
            assert(ints(v@).take(i + 1) =~= ints(v@).take(i as int).push(v@[i as int] as int));
            lemma_sum_sat_push(ints(v@).take(i as int), v@[i as int] as int);
        }
        acc = acc.saturating_add(v[i]);
        i = i + 1;
    }
    assert(ints(v@).take(v@.len() as int) =~= ints(v@));
    acc
}

impl<'a> Table<'a> {
    /// Set the header row.
    pub fn headers(self, headers: &'a [&'a str]) -> (r: Table<'a>)
        ensures
            r@ == (TableSpec { headers: str_views(headers@), ..self@ }),
    {
        Table { headers, ..self }
    }

    /// Set the data rows.
    pub fn rows(self, rows: &'a [Vec<&'a str>]) -> (r: Table<'a>)
        ensures
            r@ == (TableSpec {
                rows: rows_view(rows@),
                ..self@
            }),
    {
        Table { rows, ..self }
    }

    /// Set explicit column widths (`None` sizes columns to their content).
    pub fn col_widths(self, widths: Option<Vec<usize>>) -> (r: Table<'a>)
        ensures
            r@ == (TableSpec {
                col_widths: match widths {
                    Some(v) => Some(v@),
                    None => None,
                },
                ..self@
            }),
    {
        Table { col_widths: widths, ..self }
    }

    /// Set the cell padding.
    pub fn padding(self, horizontal: usize, vertical: usize) -> (r: Table<'a>)
        ensures
            r@ == (TableSpec { padding: Padding { horizontal, vertical }, ..self@ }),
    {
        Table { padding: Padding { horizontal, vertical }, ..self }
    }

    /// Set the per-column horizontal alignment.
    pub fn align(self, align: Vec<HAlign>) -> (r: Table<'a>)
        ensures
            r@ == (TableSpec { align: align@, ..self@ }),
    {
        Table { align, ..self }
    }

    /// Set the border style.
    pub fn border(self, style: BorderStyle) -> (r: Table<'a>)
        ensures
            r@ == (TableSpec { border: style, ..self@ }),
    {
        Table { border: style, ..self }
    }

    /// Show or hide the separator line below the header.
    pub fn header_separator(self, show: bool) -> (r: Table<'a>)
        ensures
            r@ == (TableSpec { header_separator: show, ..self@ }),
    {
        Table { header_separator: show, ..self }
    }

    /// Enable or disable color output.
    pub fn color(self, enabled: bool) -> (r: Table<'a>)
        ensures
            r@ == (TableSpec { color: enabled, ..self@ }),
    {
        Table { color: enabled, ..self }
    }

    /// Number of columns: the header count or the longest row.
    fn header_or_max_cols(&self) -> (r: usize)
        ensures
            r == col_count(self@),
    {
        let mut m: usize = 0;
        let mut i: usize = 0;
        while i < self.rows.len()
            invariant
                i <= self.rows@.len(),
                m == max_row_len(self@.rows.take(i as int)),
            decreases self.rows@.len() - i,
        {
            assert(self@.rows.take(i + 1).drop_last() =~= self@.rows.take(i as int));
            let l = self.rows[i].len();
            if l > m {
                m = l;
            }
            i = i + 1;
        }
        assert(self@.rows.take(self.rows@.len() as int) =~= self@.rows);
        let h = self.headers.len();
        if h > m {
            h
        } else {
            m
        }
    }

    /// Widest cell of column `ci`.
    fn max_cell_w(&self, ci: usize) -> (r: usize)
        ensures
            r == max_cell_width(self@.rows, ci as int),
    {
        let mut m: usize = 0;
        let mut i: usize = 0;
        while i < self.rows.len()
            invariant
                i <= self.rows@.len(),
                m == max_cell_width(self@.rows.take(i as int), ci as int),
            decreases self.rows@.len() - i,
        {
            assert(self@.rows.take(i + 1).drop_last() =~= self@.rows.take(i as int));
            let row = &self.rows[i];
            let w = if ci < row.len() {
                seq_display_width(chars_of(row[ci]).as_slice())
            } else {
                0
            };
            if w > m {
                m = w;
            }
            i = i + 1;
        }
        assert(self@.rows.take(self.rows@.len() as int) =~= self@.rows);
        m
    }

    /// Minimum width of each of the first `n` columns.
    fn compute_min_widths(&self, n: usize) -> (r: Vec<usize>)
        ensures
            ints(r@) == min_widths(self@, n as int),
    {
        let mut out: Vec<usize> = Vec::new();
        let mut ci: usize = 0;
        while ci < n
            invariant
                ci <= n,
                out@.len() == ci,
                forall|k: int| 0 <= k < ci ==> out@[k] == min_col_width(self@, k),
            decreases n - ci,
        {
            let w: usize = match &self.col_widths {
                Some(ex) => if ci < ex.len() {
                    ex[ci]
                } else {
                    10
                },
                None => {
                    let hw = if ci < self.headers.len() {
                        assert(self@.headers[ci as int] == self.headers@[ci as int]@);
                        seq_display_width(chars_of(self.headers[ci]).as_slice())
                    } else {
                        0
                    };
                    let cw = self.max_cell_w(ci);
                    let m = if hw > cw {
                        hw
                    } else {
                        cw
                    };
                    if m > 1 {
                        m
                    } else {
                        1
                    }
                },
            };
            assert(w == min_col_width(self@, ci as int));
            out.push(w);
            ci = ci + 1;
        }
        assert(ints(out@) =~= min_widths(self@, n as int));
        out
    }

    /// The final column widths (see [`final_widths`]).
    fn compute_widths(&self, mins: Vec<usize>) -> (r: Vec<usize>)
        requires
            table_fits(self@),
            mins@.len() > 0,
        ensures
            ints(r@) == final_widths(self@, ints(mins@)),
    {
        let n = mins.len();
        let ph2 = self.padding.horizontal * 2;
        let total_min = sum_widths(&mins);
        let mt = total_min.saturating_add(mul_sat(ph2, n)).saturating_add(n - 1);
        assert(mt == min_total(self@, ints(mins@)));
        let surplus = self.width.saturating_sub(mt.saturating_add(2));
        if surplus >= n {
            let per = surplus / n;
            let rem = surplus % n;
            let mut out: Vec<usize> = Vec::new();
            let mut i: usize = 0;
            while i < n
                invariant
                    i <= n,
                    n == mins@.len(),
                    per == surplus / n,
                    rem == surplus % n,
                    surplus >= n,
                    out@.len() == i,
                    forall|k: int| 0 <= k < i ==> out@[k] == spread(ints(mins@), surplus as int)[k],
                decreases n - i,
            {
                let extra: usize = if i < rem {
                    1
                } else {
                    0
                };
                let w = mins[i].saturating_add(per).saturating_add(extra);
                assert(w == spread(ints(mins@), surplus as int)[i as int]);
                out.push(w);
                i = i + 1;
            }
            assert(ints(out@) =~= spread(ints(mins@), surplus as int));
            return out;
        }
        if mt.saturating_add(2) > self.width {
            let ghost ms = ints(mins@);
            let mut fl: Vec<usize> = Vec::new();
            let mut i: usize = 0;
            while i < n
                invariant
                    i <= n,
                    n == mins@.len(),
                    ms == ints(mins@),
                    fl@.len() == i,
                    forall|k: int| 0 <= k < i ==> (#[trigger] fl@[k]) as int == col_floor(self@, ms, k),
                decreases n - i,
            {
                let hw = if i < self.headers.len() {
                    assert(self@.headers[i as int] == self.headers@[i as int]@);
                    seq_display_width(chars_of(self.headers[i]).as_slice())
                } else {
                    0
                };
                let h1 = if hw > 1 {
                    hw
                } else {
                    1
                };
                let f = if h1 < mins[i] {
                    h1
                } else {
                    mins[i]
                };
                fl.push(f);
                i = i + 1;
            }
            let ghost fs = ints(fl@);
            assert(fs =~= floors(self@, ms));
            let f_sum = sum_widths(&fl);
            let avail = self.width.saturating_sub(mul_sat(ph2, n).saturating_add(n).saturating_add(1));
            assert(avail as int == col_room(self@, n as int));
            if avail > f_sum && total_min > f_sum {
                proof {
                    lemma_avail_below_total(self@, ms, avail as int);
                }
                let mut out: Vec<usize> = Vec::new();
                let mut k: usize = 0;
                while k < n
                    invariant
                        k <= n,
                        n == mins@.len(),
                        n == fl@.len(),
                        ms == ints(mins@),
                        fs == ints(fl@),
                        fs == floors(self@, ms),
                        f_sum == sum_sat(fs),
                        total_min == sum_sat(ms),
                        avail > f_sum,
                        total_min > f_sum,
                        avail <= total_min,
                        out@.len() == k,
                        forall|j: int| 0 <= j < k ==> (#[trigger] out@[j]) as int == shrink(ms, fs, avail as int)[j],
                    decreases n - k,
                {
                    let m = mins[k];
                    let f = fl[k];
                    assert(fs[k as int] == fl@[k as int] as int);
                    assert(ms[k as int] == mins@[k as int] as int);
                    assert(f as int == col_floor(self@, ms, k as int));
                    let d: u128 = (m - f) as u128;
                    let a: u128 = (avail - f_sum) as u128;
                    let b: u128 = (total_min - f_sum) as u128;
                    assert(d * a <= u128::MAX) by (nonlinear_arith)
                        requires
                            d <= usize::MAX,
                            a <= usize::MAX,
                            usize::MAX <= u64::MAX,
                    ;
                    let q: u128 = d * a / b;
                    assert(q <= d) by (nonlinear_arith)
                        requires
                            a <= b,
                            b > 0,
                            q as int == (d as int) * (a as int) / (b as int),
                    {
                        assert(d * a <= d * b);
                    }
                    let w = f + (q as usize);
                    out.push(w);
                    k = k + 1;
                }
                assert(ints(out@) =~= shrink(ms, fs, avail as int));
                return out;
            }
            assert(fs =~= shrink(ms, fs, avail as int));
            return fl;
        }
        mins
    }

    /// Start column of each column.
    fn compute_col_starts(&self, widths: &Vec<usize>) -> (r: Vec<usize>)
        requires
            table_fits(self@),
        ensures
            r@.len() == widths@.len(),
            forall|i: int| 0 <= i < r@.len() ==> r@[i] == col_start(self@, ints(widths@), i),
    {
        let mut starts: Vec<usize> = Vec::new();
        let mut x: usize = 1 + self.padding.horizontal;
        let ph2 = self.padding.horizontal * 2;
        let mut i: usize = 0;
        while i < widths.len()
            invariant
                i <= widths@.len(),
                ph2 == self.padding.horizontal * 2,
                starts@.len() == i,
                x == col_start(self@, ints(widths@), i as int),
                forall|k: int| 0 <= k < i ==> starts@[k] == col_start(self@, ints(widths@), k),
            decreases widths@.len() - i,
        {
            starts.push(x);
            x = x.saturating_add(widths[i].saturating_add(ph2).saturating_add(1));
            i = i + 1;
        }
        starts
    }

    /// The rows drawn, each padded to `n` cells (see [`all_rows`]).
    fn collect_rows(&self, n: usize) -> (r: Vec<Vec<Vec<char>>>)
        ensures
            grid_views(r@) == all_rows(self@, n as int),
    {
        let mut out: Vec<Vec<Vec<char>>> = Vec::new();
        if self.headers.len() > 0 {
            let mut hdr: Vec<Vec<char>> = Vec::new();
            let mut ci: usize = 0;
            while ci < n
                invariant
                    ci <= n,
                    hdr@.len() == ci,
                    forall|k: int| 0 <= k < ci ==> hdr@[k]@ == cell_of(self@.headers, k),
                decreases n - ci,
            {
                let c = if ci < self.headers.len() {
                    assert(self@.headers[ci as int] == self.headers@[ci as int]@);
                    chars_of(self.headers[ci])
                } else {
                    Vec::new()
                };
                assert(c@ == cell_of(self@.headers, ci as int));
                hdr.push(c);
                ci = ci + 1;
            }
            assert(cells_view(hdr@) =~= Seq::new(n as nat, |k: int| cell_of(self@.headers, k)));
            out.push(hdr);
        }
        let ghost base = grid_views(out@);
        let mut ri: usize = 0;
        while ri < self.rows.len()
            invariant
                ri <= self.rows@.len(),
                out@.len() == base.len() + ri,
                forall|k: int| 0 <= k < base.len() ==> cells_view(#[trigger] out@[k]@) == base[k],
                forall|r: int| 0 <= r < ri ==> cells_view(#[trigger] out@[base.len() + r]@) == Seq::new(n as nat, |ci: int| cell_of(self@.rows[r], ci)),
            decreases self.rows@.len() - ri,
        {
            let row = &self.rows[ri];
            let mut cells: Vec<Vec<char>> = Vec::new();
            let mut ci: usize = 0;
            while ci < n
                invariant
                    ci <= n,
                    ri < self.rows@.len(),
                    row@ == self.rows@[ri as int]@,
                    cells@.len() == ci,
                    forall|k: int| 0 <= k < ci ==> cells@[k]@ == cell_of(self@.rows[ri as int], k),
                decreases n - ci,
            {
                let c = if ci < row.len() {
                    assert(self@.rows[ri as int] == row@.map_values(|c: &str| c@));
                    assert(self@.rows[ri as int][ci as int] == row@[ci as int]@);
                    chars_of(row[ci])
                } else {
                    Vec::new()
                };
                assert(c@ == cell_of(self@.rows[ri as int], ci as int));
                cells.push(c);
                ci = ci + 1;
            }
            assert(cells_view(cells@) =~= Seq::new(n as nat, |k: int| cell_of(self@.rows[ri as int], k)));
            out.push(cells);
            ri = ri + 1;
        }
        assert(grid_views(out@) =~= all_rows(self@, n as int)) by {
            assert forall|k: int| 0 <= k < out@.len() implies grid_views(out@)[k] == all_rows(self@, n as int)[k] by {
                if k < base.len() {
                    assert(cells_view(out@[k]@) == base[k]);
                } else {
                    assert(cells_view(out@[base.len() + (k - base.len())]@) == Seq::new(n as nat, |ci: int| cell_of(self@.rows[k - base.len()], ci)));
                }
            }
        }
        out
    }
}

/// Write `c` down column `x` for `n` rows from row `y`.
fn put_vrun(canvas: &mut Canvas, x: usize, y: usize, n: usize, c: char)
    requires
        old(canvas)@.wf(),
        y + n <= usize::MAX,
    ensures
        final(canvas)@.wf(),
        final(canvas)@ == vrun(old(canvas)@, x as int, y as int, n as int, c),
{
    let ghost v0 = canvas@;
    let mut i: usize = 0;
    while i < n
        invariant
            i <= n,
            y + n <= usize::MAX,
            canvas@.wf(),
            canvas@ == vrun(v0, x as int, y as int, i as int, c),
        decreases n - i,
    {
        canvas.put(x, y + i, c);
        i = i + 1;
    }
}

impl<'a> Table<'a> {
    /// Render the table: headers and cells size their columns, so a
    /// table wider than requested grows past the requested width and no
    /// cell is cut (see [`table_text`]). One without columns renders as
    /// an empty frame.
    pub fn build(&self) -> (r: Result<String>)
        requires
            table_fits(self@),
        ensures
            (r is Err) <==> table_error(self@),
            r is Err ==> r->Err_0 is InvalidDimensions,
            r matches Ok(s) ==> s@ == table_text(self@),
    {
        let n = self.header_or_max_cols();
        let glyphs = self.border.glyphs(self.charset);
        if n == 0 {
            let w = if self.width > 4 {
                self.width
            } else {
                4
            };
            let mut canvas = Canvas::new(w, 2);
            let _ = canvas.draw_rect(0, 0, w, 2, &glyphs);
            return Ok(canvas.render(self.color));
        }
        let mins = self.compute_min_widths(n);
        assert(ints(mins@).len() == mins@.len());
        let widths = self.compute_widths(mins);
        let ghost ws = ints(widths@);
        let ph2 = self.padding.horizontal * 2;
        let sum = sum_widths(&widths);
        let dw = sum.saturating_add(mul_sat(ph2, n)).saturating_add(n).saturating_add(1);
        assert(dw == display_width(self@, ws));
        let rows = self.collect_rows(n);
        let ghost rs = all_rows(self@, n as int);
        let starts = self.compute_col_starts(&widths);
        let nrows = rows.len();
        let sep = self.header_separator && self.headers.len() > 0 && nrows > 0;
        let skip = 1 + self.padding.vertical * 2;
        let th = 1usize.saturating_add(mul_sat(nrows, skip)).saturating_add(if sep {
            1
        } else {
            0
        }).saturating_add(1);
        assert(th == table_height(self@, nrows as int, sep));
        let mut canvas = Canvas::new(dw, th);
        match canvas.draw_rect(0, 0, dw, th, &glyphs) {
            Err(e) => {
                return Err(e);
            },
            Ok(_) => {},
        }
        let ghost v0 = canvas@;
        let mut ci: usize = 1;
        while ci < n
            invariant
                1 <= ci <= n,
                n == widths@.len(),
                starts@.len() == n,
                forall|i: int| 0 <= i < n ==> starts@[i] == col_start(self@, ws, i),
                ws == ints(widths@),
                th >= 2,
                table_fits(self@),
                canvas@.wf(),
                canvas@ == separators(v0, self@, ws, th as int, glyphs, ci as int),
            decreases n - ci,
        {
            let x = starts[ci].saturating_sub(1 + self.padding.horizontal);
            put_vrun(&mut canvas, x, 1, th - 2, glyphs.vertical);
            canvas.put(x, 0, glyphs.tee_down);
            canvas.put(x, th - 1, glyphs.tee_up);
            ci = ci + 1;
        }
        let ghost v1 = canvas@;
        if sep {
            let sep_y = 1 + skip;
            let mut x: usize = 0;
            while x < dw
                invariant
                    x <= dw,
                    canvas@.wf(),
                    canvas@ == sep_row(v1, sep_y as int, glyphs, x as int),
                decreases dw - x,
            {
                let existing = match canvas.cell_char(x, sep_y) {
                    Some(c) => c,
                    None => ' ',
                };
                let ch = if existing == glyphs.vertical {
                    glyphs.cross
                } else if existing == ' ' {
                    glyphs.horizontal
                } else {
                    existing
                };
                canvas.put(x, sep_y, ch);
                x = x + 1;
            }
        }
        let ghost v2 = canvas@;
        proof {
            assert forall|r: int| 0 <= r < nrows implies (#[trigger] rows@[r])@.len() == n by {
                assert(rs[r] == cells_view(rows@[r]@));
                lemma_all_rows_len(self@, n as int, r);
            }
        }
        let mut ri: usize = 0;
        while ri < nrows
            invariant
                ri <= nrows,
                nrows == rows@.len(),
                grid_views(rows@) == rs,
                n == widths@.len(),
                starts@.len() == n,
                forall|i: int| 0 <= i < n ==> starts@[i] == col_start(self@, ws, i),
                ws == ints(widths@),
                forall|r: int| 0 <= r < nrows ==> (#[trigger] rows@[r])@.len() == n,
                skip == 1 + self.padding.vertical * 2,
                table_fits(self@),
                canvas@.wf(),
                canvas@ == all_cells(v2, self@, ws, rs, sep, ri as int),
            decreases nrows - ri,
        {
            let y = (1 + self.padding.vertical).saturating_add(mul_sat(ri, skip)).saturating_add(
                if sep && ri > 0 {
                    1
                } else {
                    0
                },
            );
            assert(y == row_y(self@, ri as int, sep));
            let row = &rows[ri];
            let ghost vr = canvas@;
            let mut c: usize = 0;
            while c < n
                invariant
                    c <= n,
                    ri < nrows,
                    nrows == rows@.len(),
                    row@.len() == n,
                    row@ == rows@[ri as int]@,
                    grid_views(rows@) == rs,
                    n == widths@.len(),
                    starts@.len() == n,
                    forall|i: int| 0 <= i < n ==> starts@[i] == col_start(self@, ws, i),
                    ws == ints(widths@),
                    canvas@.wf(),
                    canvas@ == row_cells(vr, self@, ws, rs[ri as int], y as int, c as int),
                decreases n - c,
            {
                let align = if c < self.align.len() {
                    self.align[c]
                } else {
                    HAlign::Left
                };
                let cell = aligned_cell(row[c].as_slice(), widths[c], align);
                assert(rs[ri as int] == cells_view(row@));
                assert(rs[ri as int][c as int] == row@[c as int]@);
                canvas.put_chars_layered(starts[c], y, cell.as_slice(), Layer::NodeContent, None);
                c = c + 1;
            }
            ri = ri + 1;
        }
        let out = canvas.render(self.color);
        assert(canvas@ == table_view(self@));
        Ok(out)
    }

    /// Render the table (same as [`Table::build`]).
    pub fn render(&self) -> (r: Result<String>)
        requires
            table_fits(self@),
        ensures
            (r is Err) <==> table_error(self@),
            r is Err ==> r->Err_0 is InvalidDimensions,
            r matches Ok(s) ==> s@ == table_text(self@),
    {
        self.build()
    }
}


// ---------------------------------------------------------------------
// The table keeps to its width
// ---------------------------------------------------------------------

/// Plain sum of `s`.
pub open spec fn isum(s: Seq<int>) -> int
    decreases s.len(),
{
    if s.len() == 0 {
        0
    } else {
        isum(s.drop_last()) + s.last()
    }
}

proof fn lemma_isum_nonneg_mono(s: Seq<int>, k: int)
    requires
        0 <= k <= s.len(),
        forall|i: int| 0 <= i < s.len() ==> 0 <= #[trigger] s[i],
    ensures
        0 <= isum(s.take(k)) <= isum(s),
    decreases s.len() - k,
{
    if k < s.len() {
        lemma_isum_nonneg_mono(s, k + 1);
        assert(s.take(k + 1).drop_last() =~= s.take(k));
        assert(s.take(k + 1).last() == s[k]);
        assert forall|i: int| 0 <= i < s.take(k).len() implies 0 <= #[trigger] s.take(k)[i] by {
            assert(s.take(k)[i] == s[i]);
        }
        lemma_isum_nonneg(s.take(k));
    } else {
        assert(s.take(k) =~= s);
        lemma_isum_nonneg(s);
    }
}

proof fn lemma_isum_nonneg(s: Seq<int>)
    requires
        forall|i: int| 0 <= i < s.len() ==> 0 <= #[trigger] s[i],
    ensures
        0 <= isum(s),
    decreases s.len(),
{
    if s.len() > 0 {
        lemma_isum_nonneg(s.drop_last());
    }
}

/// A saturating sum that does not reach the limit is the plain sum.
proof fn lemma_sum_sat_plain(s: Seq<int>)
    requires
        forall|i: int| 0 <= i < s.len() ==> 0 <= #[trigger] s[i],
        isum(s) <= usize::MAX,
    ensures
        sum_sat(s) == isum(s),
    decreases s.len(),
{
    if s.len() > 0 {
        let d = s.drop_last();
        lemma_isum_nonneg(d);
        lemma_sum_sat_plain(d);
    }
}

proof fn lemma_spread_sum(mins: Seq<int>, s: int, k: int)
    requires
        mins.len() > 0,
        s >= 0,
        0 <= k <= mins.len(),
        forall|i: int| 0 <= i < mins.len() ==> 0 <= #[trigger] mins[i],
        isum(mins) + s < usize::MAX,
    ensures
        isum(spread(mins, s).take(k)) == isum(mins.take(k)) + k * (s / mins.len() as int) + (if k < s % (mins.len() as int) { k } else { s % (mins.len() as int) }),
    decreases k,
{
    let n = mins.len() as int;
    if k == 0 {
        assert(spread(mins, s).take(0) =~= Seq::<int>::empty());
        assert(mins.take(0) =~= Seq::<int>::empty());
    } else {
        lemma_spread_sum(mins, s, k - 1);
        assert(spread(mins, s).take(k).drop_last() =~= spread(mins, s).take(k - 1));
        assert(mins.take(k).drop_last() =~= mins.take(k - 1));
        lemma_isum_nonneg_mono(mins, k);
        assert(mins[k - 1] <= isum(mins)) by {
            lemma_isum_nonneg_mono(mins, k - 1);
        }
        assert(s / n <= s) by (nonlinear_arith)
            requires
                n >= 1,
                s >= 0,
        ;
        assert(k * (s / n) == (k - 1) * (s / n) + s / n) by (nonlinear_arith);
        let e: int = if k - 1 < s % n { 1 } else { 0 };
        assert(spread(mins, s)[k - 1] == mins[k - 1] + s / n + e);
        assert(spread(mins, s).take(k).last() == spread(mins, s)[k - 1]);
        assert(mins.take(k).last() == mins[k - 1]);
    }
}

proof fn lemma_floor_share_sum(d: Seq<int>, a: int, b: int, k: int)
    requires
        0 <= k <= d.len(),
        a >= 0,
        b > 0,
        forall|i: int| 0 <= i < d.len() ==> 0 <= #[trigger] d[i],
    ensures
        isum(Seq::new(k as nat, |i: int| d[i] * a / b)) * b <= isum(d.take(k)) * a,
    decreases k,
{
    if k > 0 {
        lemma_floor_share_sum(d, a, b, k - 1);
        let q = Seq::new(k as nat, |i: int| d[i] * a / b);
        assert(q.drop_last() =~= Seq::new((k - 1) as nat, |i: int| d[i] * a / b));
        assert(d.take(k).drop_last() =~= d.take(k - 1));
        let x = d[k - 1];
        let p = isum(Seq::new((k - 1) as nat, |i: int| d[i] * a / b));
        let e = isum(d.take(k - 1));
        assert((p + x * a / b) * b <= (e + x) * a) by (nonlinear_arith)
            requires
                p * b <= e * a,
                x >= 0,
                a >= 0,
                b > 0,
        {
            assert((x * a / b) * b <= x * a);
        }
    }
}

/// A table whose headers fit keeps to its width: when the border, the
/// separators and the padding fit in the requested width, the column
/// floors fit in the room left, and the widths stay far from the machine
/// range, the drawn table is no wider than requested.
pub proof fn law_table_within_width(t: TableSpec)
    requires
        table_fits(t),
        col_count(t) > 0,
        isum(min_widths(t, col_count(t))) <= usize::MAX / 4,
        t.width <= usize::MAX / 2,
        t.padding.horizontal * 2 * col_count(t) + col_count(t) + 1 <= t.width,
        isum(floors(t, min_widths(t, col_count(t)))) <= col_room(t, col_count(t)),
    ensures
        display_width(t, final_widths(t, min_widths(t, col_count(t)))) <= t.width,
{
    let n = col_count(t);
    let mins = min_widths(t, n);
    let fl = floors(t, mins);
    let p = t.padding.horizontal * 2 * n;
    assert forall|i: int| 0 <= i < mins.len() implies 0 <= #[trigger] mins[i] by {}
    assert forall|i: int| 0 <= i < fl.len() implies 0 <= #[trigger] fl[i] <= mins[i] by {}
    lemma_isum_nonneg(mins);
    lemma_sum_sat_plain(mins);
    assert(t.padding.horizontal * 2 * n >= 0) by (nonlinear_arith)
        requires
            n >= 1,
    ;
    assert(sat_mul(t.padding.horizontal * 2, n) == p) by (nonlinear_arith)
        requires
            p == t.padding.horizontal * 2 * n,
            p <= t.width,
            t.width <= usize::MAX,
    ;
    let mt = min_total(t, mins);
    assert(mt == isum(mins) + p + n - 1);
    let widths = final_widths(t, mins);
    let room = col_room(t, n);
    assert(room == t.width - p - n - 1);
    let surplus = sub0(t.width as int, sat_add(mt, 2));
    if surplus >= n {
        lemma_spread_sum(mins, surplus, n);
        assert(spread(mins, surplus).take(n) =~= spread(mins, surplus));
        assert(mins.take(n) =~= mins);
        vstd::arithmetic::div_mod::lemma_fundamental_div_mod(surplus, n);
        assert(n * (surplus / n) == (surplus / n) * n) by (nonlinear_arith);
        assert(surplus % n < n) by {
            vstd::arithmetic::div_mod::lemma_mod_bound(surplus, n);
        }
        assert(isum(widths) == isum(mins) + surplus);
        assert forall|i: int| 0 <= i < widths.len() implies 0 <= #[trigger] widths[i] by {}
        lemma_sum_sat_plain(widths);
    } else if sat_add(mt, 2) > t.width {
        lemma_isum_nonneg(fl);
        lemma_sum_sat_plain(fl);
        let f = sum_sat(fl);
        let tot = sum_sat(mins);
        if room > f && tot > f {
            let d = Seq::new(mins.len(), |i: int| mins[i] - fl[i]);
            let a = room - f;
            let b = tot - f;
            assert forall|i: int| 0 <= i < d.len() implies 0 <= #[trigger] d[i] by {}
            assert(isum(d) == b) by {
                lemma_isum_diff(mins, fl, mins.len() as int);
                assert(mins.take(mins.len() as int) =~= mins);
                assert(fl.take(fl.len() as int) =~= fl);
                assert(d.take(d.len() as int) =~= d);
            }
            lemma_floor_share_sum(d, a, b, d.len() as int);
            assert(d.take(d.len() as int) =~= d);
            let q = Seq::new(d.len(), |i: int| d[i] * a / b);
            assert(isum(q) * b <= b * a);
            let sq = isum(q);
            assert(sq <= a) by (nonlinear_arith)
                requires
                    sq * b <= b * a,
                    b > 0,
            ;
            assert(widths =~= Seq::new(mins.len(), |i: int| fl[i] + q[i]));
            lemma_isum_add(fl, q, mins.len() as int);
            assert(fl.take(fl.len() as int) =~= fl);
            assert(q.take(q.len() as int) =~= q);
            assert(widths.take(widths.len() as int) =~= widths);
            assert forall|i: int| 0 <= i < widths.len() implies 0 <= #[trigger] widths[i] by {
                assert(d[i] * a / b >= 0) by (nonlinear_arith)
                    requires
                        d[i] >= 0,
                        a >= 0,
                        b > 0,
                ;
            }
            lemma_isum_nonneg(q);
            lemma_sum_sat_plain(widths);
        } else {
            lemma_sum_sat_plain(widths);
        }
    } else {
    }
}

proof fn lemma_isum_diff(m: Seq<int>, f: Seq<int>, k: int)
    requires
        m.len() == f.len(),
        0 <= k <= m.len(),
    ensures
        isum(Seq::new(m.len(), |i: int| m[i] - f[i]).take(k)) == isum(m.take(k)) - isum(f.take(k)),
    decreases k,
{
    let d = Seq::new(m.len(), |i: int| m[i] - f[i]);
    if k == 0 {
        assert(d.take(0) =~= Seq::<int>::empty());
        assert(m.take(0) =~= Seq::<int>::empty());
        assert(f.take(0) =~= Seq::<int>::empty());
    } else {
        lemma_isum_diff(m, f, k - 1);
        assert(d.take(k).drop_last() =~= d.take(k - 1));
        assert(m.take(k).drop_last() =~= m.take(k - 1));
        assert(f.take(k).drop_last() =~= f.take(k - 1));
    }
}

proof fn lemma_isum_add(f: Seq<int>, q: Seq<int>, k: int)
    requires
        f.len() == q.len(),
        0 <= k <= f.len(),
    ensures
        isum(Seq::new(f.len(), |i: int| f[i] + q[i]).take(k)) == isum(f.take(k)) + isum(q.take(k)),
    decreases k,
{
    let w = Seq::new(f.len(), |i: int| f[i] + q[i]);
    if k == 0 {
        assert(w.take(0) =~= Seq::<int>::empty());
        assert(f.take(0) =~= Seq::<int>::empty());
        assert(q.take(0) =~= Seq::<int>::empty());
    } else {
        lemma_isum_add(f, q, k - 1);
        assert(w.take(k).drop_last() =~= w.take(k - 1));
        assert(f.take(k).drop_last() =~= f.take(k - 1));
        assert(q.take(k).drop_last() =~= q.take(k - 1));
    }
}

} // verus!
