//! Bordered boxes with an optional title in the top border and wrapped
//! body text.

use vstd::prelude::*;
use crate::canvas::{blank_view, Canvas, CanvasView, Layer};
use crate::error::{FigoError, Result};
use crate::style::{spec_glyphs, Alignment, BorderStyle, Charset, HAlign, Padding, VAlign};
use crate::text::{
    aligned_line, align_chars, all_within, concat, decimal, decimal_chars, lines_of, plain_text,
    greedy_wrap, padded_as, strip_spaces, views, word_wrap, wrap_label,
};
use crate::diagrams::arrow::sat_add;
use crate::width::{chars_of, chars_width, seq_display_width, string_from_chars};

verus! {

/// Title inset in the border row: after the corner and one line cell.
pub const TITLE_START: usize = 2;

/// Padding on each side of the title text inside its border-row slot.
pub const TITLE_PAD: usize = 1;

/// Narrowest box that fits a title: inset, both pads, the two-column
/// wrap minimum, and the right border column.
pub const MIN_TITLED_WIDTH: usize = 7;

/// Builder for bordered boxes.
#[derive(Debug)]
pub struct BoxArt<'a> {
    pub width: usize,
    pub charset: Charset,
    pub title: Option<&'a str>,
    pub content: Option<&'a str>,
    pub border: BorderStyle,
    pub padding: Padding,
    pub align: Alignment,
    pub color: bool,
}

/// The text of an optional string (empty when absent).
pub open spec fn text_of(s: Option<&str>) -> Seq<char> {
    match s {
        Some(t) => t@,
        None => Seq::empty(),
    }
}

/// Content width inside the border and horizontal padding.
pub open spec fn inner_width(b: BoxArt) -> int {
    let used = 2 + b.padding.horizontal * 2;
    if b.width > used {
        b.width - used
    } else {
        0
    }
}

/// Wrap width of the title.
pub open spec fn title_avail(b: BoxArt) -> int {
    if b.width > 5 {
        b.width - 5
    } else {
        0
    }
}

/// Why a box cannot be drawn, if it cannot.
pub open spec fn box_error(b: BoxArt) -> Option<Seq<char>> {
    if b.width < 4 {
        Some(seq!['w', 'i', 'd', 't', 'h', ' ', 'm', 'u', 's', 't', ' ', 'b', 'e', ' ', 'a', 't', ' ', 'l', 'e', 'a', 's', 't', ' ', '4', ',', ' ', 'g', 'o', 't', ' '] + decimal(b.width as nat))
    } else if inner_width(b) == 0 {
        Some(seq!['w', 'i', 'd', 't', 'h', ' ', 't', 'o', 'o', ' ', 's', 'm', 'a', 'l', 'l', ' ', 'f', 'o', 'r', ' ', 'p', 'a', 'd', 'd', 'i', 'n', 'g'])
    } else if text_of(b.title).len() > 0 && b.width < MIN_TITLED_WIDTH {
        Some(seq!['w', 'i', 'd', 't', 'h', ' ', 'm', 'u', 's', 't', ' ', 'b', 'e', ' ', 'a', 't', ' ', 'l', 'e', 'a', 's', 't', ' ', '7', ' ', 'f', 'o', 'r', ' ', 'a', ' ', 't', 'i', 't', 'l', 'e', ',', ' ', 'g', 'o', 't', ' '] + decimal(b.width as nat))
    } else {
        None
    }
}

/// The title wrapped as [`wrap_label`] wraps it: greedily, at `w`
/// columns but never fewer than 2.
pub open spec fn title_wrap(title: Seq<char>, w: int) -> Seq<Seq<char>> {
    greedy_wrap(title, if w < 2 { 2 } else { w })
}

/// Title rows: the first in the top border, the rest just below it,
/// each as ` text ` from column 2.
pub open spec fn title_rows(v: CanvasView, lines: Seq<Seq<char>>, k: int) -> CanvasView
    decreases k,
{
    if k <= 0 {
        v
    } else {
        title_rows(v, lines, k - 1).put_str(
            TITLE_START as int,
            k - 1,
            seq![' '] + lines[k - 1] + seq![' '],
            Layer::NodeContent,
            None,
        )
    }
}

/// Content rows `0..k`, each aligned in `iw` columns at `(x, y0 + i)`.
pub open spec fn content_rows(
    v: CanvasView,
    lines: Seq<Seq<char>>,
    x: int,
    y0: int,
    iw: int,
    align: HAlign,
    k: int,
) -> CanvasView
    decreases k,
{
    if k <= 0 {
        v
    } else {
        let l = lines[k - 1];
        content_rows(v, lines, x, y0, iw, align, k - 1).put_str(
            x,
            sat_add(y0, k - 1),
            aligned_line(l, chars_width(l) as int, iw, align),
            Layer::NodeContent,
            None,
        )
    }
}

/// Content rows: the `k`-th row is written from column `x` on row
/// `y0 + k - 1` as its line set in `iw` columns with the padding split as
/// the requested alignment asks (see [`padded_as`]), after the rows
/// before it.
pub proof fn law_content_row_alignment(
    v: CanvasView,
    lines: Seq<Seq<char>>,
    x: int,
    y0: int,
    iw: int,
    align: HAlign,
    k: int,
)
    requires
        0 < k <= lines.len(),
    ensures
        exists|s: Seq<char>|
            #[trigger] padded_as(s, lines[k - 1], chars_width(lines[k - 1]) as int, iw, align) && content_rows(
                v,
                lines,
                x,
                y0,
                iw,
                align,
                k,
            ) == content_rows(v, lines, x, y0, iw, align, k - 1).put_str(
                x,
                sat_add(y0, k - 1),
                s,
                Layer::NodeContent,
                None,
            ),
{
    let l = lines[k - 1];
    let s = aligned_line(l, chars_width(l) as int, iw, align);
    crate::text::law_aligned_line_padding(l, chars_width(l) as int, iw, align);
    assert(content_rows(v, lines, x, y0, iw, align, k) == content_rows(v, lines, x, y0, iw, align, k - 1).put_str(
        x,
        sat_add(y0, k - 1),
        s,
        Layer::NodeContent,
        None,
    ));
}

/// `a - b`, floored at zero.
pub open spec fn sub0(a: int, b: int) -> int {
    if a > b {
        a - b
    } else {
        0
    }
}

/// Rows inside the border: padding, content, and the title lines
/// beyond the first.
pub open spec fn box_inner_height(b: BoxArt, content: Seq<Seq<char>>, title: Seq<Seq<char>>) -> int {
    sat_add(sat_add(b.padding.vertical * 2, content.len() as int), sub0(title.len() as int, 1))
}

/// Total rows of the box (at least 3).
pub open spec fn box_height(b: BoxArt, content: Seq<Seq<char>>, title: Seq<Seq<char>>) -> int {
    let t = sat_add(box_inner_height(b, content, title), 2);
    if t > 3 {
        t
    } else {
        3
    }
}

/// Row of the first content line: below the title rows and the top
/// padding (top), centered in the rows below the title rows (middle), or
/// ending just above the bottom padding (bottom).
pub open spec fn box_start_y(b: BoxArt, content: Seq<Seq<char>>, title: Seq<Seq<char>>) -> int {
    let ch = content.len() as int;
    let extra = sub0(title.len() as int, 1);
    let pv = b.padding.vertical as int;
    let inner_h = box_inner_height(b, content, title);
    match b.align.vertical {
        VAlign::Top => sat_add(sat_add(1, pv), extra),
        VAlign::Middle => sat_add(1 + extra, sub0(inner_h, sat_add(ch, extra)) / 2),
        VAlign::Bottom => sat_add(1, sub0(inner_h, sat_add(pv, ch))),
    }
}

/// The box's frame: a blank canvas with the border drawn.
pub open spec fn box_frame(b: BoxArt, content: Seq<Seq<char>>, title: Seq<Seq<char>>) -> CanvasView {
    let h = box_height(b, content, title);
    blank_view(b.width as nat, h as nat).rect(0, 0, b.width as int, h, spec_glyphs(b.border, b.charset))
}

/// The box's canvas once its content wrapped to `content` and its title
/// to `title`.
pub open spec fn box_view(b: BoxArt, content: Seq<Seq<char>>, title: Seq<Seq<char>>) -> CanvasView {
    content_rows(
        title_rows(box_frame(b, content, title), title, title.len() as int),
        content,
        1 + b.padding.horizontal,
        box_start_y(b, content, title),
        inner_width(b),
        b.align.horizontal,
        content.len() as int,
    )
}

/// The box fits the machine: its measures stay far from `usize::MAX`.
pub open spec fn box_fits(b: BoxArt) -> bool {
    &&& b.width + 16 <= usize::MAX
    &&& b.padding.horizontal <= usize::MAX / 4
    &&& b.padding.vertical <= usize::MAX / 4
}

/// Draw a bordered box with an optional title and content.
pub fn draw_box(
    title: Option<&str>,
    content: Option<&str>,
    width: usize,
    charset: Charset,
    border: BorderStyle,
) -> (r: Result<String>)
    requires
        width + 16 <= usize::MAX,
    ensures
        ({
            let b = BoxArt {
                width,
                charset,
                title,
                content,
                border,
                padding: Padding { horizontal: 0, vertical: 0 },
                align: Alignment { horizontal: HAlign::Left, vertical: VAlign::Top },
                color: false,
            };
            &&& (r is Err) <==> box_error(b) is Some
            &&& r matches Err(e) ==> e matches FigoError::InvalidDimensions(m) && m@ == box_error(b)->0
            &&& r is Ok ==> box_drawn(b, r->Ok_0@)
        }),
{
    BoxArt::new(width, charset).title(title).content(content).border(border).build()
}

/// `out` is the box drawn with its content wrapped greedily to the inner
/// width (as [`word_wrap`] wraps it) and its title wrapped as
/// [`title_wrap`] says.
pub open spec fn box_drawn(b: BoxArt, out: Seq<char>) -> bool {
    out == box_view(
        b,
        greedy_wrap(text_of(b.content), inner_width(b)),
        title_wrap(text_of(b.title), title_avail(b)),
    ).rendered(b.color)
}

/// Write the title lines: the first into the top border, the rest
/// below it.
fn put_title_rows(canvas: &mut Canvas, lines: &Vec<String>)
    requires
        old(canvas)@.wf(),
    ensures
        final(canvas)@.wf(),
        final(canvas)@ == title_rows(old(canvas)@, views(lines@), lines@.len() as int),
{
    let ghost v0 = canvas@;
    let mut i: usize = 0;
    while i < lines.len()
        invariant
            i <= lines@.len(),
            canvas@.wf(),
            canvas@ == title_rows(v0, views(lines@), i as int),
        decreases lines@.len() - i,
    {
        let l = chars_of(lines[i].as_str());
        let mut padded: Vec<char> = Vec::new();
        padded.push(' ');
        padded.extend_from_slice(l.as_slice());
        padded.push(' ');
        assert(padded@ =~= seq![' '] + views(lines@)[i as int] + seq![' ']);
        canvas.put_chars_layered(TITLE_START, i, padded.as_slice(), Layer::NodeContent, None);
        i = i + 1;
    }
}

/// Write the content lines aligned in `iw` columns from `(x, y0)`.
fn put_content_rows(
    canvas: &mut Canvas,
    lines: &Vec<String>,
    x: usize,
    y0: usize,
    iw: usize,
    align: HAlign,
)
    requires
        old(canvas)@.wf(),
    ensures
        final(canvas)@.wf(),
        final(canvas)@ == content_rows(
            old(canvas)@,
            views(lines@),
            x as int,
            y0 as int,
            iw as int,
            align,
            lines@.len() as int,
        ),
{
    let ghost v0 = canvas@;
    let mut i: usize = 0;
    while i < lines.len()
        invariant
            i <= lines@.len(),
            canvas@.wf(),
            canvas@ == content_rows(v0, views(lines@), x as int, y0 as int, iw as int, align, i as int),
        decreases lines@.len() - i,
    {
        let l = chars_of(lines[i].as_str());
        let lw = seq_display_width(l.as_slice());
        let a = align_chars(l.as_slice(), lw, iw, align);
        assert(views(lines@)[i as int] == l@);
        canvas.put_chars_layered(x, y0.saturating_add(i), a.as_slice(), Layer::NodeContent, None);
        i = i + 1;
    }
}

impl<'a> BoxArt<'a> {
    /// A box builder with the given width and charset: single border, no
    /// padding, top-left alignment, no color.
    pub fn new(width: usize, charset: Charset) -> (r: BoxArt<'a>)
        ensures
            r == (BoxArt {
                width,
                charset,
                title: None,
                content: None,
                border: BorderStyle::Single,
                padding: Padding { horizontal: 0, vertical: 0 },
                align: Alignment { horizontal: HAlign::Left, vertical: VAlign::Top },
                color: false,
            }),
    {
        BoxArt {
            width,
            charset,
            title: None,
            content: None,
            border: BorderStyle::Single,
            padding: Padding::none(),
            align: Alignment::top_left(),
            color: false,
        }
    }

    /// Set the title (placed in the top border).
    pub fn title(self, title: Option<&'a str>) -> (r: BoxArt<'a>)
        ensures
            r == (BoxArt { title, ..self }),
    {
        BoxArt { title, ..self }
    }

    /// Set the content text (wrapped to fit).
    pub fn content(self, content: Option<&'a str>) -> (r: BoxArt<'a>)
        ensures
            r == (BoxArt { content, ..self }),
    {
        BoxArt { content, ..self }
    }

    /// Set the border style.
    pub fn border(self, style: BorderStyle) -> (r: BoxArt<'a>)
        ensures
            r == (BoxArt { border: style, ..self }),
    {
        BoxArt { border: style, ..self }
    }

    /// Set the padding inside the box.
    pub fn padding(self, horizontal: usize, vertical: usize) -> (r: BoxArt<'a>)
        ensures
            r == (BoxArt { padding: Padding { horizontal, vertical }, ..self }),
    {
        BoxArt { padding: Padding { horizontal, vertical }, ..self }
    }

    /// Set the text alignment inside the box.
    pub fn align(self, horizontal: HAlign, vertical: VAlign) -> (r: BoxArt<'a>)
        ensures
            r == (BoxArt { align: Alignment { horizontal, vertical }, ..self }),
    {
        BoxArt { align: Alignment { horizontal, vertical }, ..self }
    }

    /// Enable or disable ANSI color output.
    pub fn color(self, enabled: bool) -> (r: BoxArt<'a>)
        ensures
            r == (BoxArt { color: enabled, ..self }),
    {
        BoxArt { color: enabled, ..self }
    }

    /// Render the box: `InvalidDimensions` when it is narrower than 4
    /// columns, has no room left inside its padding, or is too narrow
    /// for its title.
    pub fn build(&self) -> (r: Result<String>)
        requires
            box_fits(*self),
        ensures
            (r is Err) <==> box_error(*self) is Some,
            r matches Err(e) ==> e matches FigoError::InvalidDimensions(m) && m@ == box_error(*self)->0,
            r is Ok ==> box_drawn(*self, r->Ok_0@),
    {
        match self.check() {
            Some(m) => Err(FigoError::InvalidDimensions(m)),
            None => Ok(self.draw()),
        }
    }

    /// The reason the box cannot be drawn, if any (see [`box_error`]).
    fn check(&self) -> (r: Option<String>)
        requires
            box_fits(*self),
        ensures
            (r is Some) <==> box_error(*self) is Some,
            r matches Some(m) ==> m@ == box_error(*self)->0,
    {
        if self.width < 4 {
            let mut m: Vec<char> = Vec::new();
            m.extend_from_slice(
                &['w', 'i', 'd', 't', 'h', ' ', 'm', 'u', 's', 't', ' ', 'b', 'e', ' ', 'a', 't', ' ', 'l', 'e', 'a', 's', 't', ' ', '4', ',', ' ', 'g', 'o', 't', ' '],
            );
            let d = decimal_chars(self.width);
            m.extend_from_slice(d.as_slice());
            assert(m@ =~= box_error(*self)->0);
            return Some(string_from_chars(m.as_slice()));
        }
        let inner_width = self.width.saturating_sub(2 + self.padding.horizontal * 2);
        if inner_width == 0 {
            let m: Vec<char> = vec!['w', 'i', 'd', 't', 'h', ' ', 't', 'o', 'o', ' ', 's', 'm', 'a', 'l', 'l', ' ', 'f', 'o', 'r', ' ', 'p', 'a', 'd', 'd', 'i', 'n', 'g'];
            assert(m@ =~= box_error(*self)->0);
            return Some(string_from_chars(m.as_slice()));
        }
        let titled = match self.title {
            Some(t) => chars_of(t).len() > 0,
            None => false,
        };
        if titled && self.width < MIN_TITLED_WIDTH {
            let mut m: Vec<char> = Vec::new();
            m.extend_from_slice(
                &['w', 'i', 'd', 't', 'h', ' ', 'm', 'u', 's', 't', ' ', 'b', 'e', ' ', 'a', 't', ' ', 'l', 'e', 'a', 's', 't', ' ', '7', ' ', 'f', 'o', 'r', ' ', 'a', ' ', 't', 'i', 't', 'l', 'e', ',', ' ', 'g', 'o', 't', ' '],
            );
            let d = decimal_chars(self.width);
            m.extend_from_slice(d.as_slice());
            assert(m@ =~= box_error(*self)->0);
            return Some(string_from_chars(m.as_slice()));
        }
        None
    }

    /// Draw a box that passed [`BoxArt::check`].
    #[verifier::rlimit(100)]
    fn draw(&self) -> (r: String)
        requires
            box_fits(*self),
            box_error(*self) is None,
        ensures
            box_drawn(*self, r@),
    {
        let glyphs = self.border.glyphs(self.charset);
        let iw = self.width.saturating_sub(2 + self.padding.horizontal * 2);
        assert(iw == inner_width(*self));
        let title_text: Vec<char> = match self.title {
            Some(t) => chars_of(t),
            None => Vec::new(),
        };
        let titled = title_text.len() > 0;
        let content_lines: Vec<String> = match self.content {
            Some(text) => {
                let cs = chars_of(text);
                if cs.len() > 0 {
                    word_wrap(text, iw)
                } else {
                    Vec::new()
                }
            },
            None => Vec::new(),
        };
        let content_height = content_lines.len();
        let ta = self.width.saturating_sub(TITLE_START + 2 * TITLE_PAD + 1);
        assert(ta == title_avail(*self));
        let title_lines: Vec<String> = if titled {
            let t = string_from_chars(title_text.as_slice());
            wrap_label(t.as_str(), ta).lines
        } else {
            Vec::new()
        };
        let title_extra = title_lines.len().saturating_sub(1);
        let pv = self.padding.vertical;
        let ghost c = views(content_lines@);
        let ghost t = views(title_lines@);
        let inner_height = (pv * 2).saturating_add(content_height).saturating_add(title_extra);
        assert(inner_height == box_inner_height(*self, c, t));
        let th = inner_height.saturating_add(2);
        let total_height = if th > 3 {
            th
        } else {
            3
        };
        assert(total_height == box_height(*self, c, t));
        let mut canvas = Canvas::new(self.width, total_height);
        let _ = canvas.draw_rect(0, 0, self.width, total_height, &glyphs);
        assert(canvas@ == box_frame(*self, c, t));
        if title_lines.len() > 0 {
            put_title_rows(&mut canvas, &title_lines);
        }
        assert(canvas@ == title_rows(box_frame(*self, c, t), t, t.len() as int));
        let content_start_y = match self.align.vertical {
            VAlign::Top => 1usize.saturating_add(pv).saturating_add(title_extra),
            VAlign::Middle => (1 + title_extra).saturating_add(
                inner_height.saturating_sub(content_height.saturating_add(title_extra)) / 2,
            ),
            VAlign::Bottom => 1usize.saturating_add(inner_height.saturating_sub(pv.saturating_add(content_height))),
        };
        assert(content_start_y == box_start_y(*self, c, t));
        put_content_rows(
            &mut canvas,
            &content_lines,
            1 + self.padding.horizontal,
            content_start_y,
            iw,
            self.align.horizontal,
        );
        assert(canvas@ == box_view(*self, c, t));
        let out = canvas.render(self.color);
        assert(c == greedy_wrap(text_of(self.content), inner_width(*self)));
        assert(t == title_wrap(text_of(self.title), title_avail(*self)));
        assert(out@ == box_view(*self, views(content_lines@), views(title_lines@)).rendered(
            self.color,
        ));
        out
    }

    /// Render the box (same as [`BoxArt::build`]).
    pub fn render(&self) -> (r: Result<String>)
        requires
            box_fits(*self),
        ensures
            (r is Err) <==> box_error(*self) is Some,
            r matches Err(e) ==> e matches FigoError::InvalidDimensions(m) && m@ == box_error(*self)->0,
            r is Ok ==> box_drawn(*self, r->Ok_0@),
    {
        self.build()
    }
}

} // verus!
