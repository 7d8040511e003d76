//! The 2-D character grid every diagram draws on.
//!
//! A canvas is `height` rows of `width` cells, zero-indexed from the
//! top-left. Each cell carries a z-order [`Layer`]: a write lands only
//! when its layer ranks at least as high as the layer already in the
//! cell, so node borders survive connector lines drawn after them while
//! arrowheads and labels still show on top.

use vstd::prelude::*;

use crate::error::{FigoError, Result};
use crate::layout::routing::Segment;
use crate::style::{color_code, reset_code, spec_glyphs, BorderGlyphs, BorderStyle, Charset, Color, LineStyle};
use crate::width::{char_width_or, printable_ascii, width_or};


verus! {

/// Z-order of a cell, lowest first.
#[derive(Clone, Copy, Debug, PartialEq, Eq, Structural)]
pub enum Layer {
    Background,
    Connector,
    Grid,
    NodeBorder,
    ConnectorEnd,
    NodeContent,
    Label,
}

/// Rank of a layer in the z-order.
pub open spec fn layer_rank(l: Layer) -> nat {
    match l {
        Layer::Background => 0,
        Layer::Connector => 1,
        Layer::Grid => 2,
        Layer::NodeBorder => 3,
        Layer::ConnectorEnd => 4,
        Layer::NodeContent => 5,
        Layer::Label => 6,
    }
}

impl Layer {
    /// Rank of this layer in the z-order.
    pub fn rank(&self) -> (r: u8)
        ensures
            r == layer_rank(*self),
    {
        match self {
            Layer::Background => 0,
            Layer::Connector => 1,
            Layer::Grid => 2,
            Layer::NodeBorder => 3,
            Layer::ConnectorEnd => 4,
            Layer::NodeContent => 5,
            Layer::Label => 6,
        }
    }
}

/// One canvas cell: a character, its layer, and an optional color.
#[derive(Clone, Copy, Debug, PartialEq, Eq)]
pub struct Cell {
    pub ch: char,
    pub layer: Layer,
    pub fg: Option<Color>,
}

/// The empty background cell.
pub open spec fn blank_cell() -> Cell {
    Cell { ch: ' ', layer: Layer::Background, fg: None }
}

impl Cell {
    /// The empty background cell.
    pub fn blank() -> (c: Cell)
        ensures
            c == blank_cell(),
    {
        Cell { ch: ' ', layer: Layer::Background, fg: None }
    }

    /// A cell holding `ch` at `layer` with color `fg`.
    pub fn at_colored(ch: char, layer: Layer, fg: Option<Color>) -> (c: Cell)
        ensures
            c == (Cell { ch, layer, fg }),
    {
        Cell { ch, layer, fg }
    }
}

/// The cell after a write of `ch` at `layer`: the write lands unless the
/// cell already holds a strictly higher layer.
pub open spec fn painted(old: Cell, ch: char, layer: Layer, fg: Option<Color>) -> Cell {
    if layer_rank(layer) >= layer_rank(old.layer) {
        Cell { ch, layer, fg }
    } else {
        old
    }
}

/// Mathematical model of a canvas: the grid of rows, the log of connector
/// line segments drawn so far, and the cells the junction repair rewrote.
pub struct CanvasView {
    pub width: nat,
    pub height: nat,
    pub grid: Seq<Seq<Cell>>,
    pub log: Seq<Segment>,
    pub touched: Seq<(usize, usize)>,
}

impl CanvasView {
    /// At least one cell, and every row `width` cells long.
    pub open spec fn wf(self) -> bool {
        &&& self.width >= 1
        &&& self.height >= 1
        &&& self.width <= usize::MAX
        &&& self.height <= usize::MAX
        &&& self.grid.len() == self.height
        &&& forall|y: int| 0 <= y < self.height ==> (#[trigger] self.grid[y]).len() == self.width
    }

    pub open spec fn in_bounds(self, x: int, y: int) -> bool {
        0 <= x < self.width && 0 <= y < self.height
    }

    pub open spec fn cell(self, x: int, y: int) -> Cell {
        self.grid[y][x]
    }

    /// The same canvas with another grid.
    pub open spec fn with_grid(self, g: Seq<Seq<Cell>>) -> CanvasView {
        CanvasView { width: self.width, height: self.height, grid: g, log: self.log, touched: self.touched }
    }

    /// One layered write at `(x, y)`; writes outside the grid are dropped.
    pub open spec fn put(self, x: int, y: int, ch: char, layer: Layer, fg: Option<Color>) -> CanvasView {
        if self.in_bounds(x, y) {
            self.with_grid(
                self.grid.update(y, self.grid[y].update(x, painted(self.grid[y][x], ch, layer, fg))),
            )
        } else {
            self
        }
    }

    /// Row `y` after writing `ch` over columns `x .. x + len`.
    pub open spec fn row_painted(self, x: int, y: int, len: int, ch: char, layer: Layer) -> Seq<Cell> {
        Seq::new(
            self.width,
            |cx: int|
                if x <= cx < x + len {
                    painted(self.grid[y][cx], ch, layer, None)
                } else {
                    self.grid[y][cx]
                },
        )
    }

    /// A horizontal run of `len` writes starting at `(x, y)`. Runs at the
    /// connector layer are recorded in the line log.
    pub open spec fn hline(self, x: int, y: int, len: int, ch: char, layer: Layer) -> CanvasView {
        let g = if 0 <= y < self.height {
            self.grid.update(y, self.row_painted(x, y, len, ch, layer))
        } else {
            self.grid
        };
        CanvasView {
            width: self.width,
            height: self.height,
            grid: g,
            log: if layer == Layer::Connector {
                self.log.push(Segment::H { x: x as usize, y: y as usize, len: len as usize })
            } else {
                self.log
            },
            touched: self.touched,
        }
    }

    /// A vertical run of `len` writes starting at `(x, y)`. Runs at the
    /// connector layer are recorded in the line log.
    pub open spec fn vline(self, x: int, y: int, len: int, ch: char, layer: Layer) -> CanvasView {
        let g = Seq::new(
            self.height,
            |ry: int|
                if y <= ry < y + len && 0 <= x < self.width {
                    self.grid[ry].update(x, painted(self.grid[ry][x], ch, layer, None))
                } else {
                    self.grid[ry]
                },
        );
        CanvasView {
            width: self.width,
            height: self.height,
            grid: g,
            log: if layer == Layer::Connector {
                self.log.push(Segment::V { x: x as usize, y: y as usize, len: len as usize })
            } else {
                self.log
            },
            touched: self.touched,
        }
    }

    /// A string written left to right from `(col, y)`: each character
    /// advances by its display width (control characters by 1), and a
    /// double-width character also blanks the cell to its right.
    pub open spec fn put_str(self, col: int, y: int, s: Seq<char>, layer: Layer, fg: Option<Color>) -> CanvasView
        decreases s.len(),
    {
        if s.len() == 0 {
            self
        } else {
            let w = char_width_or(s[0], 1) as int;
            let v1 = self.put(col, y, s[0], layer, fg);
            let v2 = if w == 2 {
                v1.put(col + 1, y, ' ', layer, fg)
            } else {
                v1
            };
            v2.put_str(col + w, y, s.drop_first(), layer, fg)
        }
    }

    /// A rectangle outline drawn at the node-border layer: four corners,
    /// then the top and bottom edges, then the left and right edges.
    pub open spec fn rect(self, x: int, y: int, w: int, h: int, g: BorderGlyphs) -> CanvasView {
        self.put(x, y, g.top_left, Layer::NodeBorder, None)
            .put(x + w - 1, y, g.top_right, Layer::NodeBorder, None)
            .put(x, y + h - 1, g.bottom_left, Layer::NodeBorder, None)
            .put(x + w - 1, y + h - 1, g.bottom_right, Layer::NodeBorder, None)
            .hline(x + 1, y, w - 2, g.horizontal, Layer::NodeBorder)
            .hline(x + 1, y + h - 1, w - 2, g.horizontal, Layer::NodeBorder)
            .vline(x, y + 1, h - 2, g.vertical, Layer::NodeBorder)
            .vline(x + w - 1, y + 1, h - 2, g.vertical, Layer::NodeBorder)
    }
}


/// Which of the four neighbours of a cell carry connector lines.
#[derive(Clone, Copy, Debug, PartialEq, Eq, Structural)]
pub struct Directions {
    pub n: bool,
    pub s: bool,
    pub e: bool,
    pub w: bool,
}

/// Number of directions set.
pub open spec fn dir_count(d: Directions) -> nat {
    (if d.n { 1nat } else { 0nat }) + (if d.s { 1nat } else { 0nat }) + (if d.e { 1nat } else { 0nat })
        + (if d.w { 1nat } else { 0nat })
}

impl Directions {
    /// Number of directions set.
    pub fn count(self) -> (r: usize)
        ensures
            r == dir_count(self),
    {
        let mut c: usize = 0;
        if self.n {
            c = c + 1;
        }
        if self.s {
            c = c + 1;
        }
        if self.e {
            c = c + 1;
        }
        if self.w {
            c = c + 1;
        }
        c
    }
}

/// The box-drawing glyph for a connector cell whose lines leave in the
/// given directions: corners for two perpendicular arms, tees for three,
/// a cross for four; `None` for fewer than two arms or a straight run.
pub open spec fn spec_junction_char(d: Directions, style: LineStyle) -> Option<char> {
    if dir_count(d) < 2 {
        None
    } else {
        match style {
            LineStyle::Bold => {
                if d.n && !d.s && d.e && !d.w { Some('┗') }
                else if d.n && !d.s && !d.e && d.w { Some('┛') }
                else if !d.n && d.s && d.e && !d.w { Some('┏') }
                else if !d.n && d.s && !d.e && d.w { Some('┓') }
                else if d.n && d.s && d.e && !d.w { Some('┣') }
                else if d.n && d.s && !d.e && d.w { Some('┫') }
                else if d.n && !d.s && d.e && d.w { Some('┻') }
                else if !d.n && d.s && d.e && d.w { Some('┳') }
                else if d.n && d.s && d.e && d.w { Some('╋') }
                else { None }
            },
            _ => {
                if d.n && !d.s && d.e && !d.w { Some('└') }
                else if d.n && !d.s && !d.e && d.w { Some('┘') }
                else if !d.n && d.s && d.e && !d.w { Some('┌') }
                else if !d.n && d.s && !d.e && d.w { Some('┐') }
                else if d.n && d.s && d.e && !d.w { Some('├') }
                else if d.n && d.s && !d.e && d.w { Some('┤') }
                else if d.n && !d.s && d.e && d.w { Some('┴') }
                else if !d.n && d.s && d.e && d.w { Some('┬') }
                else if d.n && d.s && d.e && d.w { Some('┼') }
                else { None }
            },
        }
    }
}

/// The junction glyph for the given arms (see [`spec_junction_char`]).
pub fn junction_char(dirs: Directions, style: LineStyle) -> (r: Option<char>)
    ensures
        r == spec_junction_char(dirs, style),
{
    if dirs.count() < 2 {
        return None;
    }
    let (n, s, e, w) = (dirs.n, dirs.s, dirs.e, dirs.w);
    match style {
        LineStyle::Bold => {
            if n && !s && e && !w { Some('┗') }
            else if n && !s && !e && w { Some('┛') }
            else if !n && s && e && !w { Some('┏') }
            else if !n && s && !e && w { Some('┓') }
            else if n && s && e && !w { Some('┣') }
            else if n && s && !e && w { Some('┫') }
            else if n && !s && e && w { Some('┻') }
            else if !n && s && e && w { Some('┳') }
            else if n && s && e && w { Some('╋') }
            else { None }
        },
        _ => {
            if n && !s && e && !w { Some('└') }
            else if n && !s && !e && w { Some('┘') }
            else if !n && s && e && !w { Some('┌') }
            else if !n && s && !e && w { Some('┐') }
            else if n && s && e && !w { Some('├') }
            else if n && s && !e && w { Some('┤') }
            else if n && !s && e && w { Some('┴') }
            else if !n && s && e && w { Some('┬') }
            else if n && s && e && w { Some('┼') }
            else { None }
        },
    }
}

/// A visible connector-line cell.
pub open spec fn is_line_cell(c: Cell) -> bool {
    c.layer == Layer::Connector && c.ch != ' '
}

/// The Unicode corner, tee, and cross glyphs (light and heavy).
pub open spec fn is_unicode_junction_char(c: char) -> bool {
    c == '┌' || c == '┐' || c == '└' || c == '┘' || c == '├' || c == '┤' || c == '┬' || c == '┴'
        || c == '┼' || c == '┏' || c == '┓' || c == '┗' || c == '┛' || c == '┣' || c == '┫'
        || c == '┳' || c == '┻' || c == '╋'
}

/// The glyph the first repair pass gives a connector cell with arms
/// `d`: ASCII joins every perpendicular meeting as `+`; Unicode picks the
/// matching box-drawing junction.
pub open spec fn repair_glyph(charset: Charset, style: LineStyle, d: Directions) -> Option<char> {
    match charset {
        Charset::Ascii => if (d.e || d.w) && (d.n || d.s) { Some('+') } else { None },
        Charset::Unicode => spec_junction_char(d, style),
    }
}

/// Cells the second repair pass treats as run members: `+` for ASCII,
/// any junction glyph for Unicode, always at the connector layer.
pub open spec fn is_run_cell(charset: Charset, c: Cell) -> bool {
    c.layer == Layer::Connector && match charset {
        Charset::Ascii => c.ch == '+',
        Charset::Unicode => is_unicode_junction_char(c.ch),
    }
}

/// The horizontal glyph restored between adjacent junctions.
pub open spec fn run_fill(charset: Charset, style: LineStyle) -> char {
    match charset {
        Charset::Ascii => '-',
        Charset::Unicode => match style {
            LineStyle::Bold => '━',
            _ => '─',
        },
    }
}

/// Number of run cells immediately left of column `x`.
pub open spec fn run_streak(row: Seq<Cell>, charset: Charset, x: int) -> nat
    decreases x,
{
    if x <= 0 {
        0
    } else if is_run_cell(charset, row[x - 1]) {
        1 + run_streak(row, charset, x - 1)
    } else {
        0
    }
}

/// Second repair pass on one row: inside every horizontal run of
/// junctions, every other cell (odd offsets from the run's start)
/// becomes a plain horizontal line again.
pub open spec fn unrun_row(row: Seq<Cell>, charset: Charset, style: LineStyle) -> Seq<Cell> {
    Seq::new(
        row.len(),
        |x: int|
            if is_run_cell(charset, row[x]) && run_streak(row, charset, x) % 2 == 1 {
                Cell { ch: run_fill(charset, style), layer: Layer::Connector, fg: None }
            } else {
                row[x]
            },
    )
}

impl CanvasView {
    pub open spec fn is_line(self, x: int, y: int) -> bool {
        self.in_bounds(x, y) && is_line_cell(self.cell(x, y))
    }

    /// The arms of the connector cell at `(x, y)`.
    pub open spec fn dirs(self, x: int, y: int) -> Directions {
        Directions {
            n: y > 0 && self.is_line(x, y - 1),
            s: y + 1 < self.height && self.is_line(x, y + 1),
            e: x + 1 < self.width && self.is_line(x + 1, y),
            w: x > 0 && self.is_line(x - 1, y),
        }
    }

    /// True when the first repair pass rewrites `(x, y)`.
    pub open spec fn fires(self, charset: Charset, style: LineStyle, x: int, y: int) -> bool {
        self.is_line(x, y) && repair_glyph(charset, style, self.dirs(x, y)) is Some
    }

    /// The cell after the first repair pass.
    pub open spec fn pass1_cell(self, charset: Charset, style: LineStyle, x: int, y: int) -> Cell {
        if self.fires(charset, style, x, y) {
            Cell { ch: repair_glyph(charset, style, self.dirs(x, y))->0, layer: Layer::Connector, fg: None }
        } else {
            self.cell(x, y)
        }
    }

    pub open spec fn pass1_row(self, charset: Charset, style: LineStyle, y: int) -> Seq<Cell> {
        Seq::new(self.width, |x: int| self.pass1_cell(charset, style, x, y))
    }

    /// Cells of row `y` left of column `x` that the first pass rewrites.
    pub open spec fn fired_in_row(self, charset: Charset, style: LineStyle, y: int, x: int) -> Seq<(usize, usize)>
        decreases x,
    {
        if x <= 0 {
            Seq::empty()
        } else {
            self.fired_in_row(charset, style, y, x - 1) + if self.fires(charset, style, x - 1, y) {
                seq![((x - 1) as usize, y as usize)]
            } else {
                Seq::empty()
            }
        }
    }

    /// Cells of rows above `y` that the first pass rewrites, row-major.
    pub open spec fn fired_above(self, charset: Charset, style: LineStyle, y: int) -> Seq<(usize, usize)>
        decreases y,
    {
        if y <= 0 {
            Seq::empty()
        } else {
            self.fired_above(charset, style, y - 1) + self.fired_in_row(charset, style, y - 1, self.width as int)
        }
    }

    /// The canvas after junction repair: the first pass turns every
    /// connector cell with perpendicular arms into its junction glyph, the
    /// second breaks up runs of adjacent junctions, and the rewritten cells
    /// are recorded for the crossing pass.
    pub open spec fn repaired(self, charset: Charset, style: LineStyle) -> CanvasView {
        CanvasView {
            width: self.width,
            height: self.height,
            grid: Seq::new(self.height, |y: int| unrun_row(self.pass1_row(charset, style, y), charset, style)),
            log: self.log,
            touched: self.touched + self.fired_above(charset, style, self.height as int),
        }
    }
}


/// Every glyph a junction repair can produce: `+` and the Unicode
/// corners, tees, and crosses.
pub open spec fn is_junction_glyph(c: char) -> bool {
    c == '+' || is_unicode_junction_char(c)
}

/// A plain horizontal line glyph.
pub open spec fn is_plain_h(c: Option<char>) -> bool {
    c == Some('-') || c == Some('─') || c == Some('━')
}

/// True when some horizontal segment of `log` covers `(x, y)`.
pub open spec fn h_covers(log: Seq<Segment>, x: int, y: int) -> bool {
    exists|i: int|
        0 <= i < log.len() && match #[trigger] log[i] {
            Segment::H { x: sx, y: sy, len } => sy == y && sx <= x < sx + len,
            _ => false,
        }
}

/// True when some vertical segment of `log` covers `(x, y)`.
pub open spec fn v_covers(log: Seq<Segment>, x: int, y: int) -> bool {
    exists|i: int|
        0 <= i < log.len() && match #[trigger] log[i] {
            Segment::V { x: sx, y: sy, len } => sx == x && sy <= y < sy + len,
            _ => false,
        }
}

/// The horizontal spans longer than one cell, in log order.
pub open spec fn h_spans(log: Seq<Segment>) -> Seq<(usize, usize, usize)>
    decreases log.len(),
{
    if log.len() == 0 {
        Seq::empty()
    } else {
        h_spans(log.drop_last()) + match log.last() {
            Segment::H { x, y, len } => if len > 1 { seq![(x, y, len)] } else { Seq::empty() },
            _ => Seq::empty(),
        }
    }
}

/// The vertical spans longer than one cell, in log order.
pub open spec fn v_spans(log: Seq<Segment>) -> Seq<(usize, usize, usize)>
    decreases log.len(),
{
    if log.len() == 0 {
        Seq::empty()
    } else {
        v_spans(log.drop_last()) + match log.last() {
            Segment::V { x, y, len } => if len > 1 { seq![(x, y, len)] } else { Seq::empty() },
            _ => Seq::empty(),
        }
    }
}

/// A horizontal and a vertical span cross when they meet at a cell
/// interior to both.
pub open spec fn spans_cross(h: (usize, usize, usize), v: (usize, usize, usize)) -> bool {
    v.0 > h.0 && v.0 < h.0 + h.2 - 1 && h.1 > v.1 && h.1 < v.1 + v.2 - 1
}

/// Crossing cells of one horizontal span with every vertical span.
pub open spec fn cross_row(h: (usize, usize, usize), vs: Seq<(usize, usize, usize)>) -> Seq<(usize, usize)>
    decreases vs.len(),
{
    if vs.len() == 0 {
        Seq::empty()
    } else {
        cross_row(h, vs.drop_last()) + if spans_cross(h, vs.last()) {
            seq![(vs.last().0, h.1)]
        } else {
            Seq::empty()
        }
    }
}

/// Crossing cells of every span pair, horizontal spans outermost.
pub open spec fn cross_points(hs: Seq<(usize, usize, usize)>, vs: Seq<(usize, usize, usize)>) -> Seq<(usize, usize)>
    decreases hs.len(),
{
    if hs.len() == 0 {
        Seq::empty()
    } else {
        cross_points(hs.drop_last(), vs) + cross_row(hs.last(), vs)
    }
}

/// Arms of `(x, y)` backed by same-direction line coverage of both the
/// cell and its neighbour.
pub open spec fn cover_dirs(log: Seq<Segment>, x: int, y: int) -> Directions {
    Directions {
        n: y > 0 && v_covers(log, x, y) && v_covers(log, x, y - 1),
        s: v_covers(log, x, y) && v_covers(log, x, y + 1),
        e: h_covers(log, x, y) && h_covers(log, x + 1, y),
        w: x > 0 && h_covers(log, x, y) && h_covers(log, x - 1, y),
    }
}

/// The glyph a repaired junction cell should carry for its backed arms.
pub open spec fn spec_desired_glyph(d: Directions, style: LineStyle, charset: Charset, current: char) -> char {
    match charset {
        Charset::Ascii => {
            if (d.n || d.s) && (d.e || d.w) {
                '+'
            } else if d.e || d.w {
                '-'
            } else if d.n || d.s {
                '|'
            } else {
                current
            }
        },
        Charset::Unicode => match spec_junction_char(d, style) {
            Some(c) => c,
            None => if d.e || d.w {
                match style {
                    LineStyle::Bold => '━',
                    _ => '─',
                }
            } else if d.n || d.s {
                match style {
                    LineStyle::Bold => '┃',
                    _ => '│',
                }
            } else {
                current
            },
        },
    }
}

impl CanvasView {
    pub open spec fn char_at(self, x: int, y: int) -> Option<char> {
        if self.in_bounds(x, y) {
            Some(self.cell(x, y).ch)
        } else {
            None
        }
    }

    pub open spec fn is_junction_at(self, x: int, y: int) -> bool {
        self.in_bounds(x, y) && self.cell(x, y).layer == Layer::Connector && is_junction_glyph(self.cell(x, y).ch)
    }

    /// Arm validation of one repaired cell.
    pub open spec fn validate_one(self, log: Seq<Segment>, style: LineStyle, charset: Charset, p: (usize, usize)) -> CanvasView {
        let (x, y) = (p.0 as int, p.1 as int);
        if self.is_junction_at(x, y) {
            let want = spec_desired_glyph(cover_dirs(log, x, y), style, charset, self.cell(x, y).ch);
            if want != self.cell(x, y).ch {
                self.put(x, y, want, Layer::Connector, None)
            } else {
                self
            }
        } else {
            self
        }
    }

    /// Arm validation of every cell of `ts`, in order.
    pub open spec fn validate_all(self, log: Seq<Segment>, style: LineStyle, charset: Charset, ts: Seq<(usize, usize)>) -> CanvasView
        decreases ts.len(),
    {
        if ts.len() == 0 {
            self
        } else {
            self.validate_all(log, style, charset, ts.drop_last()).validate_one(log, style, charset, ts.last())
        }
    }

    /// One crossing rendered as a gap: the vertical glyph on the crossing
    /// cell, and a blank on each side over plain horizontal glyphs whose
    /// far side is not a junction.
    pub open spec fn gap_one(self, charset: Charset, p: (usize, usize)) -> CanvasView {
        let (x, y) = (p.0 as int, p.1 as int);
        let v = match charset {
            Charset::Ascii => '|',
            Charset::Unicode => '│',
        };
        let v1 = self.put(x, y, v, Layer::Connector, None);
        let v2 = if x > 1 && is_plain_h(v1.char_at(x - 1, y)) && !v1.is_junction_at(x - 2, y) {
            v1.put(x - 1, y, ' ', Layer::Connector, None)
        } else {
            v1
        };
        if is_plain_h(v2.char_at(x + 1, y)) && !v2.is_junction_at(x + 2, y) {
            v2.put(x + 1, y, ' ', Layer::Connector, None)
        } else {
            v2
        }
    }

    /// Every crossing of `ps`, in order.
    pub open spec fn gap_all(self, charset: Charset, ps: Seq<(usize, usize)>) -> CanvasView
        decreases ps.len(),
    {
        if ps.len() == 0 {
            self
        } else {
            self.gap_all(charset, ps.drop_last()).gap_one(charset, ps.last())
        }
    }

    /// The crossing pass: consumes the line log and the repair record,
    /// strips unbacked junction arms, then renders crossings as gaps.
    pub open spec fn crossing_pass(self, style: LineStyle, charset: Charset) -> CanvasView {
        let v0 = CanvasView {
            width: self.width,
            height: self.height,
            grid: self.grid,
            log: Seq::empty(),
            touched: Seq::empty(),
        };
        v0.validate_all(self.log, style, charset, self.touched).gap_all(
            charset,
            cross_points(h_spans(self.log), v_spans(self.log)),
        )
    }
}


fn plain_h(c: Option<char>) -> (r: bool)
    ensures
        r == is_plain_h(c),
{
    match c {
        Some(ch) => ch == '-' || ch == '─' || ch == '━',
        None => false,
    }
}

fn junction_glyph(c: char) -> (r: bool)
    ensures
        r == is_junction_glyph(c),
{
    c == '+' || c == '┌' || c == '┐' || c == '└' || c == '┘' || c == '├' || c == '┤' || c == '┬'
        || c == '┴' || c == '┼' || c == '┏' || c == '┓' || c == '┗' || c == '┛' || c == '┣' || c
        == '┫' || c == '┳' || c == '┻' || c == '╋'
}

fn covers_h(log: &Vec<Segment>, x: usize, y: usize) -> (r: bool)
    ensures
        r == h_covers(log@, x as int, y as int),
{
    let mut i: usize = 0;
    while i < log.len()
        invariant
            i <= log@.len(),
            forall|k: int| 0 <= k < i ==> !match #[trigger] log@[k] {
                Segment::H { x: sx, y: sy, len } => sy == y && sx <= x < sx + len,
                _ => false,
            },
        decreases log@.len() - i,
    {
        match log[i] {
            Segment::H { x: sx, y: sy, len } => {
                if sy == y && sx <= x && x - sx < len {
                    return true;
                }
            },
            _ => {},
        }
        i = i + 1;
    }
    false
}

fn covers_v(log: &Vec<Segment>, x: usize, y: usize) -> (r: bool)
    ensures
        r == v_covers(log@, x as int, y as int),
{
    let mut i: usize = 0;
    while i < log.len()
        invariant
            i <= log@.len(),
            forall|k: int| 0 <= k < i ==> !match #[trigger] log@[k] {
                Segment::V { x: sx, y: sy, len } => sx == x && sy <= y < sy + len,
                _ => false,
            },
        decreases log@.len() - i,
    {
        match log[i] {
            Segment::V { x: sx, y: sy, len } => {
                if sx == x && sy <= y && y - sy < len {
                    return true;
                }
            },
            _ => {},
        }
        i = i + 1;
    }
    false
}

fn collect_spans(log: &Vec<Segment>) -> (r: (Vec<(usize, usize, usize)>, Vec<(usize, usize, usize)>))
    ensures
        r.0@ == h_spans(log@),
        r.1@ == v_spans(log@),
{
    let mut hs: Vec<(usize, usize, usize)> = Vec::new();
    let mut vs: Vec<(usize, usize, usize)> = Vec::new();
    let mut i: usize = 0;
    while i < log.len()
        invariant
            i <= log@.len(),
            hs@ == h_spans(log@.take(i as int)),
            vs@ == v_spans(log@.take(i as int)),
        decreases log@.len() - i,
    {
        assert(log@.take(i + 1).drop_last() =~= log@.take(i as int));
        assert(log@.take(i + 1).last() == log@[i as int]);
        match log[i] {
            Segment::H { x, y, len } => {
                if len > 1 {
                    hs.push((x, y, len));
                }
            },
            Segment::V { x, y, len } => {
                if len > 1 {
                    vs.push((x, y, len));
                }
            },
        }
        i = i + 1;
        assert(hs@ =~= h_spans(log@.take(i as int)));
        assert(vs@ =~= v_spans(log@.take(i as int)));
    }
    assert(log@.take(i as int) =~= log@);
    (hs, vs)
}

fn span_pair_crosses(h: (usize, usize, usize), v: (usize, usize, usize)) -> (r: bool)
    ensures
        r == spans_cross(h, v),
{
    let (hx, hy, hlen) = h;
    let (vx, vy, vlen) = v;
    vx > hx && hlen >= 1 && vx - hx < hlen - 1 && hy > vy && vlen >= 1 && hy - vy < vlen - 1
}

fn crossing_cells(hs: &Vec<(usize, usize, usize)>, vs: &Vec<(usize, usize, usize)>) -> (r: Vec<(usize, usize)>)
    ensures
        r@ == cross_points(hs@, vs@),
{
    let mut out: Vec<(usize, usize)> = Vec::new();
    let mut i: usize = 0;
    while i < hs.len()
        invariant
            i <= hs@.len(),
            out@ == cross_points(hs@.take(i as int), vs@),
        decreases hs@.len() - i,
    {
        let h = hs[i];
        let mut j: usize = 0;
        while j < vs.len()
            invariant
                i < hs@.len(),
                j <= vs@.len(),
                h == hs@[i as int],
                out@ == cross_points(hs@.take(i as int), vs@) + cross_row(h, vs@.take(j as int)),
            decreases vs@.len() - j,
        {
            let v = vs[j];
            assert(vs@.take(j + 1).drop_last() =~= vs@.take(j as int));
            assert(vs@.take(j + 1).last() == v);
            if span_pair_crosses(h, v) {
                out.push((v.0, h.1));
            }
            j = j + 1;
            assert(out@ =~= cross_points(hs@.take(i as int), vs@) + cross_row(h, vs@.take(j as int)));
        }
        assert(vs@.take(j as int) =~= vs@);
        assert(hs@.take(i + 1).drop_last() =~= hs@.take(i as int));
        assert(hs@.take(i + 1).last() == h);
        i = i + 1;
    }
    assert(hs@.take(i as int) =~= hs@);
    out
}

fn desired_glyph(d: Directions, style: LineStyle, charset: Charset, current: char) -> (r: char)
    ensures
        r == spec_desired_glyph(d, style, charset, current),
{
    match charset {
        Charset::Ascii => {
            if (d.n || d.s) && (d.e || d.w) {
                '+'
            } else if d.e || d.w {
                '-'
            } else if d.n || d.s {
                '|'
            } else {
                current
            }
        },
        Charset::Unicode => match junction_char(d, style) {
            Some(c) => c,
            None => if d.e || d.w {
                match style {
                    LineStyle::Bold => '━',
                    _ => '─',
                }
            } else if d.n || d.s {
                match style {
                    LineStyle::Bold => '┃',
                    _ => '│',
                }
            } else {
                current
            },
        },
    }
}


/// Number of leading cells of `row[..n]` that survive trailing-space
/// trimming.
pub open spec fn trim_len(row: Seq<Cell>, n: int) -> int
    decreases n,
{
    if n <= 0 {
        0
    } else if row[n - 1].ch != ' ' {
        n
    } else {
        trim_len(row, n - 1)
    }
}

/// Plain characters of `row[i..end]`.
pub open spec fn row_plain(row: Seq<Cell>, i: int, end: int) -> Seq<char>
    decreases end - i + 1,
{
    if i >= end {
        Seq::empty()
    } else {
        let next = if char_width_or(row[i].ch, 1) == 2 { i + 2 } else { i + 1 };
        seq![row[i].ch] + row_plain(row, next, end)
    }
}

/// Characters of `row[i..end]` with an escape wherever the color
/// changes (starting from color `cur`), and a reset at the end while a
/// color is active.
pub open spec fn row_color(row: Seq<Cell>, i: int, end: int, cur: Option<Color>) -> Seq<char>
    decreases end - i + 1,
{
    if i >= end {
        if cur is Some {
            reset_code()
        } else {
            Seq::empty()
        }
    } else {
        let c = row[i];
        let pre = if c.fg != cur {
            match c.fg {
                Some(col) => color_code(col),
                None => reset_code(),
            }
        } else {
            Seq::empty()
        };
        let next = if char_width_or(c.ch, 1) == 2 { i + 2 } else { i + 1 };
        pre + seq![c.ch] + row_color(row, next, end, c.fg)
    }
}

/// One rendered row, trailing spaces trimmed.
pub open spec fn row_text(row: Seq<Cell>, color: bool) -> Seq<char> {
    let end = trim_len(row, row.len() as int);
    if color {
        row_color(row, 0, end, None)
    } else {
        row_plain(row, 0, end)
    }
}

/// The first `k` rows, each followed by a newline.
pub open spec fn render_rows(grid: Seq<Seq<Cell>>, color: bool, k: int) -> Seq<char>
    decreases k,
{
    if k <= 0 {
        Seq::empty()
    } else {
        render_rows(grid, color, k - 1) + row_text(grid[k - 1], color) + seq!['\n']
    }
}

impl CanvasView {
    /// The canvas as text: every row with trailing spaces trimmed and a
    /// newline after it.
    pub open spec fn rendered(self, color: bool) -> Seq<char> {
        render_rows(self.grid, color, self.height as int)
    }
}

/// A fresh grid of blank cells.
pub open spec fn blank_grid(width: nat, height: nat) -> Seq<Seq<Cell>> {
    Seq::new(height, |y: int| Seq::new(width, |x: int| blank_cell()))
}

/// Every row of `grid` followed by `extra` blank cells.
pub open spec fn widen_grid(grid: Seq<Seq<Cell>>, extra: nat) -> Seq<Seq<Cell>> {
    Seq::new(grid.len(), |y: int| grid[y] + Seq::new(extra, |x: int| blank_cell()))
}

/// A fresh canvas of blank cells; zero dimensions are raised to 1.
pub open spec fn blank_view(width: nat, height: nat) -> CanvasView {
    let w = if width == 0 { 1 } else { width };
    let h = if height == 0 { 1 } else { height };
    CanvasView {
        width: w,
        height: h,
        grid: blank_grid(w, h),
        log: Seq::empty(),
        touched: Seq::empty(),
    }
}

/// A 2-D grid buffer for building text diagrams.
#[derive(Debug)]
pub struct Canvas {
    width: usize,
    height: usize,
    rows: Vec<Vec<Cell>>,
    line_log: Vec<Segment>,
    repair_touched: Vec<(usize, usize)>,
}

impl View for Canvas {
    type V = CanvasView;

    closed spec fn view(&self) -> CanvasView {
        CanvasView {
            width: self.width as nat,
            height: self.height as nat,
            grid: self.rows@.map_values(|r: Vec<Cell>| r@),
            log: self.line_log@,
            touched: self.repair_touched@,
        }
    }
}

/// Z-order: a layered write never lowers a cell's layer. The written
/// cell takes the new character when its layer is at least the cell's,
/// and keeps its old content otherwise; every other cell is unchanged.
pub proof fn law_layered_write(v: CanvasView, x: int, y: int, ch: char, layer: Layer, fg: Option<Color>, cx: int, cy: int)
    requires
        v.wf(),
        v.in_bounds(cx, cy),
    ensures
        layer_rank(v.put(x, y, ch, layer, fg).cell(cx, cy).layer) >= layer_rank(v.cell(cx, cy).layer),
        (cx == x && cy == y) ==> if layer_rank(layer) >= layer_rank(v.cell(cx, cy).layer) {
            v.put(x, y, ch, layer, fg).cell(cx, cy) == (Cell { ch, layer, fg })
        } else {
            v.put(x, y, ch, layer, fg).cell(cx, cy) == v.cell(cx, cy)
        },
        (cx != x || cy != y) ==> v.put(x, y, ch, layer, fg).cell(cx, cy) == v.cell(cx, cy),
{
}

/// A write outside the grid leaves the canvas unchanged.
pub proof fn lemma_put_outside(v: CanvasView, x: int, y: int, ch: char, layer: Layer, fg: Option<Color>)
    requires
        !v.in_bounds(x, y),
    ensures
        v.put(x, y, ch, layer, fg) == v,
{
}

/// A string written from a column at or past the right edge changes
/// nothing.
pub proof fn lemma_put_str_outside(v: CanvasView, col: int, y: int, s: Seq<char>, layer: Layer, fg: Option<Color>)
    requires
        col >= v.width,
    ensures
        v.put_str(col, y, s, layer, fg) == v,
    decreases s.len(),
{
    if s.len() > 0 {
        let w = char_width_or(s[0], 1) as int;
        lemma_put_str_outside(v, col + w, y, s.drop_first(), layer, fg);
    }
}

/// `after` has the size of `before` and the same cells outside the
/// rectangle of columns `x .. x + w` and rows `y .. y + h`.
pub open spec fn same_outside(before: CanvasView, after: CanvasView, x: int, y: int, w: int, h: int) -> bool {
    &&& after.width == before.width
    &&& after.height == before.height
    &&& forall|cx: int, cy: int|
        before.in_bounds(cx, cy) && !(x <= cx < x + w && y <= cy < y + h) ==> #[trigger] after.cell(cx, cy)
            == before.cell(cx, cy)
}

pub(crate) proof fn lemma_same_outside_refl(v: CanvasView, x: int, y: int, w: int, h: int)
    ensures
        same_outside(v, v, x, y, w, h),
{
}

pub(crate) proof fn lemma_same_outside_trans(a: CanvasView, b: CanvasView, c: CanvasView, x: int, y: int, w: int, h: int)
    requires
        same_outside(a, b, x, y, w, h),
        same_outside(b, c, x, y, w, h),
    ensures
        same_outside(a, c, x, y, w, h),
{
    assert forall|cx: int, cy: int| a.in_bounds(cx, cy) && !(x <= cx < x + w && y <= cy < y + h) implies #[trigger] c.cell(cx, cy)
        == a.cell(cx, cy) by {
        assert(b.in_bounds(cx, cy));
        assert(b.cell(cx, cy) == a.cell(cx, cy));
    }
}

/// A write inside the rectangle, or off the grid, leaves every cell
/// outside the rectangle as it was.
pub(crate) proof fn lemma_put_inside(v: CanvasView, px: int, py: int, ch: char, layer: Layer, fg: Option<Color>, x: int, y: int, w: int, h: int)
    requires
        v.wf(),
        !v.in_bounds(px, py) || (x <= px < x + w && y <= py < y + h),
    ensures
        v.put(px, py, ch, layer, fg).wf(),
        same_outside(v, v.put(px, py, ch, layer, fg), x, y, w, h),
{
    let a = v.put(px, py, ch, layer, fg);
    if v.in_bounds(px, py) {
        assert forall|cy: int| 0 <= cy < a.height implies (#[trigger] a.grid[cy]).len() == a.width by {
            if cy != py {
                assert(a.grid[cy] == v.grid[cy]);
            }
        }
        assert forall|cx: int, cy: int| v.in_bounds(cx, cy) && !(x <= cx < x + w && y <= cy < y + h) implies #[trigger] a.cell(cx, cy)
            == v.cell(cx, cy) by {
            if cy == py {
                assert(cx != px);
                assert(a.grid[cy] == v.grid[py].update(px, painted(v.grid[py][px], ch, layer, fg)));
            } else {
                assert(a.grid[cy] == v.grid[cy]);
            }
        }
    }
}

/// A horizontal run inside the rectangle changes nothing outside it.
pub(crate) proof fn lemma_hline_inside(v: CanvasView, hx: int, hy: int, len: int, ch: char, layer: Layer, x: int, y: int, w: int, h: int)
    requires
        v.wf(),
        len <= 0 || (y <= hy < y + h && x <= hx && hx + len <= x + w),
    ensures
        v.hline(hx, hy, len, ch, layer).wf(),
        same_outside(v, v.hline(hx, hy, len, ch, layer), x, y, w, h),
{
    let a = v.hline(hx, hy, len, ch, layer);
    if 0 <= hy < v.height {
        assert forall|cy: int| 0 <= cy < a.height implies (#[trigger] a.grid[cy]).len() == a.width by {
            if cy != hy {
                assert(a.grid[cy] == v.grid[cy]);
            }
        }
        assert forall|cx: int, cy: int| v.in_bounds(cx, cy) && !(x <= cx < x + w && y <= cy < y + h) implies #[trigger] a.cell(cx, cy)
            == v.cell(cx, cy) by {
            if cy == hy {
                assert(a.grid[cy] == v.row_painted(hx, hy, len, ch, layer));
            } else {
                assert(a.grid[cy] == v.grid[cy]);
            }
        }
    }
}

/// A vertical run inside the rectangle changes nothing outside it.
pub(crate) proof fn lemma_vline_inside(v: CanvasView, vx: int, vy: int, len: int, ch: char, layer: Layer, x: int, y: int, w: int, h: int)
    requires
        v.wf(),
        len <= 0 || (x <= vx < x + w && y <= vy && vy + len <= y + h),
    ensures
        v.vline(vx, vy, len, ch, layer).wf(),
        same_outside(v, v.vline(vx, vy, len, ch, layer), x, y, w, h),
{
    let a = v.vline(vx, vy, len, ch, layer);
    assert forall|cy: int| 0 <= cy < a.height implies (#[trigger] a.grid[cy]).len() == a.width by {}
}

/// A rectangle outline stays on its own rectangle.
pub(crate) proof fn lemma_rect_inside(v: CanvasView, x: int, y: int, w: int, h: int, g: BorderGlyphs)
    requires
        v.wf(),
        w >= 2,
        h >= 2,
    ensures
        v.rect(x, y, w, h, g).wf(),
        same_outside(v, v.rect(x, y, w, h, g), x, y, w, h),
{
    let l = Layer::NodeBorder;
    let v1 = v.put(x, y, g.top_left, l, None);
    let v2 = v1.put(x + w - 1, y, g.top_right, l, None);
    let v3 = v2.put(x, y + h - 1, g.bottom_left, l, None);
    let v4 = v3.put(x + w - 1, y + h - 1, g.bottom_right, l, None);
    let v5 = v4.hline(x + 1, y, w - 2, g.horizontal, l);
    let v6 = v5.hline(x + 1, y + h - 1, w - 2, g.horizontal, l);
    let v7 = v6.vline(x, y + 1, h - 2, g.vertical, l);
    let v8 = v7.vline(x + w - 1, y + 1, h - 2, g.vertical, l);
    lemma_put_inside(v, x, y, g.top_left, l, None, x, y, w, h);
    lemma_put_inside(v1, x + w - 1, y, g.top_right, l, None, x, y, w, h);
    lemma_put_inside(v2, x, y + h - 1, g.bottom_left, l, None, x, y, w, h);
    lemma_put_inside(v3, x + w - 1, y + h - 1, g.bottom_right, l, None, x, y, w, h);
    lemma_hline_inside(v4, x + 1, y, w - 2, g.horizontal, l, x, y, w, h);
    lemma_hline_inside(v5, x + 1, y + h - 1, w - 2, g.horizontal, l, x, y, w, h);
    lemma_vline_inside(v6, x, y + 1, h - 2, g.vertical, l, x, y, w, h);
    lemma_vline_inside(v7, x + w - 1, y + 1, h - 2, g.vertical, l, x, y, w, h);
    lemma_same_outside_trans(v, v1, v2, x, y, w, h);
    lemma_same_outside_trans(v, v2, v3, x, y, w, h);
    lemma_same_outside_trans(v, v3, v4, x, y, w, h);
    lemma_same_outside_trans(v, v4, v5, x, y, w, h);
    lemma_same_outside_trans(v, v5, v6, x, y, w, h);
    lemma_same_outside_trans(v, v6, v7, x, y, w, h);
    lemma_same_outside_trans(v, v7, v8, x, y, w, h);
}

proof fn lemma_hline_cell(v: CanvasView, hx: int, hy: int, len: int, ch: char, layer: Layer, cx: int, cy: int)
    requires
        v.wf(),
        v.in_bounds(cx, cy),
    ensures
        v.hline(hx, hy, len, ch, layer).cell(cx, cy) == (if cy == hy && hx <= cx < hx + len {
            painted(v.cell(cx, cy), ch, layer, None)
        } else {
            v.cell(cx, cy)
        }),
{
    let a = v.hline(hx, hy, len, ch, layer);
    if cy == hy {
        assert(a.grid[cy] == v.row_painted(hx, hy, len, ch, layer));
    } else if 0 <= hy < v.height {
        assert(a.grid[cy] == v.grid[cy]);
    }
}

proof fn lemma_vline_cell(v: CanvasView, vx: int, vy: int, len: int, ch: char, layer: Layer, cx: int, cy: int)
    requires
        v.wf(),
        v.in_bounds(cx, cy),
    ensures
        v.vline(vx, vy, len, ch, layer).cell(cx, cy) == (if cx == vx && vy <= cy < vy + len {
            painted(v.cell(cx, cy), ch, layer, None)
        } else {
            v.cell(cx, cy)
        }),
{
}

/// The glyph the outline of the rectangle at `(x, y)`, `w` by `h`, puts
/// at `(cx, cy)`: a corner, an edge, or none off the outline.
pub open spec fn outline_glyph(x: int, y: int, w: int, h: int, g: BorderGlyphs, cx: int, cy: int) -> Option<char> {
    let r = x + w - 1;
    let b = y + h - 1;
    if cx == x && cy == y {
        Some(g.top_left)
    } else if cx == r && cy == y {
        Some(g.top_right)
    } else if cx == x && cy == b {
        Some(g.bottom_left)
    } else if cx == r && cy == b {
        Some(g.bottom_right)
    } else if (cy == y || cy == b) && x < cx < r {
        Some(g.horizontal)
    } else if (cx == x || cx == r) && y < cy < b {
        Some(g.vertical)
    } else {
        None
    }
}

/// A rectangle outline, cell by cell: each cell of the outline takes
/// its corner or edge glyph at the node-border layer (unless it holds a
/// higher layer), written once; every other cell keeps its content.
pub proof fn law_rect_cells(v: CanvasView, x: int, y: int, w: int, h: int, g: BorderGlyphs, cx: int, cy: int)
    requires
        v.wf(),
        w >= 2,
        h >= 2,
        v.in_bounds(cx, cy),
    ensures
        v.rect(x, y, w, h, g).cell(cx, cy) == (match outline_glyph(x, y, w, h, g, cx, cy) {
            Some(c) => painted(v.cell(cx, cy), c, Layer::NodeBorder, None),
            None => v.cell(cx, cy),
        }),
{
    let l = Layer::NodeBorder;
    let v1 = v.put(x, y, g.top_left, l, None);
    let v2 = v1.put(x + w - 1, y, g.top_right, l, None);
    let v3 = v2.put(x, y + h - 1, g.bottom_left, l, None);
    let v4 = v3.put(x + w - 1, y + h - 1, g.bottom_right, l, None);
    let v5 = v4.hline(x + 1, y, w - 2, g.horizontal, l);
    let v6 = v5.hline(x + 1, y + h - 1, w - 2, g.horizontal, l);
    let v7 = v6.vline(x, y + 1, h - 2, g.vertical, l);
    lemma_put_inside(v, x, y, g.top_left, l, None, x, y, w, h);
    lemma_put_inside(v1, x + w - 1, y, g.top_right, l, None, x, y, w, h);
    lemma_put_inside(v2, x, y + h - 1, g.bottom_left, l, None, x, y, w, h);
    lemma_put_inside(v3, x + w - 1, y + h - 1, g.bottom_right, l, None, x, y, w, h);
    lemma_hline_inside(v4, x + 1, y, w - 2, g.horizontal, l, x, y, w, h);
    lemma_hline_inside(v5, x + 1, y + h - 1, w - 2, g.horizontal, l, x, y, w, h);
    lemma_vline_inside(v6, x, y + 1, h - 2, g.vertical, l, x, y, w, h);
    law_layered_write(v, x, y, g.top_left, l, None, cx, cy);
    law_layered_write(v1, x + w - 1, y, g.top_right, l, None, cx, cy);
    law_layered_write(v2, x, y + h - 1, g.bottom_left, l, None, cx, cy);
    law_layered_write(v3, x + w - 1, y + h - 1, g.bottom_right, l, None, cx, cy);
    lemma_hline_cell(v4, x + 1, y, w - 2, g.horizontal, l, cx, cy);
    lemma_hline_cell(v5, x + 1, y + h - 1, w - 2, g.horizontal, l, cx, cy);
    lemma_vline_cell(v6, x, y + 1, h - 2, g.vertical, l, cx, cy);
    lemma_vline_cell(v7, x + w - 1, y + 1, h - 2, g.vertical, l, cx, cy);
}

/// After junction repair no two horizontally adjacent cells of a row
/// are both junctions at the connector layer (`+` for ASCII, a junction
/// glyph for Unicode), so a two-cell corridor never renders as `++`.
pub proof fn law_repair_leaves_no_adjacent_junctions(v: CanvasView, charset: Charset, style: LineStyle, x: int, y: int)
    requires
        v.wf(),
        0 <= y < v.height,
        0 <= x,
        x + 1 < v.width,
    ensures
        !(is_run_cell(charset, v.repaired(charset, style).cell(x, y)) && is_run_cell(
            charset,
            v.repaired(charset, style).cell(x + 1, y),
        )),
{
    let row = v.pass1_row(charset, style, y);
    let out = unrun_row(row, charset, style);
    let fill = Cell { ch: run_fill(charset, style), layer: Layer::Connector, fg: None };
    assert(!is_run_cell(charset, fill));
    assert(v.repaired(charset, style).grid[y] == out);
    assert(out[x] == row[x] || out[x] == fill);
    assert(out[x + 1] == row[x + 1] || out[x + 1] == fill);
    if is_run_cell(charset, out[x]) && is_run_cell(charset, out[x + 1]) {
        assert(out[x] == row[x] && out[x + 1] == row[x + 1]);
        assert(run_streak(row, charset, x + 1) == 1 + run_streak(row, charset, x));
    }
}

/// A string written from column `col` leaves every cell left of `col`
/// as it was.
pub(crate) proof fn lemma_put_str_left_kept(v: CanvasView, col: int, row: int, s: Seq<char>, layer: Layer, fg: Option<Color>, cx: int, cy: int)
    requires
        v.wf(),
        v.in_bounds(cx, cy),
        cx < col,
    ensures
        v.put_str(col, row, s, layer, fg).wf(),
        v.put_str(col, row, s, layer, fg).width == v.width,
        v.put_str(col, row, s, layer, fg).height == v.height,
        v.put_str(col, row, s, layer, fg).cell(cx, cy) == v.cell(cx, cy),
    decreases s.len(),
{
    if s.len() > 0 {
        let w = char_width_or(s[0], 1) as int;
        let v1 = v.put(col, row, s[0], layer, fg);
        lemma_put_inside(v, col, row, s[0], layer, fg, 0, 0, v.width as int, v.height as int);
        law_layered_write(v, col, row, s[0], layer, fg, cx, cy);
        let v2 = if w == 2 { v1.put(col + 1, row, ' ', layer, fg) } else { v1 };
        if w == 2 {
            lemma_put_inside(v1, col + 1, row, ' ', layer, fg, 0, 0, v1.width as int, v1.height as int);
            law_layered_write(v1, col + 1, row, ' ', layer, fg, cx, cy);
        }
        lemma_put_str_left_kept(v2, col + w, row, s.drop_first(), layer, fg, cx, cy);
    }
}

/// One character written at column 0 of row `row`: the cell at
/// `(0, row)` is painted with it, every other cell of column 0 is kept.
pub(crate) proof fn lemma_put_char_col0(v: CanvasView, row: int, c: char, layer: Layer, fg: Option<Color>, y: int)
    requires
        v.wf(),
        v.in_bounds(0, y),
    ensures
        v.put_str(0, row, seq![c], layer, fg).wf(),
        v.put_str(0, row, seq![c], layer, fg).width == v.width,
        v.put_str(0, row, seq![c], layer, fg).height == v.height,
        v.put_str(0, row, seq![c], layer, fg).cell(0, y) == (if y == row {
            painted(v.cell(0, y), c, layer, fg)
        } else {
            v.cell(0, y)
        }),
{
    let s = seq![c];
    let w = char_width_or(c, 1) as int;
    let v1 = v.put(0, row, c, layer, fg);
    lemma_put_inside(v, 0, row, c, layer, fg, 0, 0, v.width as int, v.height as int);
    law_layered_write(v, 0, row, c, layer, fg, 0, y);
    let v2 = if w == 2 { v1.put(1, row, ' ', layer, fg) } else { v1 };
    if w == 2 {
        lemma_put_inside(v1, 1, row, ' ', layer, fg, 0, 0, v1.width as int, v1.height as int);
        law_layered_write(v1, 1, row, ' ', layer, fg, 0, y);
    }
    assert(s.drop_first() =~= Seq::<char>::empty());
    assert(v.put_str(0, row, s, layer, fg) == v2.put_str(w, row, s.drop_first(), layer, fg));
}

/// A string written on row `row` from column `col` keeps the cells of
/// other rows and those left of `col`, and never raises a cell above
/// its own layer or the written one.
pub(crate) proof fn lemma_put_str_cell(v: CanvasView, col: int, row: int, s: Seq<char>, layer: Layer, fg: Option<Color>, cx: int, cy: int)
    requires
        v.wf(),
        v.in_bounds(cx, cy),
    ensures
        v.put_str(col, row, s, layer, fg).wf(),
        v.put_str(col, row, s, layer, fg).width == v.width,
        v.put_str(col, row, s, layer, fg).height == v.height,
        (cy != row || cx < col) ==> v.put_str(col, row, s, layer, fg).cell(cx, cy) == v.cell(cx, cy),
        layer_rank(v.put_str(col, row, s, layer, fg).cell(cx, cy).layer) <= (if layer_rank(v.cell(cx, cy).layer)
            >= layer_rank(layer) {
            layer_rank(v.cell(cx, cy).layer)
        } else {
            layer_rank(layer)
        }),
    decreases s.len(),
{
    if s.len() > 0 {
        let w = char_width_or(s[0], 1) as int;
        let v1 = v.put(col, row, s[0], layer, fg);
        lemma_put_inside(v, col, row, s[0], layer, fg, 0, 0, v.width as int, v.height as int);
        law_layered_write(v, col, row, s[0], layer, fg, cx, cy);
        let v2 = if w == 2 { v1.put(col + 1, row, ' ', layer, fg) } else { v1 };
        if w == 2 {
            lemma_put_inside(v1, col + 1, row, ' ', layer, fg, 0, 0, v1.width as int, v1.height as int);
            law_layered_write(v1, col + 1, row, ' ', layer, fg, cx, cy);
        }
        lemma_put_str_cell(v2, col + w, row, s.drop_first(), layer, fg, cx, cy);
    }
}

/// One character written at `(col, row)` paints that cell with it.
pub(crate) proof fn lemma_put_char_at(v: CanvasView, col: int, row: int, c: char, layer: Layer, fg: Option<Color>)
    requires
        v.wf(),
        v.in_bounds(col, row),
    ensures
        v.put_str(col, row, seq![c], layer, fg).cell(col, row) == painted(v.cell(col, row), c, layer, fg),
{
    let s = seq![c];
    let w = char_width_or(c, 1) as int;
    let v1 = v.put(col, row, c, layer, fg);
    lemma_put_inside(v, col, row, c, layer, fg, 0, 0, v.width as int, v.height as int);
    law_layered_write(v, col, row, c, layer, fg, col, row);
    let v2 = if w == 2 { v1.put(col + 1, row, ' ', layer, fg) } else { v1 };
    if w == 2 {
        law_layered_write(v1, col + 1, row, ' ', layer, fg, col, row);
    }
    assert(s.drop_first() =~= Seq::<char>::empty());
    assert(v.put_str(col, row, s, layer, fg) == v2.put_str(col + w, row, s.drop_first(), layer, fg));
}

/// Every character of `s` takes one column.
pub open spec fn narrow_chars(s: Seq<char>) -> bool {
    forall|i: int| 0 <= i < s.len() ==> char_width_or(#[trigger] s[i], 1) == 1
}

/// A string of one-column characters written inside the rectangle
/// changes nothing outside it.
pub(crate) proof fn lemma_put_str_inside(v: CanvasView, col: int, row: int, s: Seq<char>, layer: Layer, fg: Option<Color>, x: int, y: int, w: int, h: int)
    requires
        v.wf(),
        narrow_chars(s),
        x <= col,
        col + s.len() <= x + w,
        y <= row < y + h,
    ensures
        v.put_str(col, row, s, layer, fg).wf(),
        same_outside(v, v.put_str(col, row, s, layer, fg), x, y, w, h),
    decreases s.len(),
{
    if s.len() == 0 {
    } else {
        assert(char_width_or(s[0], 1) == 1);
        let v1 = v.put(col, row, s[0], layer, fg);
        lemma_put_inside(v, col, row, s[0], layer, fg, x, y, w, h);
        assert(narrow_chars(s.drop_first())) by {
            assert forall|i: int| 0 <= i < s.drop_first().len() implies char_width_or(#[trigger] s.drop_first()[i], 1) == 1 by {
                assert(s.drop_first()[i] == s[i + 1]);
            }
        }
        lemma_put_str_inside(v1, col + 1, row, s.drop_first(), layer, fg, x, y, w, h);
        lemma_same_outside_trans(v, v1, v1.put_str(col + 1, row, s.drop_first(), layer, fg), x, y, w, h);
    }
}

impl Canvas {
    /// Internal consistency, implied by `self@.wf()`.
    proof fn lemma_rows(&self)
        requires
            self@.wf(),
        ensures
            self.rows@.len() == self.height,
            forall|y: int| 0 <= y < self.rows@.len() ==> (#[trigger] self.rows@[y])@.len() == self.width,
    {
        assert forall|y: int| 0 <= y < self.rows@.len() implies (#[trigger] self.rows@[y])@.len() == self.width by {
            assert(self@.grid[y] == self.rows@[y]@);
        }
    }

    /// A blank canvas; zero dimensions are raised to 1.
    pub fn new(width: usize, height: usize) -> (c: Canvas)
        ensures
            c@.wf(),
            c@.width == if width == 0 { 1 } else { width },
            c@.height == if height == 0 { 1 } else { height },
            c@.grid == blank_grid(c@.width, c@.height),
            c@.log == Seq::<Segment>::empty(),
            c@.touched == Seq::<(usize, usize)>::empty(),
            c@ == blank_view(width as nat, height as nat),
    {
        let width = if width == 0 { 1 } else { width };
        let height = if height == 0 { 1 } else { height };
        let mut rows: Vec<Vec<Cell>> = Vec::new();
        let mut y: usize = 0;
        while y < height
            invariant
                y <= height,
                rows@.len() == y,
                forall|i: int| 0 <= i < y ==> (#[trigger] rows@[i])@ == Seq::new(width as nat, |x: int| blank_cell()),
            decreases height - y,
        {
            let mut row: Vec<Cell> = Vec::new();
            let mut x: usize = 0;
            while x < width
                invariant
                    x <= width,
                    row@ == Seq::new(x as nat, |i: int| blank_cell()),
                decreases width - x,
            {
                row.push(Cell::blank());
                x = x + 1;
                assert(row@ =~= Seq::new(x as nat, |i: int| blank_cell()));
            }
            rows.push(row);
            y = y + 1;
        }
        let c = Canvas { width, height, rows, line_log: Vec::new(), repair_touched: Vec::new() };
        assert(c@.grid =~= blank_grid(c@.width, c@.height));
        c
    }

    /// Canvas width in cells.
    pub fn width(&self) -> (r: usize)
        requires
            self@.wf(),
        ensures
            r == self@.width,
    {
        self.width
    }

    /// Canvas height in cells.
    pub fn height(&self) -> (r: usize)
        requires
            self@.wf(),
        ensures
            r == self@.height,
    {
        self.height
    }

    /// The cell at `(x, y)`, or `None` out of bounds.
    pub fn cell(&self, x: usize, y: usize) -> (r: Option<&Cell>)
        requires
            self@.wf(),
        ensures
            r is Some <==> self@.in_bounds(x as int, y as int),
            r matches Some(c) ==> *c == self@.cell(x as int, y as int),
    {
        proof { self.lemma_rows(); }
        if x < self.width && y < self.height {
            Some(&self.rows[y][x])
        } else {
            None
        }
    }

    /// The character at `(x, y)`, or `None` out of bounds.
    pub fn cell_char(&self, x: usize, y: usize) -> (r: Option<char>)
        requires
            self@.wf(),
        ensures
            r is Some <==> self@.in_bounds(x as int, y as int),
            r matches Some(c) ==> c == self@.cell(x as int, y as int).ch,
    {
        match self.cell(x, y) {
            Some(c) => Some(c.ch),
            None => None,
        }
    }

    /// Write a character at `Layer::NodeContent`.
    pub fn put(&mut self, x: usize, y: usize, ch: char)
        requires
            old(self)@.wf(),
        ensures
            final(self)@.wf(),
            final(self)@ == old(self)@.put(x as int, y as int, ch, Layer::NodeContent, None),
    {
        self.put_layered(x, y, ch, Layer::NodeContent, None);
    }

    /// Write a character at `layer`. The write is dropped when the cell
    /// already holds a strictly higher layer, or lies outside the grid.
    pub fn put_layered(&mut self, x: usize, y: usize, ch: char, layer: Layer, fg: Option<Color>)
        requires
            old(self)@.wf(),
        ensures
            final(self)@.wf(),
            final(self)@ == old(self)@.put(x as int, y as int, ch, layer, fg),
    {
        proof { self.lemma_rows(); }
        if x >= self.width || y >= self.height {
            return;
        }
        let existing = self.rows[y][x].layer;
        if layer.rank() >= existing.rank() {
            let ghost old_rows = self.rows@;
            self.rows[y].set(x, Cell::at_colored(ch, layer, fg));
            proof {
                assert(self.rows@.map_values(|r: Vec<Cell>| r@) =~= old_rows.map_values(
                    |r: Vec<Cell>| r@,
                ).update(y as int, old_rows[y as int]@.update(x as int, Cell { ch, layer, fg })));
            }
        } else {
            proof {
                let g = self@.grid;
                assert(g[y as int].update(x as int, g[y as int][x as int]) =~= g[y as int]);
                assert(g.update(y as int, g[y as int]) =~= g);
            }
        }
    }

    /// Write `len` copies of `ch` rightward from `(x, y)` at `layer`
    /// (connector runs are logged).
    pub fn put_horizontal_layered(&mut self, x: usize, y: usize, len: usize, ch: char, layer: Layer)
        requires
            old(self)@.wf(),
        ensures
            final(self)@.wf(),
            final(self)@ == old(self)@.hline(x as int, y as int, len as int, ch, layer),
    {
        proof { self.lemma_rows(); }
        let ghost start = self@;
        if y < self.height && x < self.width {
            let end = if len > self.width - x { self.width } else { x + len };
            let mut cx = x;
            assert(start.grid[y as int] =~= start.row_painted(x as int, y as int, 0, ch, layer));
            while cx < end
                invariant
                    x <= cx <= end <= self.width,
                    end == (if x + len > self.width { self.width as int } else { x + len }),
                    y < self.height,
                    self.width == start.width,
                    self.height == start.height,
                    self@.wf(),
                    self@.log == start.log,
                    self@.touched == start.touched,
                    self@.grid.len() == start.grid.len(),
                    forall|r: int| 0 <= r < start.height && r != y ==> self@.grid[r] == start.grid[r],
                    self@.grid[y as int] == start.row_painted(x as int, y as int, cx - x, ch, layer),
                decreases end - cx,
            {
                let ghost before = self@;
                self.put_layered(cx, y, ch, layer, None);
                cx = cx + 1;
                assert(self@.grid[y as int] =~= start.row_painted(x as int, y as int, cx - x, ch, layer));
            }
            assert(self@.grid[y as int] =~= start.row_painted(x as int, y as int, len as int, ch, layer));
            assert(self@.grid =~= start.grid.update(y as int, start.row_painted(x as int, y as int, len as int, ch, layer)));
        }
        if layer == Layer::Connector {
            self.line_log.push(Segment::H { x, y, len });
        }
        proof {
            if !(y < self.height && x < self.width) {
                if y < self.height {
                    assert(start.row_painted(x as int, y as int, len as int, ch, layer) =~= start.grid[y as int]);
                    assert(start.grid.update(y as int, start.grid[y as int]) =~= start.grid);
                }
            }
            assert(self@.grid =~= start.hline(x as int, y as int, len as int, ch, layer).grid);
        }
    }

    /// Write `len` copies of `ch` downward from `(x, y)` at `layer`
    /// (connector runs are logged).
    pub fn put_vertical_layered(&mut self, x: usize, y: usize, len: usize, ch: char, layer: Layer)
        requires
            old(self)@.wf(),
        ensures
            final(self)@.wf(),
            final(self)@ == old(self)@.vline(x as int, y as int, len as int, ch, layer),
    {
        proof { self.lemma_rows(); }
        let ghost start = self@;
        if y < self.height && x < self.width {
            let end = if len > self.height - y { self.height } else { y + len };
            let mut ry = y;
            while ry < end
                invariant
                    y <= ry <= end <= self.height,
                    end == (if y + len > self.height { self.height as int } else { y + len }),
                    x < self.width,
                    self.width == start.width,
                    self.height == start.height,
                    self@.wf(),
                    self@.log == start.log,
                    self@.touched == start.touched,
                    self@.grid == Seq::new(
                        start.height,
                        |r: int|
                            if y <= r < ry {
                                start.grid[r].update(x as int, painted(start.grid[r][x as int], ch, layer, None))
                            } else {
                                start.grid[r]
                            },
                    ),
                decreases end - ry,
            {
                self.put_layered(x, ry, ch, layer, None);
                ry = ry + 1;
                assert(self@.grid =~= Seq::new(
                    start.height,
                    |r: int|
                        if y <= r < ry {
                            start.grid[r].update(x as int, painted(start.grid[r][x as int], ch, layer, None))
                        } else {
                            start.grid[r]
                        },
                ));
            }
        }
        if layer == Layer::Connector {
            self.line_log.push(Segment::V { x, y, len });
        }
        proof {
            assert(self@.grid =~= start.vline(x as int, y as int, len as int, ch, layer).grid);
        }
    }

    /// Vertical line at `Layer::Connector`.
    pub fn put_vertical(&mut self, x: usize, y: usize, len: usize, ch: char)
        requires
            old(self)@.wf(),
        ensures
            final(self)@.wf(),
            final(self)@ == old(self)@.vline(x as int, y as int, len as int, ch, Layer::Connector),
    {
        self.put_vertical_layered(x, y, len, ch, Layer::Connector);
    }

    /// Horizontal line at `Layer::Connector`.
    pub fn put_horizontal(&mut self, x: usize, y: usize, len: usize, ch: char)
        requires
            old(self)@.wf(),
        ensures
            final(self)@.wf(),
            final(self)@ == old(self)@.hline(x as int, y as int, len as int, ch, Layer::Connector),
    {
        self.put_horizontal_layered(x, y, len, ch, Layer::Connector);
    }

    /// Write a string at `Layer::NodeContent`.
    pub fn put_str(&mut self, x: usize, y: usize, s: &str)
        requires
            old(self)@.wf(),
        ensures
            final(self)@.wf(),
            final(self)@ == old(self)@.put_str(x as int, y as int, s@, Layer::NodeContent, None),
    {
        self.put_str_layered(x, y, s, Layer::NodeContent, None);
    }

    /// Write a string at `layer` (see [`CanvasView::put_str`]).
    pub fn put_str_layered(&mut self, x: usize, y: usize, s: &str, layer: Layer, fg: Option<Color>)
        requires
            old(self)@.wf(),
        ensures
            final(self)@.wf(),
            final(self)@ == old(self)@.put_str(x as int, y as int, s@, layer, fg),
    {
        let chars = crate::width::chars_of(s);
        self.put_chars_layered(x, y, &chars, layer, fg);
    }

    /// Write a character sequence at `layer` (see [`CanvasView::put_str`]).
    pub fn put_chars_layered(&mut self, x: usize, y: usize, s: &[char], layer: Layer, fg: Option<Color>)
        requires
            old(self)@.wf(),
        ensures
            final(self)@.wf(),
            final(self)@ == old(self)@.put_str(x as int, y as int, s@, layer, fg),
            printable_ascii(s@) ==> narrow_chars(s@),
    {
        let ghost goal = self@.put_str(x as int, y as int, s@, layer, fg);
        let mut col: usize = x;
        let ghost mut colg: int = x as int;
        let mut i: usize = 0;
        assert(s@.skip(0) =~= s@);
        while i < s.len()
            invariant
                i <= s@.len(),
                self@.wf(),
                col as int == (if colg > usize::MAX { usize::MAX as int } else { colg }),
                colg >= x,
                goal == self@.put_str(colg, y as int, s@.skip(i as int), layer, fg),
                forall|j: int| 0 <= j < i && 0x20 <= (#[trigger] s@[j]) as u32 && (s@[j] as u32) < 0x7F ==> char_width_or(s@[j], 1) == 1,
            decreases s@.len() - i,
        {
            let ch = s[i];
            let ghost cur = self@;
            assert(s@.skip(i as int).drop_first() =~= s@.skip(i + 1));
            assert(s@.skip(i as int)[0] == ch);
            proof {
                if colg > usize::MAX {
                    lemma_put_str_outside(cur, colg, y as int, s@.skip(i as int), layer, fg);
                    let w = char_width_or(ch, 1) as int;
                    lemma_put_str_outside(cur, colg + w, y as int, s@.skip(i + 1), layer, fg);
                }
            }
            self.put_layered(col, y, ch, layer, fg);
            let w = width_or(ch, 1);
            if w == 2 && col < self.width {
                self.put_layered(col + 1, y, ' ', layer, fg);
            }
            proof {
                if w == 2 && col >= self.width {
                    lemma_put_outside(self@, col + 1, y as int, ' ', layer, fg);
                }
                colg = colg + w;
            }
            col = col.saturating_add(w);
            i = i + 1;
        }
        assert(s@.skip(i as int) =~= Seq::<char>::empty());
    }

    /// Draw a rectangle outline with `glyphs` at `Layer::NodeBorder`.
    pub fn draw_rect(&mut self, x: usize, y: usize, w: usize, h: usize, glyphs: &BorderGlyphs) -> (r: Result<()>)
        requires
            old(self)@.wf(),
        ensures
            final(self)@.wf(),
            r is Ok <==> (w >= 2 && h >= 2),
            r is Err ==> r->Err_0 is InvalidDimensions,
            r is Ok ==> final(self)@ == old(self)@.rect(x as int, y as int, w as int, h as int, *glyphs),
            r is Err ==> final(self)@ == old(self)@,
    {
        self.draw_rect_raw(
            x,
            y,
            w,
            h,
            glyphs.top_left,
            glyphs.top_right,
            glyphs.bottom_left,
            glyphs.bottom_right,
            glyphs.horizontal,
            glyphs.vertical,
        )
    }

    /// Draw a rectangle outline from individual corner and edge glyphs.
    /// Rectangles smaller than 2x2 are refused.
    pub fn draw_rect_raw(
        &mut self,
        x: usize,
        y: usize,
        w: usize,
        h: usize,
        tl: char,
        tr: char,
        bl: char,
        br: char,
        horiz: char,
        vert: char,
    ) -> (r: Result<()>)
        requires
            old(self)@.wf(),
        ensures
            final(self)@.wf(),
            r is Ok <==> (w >= 2 && h >= 2),
            r is Err ==> r->Err_0 is InvalidDimensions,
            r is Ok ==> final(self)@ == old(self)@.rect(
                x as int,
                y as int,
                w as int,
                h as int,
                BorderGlyphs {
                    top_left: tl,
                    top_right: tr,
                    bottom_left: bl,
                    bottom_right: br,
                    horizontal: horiz,
                    vertical: vert,
                    tee_down: ' ',
                    tee_up: ' ',
                    tee_right: ' ',
                    tee_left: ' ',
                    cross: ' ',
                },
            ),
            r is Err ==> final(self)@ == old(self)@,
    {
        if w < 2 || h < 2 {
            return Err(FigoError::InvalidDimensions(crate::text::message("rectangle must be at least 2x2")));
        }
        let ghost v0 = self@;
        let right = x.saturating_add(w - 1);
        let bottom = y.saturating_add(h - 1);
        proof {
            if x + w - 1 > usize::MAX {
                lemma_put_outside(v0, x + w - 1, y as int, tr, Layer::NodeBorder, None);
            }
        }
        self.put_layered(x, y, tl, Layer::NodeBorder, None);
        let ghost v1 = self@;
        proof {
            if x + w - 1 > usize::MAX {
                lemma_put_outside(v1, x + w - 1, y as int, tr, Layer::NodeBorder, None);
                lemma_put_outside(v1, right as int, y as int, tr, Layer::NodeBorder, None);
            }
        }
        self.put_layered(right, y, tr, Layer::NodeBorder, None);
        let ghost v2 = self@;
        proof {
            if y + h - 1 > usize::MAX {
                lemma_put_outside(v2, x as int, y + h - 1, bl, Layer::NodeBorder, None);
                lemma_put_outside(v2, x as int, bottom as int, bl, Layer::NodeBorder, None);
            }
        }
        self.put_layered(x, bottom, bl, Layer::NodeBorder, None);
        let ghost v3 = self@;
        proof {
            if x + w - 1 > usize::MAX || y + h - 1 > usize::MAX {
                lemma_put_outside(v3, x + w - 1, y + h - 1, br, Layer::NodeBorder, None);
                lemma_put_outside(v3, right as int, bottom as int, br, Layer::NodeBorder, None);
            }
        }
        self.put_layered(right, bottom, br, Layer::NodeBorder, None);
        let ghost v4 = self@;
        let x1 = x.saturating_add(1);
        let y1 = y.saturating_add(1);
        proof {
            if x == usize::MAX {
                assert(v4.row_painted(x + 1, y as int, w - 2, horiz, Layer::NodeBorder) =~= v4.row_painted(x1 as int, y as int, w - 2, horiz, Layer::NodeBorder));
            }
        }
        self.put_horizontal_layered(x1, y, w - 2, horiz, Layer::NodeBorder);
        let ghost v5 = self@;
        proof {
            if x == usize::MAX && y + h - 1 <= usize::MAX {
                assert(v5.row_painted(x + 1, y + h - 1, w - 2, horiz, Layer::NodeBorder) =~= v5.row_painted(x1 as int, bottom as int, w - 2, horiz, Layer::NodeBorder));
            }
            if y + h - 1 > usize::MAX {
                assert(v5.hline(x + 1, y + h - 1, w - 2, horiz, Layer::NodeBorder).grid =~= v5.grid);
                assert(v5.hline(x1 as int, bottom as int, w - 2, horiz, Layer::NodeBorder).grid =~= v5.grid);
            }
        }
        self.put_horizontal_layered(x1, bottom, w - 2, horiz, Layer::NodeBorder);
        let ghost v6 = self@;
        proof {
            if y == usize::MAX {
                assert(v6.vline(x as int, y + 1, h - 2, vert, Layer::NodeBorder).grid =~= v6.vline(x as int, y1 as int, h - 2, vert, Layer::NodeBorder).grid);
            }
        }
        self.put_vertical_layered(x, y1, h - 2, vert, Layer::NodeBorder);
        let ghost v7 = self@;
        proof {
            if y == usize::MAX || x + w - 1 > usize::MAX {
                assert(v7.vline(x + w - 1, y + 1, h - 2, vert, Layer::NodeBorder).grid =~= v7.vline(right as int, y1 as int, h - 2, vert, Layer::NodeBorder).grid);
            }
        }
        self.put_vertical_layered(right, y1, h - 2, vert, Layer::NodeBorder);
        Ok(())
    }

    /// Draw a border in the canonical glyphs of `border` and `charset`.
    pub fn draw_border(
        &mut self,
        x: usize,
        y: usize,
        w: usize,
        h: usize,
        border: BorderStyle,
        charset: Charset,
    ) -> (r: Result<()>)
        requires
            old(self)@.wf(),
        ensures
            final(self)@.wf(),
            r is Ok <==> (w >= 2 && h >= 2),
            r is Err ==> r->Err_0 is InvalidDimensions,
            r is Ok ==> final(self)@ == old(self)@.rect(
                x as int,
                y as int,
                w as int,
                h as int,
                spec_glyphs(border, charset),
            ),
            r is Err ==> final(self)@ == old(self)@,
    {
        let g = border.glyphs(charset);
        self.draw_rect(x, y, w, h, &g)
    }

    /// Grow the canvas by `extra` blank rows at the bottom.
    pub fn extend_vertical(&mut self, extra: usize)
        requires
            old(self)@.wf(),
            old(self)@.height + extra <= usize::MAX,
        ensures
            final(self)@.wf(),
            final(self)@ == (CanvasView {
                height: old(self)@.height + extra as nat,
                grid: old(self)@.grid + blank_grid(old(self)@.width, extra as nat),
                ..old(self)@
            }),
    {
        proof { self.lemma_rows(); }
        let ghost start = self@;
        let mut k: usize = 0;
        while k < extra
            invariant
                k <= extra,
                self.width == start.width,
                self.rows@.len() == start.height + k,
                self@.log == start.log,
                self@.touched == start.touched,
                self.height == start.height,
                self@.grid == start.grid + blank_grid(start.width, k as nat),
            decreases extra - k,
        {
            let mut row: Vec<Cell> = Vec::new();
            let mut x: usize = 0;
            while x < self.width
                invariant
                    x <= self.width,
                    row@ == Seq::new(x as nat, |i: int| blank_cell()),
                decreases self.width - x,
            {
                row.push(Cell::blank());
                x = x + 1;
                assert(row@ =~= Seq::new(x as nat, |i: int| blank_cell()));
            }
            let ghost prev_grid = self@.grid;
            self.rows.push(row);
            k = k + 1;
            assert(self@.grid =~= prev_grid.push(Seq::new(start.width, |i: int| blank_cell())));
            assert(blank_grid(start.width, k as nat) =~= blank_grid(start.width, (k - 1) as nat).push(
                Seq::new(start.width, |i: int| blank_cell()),
            ));
            assert(self@.grid =~= start.grid + blank_grid(start.width, k as nat));
        }
        self.height = self.height + extra;
    }

    /// Grow the canvas on the right by `extra` blank columns; every
    /// existing cell keeps its place and content.
    pub fn extend_horizontal(&mut self, extra: usize)
        requires
            old(self)@.wf(),
            old(self)@.width + extra <= usize::MAX,
        ensures
            final(self)@.wf(),
            final(self)@ == (CanvasView {
                width: old(self)@.width + extra as nat,
                grid: widen_grid(old(self)@.grid, extra as nat),
                ..old(self)@
            }),
    {
        proof { self.lemma_rows(); }
        let ghost start = self@;
        let new_w = self.width + extra;
        let mut rows: Vec<Vec<Cell>> = Vec::new();
        let mut y: usize = 0;
        while y < self.height
            invariant
                y <= self.height,
                self@ == start,
                self.rows@.len() == self.height,
                start.wf(),
                new_w == start.width + extra,
                rows@.len() == y,
                forall|i: int| 0 <= i < y ==> (#[trigger] rows@[i])@ == start.grid[i] + Seq::new(extra as nat, |x: int| blank_cell()),
            decreases self.height - y,
        {
            let mut row: Vec<Cell> = Vec::new();
            let ghost old_row = start.grid[y as int];
            assert(self.rows@[y as int]@ == old_row);
            let mut x: usize = 0;
            while x < self.width
                invariant
                    x <= self.width,
                    self.width == start.width,
                    old_row.len() == start.width,
                    y < self.rows@.len(),
                    self.rows@[y as int]@ == old_row,
                    row@ == old_row.take(x as int),
                decreases self.width - x,
            {
                row.push(self.rows[y][x]);
                x = x + 1;
                assert(row@ =~= old_row.take(x as int));
            }
            let mut k: usize = 0;
            while k < extra
                invariant
                    k <= extra,
                    old_row.len() == start.width,
                    row@ == old_row + Seq::new(k as nat, |i: int| blank_cell()),
                decreases extra - k,
            {
                row.push(Cell::blank());
                k = k + 1;
                assert(row@ =~= old_row + Seq::new(k as nat, |i: int| blank_cell()));
            }
            assert(old_row.take(start.width as int) =~= old_row);
            rows.push(row);
            y = y + 1;
        }
        self.rows = rows;
        self.width = new_w;
        assert(self@.grid =~= widen_grid(start.grid, extra as nat));
    }

    /// Grow the canvas to at least `min_height` rows.
    pub fn ensure_height(&mut self, min_height: usize)
        requires
            old(self)@.wf(),
        ensures
            final(self)@.wf(),
            old(self)@.height >= min_height ==> final(self)@ == old(self)@,
            old(self)@.height < min_height ==> final(self)@ == (CanvasView {
                height: min_height as nat,
                grid: old(self)@.grid + blank_grid(old(self)@.width, (min_height - old(self)@.height) as nat),
                ..old(self)@
            }),
    {
        if self.height < min_height {
            self.extend_vertical(min_height - self.height);
        }
    }

    /// Widen the canvas to at least `min_width` columns, growing it on
    /// the right (see [`Canvas::extend_horizontal`]).
    pub fn ensure_width(&mut self, min_width: usize)
        requires
            old(self)@.wf(),
        ensures
            final(self)@.wf(),
            old(self)@.width >= min_width ==> final(self)@ == old(self)@,
            old(self)@.width < min_width ==> final(self)@ == (CanvasView {
                width: min_width as nat,
                grid: widen_grid(old(self)@.grid, (min_width - old(self)@.width) as nat),
                ..old(self)@
            }),
    {
        if self.width < min_width {
            self.extend_horizontal(min_width - self.width);
        }
    }

    /// Reset every cell to the background.
    pub fn clear(&mut self)
        requires
            old(self)@.wf(),
        ensures
            final(self)@.wf(),
            final(self)@ == old(self)@.with_grid(blank_grid(old(self)@.width, old(self)@.height)),
    {
        proof { self.lemma_rows(); }
        let ghost start = self@;
        let mut y: usize = 0;
        while y < self.height
            invariant
                y <= self.height,
                self@.wf(),
                self.width == start.width,
                self.height == start.height,
                self@.log == start.log,
                self@.touched == start.touched,
                forall|r: int| 0 <= r < y ==> (#[trigger] self@.grid[r]) == Seq::new(start.width, |x: int| blank_cell()),
            decreases self.height - y,
        {
            let mut x: usize = 0;
            while x < self.width
                invariant
                    x <= self.width,
                    y < self.height,
                    self@.wf(),
                    self.width == start.width,
                    self.height == start.height,
                    self@.log == start.log,
                    self@.touched == start.touched,
                    forall|r: int| 0 <= r < y ==> (#[trigger] self@.grid[r]) == Seq::new(start.width, |x: int| blank_cell()),
                    forall|c: int| 0 <= c < x ==> (#[trigger] self@.grid[y as int][c]) == blank_cell(),
                decreases self.width - x,
            {
                proof { self.lemma_rows(); }
                let ghost before = self@;
                self.rows[y].set(x, Cell::blank());
                assert(self@.grid =~= before.grid.update(y as int, before.grid[y as int].update(x as int, blank_cell())));
                x = x + 1;
            }
            assert(self@.grid[y as int] =~= Seq::new(start.width, |x: int| blank_cell()));
            y = y + 1;
        }
        assert(self@.grid =~= blank_grid(start.width, start.height));
    }

    /// Set every cell to `ch` at `Layer::Background`, keeping its color.
    pub fn fill(&mut self, ch: char)
        requires
            old(self)@.wf(),
        ensures
            final(self)@.wf(),
            final(self)@ == old(self)@.with_grid(
                Seq::new(
                    old(self)@.height,
                    |y: int|
                        Seq::new(
                            old(self)@.width,
                            |x: int| Cell { ch, layer: Layer::Background, fg: old(self)@.grid[y][x].fg },
                        ),
                ),
            ),
    {
        proof { self.lemma_rows(); }
        let ghost start = self@;
        let mut y: usize = 0;
        while y < self.height
            invariant
                y <= self.height,
                self@.wf(),
                self.width == start.width,
                self.height == start.height,
                self@.log == start.log,
                self@.touched == start.touched,
                forall|r: int| 0 <= r < y ==> (#[trigger] self@.grid[r]) == Seq::new(
                    start.width,
                    |x: int| Cell { ch, layer: Layer::Background, fg: start.grid[r][x].fg },
                ),
                forall|r: int| y <= r < start.height ==> (#[trigger] self@.grid[r]) == start.grid[r],
            decreases self.height - y,
        {
            let mut x: usize = 0;
            while x < self.width
                invariant
                    x <= self.width,
                    y < self.height,
                    self@.wf(),
                    self.width == start.width,
                    self.height == start.height,
                    self@.log == start.log,
                    self@.touched == start.touched,
                    forall|r: int| 0 <= r < y ==> (#[trigger] self@.grid[r]) == Seq::new(
                        start.width,
                        |x: int| Cell { ch, layer: Layer::Background, fg: start.grid[r][x].fg },
                    ),
                    forall|r: int| y < r < start.height ==> (#[trigger] self@.grid[r]) == start.grid[r],
                    forall|c: int| 0 <= c < x ==> (#[trigger] self@.grid[y as int][c]) == (Cell {
                        ch,
                        layer: Layer::Background,
                        fg: start.grid[y as int][c].fg,
                    }),
                    forall|c: int| x <= c < start.width ==> (#[trigger] self@.grid[y as int][c]) == start.grid[y as int][c],
                decreases self.width - x,
            {
                proof { self.lemma_rows(); }
                let ghost before = self@;
                let fg = self.rows[y][x].fg;
                self.rows[y].set(x, Cell { ch, layer: Layer::Background, fg });
                assert(self@.grid =~= before.grid.update(
                    y as int,
                    before.grid[y as int].update(x as int, Cell { ch, layer: Layer::Background, fg }),
                ));
                x = x + 1;
            }
            assert(self@.grid[y as int] =~= Seq::new(
                start.width,
                |x: int| Cell { ch, layer: Layer::Background, fg: start.grid[y as int][x].fg },
            ));
            y = y + 1;
        }
        assert(self@.grid =~= Seq::new(
            start.height,
            |y: int|
                Seq::new(
                    start.width,
                    |x: int| Cell { ch, layer: Layer::Background, fg: start.grid[y][x].fg },
                ),
        ));
    }

    /// True when `(x, y)` holds a visible connector-line cell.
    fn is_connector_line(&self, x: usize, y: usize) -> (r: bool)
        requires
            self@.wf(),
        ensures
            r == self@.is_line(x as int, y as int),
    {
        match self.cell(x, y) {
            Some(cell) => cell.layer == Layer::Connector && cell.ch != ' ',
            None => false,
        }
    }

    /// The arms of the connector cell at `(x, y)`.
    fn connector_directions(&self, x: usize, y: usize) -> (d: Directions)
        requires
            self@.wf(),
            x < self@.width,
            y < self@.height,
        ensures
            d == self@.dirs(x as int, y as int),
    {
        Directions {
            n: y > 0 && self.is_connector_line(x, y - 1),
            s: y + 1 < self.height && self.is_connector_line(x, y + 1),
            e: x + 1 < self.width && self.is_connector_line(x + 1, y),
            w: x > 0 && self.is_connector_line(x - 1, y),
        }
    }

    /// True when `(x, y)` is a member of a junction run for the second
    /// repair pass (`+` for ASCII, a junction glyph for Unicode).
    fn is_run_at(&self, charset: Charset, x: usize, y: usize) -> (r: bool)
        requires
            self@.wf(),
        ensures
            r == (self@.in_bounds(x as int, y as int) && is_run_cell(charset, self@.cell(x as int, y as int))),
    {
        match charset {
            Charset::Ascii => self.is_plus_at_connector(x, y),
            Charset::Unicode => self.is_unicode_junction_at(x, y),
        }
    }

    fn is_plus_at_connector(&self, x: usize, y: usize) -> (r: bool)
        requires
            self@.wf(),
        ensures
            r == (self@.in_bounds(x as int, y as int) && is_run_cell(Charset::Ascii, self@.cell(x as int, y as int))),
    {
        match self.cell(x, y) {
            Some(cell) => cell.layer == Layer::Connector && cell.ch == '+',
            None => false,
        }
    }

    fn is_unicode_junction_at(&self, x: usize, y: usize) -> (r: bool)
        requires
            self@.wf(),
        ensures
            r == (self@.in_bounds(x as int, y as int) && is_run_cell(Charset::Unicode, self@.cell(x as int, y as int))),
    {
        match self.cell(x, y) {
            Some(cell) => {
                if cell.layer != Layer::Connector {
                    return false;
                }
                let c = cell.ch;
                c == '┌' || c == '┐' || c == '└' || c == '┘' || c == '├' || c == '┤' || c == '┬'
                    || c == '┴' || c == '┼' || c == '┏' || c == '┓' || c == '┗' || c == '┛' || c
                    == '┣' || c == '┫' || c == '┳' || c == '┻' || c == '╋'
            },
            None => false,
        }
    }

    /// Repair connector-line junctions so corners, tees, and crossings use
    /// the right glyph (see [`CanvasView::repaired`]). Call after all
    /// connectors are drawn.
    pub fn repair_connector_junctions(&mut self, style: LineStyle, charset: Charset)
        requires
            old(self)@.wf(),
        ensures
            final(self)@.wf(),
            final(self)@ == old(self)@.repaired(charset, style),
    {
        if charset == Charset::Ascii {
            self.repair_ascii_junctions(style);
        } else {
            self.repair_unicode_junctions(style);
        }
    }

    fn repair_ascii_junctions(&mut self, style: LineStyle)
        requires
            old(self)@.wf(),
        ensures
            final(self)@.wf(),
            final(self)@ == old(self)@.repaired(Charset::Ascii, style),
    {
        let ghost start = self@;
        self.repair_first_pass(Charset::Ascii, style);
        self.repair_second_pass(Charset::Ascii, style);
        assert(self@.grid =~= start.repaired(Charset::Ascii, style).grid);
    }

    fn repair_unicode_junctions(&mut self, style: LineStyle)
        requires
            old(self)@.wf(),
        ensures
            final(self)@.wf(),
            final(self)@ == old(self)@.repaired(Charset::Unicode, style),
    {
        let ghost start = self@;
        self.repair_first_pass(Charset::Unicode, style);
        self.repair_second_pass(Charset::Unicode, style);
        assert(self@.grid =~= start.repaired(Charset::Unicode, style).grid);
    }

    fn repair_first_pass(&mut self, charset: Charset, style: LineStyle)
        requires
            old(self)@.wf(),
        ensures
            final(self)@.wf(),
            final(self)@.width == old(self)@.width,
            final(self)@.height == old(self)@.height,
            final(self)@.log == old(self)@.log,
            final(self)@.touched == old(self)@.touched + old(self)@.fired_above(charset, style, old(self)@.height as int),
            final(self)@.grid == Seq::new(old(self)@.height, |y: int| old(self)@.pass1_row(charset, style, y)),
    {
        let ghost start = self@;
        let mut y: usize = 0;
        while y < self.height
            invariant
                y <= self.height,
                self@.wf(),
                self@.width == start.width,
                self@.height == start.height,
                self@.log == start.log,
                self@.touched == start.touched + start.fired_above(charset, style, y as int),
                forall|r: int| 0 <= r < y ==> (#[trigger] self@.grid[r]) == start.pass1_row(charset, style, r),
                forall|r: int| y <= r < start.height ==> (#[trigger] self@.grid[r]) == start.grid[r],
                forall|px: int, py: int| #[trigger] self@.is_line(px, py) == start.is_line(px, py),
            decreases self.height - y,
        {
            let mut x: usize = 0;
            while x < self.width
                invariant
                    x <= self.width,
                    y < self.height,
                    self@.wf(),
                    self@.width == start.width,
                    self@.height == start.height,
                    self@.log == start.log,
                    self@.touched == start.touched + start.fired_above(charset, style, y as int)
                        + start.fired_in_row(charset, style, y as int, x as int),
                    forall|r: int| 0 <= r < y ==> (#[trigger] self@.grid[r]) == start.pass1_row(charset, style, r),
                    forall|r: int| y < r < start.height ==> (#[trigger] self@.grid[r]) == start.grid[r],
                    forall|c: int| 0 <= c < x ==> (#[trigger] self@.grid[y as int][c]) == start.pass1_cell(charset, style, c, y as int),
                    forall|c: int| x <= c < start.width ==> (#[trigger] self@.grid[y as int][c]) == start.grid[y as int][c],
                    forall|px: int, py: int| #[trigger] self@.is_line(px, py) == start.is_line(px, py),
                decreases self.width - x,
            {
                let ghost before = self@;
                assert(before.dirs(x as int, y as int) == start.dirs(x as int, y as int)) by {
                    assert(before.is_line(x as int, y - 1) == start.is_line(x as int, y - 1));
                    assert(before.is_line(x as int, y + 1) == start.is_line(x as int, y + 1));
                    assert(before.is_line(x + 1, y as int) == start.is_line(x + 1, y as int));
                    assert(before.is_line(x - 1, y as int) == start.is_line(x - 1, y as int));
                }
                assert(before.is_line(x as int, y as int) == start.is_line(x as int, y as int));
                let mut fired = false;
                if self.is_connector_line(x, y) {
                    let d = self.connector_directions(x, y);
                    let g = match charset {
                        Charset::Ascii => if (d.e || d.w) && (d.n || d.s) { Some('+') } else { None },
                        Charset::Unicode => junction_char(d, style),
                    };
                    if let Some(ch) = g {
                        self.put_layered(x, y, ch, Layer::Connector, None);
                        self.repair_touched.push((x, y));
                        fired = true;
                        assert forall|px: int, py: int| #[trigger] self@.is_line(px, py) == start.is_line(px, py) by {
                            assert(before.is_line(px, py) == start.is_line(px, py));
                        }
                    }
                }
                assert(fired == start.fires(charset, style, x as int, y as int));
                assert(start.fired_in_row(charset, style, y as int, x + 1) == start.fired_in_row(charset, style, y as int, x as int)
                    + if fired { seq![(x, y)] } else { Seq::<(usize, usize)>::empty() });
                if !fired {
                    assert(self@ == before);
                }
                assert(self@.touched =~= start.touched + start.fired_above(charset, style, y as int)
                    + start.fired_in_row(charset, style, y as int, x + 1));
                x = x + 1;
            }
            assert(self@.grid[y as int] =~= start.pass1_row(charset, style, y as int));
            assert(start.fired_above(charset, style, y + 1) == start.fired_above(charset, style, y as int)
                + start.fired_in_row(charset, style, y as int, start.width as int));
            y = y + 1;
        }
        assert(self@.grid =~= Seq::new(start.height, |y: int| start.pass1_row(charset, style, y)));
    }

    fn repair_second_pass(&mut self, charset: Charset, style: LineStyle)
        requires
            old(self)@.wf(),
        ensures
            final(self)@.wf(),
            final(self)@.width == old(self)@.width,
            final(self)@.height == old(self)@.height,
            final(self)@.log == old(self)@.log,
            final(self)@.touched == old(self)@.touched,
            final(self)@.grid == Seq::new(old(self)@.height, |y: int| unrun_row(old(self)@.grid[y], charset, style)),
    {
        let ghost start = self@;
        let fill = match charset {
            Charset::Ascii => '-',
            Charset::Unicode => match style {
                LineStyle::Bold => '━',
                _ => '─',
            },
        };
        let mut y: usize = 0;
        while y < self.height
            invariant
                y <= self.height,
                self@.wf(),
                self@.width == start.width,
                self@.height == start.height,
                self@.log == start.log,
                self@.touched == start.touched,
                fill == run_fill(charset, style),
                start.wf(),
                forall|r: int| 0 <= r < y ==> (#[trigger] self@.grid[r]) == unrun_row(start.grid[r], charset, style),
                forall|r: int| y <= r < start.height ==> (#[trigger] self@.grid[r]) == start.grid[r],
            decreases self.height - y,
        {
            let ghost row = start.grid[y as int];
            assert(start.grid[y as int].len() == start.width);
            let mut x: usize = 0;
            while x < self.width
                invariant
                    x <= self.width,
                    y < self.height,
                    self@.wf(),
                    self@.width == start.width,
                    self@.height == start.height,
                    self@.log == start.log,
                    self@.touched == start.touched,
                    fill == run_fill(charset, style),
                    row == start.grid[y as int],
                    row.len() == start.width,
                    x == 0 || !is_run_cell(charset, row[x - 1]) || x == start.width || !is_run_cell(charset, row[x as int]),
                    forall|r: int| 0 <= r < y ==> (#[trigger] self@.grid[r]) == unrun_row(start.grid[r], charset, style),
                    forall|r: int| y < r < start.height ==> (#[trigger] self@.grid[r]) == start.grid[r],
                    forall|c: int| 0 <= c < x ==> (#[trigger] self@.grid[y as int][c]) == unrun_row(row, charset, style)[c],
                    forall|c: int| x <= c < start.width ==> (#[trigger] self@.grid[y as int][c]) == row[c],
                decreases self.width - x,
            {
                if !self.is_run_at(charset, x, y) {
                    x = x + 1;
                    continue;
                }
                let run_start = x;
                let ghost grid_at_run = self@.grid;
                while x < self.width && self.is_run_at(charset, x, y)
                    invariant
                        run_start <= x <= self.width,
                        y < self.height,
                        self@.wf(),
                        self@.width == start.width,
                        self@.height == start.height,
                        self@.grid == grid_at_run,
                        self@.log == start.log,
                        self@.touched == start.touched,
                        row == start.grid[y as int],
                        row.len() == start.width,
                        forall|c: int| x <= c < start.width ==> (#[trigger] self@.grid[y as int][c]) == row[c],
                        forall|c: int| run_start <= c < x ==> #[trigger] is_run_cell(charset, row[c]),
                        forall|c: int| run_start <= c < x ==> run_streak(row, charset, c) == c - run_start,
                        run_start == 0 || !is_run_cell(charset, row[run_start - 1]),
                    decreases self.width - x,
                {
                    proof {
                        assert(is_run_cell(charset, row[x as int]));
                        if x > run_start {
                            assert(run_streak(row, charset, x as int) == 1 + run_streak(row, charset, x - 1));
                        } else {
                            if x > 0 {
                                assert(run_streak(row, charset, x as int) == 0);
                            }
                        }
                    }
                    x = x + 1;
                }
                let run_len = x - run_start;
                let mut i: usize = 1;
                while i < run_len
                    invariant
                        1 <= i,
                        i <= run_len + 1,
                        i % 2 == 1,
                        run_len == x - run_start,
                        run_start < x <= self.width,
                        y < self.height,
                        self@.wf(),
                        self@.width == start.width,
                        self@.height == start.height,
                        self@.log == start.log,
                        self@.touched == start.touched,
                        fill == run_fill(charset, style),
                        row == start.grid[y as int],
                        row.len() == start.width,
                        forall|c: int| run_start <= c < x ==> #[trigger] is_run_cell(charset, row[c]),
                        forall|c: int| run_start <= c < x ==> run_streak(row, charset, c) == c - run_start,
                        forall|r: int| 0 <= r < y ==> (#[trigger] self@.grid[r]) == unrun_row(start.grid[r], charset, style),
                        forall|r: int| y < r < start.height ==> (#[trigger] self@.grid[r]) == start.grid[r],
                        forall|c: int| 0 <= c < run_start ==> (#[trigger] self@.grid[y as int][c]) == unrun_row(row, charset, style)[c],
                        forall|c: int| run_start + i <= c < start.width ==> (#[trigger] self@.grid[y as int][c]) == row[c],
                        forall|c: int| x <= c < start.width ==> (#[trigger] self@.grid[y as int][c]) == row[c],
                        forall|c: int| run_start <= c < run_start + i && c < x ==> (#[trigger] self@.grid[y as int][c]) == unrun_row(row, charset, style)[c],
                    decreases run_len + 1 - i,
                {
                    let ghost before = self@;
                    self.put_layered(run_start + i, y, fill, Layer::Connector, None);
                    proof {
                        let c = run_start + i;
                        assert(is_run_cell(charset, row[c as int]));
                        assert(run_streak(row, charset, c as int) % 2 == 1);
                        assert(self@.grid[y as int][c as int] == unrun_row(row, charset, style)[c as int]);
                        if c + 1 < x {
                            assert(run_streak(row, charset, c + 1) % 2 == 0);
                            assert(self@.grid[y as int][c + 1] == unrun_row(row, charset, style)[c + 1]);
                        }
                    }
                    i = i + 2;
                }
                proof {
                    if run_len == 1 {
                        assert(run_streak(row, charset, run_start as int) == 0);
                        assert(self@.grid[y as int][run_start as int] == unrun_row(row, charset, style)[run_start as int]);
                    }
                    if x < start.width {
                        assert(!is_run_cell(charset, row[x as int]));
                    }
                }
                assert forall|c: int| 0 <= c < x implies (#[trigger] self@.grid[y as int][c]) == unrun_row(row, charset, style)[c] by {
                    if run_start <= c < x {
                        if c >= run_start + i {
                            assert(false);
                        }
                    }
                }
            }
            assert(self@.grid[y as int] =~= unrun_row(row, charset, style));
            y = y + 1;
        }
        assert(self@.grid =~= Seq::new(start.height, |y: int| unrun_row(start.grid[y], charset, style)));
    }

    fn junction_at(&self, x: usize, y: usize) -> (r: bool)
        requires
            self@.wf(),
        ensures
            r == self@.is_junction_at(x as int, y as int),
    {
        match self.cell(x, y) {
            Some(c) => c.layer == Layer::Connector && junction_glyph(c.ch),
            None => false,
        }
    }

    /// Rewrite crossings and unbacked junction arms from the recorded
    /// connector-line log (see [`CanvasView::crossing_pass`]). Call after
    /// [`Canvas::repair_connector_junctions`].
    pub fn apply_crossing_pass(&mut self, style: LineStyle, charset: Charset)
        requires
            old(self)@.wf(),
        ensures
            final(self)@.wf(),
            final(self)@ == old(self)@.crossing_pass(style, charset),
    {
        let ghost start = self@;
        let mut log: Vec<Segment> = Vec::new();
        std::mem::swap(&mut log, &mut self.line_log);
        let (hs, vs) = collect_spans(&log);
        let mut touched: Vec<(usize, usize)> = Vec::new();
        std::mem::swap(&mut touched, &mut self.repair_touched);
        let ghost v0 = self@;
        assert(v0 == (CanvasView { width: start.width, height: start.height, grid: start.grid, log: Seq::empty(), touched: Seq::empty() }));
        let mut k: usize = 0;
        assert(touched@.take(0) =~= Seq::<(usize, usize)>::empty());
        while k < touched.len()
            invariant
                k <= touched@.len(),
                self@.wf(),
                log@ == start.log,
                touched@ == start.touched,
                self@ == v0.validate_all(log@, style, charset, touched@.take(k as int)),
            decreases touched@.len() - k,
        {
            let (x, y) = touched[k];
            let ghost cur = self@;
            assert(touched@.take(k + 1).drop_last() =~= touched@.take(k as int));
            assert(touched@.take(k + 1).last() == (x, y));
            if self.junction_at(x, y) {
                let d = Directions {
                    n: y > 0 && covers_v(&log, x, y) && covers_v(&log, x, y - 1),
                    s: covers_v(&log, x, y) && covers_v(&log, x, y + 1),
                    e: covers_h(&log, x, y) && covers_h(&log, x + 1, y),
                    w: x > 0 && covers_h(&log, x, y) && covers_h(&log, x - 1, y),
                };
                assert(d == cover_dirs(log@, x as int, y as int));
                let current = match self.cell_char(x, y) {
                    Some(c) => c,
                    None => ' ',
                };
                let want = desired_glyph(d, style, charset, current);
                if want != current {
                    self.put_layered(x, y, want, Layer::Connector, None);
                }
            }
            k = k + 1;
        }
        assert(touched@.take(k as int) =~= touched@);
        let cps = crossing_cells(&hs, &vs);
        let ghost v1 = self@;
        let vglyph = match charset {
            Charset::Ascii => '|',
            Charset::Unicode => '│',
        };
        let mut k: usize = 0;
        assert(cps@.take(0) =~= Seq::<(usize, usize)>::empty());
        while k < cps.len()
            invariant
                k <= cps@.len(),
                self@.wf(),
                vglyph == (match charset {
                    Charset::Ascii => '|',
                    Charset::Unicode => '│',
                }),
                self@ == v1.gap_all(charset, cps@.take(k as int)),
            decreases cps@.len() - k,
        {
            let (x, y) = cps[k];
            assert(cps@.take(k + 1).drop_last() =~= cps@.take(k as int));
            assert(cps@.take(k + 1).last() == (x, y));
            self.put_layered(x, y, vglyph, Layer::Connector, None);
            if x > 1 && plain_h(self.cell_char(x - 1, y)) && !self.junction_at(x - 2, y) {
                self.put_layered(x - 1, y, ' ', Layer::Connector, None);
            }
            if x < usize::MAX && plain_h(self.cell_char(x + 1, y)) {
                let far_junction = if x <= usize::MAX - 2 {
                    self.junction_at(x + 2, y)
                } else {
                    false
                };
                if !far_junction {
                    self.put_layered(x + 1, y, ' ', Layer::Connector, None);
                }
            }
            k = k + 1;
        }
        assert(cps@.take(k as int) =~= cps@);
    }

    /// Render the canvas as text (see [`CanvasView::rendered`]). With
    /// `color`, ANSI escapes mark every change of foreground color.
    pub fn render(&self, color: bool) -> (r: String)
        requires
            self@.wf(),
        ensures
            r@ == self@.rendered(color),
    {
        let out = self.render_chars(color);
        crate::width::string_from_chars(out.as_slice())
    }

    /// The characters of [`Canvas::render`].
    pub fn render_chars(&self, color: bool) -> (out: Vec<char>)
        requires
            self@.wf(),
        ensures
            out@ == self@.rendered(color),
    {
        proof { self.lemma_rows(); }
        let mut out: Vec<char> = Vec::new();
        let mut y: usize = 0;
        while y < self.height
            invariant
                y <= self.height,
                self@.wf(),
                self.rows@.len() == self.height,
                forall|r: int| 0 <= r < self.rows@.len() ==> (#[trigger] self.rows@[r])@.len() == self.width,
                out@ == render_rows(self@.grid, color, y as int),
            decreases self.height - y,
        {
            let row = &self.rows[y];
            assert(row@ == self@.grid[y as int]);
            let mut end: usize = row.len();
            while end > 0 && row[end - 1].ch == ' '
                invariant
                    end <= row@.len(),
                    trim_len(row@, row@.len() as int) == trim_len(row@, end as int),
                decreases end,
            {
                end = end - 1;
            }
            assert(trim_len(row@, end as int) == end as int);
            let ghost base = out@;
            let mut i: usize = 0;
            if color {
                let mut cur: Option<Color> = None;
                while i < end
                    invariant
                        i <= end,
                        end <= row@.len(),
                        base + row_color(row@, 0, end as int, None) == out@ + row_color(row@, i as int, end as int, cur),
                    decreases end - i,
                {
                    let cell = row[i];
                    let ghost i0 = i as int;
                    let ghost cur0 = cur;
                    let ghost out0 = out@;
                    if cell.fg != cur {
                        cur = cell.fg;
                        match cur {
                            Some(c) => {
                                let mut code = c.fg_code();
                                out.append(&mut code);
                            },
                            None => {
                                let mut code = vec!['\x1b', '[', '0', 'm'];
                                assert(code@ =~= reset_code());
                                out.append(&mut code);
                            },
                        }
                    }
                    out.push(cell.ch);
                    let wide = width_or(cell.ch, 1) == 2;
                    i = i + 1;
                    if wide && i < end {
                        i = i + 1;
                    }
                    proof {
                        let next = if char_width_or(cell.ch, 1) == 2 { i0 + 2 } else { i0 + 1 };
                        assert(row_color(row@, next, end as int, cur) == row_color(row@, i as int, end as int, cur));
                        assert(out@ =~= out0 + (if cell.fg != cur0 { match cell.fg { Some(col) => color_code(col), None => reset_code() } } else { Seq::empty() }) + seq![cell.ch]);
                    }
                    assert(out@ + row_color(row@, i as int, end as int, cur) =~= base + row_color(row@, 0, end as int, None));
                }
                if cur.is_some() {
                    let mut code = vec!['\x1b', '[', '0', 'm'];
                    assert(code@ =~= reset_code());
                    out.append(&mut code);
                }
                assert(out@ =~= base + row_color(row@, 0, end as int, None));
            } else {
                while i < end
                    invariant
                        i <= end,
                        end <= row@.len(),
                        base + row_plain(row@, 0, end as int) == out@ + row_plain(row@, i as int, end as int),
                    decreases end - i,
                {
                    let cell = row[i];
                    let ghost i0 = i as int;
                    out.push(cell.ch);
                    let wide = width_or(cell.ch, 1) == 2;
                    i = i + 1;
                    if wide && i < end {
                        i = i + 1;
                    }
                    proof {
                        let next = if char_width_or(cell.ch, 1) == 2 { i0 + 2 } else { i0 + 1 };
                        assert(row_plain(row@, next, end as int) == row_plain(row@, i as int, end as int));
                    }
                    assert(out@ + row_plain(row@, i as int, end as int) =~= base + row_plain(row@, 0, end as int));
                }
                assert(out@ =~= base + row_plain(row@, 0, end as int));
            }
            out.push('\n');
            y = y + 1;
            assert(out@ =~= render_rows(self@.grid, color, y as int));
        }
        out
    }
}

} // verus!
