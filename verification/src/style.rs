//! Drawing styles: character sets, line styles, border glyph sets,
//! alignment, padding, and terminal colors.

use vstd::prelude::*;

verus! {

/// Character set mode: plain ASCII or Unicode box-drawing glyphs.
#[derive(Clone, Copy, Debug, PartialEq, Eq, Structural)]
pub enum Charset {
    Ascii,
    Unicode,
}

/// Line style for connectors and arrows.
#[derive(Clone, Copy, Debug, PartialEq, Eq, Structural)]
pub enum LineStyle {
    Simple,
    Bold,
    BoxDrawing,
}

/// Border style for boxes, tables, and nodes.
#[derive(Clone, Copy, Debug, PartialEq, Eq, Structural)]
pub enum BorderStyle {
    Single,
    Double,
    Rounded,
    Dashed,
    Bold,
}

/// Horizontal text alignment.
#[derive(Clone, Copy, Debug, PartialEq, Eq, Structural)]
pub enum HAlign {
    Left,
    Center,
    Right,
}

/// Vertical text alignment.
#[derive(Clone, Copy, Debug, PartialEq, Eq, Structural)]
pub enum VAlign {
    Top,
    Middle,
    Bottom,
}

/// Combined horizontal and vertical alignment.
#[derive(Clone, Copy, Debug, PartialEq, Eq, Structural)]
pub struct Alignment {
    pub horizontal: HAlign,
    pub vertical: VAlign,
}

impl Alignment {
    /// Top-left alignment, the default for boxes.
    pub fn top_left() -> (r: Alignment)
        ensures
            r == (Alignment { horizontal: HAlign::Left, vertical: VAlign::Top }),
    {
        Alignment { horizontal: HAlign::Left, vertical: VAlign::Top }
    }
}

/// Padding inside a bordered region, in cells per side.
#[derive(Clone, Copy, Debug, PartialEq, Eq, Structural)]
pub struct Padding {
    pub horizontal: usize,
    pub vertical: usize,
}

impl Padding {
    /// No padding on either axis.
    pub fn none() -> (r: Padding)
        ensures
            r == (Padding { horizontal: 0, vertical: 0 }),
    {
        Padding { horizontal: 0, vertical: 0 }
    }
}

/// Foreground terminal colors.
#[derive(Clone, Copy, Debug, PartialEq, Eq, Structural)]
pub enum Color {
    Black,
    Red,
    Green,
    Yellow,
    Blue,
    Magenta,
    Cyan,
    White,
}

/// The ANSI SGR parameter digit of a color (30 + digit is its code).
pub open spec fn color_digit(c: Color) -> char {
    match c {
        Color::Black => '0',
        Color::Red => '1',
        Color::Green => '2',
        Color::Yellow => '3',
        Color::Blue => '4',
        Color::Magenta => '5',
        Color::Cyan => '6',
        Color::White => '7',
    }
}

/// The ANSI escape that selects a foreground color: ESC `[3` digit `m`.
pub open spec fn color_code(c: Color) -> Seq<char> {
    seq!['\x1b', '[', '3', color_digit(c), 'm']
}

/// The ANSI escape that resets all attributes: ESC `[0m`.
pub open spec fn reset_code() -> Seq<char> {
    seq!['\x1b', '[', '0', 'm']
}

impl Color {
    /// The ANSI foreground escape sequence for this color.
    pub fn fg_code(&self) -> (r: Vec<char>)
        ensures
            r@ == color_code(*self),
    {
        let d = match self {
            Color::Black => '0',
            Color::Red => '1',
            Color::Green => '2',
            Color::Yellow => '3',
            Color::Blue => '4',
            Color::Magenta => '5',
            Color::Cyan => '6',
            Color::White => '7',
        };
        let v = vec!['\x1b', '[', '3', d, 'm'];
        assert(v@ =~= color_code(*self));
        v
    }
}

/// The eleven glyphs that draw a bordered grid.
#[derive(Clone, Copy, Debug, PartialEq, Eq, Structural)]
pub struct BorderGlyphs {
    pub top_left: char,
    pub top_right: char,
    pub bottom_left: char,
    pub bottom_right: char,
    pub horizontal: char,
    pub vertical: char,
    pub tee_down: char,
    pub tee_up: char,
    pub tee_right: char,
    pub tee_left: char,
    pub cross: char,
}

/// Builds a glyph set from its eleven characters.
pub open spec fn glyph_set(
    tl: char,
    tr: char,
    bl: char,
    br: char,
    h: char,
    v: char,
    td: char,
    tu: char,
    tri: char,
    tle: char,
    x: char,
) -> BorderGlyphs {
    BorderGlyphs {
        top_left: tl,
        top_right: tr,
        bottom_left: bl,
        bottom_right: br,
        horizontal: h,
        vertical: v,
        tee_down: td,
        tee_up: tu,
        tee_right: tri,
        tee_left: tle,
        cross: x,
    }
}

/// The glyph set of a border style in a character set. ASCII borders
/// join at `+`; Unicode borders use the box-drawing family of the style.
pub open spec fn spec_glyphs(style: BorderStyle, charset: Charset) -> BorderGlyphs {
    match charset {
        Charset::Ascii => match style {
            BorderStyle::Double => glyph_set('+', '+', '+', '+', '=', '|', '+', '+', '+', '+', '+'),
            BorderStyle::Bold => glyph_set('+', '+', '+', '+', '=', '|', '+', '+', '+', '+', '+'),
            _ => glyph_set('+', '+', '+', '+', '-', '|', '+', '+', '+', '+', '+'),
        },
        Charset::Unicode => match style {
            BorderStyle::Single => glyph_set('┌', '┐', '└', '┘', '─', '│', '┬', '┴', '├', '┤', '┼'),
            BorderStyle::Double => glyph_set('╔', '╗', '╚', '╝', '═', '║', '╦', '╩', '╠', '╣', '╬'),
            BorderStyle::Rounded => glyph_set('╭', '╮', '╰', '╯', '─', '│', '┬', '┴', '├', '┤', '┼'),
            BorderStyle::Dashed => glyph_set('┌', '┐', '└', '┘', '╌', '╎', '┬', '┴', '├', '┤', '┼'),
            BorderStyle::Bold => glyph_set('┏', '┓', '┗', '┛', '━', '┃', '┳', '┻', '┣', '┫', '╋'),
        },
    }
}

impl BorderStyle {
    /// The canonical glyphs of this border style in `charset`.
    pub fn glyphs(&self, charset: Charset) -> (g: BorderGlyphs)
        ensures
            g == spec_glyphs(*self, charset),
    {
        match charset {
            Charset::Ascii => match self {
                BorderStyle::Double | BorderStyle::Bold => BorderGlyphs {
                    top_left: '+',
                    top_right: '+',
                    bottom_left: '+',
                    bottom_right: '+',
                    horizontal: '=',
                    vertical: '|',
                    tee_down: '+',
                    tee_up: '+',
                    tee_right: '+',
                    tee_left: '+',
                    cross: '+',
                },
                _ => BorderGlyphs {
                    top_left: '+',
                    top_right: '+',
                    bottom_left: '+',
                    bottom_right: '+',
                    horizontal: '-',
                    vertical: '|',
                    tee_down: '+',
                    tee_up: '+',
                    tee_right: '+',
                    tee_left: '+',
                    cross: '+',
                },
            },
            Charset::Unicode => match self {
                BorderStyle::Single => BorderGlyphs {
                    top_left: '┌',
                    top_right: '┐',
                    bottom_left: '└',
                    bottom_right: '┘',
                    horizontal: '─',
                    vertical: '│',
                    tee_down: '┬',
                    tee_up: '┴',
                    tee_right: '├',
                    tee_left: '┤',
                    cross: '┼',
                },
                BorderStyle::Double => BorderGlyphs {
                    top_left: '╔',
                    top_right: '╗',
                    bottom_left: '╚',
                    bottom_right: '╝',
                    horizontal: '═',
                    vertical: '║',
                    tee_down: '╦',
                    tee_up: '╩',
                    tee_right: '╠',
                    tee_left: '╣',
                    cross: '╬',
                },
                BorderStyle::Rounded => BorderGlyphs {
                    top_left: '╭',
                    top_right: '╮',
                    bottom_left: '╰',
                    bottom_right: '╯',
                    horizontal: '─',
                    vertical: '│',
                    tee_down: '┬',
                    tee_up: '┴',
                    tee_right: '├',
                    tee_left: '┤',
                    cross: '┼',
                },
                BorderStyle::Dashed => BorderGlyphs {
                    top_left: '┌',
                    top_right: '┐',
                    bottom_left: '└',
                    bottom_right: '┘',
                    horizontal: '╌',
                    vertical: '╎',
                    tee_down: '┬',
                    tee_up: '┴',
                    tee_right: '├',
                    tee_left: '┤',
                    cross: '┼',
                },
                BorderStyle::Bold => BorderGlyphs {
                    top_left: '┏',
                    top_right: '┓',
                    bottom_left: '┗',
                    bottom_right: '┛',
                    horizontal: '━',
                    vertical: '┃',
                    tee_down: '┳',
                    tee_up: '┻',
                    tee_right: '┣',
                    tee_left: '┫',
                    cross: '╋',
                },
            },
        }
    }
}

} // verus!
