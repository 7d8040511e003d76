//! Width resolution and option parsing shared by the command handlers.

use vstd::prelude::*;
use crate::style::{HAlign, VAlign};
use crate::text::chars_eq;
use crate::width::chars_of;

verus! {

/// Fraction of the terminal width used as the default canvas, in
/// percent: a display margin keeps about a fifth of the terminal free.
pub const DEFAULT_WIDTH_PCT: usize = 80;

/// Terminal width assumed when the display cannot be measured.
pub const FALLBACK_TERMINAL_WIDTH: usize = 120;

/// The terminal width, in columns, when no display measurement is at
/// hand: 120.
pub fn terminal_width() -> (r: usize)
    ensures
        r == FALLBACK_TERMINAL_WIDTH,
{
    FALLBACK_TERMINAL_WIDTH
}

/// Apply the display margin to a terminal width.
pub fn apply_display_margin(cols: usize) -> (r: usize)
    requires
        cols <= usize::MAX / 100,
    ensures
        r == cols * DEFAULT_WIDTH_PCT / 100,
{
    cols * DEFAULT_WIDTH_PCT / 100
}

/// The default canvas width: the terminal width less the display margin.
pub fn default_width() -> (r: usize)
    ensures
        r == FALLBACK_TERMINAL_WIDTH * DEFAULT_WIDTH_PCT / 100,
{
    apply_display_margin(terminal_width())
}

/// The user's width when non-zero, else the default width.
pub fn resolve_width(user_width: usize) -> (r: usize)
    ensures
        user_width > 0 ==> r == user_width,
        user_width == 0 ==> r == FALLBACK_TERMINAL_WIDTH * DEFAULT_WIDTH_PCT / 100,
{
    if user_width > 0 {
        user_width
    } else {
        default_width()
    }
}

/// The horizontal alignment a name stands for: `center`, `right`, else
/// left.
pub open spec fn halign_named(s: Seq<char>) -> HAlign {
    if s == seq!['c', 'e', 'n', 't', 'e', 'r'] {
        HAlign::Center
    } else if s == seq!['r', 'i', 'g', 'h', 't'] {
        HAlign::Right
    } else {
        HAlign::Left
    }
}

/// The vertical alignment a name stands for: `middle`, `bottom`, else
/// top.
pub open spec fn valign_named(s: Seq<char>) -> VAlign {
    if s == seq!['m', 'i', 'd', 'd', 'l', 'e'] {
        VAlign::Middle
    } else if s == seq!['b', 'o', 't', 't', 'o', 'm'] {
        VAlign::Bottom
    } else {
        VAlign::Top
    }
}

/// Parse a horizontal alignment name (see [`halign_named`]).
pub fn parse_halign(s: &str) -> (r: HAlign)
    ensures
        r == halign_named(s@),
{
    let cs = chars_of(s);
    if chars_eq(cs.as_slice(), &['c', 'e', 'n', 't', 'e', 'r']) {
        HAlign::Center
    } else if chars_eq(cs.as_slice(), &['r', 'i', 'g', 'h', 't']) {
        HAlign::Right
    } else {
        HAlign::Left
    }
}

/// Parse a vertical alignment name (see [`valign_named`]).
pub fn parse_valign(s: &str) -> (r: VAlign)
    ensures
        r == valign_named(s@),
{
    let cs = chars_of(s);
    if chars_eq(cs.as_slice(), &['m', 'i', 'd', 'd', 'l', 'e']) {
        VAlign::Middle
    } else if chars_eq(cs.as_slice(), &['b', 'o', 't', 't', 'o', 'm']) {
        VAlign::Bottom
    } else {
        VAlign::Top
    }
}

} // verus!
