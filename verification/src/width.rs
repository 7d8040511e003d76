//! Display widths of characters and character sequences, taken from the
//! `unicode-width` crate, and conversions between `str`/`String` and the
//! `Vec<char>` buffers the verified text code works on.

use vstd::prelude::*;

verus! {

/// Display width of one character as `unicode_width` reports it
/// (`None` for control characters).
pub uninterp spec fn char_width(c: char) -> Option<usize>;

/// Display width of a character sequence as `unicode_width` reports it
/// for a string made of these characters.
pub uninterp spec fn chars_width(s: Seq<char>) -> usize;

/// True when every character is printable ASCII (U+0020 to U+007E).
pub open spec fn printable_ascii(s: Seq<char>) -> bool {
    forall|i: int| 0 <= i < s.len() ==> 0x20 <= (#[trigger] s[i]) as u32 && (s[i] as u32) < 0x7F
}

/// Width of one character with the crate's `None` (control character)
/// read as `d`.
pub open spec fn char_width_or(c: char, d: usize) -> usize {
    match char_width(c) {
        Some(w) => w,
        None => d,
    }
}

/// `UnicodeWidthChar::width`. The crate's source returns `Some(1)` for
/// printable ASCII, `None` exactly for the control characters below
/// U+0020 and from U+007F to U+009F, and otherwise a table entry that is
/// a `u8`. What the table holds for other characters is not stated.
#[verifier::external_body]
pub fn char_display_width(c: char) -> (r: Option<usize>)
    ensures
        r == char_width(c),
        (0x20 <= c as u32 && (c as u32) < 0x7F) ==> r == Some(1usize),
        r is None <==> ((c as u32) < 0x20 || (0x7F <= c as u32 && (c as u32) < 0xA0)),
        r is Some ==> r->0 <= 255,
{
    unicode_width::UnicodeWidthChar::width(c)
}

/// `unicode_width::char_iter_width`, documented as the string width that
/// `UnicodeWidthStr::width` gives for the same characters. Its source
/// folds over the characters from 0, so an empty sequence has width 0,
/// and it sums one column per character for printable ASCII text (none
/// of the crate's ligature rules involve those characters); for other
/// text the result (ligatures, emoji sequences) is not stated.
#[verifier::external_body]
pub fn seq_display_width(s: &[char]) -> (r: usize)
    ensures
        r == chars_width(s@),
        printable_ascii(s@) ==> r == s@.len(),
        s@.len() == 0 ==> r == 0,
{
    unicode_width::char_iter_width(s.iter().copied())
}

/// `String::from_iter` over characters: the string holding exactly `v`.
#[verifier::external_body]
pub fn string_from_chars(v: &[char]) -> (s: String)
    ensures
        s@ == v@,
{
    v.iter().collect()
}

/// The characters of `s`, in order.
pub fn chars_of(s: &str) -> (r: Vec<char>)
    ensures
        r@ == s@,
{
    let mut out: Vec<char> = Vec::new();
    for c in it: s.chars()
        invariant
            out@ == it.seq().take(it.index() as int),
            it.seq() == s@,
    {
        out.push(c);
    }
    out
}

/// Width of one character, control characters counted as `d` columns.
pub fn width_or(c: char, d: usize) -> (r: usize)
    ensures
        r == char_width_or(c, d),
        r <= 255 || r == d,
        (0x20 <= c as u32 && (c as u32) < 0x7F) ==> r == 1,
{
    match char_display_width(c) {
        Some(w) => w,
        None => d,
    }
}

/// Display width of a string.
pub fn str_width(s: &str) -> (r: usize)
    ensures
        r == chars_width(s@),
{
    let v = chars_of(s);
    seq_display_width(v.as_slice())
}

} // verus!
