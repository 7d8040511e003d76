//! Text processing: line splitting, word wrapping, display-width
//! splitting, and alignment.

use vstd::prelude::*;
use crate::style::HAlign;
use crate::width::{
    char_width, char_width_or, chars_of, chars_width, printable_ascii, seq_display_width,
    string_from_chars, width_or,
};

verus! {

// ---------------------------------------------------------------------
// Specification helpers
// ---------------------------------------------------------------------

/// `s` with every space removed.
pub open spec fn strip_spaces(s: Seq<char>) -> Seq<char>
    decreases s.len(),
{
    if s.len() == 0 {
        Seq::empty()
    } else if s.last() == ' ' {
        strip_spaces(s.drop_last())
    } else {
        strip_spaces(s.drop_last()).push(s.last())
    }
}

/// Removing spaces distributes over concatenation.
pub proof fn lemma_strip_add(a: Seq<char>, b: Seq<char>)
    ensures
        strip_spaces(a + b) == strip_spaces(a) + strip_spaces(b),
    decreases b.len(),
{
    if b.len() == 0 {
        assert(a + b =~= a);
    } else {
        lemma_strip_add(a, b.drop_last());
        assert((a + b).drop_last() =~= a + b.drop_last());
        assert((a + b).last() == b.last());
    }
}

/// The concatenation of a sequence of lines.
pub open spec fn concat(ls: Seq<Seq<char>>) -> Seq<char>
    decreases ls.len(),
{
    if ls.len() == 0 {
        Seq::empty()
    } else {
        concat(ls.drop_last()) + ls.last()
    }
}

/// The character sequences held by a sequence of strings.
pub open spec fn views(v: Seq<String>) -> Seq<Seq<char>> {
    v.map_values(|s: String| s@)
}

/// Index of the first `'\n'` at or after `i` (or `s.len()`).
pub open spec fn next_newline(s: Seq<char>, i: int) -> int
    decreases s.len() - i,
{
    if i >= s.len() {
        s.len() as int
    } else if s[i] == '\n' {
        i
    } else {
        next_newline(s, i + 1)
    }
}

/// The lines of `s` from index `i` on, as `str::lines` gives them: split
/// at `'\n'`, a `'\r'` just before a `'\n'` dropped, and no empty last
/// line after a final newline.
pub open spec fn lines_from(s: Seq<char>, i: int) -> Seq<Seq<char>>
    decreases s.len() - i,
{
    if i >= s.len() || i < 0 {
        Seq::empty()
    } else {
        let j = next_newline(s, i);
        proof {
            lemma_next_newline_range(s, i);
        }
        let piece = s.subrange(i, j);
        let line = if j < s.len() && piece.len() > 0 && piece.last() == '\r' {
            piece.drop_last()
        } else {
            piece
        };
        if j >= s.len() {
            seq![line]
        } else {
            seq![line] + lines_from(s, j + 1)
        }
    }
}

/// The lines of `s` (see [`lines_from`]).
pub open spec fn lines_of(s: Seq<char>) -> Seq<Seq<char>> {
    lines_from(s, 0)
}

/// Printable ASCII text, possibly spread over several lines.
pub open spec fn plain_text(s: Seq<char>) -> bool {
    forall|i: int|
        0 <= i < s.len() ==> (#[trigger] s[i]) == '\n' || (0x20 <= s[i] as u32 && (s[i] as u32)
            < 0x7F)
}

/// Sum of the display widths of the characters of `s`, control
/// characters counted as zero.
pub open spec fn width_sum(s: Seq<char>) -> int
    decreases s.len(),
{
    if s.len() == 0 {
        0
    } else {
        width_sum(s.drop_last()) + char_width_or(s.last(), 0)
    }
}

/// `s` holds no space.
pub open spec fn no_space(s: Seq<char>) -> bool {
    forall|i: int| 0 <= i < s.len() ==> #[trigger] s[i] != ' '
}

/// The character sequences held by a sequence of buffers.
pub open spec fn vv(v: Seq<Vec<char>>) -> Seq<Seq<char>> {
    v.map_values(|l: Vec<char>| l@)
}

/// `n` spaces.
pub open spec fn spaces(n: nat) -> Seq<char> {
    Seq::new(n, |i: int| ' ')
}

/// The character is wide (CJK and the like): the crate gives it a
/// display width of at least 2.
pub open spec fn spec_is_cjk(c: char) -> bool {
    match char_width(c) {
        Some(w) => w >= 2,
        None => false,
    }
}

/// `s.take(k)` is the longest prefix of `s` whose summed width fits in
/// `width`.
pub open spec fn longest_fit(s: Seq<char>, width: int, k: int) -> bool {
    0 <= k <= s.len() && width_sum(s.take(k)) <= width && (k == s.len() || width_sum(s.take(k + 1))
        > width)
}

/// Where `split_at_display_width` cuts `s`: after the longest prefix
/// whose summed width fits in `width`, but after at least one character.
pub open spec fn split_point(s: Seq<char>, width: int) -> int {
    let k = choose|k: int| #[trigger] longest_fit(s, width, k);
    if k == 0 && s.len() > 0 {
        1
    } else {
        k
    }
}

/// `line` padded with spaces to `width` columns (its display width
/// taken as `lw`), placed as `align` says.
pub open spec fn aligned_line(line: Seq<char>, lw: int, width: int, align: HAlign) -> Seq<char> {
    let pad: nat = if width > lw {
        (width - lw) as nat
    } else {
        0
    };
    match align {
        HAlign::Left => line + spaces(pad),
        HAlign::Right => spaces(pad) + line,
        HAlign::Center => spaces(pad / 2) + line + spaces((pad - pad / 2) as nat),
    }
}

/// `r` is `text` (of display width `tw`) set in `width` columns as
/// `align` says: unchanged when it fills them, else padded with spaces
/// to the column count, the text starting after none of the padding
/// (left), all of it (right), or half of it rounded down (center), the
/// rest of the padding following the text.
pub open spec fn padded_as(r: Seq<char>, text: Seq<char>, tw: int, width: int, align: HAlign) -> bool {
    if tw >= width {
        r == text
    } else {
        let pad = width - tw;
        let lead = match align {
            HAlign::Left => 0,
            HAlign::Right => pad,
            HAlign::Center => pad / 2,
        };
        &&& r.len() == text.len() + pad
        &&& forall|i: int| 0 <= i < lead ==> r[i] == ' '
        &&& r.subrange(lead, lead + text.len()) == text
        &&& forall|i: int| lead + text.len() <= i < r.len() ==> r[i] == ' '
    }
}

/// Alignment: a line is set in its columns with the padding split as
/// its alignment asks (see [`padded_as`]).
pub proof fn law_aligned_line_padding(line: Seq<char>, lw: int, width: int, align: HAlign)
    ensures
        padded_as(aligned_line(line, lw, width, align), line, lw, width, align),
{
    let r = aligned_line(line, lw, width, align);
    if lw >= width {
        assert(r =~= line);
    } else {
        let pad = (width - lw) as nat;
        match align {
            HAlign::Left => {
                assert(r.subrange(0, line.len() as int) =~= line);
            },
            HAlign::Right => {
                assert(r.subrange(pad as int, (pad + line.len()) as int) =~= line);
            },
            HAlign::Center => {
                assert(r.subrange((pad / 2) as int, (pad / 2 + line.len()) as int) =~= line);
            },
        }
    }
}

/// Widest display width among `ls` (0 for none).
pub open spec fn widest(ls: Seq<Seq<char>>) -> usize
    decreases ls.len(),
{
    if ls.len() == 0 {
        0
    } else {
        let w = chars_width(ls.last());
        let m = widest(ls.drop_last());
        if w > m {
            w
        } else {
            m
        }
    }
}

proof fn lemma_concat_push(ls: Seq<Seq<char>>, l: Seq<char>)
    ensures
        concat(ls.push(l)) == concat(ls) + l,
{
    assert(ls.push(l).drop_last() =~= ls);
}

proof fn lemma_concat_add(a: Seq<Seq<char>>, b: Seq<Seq<char>>)
    ensures
        concat(a + b) == concat(a) + concat(b),
    decreases b.len(),
{
    if b.len() == 0 {
        assert(a + b =~= a);
        assert(concat(a) + concat(b) =~= concat(a));
    } else {
        lemma_concat_add(a, b.drop_last());
        assert((a + b).drop_last() =~= a + b.drop_last());
        assert(concat(a) + (concat(b.drop_last()) + b.last()) =~= (concat(a) + concat(
            b.drop_last(),
        )) + b.last());
    }
}

proof fn lemma_width_sum_push(s: Seq<char>, c: char)
    ensures
        width_sum(s.push(c)) == width_sum(s) + char_width_or(c, 0),
{
    assert(s.push(c).drop_last() =~= s);
}

proof fn lemma_width_sum_mono(s: Seq<char>, i: int, j: int)
    requires
        0 <= i <= j <= s.len(),
    ensures
        width_sum(s.take(i)) <= width_sum(s.take(j)),
    decreases j - i,
{
    if i < j {
        lemma_width_sum_mono(s, i, j - 1);
        assert(s.take(j).drop_last() =~= s.take(j - 1));
    }
}

pub proof fn lemma_next_newline_range(s: Seq<char>, i: int)
    requires
        0 <= i <= s.len(),
    ensures
        i <= next_newline(s, i) <= s.len(),
        next_newline(s, i) < s.len() ==> s[next_newline(s, i)] == '\n',
        forall|k: int| i <= k < next_newline(s, i) ==> s[k] != '\n',
    decreases s.len() - i,
{
    if i < s.len() && s[i] != '\n' {
        lemma_next_newline_range(s, i + 1);
    }
}

proof fn lemma_strip_no_space(s: Seq<char>)
    requires
        forall|i: int| 0 <= i < s.len() ==> s[i] != ' ',
    ensures
        strip_spaces(s) == s,
    decreases s.len(),
{
    if s.len() > 0 {
        lemma_strip_no_space(s.drop_last());
        assert(s.drop_last().push(s.last()) =~= s);
    }
}

proof fn lemma_strip_spaces_only(n: nat)
    ensures
        strip_spaces(spaces(n)) == Seq::<char>::empty(),
    decreases n,
{
    if n > 0 {
        lemma_strip_spaces_only((n - 1) as nat);
        assert(spaces(n).drop_last() =~= spaces((n - 1) as nat));
    }
}

proof fn lemma_lines_plain(s: Seq<char>, i: int)
    requires
        plain_text(s),
        0 <= i,
    ensures
        forall|k: int|
            0 <= k < lines_from(s, i).len() ==> printable_ascii(#[trigger] lines_from(s, i)[k]),
    decreases s.len() - i,
{
    if i < s.len() {
        let j = next_newline(s, i);
        lemma_next_newline_range(s, i);
        let piece = s.subrange(i, j);
        assert(printable_ascii(piece)) by {
            assert forall|t: int| 0 <= t < piece.len() implies 0x20 <= (#[trigger] piece[t]) as u32
                && (piece[t] as u32) < 0x7F by {
                assert(piece[t] == s[i + t]);
                assert(s[i + t] != '\n');
            }
        }
        if j < s.len() {
            lemma_lines_plain(s, j + 1);
            let rest = lines_from(s, j + 1);
            let line = lines_from(s, i)[0];
            assert(printable_ascii(line));
            assert forall|k: int| 0 <= k < lines_from(s, i).len() implies printable_ascii(
                #[trigger] lines_from(s, i)[k],
            ) by {
                if k > 0 {
                    assert(lines_from(s, i)[k] == rest[k - 1]);
                }
            }
        }
    }
}

// ---------------------------------------------------------------------
// Executable functions
// ---------------------------------------------------------------------

/// The decimal digit for `d` (0 to 9).
pub open spec fn digit_char(d: nat) -> char {
    if d == 0 { '0' } else if d == 1 { '1' } else if d == 2 { '2' } else if d == 3 { '3' }
    else if d == 4 { '4' } else if d == 5 { '5' } else if d == 6 { '6' } else if d == 7 { '7' }
    else if d == 8 { '8' } else { '9' }
}

/// The decimal notation of `n`.
pub open spec fn decimal(n: nat) -> Seq<char>
    decreases n,
{
    if n < 10 {
        seq![digit_char(n)]
    } else {
        decimal(n / 10).push(digit_char(n % 10))
    }
}

fn digit_exec(d: usize) -> (r: char)
    requires
        d < 10,
    ensures
        r == digit_char(d as nat),
{
    if d == 0 { '0' } else if d == 1 { '1' } else if d == 2 { '2' } else if d == 3 { '3' }
    else if d == 4 { '4' } else if d == 5 { '5' } else if d == 6 { '6' } else if d == 7 { '7' }
    else if d == 8 { '8' } else { '9' }
}

/// The decimal notation of `n`.
pub fn decimal_chars(n: usize) -> (r: Vec<char>)
    ensures
        r@ == decimal(n as nat),
    decreases n,
{
    if n < 10 {
        let v = vec![digit_exec(n)];
        assert(v@ =~= seq![digit_char(n as nat)]);
        v
    } else {
        let mut v = decimal_chars(n / 10);
        v.push(digit_exec(n % 10));
        v
    }
}

/// True when the two character sequences are equal.
pub fn chars_eq(a: &[char], b: &[char]) -> (r: bool)
    ensures
        r == (a@ == b@),
{
    if a.len() != b.len() {
        return false;
    }
    let mut i: usize = 0;
    while i < a.len()
        invariant
            a@.len() == b@.len(),
            i <= a@.len(),
            forall|k: int| 0 <= k < i ==> a@[k] == b@[k],
        decreases a@.len() - i,
    {
        if a[i] != b[i] {
            return false;
        }
        i = i + 1;
    }
    assert(a@ =~= b@);
    true
}

/// An owned copy of `s`.
pub fn message(s: &str) -> (r: String)
    ensures
        r@ == s@,
{
    s.to_owned()
}

/// The lines of `s`, as `str::lines` splits them.
pub fn split_lines(s: &[char]) -> (r: Vec<Vec<char>>)
    ensures
        r@.map_values(|l: Vec<char>| l@) == lines_of(s@),
{
    let mut out: Vec<Vec<char>> = Vec::new();
    let mut start: usize = 0;
    while start < s.len()
        invariant
            start <= s@.len(),
            out@.map_values(|l: Vec<char>| l@) + lines_from(s@, start as int) == lines_of(s@),
        decreases s@.len() - start,
    {
        let mut j: usize = start;
        while j < s.len() && s[j] != '\n'
            invariant
                start <= j <= s@.len(),
                next_newline(s@, start as int) == next_newline(s@, j as int),
            decreases s@.len() - j,
        {
            j = j + 1;
        }
        let mut piece: Vec<char> = Vec::new();
        let mut k: usize = start;
        while k < j
            invariant
                start <= k <= j <= s@.len(),
                piece@ == s@.subrange(start as int, k as int),
            decreases j - k,
        {
            piece.push(s[k]);
            k = k + 1;
        }
        if j < s.len() && piece.len() > 0 && piece[piece.len() - 1] == '\r' {
            piece.pop();
        }
        let ghost before = out@.map_values(|l: Vec<char>| l@);
        out.push(piece);
        assert(out@.map_values(|l: Vec<char>| l@) =~= before.push(piece@));
        if j >= s.len() {
            assert(lines_from(s@, j as int + 1) == Seq::<Seq<char>>::empty());
            assert(before + lines_from(s@, start as int) =~= before.push(piece@));
            start = j;
        } else {
            assert(before + lines_from(s@, start as int) =~= before.push(piece@) + lines_from(
                s@,
                j as int + 1,
            ));
            start = j + 1;
        }
    }
    assert(lines_from(s@, start as int) == Seq::<Seq<char>>::empty());
    assert(out@.map_values(|l: Vec<char>| l@) =~= lines_of(s@));
    out
}

/// Check if a character is a CJK or CJK-adjacent character (wide
/// display width).
pub fn is_cjk(ch: char) -> (r: bool)
    ensures
        r == spec_is_cjk(ch),
{
    match crate::width::char_display_width(ch) {
        Some(w) => w >= 2,
        None => false,
    }
}

// ---------------------------------------------------------------------
// Greedy wrapping, as a specification
// ---------------------------------------------------------------------

/// A token and whether a space stood before it.
pub open spec fn tok_views(v: Seq<(Vec<char>, bool)>) -> Seq<(Seq<char>, bool)> {
    v.map_values(|t: (Vec<char>, bool)| (t.0@, t.1))
}

/// A character that ends a token and stays attached to it.
pub open spec fn is_separator(c: char) -> bool {
    c == '_' || c == '-' || c == '.' || c == '/'
}

/// Tokenizer state after the first `i` characters of `text`: the
/// finished tokens, the token being built, and whether a space came
/// before it.
pub open spec fn tok_state(text: Seq<char>, i: int) -> (Seq<(Seq<char>, bool)>, Seq<char>, bool)
    decreases i,
{
    if i <= 0 {
        (Seq::empty(), Seq::empty(), false)
    } else {
        let (ts, cur, af) = tok_state(text, i - 1);
        let ch = text[i - 1];
        if ch == ' ' {
            if cur.len() > 0 {
                (ts.push((cur, af)), Seq::empty(), true)
            } else {
                (ts, cur, true)
            }
        } else if is_separator(ch) {
            (ts.push((cur.push(ch), af)), Seq::empty(), false)
        } else if cur.len() > 0 && spec_is_cjk(cur.last()) != spec_is_cjk(ch) {
            (ts.push((cur, af)), seq![ch], false)
        } else {
            (ts, cur.push(ch), af)
        }
    }
}

/// The tokens of one line (see [`tokenize`]).
pub open spec fn spec_tokens(text: Seq<char>) -> Seq<(Seq<char>, bool)> {
    let (ts, cur, af) = tok_state(text, text.len() as int);
    if cur.len() > 0 {
        ts.push((cur, af))
    } else {
        ts
    }
}

/// A token too wide for `w` columns cut into full lines, each the
/// longest prefix that fits, and the part left for the next line.
pub open spec fn spec_break(rem: Seq<char>, w: int) -> (Seq<Seq<char>>, Seq<char>)
    decreases rem.len(),
{
    if rem.len() == 0 || chars_width(rem) <= w {
        (Seq::empty(), rem)
    } else {
        let k = split_point(rem, w);
        if 1 <= k <= rem.len() {
            let (more, left) = spec_break(rem.skip(k), w);
            (seq![rem.take(k)] + more, left)
        } else {
            (seq![rem], Seq::empty())
        }
    }
}

/// Greedy packing state after the first `t` tokens: the finished lines,
/// the line being filled, and its width. A token joins the current line
/// (after one space where the input had one) when it fits; otherwise the
/// line is closed and the token starts the next one, cut up first when
/// it is wider than a whole line.
pub open spec fn pack(toks: Seq<(Seq<char>, bool)>, w: int, t: int) -> (Seq<Seq<char>>, Seq<char>, int)
    decreases t,
{
    if t <= 0 {
        (Seq::empty(), Seq::empty(), 0)
    } else {
        let (ls, cur, cw) = pack(toks, w, t - 1);
        let (tok, ns) = toks[t - 1];
        let tw = chars_width(tok) as int;
        let sw: int = if cur.len() == 0 || !ns { 0 } else { 1 };
        if sw <= w - cw && tw <= w - cw - sw {
            (ls, if sw == 1 { cur.push(' ') + tok } else { cur + tok }, cw + sw + tw)
        } else {
            let ls1 = if cur.len() > 0 { ls.push(cur) } else { ls };
            let cw1 = if cur.len() > 0 { 0 } else { cw };
            if tw > w {
                let (b, rem) = spec_break(tok, w);
                (ls1 + b, rem, if rem.len() > 0 { chars_width(rem) as int } else { cw1 })
            } else {
                (ls1, tok, tw)
            }
        }
    }
}

/// One input line wrapped greedily to `w` columns.
pub open spec fn spec_wrap_line(line: Seq<char>, w: int) -> Seq<Seq<char>> {
    if line.len() == 0 {
        seq![Seq::<char>::empty()]
    } else {
        let toks = spec_tokens(line);
        let (ls, cur, cw) = pack(toks, w, toks.len() as int);
        if cur.len() > 0 {
            ls.push(cur)
        } else {
            ls
        }
    }
}

/// The first `k` of `lines`, each wrapped greedily, one after another.
pub open spec fn wrap_all(lines: Seq<Seq<char>>, w: int, k: int) -> Seq<Seq<char>>
    decreases k,
{
    if k <= 0 {
        Seq::empty()
    } else {
        wrap_all(lines, w, k - 1) + spec_wrap_line(lines[k - 1], w)
    }
}

/// `text` wrapped greedily to `w` columns, line by line (its lines as
/// they are for `w` zero).
pub open spec fn greedy_wrap(text: Seq<char>, w: int) -> Seq<Seq<char>> {
    let ls = lines_of(text);
    if w <= 0 {
        ls
    } else {
        wrap_all(ls, w, ls.len() as int)
    }
}

/// Split `s` after the longest prefix whose display width fits in
/// `width` (at least one character is always taken).
pub fn split_chars_at_display_width(s: &[char], width: usize) -> (r: (Vec<char>, Vec<char>))
    ensures
        r.0@ == s@.take(split_point(s@, width as int)),
        r.1@ == s@.skip(split_point(s@, width as int)),
        r.0@.len() == split_point(s@, width as int),
        r.0@ + r.1@ == s@,
        s@.len() > 0 ==> r.0@.len() > 0,
        printable_ascii(s@) && width > 0 ==> r.0@.len() <= width,
{
    let mut w: usize = 0;
    let mut k: usize = 0;
    while k < s.len()
        invariant
            k <= s@.len(),
            w == width_sum(s@.take(k as int)),
            w <= width,
            printable_ascii(s@) ==> w == k,
        ensures
            k == s@.len() || width_sum(s@.take(k + 1)) > width,
            w == width_sum(s@.take(k as int)),
            w <= width,
            k <= s@.len(),
            printable_ascii(s@) ==> w == k,
        decreases s@.len() - k,
    {
        let cw = width_or(s[k], 0);
        proof {
            lemma_width_sum_push(s@.take(k as int), s@[k as int]);
            assert(s@.take(k + 1) =~= s@.take(k as int).push(s@[k as int]));
        }
        if cw > width - w {
            break;
        }
        w = w + cw;
        k = k + 1;
    }
    proof {
        assert(longest_fit(s@, width as int, k as int));
        let c = choose|kk: int| #[trigger] longest_fit(s@, width as int, kk);
        assert(longest_fit(s@, width as int, c));
        if c < k {
            lemma_width_sum_mono(s@, c + 1, k as int);
        } else if c > k {
            lemma_width_sum_mono(s@, k + 1, c);
        }
        assert(c == k);
    }
    let cut: usize = if k == 0 && s.len() > 0 {
        1
    } else {
        k
    };
    let mut left: Vec<char> = Vec::new();
    let mut right: Vec<char> = Vec::new();
    let mut i: usize = 0;
    while i < s.len()
        invariant
            cut <= s@.len(),
            i <= s@.len(),
            i <= cut ==> left@ == s@.take(i as int) && right@.len() == 0,
            i > cut ==> left@ == s@.take(cut as int) && right@ == s@.subrange(
                cut as int,
                i as int,
            ),
        decreases s@.len() - i,
    {
        if i < cut {
            left.push(s[i]);
            assert(s@.take(i + 1) =~= s@.take(i as int).push(s@[i as int]));
        } else {
            right.push(s[i]);
            assert(s@.subrange(cut as int, i + 1) =~= s@.subrange(cut as int, i as int).push(
                s@[i as int],
            ));
        }
        i = i + 1;
    }
    assert(right@ =~= s@.skip(cut as int));
    assert(left@ + right@ =~= s@);
    (left, right)
}

/// Split `s` at `width` display columns (see
/// [`split_chars_at_display_width`]).
pub fn split_at_display_width(s: &str, width: usize) -> (r: (String, String))
    ensures
        r.0@ == s@.take(split_point(s@, width as int)),
        r.1@ == s@.skip(split_point(s@, width as int)),
{
    let cs = chars_of(s);
    let (l, r) = split_chars_at_display_width(cs.as_slice(), width);
    (string_from_chars(l.as_slice()), string_from_chars(r.as_slice()))
}

/// Split one line into tokens at spaces, separator characters (`_`,
/// `-`, `.`, `/`), and CJK boundaries. Each token comes with whether a
/// space stood before it. Separators stay attached to the preceding
/// token; consecutive CJK characters form one token.
pub fn tokenize(text: &[char]) -> (r: Vec<(Vec<char>, bool)>)
    ensures
        tok_views(r@) == spec_tokens(text@),
        concat(r@.map_values(|t: (Vec<char>, bool)| t.0@)) == strip_spaces(text@),
        forall|k: int| 0 <= k < r@.len() ==> (#[trigger] r@[k]).0@.len() > 0,
        forall|k: int| 0 <= k < r@.len() ==> no_space((#[trigger] r@[k]).0@),
        printable_ascii(text@) ==> forall|k: int|
            0 <= k < r@.len() ==> printable_ascii((#[trigger] r@[k]).0@),
{
    let mut tokens: Vec<(Vec<char>, bool)> = Vec::new();
    let mut current: Vec<char> = Vec::new();
    let mut after_space = false;
    let mut i: usize = 0;
    while i < text.len()
        invariant
            i <= text@.len(),
            concat(tokens@.map_values(|t: (Vec<char>, bool)| t.0@)) + current@ == strip_spaces(
                text@.take(i as int),
            ),
            forall|k: int| 0 <= k < tokens@.len() ==> (#[trigger] tokens@[k]).0@.len() > 0,
            forall|k: int| 0 <= k < tokens@.len() ==> no_space((#[trigger] tokens@[k]).0@),
            no_space(current@),
            printable_ascii(text@) ==> printable_ascii(current@),
            printable_ascii(text@) ==> forall|k: int|
                0 <= k < tokens@.len() ==> printable_ascii((#[trigger] tokens@[k]).0@),
            tok_views(tokens@) == tok_state(text@, i as int).0,
            current@ == tok_state(text@, i as int).1,
            after_space == tok_state(text@, i as int).2,
        decreases text@.len() - i,
    {
        let ch = text[i];
        let ghost tv0 = tok_views(tokens@);
        let ghost toks0 = tokens@.map_values(|t: (Vec<char>, bool)| t.0@);
        let ghost cur0 = current@;
        proof {
            assert(text@.take(i + 1) =~= text@.take(i as int).push(ch));
            assert(text@.take(i + 1).drop_last() =~= text@.take(i as int));
        }
        if ch == ' ' {
            if current.len() > 0 {
                let mut tok: Vec<char> = Vec::new();
                std::mem::swap(&mut tok, &mut current);
                let ghost af0 = after_space;
                tokens.push((tok, after_space));
                proof {
                    assert(tokens@.map_values(|t: (Vec<char>, bool)| t.0@) =~= toks0.push(cur0));
                    assert(tok_views(tokens@) =~= tv0.push((cur0, af0)));
                    lemma_concat_push(toks0, cur0);
                }
            }
            after_space = true;
        } else if ch == '_' || ch == '-' || ch == '.' || ch == '/' {
            current.push(ch);
            let mut tok: Vec<char> = Vec::new();
                std::mem::swap(&mut tok, &mut current);
            let ghost af0 = after_space;
            tokens.push((tok, after_space));
            proof {
                assert(tok_views(tokens@) =~= tv0.push((cur0.push(ch), af0)));
                assert(tokens@.map_values(|t: (Vec<char>, bool)| t.0@) =~= toks0.push(
                    cur0.push(ch),
                ));
                lemma_concat_push(toks0, cur0.push(ch));
                assert(concat(toks0) + cur0.push(ch) =~= (concat(toks0) + cur0).push(ch));
            }
            after_space = false;
        } else {
            let wide = is_cjk(ch);
            if current.len() > 0 && is_cjk(current[current.len() - 1]) != wide {
                let mut tok: Vec<char> = Vec::new();
                std::mem::swap(&mut tok, &mut current);
                let ghost af0 = after_space;
                tokens.push((tok, after_space));
                proof {
                    assert(tok_views(tokens@) =~= tv0.push((cur0, af0)));
                    assert(tokens@.map_values(|t: (Vec<char>, bool)| t.0@) =~= toks0.push(cur0));
                    lemma_concat_push(toks0, cur0);
                }
                after_space = false;
            }
            let ghost toks1 = tokens@.map_values(|t: (Vec<char>, bool)| t.0@);
            let ghost cur1 = current@;
            current.push(ch);
            proof {
                assert(concat(toks1) + cur1.push(ch) =~= (concat(toks1) + cur1).push(ch));
            }
        }
        i = i + 1;
    }
    assert(text@.take(i as int) =~= text@);
    if current.len() > 0 {
        let ghost toks0 = tokens@.map_values(|t: (Vec<char>, bool)| t.0@);
        let ghost tv0 = tok_views(tokens@);
        let ghost cur0 = current@;
        let ghost af0 = after_space;
        tokens.push((current, after_space));
        proof {
            assert(tok_views(tokens@) =~= tv0.push((cur0, af0)));
            assert(tokens@.map_values(|t: (Vec<char>, bool)| t.0@) =~= toks0.push(cur0));
            lemma_concat_push(toks0, cur0);
        }
    }
    assert(text@.take(text@.len() as int) =~= text@);
    tokens
}


proof fn lemma_no_space_parts(s: Seq<char>, k: int)
    requires
        no_space(s),
        0 <= k <= s.len(),
    ensures
        no_space(s.take(k)),
        no_space(s.skip(k)),
{
    assert forall|i: int| 0 <= i < s.take(k).len() implies #[trigger] s.take(k)[i] != ' ' by {
        assert(s.take(k)[i] == s[i]);
    }
    assert forall|i: int| 0 <= i < s.skip(k).len() implies #[trigger] s.skip(k)[i] != ' ' by {
        assert(s.skip(k)[i] == s[k + i]);
    }
}

proof fn lemma_ascii_parts(s: Seq<char>, k: int)
    requires
        printable_ascii(s),
        0 <= k <= s.len(),
    ensures
        printable_ascii(s.take(k)),
        printable_ascii(s.skip(k)),
{
    assert forall|i: int| 0 <= i < s.take(k).len() implies 0x20 <= (#[trigger] s.take(k)[i]) as u32
        && (s.take(k)[i] as u32) < 0x7F by {
        assert(s.take(k)[i] == s[i]);
    }
    assert forall|i: int| 0 <= i < s.skip(k).len() implies 0x20 <= (#[trigger] s.skip(k)[i]) as u32
        && (s.skip(k)[i] as u32) < 0x7F by {
        assert(s.skip(k)[i] == s[k + i]);
    }
}

/// Every line of `ls` is printable ASCII and at most `max` characters
/// long.
pub open spec fn all_within(ls: Seq<Seq<char>>, max: int) -> bool {
    forall|k: int| 0 <= k < ls.len() ==> (#[trigger] ls[k]).len() <= max && printable_ascii(ls[k])
}

/// Break a token wider than `max_width` into lines of at most
/// `max_width` columns; a remainder of at most two columns is pulled
/// back onto the last chunk when the two still fit together. Returns the
/// finished lines and the part left over for the next line.
fn break_token(token: Vec<char>, max_width: usize) -> (r: (Vec<Vec<char>>, Vec<char>))
    requires
        max_width > 0,
        no_space(token@),
    ensures
        (vv(r.0@), r.1@) == spec_break(token@, max_width as int),
        concat(vv(r.0@)) + r.1@ == token@,
        no_space(r.1@),
        r.1@.len() > 0 ==> chars_width(r.1@) <= max_width,
        printable_ascii(token@) ==> all_within(vv(r.0@), max_width as int) && r.1@.len()
            <= max_width && printable_ascii(r.1@),
{
    let mut out: Vec<Vec<char>> = Vec::new();
    let mut remaining = token;
    let ghost tok = remaining@;
    while seq_display_width(remaining.as_slice()) > max_width
        invariant
            max_width > 0,
            concat(vv(out@)) + remaining@ == tok,
            no_space(remaining@),
            printable_ascii(tok) ==> all_within(vv(out@), max_width as int) && printable_ascii(
                remaining@,
            ),
            vv(out@) + spec_break(remaining@, max_width as int).0 == spec_break(tok, max_width as int).0,
            spec_break(remaining@, max_width as int).1 == spec_break(tok, max_width as int).1,
        ensures
            vv(out@) + spec_break(remaining@, max_width as int).0 == spec_break(tok, max_width as int).0,
            spec_break(remaining@, max_width as int).1 == spec_break(tok, max_width as int).1,
            remaining@.len() == 0 || chars_width(remaining@) <= max_width,
            concat(vv(out@)) + remaining@ == tok,
            no_space(remaining@),
            printable_ascii(tok) ==> all_within(vv(out@), max_width as int) && printable_ascii(
                remaining@,
            ) && remaining@.len() <= max_width,
            remaining@.len() > 0 ==> chars_width(remaining@) <= max_width,
        decreases remaining@.len(),
    {
        let ghost out0 = vv(out@);
        let (chunk, rest) = split_chars_at_display_width(remaining.as_slice(), max_width);
        proof {
            let k = chunk@.len() as int;
            assert(remaining@.take(k) =~= chunk@);
            assert(remaining@.skip(k) =~= rest@);
            lemma_no_space_parts(remaining@, k);
            if printable_ascii(tok) {
                lemma_ascii_parts(remaining@, k);
            }
        }
        let rest_w = seq_display_width(rest.as_slice());
        if rest_w <= 2 && chunk.len() > 0 {
            let mut merged = chunk.clone();
            let mut i: usize = 0;
            while i < rest.len()
                invariant
                    i <= rest@.len(),
                    merged@ == chunk@ + rest@.take(i as int),
                decreases rest@.len() - i,
            {
                merged.push(rest[i]);
                assert(rest@.take(i + 1) =~= rest@.take(i as int).push(rest@[i as int]));
                i = i + 1;
            }
            assert(rest@.take(rest@.len() as int) =~= rest@);
            let merged_w = seq_display_width(merged.as_slice());
            if merged_w <= max_width {
                let ghost m = merged@;
                out.push(merged);
                proof {
                    assert(vv(out@) =~= out0.push(m));
                    lemma_concat_push(out0, m);
                    assert(m =~= remaining@);
                    if printable_ascii(tok) {
                        assert(printable_ascii(m));
                    }
                }
                remaining = Vec::new();
                assert(concat(vv(out@)) + remaining@ =~= concat(vv(out@)));
                break;
            }
        }
        let ghost c = chunk@;
        proof {
            let k = chunk@.len() as int;
            assert(remaining@.len() > 0);
            assert(1 <= k <= remaining@.len());
            assert(k == split_point(remaining@, max_width as int));
            assert(chars_width(remaining@) > max_width);
            assert(c == remaining@.take(k));
            assert(rest@ == remaining@.skip(k));
            assert(spec_break(remaining@, max_width as int).0 == seq![c] + spec_break(rest@, max_width as int).0);
            assert(out0.push(c) + spec_break(rest@, max_width as int).0 =~= out0 + (seq![c] + spec_break(rest@, max_width as int).0));
        }
        out.push(chunk);
        proof {
            assert(vv(out@) =~= out0.push(c));
            lemma_concat_push(out0, c);
            assert(concat(out0) + c + rest@ =~= concat(out0) + (c + rest@));
        }
        remaining = rest;
    }
    proof {
        assert(vv(out@) + Seq::<Seq<char>>::empty() =~= vv(out@));
    }
    (out, remaining)
}

/// Append `token` to `current`, after a space when `space` is set.
fn push_token(current: &mut Vec<char>, token: &Vec<char>, space: bool)
    requires
        no_space(token@),
    ensures
        final(current)@ == (if space {
            old(current)@.push(' ')
        } else {
            old(current)@
        }) + token@,
        strip_spaces(final(current)@) == strip_spaces(old(current)@) + token@,
{
    let ghost cur0 = current@;
    if space {
        current.push(' ');
        proof {
            reveal_with_fuel(strip_spaces, 2);
            lemma_strip_add(cur0, seq![' ']);
            assert(seq![' '].drop_last() =~= Seq::<char>::empty());
            assert(cur0.push(' ') =~= cur0 + seq![' ']);
        }
    }
    let ghost cur1 = current@;
    let mut i: usize = 0;
    while i < token.len()
        invariant
            i <= token@.len(),
            current@ == cur1 + token@.take(i as int),
        decreases token@.len() - i,
    {
        current.push(token[i]);
        assert(token@.take(i + 1) =~= token@.take(i as int).push(token@[i as int]));
        i = i + 1;
    }
    assert(token@.take(token@.len() as int) =~= token@);
    proof {
        lemma_strip_add(cur1, token@);
        lemma_strip_no_space(token@);
    }
}

/// Wrap one input line to `max_width` columns: tokens are packed
/// greedily, separated by one space where the input had one.
#[verifier::rlimit(40)]
pub fn wrap_line(line: &[char], max_width: usize) -> (r: Vec<Vec<char>>)
    requires
        max_width > 0,
    ensures
        vv(r@) == spec_wrap_line(line@, max_width as int),
        strip_spaces(concat(vv(r@))) == strip_spaces(line@),
        printable_ascii(line@) ==> all_within(vv(r@), max_width as int),
        line@.len() == 0 ==> vv(r@) == seq![Seq::<char>::empty()],
{
    let mut lines: Vec<Vec<char>> = Vec::new();
    if line.len() == 0 {
        lines.push(Vec::new());
        assert(vv(lines@) =~= seq![Seq::<char>::empty()]);
        assert(concat(vv(lines@)) =~= Seq::<char>::empty()) by {
            lemma_concat_push(Seq::empty(), Seq::empty());
            assert(seq![Seq::<char>::empty()] =~= Seq::<Seq<char>>::empty().push(Seq::empty()));
        }
        return lines;
    }
    let tokens = tokenize(line);
    proof {
        assert(vv(Seq::<Vec<char>>::empty()) =~= Seq::<Seq<char>>::empty());
    }
    let ghost ascii = printable_ascii(line@);
    let ghost toks = tokens@.map_values(|t: (Vec<char>, bool)| t.0@);
    let mut current: Vec<char> = Vec::new();
    let mut current_width: usize = 0;
    let mut t: usize = 0;
    while t < tokens.len()
        invariant
            max_width > 0,
            t <= tokens@.len(),
            toks == tokens@.map_values(|t: (Vec<char>, bool)| t.0@),
            concat(toks) == strip_spaces(line@),
            forall|k: int| 0 <= k < tokens@.len() ==> no_space((#[trigger] tokens@[k]).0@),
            ascii == printable_ascii(line@),
            ascii ==> forall|k: int|
                0 <= k < tokens@.len() ==> printable_ascii((#[trigger] tokens@[k]).0@),
            strip_spaces(concat(vv(lines@))) + strip_spaces(current@) == concat(toks.take(t as int)),
            current_width <= max_width,
            ascii ==> all_within(vv(lines@), max_width as int) && current@.len() == current_width
                && printable_ascii(current@),
            tok_views(tokens@) == spec_tokens(line@),
            (vv(lines@), current@, current_width as int) == pack(spec_tokens(line@), max_width as int, t as int),
        decreases tokens@.len() - t,
    {
        let ghost pk = pack(spec_tokens(line@), max_width as int, t as int);
        let token = tokens[t].0.clone();
        let needs_space = tokens[t].1;
        assert(spec_tokens(line@)[t as int] == (token@, needs_space)) by {
            assert(tok_views(tokens@)[t as int] == (tokens@[t as int].0@, tokens@[t as int].1));
        }
        proof {
            assert(token@ == toks[t as int]);
            assert(toks.take(t + 1) =~= toks.take(t as int).push(token@));
            lemma_concat_push(toks.take(t as int), token@);
            lemma_strip_no_space(token@);
        }
        let ghost lines0 = vv(lines@);
        let ghost cur0 = current@;
        let token_width = seq_display_width(token.as_slice());
        let space_width: usize = if current.len() == 0 || !needs_space {
            0
        } else {
            1
        };
        if space_width <= max_width - current_width && token_width <= max_width - current_width
            - space_width {
            let add_space = needs_space && current.len() > 0;
            push_token(&mut current, &token, add_space);
            if add_space {
                current_width = current_width + 1;
            }
            current_width = current_width + token_width;
            proof {
                assert(strip_spaces(concat(lines0)) + strip_spaces(current@) =~= concat(
                    toks.take(t as int),
                ) + token@);
                assert((vv(lines@), current@, current_width as int) == pack(spec_tokens(line@), max_width as int, t + 1));
            }
        } else {
            if current.len() > 0 {
                let mut done: Vec<char> = Vec::new();
                std::mem::swap(&mut done, &mut current);
                lines.push(done);
                current_width = 0;
                proof {
                    assert(vv(lines@) =~= lines0.push(cur0));
                    lemma_concat_push(lines0, cur0);
                    lemma_strip_add(concat(lines0), cur0);
                    assert(strip_spaces(current@) =~= Seq::<char>::empty());
                }
            }
            let ghost lines1 = vv(lines@);
            assert(strip_spaces(concat(lines1)) == concat(toks.take(t as int))) by {
                assert(strip_spaces(current@) =~= Seq::<char>::empty());
                assert(strip_spaces(concat(lines1)) + strip_spaces(current@) =~= strip_spaces(
                    concat(lines1),
                ));
            }
            if token_width > max_width {
                let (mut broken, remaining) = break_token(token, max_width);
                let ghost b = vv(broken@);
                lines.append(&mut broken);
                proof {
                    assert(vv(lines@) =~= lines1 + b);
                    lemma_concat_add(lines1, b);
                    lemma_no_space_parts(concat(b) + remaining@, concat(b).len() as int);
                    assert((concat(b) + remaining@).take(concat(b).len() as int) =~= concat(b));
                    assert((concat(b) + remaining@).skip(concat(b).len() as int) =~= remaining@);
                    lemma_strip_no_space(concat(b));
                    lemma_strip_no_space(remaining@);
                    lemma_strip_add(concat(lines1), concat(b));
                    if ascii {
                        assert(printable_ascii(token@));
                        assert forall|k: int| 0 <= k < vv(lines@).len() implies (#[trigger] vv(
                            lines@,
                        )[k]).len() <= max_width by {
                            if k >= lines1.len() {
                                assert(vv(lines@)[k] == b[k - lines1.len()]);
                            } else {
                                assert(vv(lines@)[k] == lines1[k]);
                            }
                        }
                    }
                }
                if remaining.len() > 0 {
                    current = remaining;
                    current_width = seq_display_width(current.as_slice());
                } else {
                    assert(strip_spaces(remaining@) =~= Seq::<char>::empty());
                    assert(current@ =~= remaining@);
                }
                assert((vv(lines@), current@, current_width as int) == pack(spec_tokens(line@), max_width as int, t + 1));
            } else {
                current = token;
                current_width = token_width;
                assert((vv(lines@), current@, current_width as int) == pack(spec_tokens(line@), max_width as int, t + 1));
            }
        }
        t = t + 1;
    }
    if current.len() > 0 {
        let ghost lines0 = vv(lines@);
        let ghost cur0 = current@;
        lines.push(current);
        proof {
            assert(vv(lines@) =~= lines0.push(cur0));
            lemma_concat_push(lines0, cur0);
            lemma_strip_add(concat(lines0), cur0);
        }
    } else {
        assert(strip_spaces(current@) =~= Seq::<char>::empty());
        assert(strip_spaces(concat(vv(lines@))) + strip_spaces(current@) =~= strip_spaces(
            concat(vv(lines@)),
        ));
    }
    assert(toks.take(t as int) =~= toks);
    lines
}

/// Each buffer as a `String`.
pub fn strings_of(v: &Vec<Vec<char>>) -> (r: Vec<String>)
    ensures
        views(r@) == vv(v@),
{
    let mut out: Vec<String> = Vec::new();
    let mut i: usize = 0;
    while i < v.len()
        invariant
            i <= v@.len(),
            views(out@) == vv(v@).take(i as int),
        decreases v@.len() - i,
    {
        let ghost o = views(out@);
        out.push(string_from_chars(v[i].as_slice()));
        assert(views(out@) =~= o.push(v@[i as int]@));
        assert(vv(v@).take(i + 1) =~= vv(v@).take(i as int).push(v@[i as int]@));
        i = i + 1;
    }
    assert(vv(v@).take(v@.len() as int) =~= vv(v@));
    out
}

/// Wrap `text` line by line (see [`word_wrap`]).
pub fn wrap_chars(text: &[char], max_width: usize) -> (r: Vec<Vec<char>>)
    ensures
        vv(r@) == greedy_wrap(text@, max_width as int),
        max_width == 0 ==> vv(r@) == lines_of(text@),
        strip_spaces(concat(vv(r@))) == strip_spaces(concat(lines_of(text@))),
        plain_text(text@) && max_width > 0 ==> all_within(vv(r@), max_width as int),
        lines_of(text@).len() == 0 ==> r@.len() == 0,
{
    let input_lines = split_lines(text);
    let ghost ls = lines_of(text@);
    if max_width == 0 {
        return input_lines;
    }
    proof {
        if plain_text(text@) {
            lemma_lines_plain(text@, 0);
        }
    }
    let mut lines: Vec<Vec<char>> = Vec::new();
    assert(vv(lines@) =~= Seq::<Seq<char>>::empty());
    let mut li: usize = 0;
    while li < input_lines.len()
        invariant
            max_width > 0,
            li <= input_lines@.len(),
            vv(input_lines@) == ls,
            strip_spaces(concat(vv(lines@))) == strip_spaces(concat(ls.take(li as int))),
            plain_text(text@) ==> forall|k: int|
                0 <= k < ls.len() ==> printable_ascii(#[trigger] ls[k]),
            plain_text(text@) ==> all_within(vv(lines@), max_width as int),
            li == 0 ==> lines@.len() == 0,
            vv(lines@) == wrap_all(ls, max_width as int, li as int),
        decreases input_lines@.len() - li,
    {
        let ghost l0 = vv(lines@);
        let line = &input_lines[li];
        assert(line@ == ls[li as int]);
        let mut more = wrap_line(line.as_slice(), max_width);
        let ghost m = vv(more@);
        lines.append(&mut more);
        proof {
            assert(vv(lines@) =~= l0 + m);
            lemma_concat_add(l0, m);
            lemma_strip_add(concat(l0), concat(m));
            assert(ls.take(li + 1) =~= ls.take(li as int).push(line@));
            lemma_concat_push(ls.take(li as int), line@);
            lemma_strip_add(concat(ls.take(li as int)), line@);
            if plain_text(text@) {
                assert forall|k: int| 0 <= k < vv(lines@).len() implies (#[trigger] vv(
                    lines@,
                )[k]).len() <= max_width by {
                    if k >= l0.len() {
                        assert(vv(lines@)[k] == m[k - l0.len()]);
                    } else {
                        assert(vv(lines@)[k] == l0[k]);
                    }
                }
            }
        }
        li = li + 1;
    }
    assert(ls.take(li as int) =~= ls);
    lines
}

/// Wrap `text` so that each line fits within `max_width` columns
/// (measured in display width).
///
/// Tokens are broken at whitespace, the separators `_`, `-`, `.`, `/`,
/// and CJK boundaries; a token wider than `max_width` is broken inside.
/// With `max_width` zero the input lines come back unchanged, and blank
/// input yields no lines. No character but a space is ever lost.
pub fn word_wrap(text: &str, max_width: usize) -> (r: Vec<String>)
    ensures
        views(r@) == greedy_wrap(text@, max_width as int),
        max_width == 0 ==> views(r@) == lines_of(text@),
        strip_spaces(concat(views(r@))) == strip_spaces(concat(lines_of(text@))),
        plain_text(text@) && max_width > 0 ==> all_within(views(r@), max_width as int),
        lines_of(text@).len() == 0 ==> r@.len() == 0,
{
    let cs = chars_of(text);
    let lines = wrap_chars(cs.as_slice(), max_width);
    strings_of(&lines)
}

/// A label wrapped to a maximum display width, with the metadata layout
/// engines need to size canvases and gaps.
#[derive(Clone, Debug)]
pub struct WrappedLabel {
    /// The wrapped lines.
    pub lines: Vec<String>,
    /// Number of lines.
    pub line_count: usize,
    /// Display width of the widest line.
    pub max_width: usize,
}

/// Aesthetic box-width budget for diagram node labels, in percent of
/// the canvas width: flowchart nodes and state boxes wrap their labels
/// at this fraction of the chosen width.
pub const NODE_WRAP_WIDTH_PCT: usize = 40;

/// The widest display width among `lines`.
pub fn widest_line(lines: &Vec<Vec<char>>) -> (r: usize)
    ensures
        r == widest(vv(lines@)),
{
    let mut best: usize = 0;
    let mut i: usize = 0;
    while i < lines.len()
        invariant
            i <= lines@.len(),
            best == widest(vv(lines@).take(i as int)),
        decreases lines@.len() - i,
    {
        let w = seq_display_width(lines[i].as_slice());
        assert(vv(lines@).take(i + 1).drop_last() =~= vv(lines@).take(i as int));
        if w > best {
            best = w;
        }
        i = i + 1;
    }
    assert(vv(lines@).take(lines@.len() as int) =~= vv(lines@));
    best
}

/// Wrap a label to `max_width` display columns, never narrower than 2
/// (so a CJK glyph always fits), with its line count and widest line.
pub fn wrap_label(label: &str, max_width: usize) -> (r: WrappedLabel)
    ensures
        ({
            let mw = if max_width < 2 { 2usize } else { max_width };
            &&& views(r.lines@) == greedy_wrap(label@, mw as int)
            &&& strip_spaces(concat(views(r.lines@))) == strip_spaces(concat(lines_of(label@)))
            &&& plain_text(label@) ==> all_within(views(r.lines@), mw as int)
        }),
        r.line_count == r.lines@.len(),
        r.max_width == widest(views(r.lines@)),
        lines_of(label@).len() == 0 ==> r.line_count == 0,
{
    let mw: usize = if max_width < 2 {
        2
    } else {
        max_width
    };
    let cs = chars_of(label);
    let lines = wrap_chars(cs.as_slice(), mw);
    let max_w = widest_line(&lines);
    let count = lines.len();
    WrappedLabel { lines: strings_of(&lines), line_count: count, max_width: max_w }
}

/// Pad each of `lines` to `width` columns, placing the text as `align`
/// says (the text should already fit in `width`).
pub fn align_horizontal(lines: &[String], width: usize, align: HAlign) -> (r: Vec<String>)
    ensures
        r@.len() == lines@.len(),
        forall|k: int|
            0 <= k < lines@.len() ==> (#[trigger] r@[k])@ == aligned_line(
                lines@[k]@,
                chars_width(lines@[k]@) as int,
                width as int,
                align,
            ),
{
    let mut out: Vec<String> = Vec::new();
    let mut i: usize = 0;
    while i < lines.len()
        invariant
            i <= lines@.len(),
            out@.len() == i,
            forall|k: int|
                0 <= k < i ==> (#[trigger] out@[k])@ == aligned_line(
                    lines@[k]@,
                    chars_width(lines@[k]@) as int,
                    width as int,
                    align,
                ),
        decreases lines@.len() - i,
    {
        let line = chars_of(lines[i].as_str());
        let lw = seq_display_width(line.as_slice());
        let v = align_chars(line.as_slice(), lw, width, align);
        out.push(string_from_chars(v.as_slice()));
        i = i + 1;
    }
    out
}

/// `n` spaces appended to `out`.
pub(crate) fn push_spaces(out: &mut Vec<char>, n: usize)
    ensures
        final(out)@ == old(out)@ + spaces(n as nat),
{
    let ghost o = out@;
    let mut i: usize = 0;
    while i < n
        invariant
            i <= n,
            out@ == o + spaces(i as nat),
        decreases n - i,
    {
        out.push(' ');
        assert(spaces((i + 1) as nat) =~= spaces(i as nat).push(' '));
        i = i + 1;
    }
}

/// `line` (of display width `lw`) padded to `width` columns.
pub fn align_chars(line: &[char], lw: usize, width: usize, align: HAlign) -> (r: Vec<char>)
    ensures
        r@ == aligned_line(line@, lw as int, width as int, align),
{
    let pad: usize = if width > lw {
        width - lw
    } else {
        0
    };
    let mut out: Vec<char> = Vec::new();
    match align {
        HAlign::Left => {
            out.extend_from_slice(line);
            push_spaces(&mut out, pad);
        },
        HAlign::Right => {
            push_spaces(&mut out, pad);
            out.extend_from_slice(line);
        },
        HAlign::Center => {
            push_spaces(&mut out, pad / 2);
            out.extend_from_slice(line);
            push_spaces(&mut out, pad - pad / 2);
        },
    }
    assert(out@ =~= aligned_line(line@, lw as int, width as int, align));
    out
}


// ---------------------------------------------------------------------
// Greedy wrapping loses no character
// ---------------------------------------------------------------------

/// The texts of a token sequence.
pub open spec fn tok_texts(ts: Seq<(Seq<char>, bool)>) -> Seq<Seq<char>> {
    ts.map_values(|t: (Seq<char>, bool)| t.0)
}

proof fn lemma_strip_push(s: Seq<char>, c: char)
    ensures
        strip_spaces(s.push(c)) == if c == ' ' { strip_spaces(s) } else { strip_spaces(s).push(c) },
{
    assert(s.push(c).drop_last() =~= s);
}

proof fn lemma_tok_state(text: Seq<char>, i: int)
    requires
        0 <= i <= text.len(),
    ensures
        concat(tok_texts(tok_state(text, i).0)) + tok_state(text, i).1 == strip_spaces(text.take(i)),
        no_space(tok_state(text, i).1),
        forall|k: int| 0 <= k < tok_state(text, i).0.len() ==> no_space(#[trigger] tok_state(text, i).0[k].0),
    decreases i,
{
    if i == 0 {
        assert(text.take(0) =~= Seq::<char>::empty());
        assert(tok_texts(Seq::<(Seq<char>, bool)>::empty()) =~= Seq::<Seq<char>>::empty());
    } else {
        lemma_tok_state(text, i - 1);
        let (ts, cur, af) = tok_state(text, i - 1);
        let ch = text[i - 1];
        assert(text.take(i) =~= text.take(i - 1).push(ch));
        lemma_strip_push(text.take(i - 1), ch);
        let r = tok_state(text, i);
        if ch == ' ' {
            if cur.len() > 0 {
                assert(tok_texts(r.0) =~= tok_texts(ts).push(cur));
                lemma_concat_push(tok_texts(ts), cur);
                assert(concat(tok_texts(r.0)) + r.1 =~= concat(tok_texts(ts)) + cur);
            }
        } else if is_separator(ch) {
            assert(tok_texts(r.0) =~= tok_texts(ts).push(cur.push(ch)));
            lemma_concat_push(tok_texts(ts), cur.push(ch));
            assert(concat(tok_texts(r.0)) + r.1 =~= (concat(tok_texts(ts)) + cur).push(ch));
        } else if cur.len() > 0 && spec_is_cjk(cur.last()) != spec_is_cjk(ch) {
            assert(tok_texts(r.0) =~= tok_texts(ts).push(cur));
            lemma_concat_push(tok_texts(ts), cur);
            assert(concat(tok_texts(r.0)) + r.1 =~= (concat(tok_texts(ts)) + cur).push(ch));
        } else {
            assert(concat(tok_texts(r.0)) + r.1 =~= (concat(tok_texts(ts)) + cur).push(ch));
        }
        assert forall|k: int| 0 <= k < r.0.len() implies no_space(#[trigger] r.0[k].0) by {
            if k < ts.len() {
                assert(r.0[k] == ts[k]);
            }
        }
    }
}

proof fn lemma_spec_tokens(text: Seq<char>)
    ensures
        concat(tok_texts(spec_tokens(text))) == strip_spaces(text),
        forall|k: int| 0 <= k < spec_tokens(text).len() ==> no_space(#[trigger] spec_tokens(text)[k].0),
{
    lemma_tok_state(text, text.len() as int);
    assert(text.take(text.len() as int) =~= text);
    let (ts, cur, af) = tok_state(text, text.len() as int);
    if cur.len() > 0 {
        assert(tok_texts(spec_tokens(text)) =~= tok_texts(ts).push(cur));
        lemma_concat_push(tok_texts(ts), cur);
        assert forall|k: int| 0 <= k < spec_tokens(text).len() implies no_space(#[trigger] spec_tokens(text)[k].0) by {
            if k < ts.len() {
                assert(spec_tokens(text)[k] == ts[k]);
            }
        }
    } else {
        assert(cur =~= Seq::<char>::empty());
        assert(concat(tok_texts(ts)) + cur =~= concat(tok_texts(ts)));
    }
}

proof fn lemma_spec_break(rem: Seq<char>, w: int)
    ensures
        concat(spec_break(rem, w).0) + spec_break(rem, w).1 == rem,
    decreases rem.len(),
{
    if rem.len() == 0 || chars_width(rem) <= w {
        assert(concat(Seq::<Seq<char>>::empty()) + rem =~= rem);
    } else {
        let k = split_point(rem, w);
        if 1 <= k <= rem.len() {
            lemma_spec_break(rem.skip(k), w);
            let (more, left) = spec_break(rem.skip(k), w);
            lemma_concat_add(seq![rem.take(k)], more);
            lemma_concat_push(Seq::<Seq<char>>::empty(), rem.take(k));
            assert(Seq::<Seq<char>>::empty().push(rem.take(k)) =~= seq![rem.take(k)]);
            assert(concat(Seq::<Seq<char>>::empty()) + rem.take(k) =~= rem.take(k));
            assert(concat(more) + left == rem.skip(k));
            assert(rem.take(k) + rem.skip(k) =~= rem);
            assert(rem.take(k) + concat(more) + left =~= rem.take(k) + (concat(more) + left));
        } else {
            lemma_concat_push(Seq::<Seq<char>>::empty(), rem);
            assert(Seq::<Seq<char>>::empty().push(rem) =~= seq![rem]);
            assert(concat(Seq::<Seq<char>>::empty()) + rem =~= rem);
            assert(rem + Seq::<char>::empty() =~= rem);
        }
    }
}

proof fn lemma_pack(toks: Seq<(Seq<char>, bool)>, w: int, t: int)
    requires
        0 <= t <= toks.len(),
        forall|k: int| 0 <= k < toks.len() ==> no_space(#[trigger] toks[k].0),
    ensures
        strip_spaces(concat(pack(toks, w, t).0)) + strip_spaces(pack(toks, w, t).1) == concat(tok_texts(toks).take(t)),
    decreases t,
{
    if t == 0 {
        assert(tok_texts(toks).take(0) =~= Seq::<Seq<char>>::empty());
        assert(strip_spaces(Seq::<char>::empty()) + strip_spaces(Seq::<char>::empty()) =~= Seq::<char>::empty());
    } else {
        lemma_pack(toks, w, t - 1);
        let (ls, cur, cw) = pack(toks, w, t - 1);
        let (tok, ns) = toks[t - 1];
        assert(no_space(toks[t - 1].0));
        lemma_strip_no_space(tok);
        assert(tok_texts(toks).take(t) =~= tok_texts(toks).take(t - 1).push(tok));
        lemma_concat_push(tok_texts(toks).take(t - 1), tok);
        let tw = chars_width(tok) as int;
        let sw: int = if cur.len() == 0 || !ns { 0 } else { 1 };
        let r = pack(toks, w, t);
        if sw <= w - cw && tw <= w - cw - sw {
            if sw == 1 {
                lemma_strip_add(cur.push(' '), tok);
                lemma_strip_push(cur, ' ');
            } else {
                lemma_strip_add(cur, tok);
            }
            assert(strip_spaces(concat(ls)) + strip_spaces(r.1) =~= strip_spaces(concat(ls)) + strip_spaces(cur) + tok);
        } else {
            let ls1 = if cur.len() > 0 { ls.push(cur) } else { ls };
            assert(strip_spaces(concat(ls1)) == strip_spaces(concat(ls)) + strip_spaces(cur)) by {
                if cur.len() > 0 {
                    lemma_concat_push(ls, cur);
                    lemma_strip_add(concat(ls), cur);
                } else {
                    assert(cur =~= Seq::<char>::empty());
                    assert(strip_spaces(concat(ls)) + strip_spaces(cur) =~= strip_spaces(concat(ls)));
                }
            }
            if tw > w {
                let (b, rem) = spec_break(tok, w);
                lemma_spec_break(tok, w);
                lemma_concat_add(ls1, b);
                lemma_strip_add(concat(ls1), concat(b));
                lemma_strip_add(concat(b), rem);
                assert(strip_spaces(concat(ls1 + b)) + strip_spaces(rem) =~= strip_spaces(concat(ls1)) + (strip_spaces(concat(b)) + strip_spaces(rem)));
            } else {
                assert(strip_spaces(concat(ls1)) + strip_spaces(tok) =~= strip_spaces(concat(ls)) + strip_spaces(cur) + tok);
            }
        }
    }
}

proof fn lemma_wrap_line_keeps(line: Seq<char>, w: int)
    ensures
        strip_spaces(concat(spec_wrap_line(line, w))) == strip_spaces(line),
{
    if line.len() == 0 {
        lemma_concat_push(Seq::<Seq<char>>::empty(), Seq::<char>::empty());
        assert(seq![Seq::<char>::empty()] =~= Seq::<Seq<char>>::empty().push(Seq::<char>::empty()));
        assert(concat(seq![Seq::<char>::empty()]) =~= Seq::<char>::empty());
        assert(line =~= Seq::<char>::empty());
    } else {
        let toks = spec_tokens(line);
        lemma_spec_tokens(line);
        lemma_pack(toks, w, toks.len() as int);
        assert(tok_texts(toks).take(toks.len() as int) =~= tok_texts(toks));
        let (ls, cur, cw) = pack(toks, w, toks.len() as int);
        if cur.len() > 0 {
            lemma_concat_push(ls, cur);
            lemma_strip_add(concat(ls), cur);
        } else {
            assert(cur =~= Seq::<char>::empty());
            assert(strip_spaces(concat(ls)) + strip_spaces(cur) =~= strip_spaces(concat(ls)));
        }
    }
}

proof fn lemma_wrap_all_keeps(lines: Seq<Seq<char>>, w: int, k: int)
    requires
        0 <= k <= lines.len(),
    ensures
        strip_spaces(concat(wrap_all(lines, w, k))) == strip_spaces(concat(lines.take(k))),
    decreases k,
{
    if k == 0 {
        assert(lines.take(0) =~= Seq::<Seq<char>>::empty());
    } else {
        lemma_wrap_all_keeps(lines, w, k - 1);
        let prev = wrap_all(lines, w, k - 1);
        let more = spec_wrap_line(lines[k - 1], w);
        lemma_wrap_line_keeps(lines[k - 1], w);
        lemma_concat_add(prev, more);
        lemma_strip_add(concat(prev), concat(more));
        assert(lines.take(k) =~= lines.take(k - 1).push(lines[k - 1]));
        lemma_concat_push(lines.take(k - 1), lines[k - 1]);
        lemma_strip_add(concat(lines.take(k - 1)), lines[k - 1]);
    }
}

/// Greedy wrapping never loses a character: the wrapped lines hold,
/// spaces aside, exactly the characters of the text's lines, in order.
pub proof fn law_greedy_wrap_keeps_characters(text: Seq<char>, w: int)
    ensures
        strip_spaces(concat(greedy_wrap(text, w))) == strip_spaces(concat(lines_of(text))),
{
    let ls = lines_of(text);
    if w > 0 {
        lemma_wrap_all_keeps(ls, w, ls.len() as int);
        assert(ls.take(ls.len() as int) =~= ls);
    }
}

} // verus!
