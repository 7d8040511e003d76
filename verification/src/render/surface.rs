//! Clipped drawing surface over a canvas.
//!
//! A surface translates local coordinates by an offset and drops every
//! write outside its clip rectangle, so a widget can paint in its own
//! coordinate system; sub-surfaces nest the translation and the clip.

use vstd::prelude::*;
use crate::canvas::{Canvas, CanvasView, Layer};
use crate::style::{spec_glyphs, BorderGlyphs, BorderStyle, Charset};
use crate::width::{char_width_or, chars_of, width_or};

verus! {

/// Where a surface sits on its canvas: the offset of its local origin
/// and the size of its clip rectangle.
pub struct SurfaceFrame {
    pub x: nat,
    pub y: nat,
    pub w: nat,
    pub h: nat,
}

/// `v` after writing `ch` at local `(x, y)` of frame `f`: the write
/// lands at the translated cell when it lies inside the clip, and is
/// dropped otherwise.
pub open spec fn clip_put(v: CanvasView, f: SurfaceFrame, x: int, y: int, ch: char, layer: Layer) -> CanvasView {
    if 0 <= x < f.w && 0 <= y < f.h {
        v.put(f.x + x, f.y + y, ch, layer, None)
    } else {
        v
    }
}

/// Clipping: a write outside the surface's clip rectangle leaves the
/// canvas unchanged, and one inside lands at the offset cell.
pub proof fn law_clip(v: CanvasView, f: SurfaceFrame, x: int, y: int, ch: char, layer: Layer)
    ensures
        !(0 <= x < f.w && 0 <= y < f.h) ==> clip_put(v, f, x, y, ch, layer) == v,
        (0 <= x < f.w && 0 <= y < f.h) ==> clip_put(v, f, x, y, ch, layer) == v.put(f.x + x, f.y + y, ch, layer, None),
{
}

/// The frame of the sub-surface at local `(x, y)` of `f`, `w` by `h`
/// cells asked for: offsets add up, and the size is cut down to what is
/// left of `f` from that corner.
pub open spec fn sub_frame(f: SurfaceFrame, x: nat, y: nat, w: nat, h: nat) -> SurfaceFrame {
    SurfaceFrame {
        x: f.x + x,
        y: f.y + y,
        w: if w < f.w - x { w } else if f.w >= x { (f.w - x) as nat } else { 0 },
        h: if h < f.h - y { h } else if f.h >= y { (f.h - y) as nat } else { 0 },
    }
}

/// Nesting: a write at local `(a, b)` of a sub-surface is the write at
/// `(x + a, y + b)` of its parent when it lies inside the sub-surface's
/// size, and changes nothing otherwise; the sub-surface never reaches
/// past its parent's clip.
pub proof fn law_sub_nests(
    v: CanvasView,
    f: SurfaceFrame,
    x: nat,
    y: nat,
    w: nat,
    h: nat,
    a: int,
    b: int,
    ch: char,
    layer: Layer,
)
    ensures
        sub_frame(f, x, y, w, h).w <= w,
        sub_frame(f, x, y, w, h).h <= h,
        (0 <= a < sub_frame(f, x, y, w, h).w && 0 <= b < sub_frame(f, x, y, w, h).h) ==> clip_put(
            v,
            sub_frame(f, x, y, w, h),
            a,
            b,
            ch,
            layer,
        ) == clip_put(v, f, x + a, y + b, ch, layer),
        !(0 <= a < sub_frame(f, x, y, w, h).w && 0 <= b < sub_frame(f, x, y, w, h).h) ==> clip_put(
            v,
            sub_frame(f, x, y, w, h),
            a,
            b,
            ch,
            layer,
        ) == v,
{
}

/// `v` after `len` clipped writes of `ch` rightward from local `(x, y)`.
pub open spec fn clip_hline(v: CanvasView, f: SurfaceFrame, x: int, y: int, len: int, ch: char, layer: Layer) -> CanvasView
    decreases len,
{
    if len <= 0 {
        v
    } else {
        clip_put(clip_hline(v, f, x, y, len - 1, ch, layer), f, x + len - 1, y, ch, layer)
    }
}

/// `v` after `len` clipped writes of `ch` downward from local `(x, y)`.
pub open spec fn clip_vline(v: CanvasView, f: SurfaceFrame, x: int, y: int, len: int, ch: char, layer: Layer) -> CanvasView
    decreases len,
{
    if len <= 0 {
        v
    } else {
        clip_put(clip_vline(v, f, x, y, len - 1, ch, layer), f, x, y + len - 1, ch, layer)
    }
}

/// `v` after writing `s` from local column `col` on row `y`: each
/// character advances by its display width (1 when it has none), and
/// writing stops at the first character whose column is past the clip.
/// With `pad`, a double-width character also blanks the cell after it
/// when that cell is inside the clip.
pub open spec fn clip_str(v: CanvasView, f: SurfaceFrame, col: int, y: int, s: Seq<char>, layer: Layer, pad: bool) -> CanvasView
    decreases s.len(),
{
    if s.len() == 0 || col >= f.w || y >= f.h {
        v
    } else {
        let w = char_width_or(s[0], 1) as int;
        let v1 = clip_put(v, f, col, y, s[0], layer);
        let v2 = if pad && w == 2 && col + 1 < f.w { clip_put(v1, f, col + 1, y, ' ', layer) } else { v1 };
        clip_str(v2, f, col + w, y, s.drop_first(), layer, pad)
    }
}

/// `v` after drawing the outline of the local `w` by `h` rectangle at
/// `(x, y)` with glyphs `g`: nothing when it is thinner than 2 cells,
/// else the four corners, the top and bottom edges, then the sides, all
/// at the node-border layer and clipped.
pub open spec fn clip_rect(v: CanvasView, f: SurfaceFrame, x: int, y: int, w: int, h: int, g: BorderGlyphs) -> CanvasView {
    if w < 2 || h < 2 {
        v
    } else {
        let v1 = clip_put(v, f, x, y, g.top_left, Layer::NodeBorder);
        let v2 = clip_put(v1, f, x + w - 1, y, g.top_right, Layer::NodeBorder);
        let v3 = clip_put(v2, f, x, y + h - 1, g.bottom_left, Layer::NodeBorder);
        let v4 = clip_put(v3, f, x + w - 1, y + h - 1, g.bottom_right, Layer::NodeBorder);
        let v5 = clip_hline(v4, f, x + 1, y, w - 2, g.horizontal, Layer::NodeBorder);
        let v6 = clip_hline(v5, f, x + 1, y + h - 1, w - 2, g.horizontal, Layer::NodeBorder);
        let v7 = clip_vline(v6, f, x, y + 1, h - 2, g.vertical, Layer::NodeBorder);
        clip_vline(v7, f, x + w - 1, y + 1, h - 2, g.vertical, Layer::NodeBorder)
    }
}

/// `v` after filling rows `0..k` of the local `w`-wide rectangle at
/// `(x, y)` with `ch` at the node-content layer, clipped.
pub open spec fn clip_fill(v: CanvasView, f: SurfaceFrame, x: int, y: int, w: int, k: int, ch: char) -> CanvasView
    decreases k,
{
    if k <= 0 {
        v
    } else {
        clip_hline(clip_fill(v, f, x, y, w, k - 1, ch), f, x, y + k - 1, w, ch, Layer::NodeContent)
    }
}

/// A rectangular drawing region of a canvas with its own origin and
/// clip rectangle.
pub struct Surface<'a> {
    canvas: &'a mut Canvas,
    offset_x: usize,
    offset_y: usize,
    clip_w: usize,
    clip_h: usize,
}

impl<'a> Surface<'a> {
    /// The canvas this surface draws on.
    pub closed spec fn target(self) -> &'a mut Canvas {
        self.canvas
    }

    /// The canvas contents as the surface sees them now.
    pub closed spec fn canvas_view(self) -> CanvasView {
        self.canvas@
    }

    /// The surface's offset and clip.
    pub closed spec fn frame(self) -> SurfaceFrame {
        SurfaceFrame {
            x: self.offset_x as nat,
            y: self.offset_y as nat,
            w: self.clip_w as nat,
            h: self.clip_h as nat,
        }
    }

    /// Well-formed: the canvas is well-formed and every clipped cell's
    /// global coordinate is a machine integer.
    pub closed spec fn wf(self) -> bool {
        &&& self.canvas@.wf()
        &&& self.offset_x + self.clip_w <= usize::MAX
        &&& self.offset_y + self.clip_h <= usize::MAX
    }

    /// The surface's view is its canvas's, well-formed when the surface
    /// is.
    pub proof fn lemma_view(&self)
        ensures
            self.canvas_view() == (*self.target())@,
            self.wf() ==> self.canvas_view().wf(),
    {
    }

    /// Once the surface is done with, its canvas holds what the surface
    /// last saw.
    pub proof fn lemma_done(s: Surface<'a>)
        requires
            has_resolved(s),
        ensures
            *final(s.target()) == *s.target(),
    {
    }

    /// A surface covering the whole canvas.
    pub fn new(canvas: &'a mut Canvas) -> (s: Self)
        requires
            old(canvas)@.wf(),
        ensures
            s.wf(),
            s.canvas_view() == old(canvas)@,
            s.frame() == (SurfaceFrame { x: 0, y: 0, w: old(canvas)@.width, h: old(canvas)@.height }),
            *final(canvas) == *final(s.target()),
    {
        let w = canvas.width();
        let h = canvas.height();
        Surface { canvas, offset_x: 0, offset_y: 0, clip_w: w, clip_h: h }
    }

    /// A sub-surface whose origin is local `(x, y)` and whose clip is the
    /// `w` by `h` rectangle there, cut to this surface's clip.
    pub fn sub(&mut self, x: usize, y: usize, w: usize, h: usize) -> (s: Surface<'_>)
        requires
            old(self).wf(),
            old(self).frame().x + x <= usize::MAX,
            old(self).frame().y + y <= usize::MAX,
        ensures
            s.wf(),
            s.canvas_view() == old(self).canvas_view(),
            s.frame() == sub_frame(old(self).frame(), x as nat, y as nat, w as nat, h as nat),
            final(self).frame() == old(self).frame(),
            final(self).wf() <== final(s.target())@.wf(),
            final(self).canvas_view() == final(s.target())@,
            *final(old(self).target()) == *final(final(self).target()),
    {
        let cw = self.clip_w.saturating_sub(x);
        let chh = self.clip_h.saturating_sub(y);
        let sw = if w < cw { w } else { cw };
        let sh = if h < chh { h } else { chh };
        Surface {
            canvas: &mut *self.canvas,
            offset_x: self.offset_x + x,
            offset_y: self.offset_y + y,
            clip_w: sw,
            clip_h: sh,
        }
    }

    /// Width of the clip rectangle.
    pub fn width(&self) -> (r: usize)
        ensures
            r == self.frame().w,
    {
        self.clip_w
    }

    /// Height of the clip rectangle.
    pub fn height(&self) -> (r: usize)
        ensures
            r == self.frame().h,
    {
        self.clip_h
    }

    /// Write `ch` at local `(x, y)` at the node-content layer.
    pub fn put(&mut self, x: usize, y: usize, ch: char)
        requires
            old(self).wf(),
        ensures
            final(self).wf(),
            final(self).frame() == old(self).frame(),
            final(self).canvas_view() == clip_put(old(self).canvas_view(), old(self).frame(), x as int, y as int, ch, Layer::NodeContent),
            *final(old(self).target()) == *final(final(self).target()),
    {
        if x < self.clip_w && y < self.clip_h {
            self.canvas.put(self.offset_x + x, self.offset_y + y, ch);
        }
    }

    /// Write `ch` at local `(x, y)` at `layer`.
    pub fn put_layered(&mut self, x: usize, y: usize, ch: char, layer: Layer)
        requires
            old(self).wf(),
        ensures
            final(self).wf(),
            final(self).frame() == old(self).frame(),
            final(self).canvas_view() == clip_put(old(self).canvas_view(), old(self).frame(), x as int, y as int, ch, layer),
            *final(old(self).target()) == *final(final(self).target()),
    {
        if x < self.clip_w && y < self.clip_h {
            self.canvas.put_layered(self.offset_x + x, self.offset_y + y, ch, layer, None);
        }
    }

    /// Write `s` from local `(x, y)` rightward at the node-content layer,
    /// each character advancing by its display width; stops at the clip.
    pub fn put_str(&mut self, x: usize, y: usize, s: &str)
        requires
            old(self).wf(),
        ensures
            final(self).wf(),
            final(self).frame() == old(self).frame(),
            final(self).canvas_view() == clip_str(old(self).canvas_view(), old(self).frame(), x as int, y as int, s@, Layer::NodeContent, false),
            *final(old(self).target()) == *final(final(self).target()),
    {
        if y >= self.clip_h {
            return;
        }
        let cs = chars_of(s);
        let ghost f = self.frame();
        let ghost v0 = self.canvas_view();
        let mut col = x;
        let mut i: usize = 0;
        assert(cs@.skip(0) =~= cs@);
        while i < cs.len()
            invariant
                i <= cs@.len(),
                cs@ == s@,
                y < f.h,
                self.wf(),
                self.frame() == f,
                clip_str(self.canvas_view(), f, col as int, y as int, cs@.skip(i as int), Layer::NodeContent, false)
                    == clip_str(v0, f, x as int, y as int, s@, Layer::NodeContent, false),
                *final(old(self).target()) == *final(self.target()),
            ensures
                i >= cs@.len() || col >= f.w,
                self.wf(),
                self.frame() == f,
                clip_str(self.canvas_view(), f, col as int, y as int, cs@.skip(i as int), Layer::NodeContent, false)
                    == clip_str(v0, f, x as int, y as int, s@, Layer::NodeContent, false),
                *final(old(self).target()) == *final(self.target()),
            decreases cs@.len() - i,
        {
            if col >= self.clip_w {
                break;
            }
            let ch = cs[i];
            let ghost sk = cs@.skip(i as int);
            let ghost vb = self.canvas_view();
            let ghost cb = col as int;
            assert(sk.drop_first() =~= cs@.skip(i + 1));
            assert(sk[0] == ch);
            self.put(col, y, ch);
            let w = width_or(ch, 1);
            assert(clip_str(vb, f, cb, y as int, sk, Layer::NodeContent, false) == clip_str(
                self.canvas_view(), f, cb + w, y as int, sk.drop_first(), Layer::NodeContent, false));
            col = col.saturating_add(w);
            assert(clip_str(self.canvas_view(), f, col as int, y as int, sk.drop_first(), Layer::NodeContent, false)
                == clip_str(self.canvas_view(), f, cb + w, y as int, sk.drop_first(), Layer::NodeContent, false));
            i = i + 1;
        }
        assert(cs@.skip(i as int).len() == 0 || col >= f.w);
    }

    /// Write `s` from local `(x, y)` rightward at `layer`, each character
    /// advancing by its display width; a double-width character also
    /// blanks the cell after it. Stops at the clip.
    pub fn put_str_layered(&mut self, x: usize, y: usize, s: &str, layer: Layer)
        requires
            old(self).wf(),
        ensures
            final(self).wf(),
            final(self).frame() == old(self).frame(),
            final(self).canvas_view() == clip_str(old(self).canvas_view(), old(self).frame(), x as int, y as int, s@, layer, true),
            *final(old(self).target()) == *final(final(self).target()),
    {
        if y >= self.clip_h {
            return;
        }
        let cs = chars_of(s);
        let ghost f = self.frame();
        let ghost v0 = self.canvas_view();
        let mut col = x;
        let mut i: usize = 0;
        assert(cs@.skip(0) =~= cs@);
        while i < cs.len()
            invariant
                i <= cs@.len(),
                cs@ == s@,
                y < f.h,
                self.wf(),
                self.frame() == f,
                clip_str(self.canvas_view(), f, col as int, y as int, cs@.skip(i as int), layer, true)
                    == clip_str(v0, f, x as int, y as int, s@, layer, true),
                *final(old(self).target()) == *final(self.target()),
            ensures
                i >= cs@.len() || col >= f.w,
                self.wf(),
                self.frame() == f,
                clip_str(self.canvas_view(), f, col as int, y as int, cs@.skip(i as int), layer, true)
                    == clip_str(v0, f, x as int, y as int, s@, layer, true),
                *final(old(self).target()) == *final(self.target()),
            decreases cs@.len() - i,
        {
            if col >= self.clip_w {
                break;
            }
            let ch = cs[i];
            let ghost sk = cs@.skip(i as int);
            let ghost vb = self.canvas_view();
            let ghost cb = col as int;
            assert(sk.drop_first() =~= cs@.skip(i + 1));
            assert(sk[0] == ch);
            self.put_layered(col, y, ch, layer);
            let w = width_or(ch, 1);
            if w == 2 && col + 1 < self.clip_w {
                self.put_layered(col + 1, y, ' ', layer);
            }
            assert(clip_str(vb, f, cb, y as int, sk, layer, true) == clip_str(
                self.canvas_view(), f, cb + w, y as int, sk.drop_first(), layer, true));
            col = col.saturating_add(w);
            assert(clip_str(self.canvas_view(), f, col as int, y as int, sk.drop_first(), layer, true)
                == clip_str(self.canvas_view(), f, cb + w, y as int, sk.drop_first(), layer, true));
            i = i + 1;
        }
        assert(cs@.skip(i as int).len() == 0 || col >= f.w);
    }

    /// Write `len` copies of `ch` rightward from local `(x, y)` at `layer`.
    pub fn put_horizontal(&mut self, x: usize, y: usize, len: usize, ch: char, layer: Layer)
        requires
            old(self).wf(),
            x + len <= usize::MAX + 1,
        ensures
            final(self).wf(),
            final(self).frame() == old(self).frame(),
            final(self).canvas_view() == clip_hline(old(self).canvas_view(), old(self).frame(), x as int, y as int, len as int, ch, layer),
            *final(old(self).target()) == *final(final(self).target()),
    {
        let ghost f = self.frame();
        let ghost v0 = self.canvas_view();
        let mut dx: usize = 0;
        while dx < len
            invariant
                dx <= len,
                x + len <= usize::MAX + 1,
                self.wf(),
                self.frame() == f,
                self.canvas_view() == clip_hline(v0, f, x as int, y as int, dx as int, ch, layer),
                *final(old(self).target()) == *final(self.target()),
            decreases len - dx,
        {
            self.put_layered(x + dx, y, ch, layer);
            dx = dx + 1;
        }
    }

    /// Write `len` copies of `ch` downward from local `(x, y)` at `layer`.
    pub fn put_vertical(&mut self, x: usize, y: usize, len: usize, ch: char, layer: Layer)
        requires
            old(self).wf(),
            y + len <= usize::MAX + 1,
        ensures
            final(self).wf(),
            final(self).frame() == old(self).frame(),
            final(self).canvas_view() == clip_vline(old(self).canvas_view(), old(self).frame(), x as int, y as int, len as int, ch, layer),
            *final(old(self).target()) == *final(final(self).target()),
    {
        let ghost f = self.frame();
        let ghost v0 = self.canvas_view();
        let mut dy: usize = 0;
        while dy < len
            invariant
                dy <= len,
                y + len <= usize::MAX + 1,
                self.wf(),
                self.frame() == f,
                self.canvas_view() == clip_vline(v0, f, x as int, y as int, dy as int, ch, layer),
                *final(old(self).target()) == *final(self.target()),
            decreases len - dy,
        {
            self.put_layered(x, y + dy, ch, layer);
            dy = dy + 1;
        }
    }

    /// Draw the outline of the local `w` by `h` rectangle at `(x, y)`
    /// with `glyphs` (nothing when it is thinner than 2 cells).
    pub fn draw_rect(&mut self, x: usize, y: usize, w: usize, h: usize, glyphs: &BorderGlyphs)
        requires
            old(self).wf(),
            x + w <= usize::MAX,
            y + h <= usize::MAX,
        ensures
            final(self).wf(),
            final(self).frame() == old(self).frame(),
            final(self).canvas_view() == clip_rect(old(self).canvas_view(), old(self).frame(), x as int, y as int, w as int, h as int, *glyphs),
            *final(old(self).target()) == *final(final(self).target()),
    {
        if w < 2 || h < 2 {
            return;
        }
        self.put_layered(x, y, glyphs.top_left, Layer::NodeBorder);
        self.put_layered(x + w - 1, y, glyphs.top_right, Layer::NodeBorder);
        self.put_layered(x, y + h - 1, glyphs.bottom_left, Layer::NodeBorder);
        self.put_layered(x + w - 1, y + h - 1, glyphs.bottom_right, Layer::NodeBorder);
        self.put_horizontal(x + 1, y, w - 2, glyphs.horizontal, Layer::NodeBorder);
        self.put_horizontal(x + 1, y + h - 1, w - 2, glyphs.horizontal, Layer::NodeBorder);
        self.put_vertical(x, y + 1, h - 2, glyphs.vertical, Layer::NodeBorder);
        self.put_vertical(x + w - 1, y + 1, h - 2, glyphs.vertical, Layer::NodeBorder);
    }

    /// Fill the local `w` by `h` rectangle at `(x, y)` with `ch` at the
    /// node-content layer.
    pub fn fill_rect(&mut self, x: usize, y: usize, w: usize, h: usize, ch: char)
        requires
            old(self).wf(),
            x + w <= usize::MAX + 1,
            y + h <= usize::MAX + 1,
        ensures
            final(self).wf(),
            final(self).frame() == old(self).frame(),
            final(self).canvas_view() == clip_fill(old(self).canvas_view(), old(self).frame(), x as int, y as int, w as int, h as int, ch),
            *final(old(self).target()) == *final(final(self).target()),
    {
        let ghost f = self.frame();
        let ghost v0 = self.canvas_view();
        let mut dy: usize = 0;
        while dy < h
            invariant
                dy <= h,
                x + w <= usize::MAX + 1,
                y + h <= usize::MAX + 1,
                self.wf(),
                self.frame() == f,
                self.canvas_view() == clip_fill(v0, f, x as int, y as int, w as int, dy as int, ch),
                *final(old(self).target()) == *final(self.target()),
            decreases h - dy,
        {
            let ghost vrow = self.canvas_view();
            let mut dx: usize = 0;
            while dx < w
                invariant
                    dx <= w,
                    dy < h,
                    x + w <= usize::MAX + 1,
                    y + h <= usize::MAX + 1,
                    self.wf(),
                    self.frame() == f,
                    self.canvas_view() == clip_hline(vrow, f, x as int, (y + dy) as int, dx as int, ch, Layer::NodeContent),
                    *final(old(self).target()) == *final(self.target()),
                decreases w - dx,
            {
                self.put(x + dx, y + dy, ch);
                dx = dx + 1;
            }
            dy = dy + 1;
        }
    }

    /// Draw a border in `style` and `charset` around the local `w` by
    /// `h` rectangle at `(x, y)`.
    pub fn draw_border(&mut self, x: usize, y: usize, w: usize, h: usize, style: BorderStyle, charset: Charset)
        requires
            old(self).wf(),
            x + w <= usize::MAX,
            y + h <= usize::MAX,
        ensures
            final(self).wf(),
            final(self).frame() == old(self).frame(),
            final(self).canvas_view() == clip_rect(old(self).canvas_view(), old(self).frame(), x as int, y as int, w as int, h as int, spec_glyphs(style, charset)),
            *final(old(self).target()) == *final(final(self).target()),
    {
        let glyphs = style.glyphs(charset);
        self.draw_rect(x, y, w, h, &glyphs);
    }

    /// The whole underlying canvas rendered as text.
    pub fn render(&self, color: bool) -> (r: String)
        requires
            self.wf(),
        ensures
            r@ == self.canvas_view().rendered(color),
    {
        self.canvas.render(color)
    }
}

} // verus!
