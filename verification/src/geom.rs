//! Rectangles, sizes, and perimeter anchors in canvas cell coordinates.
//!
//! Coordinates grow right (`x`) and down (`y`) from the top-left cell.
//! Edges are half-open: a rect covers columns `x .. x + w` and rows
//! `y .. y + h`. Sums that would pass `usize::MAX` saturate.

use vstd::prelude::*;

verus! {

/// A width and height in cells.
#[derive(Clone, Copy, Debug, PartialEq, Eq, Structural)]
pub struct Size {
    pub w: usize,
    pub h: usize,
}

impl Size {
    pub fn new(w: usize, h: usize) -> (s: Size)
        ensures
            s == (Size { w, h }),
    {
        Size { w, h }
    }
}

/// An axis-aligned rectangle of cells.
#[derive(Clone, Copy, Debug, PartialEq, Eq, Structural)]
pub struct Rect {
    pub x: usize,
    pub y: usize,
    pub w: usize,
    pub h: usize,
}

/// A point on (or at the center of) a rectangle's perimeter.
#[derive(Clone, Copy, Debug, PartialEq, Eq, Structural)]
pub enum Anchor {
    North,
    South,
    East,
    West,
    NorthEast,
    NorthWest,
    SouthEast,
    SouthWest,
    Center,
}

impl Rect {
    pub fn new(x: usize, y: usize, w: usize, h: usize) -> (r: Rect)
        ensures
            r == (Rect { x, y, w, h }),
    {
        Rect { x, y, w, h }
    }

    /// The empty rect at the origin.
    pub fn zero() -> (r: Rect)
        ensures
            r == (Rect { x: 0, y: 0, w: 0, h: 0 }),
    {
        Rect { x: 0, y: 0, w: 0, h: 0 }
    }

    /// Exclusive right edge column.
    #[verifier::allow_in_spec]
    pub fn right(&self) -> usize
        returns
            self.x.saturating_add(self.w),
    {
        self.x.saturating_add(self.w)
    }

    /// Exclusive bottom edge row.
    #[verifier::allow_in_spec]
    pub fn bottom(&self) -> usize
        returns
            self.y.saturating_add(self.h),
    {
        self.y.saturating_add(self.h)
    }

    /// Center column (`x + w / 2`).
    #[verifier::allow_in_spec]
    pub fn cx(&self) -> usize
        returns
            self.x.saturating_add(self.w / 2),
    {
        self.x.saturating_add(self.w / 2)
    }

    /// Center row (`y + h / 2`).
    #[verifier::allow_in_spec]
    pub fn cy(&self) -> usize
        returns
            self.y.saturating_add(self.h / 2),
    {
        self.y.saturating_add(self.h / 2)
    }

    /// Center cell.
    pub fn center(&self) -> (c: (usize, usize))
        ensures
            c == (self.cx(), self.cy()),
    {
        (self.cx(), self.cy())
    }

    /// The anchor cell on the perimeter: edge midpoints, corners, or the
    /// center. South and East sit on the last row and column.
    #[verifier::allow_in_spec]
    pub fn anchor(&self, a: Anchor) -> (usize, usize)
        returns
            match a {
                Anchor::North => (self.cx(), self.y),
                Anchor::South => (self.cx(), self.bottom().saturating_sub(1)),
                Anchor::East => (self.right().saturating_sub(1), self.cy()),
                Anchor::West => (self.x, self.cy()),
                Anchor::NorthEast => (self.right().saturating_sub(1), self.y),
                Anchor::NorthWest => (self.x, self.y),
                Anchor::SouthEast => (
                    self.right().saturating_sub(1),
                    self.bottom().saturating_sub(1),
                ),
                Anchor::SouthWest => (self.x, self.bottom().saturating_sub(1)),
                Anchor::Center => (self.cx(), self.cy()),
            },
    {
        match a {
            Anchor::North => (self.cx(), self.y),
            Anchor::South => (self.cx(), self.bottom().saturating_sub(1)),
            Anchor::East => (self.right().saturating_sub(1), self.cy()),
            Anchor::West => (self.x, self.cy()),
            Anchor::NorthEast => (self.right().saturating_sub(1), self.y),
            Anchor::NorthWest => (self.x, self.y),
            Anchor::SouthEast => (self.right().saturating_sub(1), self.bottom().saturating_sub(1)),
            Anchor::SouthWest => (self.x, self.bottom().saturating_sub(1)),
            Anchor::Center => (self.cx(), self.cy()),
        }
    }

    /// True when the two rects share at least one cell.
    #[verifier::allow_in_spec]
    pub fn overlaps(&self, other: &Rect) -> bool
        returns
            self.x < other.right() && other.x < self.right() && self.y < other.bottom()
                && other.y < self.bottom(),
    {
        self.x < other.right() && other.x < self.right() && self.y < other.bottom() && other.y
            < self.bottom()
    }

    /// True when the cell `(px, py)` lies inside the rect.
    #[verifier::allow_in_spec]
    pub fn contains(&self, px: usize, py: usize) -> bool
        returns
            self.x <= px && px < self.right() && self.y <= py && py < self.bottom(),
    {
        self.x <= px && px < self.right() && self.y <= py && py < self.bottom()
    }
}

/// Overlap is symmetric.
pub proof fn lemma_overlap_symmetric(a: Rect, b: Rect)
    ensures
        a.overlaps(&b) == b.overlaps(&a),
{
}

} // verus!
