//! Geometric value types: sizes and axis-aligned rectangles, with the
//! containment and overlap predicates that the packer's guarantees are
//! stated over.

use vstd::prelude::*;

verus! {

/// Width and height in pixels.
#[derive(Debug, Clone, Copy, PartialEq, Eq, Structural)]
pub struct Size {
    pub width: u32,
    pub height: u32,
}

/// An axis-aligned rectangle: top-left corner plus extent, in pixels.
#[derive(Debug, Clone, Copy, PartialEq, Eq, Structural)]
pub struct Rect {
    pub x: u32,
    pub y: u32,
    pub width: u32,
    pub height: u32,
}

/// The x coordinate one past the right edge of `r`.
pub open spec fn right(r: Rect) -> int {
    r.x + r.width
}

/// The y coordinate one past the bottom edge of `r`.
pub open spec fn bottom(r: Rect) -> int {
    r.y + r.height
}

/// `r` lies fully inside a page of size `page` anchored at the origin.
pub open spec fn rect_in_page(r: Rect, page: Size) -> bool {
    right(r) <= page.width && bottom(r) <= page.height
}

/// `inner` lies fully inside `outer`.
pub open spec fn rect_contains(outer: Rect, inner: Rect) -> bool {
    &&& outer.x <= inner.x
    &&& outer.y <= inner.y
    &&& right(inner) <= right(outer)
    &&& bottom(inner) <= bottom(outer)
}

/// `a` and `b` share no pixel. A rectangle of zero width or height covers no
/// pixel and so is disjoint from everything.
pub open spec fn rects_disjoint(a: Rect, b: Rect) -> bool {
    ||| right(a) <= b.x
    ||| right(b) <= a.x
    ||| bottom(a) <= b.y
    ||| bottom(b) <= a.y
}

/// The point (px, py) is covered by `r`.
pub open spec fn rect_covers(r: Rect, px: int, py: int) -> bool {
    r.x <= px < right(r) && r.y <= py < bottom(r)
}

impl Rect {
    /// Containment query: does `self` fully contain `other`?
    pub fn contains(&self, other: &Rect) -> (r: bool)
        ensures
            r == rect_contains(*self, *other),
    {
        self.x <= other.x && self.y <= other.y
            && other.x as u64 + other.width as u64 <= self.x as u64 + self.width as u64
            && other.y as u64 + other.height as u64 <= self.y as u64 + self.height as u64
    }

    /// Overlap query: do `self` and `other` share at least one pixel?
    pub fn overlaps(&self, other: &Rect) -> (r: bool)
        ensures
            r == !rects_disjoint(*self, *other),
    {
        !(self.x as u64 + self.width as u64 <= other.x as u64
            || other.x as u64 + other.width as u64 <= self.x as u64
            || self.y as u64 + self.height as u64 <= other.y as u64
            || other.y as u64 + other.height as u64 <= self.y as u64)
    }
}

} // verus!
