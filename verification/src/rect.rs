//! Axis-aligned rectangles in pixel space, with the geometric notions the
//! allocator's contracts are stated in: disjointness, containment in a
//! canvas, and point coverage.

use vstd::prelude::*;

verus! {

/// An axis-aligned rectangle: origin at `(x, y)`, extending `width` pixels to
/// the right and `height` pixels downward.  A successful allocation is
/// reported as such a rectangle (the placement).
#[derive(Clone, Copy, Debug, PartialEq, Eq, Structural)]
pub struct Rect {
    pub x: u32,
    pub y: u32,
    pub width: u32,
    pub height: u32,
}

impl Rect {
    /// One past the rightmost column covered.
    pub open spec fn right(self) -> int {
        self.x + self.width
    }

    /// One past the bottommost row covered.
    pub open spec fn bottom(self) -> int {
        self.y + self.height
    }

    /// Both sides strictly positive.
    pub open spec fn positive(self) -> bool {
        self.width > 0 && self.height > 0
    }

    /// The two rectangles share no pixel.
    pub open spec fn disjoint(self, other: Rect) -> bool {
        ||| self.right() <= other.x
        ||| other.right() <= self.x
        ||| self.bottom() <= other.y
        ||| other.bottom() <= self.y
    }

    /// Lies entirely within a canvas of size `w` by `h`.
    pub open spec fn contained_in(self, w: int, h: int) -> bool {
        self.right() <= w && self.bottom() <= h
    }

    /// The pixel at column `px`, row `py` lies in this rectangle.
    pub open spec fn covers(self, px: int, py: int) -> bool {
        self.x <= px < self.right() && self.y <= py < self.bottom()
    }

    /// A `w` by `h` request can be carved out of this rectangle.
    pub open spec fn fits(self, w: int, h: int) -> bool {
        self.width >= w && self.height >= h
    }

    /// Lies entirely within `outer`.
    pub open spec fn inside(self, outer: Rect) -> bool {
        &&& outer.x <= self.x
        &&& self.right() <= outer.right()
        &&& outer.y <= self.y
        &&& self.bottom() <= outer.bottom()
    }

    pub fn new(x: u32, y: u32, width: u32, height: u32) -> (r: Rect)
        ensures
            r == (Rect { x, y, width, height }),
    {
        Rect { x, y, width, height }
    }

    /// A rectangle inside this one cannot reach outside a canvas this one
    /// lies in.
    pub proof fn lemma_inside_contained(self, outer: Rect, w: int, h: int)
        requires
            self.inside(outer),
            outer.contained_in(w, h),
        ensures
            self.contained_in(w, h),
    {
    }

    /// A rectangle inside this one is disjoint from everything this one is
    /// disjoint from.
    pub proof fn lemma_inside_disjoint(self, outer: Rect, other: Rect)
        requires
            self.inside(outer),
            outer.disjoint(other),
        ensures
            self.disjoint(other),
    {
    }

    /// Two disjoint positive rectangles cannot share their top-left corner.
    pub proof fn lemma_disjoint_origins_differ(self, other: Rect)
        requires
            self.positive(),
            other.positive(),
            self.disjoint(other),
        ensures
            self.x != other.x || self.y != other.y,
    {
    }

    /// Two rectangles are disjoint exactly when no pixel lies in both.
    pub proof fn lemma_disjoint_no_common_pixel(self, other: Rect)
        requires
            self.positive(),
            other.positive(),
        ensures
            self.disjoint(other) <==> forall|px: int, py: int|
                !(self.covers(px, py) && #[trigger] other.covers(px, py)),
    {
        if !self.disjoint(other) {
            let px = if self.x >= other.x { self.x as int } else { other.x as int };
            let py = if self.y >= other.y { self.y as int } else { other.y as int };
            assert(self.covers(px, py) && other.covers(px, py));
        }
    }
}

/// Some rectangle of the sequence can hold a `w` by `h` request.
pub open spec fn any_fits(rects: Seq<Rect>, w: int, h: int) -> bool {
    exists|i: int| 0 <= i < rects.len() && (#[trigger] rects[i]).fits(w, h)
}

} // verus!
