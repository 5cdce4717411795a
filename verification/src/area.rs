//! Axis-aligned rectangles with inclusive integer bounds.

use vstd::prelude::*;

verus! {

/// A rectangle of pixels, given by its leftmost and rightmost column and its
/// topmost and bottommost row, all four inclusive.
#[derive(Debug, Clone, Copy, PartialEq, Eq)]
pub struct Area {
    pub x1: u16,
    pub y1: u16,
    pub x2: u16,
    pub y2: u16,
}

impl Area {
    /// The bounds are ordered, so the rectangle holds at least one pixel.
    pub open spec fn wf(self) -> bool {
        self.x1 <= self.x2 && self.y1 <= self.y2
    }

    /// The pixel `(x, y)` lies inside the rectangle.
    pub open spec fn holds(self, x: int, y: int) -> bool {
        self.x1 <= x <= self.x2 && self.y1 <= y <= self.y2
    }

    /// The columns of the two rectangles have at least one in common.
    pub open spec fn spec_intersect_x(self, other: Area) -> bool {
        self.x1 <= other.x2 && other.x1 <= self.x2
    }

    /// The rows of the two rectangles have at least one in common.
    pub open spec fn spec_intersect_y(self, other: Area) -> bool {
        self.y1 <= other.y2 && other.y1 <= self.y2
    }

    /// Every column of `other` is a column of `self`.
    pub open spec fn spec_contains_x(self, other: Area) -> bool {
        self.x1 <= other.x1 && other.x2 <= self.x2
    }

    /// The smallest rectangle that covers both.
    pub open spec fn union(self, other: Area) -> Area {
        Area {
            x1: if self.x1 <= other.x1 { self.x1 } else { other.x1 },
            y1: if self.y1 <= other.y1 { self.y1 } else { other.y1 },
            x2: if self.x2 >= other.x2 { self.x2 } else { other.x2 },
            y2: if self.y2 >= other.y2 { self.y2 } else { other.y2 },
        }
    }

    /// Builds the rectangle with the given inclusive bounds, or nothing when
    /// they are out of order.
    pub fn try_new(left: u16, top: u16, right: u16, bottom: u16) -> (r: Option<Area>)
        ensures
            r is Some <==> left <= right && top <= bottom,
            r matches Some(a) ==> a == (Area { x1: left, y1: top, x2: right, y2: bottom }),
    {
        if left <= right && top <= bottom {
            Some(Area { x1: left, y1: top, x2: right, y2: bottom })
        } else {
            None
        }
    }

    /// The leftmost column.
    pub fn left(&self) -> (r: u16)
        ensures
            r == self.x1,
    {
        self.x1
    }

    /// The topmost row.
    pub fn top(&self) -> (r: u16)
        ensures
            r == self.y1,
    {
        self.y1
    }

    /// The rightmost column.
    pub fn right(&self) -> (r: u16)
        ensures
            r == self.x2,
    {
        self.x2
    }

    /// The bottommost row.
    pub fn bottom(&self) -> (r: u16)
        ensures
            r == self.y2,
    {
        self.y2
    }

    /// The number of columns.
    pub fn width(&self) -> (r: u32)
        requires
            self.wf(),
        ensures
            r == self.x2 - self.x1 + 1,
    {
        let right: u32 = self.x2.into();
        let left: u32 = self.x1.into();
        right - left + 1
    }

    /// The number of rows.
    pub fn height(&self) -> (r: u32)
        requires
            self.wf(),
        ensures
            r == self.y2 - self.y1 + 1,
    {
        let bottom: u32 = self.y2.into();
        let top: u32 = self.y1.into();
        bottom - top + 1
    }

    /// Whether the two rectangles share a column.
    pub fn intersect_x(&self, other: Area) -> (r: bool)
        ensures
            r == self.spec_intersect_x(other),
    {
        self.x1 <= other.x2 && other.x1 <= self.x2
    }

    /// Whether the two rectangles share a row.
    pub fn intersect_y(&self, other: Area) -> (r: bool)
        ensures
            r == self.spec_intersect_y(other),
    {
        self.y1 <= other.y2 && other.y1 <= self.y2
    }

    /// Whether the columns of `other` all lie within those of `self`.
    pub fn contains_x(&self, other: Area) -> (r: bool)
        ensures
            r == self.spec_contains_x(other),
    {
        self.x1 <= other.x1 && other.x2 <= self.x2
    }

    /// Whether row `y` is one of the rectangle's rows.
    pub fn contain_point_y(&self, y: u16) -> (r: bool)
        ensures
            r == (self.y1 <= y <= self.y2),
    {
        self.y1 <= y && y <= self.y2
    }

    /// Whether the pixel `(x, y)` lies inside the rectangle.
    pub fn contains_point(&self, x: u16, y: u16) -> (r: bool)
        ensures
            r == self.holds(x as int, y as int),
    {
        self.x1 <= x && x <= self.x2 && self.y1 <= y && y <= self.y2
    }

    /// Grows the rectangle to the smallest one that also covers `other`.
    pub fn extend(&mut self, other: Area)
        ensures
            *final(self) == old(self).union(other),
    {
        if other.x1 < self.x1 {
            self.x1 = other.x1;
        }
        if other.y1 < self.y1 {
            self.y1 = other.y1;
        }
        if other.x2 > self.x2 {
            self.x2 = other.x2;
        }
        if other.y2 > self.y2 {
            self.y2 = other.y2;
        }
    }
}

/// The union of two ordered rectangles is ordered, covers both, and holds
/// exactly the rows and columns between their outermost bounds.
pub proof fn lemma_union_covers(a: Area, b: Area)
    requires
        a.wf(),
        b.wf(),
    ensures
        a.union(b).wf(),
        a.union(b).spec_contains_x(a),
        a.union(b).spec_contains_x(b),
        forall|x: int, y: int| a.holds(x, y) || b.holds(x, y) ==> a.union(b).holds(x, y),
{
}

} // verus!
