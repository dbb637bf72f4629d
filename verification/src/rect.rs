//! Axis-aligned rectangles over unsigned integer coordinates.
//!
//! A `Rectangle` is anchored at `(x, y)` and extends `width` to the right and
//! `height` downward. Point containment is inclusive on all four edges, while
//! rectangle intersection compares open interiors (touching boxes do not
//! intersect). The two conventions differ on purpose: query pruning relies on
//! `intersects`, point ownership on `contains`.

use vstd::prelude::*;

verus! {

/// An axis-aligned box anchored at `(x, y)` with the given extent.
#[derive(Clone, Copy, Debug, PartialEq, Eq, Structural)]
pub struct Rectangle {
    pub x: u32,
    pub y: u32,
    pub width: u32,
    pub height: u32,
}

impl Rectangle {
    /// The far corner `(x + width, y + height)` stays representable in `u32`,
    /// so edge coordinates can be computed without overflow.
    pub open spec fn wf(self) -> bool {
        &&& self.x + self.width <= u32::MAX
        &&& self.y + self.height <= u32::MAX
    }

    /// Containment of a point, inclusive on every edge.
    pub open spec fn spec_contains(self, px: u32, py: u32) -> bool {
        &&& self.x <= px
        &&& px <= self.x + self.width
        &&& self.y <= py
        &&& py <= self.y + self.height
    }

    /// Containment of a point given as a pair.
    pub open spec fn contains_pt(self, p: (u32, u32)) -> bool {
        self.spec_contains(p.0, p.1)
    }

    /// Overlap of the open interiors: boxes that merely touch along an edge
    /// do not intersect.
    pub open spec fn spec_intersects(self, other: Rectangle) -> bool {
        &&& self.x < other.x + other.width
        &&& self.x + self.width > other.x
        &&& self.y < other.y + other.height
        &&& self.y + self.height > other.y
    }

    /// The four quadrants of a split, in the fixed order used everywhere in
    /// this crate: first the quadrant anchored at the origin corner, then its
    /// horizontal neighbour, then the two below them. Extents are halved with
    /// truncating division, so an odd `width` or `height` leaves a one-unit
    /// strip along the far edges covered by no quadrant.
    pub open spec fn spec_split(self) -> (Rectangle, Rectangle, Rectangle, Rectangle) {
        let hw = (self.width / 2) as u32;
        let hh = (self.height / 2) as u32;
        (
            Rectangle { x: self.x, y: self.y, width: hw, height: hh },
            Rectangle { x: (self.x + hw) as u32, y: self.y, width: hw, height: hh },
            Rectangle { x: self.x, y: (self.y + hh) as u32, width: hw, height: hh },
            Rectangle { x: (self.x + hw) as u32, y: (self.y + hh) as u32, width: hw, height: hh },
        )
    }

    /// Constructs the box; no validation beyond the coordinate types.
    pub fn new(x: u32, y: u32, width: u32, height: u32) -> (r: Rectangle)
        ensures
            r == (Rectangle { x, y, width, height }),
    {
        Rectangle { x, y, width, height }
    }

    /// Inclusive containment test for the point `(px, py)`.
    pub fn contains(&self, px: u32, py: u32) -> (r: bool)
        ensures
            r == self.spec_contains(px, py),
    {
        px >= self.x && (px as u64) <= (self.x as u64) + (self.width as u64) && py >= self.y
            && (py as u64) <= (self.y as u64) + (self.height as u64)
    }

    /// Open-interior intersection test.
    pub fn intersects(&self, other: &Rectangle) -> (r: bool)
        ensures
            r == self.spec_intersects(*other),
    {
        (self.x as u64) < (other.x as u64) + (other.width as u64)
            && (self.x as u64) + (self.width as u64) > (other.x as u64)
            && (self.y as u64) < (other.y as u64) + (other.height as u64)
            && (self.y as u64) + (self.height as u64) > (other.y as u64)
    }

    /// Each quadrant of a split lies within the parent box: a point one of
    /// the four quadrants contains, the parent contains as well.
    pub proof fn lemma_quadrant_within(r: Rectangle, px: u32, py: u32)
        requires
            r.wf(),
        ensures
            r.spec_split().0.spec_contains(px, py) ==> r.spec_contains(px, py),
            r.spec_split().1.spec_contains(px, py) ==> r.spec_contains(px, py),
            r.spec_split().2.spec_contains(px, py) ==> r.spec_contains(px, py),
            r.spec_split().3.spec_contains(px, py) ==> r.spec_contains(px, py),
    {
        assert(2 * (r.width / 2) <= r.width);
        assert(2 * (r.height / 2) <= r.height);
    }

    /// What the four quadrants of a split cover, together: exactly the part
    /// of the parent box up to `x + 2 * (width / 2)` and
    /// `y + 2 * (height / 2)`. With even extents that is the whole box; an
    /// odd `width` or `height` leaves a one-unit strip along the far edge
    /// that no quadrant contains (the coverage gap of the truncating split).
    pub proof fn lemma_split_coverage(r: Rectangle, px: u32, py: u32)
        requires
            r.wf(),
        ensures
            (r.spec_split().0.spec_contains(px, py) || r.spec_split().1.spec_contains(px, py)
                || r.spec_split().2.spec_contains(px, py) || r.spec_split().3.spec_contains(
                px,
                py,
            )) <==> (r.x <= px && px <= r.x + 2 * (r.width / 2) && r.y <= py && py <= r.y + 2 * (
            r.height / 2)),
    {
        assert(2 * (r.width / 2) <= r.width);
        assert(2 * (r.height / 2) <= r.height);
    }

    /// Splits the box into its four quadrants, in the crate's fixed order.
    pub fn split(&self) -> (r: (Rectangle, Rectangle, Rectangle, Rectangle))
        requires
            self.wf(),
        ensures
            r == self.spec_split(),
            r.0.wf() && r.1.wf() && r.2.wf() && r.3.wf(),
    {
        let hw = self.width / 2;
        let hh = self.height / 2;
        (
            Rectangle { x: self.x, y: self.y, width: hw, height: hh },
            Rectangle { x: self.x + hw, y: self.y, width: hw, height: hh },
            Rectangle { x: self.x, y: self.y + hh, width: hw, height: hh },
            Rectangle { x: self.x + hw, y: self.y + hh, width: hw, height: hh },
        )
    }
}

} // verus!
