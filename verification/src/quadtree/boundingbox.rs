//! Axis-aligned rectangles and their exact quadrisection.

use vstd::prelude::*;

use crate::constants::COORD_LIMIT;

verus! {

/// An axis-aligned rectangle with inclusive integer corners.
#[derive(Clone, Copy, Debug, PartialEq, Eq, Structural)]
pub struct BoundingBox {
    pub max_x: i64,
    pub min_x: i64,
    pub max_y: i64,
    pub min_y: i64,
}

/// Midpoint of the inclusive range `lo..=hi`, rounded toward `lo`.
pub open spec fn spec_mid(lo: int, hi: int) -> int {
    lo + (hi - lo) / 2
}

impl BoundingBox {
    /// A well-formed box is non-degenerate and lies within the coordinate
    /// range of the simulation.
    pub open spec fn wf(self) -> bool {
        &&& self.min_x <= self.max_x
        &&& self.min_y <= self.max_y
        &&& -COORD_LIMIT <= self.min_x
        &&& self.max_x <= COORD_LIMIT
        &&& -COORD_LIMIT <= self.min_y
        &&& self.max_y <= COORD_LIMIT
    }

    /// True when the point lies inside the box, boundary included.
    pub open spec fn spec_contains(self, x: int, y: int) -> bool {
        self.min_x <= x <= self.max_x && self.min_y <= y <= self.max_y
    }

    /// Quadrant code of a point: bit 0 set when `x` is at or right of the
    /// center, bit 1 set when `y` is at or above the center.
    pub open spec fn spec_quadrant(self, x: int, y: int) -> int {
        (if x >= spec_mid(self.min_x as int, self.max_x as int) {
            1int
        } else {
            0int
        }) + 2 * (if y >= spec_mid(self.min_y as int, self.max_y as int) {
            1int
        } else {
            0int
        })
    }

    /// The sub-rectangle holding quadrant `q`; any out-of-range code gives
    /// the box back unchanged.
    pub open spec fn spec_child(self, q: int) -> BoundingBox {
        let cx = spec_mid(self.min_x as int, self.max_x as int) as i64;
        let cy = spec_mid(self.min_y as int, self.max_y as int) as i64;
        if q == 0 {
            BoundingBox { min_x: self.min_x, max_x: cx, min_y: self.min_y, max_y: cy }
        } else if q == 1 {
            BoundingBox { min_x: cx, max_x: self.max_x, min_y: self.min_y, max_y: cy }
        } else if q == 2 {
            BoundingBox { min_x: self.min_x, max_x: cx, min_y: cy, max_y: self.max_y }
        } else if q == 3 {
            BoundingBox { min_x: cx, max_x: self.max_x, min_y: cy, max_y: self.max_y }
        } else {
            self
        }
    }

    /// Center X position of the bounding box.
    pub fn center_x(&self) -> (r: i64)
        requires
            self.wf(),
        ensures
            r == spec_mid(self.min_x as int, self.max_x as int),
            self.min_x <= r <= self.max_x,
    {
        self.min_x + (self.max_x - self.min_x) / 2
    }

    /// Center Y position of the bounding box.
    pub fn center_y(&self) -> (r: i64)
        requires
            self.wf(),
        ensures
            r == spec_mid(self.min_y as int, self.max_y as int),
            self.min_y <= r <= self.max_y,
    {
        self.min_y + (self.max_y - self.min_y) / 2
    }

    /// The sub-rectangle of this box for the given quadrant code.
    /// The code is the one `quadrant` produces: the low bit picks left (0)
    /// or right (1) in x, the next bit picks bottom (0) or top (1) in y.
    /// An out-of-range code returns the box unchanged.
    pub fn child(&self, quadrant: usize) -> (r: Self)
        requires
            self.wf(),
        ensures
            r == self.spec_child(quadrant as int),
            r.wf(),
    {
        let cx = self.center_x();
        let cy = self.center_y();
        match quadrant {
            0 => Self { min_x: self.min_x, max_x: cx, min_y: self.min_y, max_y: cy },
            1 => Self { min_x: cx, max_x: self.max_x, min_y: self.min_y, max_y: cy },
            2 => Self { min_x: self.min_x, max_x: cx, min_y: cy, max_y: self.max_y },
            3 => Self { min_x: cx, max_x: self.max_x, min_y: cy, max_y: self.max_y },
            _ => Self { min_x: self.min_x, max_x: self.max_x, min_y: self.min_y, max_y: self.max_y },
        }
    }

    /// The quadrant code of a point, ties resolved toward the upper side.
    pub fn quadrant(&self, x: i64, y: i64) -> (r: usize)
        requires
            self.wf(),
        ensures
            r == self.spec_quadrant(x as int, y as int),
            r < 4,
    {
        let x_bit: usize = if x >= self.center_x() {
            1
        } else {
            0
        };
        let y_bit: usize = if y >= self.center_y() {
            1
        } else {
            0
        };
        x_bit + 2 * y_bit
    }

    /// Width of the bounding box, the size proxy of the admissibility test.
    pub fn width(&self) -> (r: i64)
        requires
            self.wf(),
        ensures
            r == self.max_x - self.min_x,
            r >= 0,
    {
        self.max_x - self.min_x
    }
}

/// Every point of a box lies in the child for that point's quadrant, and in
/// no other: the four quadrant classes partition the box.
pub proof fn lemma_child_contains_quadrant(b: BoundingBox, x: int, y: int)
    requires
        b.wf(),
        b.spec_contains(x, y),
    ensures
        0 <= b.spec_quadrant(x, y) < 4,
        b.spec_child(b.spec_quadrant(x, y)).spec_contains(x, y),
{
}

/// Each child rectangle lies inside its parent.
pub proof fn lemma_child_within_parent(b: BoundingBox, q: int, x: int, y: int)
    requires
        b.wf(),
        b.spec_child(q).spec_contains(x, y),
    ensures
        b.spec_contains(x, y),
{
}

/// The four children cover the parent without gaps and their areas sum to
/// the parent's area exactly: the quadrisection neither loses nor doubles
/// any region.
pub proof fn lemma_children_tile_parent(b: BoundingBox)
    requires
        b.wf(),
    ensures
        forall|x: int, y: int|
            b.spec_contains(x, y) ==> b.spec_child(#[trigger] b.spec_quadrant(x, y)).spec_contains(
                x,
                y,
            ),
        spec_area(b.spec_child(0)) + spec_area(b.spec_child(1)) + spec_area(b.spec_child(2))
            + spec_area(b.spec_child(3)) == spec_area(b),
{
    assert forall|x: int, y: int| b.spec_contains(x, y) implies b.spec_child(
        #[trigger] b.spec_quadrant(x, y),
    ).spec_contains(x, y) by {
        lemma_child_contains_quadrant(b, x, y);
    }
    let cx = spec_mid(b.min_x as int, b.max_x as int);
    let cy = spec_mid(b.min_y as int, b.max_y as int);
    assert((cx - b.min_x) * (cy - b.min_y) + (b.max_x - cx) * (cy - b.min_y) + (cx - b.min_x) * (
    b.max_y - cy) + (b.max_x - cx) * (b.max_y - cy) == (b.max_x - b.min_x) * (b.max_y - b.min_y))
        by (nonlinear_arith);
}

/// Area of a rectangle over its inclusive corner coordinates.
pub open spec fn spec_area(b: BoundingBox) -> int {
    (b.max_x - b.min_x) * (b.max_y - b.min_y)
}

/// Distinct quadrant codes name children that share at most a seam: their
/// interiors are disjoint.
pub proof fn lemma_children_disjoint(b: BoundingBox, q1: int, q2: int, x: int, y: int)
    requires
        b.wf(),
        0 <= q1 < 4,
        0 <= q2 < 4,
        q1 != q2,
        b.spec_child(q1).spec_contains(x, y),
        b.spec_child(q2).spec_contains(x, y),
    ensures
        x == spec_mid(b.min_x as int, b.max_x as int) || y == spec_mid(
            b.min_y as int,
            b.max_y as int,
        ),
{
}

} // verus!
