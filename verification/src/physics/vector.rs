//! A 2-component integer vector carrying an inert third component for
//! interface symmetry.

use vstd::prelude::*;

verus! {

/// A fixed-point 3-component vector. Only `x` and `y` take part in the
/// force laws; `z` is carried along unchanged.
#[derive(Clone, Copy, Debug, PartialEq, Eq, Structural)]
pub struct Vector3D {
    pub x: i64,
    pub y: i64,
    pub z: i64,
}

impl Vector3D {
    /// The all-zero vector.
    pub fn zero() -> (r: Self)
        ensures
            r.x == 0 && r.y == 0 && r.z == 0,
    {
        Self { x: 0, y: 0, z: 0 }
    }

    /// Builds a vector in the x/y plane.
    pub fn from_xy(x: i64, y: i64) -> (r: Self)
        ensures
            r.x == x && r.y == y && r.z == 0,
    {
        Self { x, y, z: 0 }
    }

    /// Projects the vector onto the x/y plane.
    pub fn to_xy(self) -> (r: (i64, i64))
        ensures
            r.0 == self.x && r.1 == self.y,
    {
        (self.x, self.y)
    }

    /// Component-wise sum.
    pub fn add(self, rhs: Self) -> (r: Self)
        requires
            i64::MIN <= self.x + rhs.x <= i64::MAX,
            i64::MIN <= self.y + rhs.y <= i64::MAX,
            i64::MIN <= self.z + rhs.z <= i64::MAX,
        ensures
            r.x == self.x + rhs.x,
            r.y == self.y + rhs.y,
            r.z == self.z + rhs.z,
    {
        Self { x: self.x + rhs.x, y: self.y + rhs.y, z: self.z + rhs.z }
    }

    /// Component-wise difference.
    pub fn sub(self, rhs: Self) -> (r: Self)
        requires
            i64::MIN <= self.x - rhs.x <= i64::MAX,
            i64::MIN <= self.y - rhs.y <= i64::MAX,
            i64::MIN <= self.z - rhs.z <= i64::MAX,
        ensures
            r.x == self.x - rhs.x,
            r.y == self.y - rhs.y,
            r.z == self.z - rhs.z,
    {
        Self { x: self.x - rhs.x, y: self.y - rhs.y, z: self.z - rhs.z }
    }

    /// Uniform scaling by an integer factor.
    pub fn scale(self, rhs: i64) -> (r: Self)
        requires
            i64::MIN <= self.x * rhs <= i64::MAX,
            i64::MIN <= self.y * rhs <= i64::MAX,
            i64::MIN <= self.z * rhs <= i64::MAX,
        ensures
            r.x == self.x * rhs,
            r.y == self.y * rhs,
            r.z == self.z * rhs,
    {
        Self { x: self.x * rhs, y: self.y * rhs, z: self.z * rhs }
    }

    /// Squared Euclidean length, all three components included.
    pub fn l2_sqrd(self) -> (r: i64)
        requires
            self.x * self.x + self.y * self.y + self.z * self.z <= i64::MAX,
        ensures
            r == self.x * self.x + self.y * self.y + self.z * self.z,
            r >= 0,
    {
        proof {
            lemma_square_nonneg(self.x as int);
            lemma_square_nonneg(self.y as int);
            lemma_square_nonneg(self.z as int);
        }
        self.x * self.x + self.y * self.y + self.z * self.z
    }

    /// True when every component lies within the inclusive range set by
    /// `min` and `max`.
    pub fn in_bounds(self, min: &Self, max: &Self) -> (r: bool)
        ensures
            r == (min.x <= self.x <= max.x && min.y <= self.y <= max.y && min.z <= self.z
                <= max.z),
    {
        self.x >= min.x && self.x <= max.x && self.y >= min.y && self.y <= max.y && self.z >= min.z
            && self.z <= max.z
    }
}

/// Squares are never negative.
pub proof fn lemma_square_nonneg(a: int)
    ensures
        a * a >= 0,
{
    assert(a * a >= 0) by (nonlinear_arith);
}

} // verus!
