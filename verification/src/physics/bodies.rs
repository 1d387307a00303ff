//! Plain per-body state.

use vstd::prelude::*;

use crate::constants::{CHARGE_LIMIT, COORD_LIMIT, MASS_LIMIT};
use crate::physics::vector::Vector3D;

verus! {

/// One body's full state: charge, mass, position and velocity, all in
/// fixed-point quanta.
#[derive(Clone, Copy, Debug, PartialEq, Eq, Structural)]
pub struct Particle3D {
    pub charge: i64,
    pub mass: i64,
    pub position: Vector3D,
    pub velocity: Vector3D,
}

impl Particle3D {
    /// A body the simulation can hold: nonnegative mass and every
    /// component within the capacity limits.
    pub open spec fn wf(self) -> bool {
        &&& 0 <= self.mass <= MASS_LIMIT
        &&& -CHARGE_LIMIT <= self.charge <= CHARGE_LIMIT
        &&& -COORD_LIMIT <= self.position.x <= COORD_LIMIT
        &&& -COORD_LIMIT <= self.position.y <= COORD_LIMIT
        &&& -COORD_LIMIT <= self.position.z <= COORD_LIMIT
        &&& -COORD_LIMIT <= self.velocity.x <= COORD_LIMIT
        &&& -COORD_LIMIT <= self.velocity.y <= COORD_LIMIT
        &&& -COORD_LIMIT <= self.velocity.z <= COORD_LIMIT
    }
}

} // verus!
