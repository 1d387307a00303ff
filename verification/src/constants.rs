//! Capacity limits and physical constants of the fixed-point unit system.
//!
//! One unit of length, mass or charge is `FIXED_POINT_SCALE` quanta; every
//! quantity the simulation stores is a whole number of quanta. The limits
//! below keep all intermediate arithmetic exact in 128-bit integers.

use vstd::prelude::*;

verus! {


/// Number of fixed-point quanta in one unit of length, mass or charge.
pub const FIXED_POINT_SCALE: i64 = 1_000_000;

/// Largest magnitude of a position or velocity component, in quanta.
pub const COORD_LIMIT: i64 = 1_000_000_000;

/// Largest mass of a single body, in quanta.
pub const MASS_LIMIT: i64 = 1_000_000_000;

/// Largest magnitude of the charge of a single body, in quanta.
pub const CHARGE_LIMIT: i64 = 1_000;

/// Largest total mass an aggregation tree can hold, in quanta. Together
/// with the other limits it keeps every intermediate product within
/// 128 bits.
pub const TOTAL_MASS_LIMIT: i64 = 1_000_000_000_000;

/// Coulomb's constant, in whole units.
pub const COULOMB_CONSTANT: i64 = 8_987_551_792;

/// Two bodies whose coordinates differ by less than this tolerance on both
/// axes are treated as coincident when the aggregation tree is built.
pub const EPSILON: i64 = 100;

/// A body's reflective boundary margin is its mass divided by this factor.
pub const BOUNDARY_MARGIN_DIVISOR: i64 = 1_000_000;

/// Largest number of bodies one aggregation tree or simulation can hold.
pub const MAX_BODIES: usize = 1_000_000;

} // verus!
