//! The simulation state: flat per-particle arrays, a spatial
//! configuration, and the semi-implicit Euler integrator with reflective
//! boundary handling.

use vstd::prelude::*;

use crate::constants::{
    BOUNDARY_MARGIN_DIVISOR, CHARGE_LIMIT, COORD_LIMIT, FIXED_POINT_SCALE, MASS_LIMIT, MAX_BODIES,
    TOTAL_MASS_LIMIT,
};
use crate::physics::bodies::Particle3D;
use crate::physics::div_trunc;
use crate::physics::vector::Vector3D;
use crate::quadtree::tree::spec_mass_sum;

verus! {

/// Spatial configuration of a simulation: the softening floor below which
/// force contributions are skipped, and the corners of the simulated
/// region.
#[derive(Clone, Copy, Debug, PartialEq, Eq, Structural)]
pub struct SimulationConfig3D {
    pub min_dist: i64,
    pub min_dist_sqrd: i64,
    pub min_r: Vector3D,
    pub max_r: Vector3D,
}

impl SimulationConfig3D {
    /// A usable configuration: a positive softening floor with its cached
    /// square, and an ordered region within the coordinate range.
    pub open spec fn wf(self) -> bool {
        &&& 1 <= self.min_dist <= COORD_LIMIT
        &&& self.min_dist_sqrd == self.min_dist * self.min_dist
        &&& -COORD_LIMIT <= self.min_r.x <= self.max_r.x <= COORD_LIMIT
        &&& -COORD_LIMIT <= self.min_r.y <= self.max_r.y <= COORD_LIMIT
        &&& -COORD_LIMIT <= self.min_r.z <= self.max_r.z <= COORD_LIMIT
    }

    /// Builds a configuration, caching the square of the softening floor.
    pub fn new(min_dist: i64, min_r: Vector3D, max_r: Vector3D) -> (r: Self)
        requires
            1 <= min_dist <= COORD_LIMIT,
            -COORD_LIMIT <= min_r.x <= max_r.x <= COORD_LIMIT,
            -COORD_LIMIT <= min_r.y <= max_r.y <= COORD_LIMIT,
            -COORD_LIMIT <= min_r.z <= max_r.z <= COORD_LIMIT,
        ensures
            r.wf(),
            r.min_dist == min_dist,
            r.min_dist_sqrd == min_dist * min_dist,
            r.min_r == min_r,
            r.max_r == max_r,
    {
        proof {
            crate::physics::lemma_mul_le(
                min_dist as int,
                min_dist as int,
                COORD_LIMIT as int,
                COORD_LIMIT as int,
            );
        }
        SimulationConfig3D { min_dist, min_dist_sqrd: min_dist * min_dist, min_r, max_r }
    }
}

/// A value clamped into an inclusive range.
pub open spec fn spec_clamp(v: int, lo: int, hi: int) -> int {
    if v < lo {
        lo
    } else if v > hi {
        hi
    } else {
        v
    }
}

/// One axis of the semi-implicit Euler update: the base value advanced by
/// `rate` over `dt * timescale` fixed-point time quanta, saturated at the
/// coordinate range.
pub open spec fn spec_advance_axis(base: int, rate: int, dt: int, ts: int) -> int {
    spec_clamp(
        base + div_trunc(rate * dt * ts, FIXED_POINT_SCALE as int),
        -COORD_LIMIT as int,
        COORD_LIMIT as int,
    )
}

/// The whole per-particle integration step: velocity from acceleration,
/// position from the new velocity, then reflective boundary handling. A
/// particle whose new position crosses the configured minimum or maximum
/// extent of an axis, offset inward by a margin proportional to its mass,
/// has that axis's velocity component inverted; each of the four crossing
/// checks is independent of the others.
pub open spec fn spec_integrate_particle(
    position: Vector3D,
    velocity: Vector3D,
    acceleration: Vector3D,
    mass: i64,
    dt: i32,
    timescale: i32,
    config: SimulationConfig3D,
) -> (Vector3D, Vector3D) {
    let v1x = spec_advance_axis(velocity.x as int, acceleration.x as int, dt as int, timescale as int);
    let v1y = spec_advance_axis(velocity.y as int, acceleration.y as int, dt as int, timescale as int);
    let v1z = spec_advance_axis(velocity.z as int, acceleration.z as int, dt as int, timescale as int);
    let p1x = spec_advance_axis(position.x as int, v1x, dt as int, timescale as int);
    let p1y = spec_advance_axis(position.y as int, v1y, dt as int, timescale as int);
    let p1z = spec_advance_axis(position.z as int, v1z, dt as int, timescale as int);
    let margin = mass as int / BOUNDARY_MARGIN_DIVISOR as int;
    let v2x = if p1x <= config.min_r.x + margin {
        -v1x
    } else {
        v1x
    };
    let v2y = if p1y <= config.min_r.y + margin {
        -v1y
    } else {
        v1y
    };
    let v3x = if p1x >= config.max_r.x - margin {
        -v2x
    } else {
        v2x
    };
    let v3y = if p1y >= config.max_r.y - margin {
        -v2y
    } else {
        v2y
    };
    (
        Vector3D { x: p1x as i64, y: p1y as i64, z: p1z as i64 },
        Vector3D { x: v3x as i64, y: v3y as i64, z: v1z as i64 },
    )
}

/// The simulation: structure-of-arrays particle state indexed by a stable
/// particle id, plus a timescale and the spatial configuration. Owned
/// exclusively; mutated only by `set`, `integrate` and the force
/// accumulation pass.
#[derive(Debug)]
pub struct Simulation3D {
    pub timescale: i32,
    pub number: usize,
    pub charge: Vec<i64>,
    pub mass: Vec<i64>,
    pub position: Vec<Vector3D>,
    pub velocity: Vec<Vector3D>,
    pub acceleration: Vec<Vector3D>,
    pub config: SimulationConfig3D,
}

impl Simulation3D {
    /// Every array matches the particle count, every stored body is within
    /// the capacity limits, and the total mass fits the tree budget.
    pub open spec fn wf(self) -> bool {
        &&& self.number <= MAX_BODIES
        &&& self.charge@.len() == self.number
        &&& self.mass@.len() == self.number
        &&& self.position@.len() == self.number
        &&& self.velocity@.len() == self.number
        &&& self.acceleration@.len() == self.number
        &&& self.config.wf()
        &&& forall|i: int|
            0 <= i < self.number ==> 0 <= #[trigger] self.mass@[i] <= MASS_LIMIT
        &&& forall|i: int|
            0 <= i < self.number ==> -CHARGE_LIMIT <= #[trigger] self.charge@[i] <= CHARGE_LIMIT
        &&& forall|i: int|
            0 <= i < self.number ==> -COORD_LIMIT <= (#[trigger] self.position@[i]).x
                <= COORD_LIMIT && -COORD_LIMIT <= self.position@[i].y <= COORD_LIMIT
                && -COORD_LIMIT <= self.position@[i].z <= COORD_LIMIT
        &&& forall|i: int|
            0 <= i < self.number ==> -COORD_LIMIT <= (#[trigger] self.velocity@[i]).x
                <= COORD_LIMIT && -COORD_LIMIT <= self.velocity@[i].y <= COORD_LIMIT
                && -COORD_LIMIT <= self.velocity@[i].z <= COORD_LIMIT
        &&& spec_mass_sum(self.mass@, self.number as int) <= TOTAL_MASS_LIMIT
    }

    /// Allocates a simulation of `number` particles, all zeroed, at unit
    /// timescale.
    pub fn empty(number: usize, config: SimulationConfig3D) -> (r: Self)
        requires
            number <= MAX_BODIES,
            config.wf(),
        ensures
            r.wf(),
            r.number == number,
            r.timescale == 1,
            r.config == config,
            forall|i: int| 0 <= i < number ==> #[trigger] r.mass@[i] == 0,
            forall|i: int| 0 <= i < number ==> #[trigger] r.charge@[i] == 0,
            forall|i: int|
                0 <= i < number ==> #[trigger] r.position@[i] == (Vector3D { x: 0, y: 0, z: 0 }),
            forall|i: int|
                0 <= i < number ==> #[trigger] r.velocity@[i] == (Vector3D { x: 0, y: 0, z: 0 }),
            forall|i: int|
                0 <= i < number ==> #[trigger] r.acceleration@[i] == (Vector3D {
                    x: 0,
                    y: 0,
                    z: 0,
                }),
    {
        let mut charge: Vec<i64> = Vec::new();
        let mut mass: Vec<i64> = Vec::new();
        let mut position: Vec<Vector3D> = Vec::new();
        let mut velocity: Vec<Vector3D> = Vec::new();
        let mut acceleration: Vec<Vector3D> = Vec::new();
        let mut i: usize = 0;
        while i < number
            invariant
                0 <= i <= number,
                charge@.len() == i,
                mass@.len() == i,
                position@.len() == i,
                velocity@.len() == i,
                acceleration@.len() == i,
                forall|j: int| 0 <= j < i ==> #[trigger] mass@[j] == 0,
                forall|j: int| 0 <= j < i ==> #[trigger] charge@[j] == 0,
                forall|j: int|
                    0 <= j < i ==> #[trigger] position@[j] == (Vector3D { x: 0, y: 0, z: 0 }),
                forall|j: int|
                    0 <= j < i ==> #[trigger] velocity@[j] == (Vector3D { x: 0, y: 0, z: 0 }),
                forall|j: int|
                    0 <= j < i ==> #[trigger] acceleration@[j] == (Vector3D { x: 0, y: 0, z: 0 }),
            decreases number - i,
        {
            charge.push(0);
            mass.push(0);
            position.push(Vector3D::zero());
            velocity.push(Vector3D::zero());
            acceleration.push(Vector3D::zero());
            i = i + 1;
        }
        let r = Simulation3D {
            timescale: 1,
            number,
            charge,
            mass,
            position,
            velocity,
            acceleration,
            config,
        };
        proof {
            lemma_mass_sum_zeroes(r.mass@, number as int);
        }
        r
    }

    /// Read-only snapshot of one particle's state.
    pub fn get(&self, i: usize) -> (r: Particle3D)
        requires
            self.wf(),
            i < self.number,
        ensures
            r.charge == self.charge@[i as int],
            r.mass == self.mass@[i as int],
            r.position == self.position@[i as int],
            r.velocity == self.velocity@[i as int],
            r.wf(),
    {
        Particle3D {
            charge: self.charge[i],
            mass: self.mass[i],
            position: self.position[i],
            velocity: self.velocity[i],
        }
    }

    /// Overwrites slot `i` with a body's state and zeroes its
    /// acceleration. The new mass must leave the total within the tree
    /// budget.
    pub fn set(&mut self, i: usize, particle: &Particle3D)
        requires
            old(self).wf(),
            i < old(self).number,
            particle.wf(),
            spec_mass_sum(old(self).mass@, old(self).number as int) - old(self).mass@[i as int]
                + particle.mass <= TOTAL_MASS_LIMIT,
        ensures
            final(self).wf(),
            final(self).number == old(self).number,
            final(self).timescale == old(self).timescale,
            final(self).config == old(self).config,
            final(self).charge@ == old(self).charge@.update(i as int, particle.charge),
            final(self).mass@ == old(self).mass@.update(i as int, particle.mass),
            final(self).position@ == old(self).position@.update(i as int, particle.position),
            final(self).velocity@ == old(self).velocity@.update(i as int, particle.velocity),
            final(self).acceleration@ == old(self).acceleration@.update(
                i as int,
                Vector3D { x: 0, y: 0, z: 0 },
            ),
    {
        self.charge.set(i, particle.charge);
        self.mass.set(i, particle.mass);
        self.position.set(i, particle.position);
        self.velocity.set(i, particle.velocity);
        self.acceleration.set(i, Vector3D::zero());
        proof {
            lemma_mass_sum_update(
                old(self).mass@,
                i as int,
                particle.mass,
                old(self).number as int,
            );
        }
    }

    /// Integrates every particle by one semi-implicit Euler step of `dt`
    /// fixed-point time quanta, scaled by the simulation's timescale, and
    /// applies reflective boundary handling.
    #[verifier::loop_isolation(false)]
    pub fn integrate(&mut self, dt: i32)
        requires
            old(self).wf(),
        ensures
            final(self).wf(),
            final(self).number == old(self).number,
            final(self).timescale == old(self).timescale,
            final(self).config == old(self).config,
            final(self).charge@ == old(self).charge@,
            final(self).mass@ == old(self).mass@,
            final(self).acceleration@ == old(self).acceleration@,
            forall|i: int|
                0 <= i < old(self).number ==> (
                #[trigger] final(self).position@[i],
                final(self).velocity@[i],
            ) == spec_integrate_particle(
                old(self).position@[i],
                old(self).velocity@[i],
                old(self).acceleration@[i],
                old(self).mass@[i],
                dt,
                old(self).timescale,
                old(self).config,
            ),
    {
        let n = self.number;
        let ts = self.timescale;
        let mut i: usize = 0;
        while i < n
            invariant
                self.number == n,
                self.timescale == ts,
                self.config == old(self).config,
                self.config.wf(),
                n <= MAX_BODIES,
                0 <= i <= n,
                self.charge@ == old(self).charge@,
                self.mass@ == old(self).mass@,
                self.acceleration@ == old(self).acceleration@,
                self.position@.len() == n,
                self.velocity@.len() == n,
                old(self).position@.len() == n,
                old(self).velocity@.len() == n,
                old(self).mass@.len() == n,
                forall|j: int| 0 <= j < n ==> 0 <= #[trigger] self.mass@[j] <= MASS_LIMIT,
                forall|j: int|
                    i <= j < n ==> #[trigger] self.position@[j] == old(self).position@[j],
                forall|j: int|
                    i <= j < n ==> #[trigger] self.velocity@[j] == old(self).velocity@[j],
                forall|j: int|
                    0 <= j < i ==> (
                    #[trigger] self.position@[j],
                    self.velocity@[j],
                ) == spec_integrate_particle(
                    old(self).position@[j],
                    old(self).velocity@[j],
                    old(self).acceleration@[j],
                    old(self).mass@[j],
                    dt,
                    ts,
                    old(self).config,
                ),
                forall|j: int|
                    0 <= j < i ==> -COORD_LIMIT <= (#[trigger] self.position@[j]).x <= COORD_LIMIT
                        && -COORD_LIMIT <= self.position@[j].y <= COORD_LIMIT && -COORD_LIMIT
                        <= self.position@[j].z <= COORD_LIMIT,
                forall|j: int|
                    0 <= j < i ==> -COORD_LIMIT <= (#[trigger] self.velocity@[j]).x <= COORD_LIMIT
                        && -COORD_LIMIT <= self.velocity@[j].y <= COORD_LIMIT && -COORD_LIMIT
                        <= self.velocity@[j].z <= COORD_LIMIT,
                forall|j: int|
                    i <= j < n ==> -COORD_LIMIT <= (#[trigger] self.position@[j]).x <= COORD_LIMIT
                        && -COORD_LIMIT <= self.position@[j].y <= COORD_LIMIT && -COORD_LIMIT
                        <= self.position@[j].z <= COORD_LIMIT,
                forall|j: int|
                    i <= j < n ==> -COORD_LIMIT <= (#[trigger] self.velocity@[j]).x <= COORD_LIMIT
                        && -COORD_LIMIT <= self.velocity@[j].y <= COORD_LIMIT && -COORD_LIMIT
                        <= self.velocity@[j].z <= COORD_LIMIT,
            decreases n - i,
        {
            let pos = self.position[i];
            let vel = self.velocity[i];
            let acc = self.acceleration[i];
            let mass = self.mass[i];
            let v1x = advance_axis(vel.x, acc.x, dt, ts);
            let v1y = advance_axis(vel.y, acc.y, dt, ts);
            let v1z = advance_axis(vel.z, acc.z, dt, ts);
            let p1x = advance_axis(pos.x, v1x, dt, ts);
            let p1y = advance_axis(pos.y, v1y, dt, ts);
            let p1z = advance_axis(pos.z, v1z, dt, ts);
            let margin = mass / BOUNDARY_MARGIN_DIVISOR;
            let mut v2x = v1x;
            let mut v2y = v1y;
            if p1x <= self.config.min_r.x + margin {
                v2x = -v1x;
            }
            if p1y <= self.config.min_r.y + margin {
                v2y = -v1y;
            }
            if p1x >= self.config.max_r.x - margin {
                v2x = -v2x;
            }
            if p1y >= self.config.max_r.y - margin {
                v2y = -v2y;
            }
            self.position.set(i, Vector3D { x: p1x, y: p1y, z: p1z });
            self.velocity.set(i, Vector3D { x: v2x, y: v2y, z: v1z });
            i = i + 1;
        }
    }
}

/// Law: a particle that one integration step carries to or past the
/// configured maximum x extent, less its mass-dependent margin, while
/// still moving outward and clear of the minimum boundary, leaves the
/// step with the sign of its x velocity reversed.
pub proof fn lemma_reflect_at_max_x(
    position: Vector3D,
    velocity: Vector3D,
    acceleration: Vector3D,
    mass: i64,
    dt: i32,
    timescale: i32,
    config: SimulationConfig3D,
)
    requires
        0 <= mass,
        ({
            let v1x = spec_advance_axis(
                velocity.x as int,
                acceleration.x as int,
                dt as int,
                timescale as int,
            );
            let p1x = spec_advance_axis(position.x as int, v1x, dt as int, timescale as int);
            let margin = mass as int / BOUNDARY_MARGIN_DIVISOR as int;
            &&& v1x > 0
            &&& p1x >= config.max_r.x - margin
            &&& !(p1x <= config.min_r.x + margin)
        }),
    ensures
        ({
            let v1x = spec_advance_axis(
                velocity.x as int,
                acceleration.x as int,
                dt as int,
                timescale as int,
            );
            let after = spec_integrate_particle(
                position,
                velocity,
                acceleration,
                mass,
                dt,
                timescale,
                config,
            );
            after.1.x == -v1x && after.1.x < 0
        }),
{
}

/// A sequence of zero masses sums to zero.
proof fn lemma_mass_sum_zeroes(mass: Seq<i64>, k: int)
    requires
        0 <= k <= mass.len(),
        forall|j: int| 0 <= j < mass.len() ==> #[trigger] mass[j] == 0,
    ensures
        spec_mass_sum(mass, k) == 0,
    decreases k,
{
    if k > 0 {
        lemma_mass_sum_zeroes(mass, k - 1);
    }
}

/// Replacing one mass changes the prefix sum by exactly the difference.
pub proof fn lemma_mass_sum_update(mass: Seq<i64>, i: int, v: i64, k: int)
    requires
        0 <= i < mass.len(),
        0 <= k <= mass.len(),
    ensures
        spec_mass_sum(mass.update(i, v), k) == spec_mass_sum(mass, k) + (if i < k {
            v - mass[i]
        } else {
            0
        }),
    decreases k,
{
    if k > 0 {
        lemma_mass_sum_update(mass, i, v, k - 1);
    }
}

/// One axis of the Euler update, exactly as `spec_advance_axis` states it.
fn advance_axis(base: i64, rate: i64, dt: i32, ts: i32) -> (r: i64)
    ensures
        r == spec_advance_axis(base as int, rate as int, dt as int, ts as int),
        -COORD_LIMIT <= r <= COORD_LIMIT,
{
    proof {
        crate::physics::lemma_mul_abs_bound(
            rate as int,
            dt as int,
            0x8000_0000_0000_0000,
            0x8000_0000,
        );
    }
    let w1: i128 = (rate as i128) * (dt as i128);
    proof {
        crate::physics::lemma_mul_abs_bound(
            w1 as int,
            ts as int,
            0x4000_0000_0000_0000_0000_0000,
            0x8000_0000,
        );
    }
    let w2: i128 = w1 * (ts as i128);
    let q: i128 = w2 / (FIXED_POINT_SCALE as i128);
    let sum: i128 = (base as i128) + q;
    if sum < -COORD_LIMIT as i128 {
        -COORD_LIMIT
    } else if sum > COORD_LIMIT as i128 {
        COORD_LIMIT
    } else {
        sum as i64
    }
}

} // verus!
