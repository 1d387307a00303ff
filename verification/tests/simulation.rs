use rust_particles::physics::bodies::Particle3D;
use rust_particles::physics::nbody::step_simulation;
use rust_particles::physics::simulation::{Simulation3D, SimulationConfig3D};
use rust_particles::physics::vector::Vector3D;

fn config() -> SimulationConfig3D {
    SimulationConfig3D::new(
        1,
        Vector3D::from_xy(0, 0),
        Vector3D::from_xy(1_000_000, 1_000_000),
    )
}

#[test]
fn test_config_caches_squared_softening() {
    let c = SimulationConfig3D::new(10, Vector3D::from_xy(0, 0), Vector3D::from_xy(900, 900));
    assert_eq!(10, c.min_dist);
    assert_eq!(100, c.min_dist_sqrd);
    assert_eq!(900, c.max_r.x);
}

#[test]
fn test_empty_allocates_zeroed_arrays() {
    let sim = Simulation3D::empty(3, config());
    assert_eq!(3, sim.number);
    assert_eq!(1, sim.timescale);
    assert_eq!(vec![0, 0, 0], sim.mass);
    assert_eq!(vec![0, 0, 0], sim.charge);
    assert_eq!(3, sim.position.len());
    assert_eq!(Vector3D { x: 0, y: 0, z: 0 }, sim.velocity[2]);
}

#[test]
fn test_set_and_get_round_trip() {
    let mut sim = Simulation3D::empty(2, config());
    let p = Particle3D {
        charge: -7,
        mass: 500,
        position: Vector3D::from_xy(1_000, 2_000),
        velocity: Vector3D::from_xy(-30, 40),
    };
    sim.set(1, &p);
    let got = sim.get(1);
    assert_eq!(-7, got.charge);
    assert_eq!(500, got.mass);
    assert_eq!(1_000, got.position.x);
    assert_eq!(40, got.velocity.y);
    // Setting a slot zeroes its acceleration.
    assert_eq!(Vector3D { x: 0, y: 0, z: 0 }, sim.acceleration[1]);
    // The other slot is untouched.
    assert_eq!(0, sim.get(0).mass);
}

#[test]
fn test_integrate_advances_velocity_then_position() {
    let mut sim = Simulation3D::empty(1, config());
    sim.set(
        0,
        &Particle3D {
            charge: 1,
            mass: 1_000,
            position: Vector3D::from_xy(500_000, 500_000),
            velocity: Vector3D::from_xy(2_000, -3_000),
        },
    );
    // One whole time unit: dt carries FIXED_POINT_SCALE quanta.
    sim.integrate(1_000_000);
    // No acceleration: velocity unchanged, position moves by v * dt.
    assert_eq!(2_000, sim.velocity[0].x);
    assert_eq!(-3_000, sim.velocity[0].y);
    assert_eq!(502_000, sim.position[0].x);
    assert_eq!(497_000, sim.position[0].y);
}

#[test]
fn test_outward_particle_reflects_at_max_boundary() {
    // A particle at the maximum x extent with positive outward velocity:
    // one integrate call reverses the sign of its x velocity.
    let mut sim = Simulation3D::empty(1, config());
    sim.set(
        0,
        &Particle3D {
            charge: 1,
            mass: 1_000_000_000,
            position: Vector3D::from_xy(999_500, 500_000),
            velocity: Vector3D::from_xy(1_000, 0),
        },
    );
    sim.integrate(1_000_000);
    assert_eq!(1_000_500, sim.position[0].x);
    assert_eq!(-1_000, sim.velocity[0].x);
    assert_eq!(0, sim.velocity[0].y);
}

#[test]
fn test_inward_particle_is_not_reflected() {
    let mut sim = Simulation3D::empty(1, config());
    sim.set(
        0,
        &Particle3D {
            charge: 1,
            mass: 1_000_000_000,
            position: Vector3D::from_xy(999_500, 500_000),
            velocity: Vector3D::from_xy(-10_000, 0),
        },
    );
    sim.integrate(1_000_000);
    assert_eq!(989_500, sim.position[0].x);
    assert_eq!(-10_000, sim.velocity[0].x);
}

#[test]
fn test_timescale_scales_the_step() {
    let mut sim = Simulation3D::empty(1, config());
    sim.set(
        0,
        &Particle3D {
            charge: 1,
            mass: 1_000,
            position: Vector3D::from_xy(500_000, 500_000),
            velocity: Vector3D::from_xy(100, 0),
        },
    );
    sim.timescale = 5;
    sim.integrate(1_000_000);
    assert_eq!(500_500, sim.position[0].x);
}

#[test]
fn test_two_body_step_matches_the_force_law() {
    // Two bodies a distance of 100 quanta apart, theta = 0: the exact
    // direct sum. For the body at the origin the gravitational term is
    // dx * m / d^3 = 100 * 10^9 / 10^6 = 100000, and the Coulomb term is
    // f * dx / (d * m) with f = K0 * (-100) * 100 / 10^4, giving -8; for
    // the other body dx is negative, so its Coulomb term is +8.
    let mut sim = Simulation3D::empty(2, config());
    sim.set(
        0,
        &Particle3D {
            charge: 100,
            mass: 1_000_000_000,
            position: Vector3D::from_xy(0, 0),
            velocity: Vector3D::from_xy(0, 0),
        },
    );
    sim.set(
        1,
        &Particle3D {
            charge: -100,
            mass: 1_000_000_000,
            position: Vector3D::from_xy(100, 0),
            velocity: Vector3D::from_xy(0, 0),
        },
    );
    step_simulation(&mut sim, 1_000_000, 0);

    assert_eq!(99_992, sim.acceleration[0].x);
    assert_eq!(0, sim.acceleration[0].y);
    assert_eq!(-99_992, sim.acceleration[1].x);
    assert_eq!(0, sim.acceleration[1].y);

    // Velocity picks up a * dt, position then moves by the new velocity;
    // the second body crosses the minimum extent and is reflected.
    assert_eq!(99_992, sim.velocity[0].x);
    assert_eq!(99_992, sim.position[0].x);
    assert_eq!(99_992, sim.velocity[1].x);
    assert_eq!(-99_892, sim.position[1].x);
}

#[test]
fn test_step_with_theta_zero_equals_brute_force_pair_sum() {
    // With theta = 0 the traversal yields every leaf, so the accumulated
    // acceleration equals the brute-force pairwise sum computed by hand
    // over all other bodies: for the body at the origin, the two
    // gravitational terms 200 * 10^9 / 8000^... are summed exactly.
    let mut sim = Simulation3D::empty(3, config());
    let mass = 1_000_000_000;
    sim.set(
        0,
        &Particle3D {
            charge: 1,
            mass,
            position: Vector3D::from_xy(0, 0),
            velocity: Vector3D::from_xy(0, 0),
        },
    );
    sim.set(
        1,
        &Particle3D {
            charge: 1,
            mass,
            position: Vector3D::from_xy(200, 0),
            velocity: Vector3D::from_xy(0, 0),
        },
    );
    sim.set(
        2,
        &Particle3D {
            charge: 1,
            mass,
            position: Vector3D::from_xy(0, 300),
            velocity: Vector3D::from_xy(0, 0),
        },
    );
    step_simulation(&mut sim, 0, 0);

    // Contribution of body 1 on body 0: gx = 200 * 10^9 / 200^3, and the
    // Coulomb term f = K0 * 1 * 1 / 200^2 = 224688, cx = f * 200 / (200 * 10^9) = 0.
    let gx_from_1 = 200i64 * mass / (200 * 200 * 200);
    // Contribution of body 2 on body 0: gy = 300 * 10^9 / 300^3.
    let gy_from_2 = 300i64 * mass / (300 * 300 * 300);
    assert_eq!(gx_from_1, sim.acceleration[0].x);
    assert_eq!(gy_from_2, sim.acceleration[0].y);
    // dt = 0: integration moves nothing.
    assert_eq!(0, sim.velocity[0].x);
    assert_eq!(0, sim.position[0].x);
}
