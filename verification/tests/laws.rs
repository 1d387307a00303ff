use rust_particles::physics::bodies::Particle3D;
use rust_particles::physics::isqrt;
use rust_particles::physics::nbody::step_simulation;
use rust_particles::physics::simulation::{Simulation3D, SimulationConfig3D};
use rust_particles::physics::vector::Vector3D;
use rust_particles::quadtree::boundingbox::BoundingBox;
use rust_particles::quadtree::tree::{ParticleQuadtree, NO_CHILD};

const COULOMB: i128 = 8_987_551_792;

/// The brute-force pairwise acceleration of one body against all others,
/// computed directly from the force law.
fn brute_force(bodies: &[(i64, i64, i64, i64)], i: usize, min_dist_sqrd: i64) -> (i64, i64) {
    let (xi, yi, qi, mi) = bodies[i];
    let mut ax: i128 = 0;
    let mut ay: i128 = 0;
    for (j, &(xj, yj, qj, mj)) in bodies.iter().enumerate() {
        if j == i {
            continue;
        }
        let dx = (xj - xi) as i128;
        let dy = (yj - yi) as i128;
        let d2 = dx * dx + dy * dy;
        if d2 < min_dist_sqrd as i128 {
            continue;
        }
        let d = isqrt(d2 as u128) as i128;
        ax += dx * mj as i128 / (d * d * d);
        ay += dy * mj as i128 / (d * d * d);
        let f = COULOMB * qj as i128 * qi as i128 / d2;
        if mi != 0 {
            ax += f * dx / (d * mi as i128);
            ay += f * dy / (d * mi as i128);
        }
    }
    (ax as i64, ay as i64)
}

#[test]
fn test_theta_zero_step_equals_brute_force() {
    // With theta = 0 the traversal degenerates to a direct sum, so the
    // accelerations of every particle equal the brute-force pairwise sum.
    let bodies: [(i64, i64, i64, i64); 4] = [
        (10_000, 20_000, 500, 800_000_000),
        (300_000, 25_000, -200, 1_000_000_000),
        (15_000, 450_000, 1_000, 650_000_000),
        (700_000, 800_000, -900, 40_000_000),
    ];
    let config = SimulationConfig3D::new(
        1,
        Vector3D::from_xy(0, 0),
        Vector3D::from_xy(1_000_000, 1_000_000),
    );
    let mut sim = Simulation3D::empty(bodies.len(), config);
    for (i, &(x, y, charge, mass)) in bodies.iter().enumerate() {
        sim.set(
            i,
            &Particle3D {
                charge,
                mass,
                position: Vector3D::from_xy(x, y),
                velocity: Vector3D::from_xy(0, 0),
            },
        );
    }
    step_simulation(&mut sim, 0, 0);
    for i in 0..bodies.len() {
        let (ax, ay) = brute_force(&bodies, i, 1);
        assert_eq!(ax, sim.acceleration[i].x, "x acceleration of body {}", i);
        assert_eq!(ay, sim.acceleration[i].y, "y acceleration of body {}", i);
    }
}

/// Sum of the masses of the leaves below node `n`, walked directly.
fn leaf_mass_below(t: &ParticleQuadtree, n: usize) -> i64 {
    if t.is_leaf(n) {
        t.nodes[n].mass
    } else {
        let mut total: i64 = 0;
        for q in 0..4 {
            let c = t.child_index(n, q);
            if c != NO_CHILD {
                total += leaf_mass_below(t, c as usize);
            }
        }
        total
    }
}

#[test]
fn test_every_internal_node_mass_is_its_leaf_sum() {
    // Bodies at well-separated positions: for every node of the tree,
    // internal or leaf, the stored mass equals the sum of the leaf
    // masses of its subtree exactly.
    let b = BoundingBox { min_x: 0, max_x: 1_000_000, min_y: 0, max_y: 1_000_000 };
    let mut t = ParticleQuadtree::empty();
    let bodies: [(i64, i64, i64); 6] = [
        (10_000, 20_000, 7),
        (900_000, 30_000, 11),
        (40_000, 880_000, 13),
        (870_000, 910_000, 17),
        (500_001, 499_999, 19),
        (120_000, 130_000, 23),
    ];
    for &(x, y, mass) in bodies.iter() {
        t.insert(x, y, 1, mass, b);
    }
    let total: i64 = bodies.iter().map(|&(_, _, m)| m).sum();
    assert_eq!(total, t.nodes[0].mass);
    for n in 0..t.nodes.len() {
        assert_eq!(t.nodes[n].mass, leaf_mass_below(&t, n), "node {}", n);
    }
}
