//! One simulation step: build the aggregation tree, accumulate each
//! particle's acceleration from an admissibility-driven traversal, and
//! integrate.

use vstd::prelude::*;

use crate::constants::{
    CHARGE_LIMIT, COORD_LIMIT, COULOMB_CONSTANT, MASS_LIMIT, TOTAL_MASS_LIMIT,
};
use crate::physics::div_trunc;
use crate::physics::simulation::{spec_clamp, spec_integrate_particle, Simulation3D};
use crate::physics::spec_sqrt_floor;
use crate::physics::vector::Vector3D;
use crate::quadtree::boundingbox::BoundingBox;
use crate::quadtree::tree::{
    abs_int, spec_contributors, spec_node_x, spec_node_y, spec_root_sums, wf_leaves, wf_node,
    wf_nodes, ParticleQuadtree, ParticleQuadtreeIterator, QuadNode,
};

verus! {

/// The contribution of one tree node to a query particle's acceleration.
///
/// Displacements below the softening floor contribute nothing. Otherwise
/// the gravitational term adds `displacement * mass / d³` per axis, and
/// the electrostatic term adds the Coulomb force
/// `COULOMB_CONSTANT * q_node * q_i / d²` resolved into x/y components
/// along the displacement direction — `f * dx / d` and `f * dy / d` —
/// divided by the particle's own mass; a massless particle takes no
/// electrostatic acceleration.
pub open spec fn spec_node_accel(
    node: QuadNode,
    px: int,
    py: int,
    qi: int,
    mi: int,
    min_dist_sqrd: int,
) -> (int, int) {
    let dx = spec_node_x(node) - px;
    let dy = spec_node_y(node) - py;
    let d2 = dx * dx + dy * dy;
    if d2 < min_dist_sqrd {
        (0, 0)
    } else {
        let d = spec_sqrt_floor(d2);
        let gx = div_trunc(dx * node.mass, d * d * d);
        let gy = div_trunc(dy * node.mass, d * d * d);
        let f = div_trunc(COULOMB_CONSTANT * node.charge * qi, d2);
        let cx = if mi == 0 {
            0
        } else {
            div_trunc(f * dx, d * mi)
        };
        let cy = if mi == 0 {
            0
        } else {
            div_trunc(f * dy, d * mi)
        };
        (gx + cx, gy + cy)
    }
}

/// Saturating accumulation of a contribution into a machine-word
/// component: an out-of-range sum is pinned to the nearest representable
/// value rather than allowed to corrupt the trajectory.
pub open spec fn spec_clamp_add(acc: int, delta: int) -> int {
    spec_clamp(acc + delta, i64::MIN as int, i64::MAX as int)
}

/// Acceleration accumulated after folding the first `k` contributors of a
/// traversal, starting from zero.
pub open spec fn spec_accel_fold(
    nodes: Seq<QuadNode>,
    yields: Seq<u64>,
    k: int,
    px: int,
    py: int,
    qi: int,
    mi: int,
    min_dist_sqrd: int,
) -> (int, int)
    decreases k,
{
    if k <= 0 {
        (0, 0)
    } else {
        let prev = spec_accel_fold(nodes, yields, k - 1, px, py, qi, mi, min_dist_sqrd);
        let delta = spec_node_accel(nodes[yields[k - 1] as int], px, py, qi, mi, min_dist_sqrd);
        (spec_clamp_add(prev.0, delta.0), spec_clamp_add(prev.1, delta.1))
    }
}

/// The acceleration one traversal assigns to a particle: the fold of all
/// its contributors, as a vector in the x/y plane.
pub open spec fn spec_accel_of(
    nodes: Seq<QuadNode>,
    bb: BoundingBox,
    theta: u64,
    px: i64,
    py: i64,
    qi: i64,
    mi: i64,
    min_dist_sqrd: i64,
) -> Vector3D {
    let yields = spec_contributors(nodes, 0, bb, px as int, py as int, theta);
    let a = spec_accel_fold(
        nodes,
        yields,
        yields.len() as int,
        px as int,
        py as int,
        qi as int,
        mi as int,
        min_dist_sqrd as int,
    );
    Vector3D { x: a.0 as i64, y: a.1 as i64, z: 0 }
}

/// The bounding box a simulation spans, derived from its configuration.
pub open spec fn spec_sim_box(sim: Simulation3D) -> BoundingBox {
    BoundingBox {
        min_x: sim.config.min_r.x,
        max_x: sim.config.max_r.x,
        min_y: sim.config.min_r.y,
        max_y: sim.config.max_r.y,
    }
}

/// Computes one node's exact contribution to a particle's acceleration.
fn node_accel(tree: &ParticleQuadtree, n: u64, px: i64, py: i64, qi: i64, mi: i64,
    min_dist_sqrd: i64) -> (r: (i128, i128))
    requires
        tree.wf(),
        n < tree.nodes@.len(),
        -COORD_LIMIT <= px <= COORD_LIMIT,
        -COORD_LIMIT <= py <= COORD_LIMIT,
        -CHARGE_LIMIT <= qi <= CHARGE_LIMIT,
        0 <= mi <= MASS_LIMIT,
        1 <= min_dist_sqrd,
    ensures
        (r.0 as int, r.1 as int) == spec_node_accel(
            tree.nodes@[n as int],
            px as int,
            py as int,
            qi as int,
            mi as int,
            min_dist_sqrd as int,
        ),
        -20_000_000_000_000_000_000_000_000_000 <= r.0 <= 20_000_000_000_000_000_000_000_000_000,
        -20_000_000_000_000_000_000_000_000_000 <= r.1 <= 20_000_000_000_000_000_000_000_000_000,
{
    let count = tree.nodes.len();
    proof {
        assert(n < count);
        assert(wf_node(tree.nodes@, n as int));
        assert(wf_node(tree.nodes@, 0));
        crate::quadtree::tree::lemma_wf_node_com_bounds(tree.nodes@, n as int);
    }
    let nx = tree.x(n as usize);
    let ny = tree.y(n as usize);
    let node = tree.nodes[n as usize];
    let dx: i64 = nx - px;
    let dy: i64 = ny - py;
    proof {
        crate::physics::lemma_mul_abs_bound(dx as int, dx as int, 2_000_000_000, 2_000_000_000);
        crate::physics::lemma_mul_abs_bound(dy as int, dy as int, 2_000_000_000, 2_000_000_000);
        crate::physics::vector::lemma_square_nonneg(dx as int);
        crate::physics::vector::lemma_square_nonneg(dy as int);
    }
    let d2: i64 = dx * dx + dy * dy;
    if d2 < min_dist_sqrd {
        return (0, 0);
    }
    let d: u64 = crate::physics::isqrt(d2 as u128);
    proof {
        assert((d2 as u128) as int == d2 as int);
        crate::physics::lemma_sqrt_floor_unique((d2 as int), d as int);
        assert(d >= 1) by (nonlinear_arith)
            requires
                d2 >= 1 && d >= 0 && (d2 as int) < (d + 1) * (d + 1),
        ;
        assert(d <= 3_000_000_000) by (nonlinear_arith)
            requires
                (d as int) * (d as int) <= 8_000_000_000_000_000_000,
        ;
        crate::physics::lemma_mul_abs_bound(d as int, d as int, 3_000_000_000, 3_000_000_000);
        crate::physics::lemma_mul_abs_bound(
            (d as int) * (d as int),
            d as int,
            9_000_000_000_000_000_000,
            3_000_000_000,
        );
        assert((d as int) * (d as int) * (d as int) >= 1) by (nonlinear_arith)
            requires
                d >= 1,
        ;
    }
    let d3: i128 = (d as i128) * (d as i128) * (d as i128);
    proof {
        assert(node.mass <= TOTAL_MASS_LIMIT);
        crate::physics::lemma_mul_abs_bound(
            dx as int,
            node.mass as int,
            2_000_000_000,
            TOTAL_MASS_LIMIT as int,
        );
        crate::physics::lemma_mul_abs_bound(
            dy as int,
            node.mass as int,
            2_000_000_000,
            TOTAL_MASS_LIMIT as int,
        );
    }
    let gx: i128 = (dx as i128) * (node.mass as i128) / d3;
    let gy: i128 = (dy as i128) * (node.mass as i128) / d3;
    proof {
        crate::physics::lemma_div_trunc_abs_bound(
            (dx as int) * (node.mass as int),
            d3 as int,
            2_000_000_000_000_000_000_000,
        );
        crate::physics::lemma_div_trunc_abs_bound(
            (dy as int) * (node.mass as int),
            d3 as int,
            2_000_000_000_000_000_000_000,
        );
        crate::physics::lemma_mul_abs_bound(
            COULOMB_CONSTANT as int,
            node.charge as int,
            9_000_000_000,
            1_000_000_000_000_000,
        );
        crate::physics::lemma_mul_abs_bound(
            (COULOMB_CONSTANT as int) * (node.charge as int),
            qi as int,
            9_000_000_000_000_000_000_000_000,
            CHARGE_LIMIT as int,
        );
    }
    let f: i128 = (COULOMB_CONSTANT as i128) * (node.charge as i128) * (qi as i128) / (d2 as i128);
    proof {
        crate::physics::lemma_div_trunc_abs_bound(
            (COULOMB_CONSTANT as int) * (node.charge as int) * (qi as int),
            d2 as int,
            9_000_000_000_000_000_000_000_000_000,
        );
    }
    let mut cx: i128 = 0;
    let mut cy: i128 = 0;
    if mi != 0 {
        proof {
            crate::physics::lemma_mul_abs_bound(d as int, mi as int, 3_000_000_000,
            MASS_LIMIT as int);
        }
        let dm: i128 = (d as i128) * (mi as i128);
        proof {
            assert(dm >= 1) by (nonlinear_arith)
                requires
                    d >= 1 && mi >= 1 && dm == (d as int) * (mi as int),
            ;
            crate::physics::lemma_mul_abs_bound(
                f as int,
                dx as int,
                9_000_000_000_000_000_000_000_000_000,
                2_000_000_000,
            );
            crate::physics::lemma_mul_abs_bound(
                f as int,
                dy as int,
                9_000_000_000_000_000_000_000_000_000,
                2_000_000_000,
            );
        }
        cx = f * (dx as i128) / dm;
        cy = f * (dy as i128) / dm;
        proof {
            crate::physics::lemma_div_trunc_abs_bound(
                (f as int) * (dx as int),
                dm as int,
                18_000_000_000_000_000_000_000_000_000_000_000_000,
            );
            crate::physics::lemma_div_trunc_abs_bound(
                (f as int) * (dy as int),
                dm as int,
                18_000_000_000_000_000_000_000_000_000_000_000_000,
            );
        }
    }
    proof {
        lemma_node_accel_bounds(
            tree.nodes@[n as int],
            px as int,
            py as int,
            qi as int,
            mi as int,
            min_dist_sqrd as int,
        );
    }
    (gx + cx, gy + cy)
}

/// Saturating accumulation of one contribution into an axis accumulator.
fn clamp_add(acc: i64, delta: i128) -> (r: i64)
    requires
        -20_000_000_000_000_000_000_000_000_000 <= delta
            <= 20_000_000_000_000_000_000_000_000_000,
    ensures
        r as int == spec_clamp_add(acc as int, delta as int),
{
    let sum: i128 = (acc as i128) + delta;
    if sum < i64::MIN as i128 {
        i64::MIN
    } else if sum > i64::MAX as i128 {
        i64::MAX
    } else {
        sum as i64
    }
}

/// The force-accumulation phase of one step: for every particle, resets
/// its acceleration and refills it from one traversal of the tree, as the
/// fold of the exact per-node contributions over the contributor sequence.
#[verifier::loop_isolation(false)]
pub fn accumulate_forces(
    sim: &mut Simulation3D,
    tree: &ParticleQuadtree,
    bounding_box: BoundingBox,
    theta: u64,
)
    requires
        old(sim).wf(),
        tree.wf(),
        bounding_box.wf(),
    ensures
        final(sim).wf(),
        final(sim).number == old(sim).number,
        final(sim).timescale == old(sim).timescale,
        final(sim).config == old(sim).config,
        final(sim).charge@ == old(sim).charge@,
        final(sim).mass@ == old(sim).mass@,
        final(sim).position@ == old(sim).position@,
        final(sim).velocity@ == old(sim).velocity@,
        final(sim).acceleration@.len() == old(sim).number,
        forall|i: int|
            0 <= i < old(sim).number ==> #[trigger] final(sim).acceleration@[i] == spec_accel_of(
                tree.nodes@,
                bounding_box,
                theta,
                old(sim).position@[i].x,
                old(sim).position@[i].y,
                old(sim).charge@[i],
                old(sim).mass@[i],
                old(sim).config.min_dist_sqrd,
            ),
{
    let n = sim.number;
    let mut i: usize = 0;
    while i < n
        invariant
            sim.number == n,
            sim.timescale == old(sim).timescale,
            sim.config == old(sim).config,
            sim.charge@ == old(sim).charge@,
            sim.mass@ == old(sim).mass@,
            sim.position@ == old(sim).position@,
            sim.velocity@ == old(sim).velocity@,
            sim.acceleration@.len() == n,
            0 <= i <= n,
            forall|j: int|
                0 <= j < i ==> #[trigger] sim.acceleration@[j] == spec_accel_of(
                    tree.nodes@,
                    bounding_box,
                    theta,
                    old(sim).position@[j].x,
                    old(sim).position@[j].y,
                    old(sim).charge@[j],
                    old(sim).mass@[j],
                    old(sim).config.min_dist_sqrd,
                ),
        decreases n - i,
    {
        let pos = read_position(sim, i);
        let qi = sim.charge[i];
        let mi = sim.mass[i];
        let mds = sim.config.min_dist_sqrd;
        proof {
            assert(mds >= 1) by (nonlinear_arith)
                requires
                    mds == sim.config.min_dist * sim.config.min_dist && sim.config.min_dist >= 1,
            ;
        }
        let ghost yields = spec_contributors(
            tree.nodes@,
            0,
            bounding_box,
            pos.x as int,
            pos.y as int,
            theta,
        );
        let mut it = ParticleQuadtreeIterator::new(pos.x, pos.y, theta, tree, bounding_box);
        let mut ax: i64 = 0;
        let mut ay: i64 = 0;
        let ghost mut k: int = 0;
        proof {
            assert(yields.skip(0) =~= yields);
        }
        loop
            invariant
                it.wf_for(*tree),
                it.x == pos.x,
                it.y == pos.y,
                it.theta == theta,
                0 <= k <= yields.len(),
                it.spec_remaining(*tree) == yields.skip(k),
                (ax as int, ay as int) == spec_accel_fold(
                    tree.nodes@,
                    yields,
                    k,
                    pos.x as int,
                    pos.y as int,
                    qi as int,
                    mi as int,
                    mds as int,
                ),
            decreases it.spec_remaining(*tree).len(),
        {
            let ghost rem_pre = it.spec_remaining(*tree);
            let nxt = it.next(tree);
            match nxt {
                Option::None => {
                    proof {
                        assert(yields.skip(k).len() == 0);
                        assert(k == yields.len());
                    }
                    break ;
                },
                Option::Some(idx) => {
                    proof {
                        assert(rem_pre =~= seq![idx] + it.spec_remaining(*tree));
                        assert(rem_pre[0] == idx);
                        assert(yields.skip(k)[0] == yields[k]);
                        assert(yields[k] == idx);
                        assert(it.spec_remaining(*tree) =~= yields.skip(k + 1)) by {
                            assert forall|j: int|
                                0 <= j < it.spec_remaining(*tree).len() implies it.spec_remaining(
                                *tree,
                            )[j] == yields.skip(k + 1)[j] by {
                                assert(it.spec_remaining(*tree)[j] == rem_pre[j + 1]);
                                assert(rem_pre[j + 1] == yields[k + j + 1]);
                            }
                        }
                    }
                    let delta = node_accel(tree, idx, pos.x, pos.y, qi, mi, mds);
                    ax = clamp_add(ax, delta.0);
                    ay = clamp_add(ay, delta.1);
                    proof {
                        k = k + 1;
                    }
                },
            }
        }
        sim.acceleration.set(
            i,
            Vector3D { x: ax, y: ay, z: 0 },
        );
        i = i + 1;
    }
}

/// Reads one position; a helper so the borrow of the array ends before the
/// traversal begins.
fn read_position(sim: &Simulation3D, i: usize) -> (r: Vector3D)
    requires
        sim.wf(),
        i < sim.number,
    ensures
        r == sim.position@[i as int],
        -COORD_LIMIT <= r.x <= COORD_LIMIT,
        -COORD_LIMIT <= r.y <= COORD_LIMIT,
{
    sim.position[i]
}

/// One full simulation step: derive the bounding box from the
/// configuration, build the aggregation tree from the current arrays, run
/// one force traversal per particle, and integrate.
///
/// The tree is built fresh and discarded within the step; its root
/// aggregates the inserted bodies exactly as `spec_root_sums` states, the
/// accelerations are the exact contribution folds over that tree's
/// traversals, and the positions and velocities then advance by exactly
/// one `spec_integrate_particle` step.
pub fn step_simulation(sim: &mut Simulation3D, dt: i32, theta: u64)
    requires
        old(sim).wf(),
    ensures
        final(sim).wf(),
        final(sim).number == old(sim).number,
        final(sim).timescale == old(sim).timescale,
        final(sim).config == old(sim).config,
        final(sim).charge@ == old(sim).charge@,
        final(sim).mass@ == old(sim).mass@,
        forall|i: int|
            0 <= i < old(sim).number ==> (
            #[trigger] final(sim).position@[i],
            final(sim).velocity@[i],
        ) == spec_integrate_particle(
            old(sim).position@[i],
            old(sim).velocity@[i],
            final(sim).acceleration@[i],
            old(sim).mass@[i],
            dt,
            old(sim).timescale,
            old(sim).config,
        ),
        exists|tnodes: Seq<QuadNode>|
            {
                &&& #[trigger] wf_nodes(tnodes)
                &&& wf_leaves(tnodes)
                &&& ({
                    let sums = spec_root_sums(
                        old(sim).position@,
                        old(sim).charge@,
                        old(sim).mass@,
                        old(sim).number as int,
                    );
                    tnodes[0].wx == sums.wx && tnodes[0].wy == sums.wy && tnodes[0].charge
                        == sums.charge && tnodes[0].mass == sums.mass
                })
                &&& forall|i: int|
                    0 <= i < old(sim).number ==> #[trigger] final(sim).acceleration@[i]
                        == spec_accel_of(
                        tnodes,
                        spec_sim_box(*old(sim)),
                        theta,
                        old(sim).position@[i].x,
                        old(sim).position@[i].y,
                        old(sim).charge@[i],
                        old(sim).mass@[i],
                        old(sim).config.min_dist_sqrd,
                    )
            },
{
    let (min_x, min_y) = sim.config.min_r.to_xy();
    let (max_x, max_y) = sim.config.max_r.to_xy();
    let bounding_box = BoundingBox { min_x, max_x, min_y, max_y };
    let particle_tree = ParticleQuadtree::new(&sim.position, &sim.charge, &sim.mass, bounding_box);
    accumulate_forces(sim, &particle_tree, bounding_box, theta);
    sim.integrate(dt);
    proof {
        assert(bounding_box == spec_sim_box(*old(sim)));
        assert(wf_nodes(particle_tree.nodes@));
    }
}

/// Every node contribution is bounded well inside 128 bits: the Coulomb
/// term never exceeds the Coulomb force itself, because the displacement
/// component is at most the distance.
proof fn lemma_node_accel_bounds(node: QuadNode, px: int, py: int, qi: int, mi: int, mds: int)
    requires
        abs_int(node.charge as int) <= TOTAL_MASS_LIMIT * CHARGE_LIMIT,
        0 <= node.mass <= TOTAL_MASS_LIMIT,
        -COORD_LIMIT <= spec_node_x(node) <= COORD_LIMIT,
        -COORD_LIMIT <= spec_node_y(node) <= COORD_LIMIT,
        -COORD_LIMIT <= px <= COORD_LIMIT,
        -COORD_LIMIT <= py <= COORD_LIMIT,
        -CHARGE_LIMIT <= qi <= CHARGE_LIMIT,
        0 <= mi <= MASS_LIMIT,
        1 <= mds,
    ensures
        ({
            let a = spec_node_accel(node, px, py, qi, mi, mds);
            -20_000_000_000_000_000_000_000_000_000 <= a.0 <= 20_000_000_000_000_000_000_000_000_000
                && -20_000_000_000_000_000_000_000_000_000 <= a.1
                <= 20_000_000_000_000_000_000_000_000_000
        }),
{
    let dx = spec_node_x(node) - px;
    let dy = spec_node_y(node) - py;
    let d2 = dx * dx + dy * dy;
    if d2 >= mds {
        crate::physics::vector::lemma_square_nonneg(dx);
        crate::physics::vector::lemma_square_nonneg(dy);
        crate::physics::lemma_sqrt_floor_props(d2);
        let d = spec_sqrt_floor(d2);
        assert(d >= 1) by (nonlinear_arith)
            requires
                d2 >= 1 && d >= 0 && d2 < (d + 1) * (d + 1),
        ;
        assert(d * d * d >= 1) by (nonlinear_arith)
            requires
                d >= 1,
        ;
        assert(abs_int(dx) <= d && abs_int(dy) <= d) by (nonlinear_arith)
            requires
                dx * dx <= d2 && dy * dy <= d2 && d2 < (d + 1) * (d + 1) && d >= 0,
        ;
        crate::physics::lemma_mul_abs_bound(dx, node.mass as int, 2_000_000_000,
        TOTAL_MASS_LIMIT as int);
        crate::physics::lemma_mul_abs_bound(dy, node.mass as int, 2_000_000_000,
        TOTAL_MASS_LIMIT as int);
        crate::physics::lemma_div_trunc_abs_bound(
            dx * node.mass,
            d * d * d,
            2_000_000_000_000_000_000_000,
        );
        crate::physics::lemma_div_trunc_abs_bound(
            dy * node.mass,
            d * d * d,
            2_000_000_000_000_000_000_000,
        );
        crate::physics::lemma_mul_abs_bound(
            COULOMB_CONSTANT as int,
            node.charge as int,
            9_000_000_000,
            1_000_000_000_000_000,
        );
        crate::physics::lemma_mul_abs_bound(
            (COULOMB_CONSTANT as int) * (node.charge as int),
            qi,
            9_000_000_000_000_000_000_000_000,
            CHARGE_LIMIT as int,
        );
        let f = div_trunc(COULOMB_CONSTANT * node.charge * qi, d2);
        crate::physics::lemma_div_trunc_abs_bound(
            (COULOMB_CONSTANT as int) * (node.charge as int) * qi,
            d2,
            9_000_000_000_000_000_000_000_000_000,
        );
        if mi != 0 {
            assert(d * mi >= 1) by (nonlinear_arith)
                requires
                    d >= 1 && mi >= 1,
            ;
            assert(
                -(d * mi) * 9_000_000_000_000_000_000_000_000_000 <= f * dx <= (d * mi)
                    * 9_000_000_000_000_000_000_000_000_000 && -(d * mi)
                    * 9_000_000_000_000_000_000_000_000_000 <= f * dy <= (d * mi)
                    * 9_000_000_000_000_000_000_000_000_000) by (nonlinear_arith)
                requires
                    -9_000_000_000_000_000_000_000_000_000 <= f
                        <= 9_000_000_000_000_000_000_000_000_000 && -d <= dx <= d && -d <= dy
                        <= d && 1 <= mi,
            ;
            crate::quadtree::tree::lemma_div_trunc_bound(
                f * dx,
                d * mi,
                9_000_000_000_000_000_000_000_000_000,
            );
            crate::quadtree::tree::lemma_div_trunc_bound(
                f * dy,
                d * mi,
                9_000_000_000_000_000_000_000_000_000,
            );
        }
    }
}

} // verus!
