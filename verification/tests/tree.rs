use rust_particles::quadtree::boundingbox::BoundingBox;
use rust_particles::quadtree::tree::{ParticleQuadtree, ParticleQuadtreeIterator, NO_CHILD};
use rust_particles::physics::vector::Vector3D;

fn full_box() -> BoundingBox {
    BoundingBox { min_x: 0, max_x: 1_000_000, min_y: 0, max_y: 1_000_000 }
}

#[test]
fn test_empty_tree_is_single_empty_leaf() {
    let t = ParticleQuadtree::empty();
    assert_eq!(1, t.nodes.len());
    assert!(t.is_leaf(0));
    assert_eq!(0, t.nodes[0].mass);
    assert_eq!(0, t.nodes[0].charge);
    assert_eq!(0, t.x(0));
    assert_eq!(0, t.y(0));
}

#[test]
fn test_first_insert_fills_the_root() {
    let mut t = ParticleQuadtree::empty();
    t.insert(5_000, 7_000, 42, 10, full_box());
    assert_eq!(1, t.nodes.len());
    assert!(t.is_leaf(0));
    assert_eq!(10, t.nodes[0].mass);
    assert_eq!(42, t.nodes[0].charge);
    assert_eq!(5_000, t.x(0));
    assert_eq!(7_000, t.y(0));
}

#[test]
fn test_massless_or_chargeless_bodies_are_dropped() {
    let mut t = ParticleQuadtree::empty();
    t.insert(5_000, 7_000, 42, 0, full_box());
    assert_eq!(0, t.nodes[0].mass);
    t.insert(5_000, 7_000, 0, 10, full_box());
    assert_eq!(0, t.nodes[0].mass);
    assert_eq!(1, t.nodes.len());
}

#[test]
fn test_near_duplicate_insertion_is_discarded() {
    // Two bodies closer than the coincidence tolerance on both axes:
    // the second insertion is dropped and the tree keeps exactly one
    // leaf for the pair.
    let mut t = ParticleQuadtree::empty();
    t.insert(5_000, 5_000, 5, 10, full_box());
    t.insert(5_050, 4_930, 7, 20, full_box());
    assert_eq!(1, t.nodes.len());
    assert!(t.is_leaf(0));
    assert_eq!(10, t.nodes[0].mass);
    assert_eq!(5, t.nodes[0].charge);
}

#[test]
fn test_exact_tolerance_gap_is_kept() {
    // A gap of exactly the tolerance is not "within" it: the body stays.
    let mut t = ParticleQuadtree::empty();
    t.insert(5_000, 5_000, 5, 10, full_box());
    t.insert(5_100, 5_000, 7, 20, full_box());
    assert!(t.nodes.len() > 1);
    assert_eq!(30, t.nodes[0].mass);
}

#[test]
fn test_root_aggregates_two_separated_bodies() {
    // The root holds the exact sums: mass 10 at (0, 0) merged with mass
    // 30 at (1000, 2000) puts the center of mass at (750, 1500).
    let mut t = ParticleQuadtree::empty();
    t.insert(0, 0, 5, 10, full_box());
    t.insert(1_000, 2_000, -3, 30, full_box());
    assert_eq!(40, t.nodes[0].mass);
    assert_eq!(2, t.nodes[0].charge);
    assert_eq!(30_000, t.nodes[0].wx);
    assert_eq!(60_000, t.nodes[0].wy);
    assert_eq!(750, t.x(0));
    assert_eq!(1_500, t.y(0));
    assert!(!t.is_leaf(0));
}

#[test]
fn test_new_builds_root_totals_from_arrays() {
    // Center of mass of the whole set is the mass-weighted average of
    // the body positions, exactly.
    let position = vec![
        Vector3D { x: 0, y: 0, z: 0 },
        Vector3D { x: 1_000, y: 2_000, z: 0 },
        Vector3D { x: 500_000, y: 400, z: 0 },
    ];
    let charge = vec![5, -3, 1];
    let mass = vec![10, 30, 60];
    let t = ParticleQuadtree::new(&position, &charge, &mass, full_box());
    assert_eq!(100, t.nodes[0].mass);
    assert_eq!(3, t.nodes[0].charge);
    assert_eq!(10 * 0 + 30 * 1_000 + 60 * 500_000, t.nodes[0].wx);
    assert_eq!(10 * 0 + 30 * 2_000 + 60 * 400, t.nodes[0].wy);
    assert_eq!(t.nodes[0].wx / 100, t.x(0) as i128);
}

#[test]
fn test_internal_mass_is_sum_of_descendant_leaves() {
    // Three well-separated bodies: every internal node's mass is the sum
    // of the leaf masses below it.
    let mut t = ParticleQuadtree::empty();
    t.insert(100_000, 100_000, 1, 7, full_box());
    t.insert(900_000, 100_000, 1, 11, full_box());
    t.insert(100_000, 900_000, 1, 13, full_box());
    assert_eq!(31, t.nodes[0].mass);
    let mut leaf_mass_total = 0;
    for n in 0..t.nodes.len() {
        if t.is_leaf(n) {
            leaf_mass_total += t.nodes[n].mass;
        }
    }
    assert_eq!(31, leaf_mass_total);
}

#[test]
fn test_new_child_links_and_overwrites() {
    let mut t = ParticleQuadtree::empty();
    t.insert(5_000, 5_000, 5, 10, full_box());
    t.new_child(0, 2, 1_000, 900_000, 3, 4);
    assert_eq!(2, t.nodes.len());
    assert_eq!(1, t.nodes[0].child_nw);
    assert!(t.is_leaf(1));
    assert_eq!(4, t.nodes[1].mass);
    assert_eq!(1_000, t.x(1));
    // A second link to the same slot replaces the first.
    t.new_child(0, 2, 2_000, 800_000, 1, 6);
    assert_eq!(3, t.nodes.len());
    assert_eq!(2, t.nodes[0].child_nw);
}

#[test]
fn test_update_center_of_mass_accumulates_weighted_sums() {
    let mut t = ParticleQuadtree::empty();
    t.insert(100, 200, 5, 10, full_box());
    t.update_center_of_mass(0, 400, 800, 30);
    assert_eq!(40, t.nodes[0].mass);
    assert_eq!(10 * 100 + 30 * 400, t.nodes[0].wx);
    assert_eq!(10 * 200 + 30 * 800, t.nodes[0].wy);
    // Charge is accounted separately from the center of mass.
    assert_eq!(5, t.nodes[0].charge);
}

#[test]
fn test_traversal_with_theta_zero_yields_exactly_the_leaves() {
    // With theta = 0 the traversal degenerates to a direct sum: every
    // leaf is produced once and no internal node is produced.
    let mut t = ParticleQuadtree::empty();
    t.insert(100_000, 100_000, 1, 7, full_box());
    t.insert(900_000, 100_000, 1, 11, full_box());
    t.insert(100_000, 900_000, 1, 13, full_box());
    let mut it = ParticleQuadtreeIterator::new(100_000, 100_000, 0, &t, full_box());
    let mut yielded = Vec::new();
    while let Some(n) = it.next(&t) {
        assert!(t.is_leaf(n as usize));
        yielded.push(n);
    }
    let mut leaves = Vec::new();
    for n in 0..t.nodes.len() {
        if t.is_leaf(n) {
            leaves.push(n as u64);
        }
    }
    assert_eq!(leaves.len(), yielded.len());
    for leaf in leaves {
        assert!(yielded.contains(&leaf));
    }
}

#[test]
fn test_coarser_theta_visits_fewer_nodes() {
    // Increasing theta admits aggregates sooner: the number of nodes the
    // traversal visits falls monotonically.
    let mut t = ParticleQuadtree::empty();
    t.insert(100_000, 100_000, 1, 7, full_box());
    t.insert(900_000, 100_000, 1, 11, full_box());
    t.insert(100_000, 900_000, 1, 13, full_box());
    t.insert(900_000, 900_000, 1, 17, full_box());

    let visited = |theta: u64| -> usize {
        let mut it = ParticleQuadtreeIterator::new(-500_000, -500_000, theta, &t, full_box());
        let mut count: usize = 0;
        while it.next(&t).is_some() {
            count += 1;
        }
        count
    };
    let exact = visited(0);
    let medium = visited(1_000_000);
    let coarse = visited(100_000_000);
    assert!(medium <= exact);
    assert!(coarse <= medium);
    assert_eq!(4, exact);
    assert_eq!(1, coarse);
}

#[test]
fn test_iterator_on_empty_tree_yields_the_empty_root() {
    let t = ParticleQuadtree::empty();
    let mut it = ParticleQuadtreeIterator::new(5, 5, 0, &t, full_box());
    assert_eq!(Some(0), it.next(&t));
    assert_eq!(None, it.next(&t));
}

#[test]
fn test_no_child_marks_absent_slots() {
    let t = ParticleQuadtree::empty();
    assert_eq!(NO_CHILD, t.nodes[0].child_sw);
    assert_eq!(NO_CHILD, t.child_index(0, 3));
}

#[test]
fn test_degenerate_split_keeps_both_bodies_as_siblings() {
    // Two bodies left of the whole box always share a quadrant, so the
    // split subdivides until the box cannot shrink and then places both
    // bodies as sibling leaves of the stopped node: neither is lost.
    let b = BoundingBox { min_x: 200, max_x: 1_000_000, min_y: 200, max_y: 1_000_000 };
    let mut t = ParticleQuadtree::empty();
    t.insert(0, 0, 1, 10, b);
    t.insert(100, 0, 1, 20, b);
    assert_eq!(30, t.nodes[0].mass);
    let mut leaf_masses = Vec::new();
    for n in 0..t.nodes.len() {
        if t.is_leaf(n) {
            leaf_masses.push(t.nodes[n].mass);
        }
    }
    leaf_masses.sort();
    assert_eq!(vec![10, 20], leaf_masses);
}
