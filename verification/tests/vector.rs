use rust_particles::physics::vector::Vector3D;

#[test]
fn test_zero_and_from_xy() {
    let z = Vector3D::zero();
    assert_eq!((0, 0, 0), (z.x, z.y, z.z));
    let v = Vector3D::from_xy(3, -4);
    assert_eq!((3, -4, 0), (v.x, v.y, v.z));
}

#[test]
fn test_to_xy_projects() {
    let v = Vector3D { x: 7, y: 9, z: 11 };
    assert_eq!((7, 9), v.to_xy());
}

#[test]
fn test_add_sub_scale() {
    let a = Vector3D { x: 1, y: 2, z: 3 };
    let b = Vector3D { x: 10, y: 20, z: 30 };
    assert_eq!(Vector3D { x: 11, y: 22, z: 33 }, a.add(b));
    assert_eq!(Vector3D { x: 9, y: 18, z: 27 }, b.sub(a));
    assert_eq!(Vector3D { x: -2, y: -4, z: -6 }, a.scale(-2));
}

#[test]
fn test_l2_sqrd_includes_all_components() {
    let v = Vector3D { x: 1, y: 2, z: 2 };
    assert_eq!(9, v.l2_sqrd());
    assert_eq!(25, Vector3D::from_xy(-3, 4).l2_sqrd());
}

#[test]
fn test_in_bounds_is_inclusive() {
    let min = Vector3D { x: 0, y: 0, z: 0 };
    let max = Vector3D { x: 10, y: 10, z: 10 };
    assert!(Vector3D { x: 0, y: 10, z: 5 }.in_bounds(&min, &max));
    assert!(!Vector3D { x: -1, y: 5, z: 5 }.in_bounds(&min, &max));
    assert!(!Vector3D { x: 5, y: 5, z: 11 }.in_bounds(&min, &max));
}
