use rust_particles::physics::{
    abs_diff_i64, calculate_distance, calculate_kinetic_energy, calculate_momentum, isqrt,
    magnitude,
};

#[test]
fn test_calculate_distance() {
    let p1 = (0, 0);
    let p2 = (3, 4);

    assert_eq!(5, calculate_distance(p1, p2));
}

#[test]
fn test_calculate_kinetic_energy() {
    let m = 3;
    let v = 10;

    assert_eq!(150, calculate_kinetic_energy(m, v));
}

#[test]
fn test_calculate_momentum() {
    let m = 3;
    let v = 10;

    assert_eq!(30, calculate_momentum(m, v));
}

#[test]
fn test_magnitude() {
    assert_eq!(5, magnitude((3, 4)));
    assert_eq!(5, magnitude((-3, 4)));
    assert_eq!(0, magnitude((0, 0)));
}

#[test]
fn test_isqrt_exact_and_rounded() {
    assert_eq!(0, isqrt(0));
    assert_eq!(1, isqrt(1));
    assert_eq!(1, isqrt(3));
    assert_eq!(2, isqrt(4));
    assert_eq!(3, isqrt(15));
    assert_eq!(4, isqrt(16));
    assert_eq!(1_000_000, isqrt(1_000_000_000_000));
    assert_eq!(u64::MAX, isqrt(u128::MAX));
}

#[test]
fn test_abs_diff() {
    assert_eq!(7, abs_diff_i64(3, 10));
    assert_eq!(7, abs_diff_i64(10, 3));
    assert_eq!(0, abs_diff_i64(-5, -5));
    assert_eq!(u64::MAX, abs_diff_i64(i64::MAX, i64::MIN));
}

#[test]
fn test_distance_negative_coordinates() {
    assert_eq!(5, calculate_distance((-3, -4), (0, 0)));
    assert_eq!(10, calculate_distance((-5, 0), (5, 0)));
    // 2 * 2 + 3 * 3 = 13, between 3^2 and 4^2, so the distance rounds to 3
    assert_eq!(3, calculate_distance((1, 1), (3, 4)));
}
