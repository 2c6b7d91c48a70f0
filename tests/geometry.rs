use navsim::geometry::{distance_squared, ground_hit, isqrt, step_toward, Point3, COORD_LIMIT};

#[test]
fn isqrt_exact_and_rounded_down() {
    assert_eq!(isqrt(0), 0);
    assert_eq!(isqrt(1), 1);
    assert_eq!(isqrt(15), 3);
    assert_eq!(isqrt(16), 4);
    assert_eq!(isqrt(17), 4);
    assert_eq!(isqrt(1_000_000), 1_000);
    assert_eq!(isqrt(12_000_000_000_000_000_000), 3_464_101_615);
}

#[test]
fn distance_squared_of_3_4_5() {
    let a = Point3::new(0, 0, 0);
    let b = Point3::new(3_000, 0, 4_000);
    assert_eq!(distance_squared(a, b), 25_000_000);
    assert_eq!(distance_squared(b, a), 25_000_000);
}

#[test]
fn distance_squared_at_the_limits() {
    let a = Point3::new(-COORD_LIMIT, -COORD_LIMIT, -COORD_LIMIT);
    let b = Point3::new(COORD_LIMIT, COORD_LIMIT, COORD_LIMIT);
    assert_eq!(distance_squared(a, b), 12_000_000_000_000_000_000);
}

#[test]
fn step_moves_a_fraction_of_the_way() {
    let p = Point3::new(0, 0, 0);
    let t = Point3::new(3_000, 0, 4_000);
    // distance 5000, step 1000: one fifth of the way
    assert_eq!(step_toward(p, t, 1_000), Point3::new(600, 0, 800));
}

#[test]
fn step_moves_toward_negative_coordinates() {
    let p = Point3::new(1_000, 500, -200);
    let t = Point3::new(-2_000, 500, -4_200);
    assert_eq!(step_toward(p, t, 2_500), Point3::new(-500, 500, -2_200));
}

#[test]
fn step_never_passes_the_waypoint() {
    let p = Point3::new(0, 0, 0);
    let t = Point3::new(30, 0, 40);
    assert_eq!(step_toward(p, t, 1_000), t);
    assert_eq!(step_toward(p, t, 50), t);
}

#[test]
fn step_from_the_waypoint_stays_put() {
    let p = Point3::new(7, -3, 9);
    assert_eq!(step_toward(p, p, 1_000), p);
    assert_eq!(step_toward(p, p, 0), p);
}

#[test]
fn ground_hit_straight_down() {
    let o = Point3::new(1_000, 5_000, -2_000);
    let d = Point3::new(0, -1, 0);
    assert_eq!(ground_hit(o, d), Some(Point3::new(1_000, 0, -2_000)));
}

#[test]
fn ground_hit_slanted() {
    let o = Point3::new(0, 10_000, 0);
    let d = Point3::new(1_000, -2_000, -500);
    assert_eq!(ground_hit(o, d), Some(Point3::new(5_000, 0, -2_500)));
}

#[test]
fn ground_hit_rounds_toward_the_origin() {
    let o = Point3::new(0, 1_000, 0);
    let d = Point3::new(1, -3, -1);
    // the exact hit is (333.33, 0, -333.33)
    assert_eq!(ground_hit(o, d), Some(Point3::new(333, 0, -333)));
}

#[test]
fn ground_hit_parallel_ray_is_rejected() {
    let o = Point3::new(0, 10_000, 0);
    let d = Point3::new(1_000, 0, 1_000);
    assert_eq!(ground_hit(o, d), None);
}

#[test]
fn ground_hit_beyond_the_limits_is_rejected() {
    let o = Point3::new(0, COORD_LIMIT, 0);
    let d = Point3::new(COORD_LIMIT, -1, 0);
    assert_eq!(ground_hit(o, d), None);
}

#[test]
fn in_bounds_and_flattened() {
    assert!(Point3::new(COORD_LIMIT, -COORD_LIMIT, 0).in_bounds_exec());
    assert!(!Point3::new(COORD_LIMIT + 1, 0, 0).in_bounds_exec());
    assert_eq!(Point3::new(4, 700, -9).flattened(), Point3::new(4, 0, -9));
}
