use graph_search::geometry::{euclid_ceil, euclid_floor, isqrt, taxicab_dist};

#[test]
fn isqrt_exact_values() {
    assert_eq!(isqrt(0), 0);
    assert_eq!(isqrt(1), 1);
    assert_eq!(isqrt(15), 3);
    assert_eq!(isqrt(16), 4);
    assert_eq!(isqrt(17), 4);
    assert_eq!(isqrt(u64::MAX), 0xFFFF_FFFF);
}

#[test]
fn euclid_rounding() {
    // a 3-4-5 triangle is exact
    assert_eq!(euclid_floor((0, 0), (3, 4)), 5);
    assert_eq!(euclid_ceil((0, 0), (3, 4)), 5);
    // sqrt(2) rounds differently in the two directions
    assert_eq!(euclid_floor((0, 0), (1, 1)), 1);
    assert_eq!(euclid_ceil((0, 0), (1, 1)), 2);
    assert_eq!(euclid_floor((2, 2), (2, 2)), 0);
    assert_eq!(euclid_ceil((2, 2), (2, 2)), 0);
}

#[test]
fn taxicab_exact() {
    assert_eq!(taxicab_dist((0, 0), (3, 4)), 7);
    assert_eq!(taxicab_dist((3, 4), (0, 0)), 7);
    assert_eq!(taxicab_dist((5, 5), (5, 5)), 0);
}
