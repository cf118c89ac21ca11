use verlet::fixed::{isqrt, saturate, COORD_LIMIT, SCALE};
use verlet::vec2::Vec2;

#[test]
fn scale_counts_trillionths() {
    assert_eq!(SCALE, 1_000_000_000_000);
    assert_eq!(COORD_LIMIT, 1_000_000 * SCALE);
}

#[test]
fn isqrt_of_small_numbers() {
    let expected: [(u128, u64); 10] =
        [(0, 0), (1, 1), (2, 1), (3, 1), (4, 2), (8, 2), (9, 3), (15, 3), (16, 4), (17, 4)];
    for (n, root) in expected {
        assert_eq!(isqrt(n), root, "isqrt({})", n);
    }
}

#[test]
fn isqrt_rounds_down_next_to_a_square() {
    assert_eq!(isqrt(1_000_000_000_000_000_000_000_000), 1_000_000_000_000);
    assert_eq!(isqrt(999_999_999_999_999_999_999_999), 999_999_999_999);
    assert_eq!(isqrt(1_000_000_000_000_000_000_000_001), 1_000_000_000_000);
}

#[test]
fn isqrt_of_the_largest_number() {
    assert_eq!(isqrt(u128::MAX), u64::MAX);
}

#[test]
fn isqrt_brackets_its_argument() {
    let mut n: u128 = 1;
    for _ in 0..120 {
        let root = isqrt(n) as u128;
        assert!(root * root <= n);
        assert!((root + 1) * (root + 1) > n);
        n = n * 2 + 1;
    }
}

#[test]
fn saturate_keeps_values_of_the_world() {
    assert_eq!(saturate(0), 0);
    assert_eq!(saturate(-17), -17);
    assert_eq!(saturate(COORD_LIMIT as i128), COORD_LIMIT);
    assert_eq!(saturate(-(COORD_LIMIT as i128)), -COORD_LIMIT);
}

#[test]
fn saturate_stops_at_the_edge_of_the_world() {
    assert_eq!(saturate(COORD_LIMIT as i128 + 1), COORD_LIMIT);
    assert_eq!(saturate(-(COORD_LIMIT as i128) - 1), -COORD_LIMIT);
    assert_eq!(saturate(i128::MAX), COORD_LIMIT);
    assert_eq!(saturate(i128::MIN), -COORD_LIMIT);
}

#[test]
fn vec2_new_and_zero() {
    assert_eq!(Vec2::new(3, -4), Vec2 { x: 3, y: -4 });
    assert_eq!(Vec2::zero(), Vec2 { x: 0, y: 0 });
}

#[test]
fn vec2_length_of_a_right_triangle() {
    assert_eq!(Vec2::new(3_000_000, 4_000_000).length(), 5_000_000);
    assert_eq!(Vec2::new(-3_000_000, 4_000_000).length(), 5_000_000);
    assert_eq!(Vec2::new(0, -7).length(), 7);
    assert_eq!(Vec2::zero().length(), 0);
}

#[test]
fn vec2_length_rounds_down() {
    assert_eq!(Vec2::new(1, 1).length(), 1);
    assert_eq!(Vec2::new(1_000_000, 1_000_000).length(), 1_414_213);
}

#[test]
fn vec2_length_of_the_longest_vector() {
    assert_eq!(Vec2::new(i64::MIN, i64::MIN).length(), 13_043_817_825_332_782_212);
    assert_eq!(Vec2::new(i64::MAX, 0).length(), i64::MAX as u64);
}
