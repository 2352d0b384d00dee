use growing_tree::branching::{child_end, cos_sin, integer_sqrt};
use growing_tree::geometry::{
    check_intersection, cubic_out, distance_squared, div_floor, div_round, lerp, Point, UNIT,
};
use growing_tree::random::Rng;

fn p(x: i64, y: i64) -> Point {
    Point::new(x, y)
}

#[test]
fn crossing_diagonals_meet_in_the_middle() {
    let r = check_intersection(p(0, 0), p(UNIT, UNIT), p(UNIT, 0), p(0, UNIT));
    assert_eq!(r, Some(p(UNIT / 2, UNIT / 2)));
}

#[test]
fn parallel_segments_do_not_intersect() {
    let r = check_intersection(p(0, 0), p(UNIT, 0), p(0, UNIT), p(UNIT, UNIT));
    assert_eq!(r, None);
}

#[test]
fn collinear_overlapping_segments_do_not_intersect() {
    let r = check_intersection(p(0, 0), p(UNIT, 0), p(UNIT / 2, 0), p(2 * UNIT, 0));
    assert_eq!(r, None);
}

#[test]
fn shared_endpoint_is_no_intersection() {
    assert_eq!(check_intersection(p(0, 0), p(UNIT, UNIT), p(0, 0), p(0, UNIT)), None);
    assert_eq!(check_intersection(p(0, 0), p(UNIT, UNIT), p(UNIT, 0), p(0, 0)), None);
    assert_eq!(check_intersection(p(UNIT, UNIT), p(0, 0), p(0, UNIT), p(0, 0)), None);
}

#[test]
fn crossing_of_lines_outside_the_segments_is_no_intersection() {
    let r = check_intersection(p(0, 0), p(UNIT, UNIT), p(3 * UNIT / 2, 0), p(2 * UNIT, -UNIT));
    assert_eq!(r, None);
}

#[test]
fn touching_at_an_end_counts() {
    let r = check_intersection(p(0, 0), p(UNIT, 0), p(UNIT / 2, 0), p(UNIT / 2, UNIT));
    assert_eq!(r, Some(p(UNIT / 2, 0)));
}

#[test]
fn intersection_point_is_rounded_along_the_first_segment() {
    let r = check_intersection(p(0, 0), p(3, 0), p(1, -1), p(1, 1));
    assert_eq!(r, Some(p(1, 0)));
    let r = check_intersection(p(0, 0), p(0, 3), p(-1, 2), p(1, 2));
    assert_eq!(r, Some(p(0, 2)));
}

#[test]
fn floor_and_round_division() {
    assert_eq!(div_floor(7, 2), 3);
    assert_eq!(div_floor(-7, 2), -4);
    assert_eq!(div_floor(-8, 2), -4);
    assert_eq!(div_floor(-1, 5), -1);
    assert_eq!(div_round(5, 2), 3);
    assert_eq!(div_round(-5, 2), -2);
    assert_eq!(div_round(7, 3), 2);
    assert_eq!(div_round(-7, 3), -2);
}

#[test]
fn squared_distance() {
    assert_eq!(distance_squared(p(0, 0), p(3, 4)), 25);
    assert_eq!(distance_squared(p(-1, 2), p(2, -2)), 25);
    assert_eq!(distance_squared(p(5, 5), p(5, 5)), 0);
}

#[test]
fn cubic_ease_out_values() {
    assert_eq!(cubic_out(0), 0);
    assert_eq!(cubic_out(100_000), 271_000);
    assert_eq!(cubic_out(500_000), 875_000);
    assert_eq!(cubic_out(1_000_000), 1_000_000);
}

#[test]
fn interpolation() {
    assert_eq!(lerp(p(0, 0), p(UNIT, 0), 437_500), p(43_750, 0));
    assert_eq!(lerp(p(0, 0), p(UNIT, -UNIT), 0), p(0, 0));
    assert_eq!(lerp(p(0, 0), p(UNIT, -UNIT), 1_000_000), p(UNIT, -UNIT));
    assert_eq!(lerp(p(10, 10), p(20, 30), 500_000), p(15, 20));
}

#[test]
fn taylor_cosine_and_sine() {
    assert_eq!(cos_sin(0), (100_000, 0));
    assert_eq!(cos_sin(100_000), (54_166, 84_167));
    assert_eq!(cos_sin(-50_000), (87_760, -47_943));
}

#[test]
fn integer_square_roots() {
    assert_eq!(integer_sqrt(0), 0);
    assert_eq!(integer_sqrt(10), 3);
    assert_eq!(integer_sqrt(16), 4);
    assert_eq!(integer_sqrt(1u128 << 100), 1u64 << 50);
    assert_eq!(integer_sqrt((1u128 << 100) - 1), (1u64 << 50) - 1);
}

#[test]
fn child_continues_the_parent_direction_turned_by_the_drift() {
    assert_eq!(child_end(p(0, 0), p(1000, 0), 3000, 0), p(4000, 0));
    assert_eq!(child_end(p(0, 0), p(1000, 0), 3000, 100_000), p(2624, 2523));
    assert_eq!(child_end(p(0, 0), p(0, 1000), 2000, -50_000), p(959, 2755));
}

#[test]
fn child_of_a_segment_without_direction_heads_along_the_drift() {
    assert_eq!(child_end(p(7, 7), p(7, 7), 3000, 20_000), p(2947, 603));
    assert_eq!(child_end(p(0, 0), p(0, 0), 2000, 0), p(2000, 0));
    assert_eq!(child_end(p(0, 0), p(0, 0), 2000, -100_000), p(1082, -1682));
}

#[test]
fn child_end_is_clamped_to_the_coordinate_range() {
    let r = child_end(p(190_000, 0), p(199_000, 0), 4000, 0);
    assert_eq!(r, p(200_000, 0));
}

#[test]
fn generator_steps_and_draws() {
    let mut rng = Rng::new(1);
    assert_eq!(rng.next(), 1_103_527_590);
    let mut rng = Rng::new(1);
    assert_eq!(rng.uniform(20_000, 80_000), 50_832);
    let mut rng = Rng::new(9);
    assert_eq!(rng.uniform(5, 5), 5);
    let mut a = Rng::new(42);
    let mut b = Rng::new(42);
    for _ in 0..100 {
        let x = a.uniform(-10, 10);
        assert_eq!(x, b.uniform(-10, 10));
        assert!((-10..10).contains(&x));
    }
}
