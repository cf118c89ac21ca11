use verlet::ball::{Ball, BORDER_RADIUS, MAX_SIZE, MIN_SIZE, SPAWN_X, SPAWN_Y};
use verlet::fixed::COORD_LIMIT;
use verlet::vec2::Vec2;

fn ball_at(x: i64, y: i64, size: i64) -> Ball {
    Ball {
        current_location: Vec2::new(x, y),
        previous_location: Vec2::new(x, y),
        acceleration: Vec2::zero(),
        size,
    }
}

fn distance_squared(a: &Ball, b: &Ball) -> i128 {
    let dx = a.current_location.x as i128 - b.current_location.x as i128;
    let dy = a.current_location.y as i128 - b.current_location.y as i128;
    dx * dx + dy * dy
}

#[test]
fn constants_of_a_ball() {
    assert_eq!(BORDER_RADIUS, 80_000_000_000_000);
    assert_eq!((SPAWN_X, SPAWN_Y), (50_000_000_000_000, 0));
    assert_eq!((MIN_SIZE, MAX_SIZE), (1_000_000_000_000, 7_000_000_000_000));
}

#[test]
fn new_ball_rests_at_the_spawn_point() {
    let ball = Ball::new();
    assert_eq!(ball.current_location, Vec2::new(50_000_000_000_000, 0));
    assert_eq!(ball.previous_location, Vec2::new(50_000_000_000_000, 0));
    assert_eq!(ball.acceleration, Vec2::zero());
}

#[test]
fn new_ball_has_a_size_of_the_range() {
    for _ in 0..500 {
        let ball = Ball::new();
        assert!(MIN_SIZE <= ball.size && ball.size < MAX_SIZE, "size {}", ball.size);
    }
}

#[test]
fn new_balls_differ_in_size() {
    let first = Ball::new().size;
    let mut differs = false;
    let mut above_the_least = false;
    for _ in 0..200 {
        let size = Ball::new().size;
        differs = differs || size != first;
        above_the_least = above_the_least || size != MIN_SIZE;
    }
    assert!(differs);
    assert!(above_the_least);
}

#[test]
fn with_size_takes_the_size() {
    let ball = Ball::with_size(3_000_000_000_000);
    assert_eq!(ball, ball_at(50_000_000_000_000, 0, 3_000_000_000_000));
    assert_eq!(Ball::with_size(1).size, 1);
    assert_eq!(Ball::with_size(COORD_LIMIT).size, COORD_LIMIT);
}

#[test]
fn add_acceleration_gathers() {
    let mut ball = Ball::with_size(2_000_000_000_000);
    ball.add_acceleration(Vec2::new(0, -1_000_000_000_000_000));
    assert_eq!(ball.acceleration, Vec2::new(0, -1_000_000_000_000_000));
    ball.add_acceleration(Vec2::new(250, 1_000));
    assert_eq!(ball.acceleration, Vec2::new(250, -999_999_999_999_000));
    assert_eq!(ball.current_location, Vec2::new(50_000_000_000_000, 0));
    assert_eq!(ball.previous_location, Vec2::new(50_000_000_000_000, 0));
    assert_eq!(ball.size, 2_000_000_000_000);
}

#[test]
fn add_acceleration_does_not_mind_the_order() {
    let mut one = Ball::with_size(2_000_000_000_000);
    one.add_acceleration(Vec2::new(5, -7));
    one.add_acceleration(Vec2::new(-11, 13));
    let mut other = Ball::with_size(2_000_000_000_000);
    other.add_acceleration(Vec2::new(-11, 13));
    other.add_acceleration(Vec2::new(5, -7));
    assert_eq!(one, other);
    assert_eq!(one.acceleration, Vec2::new(-6, 6));
}

#[test]
fn add_acceleration_stops_at_the_edge_of_the_world() {
    let mut ball = Ball::with_size(2_000_000_000_000);
    ball.add_acceleration(Vec2::new(i64::MAX, i64::MIN));
    assert_eq!(ball.acceleration, Vec2::new(COORD_LIMIT, -COORD_LIMIT));
    ball.add_acceleration(Vec2::new(1, -1));
    assert_eq!(ball.acceleration, Vec2::new(COORD_LIMIT, -COORD_LIMIT));
    ball.add_acceleration(Vec2::new(-1, 1));
    assert_eq!(ball.acceleration, Vec2::new(COORD_LIMIT - 1, -COORD_LIMIT + 1));
}

#[test]
fn keep_in_circle_puts_a_ball_back_along_an_axis() {
    let mut ball = ball_at(90_000_000_000_000, 0, 5_000_000_000_000);
    ball.keep_in_circle();
    assert_eq!(ball.current_location, Vec2::new(75_000_000_000_000, 0));
    assert_eq!(ball.previous_location, Vec2::new(90_000_000_000_000, 0));
    assert_eq!(ball.size, 5_000_000_000_000);
}

#[test]
fn keep_in_circle_puts_a_ball_back_along_its_direction() {
    let mut ball = ball_at(60_000_000_000_000, 80_000_000_000_000, 5_000_000_000_000);
    ball.keep_in_circle();
    assert_eq!(ball.current_location, Vec2::new(45_000_000_000_000, 60_000_000_000_000));
    let mut mirrored = ball_at(-60_000_000_000_000, -80_000_000_000_000, 5_000_000_000_000);
    mirrored.keep_in_circle();
    assert_eq!(mirrored.current_location, Vec2::new(-45_000_000_000_000, -60_000_000_000_000));
}

#[test]
fn keep_in_circle_rounds_toward_the_centre() {
    let mut ball = ball_at(12_345_678_901_000, -98_765_432_109_000, 1_234_567_890_000);
    ball.keep_in_circle();
    assert_eq!(ball.current_location, Vec2::new(9_769_649_378_814, -78_157_195_743_514));
    assert_eq!(ball.current_location.length(), 78_765_432_109_999);
    assert!(ball.current_location.length() as i64 + ball.size <= BORDER_RADIUS);
}

#[test]
fn keep_in_circle_leaves_a_ball_inside_alone() {
    let mut ball = ball_at(50_000_000_000_000, 50_000_000_000_000, 6_999_999_999_999);
    let before = ball;
    ball.keep_in_circle();
    assert_eq!(ball, before);
}

#[test]
fn keep_in_circle_moves_a_ball_one_unit_over() {
    let mut ball = ball_at(75_000_000_000_001, 0, 5_000_000_000_000);
    ball.keep_in_circle();
    assert_eq!(ball.current_location, Vec2::new(75_000_000_000_000, 0));
}

#[test]
fn ball_on_the_boundary_stays() {
    let mut ball = ball_at(BORDER_RADIUS - 5_000_000_000_000, 0, 5_000_000_000_000);
    let before = ball;
    ball.keep_in_circle();
    assert_eq!(ball, before);
    ball.keep_in_circle();
    assert_eq!(ball, before);
}

#[test]
fn keep_in_circle_twice_is_keep_in_circle_once() {
    let starts: [(i64, i64, i64); 5] = [
        (90_000_000_000_000, 0, 5_000_000_000_000),
        (60_000_000_000_000, 80_000_000_000_000, 5_000_000_000_000),
        (12_345_678_901_000, -98_765_432_109_000, 1_234_567_890_000),
        (-400_000_000_000_000, 3, 6_999_999_999_999),
        (1, 1, 1_000_000_000_000),
    ];
    for (x, y, size) in starts {
        let mut once = ball_at(x, y, size);
        once.keep_in_circle();
        let mut twice = once;
        twice.keep_in_circle();
        assert_eq!(twice, once);
    }
}

#[test]
fn keep_in_circle_contains_every_ball_that_fits() {
    let mut x: i64 = -900_000_000_000_000;
    while x <= 900_000_000_000_000 {
        let mut y: i64 = -900_000_000_000_000;
        while y <= 900_000_000_000_000 {
            for size in [1, 1_000_000_000_000, 6_999_999_999_999, 80_000_000_000_000] {
                let mut ball = ball_at(x, y, size);
                ball.keep_in_circle();
                let length = ball.current_location.length() as i64;
                assert!(length + size <= BORDER_RADIUS, "{:?}", ball);
            }
            y += 149_999_999_999_000;
        }
        x += 149_999_999_999_000;
    }
}

#[test]
fn keep_in_circle_at_the_centre_has_no_direction() {
    let mut ball = ball_at(0, 0, 81_000_000_000_000);
    ball.keep_in_circle();
    assert_eq!(ball.current_location, Vec2::zero());
}

#[test]
fn keep_in_circle_of_an_oversized_ball_crosses_the_centre() {
    let mut ball = ball_at(10_000_000_000_000, 0, 81_000_000_000_000);
    ball.keep_in_circle();
    assert_eq!(ball.current_location, Vec2::new(-1_000_000_000_000, 0));
}

#[test]
fn clamp_to_circle_takes_any_radius() {
    let mut ball = ball_at(90_000_000_000_000, 0, 5_000_000_000_000);
    ball.clamp_to_circle(1_000_000_000_000_000);
    assert_eq!(ball.current_location, Vec2::new(90_000_000_000_000, 0));
    ball.clamp_to_circle(50_000_000_000_000);
    assert_eq!(ball.current_location, Vec2::new(45_000_000_000_000, 0));
    ball.clamp_to_circle(5_000_000_000_000);
    assert_eq!(ball.current_location, Vec2::new(0, 0));
}

#[test]
fn clamp_to_circle_stops_at_the_edge_of_the_world() {
    let mut ball = ball_at(10, 0, 1);
    ball.clamp_to_circle(i64::MIN);
    assert_eq!(ball.current_location, Vec2::new(-COORD_LIMIT, 0));
}

#[test]
fn update_moves_by_velocity_and_acceleration() {
    let mut ball = Ball {
        current_location: Vec2::new(10_000_000, -5_000_000),
        previous_location: Vec2::zero(),
        acceleration: Vec2::new(0, -1_000_000_000_000_000),
        size: 2_000_000_000_000,
    };
    ball.update(2_500);
    assert_eq!(ball.current_location, Vec2::new(19_990_000, -6_259_995_000));
    assert_eq!(ball.previous_location, Vec2::new(10_000_000, -5_000_000));
    assert_eq!(ball.acceleration, Vec2::zero());
    assert_eq!(ball.size, 2_000_000_000_000);
}

#[test]
fn update_keeps_the_damped_velocity_to_the_last_digit() {
    let mut ball = Ball::with_size(3_000_000_000_000);
    ball.add_acceleration(Vec2::new(0, -1_000_000_000_000_000));
    ball.update(2_500);
    assert_eq!(ball.current_location, Vec2::new(50_000_000_000_000, -6_250_000_000));
    assert_eq!(ball.previous_location, Vec2::new(50_000_000_000_000, 0));
    ball.update(2_500);
    assert_eq!(ball.current_location, Vec2::new(50_000_000_000_000, -12_493_750_000));
    assert_eq!(ball.previous_location, Vec2::new(50_000_000_000_000, -6_250_000_000));
    assert_eq!(ball.acceleration, Vec2::zero());
}

#[test]
fn update_of_a_ball_at_rest_without_acceleration() {
    let mut ball = Ball::with_size(3_000_000_000_000);
    let before = ball;
    ball.update(2_500);
    assert_eq!(ball, before);
}

#[test]
fn update_damps_toward_zero() {
    let mut ball = Ball {
        current_location: Vec2::new(1_001, -1_001),
        previous_location: Vec2::zero(),
        acceleration: Vec2::new(7, -7),
        size: 2_000_000_000_000,
    };
    ball.update(2_500);
    assert_eq!(ball.current_location, Vec2::new(2_000, -2_000));
    let mut slow = Ball {
        current_location: Vec2::new(1, -1),
        previous_location: Vec2::zero(),
        acceleration: Vec2::zero(),
        size: 2_000_000_000_000,
    };
    slow.update(2_500);
    assert_eq!(slow.current_location, Vec2::new(1, -1));
    assert_eq!(slow.previous_location, Vec2::new(1, -1));
}

#[test]
fn update_scales_acceleration_by_the_squared_time() {
    let mut ball = ball_at(0, 0, 2_000_000_000_000);
    ball.acceleration = Vec2::new(160_000, -160_000);
    ball.update(2_500);
    assert_eq!(ball.current_location, Vec2::new(1, -1));
    let mut weaker = ball_at(0, 0, 2_000_000_000_000);
    weaker.acceleration = Vec2::new(159_999, -159_999);
    weaker.update(2_500);
    assert_eq!(weaker.current_location, Vec2::new(0, 0));
    let mut longer = ball_at(0, 0, 2_000_000_000_000);
    longer.acceleration = Vec2::new(0, -1_000_000_000_000_000);
    longer.update(5_000);
    assert_eq!(longer.current_location, Vec2::new(0, -25_000_000_000));
    let mut still = ball_at(0, 0, 2_000_000_000_000);
    still.acceleration = Vec2::new(0, -1_000_000_000_000_000);
    still.update(0);
    assert_eq!(still.current_location, Vec2::zero());
    assert_eq!(still.acceleration, Vec2::zero());
}

#[test]
fn update_stops_at_the_edge_of_the_world() {
    let mut ball = Ball {
        current_location: Vec2::new(COORD_LIMIT - 5, 0),
        previous_location: Vec2::new(COORD_LIMIT - 1_000, 0),
        acceleration: Vec2::zero(),
        size: 2_000_000_000_000,
    };
    ball.update(2_500);
    assert_eq!(ball.current_location, Vec2::new(COORD_LIMIT, 0));
    assert_eq!(ball.previous_location, Vec2::new(COORD_LIMIT - 5, 0));
    let mut pushed = ball_at(0, 0, 2_000_000_000_000);
    pushed.acceleration = Vec2::new(COORD_LIMIT, -COORD_LIMIT);
    pushed.update(u32::MAX);
    assert_eq!(pushed.current_location, Vec2::new(COORD_LIMIT, -COORD_LIMIT));
}

#[test]
fn update_is_a_function_of_the_state() {
    let start = Ball {
        current_location: Vec2::new(48_123_456_789_000, -3_777_001_234_000),
        previous_location: Vec2::new(48_100_000_000_000, -3_700_000_000_000),
        acceleration: Vec2::new(12_345_678, -1_000_000_000_000_000),
        size: 4_321_000_000_000,
    };
    let mut one = start;
    let mut other = start;
    one.update(2_500);
    other.update(2_500);
    assert_eq!(one, other);
    assert_eq!(one.current_location, Vec2::new(48_146_890_121_288, -3_860_175_466_766));
    let mut again = start;
    again.update(2_500);
    assert_eq!(again, one);
}

#[test]
fn push_apart_along_an_axis() {
    let mut a = ball_at(0, 0, 3_000_000_000_000);
    let mut b = ball_at(4_000_000_000_000, 0, 3_000_000_000_000);
    a.push_apart(&mut b);
    assert_eq!(a.current_location, Vec2::new(-400_000_000_000, 0));
    assert_eq!(b.current_location, Vec2::new(4_400_000_000_000, 0));
    assert_eq!(a.previous_location, Vec2::zero());
    assert_eq!(b.previous_location, Vec2::new(4_000_000_000_000, 0));
    assert_eq!((a.size, b.size), (3_000_000_000_000, 3_000_000_000_000));
}

#[test]
fn push_apart_along_the_line_of_the_centres() {
    let mut a = ball_at(3_000_000_000_000, 4_000_000_000_000, 4_000_000_000_000);
    let mut b = ball_at(0, 0, 4_000_000_000_000);
    a.push_apart(&mut b);
    assert_eq!(a.current_location, Vec2::new(3_360_000_000_000, 4_480_000_000_000));
    assert_eq!(b.current_location, Vec2::new(-360_000_000_000, -480_000_000_000));
}

#[test]
fn push_apart_does_not_mind_which_ball_comes_first() {
    let mut a = ball_at(3_000_000_000_000, 4_000_000_000_000, 4_000_000_000_000);
    let mut b = ball_at(0, 0, 4_000_000_000_000);
    b.push_apart(&mut a);
    assert_eq!(a.current_location, Vec2::new(3_360_000_000_000, 4_480_000_000_000));
    assert_eq!(b.current_location, Vec2::new(-360_000_000_000, -480_000_000_000));
}

#[test]
fn push_apart_rounds_each_component_toward_zero() {
    let mut a = ball_at(-1_234_567_891_000, 7_654_321_098_000, 1_000_000_000_000);
    let mut b = ball_at(2_000_000_000_000, 3_000_000_000_000, 6_500_000_000_000);
    a.push_apart(&mut b);
    assert_eq!(a.current_location, Vec2::new(-1_443_676_564_476, 7_955_214_120_974));
    assert_eq!(b.current_location, Vec2::new(2_209_108_673_476, 2_699_106_977_026));
}

#[test]
fn push_apart_moves_both_balls_by_opposite_vectors() {
    let starts: [((i64, i64, i64), (i64, i64, i64)); 4] = [
        ((0, 0, 3_000_000_000_000), (4_000_000_000_000, 0, 3_000_000_000_000)),
        ((3_000_000_000_000, 4_000_000_000_000, 4_000_000_000_000), (0, 0, 4_000_000_000_000)),
        ((-1_234_567_891_000, 7_654_321_098_000, 1_000_000_000_000), (2_000_000_000_000, 3_000_000_000_000, 6_500_000_000_000)),
        ((50_000_000_000_000, -3, 6_999_999_999_999), (50_000_000_000_001, 5, 1_000_000_000_000)),
    ];
    for ((ax, ay, asize), (bx, by, bsize)) in starts {
        let mut a = ball_at(ax, ay, asize);
        let mut b = ball_at(bx, by, bsize);
        a.push_apart(&mut b);
        assert_eq!(a.current_location.x - ax, -(b.current_location.x - bx));
        assert_eq!(a.current_location.y - ay, -(b.current_location.y - by));
    }
}

#[test]
fn push_apart_parts_overlapping_balls() {
    let starts: [((i64, i64, i64), (i64, i64, i64)); 4] = [
        ((0, 0, 3_000_000_000_000), (4_000_000_000_000, 0, 3_000_000_000_000)),
        ((3_000_000_000_000, 4_000_000_000_000, 4_000_000_000_000), (0, 0, 4_000_000_000_000)),
        ((-1_234_567_891_000, 7_654_321_098_000, 1_000_000_000_000), (2_000_000_000_000, 3_000_000_000_000, 6_500_000_000_000)),
        ((50_000_000_000_000, -3, 6_999_999_999_999), (50_000_000_000_001, 5, 1_000_000_000_000)),
    ];
    for ((ax, ay, asize), (bx, by, bsize)) in starts {
        let mut a = ball_at(ax, ay, asize);
        let mut b = ball_at(bx, by, bsize);
        let before = distance_squared(&a, &b);
        a.push_apart(&mut b);
        assert!(distance_squared(&a, &b) > before);
    }
}

#[test]
fn push_apart_leaves_coincident_balls() {
    let mut a = ball_at(50_000_000_000_000, 0, 3_000_000_000_000);
    let mut b = ball_at(50_000_000_000_000, 0, 4_000_000_000_000);
    a.push_apart(&mut b);
    assert_eq!(a, ball_at(50_000_000_000_000, 0, 3_000_000_000_000));
    assert_eq!(b, ball_at(50_000_000_000_000, 0, 4_000_000_000_000));
}

#[test]
fn push_apart_leaves_distant_balls() {
    let mut a = ball_at(0, 0, 3_000_000_000_000);
    let mut b = ball_at(6_000_000_000_001, 0, 3_000_000_000_000);
    a.push_apart(&mut b);
    assert_eq!(a.current_location, Vec2::zero());
    assert_eq!(b.current_location, Vec2::new(6_000_000_000_001, 0));
}

#[test]
fn push_apart_leaves_touching_balls() {
    let mut a = ball_at(0, 0, 3_000_000_000_000);
    let mut b = ball_at(6_000_000_000_000, 0, 3_000_000_000_000);
    a.push_apart(&mut b);
    assert_eq!(a.current_location, Vec2::zero());
    assert_eq!(b.current_location, Vec2::new(6_000_000_000_000, 0));
}

#[test]
fn push_apart_of_an_overlap_below_the_resolution() {
    let mut a = ball_at(3_000_000_000_000, 4_000_000_000_000, 2_500_000_000_003);
    let mut b = ball_at(0, 0, 2_500_000_000_003);
    a.push_apart(&mut b);
    assert_eq!(a.current_location, Vec2::new(3_000_000_000_000, 4_000_000_000_000));
    assert_eq!(b.current_location, Vec2::zero());
    let mut c = ball_at(3_000_000_000_000, 4_000_000_000_000, 2_500_000_000_005);
    let mut d = ball_at(0, 0, 2_500_000_000_005);
    c.push_apart(&mut d);
    assert_eq!(c.current_location, Vec2::new(3_000_000_000_001, 4_000_000_000_001));
    assert_eq!(d.current_location, Vec2::new(-1, -1));
}

#[test]
fn push_apart_stops_at_the_edge_of_the_world() {
    let mut a = ball_at(COORD_LIMIT, 0, 5_000_000_000_000);
    let mut b = ball_at(COORD_LIMIT - 1_000_000_000_000, 0, 5_000_000_000_000);
    a.push_apart(&mut b);
    assert_eq!(a.current_location, Vec2::new(COORD_LIMIT, 0));
    assert_eq!(b.current_location, Vec2::new(COORD_LIMIT - 2_800_000_000_000, 0));
}

#[test]
fn is_wf_tells_a_ball_of_the_world() {
    assert!(Ball::new().is_wf());
    assert!(ball_at(COORD_LIMIT, -COORD_LIMIT, COORD_LIMIT).is_wf());
    assert!(!ball_at(COORD_LIMIT + 1, 0, 1).is_wf());
    assert!(!ball_at(0, -COORD_LIMIT - 1, 1).is_wf());
    assert!(!ball_at(0, 0, 0).is_wf());
    assert!(!ball_at(0, 0, COORD_LIMIT + 1).is_wf());
    let mut ball = ball_at(0, 0, 1);
    ball.previous_location = Vec2::new(i64::MAX, 0);
    assert!(!ball.is_wf());
    let mut other = ball_at(0, 0, 1);
    other.acceleration = Vec2::new(0, i64::MIN);
    assert!(!other.is_wf());
}
