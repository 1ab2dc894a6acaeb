use advent_grid::day14::{safety_factor, Robot};

#[test]
fn robot_wraps() {
    let mut r = Robot { pos: (2, 4), vel: (2, -3) };
    r.step(5);
    assert_eq!(r.pos, (12, 92));
    assert_eq!(r.quadrant(), Some(2));
    r.step(100);
    assert_eq!(r.pos, ((12 + 200) % 101, (92 - 300i64).rem_euclid(103) as isize));
    let mut back = Robot { pos: (0, 0), vel: (-1, -1) };
    back.step(1);
    assert_eq!(back.pos, (100, 102));
    assert_eq!(back.quadrant(), Some(3));
    assert_eq!(Robot { pos: (50, 0), vel: (0, 0) }.quadrant(), None);
    assert_eq!(Robot { pos: (0, 51), vel: (0, 0) }.quadrant(), None);
    assert_eq!(Robot { pos: (60, 10), vel: (0, 0) }.quadrant(), Some(1));
    assert_eq!(Robot { pos: (10, 10), vel: (0, 0) }.quadrant(), Some(0));
}

#[test]
fn safety_factor_counts_quadrants() {
    let still = |x: isize, y: isize| Robot { pos: (x, y), vel: (0, 0) };
    let robots = vec![still(10, 10), still(60, 10), still(10, 60), still(60, 60), still(60, 60), still(50, 3)];
    assert_eq!(safety_factor(&robots, 0), Some(2));
    assert_eq!(safety_factor(&robots[..3], 7), Some(0));
    let moving = vec![Robot { pos: (0, 0), vel: (1, 1) }];
    assert_eq!(safety_factor(&moving, 100), Some(0));
    assert_eq!(safety_factor(&[], 100), Some(0));
}
