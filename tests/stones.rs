use advent_grid::day11::{count_digits, solve, split_stone};

#[test]
fn test_count_digits() {
    assert_eq!(count_digits(123), 3);
    assert_eq!(count_digits(1234), 4);
    assert_eq!(count_digits(12345), 5);
}

#[test]
fn test_split_stone() {
    assert_eq!(split_stone(1234), (12, 34));
    assert_eq!(split_stone(1001), (10, 1));
}

#[test]
fn count_digits_edges() {
    assert_eq!(count_digits(0), 1);
    assert_eq!(count_digits(9), 1);
    assert_eq!(count_digits(10), 2);
    assert_eq!(count_digits(999_999_999_999_999_999), 18);
    assert_eq!(count_digits(u64::MAX), 20);
}

#[test]
fn blinking_example() {
    assert_eq!(solve(&[125, 17], 6), Some(22));
    assert_eq!(solve(&[125, 17], 25), Some(55312));
    assert_eq!(solve(&[], 25), Some(0));
    assert_eq!(solve(&[0], 1), Some(1));
    assert_eq!(solve(&[10], 1), Some(2));
}
