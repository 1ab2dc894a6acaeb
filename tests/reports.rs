use advent_grid::day02::{dampened_safe_report, safe_report, valid_delta};

#[test]
fn deltas() {
    assert!(valid_delta(1));
    assert!(valid_delta(-3));
    assert!(!valid_delta(0));
    assert!(!valid_delta(4));
    assert!(!valid_delta(i64::MIN));
}

#[test]
fn reports_example() {
    assert!(safe_report(&[7, 6, 4, 2, 1]));
    assert!(!safe_report(&[1, 2, 7, 8, 9]));
    assert!(!safe_report(&[9, 7, 6, 2, 1]));
    assert!(!safe_report(&[1, 3, 2, 4, 5]));
    assert!(!safe_report(&[8, 6, 4, 4, 1]));
    assert!(safe_report(&[1, 3, 6, 7, 9]));
    assert!(safe_report(&[5]));
    assert!(!safe_report(&[i64::MIN, i64::MAX]));
}

#[test]
fn dampened_reports_example() {
    assert!(dampened_safe_report(&[7, 6, 4, 2, 1]));
    assert!(!dampened_safe_report(&[1, 2, 7, 8, 9]));
    assert!(!dampened_safe_report(&[9, 7, 6, 2, 1]));
    assert!(dampened_safe_report(&[1, 3, 2, 4, 5]));
    assert!(dampened_safe_report(&[8, 6, 4, 4, 1]));
    assert!(dampened_safe_report(&[1, 3, 6, 7, 9]));
}
