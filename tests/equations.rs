use advent_grid::day07::{valid_equation, valid_equation_cat};

#[test]
fn equations_example() {
    assert!(valid_equation(190, &[10, 19]));
    assert!(valid_equation(3267, &[81, 40, 27]));
    assert!(!valid_equation(83, &[17, 5]));
    assert!(!valid_equation(156, &[15, 6]));
    assert!(!valid_equation(7290, &[6, 8, 6, 15]));
    assert!(valid_equation(292, &[11, 6, 16, 20]));
    assert!(valid_equation(5, &[5]));
}

#[test]
fn equations_with_concatenation() {
    assert!(valid_equation_cat(156, &[15, 6]));
    assert!(valid_equation_cat(7290, &[6, 8, 6, 15]));
    assert!(valid_equation_cat(192, &[17, 8, 14]));
    assert!(!valid_equation_cat(21037, &[9, 7, 18, 13]));
    assert!(valid_equation_cat(100, &[1, 0, 0]));
}

#[test]
fn zeros_and_overflow() {
    assert!(valid_equation(0, &[5, 0]));
    assert!(valid_equation(0, &[u64::MAX, 2, 0]));
    assert!(!valid_equation(1, &[u64::MAX, 2, 0]));
    assert!(valid_equation(7, &[u64::MAX, 2, 0, 7]));
}
