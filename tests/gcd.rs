use advent_grid::day13::calculate_gcd;

#[test]
fn gcd_values() {
    assert_eq!(calculate_gcd(48, 18), 6);
    assert_eq!(calculate_gcd(94, 22), 2);
    assert_eq!(calculate_gcd(0, 5), 5);
    assert_eq!(calculate_gcd(7, 0), 7);
    assert_eq!(calculate_gcd(0, 0), 0);
    assert_eq!(calculate_gcd(i64::MAX, 1), 1);
}
