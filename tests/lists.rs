use advent_grid::day01::{similarity, sort_column, total_distance};

#[test]
fn location_lists_example() {
    let mut left = vec![3, 4, 2, 1, 3, 3];
    let mut right = vec![4, 3, 5, 3, 9, 3];
    assert_eq!(similarity(&left, &right), 31);
    sort_column(&mut left);
    sort_column(&mut right);
    assert_eq!(left, vec![1, 2, 3, 3, 3, 4]);
    assert_eq!(right, vec![3, 3, 3, 4, 5, 9]);
    assert_eq!(total_distance(&left, &right), Some(11));
}

#[test]
fn location_list_edges() {
    let mut empty: Vec<i64> = vec![];
    sort_column(&mut empty);
    assert!(empty.is_empty());
    assert_eq!(total_distance(&[], &[]), Some(0));
    assert_eq!(total_distance(&[i64::MIN], &[i64::MAX]), Some(u64::MAX));
    assert_eq!(total_distance(&[i64::MIN, 0], &[i64::MAX, 1]), None);
    assert_eq!(similarity(&[-2, 5], &[-2, -2, 7]), -4);
    let mut v = vec![5, -1, 5, i64::MIN, 0];
    sort_column(&mut v);
    assert_eq!(v, vec![i64::MIN, -1, 0, 5, 5]);
}
