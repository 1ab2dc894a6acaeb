use advent_grid::day05::{middle_sum, parse_rules, valid_update};

const RULES: [(u8, u8); 21] = [
    (47, 53), (97, 13), (97, 61), (97, 47), (75, 29), (61, 13), (75, 53), (29, 13), (97, 29), (53, 29), (61, 53),
    (97, 53), (61, 29), (47, 13), (75, 47), (97, 75), (47, 61), (75, 61), (47, 29), (75, 13), (53, 13),
];

#[test]
fn page_order_example() {
    let rules = parse_rules(&RULES);
    assert!(valid_update(&rules, &[75, 47, 61, 53, 29]));
    assert!(valid_update(&rules, &[97, 61, 53, 29, 13]));
    assert!(valid_update(&rules, &[75, 29, 13]));
    assert!(!valid_update(&rules, &[75, 97, 47, 61, 53]));
    assert!(!valid_update(&rules, &[61, 13, 29]));
    assert!(!valid_update(&rules, &[97, 13, 75, 29, 47]));
    let updates = vec![
        vec![75, 47, 61, 53, 29],
        vec![97, 61, 53, 29, 13],
        vec![75, 29, 13],
        vec![75, 97, 47, 61, 53],
        vec![61, 13, 29],
        vec![97, 13, 75, 29, 47],
    ];
    assert_eq!(middle_sum(&rules, &updates), 143);
}

#[test]
fn page_order_edges() {
    let rules = parse_rules(&[]);
    assert!(valid_update(&rules, &[]));
    assert!(valid_update(&rules, &[3, 2, 1]));
    assert_eq!(middle_sum(&rules, &vec![vec![], vec![1, 2, 3]]), 2);
}
