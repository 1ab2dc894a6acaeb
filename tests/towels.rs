use advent_grid::day19::{count_arrangements, design_possible};

fn chars(s: &str) -> Vec<char> {
    s.chars().collect()
}

fn patterns() -> Vec<Vec<char>> {
    "r, wr, b, g, bwu, rb, gb, br".split(", ").map(chars).collect()
}

#[test]
fn towels_example() {
    let pats = patterns();
    let designs = ["brwrr", "bggr", "gbbr", "rrbgbr", "ubwu", "bwurrg", "brgr", "bbrwb"];
    let ways: Vec<Option<u64>> = designs.iter().map(|d| count_arrangements(&chars(d), &pats)).collect();
    assert_eq!(ways, vec![Some(2), Some(1), Some(4), Some(6), Some(0), Some(1), Some(2), Some(0)]);
    let possible = designs.iter().filter(|d| design_possible(&chars(d), &pats)).count();
    assert_eq!(possible, 6);
}

#[test]
fn towel_edges() {
    let pats = patterns();
    assert_eq!(count_arrangements(&[], &pats), Some(1));
    assert!(!design_possible(&[], &pats));
    let with_empty = vec![vec![], chars("a")];
    assert_eq!(count_arrangements(&chars("aaa"), &with_empty), Some(1));
    let many = vec![chars("a"), chars("aa")];
    let long: Vec<char> = std::iter::repeat('a').take(200).collect();
    assert_eq!(count_arrangements(&long, &many), None);
    assert!(design_possible(&long, &many));
    let ninety: Vec<char> = std::iter::repeat('a').take(90).collect();
    assert_eq!(count_arrangements(&ninety, &many), Some(4660046610375530309));
}
