use advent_grid::day04::{WordSearch, XMasSearch};

const EXAMPLE: &str = "MMMSXXMASM\nMSAMXMSMSA\nAMXSXMAAMM\nMSAMASMSMX\nXMASAMXAMM\nXXAMMXXAMA\nSMSMSASXSS\nSAXAMASAAA\nMAMMMXMMMM\nMXMXAXMASX\n";

#[test]
fn xmas_words_example() {
    let search = WordSearch::new(EXAMPLE).unwrap();
    assert_eq!(search.count(&['X', 'M', 'A', 'S']), 18);
}

#[test]
fn crossed_mas_example() {
    let search = XMasSearch::new(EXAMPLE).unwrap();
    assert_eq!(search.count(), 9);
}

#[test]
fn word_search_edges() {
    let search = WordSearch::new("XMAS").unwrap();
    assert_eq!(search.count(&['X', 'M', 'A', 'S']), 1);
    assert_eq!(search.count(&['S', 'A', 'M', 'X']), 1);
    assert_eq!(search.count(&['A']), 8);
    assert!(search.valid(3, 0));
    assert!(!search.valid(4, 0));
    assert!(!search.valid(0, -1));
    assert!(search.search_from(3, 0, [-1, 0], &['S', 'A', 'M', 'X']));
    assert!(!search.search_from(3, 0, [1, 0], &['S', 'A']));
    assert!(WordSearch::new("ab\nc").is_none());
    let small = XMasSearch::new("MS\nAA").unwrap();
    assert_eq!(small.count(), 0);
    let one = XMasSearch::new("M.S\n.A.\nM.S").unwrap();
    assert!(one.is_match(1, 1));
    assert_eq!(one.count(), 1);
    assert_eq!(one.at(2, 2), 'S');
}
