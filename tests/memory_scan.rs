use advent_grid::day03::scan;

#[test]
fn products_example() {
    let text = "xmul(2,4)%&mul[3,7]!@^do_not_mul(5,5)+mul(32,64]then(mul(11,8)mul(8,5))";
    assert_eq!(scan(text, false), Some(161));
}

#[test]
fn conditional_products_example() {
    let text = "xmul(2,4)&mul[3,7]!^don't()_mul(5,5)+mul(32,64](mul(11,8)undo()?mul(8,5))";
    assert_eq!(scan(text, true), Some(48));
    assert_eq!(scan(text, false), Some(161));
}

#[test]
fn scan_edges() {
    assert_eq!(scan("", true), Some(0));
    assert_eq!(scan("mul(1,2", false), Some(0));
    assert_eq!(scan("mul()mul(3,4)", true), Some(12));
    assert_eq!(scan("don't(1,2)mul(3,4)do(5,6)mul(1,1)", true), Some(1));
    assert_eq!(scan("mul(99999999999999999999999,0)", false), Some(0));
    assert_eq!(scan("mul(99999999999999999999999,1)", false), None);
    assert_eq!(scan("mul(4294967296,4294967296)", false), None);
    assert_eq!(scan("mumul(2,3)", false), Some(6));
}
