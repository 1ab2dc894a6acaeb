use advent_grid::day06::Lab;

const EXAMPLE: &str = "....#.....\n.........#\n..........\n..#.......\n.......#..\n..........\n.#..^.....\n........#.\n#.........\n......#...\n";

#[test]
fn guard_patrol_example() {
    let lab = Lab::new(EXAMPLE).unwrap();
    let start = lab.find('^').unwrap();
    assert_eq!(start, (4, 6));
    let path = lab.guard_path(start).unwrap();
    assert_eq!(path.iter().filter(|&&v| v).count(), 41);
    assert_eq!(lab.count_loops(start, &path), 6);
    assert!(lab.new_loop(start, (3, 6)));
    assert!(!lab.new_loop(start, (0, 0)));
}

#[test]
fn guard_edges() {
    let boxed = Lab::new(".#.\n#^#\n.#.").unwrap();
    assert_eq!(boxed.guard_path((1, 1)), None);
    let open = Lab::new("...\n.^.\n...").unwrap();
    let path = open.guard_path((1, 1)).unwrap();
    assert_eq!(path, vec![false, true, false, false, true, false, false, false, false]);
    assert!(open.obstructed((1, 1), 0, Some((1, 0))));
    assert!(!open.obstructed((1, 1), 1, Some((1, 0))));
    assert_eq!(open.get_tile((3, 0)), None);
    assert_eq!(open.find('#'), None);
}
