use advent_grid::day12::Garden;

#[test]
fn test_count_edges() {
    let input = "###\n#.#\n###";
    let map = Garden::new(input).unwrap();

    assert_eq!(map.count_edges((0, 0)), 2);
    assert_eq!(map.count_edges((1, 0)), 2);
    assert_eq!(map.count_edges((1, 1)), 4);
}

#[test]
fn test_count_corners() {
    let input = "###\n#.#\n###";
    let map = Garden::new(input).unwrap();

    assert_eq!(map.count_corners((0, 0)), 2);
    assert_eq!(map.count_corners((1, 0)), 0);
    assert_eq!(map.count_corners((1, 1)), 4);
}

#[test]
fn garden_rejects_ragged_rows() {
    assert!(Garden::new("ab\nc").is_none());
    assert!(Garden::new("").is_none());
    assert!(Garden::new("\nab").is_none());
    let g = Garden::new("ab\ncd\n").unwrap();
    assert_eq!((g.width, g.height), (2, 2));
    assert_eq!(g.get_tile((1, 1)), Some('d'));
    assert_eq!(g.get_tile((2, 0)), None);
    assert_eq!(g.get_tile((-1, 0)), None);
}

#[test]
fn test_explore_area() {
    let input = "###\n#.#\n###";
    let map = Garden::new(input).unwrap();

    let mut visited = vec![false; map.tiles.len()];
    assert_eq!(map.explore_area((0, 0), &mut visited), Some((8, 16, 8)));
    assert_eq!(map.explore_area((1, 1), &mut visited), Some((1, 4, 4)));
}

#[test]
fn explore_area_skips_visited_and_outside() {
    let map = Garden::new("aab\nabb").unwrap();
    let mut visited = vec![false; map.tiles.len()];
    assert_eq!(map.explore_area((5, 0), &mut visited), None);
    assert_eq!(map.explore_area((0, 0), &mut visited), Some((3, 8, 6)));
    assert_eq!(map.explore_area((1, 0), &mut visited), None);
    assert_eq!(map.explore_area((2, 1), &mut visited), Some((3, 8, 6)));
    assert!(visited.iter().all(|&v| v));
}
