use advent_grid::day16::{solution, Maze, PuzzleError, EAST};

#[test]
fn corridor_costs_three() {
    let m = Maze::new("S..E").unwrap();
    assert_eq!(m.shortest_path((0, 0), EAST, (3, 0)), Some(3));
    assert_eq!(m.optimal_tiles((0, 0), EAST, (3, 0)), Some(4));
    assert_eq!(solution("S..E"), Ok((3, 4)));
}

#[test]
fn one_turn_in_a_box() {
    let m = Maze::new("S.\n#E").unwrap();
    assert_eq!(m.shortest_path((0, 0), EAST, (1, 1)), Some(2 + 1000));
    assert_eq!(solution("S.\n#E"), Ok((1002, 3)));
}

#[test]
fn walled_off_end_is_unreachable() {
    let m = Maze::new("S#E").unwrap();
    assert_eq!(m.shortest_path((0, 0), EAST, (2, 0)), None);
    assert_eq!(m.optimal_tiles((0, 0), EAST, (2, 0)), None);
    assert_eq!(solution("S#E"), Err(PuzzleError::Unreachable));
}

#[test]
fn tied_routes_count_their_union() {
    let text = "#...#\nS.#.E\n#...#";
    let m = Maze::new(text).unwrap();
    assert_eq!(m.shortest_path((0, 1), EAST, (4, 1)), Some(4006));
    assert_eq!(m.optimal_tiles((0, 1), EAST, (4, 1)), Some(10));
}

#[test]
fn start_equal_to_end() {
    let m = Maze::new("..\n..").unwrap();
    for y in 0..2 {
        for x in 0..2 {
            for d in 0..4 {
                assert_eq!(m.shortest_path((x, y), d, (x, y)), Some(0));
                assert_eq!(m.optimal_tiles((x, y), d, (x, y)), Some(1));
            }
        }
    }
}

#[test]
fn adding_a_wall_never_lowers_the_cost() {
    let open = Maze::new("S...\n....\n...E").unwrap();
    let walled = Maze::new("S...\n.#..\n...E").unwrap();
    let closed = Maze::new("S.#.\n.#..\n#..E").unwrap();
    let a = open.shortest_path((0, 0), EAST, (3, 2)).unwrap();
    let b = walled.shortest_path((0, 0), EAST, (3, 2)).unwrap();
    assert!(a <= b);
    assert_eq!(a, 1005);
    assert_eq!(closed.shortest_path((0, 0), EAST, (3, 2)), None);
}

#[test]
fn optimal_tiles_hold_start_and_end() {
    let m = Maze::new("S...\n.#..\n...E").unwrap();
    let n = m.optimal_tiles((0, 0), EAST, (3, 2)).unwrap();
    assert!(n >= 2);
    assert_eq!(n, 6);
}

#[test]
fn turn_cost_is_symmetric() {
    for a in 0..4 {
        for b in 0..4 {
            assert_eq!(Maze::rotation_cost(a, b), Maze::rotation_cost(b, a));
        }
    }
    assert_eq!(Maze::rotation_cost(0, 2), 2000);
    assert_eq!(Maze::rotation_cost(3, 0), 1000);
    assert_eq!(Maze::rotation_cost(1, 1), 0);
}

#[test]
fn driver_errors() {
    assert_eq!(solution("S.\n."), Err(PuzzleError::Parse));
    assert_eq!(solution(""), Err(PuzzleError::Parse));
    assert_eq!(solution("S..."), Err(PuzzleError::MissingMarker));
    assert_eq!(solution("...E"), Err(PuzzleError::MissingMarker));
}

#[test]
fn example_maze() {
    let text = "###############\n#.......#....E#\n#.#.###.#.###.#\n#.....#.#...#.#\n#.###.#####.#.#\n#.#.#.......#.#\n#.#.#####.###.#\n#...........#.#\n###.#.#####.#.#\n#...#.....#.#.#\n#.#.#.###.#.#.#\n#.....#...#.#.#\n#.###.#.#.#.#.#\n#S..#.....#...#\n###############\n";
    assert_eq!(solution(text), Ok((7036, 45)));
}

#[test]
fn markers_are_found_row_by_row() {
    let m = Maze::new("S.E\n.SE").unwrap();
    assert_eq!(m.find('S'), vec![(0, 0), (1, 1)]);
    assert_eq!(m.find('E'), vec![(2, 0), (2, 1)]);
    assert_eq!(m.find('x'), vec![]);
    assert_eq!(m.get_tile((1, 1)), Some('S'));
    assert_eq!(m.get_tile((3, 0)), None);
}
