use advent_grid::day20::Track;

const EXAMPLE: &str = "###############\n#...#...#.....#\n#.#.#.#.#.###.#\n#S#...#.#.#...#\n#######.#.#.###\n#######.#.#...#\n#######.#.###.#\n###..E#...#...#\n###.#######.###\n#...###...#...#\n#.#####.#.###.#\n#.#...#.#.#...#\n#.#.#.#.#.#.###\n#...#...#...###\n###############\n";

#[test]
fn race_track_example() {
    let track = Track::new(EXAMPLE).unwrap();
    let start = track.find('S')[0];
    let end = track.find('E')[0];
    assert_eq!(start, (1, 3));
    assert_eq!(end, (5, 7));
    let full = track.shortest_path(start, end, None).unwrap();
    assert_eq!(full, 84);
    assert_eq!(track.shortest_path(start, end, Some((8, 1))), Some(72));
    assert_eq!(track.shortest_path(start, end, Some((10, 7))), Some(64));
    let mut saved_64 = 0;
    for wall in track.find('#') {
        if let Some(len) = track.shortest_path(start, end, Some(wall)) {
            if full - len >= 64 {
                saved_64 += 1;
            }
        }
    }
    assert_eq!(saved_64, 1);
}

#[test]
fn race_track_edges() {
    let track = Track::new("S#E").unwrap();
    assert_eq!(track.shortest_path((0, 0), (2, 0), None), None);
    assert_eq!(track.shortest_path((0, 0), (2, 0), Some((1, 0))), Some(2));
    assert_eq!(track.shortest_path((0, 0), (5, 0), None), None);
    assert_eq!(track.tile((1, 0)), Some('#'));
    assert_eq!(track.tile((3, 0)), None);
}
