use advent_grid::day10::TopoMap;

const EXAMPLE: &str = "89010123\n78121874\n87430965\n96549874\n45678903\n32019012\n01329801\n10456732\n";

fn trailheads(map: &TopoMap) -> Vec<(isize, isize)> {
    let mut out = Vec::new();
    for y in 0..map.height {
        for x in 0..map.width {
            if map.get_tile((x as isize, y as isize)) == Some(0) {
                out.push((x as isize, y as isize));
            }
        }
    }
    out
}

#[test]
fn trail_scores_example() {
    let map = TopoMap::new(EXAMPLE).unwrap();
    let mut total = 0;
    for head in trailheads(&map) {
        let mut visited = vec![false; map.tiles.len()];
        total += map.count_trail_peaks(head, 0, &mut visited);
    }
    assert_eq!(total, 36);
}

#[test]
fn trail_ratings_example() {
    let map = TopoMap::new(EXAMPLE).unwrap();
    let total: usize = trailheads(&map).into_iter().map(|h| map.count_unique_trails(h, 0)).sum();
    assert_eq!(total, 81);
}

#[test]
fn trail_edges() {
    let map = TopoMap::new("0123456789").unwrap();
    assert_eq!(map.count_unique_trails((0, 0), 0), 1);
    assert_eq!(map.count_unique_trails((1, 0), 0), 0);
    assert_eq!(map.count_unique_trails((9, 0), 9), 1);
    let mut visited = vec![false; 10];
    assert_eq!(map.count_trail_peaks((0, 0), 0, &mut visited), 1);
    assert_eq!(map.count_trail_peaks((0, 0), 0, &mut visited), 0);
    assert!(TopoMap::new("01\n2x").is_none());
    assert_eq!(map.get_tile((10, 0)), None);
}
