use advent_grid::day18::{first_cut, MemorySpace};

const FALLING: [(isize, isize); 25] = [
    (5, 4), (4, 2), (4, 5), (3, 0), (2, 1), (6, 3), (2, 4), (1, 5), (0, 6), (3, 3), (2, 6), (5, 1), (1, 2),
    (5, 5), (2, 5), (6, 5), (1, 4), (0, 4), (6, 4), (1, 1), (6, 1), (1, 0), (0, 5), (1, 6), (2, 0),
];

#[test]
fn memory_example_path() {
    let mut space = MemorySpace::new(7).unwrap();
    for &pos in FALLING.iter().take(12) {
        assert!(space.tile_mut(pos));
    }
    assert_eq!(space.tile((3, 0)), Some('#'));
    assert_eq!(space.tile((0, 0)), Some('.'));
    assert_eq!(space.tile((7, 0)), None);
    assert_eq!(space.shortest_path(), Some(22));
}

#[test]
fn memory_example_cut() {
    assert_eq!(first_cut(7, &FALLING), Some(20));
    assert_eq!(FALLING[20], (6, 1));
    assert_eq!(first_cut(7, &FALLING[..5]), None);
    assert_eq!(first_cut(0, &FALLING), None);
}

#[test]
fn memory_edges() {
    assert!(MemorySpace::new(0).is_none());
    let mut one = MemorySpace::new(1).unwrap();
    assert_eq!(one.shortest_path(), Some(0));
    assert!(!one.tile_mut((1, 1)));
    let empty = MemorySpace::new(3).unwrap();
    assert_eq!(empty.shortest_path(), Some(4));
}
