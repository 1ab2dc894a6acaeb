use advent_grid::day21::{Direction, Keypad};

#[test]
fn keypad_layout() {
    let numeric = Keypad::numeric();
    let keys = numeric.iter();
    assert_eq!(keys.len(), 11);
    assert_eq!(keys[0], ((0, 0), '7'));
    assert_eq!(keys[9], ((1, 3), '0'));
    assert_eq!(keys[10], ((2, 3), 'A'));
    assert_eq!(numeric.index((1, 3)), Some(10));
    assert_eq!(numeric.index((3, 0)), None);
    assert_eq!(numeric.index((-1, 0)), None);
    assert_eq!(numeric.coords(11), (2, 3));
    let control = Keypad::control();
    assert_eq!(control.iter()[0], ((1, 0), '^'));
    assert_eq!(control.coords(4), (1, 1));
}

#[test]
fn directions() {
    assert_eq!(Direction::Up.offset(), (0, -1));
    assert_eq!(Direction::Right.offset(), (1, 0));
    assert_eq!(Direction::Down.to_char(), 'v');
    assert_eq!(Direction::Left.to_char(), '<');
}

fn follow(start: (isize, isize), moves: &[Direction]) -> Vec<(isize, isize)> {
    let mut cells = vec![start];
    let mut cur = start;
    for m in moves {
        let (dx, dy) = m.offset();
        cur = (cur.0 + dx, cur.1 + dy);
        cells.push(cur);
    }
    cells
}

#[test]
fn keypad_shortest_paths() {
    let numeric = Keypad::numeric();
    assert_eq!(numeric.shortest_path((2, 3), (1, 3)), vec![Direction::Left]);
    assert_eq!(numeric.shortest_path((2, 3), (2, 3)), vec![]);
    let to_seven = numeric.shortest_path((2, 3), (0, 0));
    assert_eq!(to_seven.len(), 5);
    let cells = follow((2, 3), &to_seven);
    assert_eq!(*cells.last().unwrap(), (0, 0));
    assert!(!cells.contains(&(0, 3)));
    let control = Keypad::control();
    let to_left = control.shortest_path((2, 0), (0, 1));
    assert_eq!(to_left.len(), 3);
    let cells = follow((2, 0), &to_left);
    assert_eq!(*cells.last().unwrap(), (0, 1));
    assert!(!cells.contains(&(0, 0)));
}
