use advent_grid::day22::{evolve, mix, prune, step};

#[test]
fn test_mix() {
    assert_eq!(mix(42, 15), 37)
}

#[test]
fn test_prune() {
    assert_eq!(prune(100000000), 16113920)
}

#[test]
fn test_step() {
    let sequence = [
        123, 15887950, 16495136, 527345, 704524, 1553684, 12683156, 11100544, 12249484, 7753432,
        5908254,
    ];

    let mut secret = sequence[0];
    for &value in sequence.iter().skip(1) {
        secret = step(secret);
        assert_eq!(secret, value);
    }
}

#[test]
fn evolve_two_thousand_steps() {
    assert_eq!(evolve(1, 2000), 8685429);
    assert_eq!(evolve(10, 2000), 4700978);
    assert_eq!(evolve(123, 10), 5908254);
    assert_eq!(evolve(123, 0), 123);
}
