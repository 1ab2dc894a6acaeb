use advent_grid::day17::{combo, run, RunEnd};

#[test]
fn machine_example() {
    let mut out = Vec::new();
    let end = run([729, 0, 0], &[0, 1, 5, 4, 3, 0], &mut out, 10_000);
    assert_eq!(end, RunEnd::Halted);
    assert_eq!(out, vec![4, 6, 3, 5, 6, 3, 5, 2, 1, 0]);
}

#[test]
fn machine_small_programs() {
    let mut out = Vec::new();
    assert_eq!(run([10, 0, 0], &[5, 0, 5, 1, 5, 4], &mut out, 100), RunEnd::Halted);
    assert_eq!(out, vec![0, 1, 2]);
    let mut out = Vec::new();
    assert_eq!(run([2024, 0, 0], &[0, 1, 5, 4, 3, 0], &mut out, 10_000), RunEnd::Halted);
    assert_eq!(out, vec![4, 2, 5, 6, 7, 7, 7, 7, 3, 1, 0]);
    let mut out = Vec::new();
    assert_eq!(run([1, 0, 0], &[3, 0], &mut out, 50), RunEnd::OutOfSteps);
    assert_eq!(run([0, 0, 0], &[5, 7], &mut out, 50), RunEnd::Fault);
    assert_eq!(run([0, 0, 0], &[5], &mut out, 50), RunEnd::Fault);
    assert_eq!(run([0, 0, 0], &[9, 0], &mut out, 50), RunEnd::Fault);
    assert!(out.is_empty());
    assert_eq!(combo(&[7, 8, 9], 3), 3);
    assert_eq!(combo(&[7, 8, 9], 5), 8);
    let mut out = Vec::new();
    assert_eq!(run([u64::MAX, 0, 0], &[0, 4, 5, 4], &mut out, 10), RunEnd::Halted);
    assert_eq!(out, vec![0]);
}
