use advent_grid::day09::{checksum, compact, defragment, layout, move_file_exec, solution};

#[test]
fn example_disk_map() {
    assert_eq!(solution("2333133121414131402\n"), Some((Some(1928), Some(2858))));
    assert_eq!(solution("12345"), Some((Some(60), Some(132))));
    assert_eq!(solution("12a45"), None);
    assert_eq!(solution("  \n"), Some((Some(0), Some(0))));
}

#[test]
fn layout_and_compaction() {
    let digits: Vec<char> = "12345".chars().collect();
    let mut fs = layout(&digits).unwrap();
    let expect_layout = vec![
        Some(0), None, None, Some(1), Some(1), Some(1), None, None, None, None, Some(2), Some(2),
        Some(2), Some(2), Some(2),
    ];
    assert_eq!(fs, expect_layout);
    compact(&mut fs);
    let expect_compact = vec![
        Some(0), Some(2), Some(2), Some(1), Some(1), Some(1), Some(2), Some(2), Some(2), None, None,
        None, None, None, None,
    ];
    assert_eq!(fs, expect_compact);
    assert_eq!(checksum(&fs), Some(60));
}

#[test]
fn checksum_overflow_is_reported() {
    assert_eq!(checksum(&[None, None, Some(u64::MAX)]), None);
    assert_eq!(checksum(&[None, Some(u64::MAX)]), Some(u64::MAX));
    assert_eq!(checksum(&[Some(u64::MAX)]), Some(0));
    assert_eq!(checksum(&[]), Some(0));
}

#[test]
fn whole_file_moves() {
    let digits: Vec<char> = "2333133121414131402".chars().collect();
    let mut fs = layout(&digits).unwrap();
    defragment(&mut fs, 9);
    let text: String = fs
        .iter()
        .map(|b| match b {
            Some(id) => char::from_digit(*id as u32, 10).unwrap(),
            None => '.',
        })
        .collect();
    assert_eq!(text, "00992111777.44.333....5555.6666.....8888..");
    let mut small = vec![Some(0), None, None, Some(1), Some(1)];
    move_file_exec(&mut small, 1);
    assert_eq!(small, vec![Some(0), Some(1), Some(1), None, None]);
    move_file_exec(&mut small, 7);
    assert_eq!(small, vec![Some(0), Some(1), Some(1), None, None]);
}
