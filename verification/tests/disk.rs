use advent_calendar::disk::Disk;

#[test]
fn example_disk() {
    let disk = Disk::from_str("2333133121414131402").unwrap();
    assert_eq!(disk.files_list.len(), 10);
    assert_eq!(disk.files_list[0], (0, 0, 2));
    assert_eq!(disk.files_list[9], (9, 40, 2));
    assert_eq!(disk.gaps_list, vec![(2, 3), (8, 3), (12, 3), (18, 1), (21, 1), (26, 1), (31, 1), (35, 1)]);
    let moved = Disk::compact_blocks(disk.clone());
    assert_eq!(Disk::calc_checksum(moved), 1928);
    let moved = Disk::compact_files(disk);
    assert_eq!(Disk::calc_checksum(moved), 2858);
}

#[test]
fn small_disk() {
    let disk = Disk::from_str("12345").unwrap();
    assert_eq!(disk.files_list, vec![(0, 0, 1), (1, 3, 3), (2, 10, 5)]);
    assert_eq!(disk.gaps_list, vec![(1, 2), (6, 4)]);
    let moved = Disk::compact_blocks(disk.clone());
    // 0 2 2 1 1 1 2 2 2
    assert_eq!(
        moved,
        vec![
            (2, 1, 1), (2, 2, 1), (2, 6, 1), (2, 7, 1), (2, 8, 1),
            (1, 5, 1), (1, 4, 1), (1, 3, 1),
            (0, 0, 1)
        ]
    );
    assert_eq!(Disk::checked_checksum(&moved), Some(60));
    // no gap holds a whole file
    assert_eq!(Disk::compact_files(disk), vec![(2, 10, 5), (1, 3, 3), (0, 0, 1)]);
}

#[test]
fn checksum_of_files() {
    assert_eq!(Disk::calc_checksum(vec![]), 0);
    assert_eq!(Disk::calc_checksum(vec![(3, 2, 2)]), 15);
    assert_eq!(Disk::calc_checksum(vec![(0, 5, 9), (1, 0, 0)]), 0);
    assert_eq!(Disk::checked_checksum(&vec![(usize::MAX, 1, 2)]), None);
    assert_eq!(Disk::checked_checksum(&vec![(0, usize::MAX, 2)]), Some(0));
    assert_eq!(Disk::checked_checksum(&vec![(1, usize::MAX, 2)]), None);
    assert_eq!(Disk::checked_checksum(&vec![(1, usize::MAX, 1)]), Some(usize::MAX));
}

#[test]
fn malformed_disks_are_refused() {
    assert!(Disk::from_str("123\n").is_none());
    assert!(Disk::from_str("12a").is_none());
    let empty = Disk::from_str("").unwrap();
    assert!(empty.files_list.is_empty() && empty.gaps_list.is_empty());
    let disk = Disk::from_str("0102").unwrap();
    assert_eq!(disk.files_list, Vec::<(usize, usize, usize)>::new());
    assert_eq!(disk.gaps_list, vec![(0, 1), (1, 2)]);
}

#[test]
fn files_and_gaps_within_the_range() {
    assert!(Disk::from_str("2333133121414131402").unwrap().is_fit());
    assert!(Disk { files_list: vec![(0, usize::MAX, 0)], gaps_list: vec![(usize::MAX - 1, 1)] }.is_fit());
    assert!(!Disk { files_list: vec![(0, usize::MAX, 1)], gaps_list: vec![] }.is_fit());
    assert!(!Disk { files_list: vec![], gaps_list: vec![(1, usize::MAX)] }.is_fit());
}
