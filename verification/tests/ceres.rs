use advent_calendar::ceres::{count_crosses, find_occurances, move_at};

const LETTERS: &str = "MMMSXXMASM\nMSAMXMSMSA\nAMXSXMAAMM\nMSAMASMSMX\nXMASAMXAMM\nXXAMMXXAMA\nSMSMSASXSS\nSAXAMASAAA\nMAMMMXMMMM\nMXMXAXMASX\n";

#[test]
fn example_word_search() {
    let found = find_occurances(LETTERS.to_string(), "XMAS");
    assert_eq!(found.len(), 18);
    assert!(found.contains(&vec![(0, 5), (0, 6), (0, 7), (0, 8)]));
    assert!(found.contains(&vec![(9, 9), (8, 8), (7, 7), (6, 6)]));
}

#[test]
fn example_crosses() {
    let found = find_occurances(LETTERS.to_string(), "MAS");
    assert_eq!(count_crosses(&found), 9);
}

#[test]
fn every_direction_is_read() {
    let found = find_occurances("AB.\n...\n...".to_string(), "AB");
    assert_eq!(found, vec![vec![(0, 0), (0, 1)]]);
    let found = find_occurances("BBB\nBAB\nBBB".to_string(), "AB");
    assert_eq!(found.len(), 8);
    for (k, occurrence) in found.iter().enumerate() {
        let d = move_at(k);
        assert_eq!(occurrence, &vec![(1, 1), (1 + d.0, 1 + d.1)]);
    }
}

#[test]
fn a_word_of_one_letter_is_found_once_at_each_place() {
    let found = find_occurances("XAX\nAXA".to_string(), "X");
    assert_eq!(found, vec![vec![(0, 0)], vec![(0, 2)], vec![(1, 1)]]);
}

#[test]
fn nothing_is_found_of_no_word_or_in_no_text() {
    assert!(find_occurances("XMAS".to_string(), "").is_empty());
    assert!(find_occurances(String::new(), "XMAS").is_empty());
    assert!(find_occurances("XMA\nS".to_string(), "XMAS").is_empty());
}

#[test]
fn a_single_cross() {
    let found = find_occurances("M.S\n.A.\nM.S".to_string(), "MAS");
    assert_eq!(found.len(), 2);
    assert_eq!(count_crosses(&found), 1);
    // a word along a row crosses nothing
    let found = find_occurances("MAS\nMAS".to_string(), "MAS");
    assert_eq!(found.len(), 2);
    assert_eq!(count_crosses(&found), 0);
    // three occurrences in one place are no cross of two
    let found = vec![
        vec![(0, 0), (1, 1), (2, 2)],
        vec![(2, 0), (1, 1), (0, 2)],
        vec![(2, 2), (1, 1), (0, 0)],
        vec![(5, 5), (6, 6), (7, 7)],
    ];
    assert_eq!(count_crosses(&found), 0);
}
