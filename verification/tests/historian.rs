use advent_calendar::historian::{
    parse_lists, parse_unsigned_lists, similarity, sort, total_distance,
};

const LISTS: &str = "3   4\n4   3\n2   5\n1   3\n3   9\n3   3\n";

#[test]
fn example_total_distance() {
    let (left, right) = parse_lists(LISTS).unwrap();
    assert_eq!(left, vec![3, 4, 2, 1, 3, 3]);
    assert_eq!(right, vec![4, 3, 5, 3, 9, 3]);
    assert_eq!(total_distance(left, right), 11);
}

#[test]
fn example_similarity() {
    let (left, right) = parse_unsigned_lists(LISTS).unwrap();
    assert_eq!(similarity(&left, &right), Some(31));
}

#[test]
fn sort_puts_numbers_in_rising_order() {
    assert_eq!(sort(vec![3, -1, 2, 3, i32::MIN, 0]), vec![i32::MIN, -1, 0, 2, 3, 3]);
    assert_eq!(sort(vec![]), Vec::<i32>::new());
}

#[test]
fn distance_of_far_apart_numbers_does_not_overflow() {
    assert_eq!(total_distance(vec![i32::MAX], vec![i32::MIN]), 4294967295);
    assert_eq!(total_distance(vec![1, 2, 3], vec![5]), 4);
}

#[test]
fn lists_with_negative_numbers() {
    let (left, right) = parse_lists("-3   +4\n10   -20").unwrap();
    assert_eq!(left, vec![-3, 10]);
    assert_eq!(right, vec![4, -20]);
    assert!(parse_unsigned_lists("-3   4").is_none());
}

#[test]
fn malformed_lists_are_refused() {
    assert!(parse_lists("3  4\n").is_none());
    assert!(parse_lists("3   x\n").is_none());
    assert!(parse_lists("3   4\n\n5   6\n").is_none());
    assert!(parse_lists("99999999999   1\n").is_none());
    assert_eq!(parse_lists(""), Some((vec![], vec![])));
}

#[test]
fn similarity_counts_every_occurrence() {
    assert_eq!(similarity(&vec![2, 2, 7], &vec![2, 2, 2, 9]), Some(12));
    assert_eq!(similarity(&vec![], &vec![1]), Some(0));
    assert_eq!(similarity(&vec![u32::MAX], &vec![u32::MAX, u32::MAX]), Some(2 * u32::MAX as u128));
}
