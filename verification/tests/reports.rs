use advent_calendar::reports::{count_valid, is_record_valid, is_record_valid_damped, parse_reports};

const REPORTS: &str = "7 6 4 2 1\n1 2 7 8 9\n9 7 6 2 1\n1 3 2 4 5\n8 6 4 4 1\n1 3 6 7 9\n";

#[test]
fn example_reports() {
    let reports = parse_reports(REPORTS).unwrap();
    let safe: Vec<bool> = reports.iter().map(is_record_valid).collect();
    assert_eq!(safe, vec![true, false, false, false, false, true]);
    let damped: Vec<bool> = reports.iter().map(is_record_valid_damped).collect();
    assert_eq!(damped, vec![true, false, false, true, true, true]);
    assert_eq!(count_valid(&reports, false), 2);
    assert_eq!(count_valid(&reports, true), 4);
}

#[test]
fn short_reports_are_safe() {
    assert!(is_record_valid(&vec![]));
    assert!(is_record_valid(&vec![5]));
    assert!(is_record_valid(&vec![5, 6]));
    assert!(!is_record_valid(&vec![5, 5]));
    assert!(!is_record_valid(&vec![5, 9]));
    assert!(is_record_valid(&vec![5, 2]));
}

#[test]
fn steps_at_the_rim_of_the_range() {
    assert!(!is_record_valid(&vec![i32::MIN, i32::MAX]));
    assert!(!is_record_valid(&vec![i32::MAX, i32::MIN]));
    assert!(is_record_valid(&vec![i32::MAX - 3, i32::MAX]));
    assert!(is_record_valid(&vec![i32::MIN + 1, i32::MIN]));
}

#[test]
fn the_first_step_sets_the_direction() {
    assert!(!is_record_valid(&vec![1, 2, 1]));
    assert!(!is_record_valid(&vec![3, 2, 3]));
    assert!(is_record_valid_damped(&vec![1, 2, 1]));
    assert!(is_record_valid_damped(&vec![9, 1, 2, 3]));
    assert!(!is_record_valid_damped(&vec![1, 9, 2, 9]));
}

#[test]
fn malformed_reports_are_refused() {
    assert!(parse_reports("1 2\n\n3 4").is_none());
    assert!(parse_reports("1  2").is_none());
    assert!(parse_reports("1 a").is_none());
    assert_eq!(parse_reports("-1 +2"), Some(vec![vec![-1, 2]]));
    assert_eq!(parse_reports(""), Some(vec![]));
}
