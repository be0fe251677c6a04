use advent_calendar::text::{
    char_grid, chars_of, find_height, find_last, lines, matches_at, parse_digits, parse_signed,
    parse_signed_list, parse_unsigned, parse_unsigned_list, slice, split, split_once, starts_with,
};

fn chars(s: &str) -> Vec<char> {
    s.chars().collect()
}

fn strings(pieces: Vec<Vec<char>>) -> Vec<String> {
    pieces.into_iter().map(|p| p.into_iter().collect()).collect()
}

#[test]
fn lines_as_the_standard_library_splits_them() {
    for text in ["", "\n", "a", "a\n", "a\nb", "a\r\nb\r\n", "a\r", "\r\n", "\n\n", "a\n\nb\n", "a\r\r\n", "é\nü"] {
        let expected: Vec<String> = text.lines().map(|l| l.to_string()).collect();
        assert_eq!(strings(lines(&chars_of(text))), expected, "lines of {:?}", text);
    }
}

#[test]
fn split_as_the_standard_library_splits() {
    for text in ["", ",", "a", "a,b", ",a,,b,", "1,2,3"] {
        let expected: Vec<String> = text.split(',').map(|l| l.to_string()).collect();
        assert_eq!(strings(split(&chars(text), ',')), expected, "pieces of {:?}", text);
    }
}

#[test]
fn split_once_at_the_first_place() {
    let cut = |text: &str, pat: &str| {
        split_once(&chars(text), &chars(pat)).map(|(l, r)| (l.into_iter().collect::<String>(), r.into_iter().collect::<String>()))
    };
    for (text, pat) in [("a: b: c", ": "), ("abc", "x"), ("   ", "   "), ("a   b", "   "), ("", "x"), ("xx", "x"), ("ab", "abc")] {
        let expected = text.split_once(pat).map(|(l, r)| (l.to_string(), r.to_string()));
        assert_eq!(cut(text, pat), expected, "{:?} cut at {:?}", text, pat);
    }
}

#[test]
fn patterns_in_a_text() {
    assert!(starts_with(&chars("Button A: 1"), &chars("Button A")));
    assert!(!starts_with(&chars("Button"), &chars("Button A")));
    assert!(starts_with(&chars("x"), &chars("")));
    assert!(matches_at(&chars("abcabc"), &chars("bc"), 4));
    assert!(!matches_at(&chars("abcabc"), &chars("bc"), 5));
    assert!(!matches_at(&chars("abc"), &chars("a"), 9));
    assert_eq!(slice(&chars("abcdef"), 2, 4), chars("cd"));
    assert_eq!(slice(&chars("abcdef"), 6, 6), chars(""));
}

#[test]
fn numbers_as_the_standard_library_reads_them() {
    for text in ["0", "7", "007", "+5", "-5", "", "+", "-", "4294967295", "4294967296", "1 ", " 1", "1_0", "٣", "--1", "+-1", "18446744073709551616"] {
        assert_eq!(
            parse_unsigned(&chars(text), u32::MAX as u64),
            text.parse::<u32>().ok().map(|n| n as u64),
            "{:?} as u32",
            text
        );
        assert_eq!(
            parse_unsigned(&chars(text), u64::MAX),
            text.parse::<u64>().ok(),
            "{:?} as u64",
            text
        );
    }
    for text in ["0", "-0", "+0", "-7", "2147483647", "2147483648", "-2147483648", "-2147483649", "", "-", "+", "1-", "9223372036854775807", "9223372036854775808", "-9223372036854775808", "-9223372036854775809"] {
        assert_eq!(
            parse_signed(&chars(text), i32::MIN as i64, i32::MAX as i64),
            text.parse::<i32>().ok().map(|n| n as i64),
            "{:?} as i32",
            text
        );
        assert_eq!(
            parse_signed(&chars(text), i64::MIN, i64::MAX),
            text.parse::<i64>().ok(),
            "{:?} as i64",
            text
        );
    }
    assert_eq!(parse_digits(&chars("ab12"), 2, 99), Some(12));
    assert_eq!(parse_digits(&chars("ab12"), 2, 11), None);
    assert_eq!(parse_digits(&chars("ab12"), 4, 99), None);
}

#[test]
fn lists_of_numbers() {
    assert_eq!(parse_signed_list(&chars("1 -2 +3"), ' ', -10, 10), Some(vec![1, -2, 3]));
    assert_eq!(parse_signed_list(&chars("1 -2 11"), ' ', -10, 10), None);
    assert_eq!(parse_signed_list(&chars("1  2"), ' ', -10, 10), None);
    assert_eq!(parse_signed_list(&chars(""), ' ', -10, 10), None);
    assert_eq!(parse_unsigned_list(&chars("75,47,61"), ',', 100), Some(vec![75, 47, 61]));
    assert_eq!(parse_unsigned_list(&chars("75,-47"), ',', 100), None);
    assert_eq!(parse_unsigned_list(&chars("7"), ',', 100), Some(vec![7]));
}

#[test]
fn grid_of_characters() {
    let grid = char_grid("ab\n\nc\r\n");
    assert_eq!(grid.coordinates(), vec![(0, 0), (0, 1), (2, 0)]);
    assert_eq!(grid.get((0, 1)), Some('b'));
    assert_eq!(grid.get((2, 0)), Some('c'));
    assert_eq!(find_last(&grid, 'c'), Some((2, 0)));
    assert_eq!(find_last(&grid, 'x'), None);
    let grid = char_grid("S.S\n.S.");
    assert_eq!(find_last(&grid, 'S'), Some((1, 1)));
    assert_eq!(find_last(&grid, '.'), Some((1, 2)));
}

#[test]
fn height_up_to_the_first_empty_line() {
    let all = |text: &str| lines(&chars_of(text));
    assert_eq!(find_height(&all("a\nb\n\nc\n\nd")), 2);
    assert_eq!(find_height(&all("a\nb")), 2);
    assert_eq!(find_height(&all("\na")), 0);
    assert_eq!(find_height(&all("")), 0);
}
