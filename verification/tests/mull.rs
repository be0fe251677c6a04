use advent_calendar::mull::{
    execute, parse_multiply_nums, run_compute_program, try_parse_multiply_nums, ProgramError,
};

fn chars(s: &str) -> Vec<char> {
    s.chars().collect()
}

#[test]
fn example_program() {
    let input = "xmul(2,4)%&mul[3,7]!@^do_not_mul(5,5)+mul(32,64]then(mul(11,8)mul(8,5))";
    assert_eq!(run_compute_program(input, false), Ok(161));
}

#[test]
fn example_program_with_switches() {
    let input = "xmul(2,4)&mul[3,7]!^don't()_mul(5,5)+mul(32,64](mul(11,8)undo()?mul(8,5))";
    assert_eq!(run_compute_program(input, true), Ok(48));
    assert_eq!(run_compute_program(input, false), Ok(161));
}

#[test]
fn program_without_commands() {
    assert_eq!(run_compute_program("", true), Ok(0));
    assert_eq!(run_compute_program("mul(1, 2) mul (3,4) do() don't()", false), Ok(0));
}

#[test]
fn multiply_nums_are_read() {
    assert_eq!(parse_multiply_nums("mul(2,4)"), (2, 4));
    assert_eq!(parse_multiply_nums("mul(123,4567)"), (123, 4567));
    assert_eq!(try_parse_multiply_nums(&chars("mul(4294967295,0)")), Some((4294967295, 0)));
    assert_eq!(try_parse_multiply_nums(&chars("mul(4294967296,0)")), None);
    assert_eq!(try_parse_multiply_nums(&chars("mul(1;2)")), None);
    assert_eq!(try_parse_multiply_nums(&chars("mul1,2)")), None);
    assert_eq!(try_parse_multiply_nums(&chars("mul(1,2")), None);
    assert_eq!(try_parse_multiply_nums(&chars("mul(,2)")), None);
    assert_eq!(try_parse_multiply_nums(&chars("x(+7,08)y")), Some((7, 8)));
}

#[test]
fn commands_are_run_in_order() {
    let commands: Vec<Vec<char>> =
        ["mul(2,3)", "don't()", "mul(5,5)", "do()", "mul(1,1)", "other"].iter().map(|c| chars(c)).collect();
    assert_eq!(execute(&commands), Ok(7));
    assert_eq!(execute(&Vec::new()), Ok(0));
}

#[test]
fn errors_of_a_program() {
    let too_much: Vec<Vec<char>> = vec![chars("mul(65536,65536)")];
    assert_eq!(execute(&too_much), Err(ProgramError::Overflow));
    let fits: Vec<Vec<char>> = vec![chars("mul(65535,65537)")];
    assert_eq!(execute(&fits), Ok(4294967295));
    let bad: Vec<Vec<char>> = vec![chars("don't()"), chars("mul(1,x)")];
    assert_eq!(execute(&bad), Err(ProgramError::BadNumber));
    // the first error counts
    let both: Vec<Vec<char>> = vec![chars("mul(65536,65536)"), chars("mul(1,x)")];
    assert_eq!(execute(&both), Err(ProgramError::Overflow));
    assert_eq!(run_compute_program("mul(99999999999,1)", false), Err(ProgramError::BadNumber));
}
