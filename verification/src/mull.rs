//! A corrupted program of multiplications, to be found in a text and run.
//!
//! The commands are found by a regular expression of the `regex` crate.
//! How a command that was found is read and what the commands add up to is
//! verified here.

use crate::text::{
    begins_with, chars_of, cut_once, parse_unsigned, rows, split_once, starts_with, unsigned_of,
};
use regex::Regex;
use vstd::prelude::*;

verus! {

/// The error of the `regex` crate, which is handed on unopened.
#[verifier::external_type_specification]
#[verifier::external_body]
pub struct ExRegexError(regex::Error);

/// Why a program could not be run.
#[derive(Clone, Copy, Debug, PartialEq, Eq, Structural)]
pub enum ProgramError {
    /// The regular expression could not be compiled.
    BadPattern,
    /// A multiplication whose numbers cannot be read as `u32`.
    BadNumber,
    /// The sum of the products does not fit in a `u32`.
    Overflow,
}

/// The pattern of a multiplication.
pub const MULTIPLY: &'static str = r"mul\((\d+),(\d+)\)";

/// The pattern of a multiplication, a `do()` or a `don't()`.
pub const MULTIPLY_OR_SWITCH: &'static str = r"mul\((\d+),(\d+)\)|do\(\)|don't\(\)";

/// The two numbers of a multiplication command: the number between the
/// first `(` and the first `,`, and the number between that `,` and the
/// first `)` after it; `None` where the command is not made so.
pub open spec fn multiply_nums_of(command: Seq<char>) -> Option<(u32, u32)> {
    match cut_once(command, seq![',']) {
        None => None,
        Some((left, right)) => match (cut_once(left, seq!['(']), cut_once(right, seq![')'])) {
            (Some((_, first)), Some((second, _))) => match (
                unsigned_of(first, u32::MAX as nat),
                unsigned_of(second, u32::MAX as nat),
            ) {
                (Some(a), Some(b)) => Some((a as u32, b as u32)),
                _ => None,
            },
            _ => None,
        },
    }
}

/// The two numbers of a multiplication command, or `None` where the command
/// is not a multiplication of two numbers that fit in a `u32`.
pub fn try_parse_multiply_nums(command: &Vec<char>) -> (nums: Option<(u32, u32)>)
    ensures
        nums == multiply_nums_of(command@),
{
    let mut comma: Vec<char> = Vec::new();
    comma.push(',');
    let mut open: Vec<char> = Vec::new();
    open.push('(');
    let mut close: Vec<char> = Vec::new();
    close.push(')');
    assert(comma@ =~= seq![','] && open@ =~= seq!['('] && close@ =~= seq![')']);
    let (left, right) = match split_once(command, &comma) {
        Some(both) => both,
        None => {
            return None;
        },
    };
    let first = match split_once(&left, &open) {
        Some((_, first)) => first,
        None => {
            return None;
        },
    };
    let second = match split_once(&right, &close) {
        Some((second, _)) => second,
        None => {
            return None;
        },
    };
    let num1 = match parse_unsigned(&first, u32::MAX as u64) {
        Some(num1) => num1,
        None => {
            return None;
        },
    };
    let num2 = match parse_unsigned(&second, u32::MAX as u64) {
        Some(num2) => num2,
        None => {
            return None;
        },
    };
    Some((num1 as u32, num2 as u32))
}

/// The two numbers of the multiplication command `command`.
pub fn parse_multiply_nums(command: &str) -> (nums: (u32, u32))
    requires
        multiply_nums_of(command@) is Some,
    ensures
        Some(nums) == multiply_nums_of(command@),
{
    let text = chars_of(command);
    match try_parse_multiply_nums(&text) {
        Some(nums) => nums,
        None => (0, 0),
    }
}

/// Whether multiplications are switched off, and the sum of the products so
/// far.
pub type Progress = (bool, nat);

/// What the command `command` makes of the progress: a multiplication adds
/// its product unless multiplications are switched off, `don't` switches
/// them off, `do` switches them on.
pub open spec fn after_command(command: Seq<char>, progress: Progress) -> Result<
    Progress,
    ProgramError,
> {
    if begins_with(command, seq!['m', 'u', 'l']) {
        match multiply_nums_of(command) {
            None => Err(ProgramError::BadNumber),
            Some((a, b)) => if progress.0 {
                Ok(progress)
            } else if progress.1 + a * b > u32::MAX {
                Err(ProgramError::Overflow)
            } else {
                Ok((false, (progress.1 + a * b) as nat))
            },
        }
    } else if begins_with(command, seq!['d', 'o', 'n', '\'', 't']) {
        Ok((true, progress.1))
    } else if begins_with(command, seq!['d', 'o']) {
        Ok((false, progress.1))
    } else {
        Ok(progress)
    }
}

/// The progress after the commands `commands`, run in order, or the first
/// error on the way.
pub open spec fn after_commands(commands: Seq<Seq<char>>) -> Result<Progress, ProgramError>
    decreases commands.len(),
{
    if commands.len() == 0 {
        Ok((false, 0))
    } else {
        match after_commands(commands.drop_last()) {
            Err(e) => Err(e),
            Ok(progress) => after_command(commands.last(), progress),
        }
    }
}

/// Runs the commands `commands`: the sum of the products of the
/// multiplications that are not switched off.
pub fn execute(commands: &Vec<Vec<char>>) -> (sum: Result<u32, ProgramError>)
    ensures
        match sum {
            Ok(s) => after_commands(rows(commands@)) matches Ok(p) && p.1 == s,
            Err(e) => after_commands(rows(commands@)) == Err::<Progress, ProgramError>(e),
        },
{
    let mut mul: Vec<char> = Vec::new();
    mul.push('m');
    mul.push('u');
    mul.push('l');
    let mut dont: Vec<char> = Vec::new();
    dont.push('d');
    dont.push('o');
    dont.push('n');
    dont.push('\'');
    dont.push('t');
    let mut doo: Vec<char> = Vec::new();
    doo.push('d');
    doo.push('o');
    assert(mul@ =~= seq!['m', 'u', 'l'] && dont@ =~= seq!['d', 'o', 'n', '\'', 't'] && doo@
        =~= seq!['d', 'o']);
    let ghost all = rows(commands@);
    let mut disabled = false;
    let mut result: u32 = 0;
    let mut i: usize = 0;
    assert(all.take(0) =~= Seq::<Seq<char>>::empty());
    while i < commands.len()
        invariant
            i <= commands.len(),
            all == rows(commands@),
            mul@ == seq!['m', 'u', 'l'],
            dont@ == seq!['d', 'o', 'n', '\'', 't'],
            doo@ == seq!['d', 'o'],
            after_commands(all.take(i as int)) == Ok::<Progress, ProgramError>(
                (disabled, result as nat),
            ),
        decreases commands.len() - i,
    {
        let command = &commands[i];
        proof {
            assert(all.take(i + 1).drop_last() =~= all.take(i as int));
            assert(all.take(i + 1).last() == command@);
            lemma_error_stays(all, i + 1);
        }
        if starts_with(command, &mul) {
            let (num1, num2) = match try_parse_multiply_nums(command) {
                Some(nums) => nums,
                None => {
                    return Err(ProgramError::BadNumber);
                },
            };
            if !disabled {
                assert(0 <= num1 * num2 <= 0xffff_ffff * 0xffff_ffff) by (nonlinear_arith)
                    requires
                        0 <= num1 <= 0xffff_ffff,
                        0 <= num2 <= 0xffff_ffff,
                ;
                let product: u64 = num1 as u64 * num2 as u64;
                if product > (u32::MAX - result) as u64 {
                    return Err(ProgramError::Overflow);
                }
                result = result + product as u32;
            }
        } else if starts_with(command, &dont) {
            disabled = true;
        } else if starts_with(command, &doo) {
            disabled = false;
        }
        i += 1;
    }
    assert(all.take(i as int) =~= all);
    Ok(result)
}

/// Once the commands have run into an error, further commands do not mend
/// it.
proof fn lemma_error_stays(commands: Seq<Seq<char>>, n: int)
    requires
        0 <= n <= commands.len(),
    ensures
        after_commands(commands.take(n)) matches Err(e) ==> after_commands(commands) == Err::<
            Progress,
            ProgramError,
        >(e),
    decreases commands.len(),
{
    if n == commands.len() {
        assert(commands.take(n) =~= commands);
    } else {
        lemma_error_stays(commands.drop_last(), n);
        assert(commands.drop_last().take(n) =~= commands.take(n));
    }
}

/// The matches of the regular expression `pattern` in `input`, from left to
/// right and without overlap; `None` where `pattern` is no regular
/// expression.
pub uninterp spec fn regex_matches(pattern: Seq<char>, input: Seq<char>) -> Option<Seq<Seq<char>>>;

/// What a list of strings holds.
pub open spec fn strings(list: Seq<String>) -> Seq<Seq<char>> {
    Seq::new(list.len(), |i: int| list[i]@)
}

/// Finds the matches of the regular expression `pattern` in `input`.
///
/// Trusted: calls `Regex::new`, `Regex::find_iter` and `Match::as_str` of
/// the `regex` crate. The contract only gives the outcome a name: the
/// matches depend on the pattern and the input alone. It claims nothing
/// about what matches.
#[verifier::external_body]
fn find_all(pattern: &str, input: &str) -> (found: Result<Vec<String>, regex::Error>)
    ensures
        match found {
            Ok(list) => regex_matches(pattern@, input@) == Some(strings(list@)),
            Err(_) => regex_matches(pattern@, input@) is None,
        },
{
    let regex = Regex::new(pattern)?;
    Ok(regex.find_iter(input).map(|found| found.as_str().to_string()).collect())
}

/// The pattern by which commands are found: multiplications only, or, with
/// `handle_disable_commands`, the switches too.
pub open spec fn pattern_of(handle_disable_commands: bool) -> Seq<char> {
    if handle_disable_commands {
        MULTIPLY_OR_SWITCH@
    } else {
        MULTIPLY@
    }
}

/// Finds the commands in `input` and runs them. With
/// `handle_disable_commands` the switches `do()` and `don't()` are heeded,
/// else they are not even looked for.
pub fn run_compute_program(input: &str, handle_disable_commands: bool) -> (sum: Result<
    u32,
    ProgramError,
>)
    ensures
        match regex_matches(pattern_of(handle_disable_commands), input@) {
            None => sum == Err::<u32, ProgramError>(ProgramError::BadPattern),
            Some(commands) => match sum {
                Ok(s) => after_commands(commands) matches Ok(p) && p.1 == s,
                Err(e) => after_commands(commands) == Err::<Progress, ProgramError>(e),
            },
        },
{
    let pattern = if handle_disable_commands {
        MULTIPLY_OR_SWITCH
    } else {
        MULTIPLY
    };
    let found = match find_all(pattern, input) {
        Ok(found) => found,
        Err(_) => {
            return Err(ProgramError::BadPattern);
        },
    };
    let mut commands: Vec<Vec<char>> = Vec::new();
    let mut i: usize = 0;
    while i < found.len()
        invariant
            i <= found.len(),
            commands@.len() == i,
            forall|j: int| 0 <= j < i ==> (#[trigger] commands@[j])@ == found@[j]@,
        decreases found.len() - i,
    {
        commands.push(chars_of(found[i].as_str()));
        i += 1;
    }
    assert(rows(commands@) =~= strings(found@));
    execute(&commands)
}

} // verus!
