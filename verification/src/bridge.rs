//! Calibration equations: a target and a list of numbers, between which
//! operators are still to be placed.
//!
//! The operators are applied from left to right. An equation can be solved
//! where some choice of operators makes the numbers give the target. A
//! value that does not fit in a `usize` cannot be carried on: a choice of
//! operators that leads to one solves nothing.

use crate::text::{
    chars_of, cut_once, lines, lines_of, parse_unsigned, parse_unsigned_list, rows, split_once,
    unsigned_list_of, unsigned_of,
};
use vstd::prelude::*;

verus! {

/// An operator that can stand between two numbers.
#[derive(Clone, Copy, Debug, PartialEq, Eq, Structural)]
pub enum Operation {
    /// The sum of the two numbers.
    Add,
    /// The product of the two numbers.
    Multiply,
    /// The digits of the left number followed by those of the right.
    Concatenate,
}

/// The number of decimal digits of `n`.
pub open spec fn digits(n: nat) -> nat
    decreases n,
{
    if n < 10 {
        1
    } else {
        1 + digits(n / 10)
    }
}

/// Ten to the power `n`.
pub open spec fn pow10(n: nat) -> nat
    decreases n,
{
    if n == 0 {
        1
    } else {
        10 * pow10((n - 1) as nat)
    }
}

/// What `op` makes of `a` and `b`.
pub open spec fn apply(op: Operation, a: nat, b: nat) -> nat {
    match op {
        Operation::Add => a + b,
        Operation::Multiply => a * b,
        Operation::Concatenate => a * pow10(digits(b)) + b,
    }
}

/// Whether operators of `ops` can be placed before each of `numbers` so
/// that, starting from `acc`, the outcome is `target`, with every value on
/// the way fitting in a `usize`.
pub open spec fn reachable(target: nat, acc: nat, numbers: Seq<usize>, ops: Seq<Operation>) -> bool
    decreases numbers.len(),
{
    if numbers.len() == 0 {
        acc == target
    } else {
        exists|i: int|
            0 <= i < ops.len() && apply(#[trigger] ops[i], acc, numbers[0] as nat) <= usize::MAX
                && reachable(
                target,
                apply(ops[i], acc, numbers[0] as nat),
                numbers.drop_first(),
                ops,
            )
    }
}

/// A power of ten is at least one.
proof fn lemma_pow10_positive(n: nat)
    ensures
        pow10(n) >= 1,
    decreases n,
{
    if n > 0 {
        lemma_pow10_positive((n - 1) as nat);
    }
}

/// What `op` makes of `a` and `b`, or `None` where that does not fit in a
/// `usize`.
pub fn apply_checked(op: Operation, a: usize, b: usize) -> (r: Option<usize>)
    ensures
        match r {
            Some(v) => v == apply(op, a as nat, b as nat),
            None => apply(op, a as nat, b as nat) > usize::MAX,
        },
{
    match op {
        Operation::Add => a.checked_add(b),
        Operation::Multiply => a.checked_mul(b),
        Operation::Concatenate => {
            // shift `a` to the left by one digit for each digit of `b`
            let mut shifted: usize = a;
            let mut rest: usize = b;
            let ghost mut done: nat = 0;
            assert(a * pow10(0) == a) by (nonlinear_arith)
                requires
                    pow10(0) == 1,
            ;
            loop
                invariant_except_break
                    op == Operation::Concatenate,
                    shifted == a * pow10(done),
                    digits(b as nat) == done + digits(rest as nat),
                ensures
                    shifted == a * pow10(digits(b as nat)),
                decreases rest,
            {
                proof {
                    assert(digits(rest as nat) >= 1);
                    assert(a * pow10(done + 1) == (a * pow10(done)) * 10) by (nonlinear_arith)
                        requires
                            pow10(done + 1) == 10 * pow10(done),
                    ;
                }
                shifted = match shifted.checked_mul(10) {
                    Some(shifted) => shifted,
                    None => {
                        proof {
                            lemma_pow10_grows(done + 1, digits(b as nat));
                            let high = pow10(digits(b as nat));
                            let low = pow10(done + 1);
                            assert((a as nat) * high >= (a as nat) * low) by (nonlinear_arith)
                                requires
                                    high >= low,
                            ;
                            assert((a as nat) * low == shifted * 10);
                            assert(apply(op, a as nat, b as nat) == (a as nat) * high + b);
                        }
                        return None;
                    },
                };
                proof {
                    done = done + 1;
                }
                if rest < 10 {
                    break ;
                }
                rest = rest / 10;
            }
            shifted.checked_add(b)
        },
    }
}

/// Larger powers of ten are larger.
proof fn lemma_pow10_grows(m: nat, n: nat)
    requires
        m <= n,
    ensures
        pow10(m) <= pow10(n),
    decreases n,
{
    if m < n {
        lemma_pow10_grows(m, (n - 1) as nat);
    }
}

/// An equation: the target, and the numbers that have to give it.
#[derive(Debug, PartialEq, Eq, Hash)]
pub struct Equation {
    pub target: usize,
    pub nums: Vec<usize>,
}

/// Whether operators of `ops` can be placed before the numbers of `numbers`
/// from the place `from` on so that, starting from `acc`, the outcome is
/// `target`.
fn eval_from(target: usize, acc: usize, numbers: &Vec<usize>, from: usize, ops: &[Operation]) -> (r:
    bool)
    requires
        from <= numbers.len(),
    ensures
        r == reachable(target as nat, acc as nat, numbers@.skip(from as int), ops@),
    decreases numbers.len() - from,
{
    let ghost rest = numbers@.skip(from as int);
    if from == numbers.len() {
        return acc == target;
    }
    assert(rest[0] == numbers@[from as int]);
    assert(rest.drop_first() =~= numbers@.skip(from + 1));
    let mut i: usize = 0;
    while i < ops.len()
        invariant
            i <= ops.len(),
            from < numbers.len(),
            rest == numbers@.skip(from as int),
            rest.len() > 0,
            rest[0] == numbers@[from as int],
            rest.drop_first() == numbers@.skip(from + 1),
            forall|k: int|
                0 <= k < i ==> !(apply(#[trigger] ops@[k], acc as nat, rest[0] as nat) <= usize::MAX
                    && reachable(
                    target as nat,
                    apply(ops@[k], acc as nat, rest[0] as nat),
                    rest.drop_first(),
                    ops@,
                )),
        decreases ops.len() - i,
    {
        match apply_checked(ops[i], acc, numbers[from]) {
            Some(value) => {
                if eval_from(target, value, numbers, from + 1, ops) {
                    assert(apply(ops@[i as int], acc as nat, rest[0] as nat) <= usize::MAX
                        && reachable(
                        target as nat,
                        apply(ops@[i as int], acc as nat, rest[0] as nat),
                        rest.drop_first(),
                        ops@,
                    ));
                    assert(reachable(target as nat, acc as nat, rest, ops@));
                    return true;
                }
            },
            None => {},
        }
        i += 1;
    }
    assert(!reachable(target as nat, acc as nat, rest, ops@));
    false
}

impl Equation {
    /// The two plain operators: sum and product.
    pub fn operations_1() -> (ops: Vec<Operation>)
        ensures
            ops@ == seq![Operation::Add, Operation::Multiply],
    {
        let mut ops = Vec::new();
        ops.push(Operation::Add);
        ops.push(Operation::Multiply);
        ops
    }

    /// All three operators: sum, product and concatenation.
    pub fn operations_2() -> (ops: Vec<Operation>)
        ensures
            ops@ == seq![Operation::Add, Operation::Multiply, Operation::Concatenate],
    {
        let mut ops = Vec::new();
        ops.push(Operation::Add);
        ops.push(Operation::Multiply);
        ops.push(Operation::Concatenate);
        ops
    }

    /// The target of the equation where the equation can be solved with
    /// the operators `ops`, else 0.
    pub fn can_solve(&self, ops: &[Operation]) -> (value: usize)
        requires
            self.nums@.len() > 0,
        ensures
            value == if reachable(
                self.target as nat,
                self.nums@[0] as nat,
                self.nums@.skip(1),
                ops@,
            ) {
                self.target
            } else {
                0
            },
    {
        if eval_from(self.target, self.nums[0], &self.nums, 1, ops) {
            self.target
        } else {
            0
        }
    }

    /// Whether operators of `ops` can be placed before each of `numbers` so
    /// that, starting from `acc`, the outcome is `target`.
    pub fn eval(target: usize, acc: usize, numbers: Vec<usize>, ops: &[Operation]) -> (r: bool)
        ensures
            r == reachable(target as nat, acc as nat, numbers@, ops@),
    {
        assert(numbers@.skip(0) =~= numbers@);
        eval_from(target, acc, &numbers, 0, ops)
    }
}

/// Whether `equation` is what the line `line` writes: the target, a colon
/// and a space, and the numbers with single spaces between them.
pub open spec fn writes(line: Seq<char>, equation: Equation) -> bool {
    &&& cut_once(line, seq![':', ' ']) matches Some((left, right))
    &&& unsigned_of(left, usize::MAX as nat) == Some(equation.target as nat)
    &&& unsigned_list_of(right, ' ', usize::MAX as nat) matches Some(list)
    &&& list.len() == equation.nums@.len()
    &&& forall|i: int| 0 <= i < list.len() ==> #[trigger] equation.nums@[i] as nat == list[i]
}

/// Whether the line `line` writes an equation.
pub open spec fn is_equation(line: Seq<char>) -> bool {
    &&& cut_once(line, seq![':', ' ']) matches Some((left, right))
    &&& unsigned_of(left, usize::MAX as nat) is Some
    &&& unsigned_list_of(right, ' ', usize::MAX as nat) is Some
}

impl Equation {
    /// Reads an equation from a line, or gives `None` where the line does
    /// not write one.
    pub fn from_str(s: &str) -> (equation: Option<Equation>)
        ensures
            match equation {
                Some(e) => writes(s@, e) && e.nums@.len() > 0,
                None => !is_equation(s@),
            },
    {
        let text = chars_of(s);
        Equation::from_chars(&text)
    }

    /// Reads an equation from the characters of a line.
    pub fn from_chars(text: &Vec<char>) -> (equation: Option<Equation>)
        ensures
            match equation {
                Some(e) => writes(text@, e) && e.nums@.len() > 0,
                None => !is_equation(text@),
            },
    {
        let mut colon: Vec<char> = Vec::new();
        colon.push(':');
        colon.push(' ');
        assert(colon@ =~= seq![':', ' ']);
        let (left, right) = match split_once(text, &colon) {
            Some(both) => both,
            None => {
                return None;
            },
        };
        let target = match parse_unsigned(&left, usize::MAX as u64) {
            Some(target) => target as usize,
            None => {
                return None;
            },
        };
        let list = match parse_unsigned_list(&right, ' ', usize::MAX as u64) {
            Some(list) => list,
            None => {
                return None;
            },
        };
        let mut nums: Vec<usize> = Vec::new();
        let mut i: usize = 0;
        while i < list.len()
            invariant
                i <= list.len(),
                nums@.len() == i,
                forall|k: int| 0 <= k < list@.len() ==> #[trigger] list@[k] <= usize::MAX,
                forall|k: int| 0 <= k < i ==> #[trigger] nums@[k] == list@[k],
            decreases list.len() - i,
        {
            nums.push(list[i] as usize);
            i += 1;
        }
        proof {
            crate::text::lemma_first_at(right@, seq![' '], 0);
            assert(crate::text::pieces_of(right@, ' ').len() > 0);
        }
        Some(Equation { target, nums })
    }
}

/// Reads the equations, one in each line. `None` where a line does not
/// write an equation.
pub fn get_equations(input: &str) -> (equations: Option<Vec<Equation>>)
    ensures
        match equations {
            Some(list) => list@.len() == lines_of(input@).len() && forall|i: int|
                0 <= i < list@.len() ==> writes(lines_of(input@)[i], #[trigger] list@[i])
                    && list@[i].nums@.len() > 0,
            None => exists|i: int|
                0 <= i < lines_of(input@).len() && !is_equation(#[trigger] lines_of(input@)[i]),
        },
{
    let text = chars_of(input);
    let all = lines(&text);
    let mut equations: Vec<Equation> = Vec::new();
    let mut i: usize = 0;
    while i < all.len()
        invariant
            i <= all.len(),
            rows(all@) == lines_of(input@),
            equations@.len() == i,
            forall|k: int|
                0 <= k < i ==> writes(rows(all@)[k], #[trigger] equations@[k])
                    && equations@[k].nums@.len() > 0,
        decreases all.len() - i,
    {
        assert(rows(all@)[i as int] == all@[i as int]@);
        match Equation::from_chars(&all[i]) {
            Some(equation) => {
                equations.push(equation);
            },
            None => {
                return None;
            },
        }
        i += 1;
    }
    Some(equations)
}

/// The sum of the targets of the first `n` equations that can be solved
/// with the operators `ops`.
pub open spec fn calibration_of(equations: Seq<Equation>, ops: Seq<Operation>, n: int) -> int
    decreases n,
{
    if n <= 0 {
        0
    } else {
        calibration_of(equations, ops, n - 1) + if reachable(
            equations[n - 1].target as nat,
            equations[n - 1].nums@[0] as nat,
            equations[n - 1].nums@.skip(1),
            ops,
        ) {
            equations[n - 1].target as int
        } else {
            0
        }
    }
}

/// The sum over the first equations is at most the sum over all.
proof fn lemma_calibration_grows(equations: Seq<Equation>, ops: Seq<Operation>, n: int, m: int)
    requires
        0 <= n <= m,
    ensures
        0 <= calibration_of(equations, ops, n) <= calibration_of(equations, ops, m),
    decreases m,
{
    if n < m {
        lemma_calibration_grows(equations, ops, n, m - 1);
    } else if n > 0 {
        lemma_calibration_grows(equations, ops, n - 1, m - 1);
    }
}

/// The total calibration result: the sum of the targets of the equations
/// that can be solved with the operators `ops`. `None` where the sum does
/// not fit in a `usize`.
pub fn calibration(equations: &Vec<Equation>, ops: &[Operation]) -> (sum: Option<usize>)
    requires
        forall|i: int| 0 <= i < equations@.len() ==> (#[trigger] equations@[i]).nums@.len() > 0,
    ensures
        match sum {
            Some(s) => s == calibration_of(equations@, ops@, equations@.len() as int),
            None => calibration_of(equations@, ops@, equations@.len() as int) > usize::MAX,
        },
{
    let mut sum: usize = 0;
    let mut i: usize = 0;
    while i < equations.len()
        invariant
            i <= equations.len(),
            forall|k: int| 0 <= k < equations@.len() ==> (#[trigger] equations@[k]).nums@.len() > 0,
            sum == calibration_of(equations@, ops@, i as int),
        decreases equations.len() - i,
    {
        let value = equations[i].can_solve(ops);
        proof {
            lemma_calibration_grows(equations@, ops@, i + 1, equations@.len() as int);
        }
        sum = match sum.checked_add(value) {
            Some(sum) => sum,
            None => {
                return None;
            },
        };
        i += 1;
    }
    Some(sum)
}

} // verus!
