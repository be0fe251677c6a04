//! Claw machines: two buttons move the claw, and the prize sits at a target.
//!
//! Button A moves the claw by one fixed offset, button B by another. The
//! machine is won by pressing A some number of times and B some number of
//! times so that the claw ends exactly over the target. Each press of A
//! costs three tokens, each press of B one.

use crate::text::{
    begins_with, chars_of, cut_once, lines, lines_of, parse_signed, rows, signed_of, split_once,
    starts_with,
};
use vstd::prelude::*;

verus! {

/// The cost of one press of button A.
pub const BUTTON_A_COST: i64 = 3;

/// The cost of one press of button B.
pub const BUTTON_B_COST: i64 = 1;

/// A claw machine: what each button adds to the position of the claw, and
/// where the prize is.
#[derive(Clone, Copy, Debug, PartialEq, Eq)]
pub struct Machine {
    pub button_a: (i64, i64),
    pub button_b: (i64, i64),
    pub target: (i64, i64),
}

/// Whether `x` fits in an `i64`.
pub open spec fn fits(x: int) -> bool {
    i64::MIN <= x <= i64::MAX
}

/// The cost of pressing A `a` times and B `b` times.
pub open spec fn cost_of(a: int, b: int) -> int {
    a * 3 + b
}

/// `x` divided by `d` and rounded towards zero.
pub open spec fn quotient(x: int, d: int) -> int {
    if x == 0 {
        0
    } else if x > 0 && d > 0 {
        x / d
    } else if x < 0 && d < 0 {
        (-x) / (-d)
    } else if x < 0 {
        -((-x) / d)
    } else {
        -(x / (-d))
    }
}

/// Dividing a multiple of `d` by `d` gives back the factor.
pub proof fn lemma_quotient_exact(d: int, k: int)
    requires
        d != 0,
    ensures
        quotient(k * d, d) == k,
{
    let x = k * d;
    if x > 0 && d > 0 {
        vstd::arithmetic::div_mod::lemma_fundamental_div_mod_converse(x, d, k, 0);
    } else if x < 0 && d < 0 {
        assert(-x == k * (-d)) by (nonlinear_arith)
            requires
                x == k * d,
        ;
        vstd::arithmetic::div_mod::lemma_fundamental_div_mod_converse(-x, -d, k, 0);
    } else if x < 0 {
        assert(d > 0) by (nonlinear_arith)
            requires
                x == k * d,
                x < 0,
                !(d < 0),
                d != 0,
        ;
        assert(-x == (-k) * d) by (nonlinear_arith)
            requires
                x == k * d,
        ;
        vstd::arithmetic::div_mod::lemma_fundamental_div_mod_converse(-x, d, -k, 0);
    } else if x > 0 {
        assert(x == (-k) * (-d)) by (nonlinear_arith)
            requires
                x == k * d,
        ;
        vstd::arithmetic::div_mod::lemma_fundamental_div_mod_converse(x, -d, -k, 0);
    } else {
        assert(k == 0) by (nonlinear_arith)
            requires
                0 == k * d,
                d != 0,
        ;
    }
}

impl Machine {
    /// Whether pressing A `a` times and B `b` times brings the claw exactly
    /// over the target.
    pub open spec fn wins(self, a: int, b: int) -> bool {
        &&& a * self.button_a.0 + b * self.button_b.0 == self.target.0
        &&& a * self.button_a.1 + b * self.button_b.1 == self.target.1
    }

    /// The determinant of the two button offsets. Where it is not zero, the
    /// buttons point in different directions.
    pub open spec fn determinant(self) -> int {
        self.button_a.0 * self.button_b.1 - self.button_a.1 * self.button_b.0
    }

    /// Where the buttons point in different directions, at most one pair of
    /// press counts wins: any way to win is the cheapest.
    pub proof fn lemma_win_is_unique(self, a: int, b: int, a2: int, b2: int)
        requires
            self.determinant() != 0,
            self.wins(a, b),
            self.wins(a2, b2),
        ensures
            a == a2,
            b == b2,
    {
        let ax = self.button_a.0 as int;
        let ay = self.button_a.1 as int;
        let bx = self.button_b.0 as int;
        let by = self.button_b.1 as int;
        let det = self.determinant();
        let da = a - a2;
        let db = b - b2;
        assert(da * ax + db * bx == 0) by (nonlinear_arith)
            requires
                a * ax + b * bx == a2 * ax + b2 * bx,
                da == a - a2,
                db == b - b2,
        ;
        assert(da * ay + db * by == 0) by (nonlinear_arith)
            requires
                a * ay + b * by == a2 * ay + b2 * by,
                da == a - a2,
                db == b - b2,
        ;
        let p = da * ax;
        let q = db * bx;
        let r = da * ay;
        let s = db * by;
        assert(p * ay == r * ax) by (nonlinear_arith)
            requires
                p == da * ax,
                r == da * ay,
        ;
        assert(q * ay == s * ax) by (nonlinear_arith)
            requires
                p * ay == r * ax,
                p == -q,
                r == -s,
        ;
        assert(db * det == s * ax - q * ay) by (nonlinear_arith)
            requires
                det == ax * by - ay * bx,
                q == db * bx,
                s == db * by,
        ;
        assert(db == 0) by (nonlinear_arith)
            requires
                db * det == 0,
                det != 0,
        ;
        assert(da * det == 0) by (nonlinear_arith)
            requires
                det == ax * by - ay * bx,
                da * ax == 0,
                da * ay == 0,
        ;
        assert(da == 0) by (nonlinear_arith)
            requires
                da * det == 0,
                det != 0,
        ;
    }

    /// The same machine with its prize `delta` further away in both
    /// directions.
    pub fn get_with_target_delta(&self, delta: i64) -> (moved: Machine)
        requires
            fits(self.target.0 + delta),
            fits(self.target.1 + delta),
        ensures
            moved.button_a == self.button_a,
            moved.button_b == self.button_b,
            moved.target.0 == self.target.0 + delta,
            moved.target.1 == self.target.1 + delta,
    {
        Machine {
            button_a: self.button_a,
            button_b: self.button_b,
            target: (self.target.0 + delta, self.target.1 + delta),
        }
    }

    /// The cost of winning the prize, where press counts that fit in an
    /// `i64` win it at a cost that fits. The counts may be negative.
    pub fn get_optimal_win_cost(&self) -> (cost: Option<i64>)
        requires
            self.determinant() != 0,
            self.button_a.0 != 0,
        ensures
            match cost {
                Some(c) => exists|a: int, b: int|
                    fits(a) && fits(b) && #[trigger] self.wins(a, b) && c == cost_of(a, b),
                None => forall|a: int, b: int|
                    fits(a) && fits(b) && #[trigger] self.wins(a, b) ==> !fits(cost_of(a, b)),
            },
    {
        let ax = self.button_a.0 as i128;
        let ay = self.button_a.1 as i128;
        let bx = self.button_b.0 as i128;
        let by = self.button_b.1 as i128;
        let tx = self.target.0 as i128;
        let ty = self.target.1 as i128;
        let ghost limit: int = 0x8000_0000_0000_0000;
        proof {
            assert(-limit * limit <= ax * by <= limit * limit && -limit * limit <= ay * bx <= limit
                * limit && -limit * limit <= ax * ty <= limit * limit && -limit * limit <= ay * tx
                <= limit * limit) by (nonlinear_arith)
                requires
                    -limit <= ax < limit,
                    -limit <= ay < limit,
                    -limit <= bx < limit,
                    -limit <= by < limit,
                    -limit <= tx < limit,
                    -limit <= ty < limit,
            ;
            assert(ay * bx == -limit * limit ==> false) by (nonlinear_arith)
                requires
                    -limit <= ay < limit,
                    -limit <= bx < limit,
                    limit > 0,
            ;
            assert(ay * tx == -limit * limit ==> false) by (nonlinear_arith)
                requires
                    -limit <= ay < limit,
                    -limit <= tx < limit,
                    limit > 0,
            ;
            assert(ax * by == -limit * limit ==> false) by (nonlinear_arith)
                requires
                    -limit <= ax < limit,
                    -limit <= by < limit,
                    limit > 0,
            ;
            assert(ax * ty == -limit * limit ==> false) by (nonlinear_arith)
                requires
                    -limit <= ax < limit,
                    -limit <= ty < limit,
                    limit > 0,
            ;
            assert(limit * limit == 0x4000_0000_0000_0000_0000_0000_0000_0000) by (nonlinear_arith)
                requires
                    limit == 0x8000_0000_0000_0000,
            ;
        }
        let a_det: i128 = ax * by - ay * bx;
        let a2_det: i128 = ax * ty - ay * tx;
        assert(a_det == self.determinant());
        let but_b_count = match a2_det.checked_div(a_det) {
            Some(count) => count,
            None => {
                assert(false);
                0
            },
        };
        assert(but_b_count == quotient(a2_det as int, a_det as int));
        proof {
            assert forall|a: int, b: int| #[trigger] self.wins(a, b) implies but_b_count == b by {
                assert(a2_det == b * a_det) by (nonlinear_arith)
                    requires
                        a * ax + b * bx == tx,
                        a * ay + b * by == ty,
                        a_det == ax * by - ay * bx,
                        a2_det == ax * ty - ay * tx,
                ;
                lemma_quotient_exact(a_det as int, b);
            }
        }
        if but_b_count < i64::MIN as i128 || but_b_count > i64::MAX as i128 {
            return None;
        }
        proof {
            assert(-limit * limit <= bx * but_b_count <= limit * limit) by (nonlinear_arith)
                requires
                    -limit <= bx < limit,
                    -limit <= but_b_count < limit,
            ;
            assert(-limit * limit <= by * but_b_count <= limit * limit) by (nonlinear_arith)
                requires
                    -limit <= by < limit,
                    -limit <= but_b_count < limit,
            ;
        }
        let rest: i128 = tx - bx * but_b_count;
        let but_a_count = match rest.checked_div(ax) {
            Some(count) => count,
            None => {
                assert(false);
                0
            },
        };
        assert(but_a_count == quotient(rest as int, ax as int));
        proof {
            assert forall|a: int, b: int| #[trigger] self.wins(a, b) implies but_a_count == a by {
                assert(but_b_count == b);
                assert(rest == a * ax) by (nonlinear_arith)
                    requires
                        a * ax + b * bx == tx,
                        rest == tx - bx * b,
                ;
                lemma_quotient_exact(ax as int, a);
            }
        }
        if but_a_count < i64::MIN as i128 || but_a_count > i64::MAX as i128 {
            return None;
        }
        proof {
            assert(-limit * limit <= ax * but_a_count <= limit * limit) by (nonlinear_arith)
                requires
                    -limit <= ax < limit,
                    -limit <= but_a_count < limit,
            ;
            assert(-limit * limit <= ay * but_a_count <= limit * limit) by (nonlinear_arith)
                requires
                    -limit <= ay < limit,
                    -limit <= but_a_count < limit,
            ;
        }
        if ax * but_a_count == rest && ay * but_a_count == ty - by * but_b_count {
            let cost_a = BUTTON_A_COST as i128;
            let cost_b = BUTTON_B_COST as i128;
            proof {
                assert(but_a_count * cost_a == but_a_count * 3 && but_b_count * cost_b
                    == but_b_count) by (nonlinear_arith)
                    requires
                        cost_a == 3,
                        cost_b == 1,
                ;
            }
            let total: i128 = but_a_count * cost_a + but_b_count * cost_b;
            assert(total == cost_of(but_a_count as int, but_b_count as int));
            proof {
                assert(self.wins(but_a_count as int, but_b_count as int)) by (nonlinear_arith)
                    requires
                        ax * but_a_count == tx - bx * but_b_count,
                        ay * but_a_count == ty - by * but_b_count,
                        ax == self.button_a.0,
                        ay == self.button_a.1,
                        bx == self.button_b.0,
                        by == self.button_b.1,
                        tx == self.target.0,
                        ty == self.target.1,
                ;
            }
            if total < i64::MIN as i128 || total > i64::MAX as i128 {
                proof {
                    assert forall|a: int, b: int|
                        fits(a) && fits(b) && #[trigger] self.wins(a, b) implies !fits(
                        cost_of(a, b),
                    ) by {
                        assert(but_a_count == a && but_b_count == b);
                    }
                }
                return None;
            }
            return Some(total as i64);
        }
        proof {
            assert forall|a: int, b: int| fits(a) && fits(b) && #[trigger] self.wins(a, b) implies !fits(
                cost_of(a, b),
            ) by {
                assert(ax * but_a_count == tx - bx * but_b_count && ay * but_a_count == ty - by
                    * but_b_count) by (nonlinear_arith)
                    requires
                        a * ax + b * bx == tx,
                        a * ay + b * by == ty,
                        but_a_count == a,
                        but_b_count == b,
                ;
            }
        }
        None
    }
}

impl Machine {
    /// Whether the cost of winning can be asked for: the buttons point in
    /// different directions, and button A moves the claw along the first
    /// axis.
    pub open spec fn well_set(self) -> bool {
        self.determinant() != 0 && self.button_a.0 != 0
    }

    /// Says whether the cost of winning can be asked for.
    pub fn is_well_set(&self) -> (ok: bool)
        ensures
            ok == self.well_set(),
    {
        let ax = self.button_a.0 as i128;
        let ay = self.button_a.1 as i128;
        let bx = self.button_b.0 as i128;
        let by = self.button_b.1 as i128;
        let ghost limit: int = 0x8000_0000_0000_0000;
        proof {
            assert(-limit * limit <= ax * by <= limit * limit && -limit * limit <= ay * bx <= limit
                * limit) by (nonlinear_arith)
                requires
                    -limit <= ax < limit,
                    -limit <= ay < limit,
                    -limit <= bx < limit,
                    -limit <= by < limit,
            ;
            assert(ay * bx == -limit * limit ==> false) by (nonlinear_arith)
                requires
                    -limit <= ay < limit,
                    -limit <= bx < limit,
                    limit > 0,
            ;
            assert(ax * by == -limit * limit ==> false) by (nonlinear_arith)
                requires
                    -limit <= ax < limit,
                    -limit <= by < limit,
                    limit > 0,
            ;
            assert(limit * limit == 0x4000_0000_0000_0000_0000_0000_0000_0000) by (nonlinear_arith)
                requires
                    limit == 0x8000_0000_0000_0000,
            ;
        }
        ax * by - ay * bx != 0 && ax != 0
    }
}

/// The sum of the costs of winning the first `n` machines, as far as they
/// can be won, with the prize of each moved by `delta`. `costs` holds for
/// each machine the cost of winning it, if it can be won.
pub open spec fn total_of(costs: Seq<Option<i64>>, n: int) -> int
    decreases n,
{
    if n <= 0 {
        0
    } else {
        total_of(costs, n - 1) + match costs[n - 1] {
            Some(c) => c as int,
            None => 0,
        }
    }
}

/// The sum of the costs `costs`, where a machine that cannot be won costs
/// nothing.
pub fn total_cost(costs: &Vec<Option<i64>>) -> (sum: i128)
    ensures
        sum == total_of(costs@, costs@.len() as int),
{
    let mut sum: i128 = 0;
    let mut i: usize = 0;
    while i < costs.len()
        invariant
            i <= costs.len(),
            sum == total_of(costs@, i as int),
            -0x8000_0000_0000_0000 * i <= sum <= 0x8000_0000_0000_0000 * i,
        decreases costs.len() - i,
    {
        match costs[i] {
            Some(cost) => {
                sum = sum + cost as i128;
            },
            None => {},
        }
        i += 1;
    }
    sum
}

/// The costs of winning the machines `machines`, each with its prize moved
/// by `delta`: for each machine what [`Machine::get_optimal_win_cost`]
/// gives.
pub fn win_costs(machines: &Vec<Machine>, delta: i64) -> (costs: Vec<Option<i64>>)
    requires
        forall|i: int|
            0 <= i < machines@.len() ==> (#[trigger] machines@[i]).well_set() && fits(
                machines@[i].target.0 + delta,
            ) && fits(machines@[i].target.1 + delta),
    ensures
        costs@.len() == machines@.len(),
        forall|i: int|
            0 <= i < machines@.len() ==> match #[trigger] costs@[i] {
                Some(c) => exists|a: int, b: int|
                    fits(a) && fits(b) && #[trigger] moved(machines@[i], delta).wins(a, b) && c
                        == cost_of(a, b),
                None => forall|a: int, b: int|
                    fits(a) && fits(b) && #[trigger] moved(machines@[i], delta).wins(a, b)
                        ==> !fits(cost_of(a, b)),
            },
{
    let mut costs: Vec<Option<i64>> = Vec::new();
    let mut i: usize = 0;
    while i < machines.len()
        invariant
            i <= machines.len(),
            costs@.len() == i,
            forall|k: int|
                0 <= k < machines@.len() ==> (#[trigger] machines@[k]).well_set() && fits(
                    machines@[k].target.0 + delta,
                ) && fits(machines@[k].target.1 + delta),
            forall|k: int|
                0 <= k < i ==> match #[trigger] costs@[k] {
                    Some(c) => exists|a: int, b: int|
                        fits(a) && fits(b) && #[trigger] moved(machines@[k], delta).wins(a, b) && c
                            == cost_of(a, b),
                    None => forall|a: int, b: int|
                        fits(a) && fits(b) && #[trigger] moved(machines@[k], delta).wins(a, b)
                            ==> !fits(cost_of(a, b)),
                },
        decreases machines.len() - i,
    {
        assert(machines@[i as int].well_set());
        let machine = machines[i].get_with_target_delta(delta);
        assert(machine == moved(machines@[i as int], delta));
        let cost = machine.get_optimal_win_cost();
        costs.push(cost);
        i += 1;
    }
    costs
}

/// The machine `machine` with its prize `delta` further away in both
/// directions.
pub open spec fn moved(machine: Machine, delta: i64) -> Machine {
    Machine {
        button_a: machine.button_a,
        button_b: machine.button_b,
        target: ((machine.target.0 + delta) as i64, (machine.target.1 + delta) as i64),
    }
}

/// The two numbers of the line `line`: after the first `first` before the
/// first comma, and after the first `second` behind that comma.
pub open spec fn two_numbers_of(line: Seq<char>, first: Seq<char>, second: Seq<char>) -> Option<
    (i64, i64),
> {
    match cut_once(line, seq![',']) {
        None => None,
        Some((left, right)) => match (cut_once(left, first), cut_once(right, second)) {
            (Some((_, x)), Some((_, y))) => match (
                signed_of(x, i64::MIN as int, i64::MAX as int),
                signed_of(y, i64::MIN as int, i64::MAX as int),
            ) {
                (Some(a), Some(b)) => Some((a as i64, b as i64)),
                _ => None,
            },
            _ => None,
        },
    }
}

/// Reads the two numbers of a line.
fn two_numbers(line: &Vec<char>, first: &Vec<char>, second: &Vec<char>) -> (r: Option<(i64, i64)>)
    ensures
        r == two_numbers_of(line@, first@, second@),
{
    let mut comma: Vec<char> = Vec::new();
    comma.push(',');
    assert(comma@ =~= seq![',']);
    let (left, right) = match split_once(line, &comma) {
        Some(both) => both,
        None => {
            return None;
        },
    };
    let x = match split_once(&left, first) {
        Some((_, x)) => x,
        None => {
            return None;
        },
    };
    let y = match split_once(&right, second) {
        Some((_, y)) => y,
        None => {
            return None;
        },
    };
    let a = match parse_signed(&x, i64::MIN, i64::MAX) {
        Some(a) => a,
        None => {
            return None;
        },
    };
    let b = match parse_signed(&y, i64::MIN, i64::MAX) {
        Some(b) => b,
        None => {
            return None;
        },
    };
    Some((a, b))
}

/// The machine that is being read, and the machines that have been read.
pub type Reading = (Machine, Seq<Machine>);

/// The machine of which nothing has been read yet.
pub open spec fn blank() -> Machine {
    Machine { button_a: (0, 0), button_b: (0, 0), target: (0, 0) }
}

/// What the line `line` makes of the reading: a line of button A or button
/// B sets the button, a line of the prize sets the target and finishes the
/// machine, any other line changes nothing. `None` where a line of a button
/// or of the prize does not hold its two numbers.
pub open spec fn after_line(line: Seq<char>, reading: Reading) -> Option<Reading> {
    let plus = seq!['+'];
    if begins_with(line, seq!['B', 'u', 't', 't', 'o', 'n', ' ', 'A']) {
        match two_numbers_of(line, plus, plus) {
            None => None,
            Some(pair) => Some(
                (
                    Machine {
                        button_a: pair,
                        button_b: reading.0.button_b,
                        target: reading.0.target,
                    },
                    reading.1,
                ),
            ),
        }
    } else if begins_with(line, seq!['B', 'u', 't', 't', 'o', 'n', ' ', 'B']) {
        match two_numbers_of(line, plus, plus) {
            None => None,
            Some(pair) => Some(
                (
                    Machine {
                        button_a: reading.0.button_a,
                        button_b: pair,
                        target: reading.0.target,
                    },
                    reading.1,
                ),
            ),
        }
    } else if begins_with(line, seq!['P', 'r', 'i', 'z', 'e']) {
        match two_numbers_of(line, seq!['X', '='], seq!['Y', '=']) {
            None => None,
            Some(pair) => Some(
                (
                    blank(),
                    reading.1.push(
                        Machine {
                            button_a: reading.0.button_a,
                            button_b: reading.0.button_b,
                            target: pair,
                        },
                    ),
                ),
            ),
        }
    } else {
        Some(reading)
    }
}

/// The reading after the lines `lines`.
pub open spec fn after_lines(lines: Seq<Seq<char>>) -> Option<Reading>
    decreases lines.len(),
{
    if lines.len() == 0 {
        Some((blank(), Seq::empty()))
    } else {
        match after_lines(lines.drop_last()) {
            None => None,
            Some(reading) => after_line(lines.last(), reading),
        }
    }
}

/// Once a line could not be read, further lines do not mend it.
proof fn lemma_failure_stays(lines: Seq<Seq<char>>, n: int)
    requires
        0 <= n <= lines.len(),
        after_lines(lines.take(n)) is None,
    ensures
        after_lines(lines) is None,
    decreases lines.len(),
{
    if n == lines.len() {
        assert(lines.take(n) =~= lines);
    } else {
        assert(lines.drop_last().take(n) =~= lines.take(n));
        lemma_failure_stays(lines.drop_last(), n);
    }
}

/// Reads the machines: for each the line of button A, the line of button B
/// and the line of the prize. `None` where such a line does not hold its
/// two numbers.
pub fn parse_machines(input: &str) -> (machines: Option<Vec<Machine>>)
    ensures
        match machines {
            Some(list) => after_lines(lines_of(input@)) matches Some(reading) && reading.1
                == list@,
            None => after_lines(lines_of(input@)) is None,
        },
{
    let text = chars_of(input);
    let all = lines(&text);
    let button_a = chars_of("Button A");
    let button_b = chars_of("Button B");
    let prize = chars_of("Prize");
    let plus = chars_of("+");
    let x_is = chars_of("X=");
    let y_is = chars_of("Y=");
    proof {
        reveal_strlit("Button A");
        reveal_strlit("Button B");
        reveal_strlit("Prize");
        reveal_strlit("+");
        reveal_strlit("X=");
        reveal_strlit("Y=");
        assert(button_a@ =~= seq!['B', 'u', 't', 't', 'o', 'n', ' ', 'A']);
        assert(button_b@ =~= seq!['B', 'u', 't', 't', 'o', 'n', ' ', 'B']);
        assert(prize@ =~= seq!['P', 'r', 'i', 'z', 'e']);
        assert(plus@ =~= seq!['+']);
        assert(x_is@ =~= seq!['X', '=']);
        assert(y_is@ =~= seq!['Y', '=']);
    }
    let mut machines: Vec<Machine> = Vec::new();
    let mut machine = Machine { button_a: (0, 0), button_b: (0, 0), target: (0, 0) };
    let mut i: usize = 0;
    assert(rows(all@).take(0) =~= Seq::<Seq<char>>::empty());
    while i < all.len()
        invariant
            i <= all.len(),
            rows(all@) == lines_of(input@),
            button_a@ == seq!['B', 'u', 't', 't', 'o', 'n', ' ', 'A'],
            button_b@ == seq!['B', 'u', 't', 't', 'o', 'n', ' ', 'B'],
            prize@ == seq!['P', 'r', 'i', 'z', 'e'],
            plus@ == seq!['+'],
            x_is@ == seq!['X', '='],
            y_is@ == seq!['Y', '='],
            after_lines(rows(all@).take(i as int)) == Some((machine, machines@)),
        decreases all.len() - i,
    {
        let line = &all[i];
        proof {
            assert(rows(all@).take(i + 1).drop_last() =~= rows(all@).take(i as int));
            assert(rows(all@).take(i + 1).last() == line@);
        }
        if starts_with(line, &button_a) {
            match two_numbers(line, &plus, &plus) {
                Some(pair) => {
                    machine.button_a = pair;
                },
                None => {
                    proof {
                        lemma_failure_stays(rows(all@), i + 1);
                    }
                    return None;
                },
            }
        } else if starts_with(line, &button_b) {
            match two_numbers(line, &plus, &plus) {
                Some(pair) => {
                    machine.button_b = pair;
                },
                None => {
                    proof {
                        lemma_failure_stays(rows(all@), i + 1);
                    }
                    return None;
                },
            }
        } else if starts_with(line, &prize) {
            match two_numbers(line, &x_is, &y_is) {
                Some(pair) => {
                    machine.target = pair;
                    machines.push(machine);
                    machine = Machine { button_a: (0, 0), button_b: (0, 0), target: (0, 0) };
                },
                None => {
                    proof {
                        lemma_failure_stays(rows(all@), i + 1);
                    }
                    return None;
                },
            }
        }
        i += 1;
    }
    assert(rows(all@).take(i as int) =~= rows(all@));
    Some(machines)
}

} // verus!
