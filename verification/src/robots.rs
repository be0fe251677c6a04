//! Robots that patrol a floor of tiles, each with its own velocity.
//!
//! A position is `(column, row)`. A robot that leaves the floor on one side
//! comes back in on the other.

use crate::text::{chars_of, cut_once, lines, lines_of, parse_signed, rows, signed_of, split_once};
use vstd::prelude::*;

verus! {

/// A robot: where it is and how far it goes each second, both as
/// `(column, row)`.
#[derive(Clone, Copy, Debug, PartialEq, Eq)]
pub struct Robot {
    pub pos: (i32, i32),
    pub velocity: (i32, i32),
}

/// The floor and the robots on it.
pub struct RobotMap {
    pub robots: Vec<Robot>,
    pub cols: i32,
    pub rows: i32,
}

/// Whether `x` fits in an `i32`.
pub open spec fn fits(x: int) -> bool {
    i32::MIN <= x <= i32::MAX
}

/// `x` brought back onto a line of `size` tiles, where it has left the line
/// by less than `size`.
pub open spec fn wrapped(x: int, size: int) -> int {
    if x < 0 {
        size + x
    } else if x >= size {
        x - size
    } else {
        x
    }
}

/// Half of `x`, rounded towards zero.
pub open spec fn half(x: int) -> int {
    if x >= 0 {
        x / 2
    } else {
        -((-x) / 2)
    }
}

/// The position of a robot one second after it was at `pos`.
pub open spec fn next_pos(pos: (i32, i32), velocity: (i32, i32), cols: int, rows: int) -> (
    int,
    int,
) {
    (wrapped(pos.0 + velocity.0, cols), wrapped(pos.1 + velocity.1, rows))
}

/// Whether a robot at `pos` can be moved by `velocity` within the `i32`
/// range.
pub open spec fn can_step(pos: (i32, i32), velocity: (i32, i32), cols: int, rows: int) -> bool {
    &&& fits(pos.0 + velocity.0)
    &&& fits(pos.1 + velocity.1)
    &&& fits(next_pos(pos, velocity, cols, rows).0)
    &&& fits(next_pos(pos, velocity, cols, rows).1)
}

/// The robot `seconds` seconds later, as far as its positions stay within
/// the `i32` range.
pub open spec fn robot_after(robot: Robot, cols: int, rows: int, seconds: nat) -> Robot
    decreases seconds,
{
    if seconds == 0 {
        robot
    } else {
        let before = robot_after(robot, cols, rows, (seconds - 1) as nat);
        let next = next_pos(before.pos, before.velocity, cols, rows);
        Robot { pos: (next.0 as i32, next.1 as i32), velocity: before.velocity }
    }
}

/// Whether the robot can be moved for `seconds` seconds within the `i32`
/// range.
pub open spec fn can_run(robot: Robot, cols: int, rows: int, seconds: nat) -> bool {
    forall|k: nat|
        k < seconds ==> can_step(
            (#[trigger] robot_after(robot, cols, rows, k)).pos,
            robot.velocity,
            cols,
            rows,
        )
}

/// The number of the first `n` robots that stand in the quadrant `q` of a
/// floor whose middle column is `col_mid` and whose middle row is `row_mid`.
/// The quadrants are numbered from 1 to 4: upper left, upper right, lower
/// left, lower right.
pub open spec fn count_in(robots: Seq<Robot>, n: int, q: int, col_mid: int, row_mid: int) -> nat
    decreases n,
{
    if n <= 0 {
        0
    } else {
        count_in(robots, n - 1, q, col_mid, row_mid) + if in_quadrant(
            robots[n - 1].pos,
            q,
            col_mid,
            row_mid,
        ) {
            1nat
        } else {
            0nat
        }
    }
}

/// Whether `pos` lies in the quadrant `q`. The middle column and the middle
/// row belong to no quadrant.
pub open spec fn in_quadrant(pos: (i32, i32), q: int, col_mid: int, row_mid: int) -> bool {
    if q == 1 {
        pos.0 < col_mid && pos.1 < row_mid
    } else if q == 2 {
        pos.0 > col_mid && pos.1 < row_mid
    } else if q == 3 {
        pos.0 < col_mid && pos.1 > row_mid
    } else {
        pos.0 > col_mid && pos.1 > row_mid
    }
}

/// The velocity of a robot never changes.
pub proof fn lemma_velocity_stays(robot: Robot, cols: int, rows: int, seconds: nat)
    ensures
        robot_after(robot, cols, rows, seconds).velocity == robot.velocity,
    decreases seconds,
{
    if seconds > 0 {
        lemma_velocity_stays(robot, cols, rows, (seconds - 1) as nat);
    }
}

/// A robot on the floor whose velocity is no larger than the floor stays on
/// the floor, and can be moved for ever, where the floor is no larger than
/// half the `i32` range.
pub proof fn lemma_stays_on_floor(robot: Robot, cols: int, rows: int, seconds: nat)
    requires
        0 <= robot.pos.0 < cols <= 0x4000_0000,
        0 <= robot.pos.1 < rows <= 0x4000_0000,
        -cols <= robot.velocity.0 <= cols,
        -rows <= robot.velocity.1 <= rows,
    ensures
        0 <= robot_after(robot, cols, rows, seconds).pos.0 < cols,
        0 <= robot_after(robot, cols, rows, seconds).pos.1 < rows,
        can_run(robot, cols, rows, seconds),
    decreases seconds,
{
    if seconds > 0 {
        lemma_stays_on_floor(robot, cols, rows, (seconds - 1) as nat);
        lemma_velocity_stays(robot, cols, rows, (seconds - 1) as nat);
        assert forall|k: nat| k < seconds implies can_step(
            (#[trigger] robot_after(robot, cols, rows, k)).pos,
            robot.velocity,
            cols,
            rows,
        ) by {
            lemma_stays_on_floor(robot, cols, rows, k);
            lemma_velocity_stays(robot, cols, rows, k);
        }
    }
}

impl RobotMap {
    /// The safety factor as specifications see it: the product of the
    /// numbers of robots in the four quadrants.
    pub open spec fn safety(&self) -> nat {
        let n = self.robots@.len() as int;
        let c = half(self.cols as int);
        let r = half(self.rows as int);
        count_in(self.robots@, n, 1, c, r) * count_in(self.robots@, n, 2, c, r) * count_in(
            self.robots@,
            n,
            3,
            c,
            r,
        ) * count_in(self.robots@, n, 4, c, r)
    }

    /// Whether `pos` lies outside the floor.
    pub fn pos_is_out_of_bounds(&self, pos: (i32, i32)) -> (out: bool)
        ensures
            out == !(0 <= pos.0 < self.cols && 0 <= pos.1 < self.rows),
    {
        if pos.0 < 0 || pos.0 >= self.cols || pos.1 < 0 || pos.1 >= self.rows {
            return true;
        }
        false
    }

    /// The robot one second later.
    pub fn move_robot(&self, robot: Robot) -> (moved: Robot)
        requires
            can_step(robot.pos, robot.velocity, self.cols as int, self.rows as int),
        ensures
            moved.velocity == robot.velocity,
            (moved.pos.0 as int, moved.pos.1 as int) == next_pos(
                robot.pos,
                robot.velocity,
                self.cols as int,
                self.rows as int,
            ),
            moved == robot_after(robot, self.cols as int, self.rows as int, 1),
    {
        let mut robot = robot;
        let new_pos = (robot.pos.0 + robot.velocity.0, robot.pos.1 + robot.velocity.1);
        if self.pos_is_out_of_bounds(new_pos) {
            let mut col = new_pos.0;
            let mut row = new_pos.1;
            if col < 0 {
                col = self.cols + col;
            } else if col >= self.cols {
                col = col - self.cols;
            }
            if row < 0 {
                row = self.rows + row;
            } else if row >= self.rows {
                row = row - self.rows;
            }
            robot.pos = (col, row);
        } else {
            robot.pos = new_pos;
        }
        assert(robot_after(robot, self.cols as int, self.rows as int, 0) == robot);
        proof {
            reveal_with_fuel(robot_after, 2);
        }
        robot
    }

    /// Moves every robot by one second.
    pub fn tick(&mut self)
        requires
            forall|i: int|
                0 <= i < old(self).robots@.len() ==> can_step(
                    (#[trigger] old(self).robots@[i]).pos,
                    old(self).robots@[i].velocity,
                    old(self).cols as int,
                    old(self).rows as int,
                ),
        ensures
            final(self).cols == old(self).cols,
            final(self).rows == old(self).rows,
            final(self).robots@.len() == old(self).robots@.len(),
            forall|i: int|
                0 <= i < old(self).robots@.len() ==> #[trigger] final(self).robots@[i]
                    == robot_after(old(self).robots@[i], old(self).cols as int, old(self).rows as int, 1),
    {
        let mut idx: usize = 0;
        while idx < self.robots.len()
            invariant
                idx <= self.robots.len(),
                self.cols == old(self).cols,
                self.rows == old(self).rows,
                self.robots@.len() == old(self).robots@.len(),
                forall|i: int|
                    0 <= i < idx ==> #[trigger] self.robots@[i] == robot_after(
                        old(self).robots@[i],
                        old(self).cols as int,
                        old(self).rows as int,
                        1,
                    ),
                forall|i: int|
                    idx <= i < self.robots@.len() ==> #[trigger] self.robots@[i] == old(
                        self,
                    ).robots@[i],
                forall|i: int|
                    0 <= i < old(self).robots@.len() ==> can_step(
                        (#[trigger] old(self).robots@[i]).pos,
                        old(self).robots@[i].velocity,
                        old(self).cols as int,
                        old(self).rows as int,
                    ),
            decreases self.robots.len() - idx,
        {
            let robot = self.robots[idx];
            assert(robot == old(self).robots@[idx as int]);
            let moved = self.move_robot(robot);
            self.robots.set(idx, moved);
            idx += 1;
        }
    }

    /// The safety factor, or `None` where it does not fit in a `usize`.
    pub fn checked_safety_factor(&self) -> (factor: Option<usize>)
        ensures
            match factor {
                Some(f) => f == self.safety(),
                None => self.safety() > usize::MAX,
            },
    {
        let row_mid = self.rows / 2;
        let col_mid = self.cols / 2;
        let ghost c = half(self.cols as int);
        let ghost r = half(self.rows as int);
        let mut q1: usize = 0;
        let mut q2: usize = 0;
        let mut q3: usize = 0;
        let mut q4: usize = 0;
        let mut i: usize = 0;
        while i < self.robots.len()
            invariant
                i <= self.robots.len(),
                col_mid == c,
                row_mid == r,
                q1 == count_in(self.robots@, i as int, 1, c, r),
                q2 == count_in(self.robots@, i as int, 2, c, r),
                q3 == count_in(self.robots@, i as int, 3, c, r),
                q4 == count_in(self.robots@, i as int, 4, c, r),
                q1 <= i,
                q2 <= i,
                q3 <= i,
                q4 <= i,
            decreases self.robots.len() - i,
        {
            let pos = self.robots[i].pos;
            if pos.0 < col_mid && pos.1 < row_mid {
                q1 += 1;
            }
            if pos.0 > col_mid && pos.1 < row_mid {
                q2 += 1;
            }
            if pos.0 < col_mid && pos.1 > row_mid {
                q3 += 1;
            }
            if pos.0 > col_mid && pos.1 > row_mid {
                q4 += 1;
            }
            i += 1;
        }
        let first = match q1.checked_mul(q2) {
            Some(first) => first,
            None => {
                proof {
                    lemma_product_grows(q1 as int * q2 as int, q3 as int, q4 as int);
                }
                return if q3 == 0 || q4 == 0 {
                    Some(0)
                } else {
                    None
                };
            },
        };
        let second = match first.checked_mul(q3) {
            Some(second) => second,
            None => {
                proof {
                    lemma_product_grows(first as int * q3 as int, q4 as int, 1);
                }
                return if q4 == 0 {
                    Some(0)
                } else {
                    None
                };
            },
        };
        second.checked_mul(q4)
    }

    /// The safety factor: the product of the numbers of robots in the four
    /// quadrants of the floor.
    pub fn get_safety_factor(&self) -> (factor: usize)
        requires
            self.safety() <= usize::MAX,
        ensures
            factor == self.safety(),
    {
        match self.checked_safety_factor() {
            Some(factor) => factor,
            None => 0,
        }
    }

    /// Moves every robot by `seconds` seconds, and gives the safety factor
    /// of the floor afterwards.
    pub fn move_x(self, seconds: u32) -> (factor: Option<usize>)
        requires
            forall|i: int|
                0 <= i < self.robots@.len() ==> can_run(
                    #[trigger] self.robots@[i],
                    self.cols as int,
                    self.rows as int,
                    seconds as nat,
                ),
        ensures
            exists|after: RobotMap| #[trigger]
                is_after(self, after, seconds as nat) && match factor {
                    Some(f) => f == after.safety(),
                    None => after.safety() > usize::MAX,
                },
    {
        let mut map = self;
        let mut s: u32 = 0;
        while s < seconds
            invariant
                s <= seconds,
                is_after(self, map, s as nat),
                forall|i: int|
                    0 <= i < self.robots@.len() ==> can_run(
                        #[trigger] self.robots@[i],
                        self.cols as int,
                        self.rows as int,
                        seconds as nat,
                    ),
            decreases seconds - s,
        {
            proof {
                assert forall|i: int| 0 <= i < map.robots@.len() implies can_step(
                    (#[trigger] map.robots@[i]).pos,
                    map.robots@[i].velocity,
                    map.cols as int,
                    map.rows as int,
                ) by {
                    lemma_velocity_stays(self.robots@[i], self.cols as int, self.rows as int, s as nat);
                    assert(can_run(self.robots@[i], self.cols as int, self.rows as int, seconds as nat));
                }
            }
            let ghost before = map.robots@;
            map.tick();
            proof {
                assert forall|i: int| 0 <= i < map.robots@.len() implies #[trigger] map.robots@[i]
                    == robot_after(self.robots@[i], self.cols as int, self.rows as int, (s + 1) as nat) by {
                    assert(map.robots@[i] == robot_after(before[i], self.cols as int, self.rows as int, 1));
                    reveal_with_fuel(robot_after, 2);
                }
            }
            s += 1;
        }
        map.checked_safety_factor()
    }
}

/// Whether `after` is the floor `before` with every robot moved by
/// `seconds` seconds.
pub open spec fn is_after(before: RobotMap, after: RobotMap, seconds: nat) -> bool {
    &&& after.cols == before.cols
    &&& after.rows == before.rows
    &&& after.robots@.len() == before.robots@.len()
    &&& forall|i: int|
        0 <= i < before.robots@.len() ==> #[trigger] after.robots@[i] == robot_after(
            before.robots@[i],
            before.cols as int,
            before.rows as int,
            seconds,
        )
}

/// A product of counts is at least each partial product, unless a factor is
/// zero.
proof fn lemma_product_grows(p: int, a: int, b: int)
    requires
        0 <= p,
        0 <= a,
        0 <= b,
    ensures
        a >= 1 && b >= 1 ==> p * a * b >= p,
        a == 0 || b == 0 ==> p * a * b == 0,
{
    assert(a >= 1 && b >= 1 ==> p * a * b >= p) by (nonlinear_arith)
        requires
            0 <= p,
            0 <= a,
            0 <= b,
    ;
    assert(a == 0 || b == 0 ==> p * a * b == 0) by (nonlinear_arith);
}

/// The number of columns of the floor that a description is read for.
pub const COLS: i32 = 11;

/// The number of rows of the floor that a description is read for.
pub const ROWS: i32 = 7;

/// The pair of numbers that stands in `part` behind the first `=`, with a
/// comma between the two.
pub open spec fn pair_of(part: Seq<char>) -> Option<(i32, i32)> {
    match cut_once(part, seq!['=']) {
        None => None,
        Some((_, both)) => match cut_once(both, seq![',']) {
            None => None,
            Some((first, second)) => match (
                signed_of(first, i32::MIN as int, i32::MAX as int),
                signed_of(second, i32::MIN as int, i32::MAX as int),
            ) {
                (Some(a), Some(b)) => Some((a as i32, b as i32)),
                _ => None,
            },
        },
    }
}

/// The robot that the line `line` describes: its position before the first
/// space, its velocity behind it.
pub open spec fn robot_of(line: Seq<char>) -> Option<Robot> {
    match cut_once(line, seq![' ']) {
        None => None,
        Some((left, right)) => match (pair_of(left), pair_of(right)) {
            (Some(pos), Some(velocity)) => Some(Robot { pos, velocity }),
            _ => None,
        },
    }
}

/// Reads a pair of numbers.
fn read_pair(part: &Vec<char>) -> (pair: Option<(i32, i32)>)
    ensures
        pair == pair_of(part@),
{
    let mut equals: Vec<char> = Vec::new();
    equals.push('=');
    let mut comma: Vec<char> = Vec::new();
    comma.push(',');
    assert(equals@ =~= seq!['='] && comma@ =~= seq![',']);
    let both = match split_once(part, &equals) {
        Some((_, both)) => both,
        None => {
            return None;
        },
    };
    let (first, second) = match split_once(&both, &comma) {
        Some(pair) => pair,
        None => {
            return None;
        },
    };
    let a = match parse_signed(&first, i32::MIN as i64, i32::MAX as i64) {
        Some(a) => a,
        None => {
            return None;
        },
    };
    let b = match parse_signed(&second, i32::MIN as i64, i32::MAX as i64) {
        Some(b) => b,
        None => {
            return None;
        },
    };
    Some((a as i32, b as i32))
}

/// Reads a robot from a line.
fn read_robot(line: &Vec<char>) -> (robot: Option<Robot>)
    ensures
        robot == robot_of(line@),
{
    let mut space: Vec<char> = Vec::new();
    space.push(' ');
    assert(space@ =~= seq![' ']);
    let (left, right) = match split_once(line, &space) {
        Some(both) => both,
        None => {
            return None;
        },
    };
    let pos = match read_pair(&left) {
        Some(pos) => pos,
        None => {
            return None;
        },
    };
    let velocity = match read_pair(&right) {
        Some(velocity) => velocity,
        None => {
            return None;
        },
    };
    Some(Robot { pos, velocity })
}

/// The character that draws the tile at `(col, row)`: `#` where one of the
/// first `n` robots stands, else `.`.
pub open spec fn drawn(robots: Seq<Robot>, col: int, row: int) -> char {
    if exists|i: int| 0 <= i < robots.len() && (#[trigger] robots[i]).pos == (col as i32, row as i32) {
        '#'
    } else {
        '.'
    }
}

impl RobotMap {
    /// Reads the robots, one in each line, onto a floor of eleven columns
    /// and seven rows. `None` where a line does not describe a robot.
    pub fn from_str(s: &str) -> (map: Option<RobotMap>)
        ensures
            match map {
                Some(m) => m.cols == COLS && m.rows == ROWS && m.robots@.len() == lines_of(
                    s@,
                ).len() && forall|i: int|
                    0 <= i < m.robots@.len() ==> robot_of(lines_of(s@)[i]) == Some(
                        #[trigger] m.robots@[i],
                    ),
                None => exists|i: int|
                    0 <= i < lines_of(s@).len() && robot_of(#[trigger] lines_of(s@)[i]) is None,
            },
    {
        let text = chars_of(s);
        let all = lines(&text);
        let mut robots: Vec<Robot> = Vec::new();
        let mut i: usize = 0;
        while i < all.len()
            invariant
                i <= all.len(),
                rows(all@) == lines_of(s@),
                robots@.len() == i,
                forall|k: int| 0 <= k < i ==> robot_of(rows(all@)[k]) == Some(#[trigger] robots@[k]),
            decreases all.len() - i,
        {
            assert(rows(all@)[i as int] == all@[i as int]@);
            match read_robot(&all[i]) {
                Some(robot) => {
                    robots.push(robot);
                },
                None => {
                    return None;
                },
            }
            i += 1;
        }
        Some(RobotMap { robots, cols: COLS, rows: ROWS })
    }

    /// Draws the floor: a line for each row, in it `#` for each tile on
    /// which a robot stands and `.` for each other.
    pub fn display_grid(&self) -> (picture: Vec<Vec<char>>)
        ensures
            picture@.len() == if self.rows >= 0 {
                self.rows as int
            } else {
                0
            },
            forall|r: int|
                0 <= r < picture@.len() ==> (#[trigger] picture@[r])@.len() == if self.cols >= 0 {
                    self.cols as int
                } else {
                    0
                },
            forall|r: int, c: int|
                0 <= r < picture@.len() && 0 <= c < picture@[r]@.len()
                    ==> #[trigger] picture@[r]@[c] == drawn(self.robots@, c, r),
    {
        let mut picture: Vec<Vec<char>> = Vec::new();
        let mut row: i32 = 0;
        while row < self.rows
            invariant
                0 <= row,
                row <= self.rows || (self.rows < 0 && row == 0),
                picture@.len() == row,
                forall|r: int|
                    0 <= r < picture@.len() ==> (#[trigger] picture@[r])@.len() == if self.cols
                        >= 0 {
                        self.cols as int
                    } else {
                        0
                    },
                forall|r: int, c: int|
                    0 <= r < picture@.len() && 0 <= c < picture@[r]@.len()
                        ==> #[trigger] picture@[r]@[c] == drawn(self.robots@, c, r),
            decreases self.rows - row,
        {
            let mut line: Vec<char> = Vec::new();
            let mut col: i32 = 0;
            while col < self.cols
                invariant
                    0 <= col,
                    0 <= row < self.rows,
                    col <= self.cols || (self.cols < 0 && col == 0),
                    line@.len() == col,
                    forall|c: int|
                        0 <= c < line@.len() ==> #[trigger] line@[c] == drawn(
                            self.robots@,
                            c,
                            row as int,
                        ),
                decreases self.cols - col,
            {
                let mut found = false;
                let mut i: usize = 0;
                while i < self.robots.len() && !found
                    invariant
                        i <= self.robots.len(),
                        found ==> drawn(self.robots@, col as int, row as int) == '#',
                        !found ==> forall|k: int|
                            0 <= k < i ==> (#[trigger] self.robots@[k]).pos != (col, row),
                    decreases self.robots.len() - i + if found { 0int } else { 1int },
                {
                    let pos = self.robots[i].pos;
                    if pos.0 == col && pos.1 == row {
                        found = true;
                    }
                    i += 1;
                }
                line.push(
                    if found {
                        '#'
                    } else {
                        '.'
                    },
                );
                col += 1;
            }
            let ghost before = picture@;
            picture.push(line);
            proof {
                assert forall|r: int, c: int|
                    0 <= r < picture@.len() && 0 <= c < picture@[r]@.len()
                        implies #[trigger] picture@[r]@[c] == drawn(self.robots@, c, r) by {
                    if r < before.len() {
                        assert(picture@[r] == before[r]);
                    }
                }
                assert forall|r: int| 0 <= r < picture@.len() implies (
                #[trigger] picture@[r])@.len() == if self.cols >= 0 {
                    self.cols as int
                } else {
                    0
                } by {
                    if r < before.len() {
                        assert(picture@[r] == before[r]);
                    }
                }
            }
            row += 1;
        }
        picture
    }
}

impl RobotMap {
    /// Whether every robot stands on the floor and goes no further in a
    /// second than the floor is large, on a floor of at most 2^30 tiles in
    /// each direction. Such robots come back in on the other side for ever.
    pub open spec fn tame(&self) -> bool {
        &&& 0 <= self.cols <= 0x4000_0000
        &&& 0 <= self.rows <= 0x4000_0000
        &&& forall|i: int|
            0 <= i < self.robots@.len() ==> {
                let robot = #[trigger] self.robots@[i];
                &&& 0 <= robot.pos.0 < self.cols
                &&& 0 <= robot.pos.1 < self.rows
                &&& -self.cols <= robot.velocity.0 <= self.cols
                &&& -self.rows <= robot.velocity.1 <= self.rows
            }
    }

    /// Says whether the robots are tame. Tame robots can be moved for any
    /// number of seconds.
    pub fn is_tame(&self) -> (ok: bool)
        ensures
            ok == self.tame(),
            ok ==> forall|i: int, seconds: nat|
                0 <= i < self.robots@.len() ==> #[trigger] can_run(
                    self.robots@[i],
                    self.cols as int,
                    self.rows as int,
                    seconds,
                ),
    {
        if self.cols < 0 || self.cols > 0x4000_0000 || self.rows < 0 || self.rows > 0x4000_0000 {
            return false;
        }
        let mut i: usize = 0;
        while i < self.robots.len()
            invariant
                i <= self.robots.len(),
                0 <= self.cols <= 0x4000_0000,
                0 <= self.rows <= 0x4000_0000,
                forall|k: int|
                    0 <= k < i ==> {
                        let robot = #[trigger] self.robots@[k];
                        &&& 0 <= robot.pos.0 < self.cols
                        &&& 0 <= robot.pos.1 < self.rows
                        &&& -self.cols <= robot.velocity.0 <= self.cols
                        &&& -self.rows <= robot.velocity.1 <= self.rows
                    },
            decreases self.robots.len() - i,
        {
            let robot = self.robots[i];
            if self.pos_is_out_of_bounds(robot.pos) || robot.velocity.0 < -self.cols
                || robot.velocity.0 > self.cols || robot.velocity.1 < -self.rows
                || robot.velocity.1 > self.rows {
                return false;
            }
            i += 1;
        }
        proof {
            assert forall|k: int, seconds: nat| 0 <= k < self.robots@.len() implies #[trigger] can_run(
                self.robots@[k],
                self.cols as int,
                self.rows as int,
                seconds,
            ) by {
                lemma_stays_on_floor(self.robots@[k], self.cols as int, self.rows as int, seconds);
            }
        }
        true
    }
}

} // verus!
