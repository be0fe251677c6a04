//! A warehouse in which a robot pushes boxes around.
//!
//! The warehouse is a sparse grid of walls and boxes. A command moves the
//! robot one step; the boxes in its way are pushed along, unless a wall
//! stands behind them, in which case nothing moves at all. In the wide
//! variant a box takes two cells side by side, so that a push up or down can
//! fan out over ever more boxes.
//!
//! Positions outside the `i32` range do not exist: nothing can be pushed
//! there, and the robot cannot go there.

use crate::grid::{
    in_range, is_unit, listed_before, neighbor, point, step, Coordinate, Point, SparseGrid,
};
use vstd::prelude::*;

verus! {

/// What a cell of the warehouse holds.
#[derive(Clone, Copy, Debug, PartialEq, Eq, Structural)]
pub enum Object {
    /// A wall, which never moves.
    Wall,
    /// A box of one cell.
    Box,
    /// The left half of a wide box.
    BoxLeft,
    /// The right half of a wide box.
    BoxRight,
}

/// The position from which a step by `dir` leads to `q`.
pub open spec fn behind(q: Point, dir: Point) -> Point {
    (q.0 - dir.0, q.1 - dir.1)
}

/// The grid in which what the cells of `moved` hold has gone one step in the
/// direction `dir`, and everything else has stayed.
pub open spec fn shift_cells(objects: Map<Point, Object>, moved: Set<Point>, dir: Point) -> Map<
    Point,
    Object,
> {
    Map::new(
        |q: Point| moved.contains(behind(q, dir)) || (objects.contains_key(q) && !moved.contains(q)),
        |q: Point|
            if moved.contains(behind(q, dir)) {
                objects[behind(q, dir)]
            } else {
                objects[q]
            },
    )
}

/// Whether the cell at `p` holds something that can be pushed.
pub open spec fn movable(objects: Map<Point, Object>, p: Point) -> bool {
    objects.contains_key(p) && objects[p] != Object::Wall
}

/// How many steps in the direction `dir` can be made from `p` inside the
/// `i32` range.
pub open spec fn room(p: Point, dir: Point) -> int {
    if dir == (1int, 0int) {
        i32::MAX - p.0
    } else if dir == (-1int, 0int) {
        p.0 - i32::MIN
    } else if dir == (0int, 1int) {
        i32::MAX - p.1
    } else {
        p.1 - i32::MIN
    }
}

/// The position `k` steps from `p` in the direction `dir`.
pub open spec fn along(p: Point, dir: Point, k: int) -> Point {
    if dir == (1int, 0int) {
        (p.0 + k, p.1)
    } else if dir == (-1int, 0int) {
        (p.0 - k, p.1)
    } else if dir == (0int, 1int) {
        (p.0, p.1 + k)
    } else {
        (p.0, p.1 - k)
    }
}

/// How many steps in the direction `dir` lead from `p` to `q`, where `q` lies
/// on that line.
pub open spec fn steps_to(p: Point, dir: Point, q: Point) -> int {
    if dir == (1int, 0int) {
        q.0 - p.0
    } else if dir == (-1int, 0int) {
        p.0 - q.0
    } else if dir == (0int, 1int) {
        q.1 - p.1
    } else {
        p.1 - q.1
    }
}

/// The `n` cells in a row that begins at `p` and runs in the direction `dir`.
pub open spec fn row_cells(p: Point, dir: Point, n: int) -> Set<Point> {
    Set::new(|q: Point| 0 <= steps_to(p, dir, q) < n && q == along(p, dir, steps_to(p, dir, q)))
}

/// The number of movable objects that stand in an unbroken row from `p` in
/// the direction `dir`.
pub open spec fn row_length(objects: Map<Point, Object>, p: Point, dir: Point) -> nat
    decreases room(p, dir) + 1,
{
    if is_unit(dir) && in_range(p) && movable(objects, p) {
        1 + row_length(objects, step(p, dir), dir)
    } else {
        0
    }
}

/// Whether the row of movable objects that begins at `p` can go one step in
/// the direction `dir`: the position behind its last object exists and is
/// free.
pub open spec fn row_gives_way(objects: Map<Point, Object>, p: Point, dir: Point) -> bool {
    let end = along(p, dir, row_length(objects, p, dir) as int);
    in_range(end) && !objects.contains_key(end)
}

/// The grid after a push at `p` in the direction `dir`: the row that begins
/// at `p` has gone one step if it can, else nothing has changed.
pub open spec fn row_push(objects: Map<Point, Object>, p: Point, dir: Point) -> Map<
    Point,
    Object,
> {
    if row_gives_way(objects, p, dir) {
        shift_cells(objects, row_cells(p, dir, row_length(objects, p, dir) as int), dir)
    } else {
        objects
    }
}

/// Pushes at `pos` in the direction `dir`: the row of movable objects that
/// begins there goes one step, unless a wall or the end of the range stands
/// behind it. Says whether `pos` is free afterwards.
pub fn push_row(objects: &mut SparseGrid<Object>, pos: Coordinate, dir: Coordinate) -> (moved: bool)
    requires
        is_unit(point(dir)),
    ensures
        moved == row_gives_way(old(objects)@, point(pos), point(dir)),
        final(objects)@ == row_push(old(objects)@, point(pos), point(dir)),
    decreases room(point(pos), point(dir)),
{
    let ghost before = objects@;
    let ghost p = point(pos);
    let ghost d = point(dir);
    proof {
        objects.lemma_view();
    }
    match objects.get(pos) {
        None => {
            assert(objects@ =~= shift_cells(before, row_cells(p, d, 0), d));
            true
        },
        Some(Object::Wall) => false,
        Some(object) => {
            match neighbor(pos, dir) {
                None => false,
                Some(next) => {
                    let ghost n = row_length(before, step(p, d), d) as int;
                    assert(along(step(p, d), d, n) == along(p, d, n + 1));
                    if push_row(objects, next, dir) {
                        objects.remove(pos);
                        objects.insert(next, object);
                        assert(objects@ =~= shift_cells(before, row_cells(p, d, n + 1), d)) by {
                            let inner = row_cells(step(p, d), d, n);
                            let outer = row_cells(p, d, n + 1);
                            assert forall|q: Point| outer.contains(q) <==> q == p || inner.contains(
                                q,
                            ) by {}
                        }
                        true
                    } else {
                        false
                    }
                },
            }
        },
    }
}

/// Whether every command of `dirs` is one of the four unit steps.
pub open spec fn commands_ok(dirs: Seq<Coordinate>) -> bool {
    forall|i: int| 0 <= i < dirs.len() ==> is_unit(point(#[trigger] dirs[i]))
}

/// Whether `objects` holds walls and boxes of one cell only.
pub open spec fn narrow_ok(objects: Map<Point, Object>) -> bool {
    forall|p: Point| #[trigger]
        objects.contains_key(p) ==> objects[p] == Object::Wall || objects[p] == Object::Box
}

/// The grid and the robot after one command in the narrow warehouse: the
/// robot goes one step and pushes the row of boxes before it, or, where that
/// row cannot move, nothing changes.
pub open spec fn narrow_step(objects: Map<Point, Object>, robot: Point, dir: Point) -> (
    Map<Point, Object>,
    Point,
) {
    let target = step(robot, dir);
    if row_gives_way(objects, target, dir) {
        (row_push(objects, target, dir), target)
    } else {
        (objects, robot)
    }
}

/// The grid and the robot after the commands `dirs`, carried out in order.
pub open spec fn narrow_walk(objects: Map<Point, Object>, robot: Point, dirs: Seq<Coordinate>) -> (
    Map<Point, Object>,
    Point,
)
    decreases dirs.len(),
{
    if dirs.len() == 0 {
        (objects, robot)
    } else {
        let next = narrow_step(objects, robot, point(dirs[0]));
        narrow_walk(next.0, next.1, dirs.drop_first())
    }
}

/// Whatever a shifted grid holds, the grid held before: a property of all
/// objects of the grid holds of all objects of the shifted grid.
pub proof fn lemma_shift_keeps_kinds(
    objects: Map<Point, Object>,
    moved: Set<Point>,
    dir: Point,
    kind: spec_fn(Object) -> bool,
)
    requires
        forall|p: Point| moved.contains(p) ==> objects.contains_key(p),
        forall|p: Point| #[trigger] objects.contains_key(p) ==> kind(objects[p]),
    ensures
        forall|q: Point| #[trigger]
            shift_cells(objects, moved, dir).contains_key(q) ==> kind(
                shift_cells(objects, moved, dir)[q],
            ),
{
    let after = shift_cells(objects, moved, dir);
    assert forall|q: Point| #[trigger] after.contains_key(q) implies kind(after[q]) by {
        if moved.contains(behind(q, dir)) {
            assert(objects.contains_key(behind(q, dir)));
        } else {
            assert(objects.contains_key(q));
        }
    }
}

/// The cells of a row of movable objects hold objects.
pub proof fn lemma_row_is_movable(objects: Map<Point, Object>, p: Point, dir: Point, q: Point)
    requires
        row_cells(p, dir, row_length(objects, p, dir) as int).contains(q),
    ensures
        movable(objects, q),
        in_range(q),
    decreases row_length(objects, p, dir),
{
    if q != p {
        let n = row_length(objects, p, dir) as int;
        assert(row_cells(step(p, dir), dir, n - 1).contains(q));
        lemma_row_is_movable(objects, step(p, dir), dir, q);
    }
}

/// A push in a narrow warehouse leaves a narrow warehouse.
pub proof fn lemma_row_push_narrow(objects: Map<Point, Object>, p: Point, dir: Point)
    requires
        narrow_ok(objects),
    ensures
        narrow_ok(row_push(objects, p, dir)),
{
    if row_gives_way(objects, p, dir) {
        let moved = row_cells(p, dir, row_length(objects, p, dir) as int);
        assert forall|q: Point| moved.contains(q) implies objects.contains_key(q) by {
            lemma_row_is_movable(objects, p, dir, q);
        }
        lemma_shift_keeps_kinds(
            objects,
            moved,
            dir,
            |o: Object| o == Object::Wall || o == Object::Box,
        );
    }
}

/// The position to the right of `p`.
pub open spec fn east(p: Point) -> Point {
    (p.0, p.1 + 1)
}

/// The position to the left of `p`.
pub open spec fn west(p: Point) -> Point {
    (p.0, p.1 - 1)
}

/// Whether the cell at `p` holds the left half of a wide box.
pub open spec fn is_left(objects: Map<Point, Object>, p: Point) -> bool {
    objects.contains_key(p) && objects[p] == Object::BoxLeft
}

/// Whether the cell at `p` holds a wall.
pub open spec fn is_wall(objects: Map<Point, Object>, p: Point) -> bool {
    objects.contains_key(p) && objects[p] == Object::Wall
}

/// Whether `objects` is a wide layout: no box of one cell, and every half of
/// a wide box has its other half beside it.
pub open spec fn wide_ok(objects: Map<Point, Object>) -> bool {
    forall|p: Point| #[trigger]
        objects.contains_key(p) ==> match objects[p] {
            Object::Wall => true,
            Object::Box => false,
            Object::BoxLeft => objects.contains_key(east(p)) && objects[east(p)]
                == Object::BoxRight,
            Object::BoxRight => objects.contains_key(west(p)) && objects[west(p)]
                == Object::BoxLeft,
        }
}

/// Whether `dir` is one step down or one step up.
pub open spec fn is_vertical(dir: Point) -> bool {
    dir == (1int, 0int) || dir == (-1int, 0int)
}

/// How many rows `q` lies from `p` in the direction `dir`.
pub open spec fn rows_to(p: Point, dir: Point, q: Point) -> int {
    if dir == (1int, 0int) {
        q.0 - p.0
    } else {
        p.0 - q.0
    }
}

/// Whether a vertical push of the wide box whose left half is at `start`
/// also pushes the wide box whose left half is at `c`: it does if `c` is
/// `start`, or if the push reaches `c` from one of the boxes that stand, in
/// part or whole, on the two cells into which the box at `start` would go.
pub open spec fn pushes(objects: Map<Point, Object>, start: Point, dir: Point, c: Point) -> bool
    decreases rows_to(start, dir, c),
{
    if !is_vertical(dir) || rows_to(start, dir, c) < 0 {
        false
    } else if c == start {
        true
    } else if rows_to(start, dir, c) == 0 {
        false
    } else {
        let t = step(start, dir);
        ||| is_left(objects, west(t)) && pushes(objects, west(t), dir, c)
        ||| is_left(objects, t) && pushes(objects, t, dir, c)
        ||| is_left(objects, east(t)) && pushes(objects, east(t), dir, c)
    }
}

/// Whether the wide box whose left half is at `b` cannot go one step in the
/// direction `dir`, whatever else moves: a wall or the end of the range is
/// in its way.
pub open spec fn box_blocked(objects: Map<Point, Object>, b: Point, dir: Point) -> bool {
    let t = step(b, dir);
    !in_range(t) || !in_range(east(t)) || is_wall(objects, t) || is_wall(objects, east(t))
}

/// Whether a vertical push of the wide box at `start` can be carried out:
/// none of the boxes it pushes is blocked.
pub open spec fn push_allowed(objects: Map<Point, Object>, start: Point, dir: Point) -> bool {
    forall|c: Point| #[trigger] pushes(objects, start, dir, c) ==> !box_blocked(objects, c, dir)
}

/// The cells of all wide boxes that a vertical push of the box at `start`
/// pushes.
pub open spec fn pushed_cells(objects: Map<Point, Object>, start: Point, dir: Point) -> Set<
    Point,
> {
    Set::new(|q: Point| pushes(objects, start, dir, q) || pushes(objects, start, dir, west(q)))
}

/// The left half of the wide box of which the cell at `p` holds a half.
pub open spec fn box_at(objects: Map<Point, Object>, p: Point) -> Point {
    if objects.contains_key(p) && objects[p] == Object::BoxRight {
        west(p)
    } else {
        p
    }
}

/// Whether `list` names exactly the wide boxes that a vertical push of the
/// box at `start` pushes.
pub open spec fn names_pushed(
    objects: Map<Point, Object>,
    start: Point,
    dir: Point,
    list: Seq<Coordinate>,
) -> bool {
    &&& forall|i: int| 0 <= i < list.len() ==> pushes(objects, start, dir, point(#[trigger] list[i]))
    &&& forall|c: Point| #[trigger]
        pushes(objects, start, dir, c) ==> exists|i: int|
            0 <= i < list.len() && point(#[trigger] list[i]) == c
}

/// Every pushed box is a box.
pub proof fn lemma_pushes_left(objects: Map<Point, Object>, start: Point, dir: Point, c: Point)
    requires
        is_left(objects, start),
        pushes(objects, start, dir, c),
    ensures
        is_left(objects, c),
    decreases rows_to(start, dir, c),
{
    if c != start {
        let t = step(start, dir);
        if is_left(objects, west(t)) && pushes(objects, west(t), dir, c) {
            lemma_pushes_left(objects, west(t), dir, c);
        } else if is_left(objects, t) && pushes(objects, t, dir, c) {
            lemma_pushes_left(objects, t, dir, c);
        } else {
            lemma_pushes_left(objects, east(t), dir, c);
        }
    }
}

/// The cells of the wide boxes whose left halves are the first `n` positions
/// of `list`.
pub open spec fn box_cells(list: Seq<Coordinate>, n: int) -> Set<Point> {
    Set::new(|q: Point| listed_before(list, n, q) || listed_before(list, n, west(q)))
}

/// The grid in which what the cells of `arrived` held has been put one step
/// further in the direction `dir`, and the cells of `gone` have been
/// emptied, unless something arrived there.
pub open spec fn relocated(
    objects: Map<Point, Object>,
    gone: Set<Point>,
    arrived: Set<Point>,
    dir: Point,
) -> Map<Point, Object> {
    Map::new(
        |q: Point| arrived.contains(behind(q, dir)) || (objects.contains_key(q) && !gone.contains(q)),
        |q: Point|
            if arrived.contains(behind(q, dir)) {
                objects[behind(q, dir)]
            } else {
                objects[q]
            },
    )
}

/// Moves the wide boxes whose left halves `list` names one step in the
/// direction `dir`: first all of them are taken out of the grid, then all
/// are put back one step further.
pub fn shift_boxes(objects: &mut SparseGrid<Object>, list: &Vec<Coordinate>, dir: Coordinate)
    requires
        forall|i: int|
            0 <= i < list@.len() ==> {
                let c = point(#[trigger] list@[i]);
                &&& is_left(old(objects)@, c)
                &&& old(objects)@.contains_key(east(c))
                &&& old(objects)@[east(c)] == Object::BoxRight
                &&& in_range(step(c, point(dir)))
                &&& in_range(east(step(c, point(dir))))
            },
    ensures
        final(objects)@ == shift_cells(
            old(objects)@,
            box_cells(list@, list@.len() as int),
            point(dir),
        ),
{
    let ghost before = objects@;
    let ghost d = point(dir);
    let ghost all = box_cells(list@, list@.len() as int);
    proof {
        objects.lemma_view();
        assert(objects@ =~= relocated(before, box_cells(list@, 0), Set::empty(), d));
    }
    let mut i: usize = 0;
    while i < list.len()
        invariant
            i <= list.len(),
            forall|p: Point| #[trigger] before.contains_key(p) ==> in_range(p),
            forall|j: int| 0 <= j < list@.len() ==> before.contains_key(east(point(#[trigger] list@[j]))),
            objects@ == relocated(before, box_cells(list@, i as int), Set::empty(), d),
        decreases list.len() - i,
    {
        let m = list[i];
        assert(before.contains_key(east(point(list@[i as int]))));
        objects.remove(m);
        objects.remove((m.0, m.1 + 1));
        proof {
            let gone = box_cells(list@, i as int);
            let gone2 = box_cells(list@, i + 1);
            assert forall|q: Point|
                gone2.contains(q) <==> gone.contains(q) || q == point(m) || q == east(
                    point(m),
                ) by {
                if listed_before(list@, i + 1, q) {
                    let j = choose|j: int| 0 <= j < i + 1 && point(#[trigger] list@[j]) == q;
                    if j < i {
                        assert(listed_before(list@, i as int, q));
                    }
                }
                if listed_before(list@, i + 1, west(q)) {
                    let j = choose|j: int| 0 <= j < i + 1 && point(#[trigger] list@[j]) == west(q);
                    if j < i {
                        assert(listed_before(list@, i as int, west(q)));
                    }
                }
                if listed_before(list@, i as int, q) {
                    let j = choose|j: int| 0 <= j < i && point(#[trigger] list@[j]) == q;
                    assert(listed_before(list@, i + 1, q));
                }
                if listed_before(list@, i as int, west(q)) {
                    let j = choose|j: int| 0 <= j < i && point(#[trigger] list@[j]) == west(q);
                    assert(listed_before(list@, i + 1, west(q)));
                }
                if q == point(m) || q == east(point(m)) {
                    assert(point(list@[i as int]) == point(m));
                    assert(listed_before(list@, i + 1, point(m)));
                }
            }
            assert(objects@ =~= relocated(before, gone2, Set::empty(), d));
        }
        i += 1;
    }
    proof {
        assert(objects@ =~= relocated(before, all, box_cells(list@, 0), d));
    }
    let mut i: usize = 0;
    while i < list.len()
        invariant
            i <= list.len(),
            d == point(dir),
            all == box_cells(list@, list@.len() as int),
            forall|j: int|
                0 <= j < list@.len() ==> {
                    let c = point(#[trigger] list@[j]);
                    &&& is_left(before, c)
                    &&& before.contains_key(east(c))
                    &&& before[east(c)] == Object::BoxRight
                    &&& in_range(step(c, d))
                    &&& in_range(east(step(c, d)))
                },
            objects@ == relocated(before, all, box_cells(list@, i as int), d),
        decreases list.len() - i,
    {
        let m = list[i];
        let ghost c = point(m);
        assert(is_left(before, point(list@[i as int])));
        let target = match neighbor(m, dir) {
            Some(target) => target,
            None => {
                assert(false);
                m
            },
        };
        objects.insert(target, Object::BoxLeft);
        objects.insert((target.0, target.1 + 1), Object::BoxRight);
        proof {
            let arrived = box_cells(list@, i as int);
            let arrived2 = box_cells(list@, i + 1);
            assert forall|q: Point|
                arrived2.contains(q) <==> arrived.contains(q) || q == c || q == east(c) by {
                if listed_before(list@, i + 1, q) {
                    let j = choose|j: int| 0 <= j < i + 1 && point(#[trigger] list@[j]) == q;
                    if j < i {
                        assert(listed_before(list@, i as int, q));
                    }
                }
                if listed_before(list@, i + 1, west(q)) {
                    let j = choose|j: int| 0 <= j < i + 1 && point(#[trigger] list@[j]) == west(q);
                    if j < i {
                        assert(listed_before(list@, i as int, west(q)));
                    }
                }
                if listed_before(list@, i as int, q) {
                    let j = choose|j: int| 0 <= j < i && point(#[trigger] list@[j]) == q;
                    assert(listed_before(list@, i + 1, q));
                }
                if listed_before(list@, i as int, west(q)) {
                    let j = choose|j: int| 0 <= j < i && point(#[trigger] list@[j]) == west(q);
                    assert(listed_before(list@, i + 1, west(q)));
                }
                if q == c || q == east(c) {
                    assert(point(list@[i as int]) == c);
                    assert(listed_before(list@, i + 1, c));
                }
            }
            assert forall|q: Point| arrived.contains(q) implies before.contains_key(q) && before[q]
                == (if listed_before(list@, i as int, q) {
                Object::BoxLeft
            } else {
                Object::BoxRight
            }) by {
                if listed_before(list@, i as int, q) {
                    let j = choose|j: int| 0 <= j < i && point(#[trigger] list@[j]) == q;
                    assert(is_left(before, point(list@[j])));
                } else {
                    let j = choose|j: int| 0 <= j < i && point(#[trigger] list@[j]) == west(q);
                    assert(is_left(before, point(list@[j])));
                    assert(east(west(q)) == q);
                }
            }
            assert(objects@ =~= relocated(before, all, arrived2, d)) by {
                assert forall|q: Point|
                    objects@.contains_key(q) <==> relocated(before, all, arrived2, d).contains_key(
                        q,
                    ) by {}
                assert forall|q: Point| objects@.contains_key(q) implies objects@[q] == relocated(
                    before,
                    all,
                    arrived2,
                    d,
                )[q] by {
                    if behind(q, d) == east(c) && arrived.contains(behind(q, d)) {
                        assert(!listed_before(list@, i as int, east(c))) by {
                            if listed_before(list@, i as int, east(c)) {
                                let j = choose|j: int|
                                    0 <= j < i && point(#[trigger] list@[j]) == east(c);
                                assert(is_left(before, point(list@[j])));
                            }
                        }
                    }
                    if behind(q, d) == c && arrived.contains(behind(q, d)) {
                        if !listed_before(list@, i as int, c) {
                            assert(listed_before(list@, i as int, west(c)));
                            let j = choose|j: int|
                                0 <= j < i && point(#[trigger] list@[j]) == west(c);
                            assert(before[east(point(list@[j]))] == Object::BoxRight);
                            assert(east(west(c)) == c);
                        }
                    }
                }
            }
        }
        i += 1;
    }
    proof {
        assert(objects@ =~= shift_cells(before, all, d));
    }
}

/// Whether a push at `p` in the direction `dir` in the wide layout can be
/// carried out: a push to the side as in a row, a push up or down where the
/// cell is free or holds a box whose push is allowed.
pub open spec fn wide_gives_way(objects: Map<Point, Object>, p: Point, dir: Point) -> bool {
    if !is_vertical(dir) {
        row_gives_way(objects, p, dir)
    } else if !objects.contains_key(p) {
        in_range(p)
    } else if objects[p] == Object::Wall {
        false
    } else {
        push_allowed(objects, box_at(objects, p), dir)
    }
}

/// The wide layout after a push at `p` in the direction `dir`: where the
/// push can be carried out, every object that it pushes has gone one step;
/// where it cannot, nothing has changed.
pub open spec fn wide_push(objects: Map<Point, Object>, p: Point, dir: Point) -> Map<
    Point,
    Object,
> {
    if !is_vertical(dir) {
        row_push(objects, p, dir)
    } else if movable(objects, p) && push_allowed(objects, box_at(objects, p), dir) {
        shift_cells(objects, pushed_cells(objects, box_at(objects, p), dir), dir)
    } else {
        objects
    }
}

/// The wide layout and the robot after one command.
pub open spec fn wide_step(objects: Map<Point, Object>, robot: Point, dir: Point) -> (
    Map<Point, Object>,
    Point,
) {
    let target = step(robot, dir);
    if wide_gives_way(objects, target, dir) {
        (wide_push(objects, target, dir), target)
    } else {
        (objects, robot)
    }
}

/// The wide layout and the robot after the commands `dirs`, carried out in
/// order.
pub open spec fn wide_walk(objects: Map<Point, Object>, robot: Point, dirs: Seq<Coordinate>) -> (
    Map<Point, Object>,
    Point,
)
    decreases dirs.len(),
{
    if dirs.len() == 0 {
        (objects, robot)
    } else {
        let next = wide_step(objects, robot, point(dirs[0]));
        wide_walk(next.0, next.1, dirs.drop_first())
    }
}

/// A push that reaches a box also reaches the boxes that stand where that
/// box would go.
pub proof fn lemma_pushes_onward(
    objects: Map<Point, Object>,
    start: Point,
    dir: Point,
    c: Point,
    l: Point,
)
    requires
        pushes(objects, start, dir, c),
        is_left(objects, l),
        l == west(step(c, dir)) || l == step(c, dir) || l == east(step(c, dir)),
    ensures
        pushes(objects, start, dir, l),
    decreases rows_to(start, dir, c),
{
    if c == start {
        assert(pushes(objects, l, dir, l));
    } else {
        let t = step(start, dir);
        if is_left(objects, west(t)) && pushes(objects, west(t), dir, c) {
            lemma_pushes_onward(objects, west(t), dir, c, l);
        } else if is_left(objects, t) && pushes(objects, t, dir, c) {
            lemma_pushes_onward(objects, t, dir, c, l);
        } else {
            lemma_pushes_onward(objects, east(t), dir, c, l);
        }
    }
}

/// A vertical push that is carried out in a wide layout leaves a wide
/// layout.
pub proof fn lemma_vertical_push_wide(objects: Map<Point, Object>, start: Point, dir: Point)
    requires
        wide_ok(objects),
        is_vertical(dir),
        is_left(objects, start),
    ensures
        wide_ok(shift_cells(objects, pushed_cells(objects, start, dir), dir)),
{
    let moved = pushed_cells(objects, start, dir);
    let after = shift_cells(objects, moved, dir);
    assert forall|q: Point| moved.contains(q) implies objects.contains_key(q) && (objects[q]
        == Object::BoxLeft || objects[q] == Object::BoxRight) && (objects[q] == Object::BoxLeft
        ==> pushes(objects, start, dir, q)) && (objects[q] == Object::BoxRight ==> pushes(
        objects,
        start,
        dir,
        west(q),
    )) by {
        if pushes(objects, start, dir, q) {
            lemma_pushes_left(objects, start, dir, q);
        }
        if pushes(objects, start, dir, west(q)) {
            lemma_pushes_left(objects, start, dir, west(q));
            assert(objects.contains_key(west(q)));
            assert(east(west(q)) == q);
        }
    }
    assert forall|x: Point| #[trigger] after.contains_key(x) implies match after[x] {
        Object::Wall => true,
        Object::Box => false,
        Object::BoxLeft => after.contains_key(east(x)) && after[east(x)] == Object::BoxRight,
        Object::BoxRight => after.contains_key(west(x)) && after[west(x)] == Object::BoxLeft,
    } by {
        let b = behind(x, dir);
        if moved.contains(b) {
            assert(objects.contains_key(b));
            if objects[b] == Object::BoxLeft {
                assert(moved.contains(east(b))) by {
                    assert(west(east(b)) == b);
                }
                assert(behind(east(x), dir) == east(b));
            } else {
                assert(moved.contains(west(b)));
                assert(behind(west(x), dir) == west(b));
            }
        } else {
            assert(objects.contains_key(x));
            if objects[x] == Object::BoxLeft {
                let partner = east(x);
                assert(west(partner) == x);
                assert(!moved.contains(partner)) by {
                    if pushes(objects, start, dir, partner) {
                        lemma_pushes_left(objects, start, dir, partner);
                    }
                }
                if moved.contains(behind(partner, dir)) {
                    let bb = behind(partner, dir);
                    let c = if objects[bb] == Object::BoxLeft {
                        bb
                    } else {
                        west(bb)
                    };
                    assert(pushes(objects, start, dir, c));
                    lemma_pushes_onward(objects, start, dir, c, x);
                }
            } else if objects[x] == Object::BoxRight {
                let partner = west(x);
                assert(east(partner) == x);
                assert(!moved.contains(partner)) by {
                    if pushes(objects, start, dir, west(partner)) {
                        lemma_pushes_left(objects, start, dir, west(partner));
                    }
                }
                if moved.contains(behind(partner, dir)) {
                    let bb = behind(partner, dir);
                    let c = if objects[bb] == Object::BoxLeft {
                        bb
                    } else {
                        west(bb)
                    };
                    assert(pushes(objects, start, dir, c));
                    lemma_pushes_onward(objects, start, dir, c, partner);
                }
            }
        }
    }
}

/// A row of movable objects goes on as far as movable objects stand.
pub proof fn lemma_row_goes_on(objects: Map<Point, Object>, p: Point, dir: Point, q: Point)
    requires
        row_cells(p, dir, row_length(objects, p, dir) as int).contains(q),
        movable(objects, step(q, dir)),
        in_range(step(q, dir)),
    ensures
        row_cells(p, dir, row_length(objects, p, dir) as int).contains(step(q, dir)),
    decreases row_length(objects, p, dir),
{
    let n = row_length(objects, p, dir) as int;
    if q != p {
        assert(row_cells(step(p, dir), dir, n - 1).contains(q));
        lemma_row_goes_on(objects, step(p, dir), dir, q);
        assert(row_cells(step(p, dir), dir, n - 1).contains(step(q, dir)));
    } else {
        assert(row_length(objects, step(p, dir), dir) >= 1);
    }
}

/// A push to the side in a wide layout leaves a wide layout, where the
/// position from which the push comes is free.
pub proof fn lemma_row_push_wide(objects: Map<Point, Object>, p: Point, dir: Point)
    requires
        wide_ok(objects),
        is_unit(dir),
        !is_vertical(dir),
        !objects.contains_key(behind(p, dir)),
        forall|q: Point| #[trigger] objects.contains_key(q) ==> in_range(q),
    ensures
        wide_ok(row_push(objects, p, dir)),
{
    if row_gives_way(objects, p, dir) {
        let n = row_length(objects, p, dir) as int;
        let moved = row_cells(p, dir, n);
        let after = shift_cells(objects, moved, dir);
        assert forall|q: Point| moved.contains(q) implies movable(objects, q) by {
            lemma_row_is_movable(objects, p, dir, q);
        }
        // The row is made of whole boxes.
        assert forall|q: Point| moved.contains(q) implies (objects[q] == Object::BoxLeft
            ==> moved.contains(east(q))) && (objects[q] == Object::BoxRight ==> moved.contains(
            west(q),
        )) by {
            let partner = if objects[q] == Object::BoxLeft {
                east(q)
            } else {
                west(q)
            };
            assert(objects.contains_key(q));
            if partner == step(q, dir) {
                lemma_row_goes_on(objects, p, dir, q);
            } else {
                assert(partner == behind(q, dir));
            }
        }
        // Nothing outside the row stands where the row goes.
        assert forall|q: Point| moved.contains(behind(q, dir)) && objects.contains_key(q)
            && objects[q] != Object::Wall implies moved.contains(q) by {
            lemma_row_goes_on(objects, p, dir, behind(q, dir));
        }
        assert forall|x: Point| #[trigger] after.contains_key(x) implies match after[x] {
            Object::Wall => true,
            Object::Box => false,
            Object::BoxLeft => after.contains_key(east(x)) && after[east(x)] == Object::BoxRight,
            Object::BoxRight => after.contains_key(west(x)) && after[west(x)] == Object::BoxLeft,
        } by {
            let b = behind(x, dir);
            if moved.contains(b) {
                assert(objects.contains_key(b));
                assert(behind(east(x), dir) == east(b));
                assert(behind(west(x), dir) == west(b));
            } else {
                assert(objects.contains_key(x));
                if objects[x] == Object::BoxLeft {
                    assert(objects.contains_key(east(x)));
                    assert(west(east(x)) == x);
                } else if objects[x] == Object::BoxRight {
                    assert(objects.contains_key(west(x)));
                    assert(east(west(x)) == x);
                }
            }
        }
    }
}

/// After a push at `p`, the cell at `p` is free if and only if the push was
/// carried out.
pub proof fn lemma_row_push_frees(objects: Map<Point, Object>, p: Point, dir: Point)
    requires
        is_unit(dir),
        in_range(p),
    ensures
        row_gives_way(objects, p, dir) <==> !row_push(objects, p, dir).contains_key(p),
{
    let n = row_length(objects, p, dir) as int;
    if row_gives_way(objects, p, dir) {
        if objects.contains_key(p) {
            assert(n >= 1);
            assert(row_cells(p, dir, n).contains(p));
        }
    } else {
        if !objects.contains_key(p) {
            assert(n == 0);
        }
    }
}

/// After a vertical push at `p` in a wide layout, the cell at `p` is free if
/// the push was carried out.
pub proof fn lemma_vertical_push_frees(objects: Map<Point, Object>, p: Point, dir: Point)
    requires
        is_vertical(dir),
        wide_ok(objects),
        in_range(p),
    ensures
        wide_gives_way(objects, p, dir) <==> !wide_push(objects, p, dir).contains_key(p),
{
    if movable(objects, p) && push_allowed(objects, box_at(objects, p), dir) {
        let start = box_at(objects, p);
        let moved = pushed_cells(objects, start, dir);
        assert(objects.contains_key(p));
        assert(pushes(objects, start, dir, start));
        assert(moved.contains(p)) by {
            if objects[p] == Object::BoxRight {
                assert(west(p) == start);
            }
        }
        assert(!moved.contains(behind(p, dir))) by {
            assert(rows_to(start, dir, behind(p, dir)) < 0);
            assert(rows_to(start, dir, west(behind(p, dir))) < 0);
        }
    }
}

/// A vertical push of a wide box is all or nothing. Where one of the boxes
/// that it pushes is blocked, the grid stays as it is. Where none is, every
/// box that it pushes stands one step further afterwards, every object that
/// it does not push stands where it stood, and nothing else is in the grid.
pub proof fn lemma_vertical_push_atomic(objects: Map<Point, Object>, start: Point, dir: Point)
    requires
        wide_ok(objects),
        is_vertical(dir),
        is_left(objects, start),
    ensures
        !push_allowed(objects, start, dir) ==> wide_push(objects, start, dir) == objects,
        push_allowed(objects, start, dir) ==> {
            let after = wide_push(objects, start, dir);
            let moved = pushed_cells(objects, start, dir);
            &&& forall|c: Point| #[trigger]
                pushes(objects, start, dir, c) ==> is_left(after, step(c, dir))
                    && after.contains_key(east(step(c, dir))) && after[east(step(c, dir))]
                    == Object::BoxRight
            &&& forall|q: Point| #[trigger]
                objects.contains_key(q) && !moved.contains(q) ==> after.contains_key(q)
                    && after[q] == objects[q]
            &&& forall|q: Point| #[trigger]
                after.contains_key(q) ==> moved.contains(behind(q, dir)) || (
                objects.contains_key(q) && !moved.contains(q))
        },
{
    if push_allowed(objects, start, dir) {
        let after = wide_push(objects, start, dir);
        let moved = pushed_cells(objects, start, dir);
        assert(box_at(objects, start) == start);
        assert forall|c: Point| #[trigger] pushes(objects, start, dir, c) implies is_left(
            after,
            step(c, dir),
        ) && after.contains_key(east(step(c, dir))) && after[east(step(c, dir))]
            == Object::BoxRight by {
            lemma_pushes_left(objects, start, dir, c);
            assert(moved.contains(c));
            assert(behind(step(c, dir), dir) == c);
            assert(moved.contains(east(c))) by {
                assert(west(east(c)) == c);
            }
            assert(behind(east(step(c, dir)), dir) == east(c));
            assert(objects.contains_key(c));
        }
        assert forall|q: Point| #[trigger]
            objects.contains_key(q) && !moved.contains(q) implies after.contains_key(q) && after[q]
            == objects[q] by {
            let b = behind(q, dir);
            if moved.contains(b) {
                let c = if pushes(objects, start, dir, b) {
                    b
                } else {
                    west(b)
                };
                assert(pushes(objects, start, dir, c));
                assert(q == step(c, dir) || q == east(step(c, dir)));
                assert(!box_blocked(objects, c, dir));
                if objects[q] == Object::BoxLeft {
                    lemma_pushes_onward(objects, start, dir, c, q);
                } else if objects[q] == Object::BoxRight {
                    assert(objects.contains_key(west(q)));
                    lemma_pushes_onward(objects, start, dir, c, west(q));
                }
            }
        }
    }
}

/// A command that sends the robot against a wall changes nothing, in the
/// narrow layout and in the wide one.
pub proof fn lemma_wall_stops(objects: Map<Point, Object>, robot: Point, dir: Point)
    requires
        is_unit(dir),
        is_wall(objects, step(robot, dir)),
    ensures
        narrow_step(objects, robot, dir) == (objects, robot),
        wide_step(objects, robot, dir) == (objects, robot),
{
    let target = step(robot, dir);
    assert(row_length(objects, target, dir) == 0);
    assert(along(target, dir, 0) == target);
}

/// The state of a warehouse: the robot, its commands, and the objects, both
/// in the narrow layout and in the wide one.
pub struct Warehouse {
    /// The last position of the narrow layout.
    pub mapsize: Coordinate,
    /// Where the robot stands in the narrow layout.
    pub robot: Coordinate,
    /// The commands, each a unit step.
    pub robot_dirs: Vec<Coordinate>,
    /// The walls and boxes of the narrow layout.
    pub objects: SparseGrid<Object>,
    /// The walls and box halves of the wide layout.
    pub wide_objects: SparseGrid<Object>,
    /// Where the robot stands in the wide layout.
    pub wide_robot: Coordinate,
    /// The last position of the wide layout.
    pub wide_mapsize: Coordinate,
}

impl Warehouse {
    /// Pushes at `pos` in the direction `dir` in the narrow layout, and says
    /// whether `pos` is free afterwards. A wall at `pos` stops the push and
    /// leaves the grid as it was.
    pub fn can_move(&mut self, pos: Coordinate, dir: Coordinate) -> (moved: bool)
        requires
            is_unit(point(dir)),
            narrow_ok(old(self).objects@),
        ensures
            moved == row_gives_way(old(self).objects@, point(pos), point(dir)),
            final(self).objects@ == row_push(old(self).objects@, point(pos), point(dir)),
            narrow_ok(final(self).objects@),
            old(self).objects@.contains_key(point(pos)) && old(self).objects@[point(pos)]
                == Object::Wall ==> !moved && final(self).objects@ == old(self).objects@,
            final(self).robot == old(self).robot,
            final(self).robot_dirs == old(self).robot_dirs,
            final(self).mapsize == old(self).mapsize,
            final(self).wide_objects == old(self).wide_objects,
            final(self).wide_robot == old(self).wide_robot,
            final(self).wide_mapsize == old(self).wide_mapsize,
    {
        proof {
            lemma_row_push_narrow(self.objects@, point(pos), point(dir));
        }
        push_row(&mut self.objects, pos, dir)
    }

    /// Carries out one command in the narrow layout: the robot goes one
    /// step in the direction `dir` and pushes the boxes in its way, or,
    /// where they cannot move, stays where it is.
    pub fn step(&mut self, dir: Coordinate)
        requires
            is_unit(point(dir)),
            narrow_ok(old(self).objects@),
        ensures
            (final(self).objects@, point(final(self).robot)) == narrow_step(
                old(self).objects@,
                point(old(self).robot),
                point(dir),
            ),
            narrow_ok(final(self).objects@),
            final(self).robot_dirs == old(self).robot_dirs,
            final(self).mapsize == old(self).mapsize,
            final(self).wide_objects == old(self).wide_objects,
            final(self).wide_robot == old(self).wide_robot,
            final(self).wide_mapsize == old(self).wide_mapsize,
    {
        match neighbor(self.robot, dir) {
            Some(next_pos) => {
                if self.can_move(next_pos, dir) {
                    self.robot = next_pos;
                }
            },
            None => {},
        }
    }

    /// Carries out all commands in the narrow layout.
    pub fn walk(&mut self)
        requires
            commands_ok(old(self).robot_dirs@),
            narrow_ok(old(self).objects@),
        ensures
            (final(self).objects@, point(final(self).robot)) == narrow_walk(
                old(self).objects@,
                point(old(self).robot),
                old(self).robot_dirs@,
            ),
            narrow_ok(final(self).objects@),
            final(self).robot_dirs == old(self).robot_dirs,
            final(self).mapsize == old(self).mapsize,
            final(self).wide_objects == old(self).wide_objects,
            final(self).wide_robot == old(self).wide_robot,
            final(self).wide_mapsize == old(self).wide_mapsize,
    {
        let mut i: usize = 0;
        assert(self.robot_dirs@.skip(0) =~= self.robot_dirs@);
        while i < self.robot_dirs.len()
            invariant
                i <= self.robot_dirs.len(),
                commands_ok(self.robot_dirs@),
                narrow_ok(self.objects@),
                narrow_walk(self.objects@, point(self.robot), self.robot_dirs@.skip(i as int))
                    == narrow_walk(
                    old(self).objects@,
                    point(old(self).robot),
                    old(self).robot_dirs@,
                ),
                self.robot_dirs == old(self).robot_dirs,
                self.mapsize == old(self).mapsize,
                self.wide_objects == old(self).wide_objects,
                self.wide_robot == old(self).wide_robot,
                self.wide_mapsize == old(self).wide_mapsize,
            decreases self.robot_dirs.len() - i,
        {
            let dir = self.robot_dirs[i];
            let ghost rest = self.robot_dirs@.skip(i as int);
            assert(rest[0] == dir);
            assert(rest.drop_first() =~= self.robot_dirs@.skip(i + 1));
            self.step(dir);
            i += 1;
        }
        assert(self.robot_dirs@.skip(i as int) =~= Seq::<Coordinate>::empty());
    }

    /// Collects the wide boxes that a vertical push of the box at `pos`
    /// pushes, and says whether the push can be carried out. Where it
    /// cannot, the list is empty.
    pub fn get_move_list(&self, pos: &Coordinate, dir: &Coordinate) -> (r: (bool, Vec<Coordinate>))
        requires
            is_vertical(point(*dir)),
            wide_ok(self.wide_objects@),
            self.wide_objects@.contains_key(point(*pos)),
            self.wide_objects@[point(*pos)] == Object::BoxLeft || self.wide_objects@[point(*pos)]
                == Object::BoxRight,
        ensures
            r.0 == push_allowed(
                self.wide_objects@,
                box_at(self.wide_objects@, point(*pos)),
                point(*dir),
            ),
            r.0 ==> names_pushed(
                self.wide_objects@,
                box_at(self.wide_objects@, point(*pos)),
                point(*dir),
                r.1@,
            ),
            !r.0 ==> r.1@.len() == 0,
        decreases room(point(*pos), point(*dir)),
    {
        let ghost objects = self.wide_objects@;
        let ghost d = point(*dir);
        proof {
            self.wide_objects.lemma_view();
        }
        let mut mpos = *pos;
        match self.wide_objects.get(mpos) {
            Some(Object::BoxRight) => {
                assert(objects.contains_key(west(point(*pos))));
                mpos = (mpos.0, mpos.1 - 1);
            },
            _ => {},
        }
        let ghost start = point(mpos);
        assert(start == box_at(objects, point(*pos)));
        assert(is_left(objects, start));
        assert(objects.contains_key(east(start)));
        assert(pushes(objects, start, d, start));
        let newpos = match neighbor(mpos, *dir) {
            Some(newpos) => newpos,
            None => {
                assert(box_blocked(objects, start, d));
                return (false, Vec::new());
            },
        };
        let ghost t = point(newpos);
        let beside: Coordinate = (newpos.0, newpos.1 + 1);
        let left = self.wide_objects.get(newpos);
        let right = self.wide_objects.get(beside);
        let wall_left = match left {
            Some(Object::Wall) => true,
            _ => false,
        };
        let wall_right = match right {
            Some(Object::Wall) => true,
            _ => false,
        };
        if wall_left || wall_right {
            assert(box_blocked(objects, start, d));
            return (false, Vec::new());
        }
        assert(!box_blocked(objects, start, d));
        let mut movelist: Vec<Coordinate> = Vec::new();
        movelist.push(mpos);
        let ghost mut first: Seq<Coordinate> = Seq::empty();
        match left {
            None => {},
            Some(Object::BoxRight) => {
                assert(is_left(objects, west(t)));
                let (motion, mut v) = self.get_move_list(&(newpos.0, newpos.1 - 1), dir);
                if !motion {
                    proof {
                        let c = choose|c: Point| #[trigger]
                            pushes(objects, west(t), d, c) && box_blocked(objects, c, d);
                        assert(pushes(objects, start, d, c));
                    }
                    return (false, v);
                }
                proof {
                    first = v@;
                }
                movelist.append(&mut v);
            },
            Some(Object::BoxLeft) => {
                let (motion, mut v) = self.get_move_list(&newpos, dir);
                if !motion {
                    proof {
                        let c = choose|c: Point| #[trigger]
                            pushes(objects, t, d, c) && box_blocked(objects, c, d);
                        assert(pushes(objects, start, d, c));
                    }
                    return (false, v);
                }
                proof {
                    first = v@;
                }
                movelist.append(&mut v);
            },
            Some(_) => {
                assert(false);
            },
        }
        let ghost mut second: Seq<Coordinate> = Seq::empty();
        match right {
            Some(Object::BoxLeft) => {
                let (motion, mut v) = self.get_move_list(&beside, dir);
                if !motion {
                    proof {
                        let c = choose|c: Point| #[trigger]
                            pushes(objects, east(t), d, c) && box_blocked(objects, c, d);
                        assert(pushes(objects, start, d, c));
                    }
                    return (false, v);
                }
                proof {
                    second = v@;
                }
                movelist.append(&mut v);
            },
            _ => {},
        }
        proof {
            assert(movelist@ =~= seq![mpos] + first + second);
            let list = movelist@;
            assert forall|c: Point| #[trigger] pushes(objects, start, d, c) implies !box_blocked(
                objects,
                c,
                d,
            ) && exists|i: int| 0 <= i < list.len() && point(#[trigger] list[i]) == c by {
                if c == start {
                    assert(point(list[0]) == c);
                } else if is_left(objects, west(t)) && pushes(objects, west(t), d, c) {
                    let i = choose|i: int| 0 <= i < first.len() && point(#[trigger] first[i]) == c;
                    assert(point(list[1 + i]) == c);
                } else if is_left(objects, t) && pushes(objects, t, d, c) {
                    let i = choose|i: int| 0 <= i < first.len() && point(#[trigger] first[i]) == c;
                    assert(point(list[1 + i]) == c);
                } else {
                    assert(is_left(objects, east(t)) && pushes(objects, east(t), d, c));
                    let i = choose|i: int|
                        0 <= i < second.len() && point(#[trigger] second[i]) == c;
                    assert(point(list[1 + first.len() + i]) == c);
                }
            }
            assert forall|i: int| 0 <= i < list.len() implies pushes(
                objects,
                start,
                d,
                point(#[trigger] list[i]),
            ) by {
                if 1 <= i < 1 + first.len() {
                    assert(list[i] == first[i - 1]);
                } else if i >= 1 + first.len() {
                    assert(list[i] == second[i - 1 - first.len()]);
                }
            }
        }
        (true, movelist)
    }

    /// Pushes at `pos` in the direction `dir` in the wide layout, and says
    /// whether `pos` is free afterwards. A push to the side moves a row of
    /// box halves. A push up or down first collects every box that would
    /// have to move, and moves them all or none. A wall at `pos` stops the
    /// push and leaves the grid as it was.
    pub fn can_move_wide(&mut self, pos: &Coordinate, dir: &Coordinate) -> (moved: bool)
        requires
            is_unit(point(*dir)),
            wide_ok(old(self).wide_objects@),
        ensures
            moved == wide_gives_way(old(self).wide_objects@, point(*pos), point(*dir)),
            final(self).wide_objects@ == wide_push(
                old(self).wide_objects@,
                point(*pos),
                point(*dir),
            ),
            moved <==> !final(self).wide_objects@.contains_key(point(*pos)),
            is_vertical(point(*dir)) || !old(self).wide_objects@.contains_key(
                behind(point(*pos), point(*dir)),
            ) ==> wide_ok(final(self).wide_objects@),
            old(self).wide_objects@.contains_key(point(*pos)) && old(self).wide_objects@[point(
                *pos,
            )] == Object::Wall ==> !moved && final(self).wide_objects@ == old(
                self,
            ).wide_objects@,
            final(self).robot == old(self).robot,
            final(self).robot_dirs == old(self).robot_dirs,
            final(self).mapsize == old(self).mapsize,
            final(self).objects == old(self).objects,
            final(self).wide_robot == old(self).wide_robot,
            final(self).wide_mapsize == old(self).wide_mapsize,
    {
        let ghost objects = self.wide_objects@;
        let ghost p = point(*pos);
        let ghost d = point(*dir);
        proof {
            self.wide_objects.lemma_view();
        }
        if dir.0 == 0 {
            proof {
                lemma_row_push_frees(objects, p, d);
                if !objects.contains_key(behind(p, d)) {
                    lemma_row_push_wide(objects, p, d);
                }
            }
            push_row(&mut self.wide_objects, *pos, *dir)
        } else {
            proof {
                lemma_vertical_push_frees(objects, p, d);
            }
            let (allowed, movelist) = match self.wide_objects.get(*pos) {
                None => {
                    return true;
                },
                Some(Object::Wall) => {
                    return false;
                },
                Some(Object::Box) => {
                    assert(false);
                    return false;
                },
                Some(Object::BoxLeft) => self.get_move_list(pos, dir),
                Some(Object::BoxRight) => {
                    assert(objects.contains_key(west(p)));
                    self.get_move_list(&(pos.0, pos.1 - 1), dir)
                },
            };
            if allowed {
                let ghost start = box_at(objects, p);
                proof {
                    lemma_vertical_push_wide(objects, start, d);
                    assert forall|i: int| 0 <= i < movelist@.len() implies {
                        let c = point(#[trigger] movelist@[i]);
                        &&& is_left(objects, c)
                        &&& objects.contains_key(east(c))
                        &&& objects[east(c)] == Object::BoxRight
                        &&& in_range(step(c, d))
                        &&& in_range(east(step(c, d)))
                    } by {
                        let c = point(movelist@[i]);
                        lemma_pushes_left(objects, start, d, c);
                        assert(objects.contains_key(c));
                        assert(!box_blocked(objects, c, d));
                    }
                    assert(box_cells(movelist@, movelist@.len() as int) =~= pushed_cells(
                        objects,
                        start,
                        d,
                    )) by {
                        let n = movelist@.len() as int;
                        assert forall|q: Point|
                            listed_before(movelist@, n, q) <==> pushes(objects, start, d, q) by {
                            if listed_before(movelist@, n, q) {
                                let j = choose|j: int|
                                    0 <= j < n && point(#[trigger] movelist@[j]) == q;
                                assert(pushes(objects, start, d, point(movelist@[j])));
                            }
                        }
                    }
                }
                shift_boxes(&mut self.wide_objects, &movelist, *dir);
            }
            allowed
        }
    }

    /// Carries out one command in the wide layout: the robot goes one step
    /// in the direction `dir` and pushes the boxes in its way, or, where
    /// they cannot move, stays where it is.
    pub fn step_wide(&mut self, dir: Coordinate)
        requires
            is_unit(point(dir)),
            wide_ok(old(self).wide_objects@),
            !old(self).wide_objects@.contains_key(point(old(self).wide_robot)),
        ensures
            (final(self).wide_objects@, point(final(self).wide_robot)) == wide_step(
                old(self).wide_objects@,
                point(old(self).wide_robot),
                point(dir),
            ),
            wide_ok(final(self).wide_objects@),
            !final(self).wide_objects@.contains_key(point(final(self).wide_robot)),
            final(self).robot_dirs == old(self).robot_dirs,
            final(self).mapsize == old(self).mapsize,
            final(self).objects == old(self).objects,
            final(self).robot == old(self).robot,
            final(self).wide_mapsize == old(self).wide_mapsize,
    {
        proof {
            self.wide_objects.lemma_view();
        }
        match neighbor(self.wide_robot, dir) {
            Some(next_pos) => {
                assert(behind(point(next_pos), point(dir)) == point(self.wide_robot));
                if self.can_move_wide(&next_pos, &dir) {
                    self.wide_robot = next_pos;
                }
            },
            None => {
                let ghost target = step(point(self.wide_robot), point(dir));
                assert(!self.wide_objects@.contains_key(target));
                assert(!wide_gives_way(self.wide_objects@, target, point(dir)));
            },
        }
    }

    /// Carries out all commands in the wide layout.
    pub fn walk_wide(&mut self)
        requires
            commands_ok(old(self).robot_dirs@),
            wide_ok(old(self).wide_objects@),
            !old(self).wide_objects@.contains_key(point(old(self).wide_robot)),
        ensures
            (final(self).wide_objects@, point(final(self).wide_robot)) == wide_walk(
                old(self).wide_objects@,
                point(old(self).wide_robot),
                old(self).robot_dirs@,
            ),
            wide_ok(final(self).wide_objects@),
            !final(self).wide_objects@.contains_key(point(final(self).wide_robot)),
            final(self).robot_dirs == old(self).robot_dirs,
            final(self).mapsize == old(self).mapsize,
            final(self).objects == old(self).objects,
            final(self).robot == old(self).robot,
            final(self).wide_mapsize == old(self).wide_mapsize,
    {
        let mut i: usize = 0;
        assert(self.robot_dirs@.skip(0) =~= self.robot_dirs@);
        while i < self.robot_dirs.len()
            invariant
                i <= self.robot_dirs.len(),
                commands_ok(self.robot_dirs@),
                wide_ok(self.wide_objects@),
                !self.wide_objects@.contains_key(point(self.wide_robot)),
                wide_walk(
                    self.wide_objects@,
                    point(self.wide_robot),
                    self.robot_dirs@.skip(i as int),
                ) == wide_walk(
                    old(self).wide_objects@,
                    point(old(self).wide_robot),
                    old(self).robot_dirs@,
                ),
                self.robot_dirs == old(self).robot_dirs,
                self.mapsize == old(self).mapsize,
                self.objects == old(self).objects,
                self.robot == old(self).robot,
                self.wide_mapsize == old(self).wide_mapsize,
            decreases self.robot_dirs.len() - i,
        {
            let dir = self.robot_dirs[i];
            let ghost rest = self.robot_dirs@.skip(i as int);
            assert(rest[0] == dir);
            assert(rest.drop_first() =~= self.robot_dirs@.skip(i + 1));
            self.step_wide(dir);
            i += 1;
        }
        assert(self.robot_dirs@.skip(i as int) =~= Seq::<Coordinate>::empty());
    }
}

} // verus!
