//! A maze through which a reindeer runs from the start tile to the end tile.
//!
//! The reindeer looks in one of the four directions. A step forward costs
//! one point, a quarter turn a thousand. The best routes are found by the
//! A* search of the `pathfinding` crate; what the search is given, and what
//! is made of its outcome, is verified here.

use crate::grid::{
    is_unit, lists, neighbor, point, step, CoordSet, Coordinate, Point, SparseGrid,
};
use crate::text::{cells_of, char_grid, find_last, last_of, lines_of};
use pathfinding::prelude::astar_bag_collect;
use vstd::prelude::*;

verus! {

/// What a tile of the maze is.
#[derive(Clone, Copy, Debug, PartialEq, Eq, Structural)]
pub enum Type {
    Wall,
    Path,
}

/// Where the reindeer stands and where it looks.
pub type State = (Coordinate, Coordinate);

/// The cost of a step forward.
pub const STEP_COST: u32 = 1;

/// The cost of a quarter turn.
pub const TURN_COST: u32 = 1000;

/// The maze: its tiles, the start tile, the end tile, and the direction in
/// which the reindeer looks at the start.
pub struct Maze {
    pub map: SparseGrid<Type>,
    pub start: Coordinate,
    pub end: Coordinate,
    pub dir: Coordinate,
}

/// The direction a quarter turn to the right of `dir`.
pub open spec fn clockwise(dir: Point) -> Point {
    (dir.1, -dir.0)
}

/// The direction a quarter turn to the left of `dir`.
pub open spec fn anti_clockwise(dir: Point) -> Point {
    (-dir.1, dir.0)
}

/// Whether the reindeer can get from `s` to `t` in one move.
pub open spec fn is_move(map: Map<Point, Type>, s: State, t: State) -> bool {
    ||| t.1 == s.1 && point(t.0) == step(point(s.0), point(s.1)) && map.contains_key(point(t.0))
        && map[point(t.0)] == Type::Path
    ||| t.0 == s.0 && point(t.1) == clockwise(point(s.1))
    ||| t.0 == s.0 && point(t.1) == anti_clockwise(point(s.1))
}

/// The direction `dir` as a coordinate, where it fits.
pub open spec fn as_coordinate(dir: Point) -> Coordinate {
    (dir.0 as i32, dir.1 as i32)
}

/// The moves from `s`, each with its cost: the step forward, where a path
/// tile lies ahead, the quarter turn to the right, and the quarter turn to
/// the left.
pub open spec fn moves_from(map: Map<Point, Type>, s: State) -> Seq<(State, u32)> {
    let ahead = step(point(s.0), point(s.1));
    let turns = seq![
        ((s.0, as_coordinate(clockwise(point(s.1)))), 1000u32),
        ((s.0, as_coordinate(anti_clockwise(point(s.1)))), 1000u32),
    ];
    if map.contains_key(ahead) && map[ahead] == Type::Path {
        seq![((as_coordinate(ahead), s.1), 1u32)] + turns
    } else {
        turns
    }
}

/// The cost of the move from `s` to `t`.
pub open spec fn move_cost(s: State, t: State) -> nat {
    if t.1 == s.1 {
        1
    } else {
        1000
    }
}

/// The distance between `a` and `b` in steps along the rows and columns.
pub open spec fn manhattan(a: Point, b: Point) -> nat {
    ((if a.0 >= b.0 {
        a.0 - b.0
    } else {
        b.0 - a.0
    }) + (if a.1 >= b.1 {
        a.1 - b.1
    } else {
        b.1 - a.1
    })) as nat
}

/// The cost of all moves of `path`.
pub open spec fn route_cost(path: Seq<State>) -> nat
    decreases path.len(),
{
    if path.len() <= 1 {
        0
    } else {
        route_cost(path.drop_last()) + move_cost(path[path.len() - 2], path.last())
    }
}

/// The tiles on which the routes of `paths` stand.
pub open spec fn tiles_of(paths: Seq<Vec<State>>) -> Set<Point> {
    Set::new(
        |p: Point|
            exists|i: int, j: int|
                0 <= i < paths.len() && 0 <= j < paths[i]@.len() && point(
                    (#[trigger] paths[i]@[j]).0,
                ) == p,
    )
}

impl Maze {
    /// Whether `path` is a route: it begins where the reindeer starts,
    /// goes on move by move, and ends on the end tile.
    pub open spec fn is_route(&self, path: Seq<State>) -> bool {
        &&& path.len() >= 1
        &&& path[0] == (self.start, self.dir)
        &&& path.last().0 == self.end
        &&& forall|i: int|
            0 <= i < path.len() - 1 ==> is_move(self.map@, #[trigger] path[i], path[i + 1])
    }

    /// Whether the maze is small enough for the cost of any route without
    /// detours to fit in a `u32` together with any estimate: at most a
    /// million tiles, none further than 2^20 from the origin.
    pub open spec fn within_limits(&self) -> bool {
        &&& self.map@.dom().len() <= 1_000_000
        &&& near(point(self.start))
        &&& near(point(self.end))
        &&& forall|p: Point| #[trigger] self.map@.contains_key(p) ==> near(p)
    }

    /// The direction a quarter turn to the right of `dir`.
    pub fn turn_clockwise(dir: Coordinate) -> (turned: Coordinate)
        requires
            is_unit(point(dir)),
        ensures
            point(turned) == clockwise(point(dir)),
            is_unit(point(turned)),
    {
        if dir.0 == -1 {
            (0, 1)
        } else if dir.1 == 1 {
            (1, 0)
        } else if dir.0 == 1 {
            (0, -1)
        } else {
            (-1, 0)
        }
    }

    /// The direction a quarter turn to the left of `dir`.
    pub fn turn_anti_clockwise(dir: Coordinate) -> (turned: Coordinate)
        requires
            is_unit(point(dir)),
        ensures
            point(turned) == anti_clockwise(point(dir)),
            is_unit(point(turned)),
    {
        if dir.1 == 1 {
            (-1, 0)
        } else if dir.0 == -1 {
            (0, -1)
        } else if dir.1 == -1 {
            (1, 0)
        } else {
            (0, 1)
        }
    }

    /// The moves that the reindeer can make from `state`, each with its
    /// cost: first the step forward, where a path tile lies ahead, then the
    /// quarter turn to the right, then the quarter turn to the left.
    pub fn successors(&self, state: &State) -> (moves: Vec<(State, u32)>)
        requires
            is_unit(point(state.1)),
        ensures
            moves@ == moves_from(self.map@, *state),
            forall|i: int|
                0 <= i < moves@.len() ==> is_move(self.map@, *state, (#[trigger] moves@[i]).0)
                    && moves@[i].1 == move_cost(*state, moves@[i].0) && is_unit(
                    point(moves@[i].0.1),
                ),
            forall|t: State|
                is_move(self.map@, *state, t) ==> exists|i: int|
                    0 <= i < moves@.len() && (#[trigger] moves@[i]).0 == t,
    {
        let (curr_pos, curr_dir) = *state;
        let mut successors: Vec<(State, u32)> = Vec::new();
        proof {
            self.map.lemma_view();
        }
        match neighbor(curr_pos, curr_dir) {
            Some(nextpos) => {
                match self.map.get(nextpos) {
                    Some(Type::Path) => {
                        successors.push(((nextpos, curr_dir), STEP_COST));
                    },
                    _ => {},
                }
            },
            None => {},
        }
        let ghost ahead = successors@;
        let next_dir_cl = Maze::turn_clockwise(curr_dir);
        successors.push(((curr_pos, next_dir_cl), TURN_COST));
        let next_dir_ant = Maze::turn_anti_clockwise(curr_dir);
        successors.push(((curr_pos, next_dir_ant), TURN_COST));
        proof {
            let n = ahead.len() as int;
            assert(successors@[n] == ((curr_pos, next_dir_cl), TURN_COST));
            assert(successors@[n + 1] == ((curr_pos, next_dir_ant), TURN_COST));
            assert(successors@ =~= moves_from(self.map@, *state));
            assert forall|t: State| is_move(self.map@, *state, t) implies exists|i: int|
                0 <= i < successors@.len() && (#[trigger] successors@[i]).0 == t by {
                if t.1 == state.1 {
                    assert(n == 1);
                    assert(successors@[0].0 == t);
                } else if point(t.1) == clockwise(point(state.1)) {
                    assert(successors@[n].0 == t);
                } else {
                    assert(successors@[n + 1].0 == t);
                }
            }
        }
        successors
    }

    /// An estimate of the cost of getting from `state` to the end tile: the
    /// number of steps along the rows and columns, which no route can
    /// undercut; `u32::MAX` where that number is larger.
    pub fn heuristic(&self, state: &State) -> (estimate: u32)
        ensures
            estimate == if manhattan(point(state.0), point(self.end)) <= u32::MAX {
                manhattan(point(state.0), point(self.end))
            } else {
                u32::MAX as nat
            },
    {
        let rows: i64 = state.0.0 as i64 - self.end.0 as i64;
        let cols: i64 = state.0.1 as i64 - self.end.1 as i64;
        let rows: i64 = if rows >= 0 {
            rows
        } else {
            -rows
        };
        let cols: i64 = if cols >= 0 {
            cols
        } else {
            -cols
        };
        let distance: i64 = rows + cols;
        if distance > u32::MAX as i64 {
            u32::MAX
        } else {
            distance as u32
        }
    }

    /// Whether the reindeer has arrived.
    pub fn is_end(&self, state: &State) -> (arrived: bool)
        ensures
            arrived == (state.0 == self.end),
    {
        state.0.0 == self.end.0 && state.0.1 == self.end.1
    }
}

/// Whether `p` lies no further than 2^20 from the origin in each direction.
pub open spec fn near(p: Point) -> bool {
    -0x10_0000 <= p.0 <= 0x10_0000 && -0x10_0000 <= p.1 <= 0x10_0000
}

/// What the search for the best routes has to bring: no routes only where
/// the maze has none; else at least one route, only routes of the one cost
/// `cost`, which no route undercuts, and every route of that cost.
pub open spec fn is_best(maze: &Maze, paths: Seq<Vec<State>>, cost: u32) -> bool {
    &&& paths.len() > 0
    &&& forall|i: int|
        0 <= i < paths.len() ==> maze.is_route((#[trigger] paths[i])@) && route_cost(paths[i]@)
            == cost
    &&& forall|path: Seq<State>| #[trigger] maze.is_route(path) ==> route_cost(path) >= cost
    &&& forall|path: Seq<State>|
        #[trigger] maze.is_route(path) && route_cost(path) == cost ==> exists|i: int|
            0 <= i < paths.len() && (#[trigger] paths[i])@ == path
}

/// Searches the best routes through the maze.
///
/// Trusted: calls `astar_bag_collect` of the `pathfinding` crate with the
/// start state, [`Maze::successors`], [`Maze::heuristic`] and
/// [`Maze::is_end`]. The contract claims what the crate documents of the
/// search where the estimate never exceeds the true cost, as is the case
/// here: `None` where no route exists; else all routes of the least cost,
/// and that cost. The order of the routes is left open. The limits on the
/// maze keep the sums of costs that the search forms within a `u32`.
#[verifier::external_body]
fn best_routes(maze: &Maze) -> (found: Option<(Vec<Vec<State>>, u32)>)
    requires
        is_unit(point(maze.dir)),
        maze.within_limits(),
    ensures
        match found {
            None => forall|path: Seq<State>| !maze.is_route(path),
            Some((paths, cost)) => is_best(maze, paths@, cost),
        },
{
    astar_bag_collect(
        &(maze.start, maze.dir),
        |state| maze.successors(state).into_iter(),
        |state| maze.heuristic(state),
        |state| maze.is_end(state),
    )
}

/// The routes and their cost as the maze hands them out: what the search
/// found, or no routes and the cost 0 where it found none.
pub fn routes_or_none(found: Option<(Vec<Vec<State>>, u32)>) -> (r: (Vec<Vec<State>>, u32))
    ensures
        match found {
            None => r.0@.len() == 0 && r.1 == 0,
            Some(both) => r == both,
        },
{
    match found {
        Some(both) => both,
        None => (Vec::new(), 0),
    }
}

/// Whether the tile `p` is stood on before the place `j` of the route `i`
/// of `paths`: on an earlier route, or earlier on that route.
spec fn stood_on(paths: Seq<Vec<State>>, i: int, j: int, p: Point) -> bool {
    exists|a: int, b: int|
        0 <= a < paths.len() && 0 <= b < paths[a]@.len() && (a < i || (a == i && b < j)) && point(
            (#[trigger] paths[a]@[b]).0,
        ) == p
}

/// The number of tiles on which the routes of `paths` stand.
pub fn count_tiles(paths: &Vec<Vec<State>>) -> (n: usize)
    ensures
        n == tiles_of(paths@).len(),
{
    let mut tiles = CoordSet::new();
    let mut i: usize = 0;
    while i < paths.len()
        invariant
            i <= paths.len(),
            forall|p: Point| #[trigger] tiles@.contains(p) <==> stood_on(paths@, i as int, 0, p),
        decreases paths.len() - i,
    {
        let path = &paths[i];
        let mut j: usize = 0;
        while j < path.len()
            invariant
                i < paths.len(),
                j <= path.len(),
                path == &paths@[i as int],
                forall|p: Point| #[trigger]
                    tiles@.contains(p) <==> stood_on(paths@, i as int, j as int, p),
            decreases path.len() - j,
        {
            let ghost before = tiles@;
            let tile = path[j].0;
            tiles.insert(tile);
            proof {
                assert forall|p: Point| #[trigger] tiles@.contains(p) <==> stood_on(
                    paths@,
                    i as int,
                    j + 1,
                    p,
                ) by {
                    if stood_on(paths@, i as int, j + 1, p) {
                        let (a, b) = choose|a: int, b: int|
                            0 <= a < paths@.len() && 0 <= b < paths@[a]@.len() && (a < i || (a == i
                                && b < j + 1)) && point((#[trigger] paths@[a]@[b]).0) == p;
                        if !(a == i && b == j) {
                            assert(point(paths@[a]@[b].0) == p);
                            assert(stood_on(paths@, i as int, j as int, p));
                        }
                    }
                    if before.contains(p) {
                        let (a, b) = choose|a: int, b: int|
                            0 <= a < paths@.len() && 0 <= b < paths@[a]@.len() && (a < i || (a == i
                                && b < j)) && point((#[trigger] paths@[a]@[b]).0) == p;
                        assert(point(paths@[a]@[b].0) == p);
                    }
                    if p == point(tile) {
                        assert(point(paths@[i as int]@[j as int].0) == p);
                    }
                }
            }
            j += 1;
        }
        proof {
            assert forall|p: Point| #[trigger] tiles@.contains(p) <==> stood_on(
                paths@,
                i + 1,
                0,
                p,
            ) by {
                if stood_on(paths@, i + 1, 0, p) {
                    let (a, b) = choose|a: int, b: int|
                        0 <= a < paths@.len() && 0 <= b < paths@[a]@.len() && (a < i + 1 || (a == i
                            + 1 && b < 0)) && point((#[trigger] paths@[a]@[b]).0) == p;
                    assert(point(paths@[a]@[b].0) == p);
                }
                if tiles@.contains(p) {
                    let (a, b) = choose|a: int, b: int|
                        0 <= a < paths@.len() && 0 <= b < paths@[a]@.len() && (a < i || (a == i
                            && b < path@.len())) && point((#[trigger] paths@[a]@[b]).0) == p;
                    assert(point(paths@[a]@[b].0) == p);
                }
            }
        }
        i += 1;
    }
    proof {
        assert(tiles@ =~= tiles_of(paths@)) by {
            assert forall|p: Point| tiles@.contains(p) <==> tiles_of(paths@).contains(p) by {
                if tiles_of(paths@).contains(p) {
                    let (a, b) = choose|a: int, b: int|
                        0 <= a < paths@.len() && 0 <= b < paths@[a]@.len() && point(
                            (#[trigger] paths@[a]@[b]).0,
                        ) == p;
                    assert(point(paths@[a]@[b].0) == p);
                }
                if tiles@.contains(p) {
                    let (a, b) = choose|a: int, b: int|
                        0 <= a < paths@.len() && 0 <= b < paths@[a]@.len() && (a < i || (a == i
                            && b < 0)) && point((#[trigger] paths@[a]@[b]).0) == p;
                    assert(point(paths@[a]@[b].0) == p);
                }
            }
        }
    }
    tiles.len()
}

impl Maze {
    /// The best routes from the start to the end tile, and their cost. In a
    /// maze without a route, no routes and the cost 0.
    pub fn find_paths_to_end(&self) -> (r: (Vec<Vec<State>>, u32))
        requires
            is_unit(point(self.dir)),
            self.within_limits(),
        ensures
            r.0@.len() == 0 ==> r.1 == 0 && forall|path: Seq<State>| !self.is_route(path),
            r.0@.len() > 0 ==> is_best(self, r.0@, r.1),
    {
        routes_or_none(best_routes(self))
    }

    /// Whether the maze is within the limits of the search, and the
    /// reindeer looks in one of the four directions.
    pub fn can_search(&self) -> (ok: bool)
        ensures
            ok == (is_unit(point(self.dir)) && self.within_limits()),
    {
        let dir_ok = (self.dir.0 == 0 && (self.dir.1 == 1 || self.dir.1 == -1)) || (self.dir.1 == 0
            && (self.dir.0 == 1 || self.dir.0 == -1));
        if !dir_ok || self.map.len() > 1_000_000 || !is_near(self.start) || !is_near(self.end) {
            return false;
        }
        let tiles = self.map.coordinates();
        let mut i: usize = 0;
        while i < tiles.len()
            invariant
                i <= tiles.len(),
                crate::grid::lists(tiles@, self.map@.dom()),
                forall|k: int| 0 <= k < i ==> near(point(#[trigger] tiles@[k])),
            decreases tiles.len() - i,
        {
            if !is_near(tiles[i]) {
                assert(self.map@.dom().contains(point(tiles@[i as int])));
                return false;
            }
            i += 1;
        }
        proof {
            assert forall|p: Point| #[trigger] self.map@.contains_key(p) implies near(p) by {
                assert(self.map@.dom().contains(p));
                let k = choose|k: int| 0 <= k < tiles@.len() && point(#[trigger] tiles@[k]) == p;
                assert(near(point(tiles@[k])));
            }
        }
        true
    }

    /// The best routes from the start to the end tile, and their cost, or
    /// `None` where the maze is beyond the limits of the search.
    pub fn try_find_paths_to_end(&self) -> (r: Option<(Vec<Vec<State>>, u32)>)
        ensures
            r is None <==> !(is_unit(point(self.dir)) && self.within_limits()),
            r matches Some(found) ==> {
                &&& found.0@.len() == 0 ==> found.1 == 0 && forall|path: Seq<State>|
                    !self.is_route(path)
                &&& found.0@.len() > 0 ==> is_best(self, found.0@, found.1)
            },
    {
        if self.can_search() {
            Some(self.find_paths_to_end())
        } else {
            None
        }
    }
}

/// Whether `c` lies no further than 2^20 from the origin in each direction.
pub fn is_near(c: Coordinate) -> (b: bool)
    ensures
        b == near(point(c)),
{
    c.0 >= -0x10_0000 && c.0 <= 0x10_0000 && c.1 >= -0x10_0000 && c.1 <= 0x10_0000
}

/// Whether `c` draws a tile of a maze: a wall, a path, the start or the
/// end.
pub open spec fn is_maze_tile(c: char) -> bool {
    c == '#' || c == '.' || c == 'S' || c == 'E'
}

/// The tiles that the characters `cells` draw: a wall for each `#`, a path
/// for each other character.
pub open spec fn maze_tiles(cells: Map<Point, char>) -> Map<Point, Type> {
    Map::new(
        |p: Point| cells.contains_key(p),
        |p: Point|
            if cells[p] == '#' {
                Type::Wall
            } else {
                Type::Path
            },
    )
}

/// Whether `maze` is the maze that the characters `cells` draw. The
/// reindeer starts at the last `S`, looking east, and has to get to the
/// last `E`; where there is none, the origin stands in, and without a start
/// the reindeer looks nowhere.
pub open spec fn draws(cells: Map<Point, char>, maze: Maze) -> bool {
    &&& maze.map@ == maze_tiles(cells)
    &&& match last_of(cells, 'S') {
        Some(start) => maze.start == start && maze.dir == (0i32, 1i32),
        None => maze.start == (0i32, 0i32) && maze.dir == (0i32, 0i32),
    }
    &&& match last_of(cells, 'E') {
        Some(end) => maze.end == end,
        None => maze.end == (0i32, 0i32),
    }
}

impl Maze {
    /// Reads a maze from its map, one line for each row of tiles. `None`
    /// where the map holds something else than tiles.
    pub fn from_str(s: &str) -> (maze: Option<Maze>)
        requires
            s@.len() <= i32::MAX,
        ensures
            match maze {
                Some(m) => draws(cells_of(lines_of(s@)), m) && forall|p: Point| #[trigger]
                    cells_of(lines_of(s@)).contains_key(p) ==> is_maze_tile(
                        cells_of(lines_of(s@))[p],
                    ),
                None => exists|p: Point| #[trigger]
                    cells_of(lines_of(s@)).contains_key(p) && !is_maze_tile(
                        cells_of(lines_of(s@))[p],
                    ),
            },
    {
        let cells = char_grid(s);
        let list = cells.coordinates();
        let mut map: SparseGrid<Type> = SparseGrid::new();
        let mut i: usize = 0;
        while i < list.len()
            invariant
                i <= list.len(),
                cells@ == cells_of(lines_of(s@)),
                lists(list@, cells@.dom()),
                forall|p: Point|
                    map@.contains_key(p) <==> crate::grid::listed_before(list@, i as int, p),
                forall|p: Point| #[trigger]
                    map@.contains_key(p) ==> cells@.contains_key(p) && is_maze_tile(cells@[p])
                        && map@[p] == maze_tiles(cells@)[p],
            decreases list.len() - i,
        {
            let at = list[i];
            assert(cells@.dom().contains(point(list@[i as int])));
            let ch = match cells.get(at) {
                Some(ch) => ch,
                None => {
                    assert(false);
                    '#'
                },
            };
            let ghost before = map@;
            if ch == '#' {
                map.insert(at, Type::Wall);
            } else if ch == '.' || ch == 'S' || ch == 'E' {
                map.insert(at, Type::Path);
            } else {
                assert(cells@.contains_key(point(at)) && !is_maze_tile(cells@[point(at)]));
                return None;
            }
            proof {
                assert forall|p: Point|
                    map@.contains_key(p) <==> crate::grid::listed_before(list@, i + 1, p) by {
                    if crate::grid::listed_before(list@, i + 1, p) {
                        let j = choose|j: int| 0 <= j < i + 1 && point(#[trigger] list@[j]) == p;
                        if j < i {
                            assert(crate::grid::listed_before(list@, i as int, p));
                        }
                    }
                    if crate::grid::listed_before(list@, i as int, p) {
                        let j = choose|j: int| 0 <= j < i && point(#[trigger] list@[j]) == p;
                        assert(crate::grid::listed_before(list@, i + 1, p));
                    }
                    if p == point(at) {
                        assert(point(list@[i as int]) == p);
                        assert(crate::grid::listed_before(list@, i + 1, p));
                    }
                }
            }
            i += 1;
        }
        proof {
            assert(map@ =~= maze_tiles(cells@)) by {
                assert forall|p: Point| map@.contains_key(p) <==> maze_tiles(cells@).contains_key(
                    p,
                ) by {
                    if cells@.contains_key(p) {
                        assert(cells@.dom().contains(p));
                        let j = choose|j: int|
                            0 <= j < list@.len() && point(#[trigger] list@[j]) == p;
                        assert(crate::grid::listed_before(list@, i as int, p));
                    }
                }
            }
            assert forall|p: Point| #[trigger] cells@.contains_key(p) implies is_maze_tile(
                cells@[p],
            ) by {
                assert(map@.contains_key(p));
            }
        }
        let (start, dir) = match find_last(&cells, 'S') {
            Some(start) => (start, (0, 1)),
            None => ((0, 0), (0, 0)),
        };
        let end = match find_last(&cells, 'E') {
            Some(end) => end,
            None => (0, 0),
        };
        Some(Maze { map, start, end, dir })
    }
}

} // verus!
