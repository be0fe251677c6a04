//! Reading a warehouse from its description, drawing it, and measuring
//! where its boxes stand.
//!
//! A description is a map of tiles, an empty line, and the commands of the
//! robot. The same map gives the narrow layout and the wide one, in which
//! every tile is twice as wide.

use crate::grid::{
    in_range, is_unit, lemma_sorted_unique, lists, neighbor, point, sorted_points,
    strictly_ordered, Coordinate, Point, SparseGrid,
};
use crate::text::{chars_of, find_height, lemma_lines_bounded, lines, lines_of, map_height, rows};
use crate::warehouse::{commands_ok, east, narrow_ok, west, wide_ok, Object, Warehouse};
use vstd::prelude::*;

verus! {

/// Whether `c` is a tile of a warehouse map: a wall, a box, the robot or a
/// free tile.
pub open spec fn is_tile(c: char) -> bool {
    c == '#' || c == 'O' || c == '@' || c == '.'
}

/// The step that the command `c` asks for, if `c` is a command.
pub open spec fn command_of(c: char) -> Option<Coordinate> {
    if c == '^' {
        Some((-1i32, 0i32))
    } else if c == 'v' {
        Some((1i32, 0i32))
    } else if c == '<' {
        Some((0i32, -1i32))
    } else if c == '>' {
        Some((0i32, 1i32))
    } else {
        None
    }
}

/// The objects of the narrow layout that the lines `map` draw.
pub open spec fn narrow_of(map: Seq<Seq<char>>) -> Map<Point, Object> {
    Map::new(
        |p: Point|
            0 <= p.0 < map.len() && 0 <= p.1 < map[p.0].len() && (map[p.0][p.1] == '#'
                || map[p.0][p.1] == 'O'),
        |p: Point|
            if map[p.0][p.1] == '#' {
                Object::Wall
            } else {
                Object::Box
            },
    )
}

/// The objects of the wide layout that the lines `map` draw: every tile
/// twice as wide.
pub open spec fn wide_of(map: Seq<Seq<char>>) -> Map<Point, Object> {
    Map::new(
        |p: Point|
            0 <= p.0 < map.len() && 0 <= p.1 < 2 * map[p.0].len() && (map[p.0][p.1 / 2] == '#'
                || map[p.0][p.1 / 2] == 'O'),
        |p: Point|
            if map[p.0][p.1 / 2] == '#' {
                Object::Wall
            } else if p.1 % 2 == 0 {
                Object::BoxLeft
            } else {
                Object::BoxRight
            },
    )
}

/// The last place in `line` where the robot is drawn.
pub open spec fn robot_in_line(line: Seq<char>) -> Option<int>
    decreases line.len(),
{
    if line.len() == 0 {
        None
    } else if line.last() == '@' {
        Some(line.len() - 1)
    } else {
        robot_in_line(line.drop_last())
    }
}

/// The last position in `map` where the robot is drawn.
pub open spec fn robot_of(map: Seq<Seq<char>>) -> Option<(int, int)>
    decreases map.len(),
{
    if map.len() == 0 {
        None
    } else {
        match robot_in_line(map.last()) {
            Some(col) => Some((map.len() - 1, col)),
            None => robot_of(map.drop_last()),
        }
    }
}

/// The last position of `map` that holds a tile.
pub open spec fn last_tile(map: Seq<Seq<char>>) -> Option<(int, int)>
    decreases map.len(),
{
    if map.len() == 0 {
        None
    } else if map.last().len() > 0 {
        Some((map.len() - 1, map.last().len() - 1))
    } else {
        last_tile(map.drop_last())
    }
}

/// All characters of `lines`, line after line.
pub open spec fn flat(lines: Seq<Seq<char>>) -> Seq<char>
    decreases lines.len(),
{
    if lines.len() == 0 {
        Seq::empty()
    } else {
        flat(lines.drop_last()) + lines.last()
    }
}

/// Whether `w` is the warehouse that `lines` describe: the lines up to the
/// first empty one draw the map, the others hold the commands.
pub open spec fn describes(lines: Seq<Seq<char>>, w: Warehouse) -> bool {
    let height = map_height(lines);
    let map = lines.take(height);
    let commands = flat(lines.skip(height));
    &&& w.objects@ == narrow_of(map)
    &&& w.wide_objects@ == wide_of(map)
    &&& match robot_of(map) {
        Some(r) => point(w.robot) == r && point(w.wide_robot) == (r.0, 2 * r.1),
        None => w.robot == (0i32, 0i32) && w.wide_robot == (0i32, 0i32),
    }
    &&& match last_tile(map) {
        Some(t) => point(w.mapsize) == t && point(w.wide_mapsize) == (t.0, 2 * t.1 + 1),
        None => w.mapsize == (0i32, 0i32) && w.wide_mapsize == (0i32, 0i32),
    }
    &&& w.robot_dirs@.len() == commands.len()
    &&& forall|i: int|
        0 <= i < commands.len() ==> command_of(commands[i]) == Some(#[trigger] w.robot_dirs@[i])
}

/// Whether `lines` describe a warehouse: the map is made of tiles, and the
/// rest of commands.
pub open spec fn well_formed(lines: Seq<Seq<char>>) -> bool {
    let height = map_height(lines);
    let map = lines.take(height);
    let commands = flat(lines.skip(height));
    &&& forall|r: int, c: int|
        0 <= r < map.len() && 0 <= c < map[r].len() ==> is_tile(#[trigger] map[r][c])
    &&& forall|i: int| 0 <= i < commands.len() ==> command_of(#[trigger] commands[i]) is Some
}

/// What has been read of a map: the objects of both layouts, the robot and
/// the last tile.
struct Reading {
    objects: SparseGrid<Object>,
    wide_objects: SparseGrid<Object>,
    robot: Coordinate,
    mapsize: Coordinate,
}

/// Whether `reading` holds what the lines `map` draw.
spec fn reads(map: Seq<Seq<char>>, reading: Reading) -> bool {
    &&& reading.objects@ == narrow_of(map)
    &&& reading.wide_objects@ == wide_of(map)
    &&& match robot_of(map) {
        Some(r) => point(reading.robot) == r,
        None => reading.robot == (0i32, 0i32),
    }
    &&& match last_tile(map) {
        Some(t) => point(reading.mapsize) == t,
        None => reading.mapsize == (0i32, 0i32),
    }
    &&& forall|r: int, c: int|
        0 <= r < map.len() && 0 <= c < map[r].len() ==> is_tile(#[trigger] map[r][c])
}

/// Reads one more tile of a map.
fn read_tile(reading: &mut Reading, row: usize, col: usize, ch: char) -> (ok: bool)
    requires
        row <= 0x3fff_ffff,
        col <= 0x3fff_fffe,
    ensures
        ok == is_tile(ch),
        final(reading).objects@ == if ch == '#' {
            old(reading).objects@.insert((row as int, col as int), Object::Wall)
        } else if ch == 'O' {
            old(reading).objects@.insert((row as int, col as int), Object::Box)
        } else {
            old(reading).objects@
        },
        final(reading).wide_objects@ == if ch == '#' {
            old(reading).wide_objects@.insert((row as int, 2 * col), Object::Wall).insert(
                (row as int, 2 * col + 1),
                Object::Wall,
            )
        } else if ch == 'O' {
            old(reading).wide_objects@.insert((row as int, 2 * col), Object::BoxLeft).insert(
                (row as int, 2 * col + 1),
                Object::BoxRight,
            )
        } else {
            old(reading).wide_objects@
        },
        final(reading).robot == if ch == '@' {
            (row as i32, col as i32)
        } else {
            old(reading).robot
        },
        final(reading).mapsize == (row as i32, col as i32),
{
    let coord: Coordinate = (row as i32, col as i32);
    let wide_col: i32 = 2 * (col as i32);
    if ch == '#' {
        reading.objects.insert(coord, Object::Wall);
        reading.wide_objects.insert((coord.0, wide_col), Object::Wall);
        reading.wide_objects.insert((coord.0, wide_col + 1), Object::Wall);
    } else if ch == 'O' {
        reading.objects.insert(coord, Object::Box);
        reading.wide_objects.insert((coord.0, wide_col), Object::BoxLeft);
        reading.wide_objects.insert((coord.0, wide_col + 1), Object::BoxRight);
    } else if ch == '@' {
        reading.robot = coord;
    }
    reading.mapsize = coord;
    ch == '#' || ch == 'O' || ch == '@' || ch == '.'
}

/// A tile more at the end of the last line of a map adds to what the map
/// draws as [`read_tile`] does.
proof fn lemma_tile_more(
    done: Seq<Seq<char>>,
    line: Seq<char>,
    col: int,
    before: Reading,
    after: Reading,
)
    requires
        0 <= col < line.len(),
        reads(done.push(line.take(col)), before),
        is_tile(line[col]),
        after.objects@ == if line[col] == '#' {
            before.objects@.insert((done.len() as int, col), Object::Wall)
        } else if line[col] == 'O' {
            before.objects@.insert((done.len() as int, col), Object::Box)
        } else {
            before.objects@
        },
        after.wide_objects@ == if line[col] == '#' {
            before.wide_objects@.insert((done.len() as int, 2 * col), Object::Wall).insert(
                (done.len() as int, 2 * col + 1),
                Object::Wall,
            )
        } else if line[col] == 'O' {
            before.wide_objects@.insert((done.len() as int, 2 * col), Object::BoxLeft).insert(
                (done.len() as int, 2 * col + 1),
                Object::BoxRight,
            )
        } else {
            before.wide_objects@
        },
        point(after.robot) == if line[col] == '@' {
            (done.len() as int, col)
        } else {
            point(before.robot)
        },
        line[col] != '@' ==> after.robot == before.robot,
        point(after.mapsize) == (done.len() as int, col),
    ensures
        reads(done.push(line.take(col + 1)), after),
{
    let was = done.push(line.take(col));
    let now = done.push(line.take(col + 1));
    let row = done.len() as int;
    assert(now[row] == line.take(col + 1));
    assert(was[row] == line.take(col));
    assert forall|r: int| 0 <= r < row implies #[trigger] now[r] == was[r] by {}
    assert(after.objects@ =~= narrow_of(now)) by {
        assert forall|p: Point| after.objects@.contains_key(p) <==> narrow_of(now).contains_key(
            p,
        ) by {
            if 0 <= p.0 < row {
                assert(now[p.0] == was[p.0]);
            }
        }
        assert forall|p: Point| after.objects@.contains_key(p) implies after.objects@[p]
            == narrow_of(now)[p] by {
            if 0 <= p.0 < row {
                assert(now[p.0] == was[p.0]);
            }
        }
    }
    assert(after.wide_objects@ =~= wide_of(now)) by {
        assert forall|p: Point|
            after.wide_objects@.contains_key(p) <==> wide_of(now).contains_key(p) by {
            if 0 <= p.0 < row {
                assert(now[p.0] == was[p.0]);
            }
        }
        assert forall|p: Point| after.wide_objects@.contains_key(p) implies after.wide_objects@[p]
            == wide_of(now)[p] by {
            if 0 <= p.0 < row {
                assert(now[p.0] == was[p.0]);
            }
        }
    }
    assert(now.drop_last() =~= done);
    assert(was.drop_last() =~= done);
    assert(now.last() == line.take(col + 1));
    assert(was.last() == line.take(col));
    assert(line.take(col + 1).drop_last() =~= line.take(col));
    assert forall|r: int, c: int| 0 <= r < now.len() && 0 <= c < now[r].len() implies is_tile(
        #[trigger] now[r][c],
    ) by {
        if r < row {
            assert(is_tile(was[r][c]));
        } else if c < col {
            assert(is_tile(was[r][c]));
        }
    }
}

/// An empty line more at the end of a map adds nothing to what the map
/// draws.
proof fn lemma_line_more(done: Seq<Seq<char>>, reading: Reading)
    requires
        reads(done, reading),
    ensures
        reads(done.push(Seq::empty()), reading),
{
    let now = done.push(Seq::<char>::empty());
    assert(now.drop_last() =~= done);
    assert forall|r: int| 0 <= r < done.len() implies #[trigger] now[r] == done[r] by {}
    assert(reading.objects@ =~= narrow_of(now)) by {
        assert forall|p: Point| reading.objects@.contains_key(p) <==> narrow_of(now).contains_key(
            p,
        ) by {
            if 0 <= p.0 < done.len() {
                assert(now[p.0] == done[p.0]);
            }
        }
        assert forall|p: Point| reading.objects@.contains_key(p) implies reading.objects@[p]
            == narrow_of(now)[p] by {
            if 0 <= p.0 < done.len() {
                assert(now[p.0] == done[p.0]);
            }
        }
    }
    assert(reading.wide_objects@ =~= wide_of(now)) by {
        assert forall|p: Point|
            reading.wide_objects@.contains_key(p) <==> wide_of(now).contains_key(p) by {
            if 0 <= p.0 < done.len() {
                assert(now[p.0] == done[p.0]);
            }
        }
        assert forall|p: Point| reading.wide_objects@.contains_key(p) implies reading.wide_objects@[p]
            == wide_of(now)[p] by {
            if 0 <= p.0 < done.len() {
                assert(now[p.0] == done[p.0]);
            }
        }
    }
    assert forall|r: int, c: int| 0 <= r < now.len() && 0 <= c < now[r].len() implies is_tile(
        #[trigger] now[r][c],
    ) by {
        assert(is_tile(done[r][c]));
    }
}

/// Reads the map that the first `height` lines of `all` draw, or `None`
/// where one of them holds something else than tiles.
fn read_map(all: &Vec<Vec<char>>, height: usize) -> (reading: Option<Reading>)
    requires
        height <= all@.len(),
        all@.len() <= 0x3fff_ffff,
        forall|i: int| 0 <= i < all@.len() ==> (#[trigger] all@[i])@.len() <= 0x3fff_ffff,
    ensures
        match reading {
            Some(r) => reads(rows(all@).take(height as int), r),
            None => exists|r: int, c: int|
                0 <= r < height && 0 <= c < all@[r]@.len() && !is_tile(#[trigger] all@[r]@[c]),
        },
{
    let mut reading = Reading {
        objects: SparseGrid::new(),
        wide_objects: SparseGrid::new(),
        robot: (0, 0),
        mapsize: (0, 0),
    };
    let mut row: usize = 0;
    proof {
        assert(rows(all@).take(0) =~= Seq::<Seq<char>>::empty());
        assert(reading.objects@ =~= narrow_of(Seq::empty()));
        assert(reading.wide_objects@ =~= wide_of(Seq::empty()));
    }
    while row < height
        invariant
            row <= height <= all@.len(),
            all@.len() <= 0x3fff_ffff,
            forall|i: int| 0 <= i < all@.len() ==> (#[trigger] all@[i])@.len() <= 0x3fff_ffff,
            reads(rows(all@).take(row as int), reading),
        decreases height - row,
    {
        let line = &all[row];
        let ghost done = rows(all@).take(row as int);
        proof {
            lemma_line_more(done, reading);
            assert(line@.take(0) =~= Seq::<char>::empty());
        }
        let mut col: usize = 0;
        while col < line.len()
            invariant
                col <= line.len(),
                row < height <= all@.len(),
                line@ == all@[row as int]@,
                line@.len() <= 0x3fff_ffff,
                row <= 0x3fff_ffff,
                done == rows(all@).take(row as int),
                done.len() == row,
                reads(done.push(line@.take(col as int)), reading),
            decreases line.len() - col,
        {
            let ghost before = reading;
            let ok = read_tile(&mut reading, row, col, line[col]);
            if !ok {
                assert(!is_tile(all@[row as int]@[col as int]));
                return None;
            }
            proof {
                lemma_tile_more(done, line@, col as int, before, reading);
            }
            col += 1;
        }
        proof {
            assert(line@.take(line@.len() as int) =~= line@);
            assert(done.push(line@) =~= rows(all@).take(row + 1));
        }
        row += 1;
    }
    Some(reading)
}

/// Reads the commands that the lines of `all` from the place `from` on
/// hold, or `None` where one of them holds something else than commands.
fn read_commands(all: &Vec<Vec<char>>, from: usize) -> (dirs: Option<Vec<Coordinate>>)
    requires
        from <= all@.len(),
    ensures
        match dirs {
            Some(d) => {
                let commands = flat(rows(all@).skip(from as int));
                &&& d@.len() == commands.len()
                &&& forall|i: int|
                    0 <= i < commands.len() ==> command_of(commands[i]) == Some(#[trigger] d@[i])
            },
            None => exists|i: int|
                0 <= i < flat(rows(all@).skip(from as int)).len() && command_of(
                    #[trigger] flat(rows(all@).skip(from as int))[i],
                ) is None,
        },
{
    let ghost rest = rows(all@).skip(from as int);
    let mut dirs: Vec<Coordinate> = Vec::new();
    let mut row: usize = from;
    proof {
        assert(rest.take(0) =~= Seq::<Seq<char>>::empty());
    }
    while row < all.len()
        invariant
            from <= row <= all.len(),
            rest == rows(all@).skip(from as int),
            dirs@.len() == flat(rest.take(row - from)).len(),
            forall|i: int|
                0 <= i < dirs@.len() ==> command_of(flat(rest.take(row - from))[i]) == Some(
                    #[trigger] dirs@[i],
                ),
        decreases all.len() - row,
    {
        let line = &all[row];
        let ghost done = flat(rest.take(row - from));
        proof {
            assert(rest.take(row - from + 1).drop_last() =~= rest.take(row - from));
            assert(rest.take(row - from + 1).last() == line@);
            assert(line@.take(0) =~= Seq::<char>::empty());
            assert(done + Seq::<char>::empty() =~= done);
        }
        let mut col: usize = 0;
        while col < line.len()
            invariant
                col <= line.len(),
                from <= row < all.len(),
                rest == rows(all@).skip(from as int),
                rest.take(row - from + 1).drop_last() == rest.take(row - from),
                rest.take(row - from + 1).last() == line@,
                done == flat(rest.take(row - from)),
                dirs@.len() == done.len() + col,
                forall|i: int|
                    0 <= i < dirs@.len() ==> command_of((done + line@.take(col as int))[i]) == Some(
                        #[trigger] dirs@[i],
                    ),
            decreases line.len() - col,
        {
            let ch = line[col];
            let dir: Coordinate = if ch == '^' {
                (-1, 0)
            } else if ch == 'v' {
                (1, 0)
            } else if ch == '<' {
                (0, -1)
            } else if ch == '>' {
                (0, 1)
            } else {
                proof {
                    let whole = flat(rest);
                    lemma_flat_prefix(rest, row - from + 1);
                    let upto = flat(rest.take(row - from + 1));
                    assert(upto == done + line@);
                    assert(upto[done.len() + col] == ch);
                    assert(whole[done.len() + col] == ch);
                }
                return None;
            };
            let ghost before = dirs@;
            dirs.push(dir);
            proof {
                let now = done + line@.take(col + 1);
                let was = done + line@.take(col as int);
                assert forall|i: int| 0 <= i < dirs@.len() implies command_of(now[i]) == Some(
                    #[trigger] dirs@[i],
                ) by {
                    if i < before.len() {
                        assert(now[i] == was[i]);
                        assert(dirs@[i] == before[i]);
                    } else {
                        assert(now[i] == ch);
                    }
                }
            }
            col += 1;
        }
        proof {
            assert(line@.take(line@.len() as int) =~= line@);
        }
        row += 1;
    }
    proof {
        assert(rest.take(row - from) =~= rest);
    }
    Some(dirs)
}

/// The characters of the first lines are the first characters of all lines.
proof fn lemma_flat_prefix(lines: Seq<Seq<char>>, n: int)
    requires
        0 <= n <= lines.len(),
    ensures
        flat(lines.take(n)).len() <= flat(lines).len(),
        forall|i: int| 0 <= i < flat(lines.take(n)).len() ==> flat(lines)[i] == flat(lines.take(n))[i],
    decreases lines.len(),
{
    if n == lines.len() {
        assert(lines.take(n) =~= lines);
    } else {
        lemma_flat_prefix(lines.drop_last(), n);
        assert(lines.drop_last().take(n) =~= lines.take(n));
    }
}

impl Warehouse {
    /// Reads a warehouse from its description: the map, an empty line, and
    /// the commands. `None` where the map holds something else than tiles,
    /// or the rest something else than commands.
    pub fn from_str(s: &str) -> (warehouse: Option<Warehouse>)
        requires
            s@.len() <= 0x3fff_ffff,
        ensures
            match warehouse {
                Some(w) => well_formed(lines_of(s@)) && describes(lines_of(s@), w),
                None => !well_formed(lines_of(s@)),
            },
    {
        let text = chars_of(s);
        let all = lines(&text);
        proof {
            lemma_lines_bounded(text@, 0);
            assert forall|i: int| 0 <= i < all@.len() implies (#[trigger] all@[i])@.len()
                <= 0x3fff_ffff by {
                assert(rows(all@)[i] == all@[i]@);
            }
        }
        let height = find_height(&all);
        let ghost map = rows(all@).take(height as int);
        let reading = match read_map(&all, height) {
            Some(reading) => reading,
            None => {
                proof {
                    let (r, c) = choose|r: int, c: int|
                        0 <= r < height && 0 <= c < all@[r]@.len() && !is_tile(
                            #[trigger] all@[r]@[c],
                        );
                    assert(map[r] == all@[r]@);
                    assert(!is_tile(map[r][c]));
                }
                return None;
            },
        };
        let robot_dirs = match read_commands(&all, height) {
            Some(dirs) => dirs,
            None => {
                return None;
            },
        };
        proof {
            if last_tile(map) is Some {
                lemma_last_tile_fits(map);
            }
            if robot_of(map) is Some {
                lemma_robot_fits(map);
            }
        }
        let robot = reading.robot;
        let mapsize = reading.mapsize;
        let wide_robot: Coordinate = (robot.0, 2 * robot.1);
        let wide_mapsize: Coordinate = match last_tile_known(&all, height) {
            true => (mapsize.0, 2 * mapsize.1 + 1),
            false => (0, 0),
        };
        let warehouse = Warehouse {
            mapsize,
            robot,
            robot_dirs,
            objects: reading.objects,
            wide_objects: reading.wide_objects,
            wide_robot,
            wide_mapsize,
        };
        proof {
            let all_lines = lines_of(s@);
            assert(all_lines == rows(all@));
            assert(map_height(all_lines) == height);
            assert(all_lines.take(height as int) == map);
            assert(reads(map, reading));
            let commands = flat(all_lines.skip(height as int));
            assert forall|i: int| 0 <= i < commands.len() implies command_of(
                #[trigger] commands[i],
            ) is Some by {
                assert(command_of(commands[i]) == Some(warehouse.robot_dirs@[i]));
            }
            assert(well_formed(all_lines));
            assert(warehouse.objects@ == narrow_of(map));
            assert(warehouse.wide_objects@ == wide_of(map));
            assert(describes(all_lines, warehouse));
        }
        Some(warehouse)
    }
}

/// A warehouse that was read from a description is ready for its commands:
/// the commands are unit steps, the narrow layout holds walls and boxes, the
/// wide layout holds walls and whole wide boxes, and the robot, where the
/// map draws it, stands on a free tile in both.
pub proof fn lemma_described_is_ready(lines: Seq<Seq<char>>, w: Warehouse)
    requires
        describes(lines, w),
    ensures
        commands_ok(w.robot_dirs@),
        narrow_ok(w.objects@),
        wide_ok(w.wide_objects@),
        robot_of(lines.take(map_height(lines))) is Some ==> !w.objects@.contains_key(
            point(w.robot),
        ) && !w.wide_objects@.contains_key(point(w.wide_robot)),
{
    let map = lines.take(map_height(lines));
    let commands = flat(lines.skip(map_height(lines)));
    assert forall|i: int| 0 <= i < w.robot_dirs@.len() implies is_unit(
        point(#[trigger] w.robot_dirs@[i]),
    ) by {
        assert(command_of(commands[i]) == Some(w.robot_dirs@[i]));
    }
    assert forall|p: Point| #[trigger] w.wide_objects@.contains_key(p) implies match w.wide_objects@[p] {
        Object::Wall => true,
        Object::Box => false,
        Object::BoxLeft => w.wide_objects@.contains_key(east(p)) && w.wide_objects@[east(p)]
            == Object::BoxRight,
        Object::BoxRight => w.wide_objects@.contains_key(west(p)) && w.wide_objects@[west(p)]
            == Object::BoxLeft,
    } by {
        assert(east(p).1 / 2 == p.1 / 2 || west(p).1 / 2 == p.1 / 2);
    }
    if robot_of(map) is Some {
        lemma_robot_is_drawn(map);
    }
}

/// Where the robot of a map stands, the map draws the robot.
proof fn lemma_robot_is_drawn(map: Seq<Seq<char>>)
    requires
        robot_of(map) is Some,
    ensures
        ({
            let r = robot_of(map)->0;
            0 <= r.0 < map.len() && 0 <= r.1 < map[r.0].len() && map[r.0][r.1] == '@'
        }),
    decreases map.len(),
{
    if map.len() > 0 {
        if robot_in_line(map.last()) is Some {
            lemma_robot_in_line_is_drawn(map.last());
        } else {
            lemma_robot_is_drawn(map.drop_last());
        }
    }
}

/// Where the robot of a line stands, the line draws the robot.
proof fn lemma_robot_in_line_is_drawn(line: Seq<char>)
    requires
        robot_in_line(line) is Some,
    ensures
        0 <= robot_in_line(line)->0 < line.len(),
        line[robot_in_line(line)->0] == '@',
    decreases line.len(),
{
    if line.len() > 0 && line.last() != '@' {
        lemma_robot_in_line_is_drawn(line.drop_last());
    }
}

/// Whether the first `height` lines of `all` hold a tile at all.
fn last_tile_known(all: &Vec<Vec<char>>, height: usize) -> (known: bool)
    requires
        height <= all@.len(),
    ensures
        known == last_tile(rows(all@).take(height as int)) is Some,
{
    let mut i: usize = 0;
    assert(rows(all@).take(0) =~= Seq::<Seq<char>>::empty());
    let mut known = false;
    while i < height
        invariant
            i <= height <= all@.len(),
            known == last_tile(rows(all@).take(i as int)) is Some,
        decreases height - i,
    {
        let ghost upto = rows(all@).take(i + 1);
        assert(upto.drop_last() =~= rows(all@).take(i as int));
        assert(upto.last() == all@[i as int]@);
        if all[i].len() > 0 {
            known = true;
        }
        i += 1;
    }
    known
}

/// The last tile of a map lies within the map.
proof fn lemma_last_tile_fits(map: Seq<Seq<char>>)
    requires
        last_tile(map) is Some,
    ensures
        ({
            let t = last_tile(map)->0;
            0 <= t.0 < map.len() && 0 <= t.1 < map[t.0].len()
        }),
    decreases map.len(),
{
    if map.len() > 0 && map.last().len() == 0 {
        lemma_last_tile_fits(map.drop_last());
    }
}

/// The robot of a map stands within the map.
proof fn lemma_robot_fits(map: Seq<Seq<char>>)
    requires
        robot_of(map) is Some,
    ensures
        ({
            let r = robot_of(map)->0;
            0 <= r.0 < map.len() && 0 <= r.1 < map[r.0].len()
        }),
    decreases map.len(),
{
    if map.len() > 0 {
        if robot_in_line(map.last()) is Some {
            lemma_robot_in_line_fits(map.last());
        } else {
            lemma_robot_fits(map.drop_last());
        }
    }
}

/// The robot of a line stands within the line.
proof fn lemma_robot_in_line_fits(line: Seq<char>)
    requires
        robot_in_line(line) is Some,
    ensures
        0 <= robot_in_line(line)->0 < line.len(),
    decreases line.len(),
{
    if line.len() > 0 && line.last() != '@' {
        lemma_robot_in_line_fits(line.drop_last());
    }
}

/// The sum of the GPS coordinates of the objects of the kind `kind` among
/// the first `n` positions of `list`: for each a hundred times its row plus
/// its column.
pub open spec fn gps_of_list(
    objects: Map<Point, Object>,
    kind: Object,
    list: Seq<Coordinate>,
    n: int,
) -> int
    decreases n,
{
    if n <= 0 {
        0
    } else {
        gps_of_list(objects, kind, list, n - 1) + if objects.contains_key(point(list[n - 1]))
            && objects[point(list[n - 1])] == kind {
            list[n - 1].0 * 100 + list[n - 1].1
        } else {
            0
        }
    }
}

/// The sum of the GPS coordinates of all objects of the kind `kind`.
pub open spec fn gps_of(objects: Map<Point, Object>, kind: Object) -> int {
    let list = sorted_points(objects.dom());
    gps_of_list(objects, kind, list, list.len() as int)
}

/// The sum of the GPS coordinates of the objects of the kind `kind`.
pub fn gps_sum(objects: &SparseGrid<Object>, kind: Object) -> (sum: i128)
    ensures
        sum == gps_of(objects@, kind),
{
    let list = objects.coordinates();
    proof {
        let other = sorted_points(objects@.dom());
        assert(strictly_ordered(other) && lists(other, objects@.dom()));
        lemma_sorted_unique(list@, other, objects@.dom());
    }
    let mut sum: i128 = 0;
    let mut i: usize = 0;
    while i < list.len()
        invariant
            i <= list.len(),
            sum == gps_of_list(objects@, kind, list@, i as int),
            -0x100_0000_0000 * i <= sum <= 0x100_0000_0000 * i,
        decreases list.len() - i,
    {
        let at = list[i];
        match objects.get(at) {
            Some(object) => {
                if object == kind {
                    sum = sum + (at.0 as i128 * 100 + at.1 as i128);
                }
            },
            None => {},
        }
        i += 1;
    }
    sum
}

/// The character that draws what stands at `p`.
pub open spec fn tile_of(objects: Map<Point, Object>, robot: Point, p: Point) -> char {
    if objects.contains_key(p) {
        match objects[p] {
            Object::Wall => '#',
            Object::Box => 'O',
            Object::BoxLeft => '[',
            Object::BoxRight => ']',
        }
    } else if p == robot {
        '@'
    } else {
        '.'
    }
}

/// Draws the warehouse from its first position to `size`: a line for each
/// row, in it a character for each tile.
pub fn render(objects: &SparseGrid<Object>, robot: Coordinate, size: Coordinate) -> (picture: Vec<
    Vec<char>,
>)
    ensures
        picture@.len() == if size.0 >= 0 {
            size.0 + 1
        } else {
            0
        },
        forall|r: int|
            0 <= r < picture@.len() ==> (#[trigger] picture@[r])@.len() == if size.1 >= 0 {
                size.1 + 1
            } else {
                0
            },
        forall|r: int, c: int|
            0 <= r < picture@.len() && 0 <= c < picture@[r]@.len() ==> #[trigger] picture@[r]@[c]
                == tile_of(objects@, point(robot), (r, c)),
{
    let mut picture: Vec<Vec<char>> = Vec::new();
    let mut row: i64 = 0;
    while row <= size.0 as i64
        invariant
            0 <= row,
            row <= size.0 + 1 || (size.0 < 0 && row == 0),
            picture@.len() == row,
            forall|r: int|
                0 <= r < picture@.len() ==> (#[trigger] picture@[r])@.len() == if size.1 >= 0 {
                    size.1 + 1
                } else {
                    0
                },
            forall|r: int, c: int|
                0 <= r < picture@.len() && 0 <= c < picture@[r]@.len()
                    ==> #[trigger] picture@[r]@[c] == tile_of(objects@, point(robot), (r, c)),
        decreases size.0 + 1 - row,
    {
        let mut line: Vec<char> = Vec::new();
        let mut col: i64 = 0;
        while col <= size.1 as i64
            invariant
                0 <= col,
                0 <= row <= size.0,
                col <= size.1 + 1 || (size.1 < 0 && col == 0),
                line@.len() == col,
                forall|c: int|
                    0 <= c < line@.len() ==> #[trigger] line@[c] == tile_of(
                        objects@,
                        point(robot),
                        (row as int, c),
                    ),
            decreases size.1 + 1 - col,
        {
            let at: Coordinate = (row as i32, col as i32);
            let tile = match objects.get(at) {
                Some(Object::Box) => 'O',
                Some(Object::Wall) => '#',
                Some(Object::BoxLeft) => '[',
                Some(Object::BoxRight) => ']',
                None => if robot.0 == at.0 && robot.1 == at.1 {
                    '@'
                } else {
                    '.'
                },
            };
            line.push(tile);
            col += 1;
        }
        let ghost before = picture@;
        picture.push(line);
        proof {
            assert forall|r: int, c: int|
                0 <= r < picture@.len() && 0 <= c < picture@[r]@.len()
                    implies #[trigger] picture@[r]@[c] == tile_of(
                objects@,
                point(robot),
                (r, c),
            ) by {
                if r < before.len() {
                    assert(picture@[r] == before[r]);
                }
            }
            assert forall|r: int| 0 <= r < picture@.len() implies (#[trigger] picture@[r])@.len()
                == if size.1 >= 0 {
                size.1 + 1
            } else {
                0
            } by {
                if r < before.len() {
                    assert(picture@[r] == before[r]);
                }
            }
        }
        row += 1;
    }
    picture
}

impl Warehouse {
    /// Whether the warehouse is ready for its commands: the commands are
    /// unit steps, the narrow layout holds walls and boxes only, the wide
    /// layout walls and whole wide boxes only, and the robot of the wide
    /// layout stands on a free tile.
    pub open spec fn ready(&self) -> bool {
        &&& commands_ok(self.robot_dirs@)
        &&& narrow_ok(self.objects@)
        &&& wide_ok(self.wide_objects@)
        &&& !self.wide_objects@.contains_key(point(self.wide_robot))
    }

    /// Says whether the warehouse is ready for its commands.
    pub fn is_ready(&self) -> (ok: bool)
        ensures
            ok == self.ready(),
    {
        let mut i: usize = 0;
        while i < self.robot_dirs.len()
            invariant
                i <= self.robot_dirs.len(),
                forall|k: int| 0 <= k < i ==> is_unit(point(#[trigger] self.robot_dirs@[k])),
            decreases self.robot_dirs.len() - i,
        {
            let d = self.robot_dirs[i];
            let unit = (d.0 == 0 && (d.1 == 1 || d.1 == -1)) || (d.1 == 0 && (d.0 == 1 || d.0
                == -1));
            if !unit {
                return false;
            }
            i += 1;
        }
        let narrow = self.objects.coordinates();
        let mut i: usize = 0;
        while i < narrow.len()
            invariant
                i <= narrow.len(),
                lists(narrow@, self.objects@.dom()),
                forall|k: int|
                    0 <= k < i ==> self.objects@[point(#[trigger] narrow@[k])] == Object::Wall
                        || self.objects@[point(narrow@[k])] == Object::Box,
            decreases narrow.len() - i,
        {
            assert(self.objects@.dom().contains(point(narrow@[i as int])));
            match self.objects.get(narrow[i]) {
                Some(Object::Wall) => {},
                Some(Object::Box) => {},
                _ => {
                    return false;
                },
            }
            i += 1;
        }
        proof {
            assert forall|p: Point| #[trigger] self.objects@.contains_key(p) implies self.objects@[p]
                == Object::Wall || self.objects@[p] == Object::Box by {
                assert(self.objects@.dom().contains(p));
                let k = choose|k: int| 0 <= k < narrow@.len() && point(#[trigger] narrow@[k]) == p;
                assert(self.objects@[point(narrow@[k])] == Object::Wall || self.objects@[point(
                    narrow@[k],
                )] == Object::Box);
            }
        }
        let wide = self.wide_objects.coordinates();
        let mut i: usize = 0;
        proof {
            self.wide_objects.lemma_view();
        }
        while i < wide.len()
            invariant
                i <= wide.len(),
                lists(wide@, self.wide_objects@.dom()),
                forall|p: Point| #[trigger] self.wide_objects@.contains_key(p) ==> in_range(p),
                forall|k: int|
                    0 <= k < i ==> paired(self.wide_objects@, point(#[trigger] wide@[k])),
            decreases wide.len() - i,
        {
            let at = wide[i];
            assert(self.wide_objects@.dom().contains(point(wide@[i as int])));
            let ok = match self.wide_objects.get(at) {
                Some(Object::Wall) => true,
                Some(Object::BoxLeft) => match neighbor(at, (0, 1)) {
                    Some(beside) => match self.wide_objects.get(beside) {
                        Some(Object::BoxRight) => true,
                        _ => false,
                    },
                    None => false,
                },
                Some(Object::BoxRight) => match neighbor(at, (0, -1)) {
                    Some(beside) => match self.wide_objects.get(beside) {
                        Some(Object::BoxLeft) => true,
                        _ => false,
                    },
                    None => false,
                },
                _ => false,
            };
            if !ok {
                assert(!paired(self.wide_objects@, point(at)));
                return false;
            }
            i += 1;
        }
        proof {
            assert forall|p: Point| #[trigger] self.wide_objects@.contains_key(p) implies paired(
                self.wide_objects@,
                p,
            ) by {
                assert(self.wide_objects@.dom().contains(p));
                let k = choose|k: int| 0 <= k < wide@.len() && point(#[trigger] wide@[k]) == p;
                assert(paired(self.wide_objects@, point(wide@[k])));
            }
        }
        !self.wide_objects.contains(self.wide_robot)
    }
}

/// Whether what stands at `p` belongs to a wide layout: a wall, or a half
/// of a wide box with its other half beside it.
pub open spec fn paired(objects: Map<Point, Object>, p: Point) -> bool {
    objects.contains_key(p) && match objects[p] {
        Object::Wall => true,
        Object::Box => false,
        Object::BoxLeft => objects.contains_key(east(p)) && objects[east(p)] == Object::BoxRight,
        Object::BoxRight => objects.contains_key(west(p)) && objects[west(p)] == Object::BoxLeft,
    }
}

} // verus!
