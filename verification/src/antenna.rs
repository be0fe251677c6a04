//! Antennas on a map, and the antinodes that pairs of them create.
//!
//! Two antennas of one frequency create antinodes on the line through them:
//! on each side, at the distance of the two antennas beyond the nearer one,
//! and, with harmonics, at every further multiple of that distance and at
//! the antennas themselves.

use crate::grid::{lists, point, strictly_ordered, CoordSet, Coordinate, Point, SparseGrid};
use crate::text::{cells_of, char_grid, chars_of, lemma_lines_bounded, lines, lines_of, rows};
use vstd::prelude::*;

verus! {

/// The antennas of a city, each with its frequency, and the size of the map
/// as `(rows, columns)`.
pub struct AntennaMap {
    pub antennas: SparseGrid<char>,
    pub size: (i32, i32),
}

/// Whether `p` lies on a map of the size `size`.
pub open spec fn on_map(size: (i32, i32), p: Point) -> bool {
    0 <= p.0 < size.0 && 0 <= p.1 < size.1
}

/// The position `k` times the way from `b` to `a` beyond `a`.
pub open spec fn beyond(a: Point, b: Point, k: int) -> Point {
    (a.0 + k * (a.0 - b.0), a.1 + k * (a.1 - b.1))
}

/// Whether `a` and `b` are two antennas of one frequency.
pub open spec fn resonate(antennas: Map<Point, char>, a: Point, b: Point) -> bool {
    antennas.contains_key(a) && antennas.contains_key(b) && a != b && antennas[a] == antennas[b]
}

/// Whether `p` is an antinode: a position of the map that lies `k` times
/// the distance of two antennas of one frequency beyond one of them. Only
/// `k = 1` counts, unless `harmonics` holds: then every `k` from 0 on
/// counts.
pub open spec fn is_antinode(
    antennas: Map<Point, char>,
    size: (i32, i32),
    harmonics: bool,
    p: Point,
) -> bool {
    on_map(size, p) && exists|a: Point, b: Point, k: int|
        resonate(antennas, a, b) && (#[trigger] beyond(a, b, k)) == p && counts(harmonics, k)
}

/// Whether `k` is a multiple that counts: only 1, or, with `harmonics`,
/// every multiple from 0 on.
pub open spec fn counts(harmonics: bool, k: int) -> bool {
    if harmonics {
        k >= 0
    } else {
        k == 1
    }
}

/// The position `k` times the way from the `ib`-th antenna of `list` to the
/// `ia`-th beyond the latter.
spec fn echo(list: Seq<Coordinate>, ia: int, ib: int, k: int) -> Point {
    beyond(point(list[ia]), point(list[ib]), k)
}

/// Whether `p` is created by a pair of antennas of `list` that comes before
/// the pair `(row, col)`.
spec fn made(
    list: Seq<Coordinate>,
    antennas: Map<Point, char>,
    harmonics: bool,
    row: int,
    col: int,
    p: Point,
) -> bool {
    exists|ia: int, ib: int, k: int|
        0 <= ia < list.len() && 0 <= ib < list.len() && (ia < row || (ia == row && ib < col))
            && resonate(antennas, point(list[ia]), point(list[ib])) && (#[trigger] echo(
            list,
            ia,
            ib,
            k,
        )) == p && counts(harmonics, k)
}

/// What one more pair of antennas adds to what has been made.
proof fn lemma_made_next(
    list: Seq<Coordinate>,
    antennas: Map<Point, char>,
    harmonics: bool,
    row: int,
    col: int,
    p: Point,
)
    requires
        0 <= row < list.len(),
        0 <= col < list.len(),
    ensures
        made(list, antennas, harmonics, row, col + 1, p) <==> made(
            list,
            antennas,
            harmonics,
            row,
            col,
            p,
        ) || (resonate(antennas, point(list[row]), point(list[col])) && exists|k: int|
            (#[trigger] beyond(point(list[row]), point(list[col]), k)) == p && counts(
                harmonics,
                k,
            )),
        col + 1 == list.len() ==> (made(list, antennas, harmonics, row, col + 1, p) <==> made(
            list,
            antennas,
            harmonics,
            row + 1,
            0,
            p,
        )),
{
    if made(list, antennas, harmonics, row, col + 1, p) {
        let (ia, ib, k) = choose|ia: int, ib: int, k: int|
            0 <= ia < list.len() && 0 <= ib < list.len() && (ia < row || (ia == row && ib < col
                + 1)) && resonate(antennas, point(list[ia]), point(list[ib])) && (#[trigger] echo(
                list,
                ia,
                ib,
                k,
            )) == p && counts(harmonics, k);
        assert(echo(list, ia, ib, k) == p);
        if ia == row && ib == col {
            assert(beyond(point(list[row]), point(list[col]), k) == p);
        }
    }
    if made(list, antennas, harmonics, row, col, p) {
        let (ia, ib, k) = choose|ia: int, ib: int, k: int|
            0 <= ia < list.len() && 0 <= ib < list.len() && (ia < row || (ia == row && ib < col))
                && resonate(antennas, point(list[ia]), point(list[ib])) && (#[trigger] echo(
                list,
                ia,
                ib,
                k,
            )) == p && counts(harmonics, k);
        assert(echo(list, ia, ib, k) == p);
    }
    if resonate(antennas, point(list[row]), point(list[col])) && exists|k: int|
        (#[trigger] beyond(point(list[row]), point(list[col]), k)) == p && counts(harmonics, k) {
        let k = choose|k: int|
            (#[trigger] beyond(point(list[row]), point(list[col]), k)) == p && counts(
                harmonics,
                k,
            );
        assert(echo(list, row, col, k) == p);
    }
    if made(list, antennas, harmonics, row + 1, 0, p) {
        let (ia, ib, k) = choose|ia: int, ib: int, k: int|
            0 <= ia < list.len() && 0 <= ib < list.len() && (ia < row + 1 || (ia == row + 1 && ib
                < 0)) && resonate(antennas, point(list[ia]), point(list[ib])) && (
            #[trigger] echo(list, ia, ib, k)) == p && counts(harmonics, k);
        assert(echo(list, ia, ib, k) == p);
    }
}

/// Once every pair has had its turn, what has been made are the antinodes.
proof fn lemma_made_all(
    list: Seq<Coordinate>,
    antennas: Map<Point, char>,
    size: (i32, i32),
    harmonics: bool,
    p: Point,
)
    requires
        lists(list, antennas.dom()),
    ensures
        on_map(size, p) && made(list, antennas, harmonics, list.len() as int, 0, p) <==> is_antinode(
            antennas,
            size,
            harmonics,
            p,
        ),
{
    if made(list, antennas, harmonics, list.len() as int, 0, p) {
        let (ia, ib, k) = choose|ia: int, ib: int, k: int|
            0 <= ia < list.len() && 0 <= ib < list.len() && (ia < list.len() || (ia == list.len()
                && ib < 0)) && resonate(antennas, point(list[ia]), point(list[ib])) && (
            #[trigger] echo(list, ia, ib, k)) == p && counts(harmonics, k);
        assert(beyond(point(list[ia]), point(list[ib]), k) == p);
    }
    if is_antinode(antennas, size, harmonics, p) {
        let (a, b, k) = choose|a: Point, b: Point, k: int|
            resonate(antennas, a, b) && (#[trigger] beyond(a, b, k)) == p && counts(harmonics, k);
        assert(antennas.dom().contains(a));
        assert(antennas.dom().contains(b));
        let ia = choose|ia: int| 0 <= ia < list.len() && point(#[trigger] list[ia]) == a;
        let ib = choose|ib: int| 0 <= ib < list.len() && point(#[trigger] list[ib]) == b;
        assert(echo(list, ia, ib, k) == p);
    }
}

impl AntennaMap {
    /// Whether every antenna stands on the map.
    pub open spec fn wf(&self) -> bool {
        forall|p: Point| #[trigger] self.antennas@.contains_key(p) ==> on_map(self.size, p)
    }

    /// Whether `coords` lies on the map.
    pub fn in_bounds(&self, coords: &Coordinate) -> (b: bool)
        ensures
            b == on_map(self.size, point(*coords)),
    {
        coords.0 >= 0 && coords.0 < self.size.0 && coords.1 >= 0 && coords.1 < self.size.1
    }

    /// The antinodes of the map. With `nearest_only` an antinode lies at the
    /// distance of two antennas of one frequency beyond one of them; else it
    /// may lie at any multiple of that distance, or at the antenna itself.
    pub fn get_antidotes(&self, nearest_only: bool) -> (found: CoordSet)
        requires
            self.wf(),
        ensures
            forall|p: Point| #[trigger]
                found@.contains(p) <==> is_antinode(self.antennas@, self.size, !nearest_only, p),
    {
        let list = self.antennas.coordinates();
        let mut found = CoordSet::new();
        let ghost antennas = self.antennas@;
        let ghost harmonics = !nearest_only;
        let mut i: usize = 0;
        proof {
            assert forall|p: Point| !made(list@, antennas, harmonics, 0, 0, p) by {}
        }
        while i < list.len()
            invariant
                i <= list.len(),
                self.wf(),
                antennas == self.antennas@,
                harmonics == !nearest_only,
                lists(list@, antennas.dom()),
                strictly_ordered(list@),
                forall|p: Point| #[trigger]
                    found@.contains(p) <==> on_map(self.size, p) && made(
                        list@,
                        antennas,
                        harmonics,
                        i as int,
                        0,
                        p,
                    ),
            decreases list.len() - i,
        {
            let a = list[i];
            let label = self.antennas.get(a);
            let mut j: usize = 0;
            while j < list.len()
                invariant
                    j <= list.len(),
                    i < list.len(),
                    a == list@[i as int],
                    self.wf(),
                    antennas == self.antennas@,
                    harmonics == !nearest_only,
                    label == Some(antennas[point(a)]),
                    lists(list@, antennas.dom()),
                    strictly_ordered(list@),
                    forall|p: Point| #[trigger]
                        found@.contains(p) <==> on_map(self.size, p) && made(
                            list@,
                            antennas,
                            harmonics,
                            i as int,
                            j as int,
                            p,
                        ),
                decreases list.len() - j,
            {
                let b = list[j];
                let ghost before = found@;
                assert(antennas.dom().contains(point(list@[i as int])));
                assert(antennas.dom().contains(point(list@[j as int])));
                if i != j && self.antennas.get(b) == label {
                    assert(a != b) by {
                        if i < j {
                            assert(crate::grid::key_of(point(list@[i as int])) < crate::grid::key_of(
                                point(list@[j as int]),
                            ));
                        } else {
                            assert(crate::grid::key_of(point(list@[j as int])) < crate::grid::key_of(
                                point(list@[i as int]),
                            ));
                        }
                    }
                    assert(resonate(antennas, point(a), point(b)));
                    self.antinodes_beyond(a, b, nearest_only, &mut found);
                } else {
                    assert(!resonate(antennas, point(a), point(b)));
                }
                proof {
                    assert forall|p: Point| #[trigger]
                        found@.contains(p) <==> on_map(self.size, p) && made(
                            list@,
                            antennas,
                            harmonics,
                            i as int,
                            j + 1,
                            p,
                        ) by {
                        lemma_made_next(list@, antennas, harmonics, i as int, j as int, p);
                        assert(before.contains(p) <==> on_map(self.size, p) && made(
                            list@,
                            antennas,
                            harmonics,
                            i as int,
                            j as int,
                            p,
                        ));
                    }
                }
                j += 1;
            }
            proof {
                assert forall|p: Point| #[trigger]
                    found@.contains(p) <==> on_map(self.size, p) && made(
                        list@,
                        antennas,
                        harmonics,
                        i + 1,
                        0,
                        p,
                    ) by {
                    lemma_made_next(list@, antennas, harmonics, i as int, list@.len() - 1, p);
                }
            }
            i += 1;
        }
        proof {
            assert forall|p: Point| #[trigger]
                found@.contains(p) <==> is_antinode(self.antennas@, self.size, !nearest_only, p) by {
                lemma_made_all(list@, antennas, self.size, harmonics, p);
            }
        }
        found
    }

    /// Puts into `found` the antinodes that the antenna at `a` creates with
    /// the antenna at `b`, on the side of `a`.
    fn antinodes_beyond(&self, a: Coordinate, b: Coordinate, nearest_only: bool, found: &mut CoordSet)
        requires
            on_map(self.size, point(a)),
            on_map(self.size, point(b)),
            a != b,
        ensures
            forall|p: Point|
                #[trigger] final(found)@.contains(p) <==> old(found)@.contains(p) || (on_map(self.size, p)
                    && exists|k: int|
                    (#[trigger] beyond(point(a), point(b), k)) == p && (if nearest_only {
                        k == 1
                    } else {
                        k >= 0
                    })),
    {
        let ghost start = found@;
        let ghost pa = point(a);
        let ghost pb = point(b);
        let row_dist: i64 = a.0 as i64 - b.0 as i64;
        let col_dist: i64 = a.1 as i64 - b.1 as i64;
        let mut row: i64 = a.0 as i64 + row_dist;
        let mut col: i64 = a.1 as i64 + col_dist;
        assert(beyond(pa, pb, 1) == (row as int, col as int)) by (nonlinear_arith)
            requires
                row == pa.0 + (pa.0 - pb.0),
                col == pa.1 + (pa.1 - pb.1),
        ;
        assert(beyond(pa, pb, 0) == pa) by (nonlinear_arith);
        if nearest_only {
            if row >= 0 && row < self.size.0 as i64 && col >= 0 && col < self.size.1 as i64 {
                found.insert((row as i32, col as i32));
            }
            return ;
        }
        found.insert(a);
        let mut iteration: i64 = 1;
        while row >= 0 && row < self.size.0 as i64 && col >= 0 && col < self.size.1 as i64
            invariant
                1 <= iteration <= 0x8000_0000,
                row_dist == pa.0 - pb.0,
                col_dist == pa.1 - pb.1,
                pa != pb,
                on_map(self.size, pa),
                on_map(self.size, pb),
                beyond(pa, pb, iteration as int) == (row as int, col as int),
                on_map(self.size, (row - row_dist, col - col_dist)),
                forall|p: Point|
                    #[trigger] found@.contains(p) <==> start.contains(p) || exists|k: int| (#[trigger] beyond(pa, pb, k)) == p && 0 <= k < iteration,
                forall|k: int| 0 <= k < iteration ==> on_map(self.size, #[trigger] beyond(pa, pb, k)),
            decreases 0x8000_0000 - iteration,
        {
            let ghost here = beyond(pa, pb, iteration as int);
            let ghost before = found@;
            found.insert((row as i32, col as i32));
            proof {
                lemma_inside_is_near(pa, pb, iteration as int, self.size);
                assert(beyond(pa, pb, iteration + 1) == (row + row_dist, col + col_dist))
                    by (nonlinear_arith)
                    requires
                        beyond(pa, pb, iteration as int) == (row as int, col as int),
                        row_dist == pa.0 - pb.0,
                        col_dist == pa.1 - pb.1,
                ;
                assert forall|p: Point|
                    #[trigger] found@.contains(p) <==> start.contains(p) || exists|k: int|
                        (#[trigger] beyond(pa, pb, k)) == p && 0 <= k < iteration + 1 by {
                    if found@.contains(p) && !start.contains(p) {
                        if before.contains(p) {
                            let k = choose|k: int|
                                (#[trigger] beyond(pa, pb, k)) == p && 0 <= k < iteration;
                            assert(beyond(pa, pb, k) == p && 0 <= k < iteration + 1);
                        } else {
                            assert(p == here);
                            assert(beyond(pa, pb, iteration as int) == p && 0 <= iteration
                                < iteration + 1);
                        }
                        assert(exists|k: int|
                            (#[trigger] beyond(pa, pb, k)) == p && 0 <= k < iteration + 1);
                    }
                    if exists|k: int| (#[trigger] beyond(pa, pb, k)) == p && 0 <= k < iteration + 1 {
                        let k = choose|k: int|
                            (#[trigger] beyond(pa, pb, k)) == p && 0 <= k < iteration + 1;
                        if k < iteration {
                            assert(beyond(pa, pb, k) == p && 0 <= k < iteration);
                            assert(before.contains(p));
                        } else {
                            assert(p == here);
                        }
                        assert(found@.contains(p));
                    }
                    if start.contains(p) {
                        assert(before.contains(p));
                    }
                }
            }
            row = row + row_dist;
            col = col + col_dist;
            iteration = iteration + 1;
        }
        proof {
            assert forall|p: Point|
                #[trigger] found@.contains(p) <==> start.contains(p) || (on_map(self.size, p) && exists|k: int| (#[trigger] beyond(pa, pb, k)) == p && k >= 0) by {
                if found@.contains(p) && !start.contains(p) {
                    let k = choose|k: int| (#[trigger] beyond(pa, pb, k)) == p && 0 <= k < iteration;
                    assert(beyond(pa, pb, k) == p && k >= 0);
                    assert(on_map(self.size, beyond(pa, pb, k)));
                }
                if on_map(self.size, p) && exists|k: int| (#[trigger] beyond(pa, pb, k)) == p && k >= 0 {
                    let k = choose|k: int| (#[trigger] beyond(pa, pb, k)) == p && k >= 0;
                    if k >= iteration {
                        lemma_outside_stays(pa, pb, iteration as int, k, self.size);
                    }
                    assert(beyond(pa, pb, k) == p && 0 <= k < iteration);
                }
            }
        }
    }
}

/// A position of the map that lies `k` times the distance of two antennas
/// beyond an antenna on the map has `k` below the size of the map.
proof fn lemma_inside_is_near(a: Point, b: Point, k: int, size: (i32, i32))
    requires
        on_map(size, a),
        on_map(size, beyond(a, b, k)),
        a != b,
        k >= 1,
    ensures
        k < 0x8000_0000,
{
    let dr = a.0 - b.0;
    let dc = a.1 - b.1;
    if dr != 0 {
        assert(k * dr >= k || k * dr <= -k) by (nonlinear_arith)
            requires
                k >= 1,
                dr != 0,
        ;
    } else {
        assert(k * dc >= k || k * dc <= -k) by (nonlinear_arith)
            requires
                k >= 1,
                dc != 0,
        ;
    }
}

/// Beyond a position outside the map, the line through two antennas on the
/// map stays outside.
proof fn lemma_outside_stays(a: Point, b: Point, k: int, further: int, size: (i32, i32))
    requires
        on_map(size, a),
        !on_map(size, beyond(a, b, k)),
        1 <= k <= further,
    ensures
        !on_map(size, beyond(a, b, further)),
{
    let dr = a.0 - b.0;
    let dc = a.1 - b.1;
    assert((dr >= 0 ==> further * dr >= k * dr) && (dr <= 0 ==> further * dr <= k * dr))
        by (nonlinear_arith)
        requires
            1 <= k <= further,
    ;
    assert((dc >= 0 ==> further * dc >= k * dc) && (dc <= 0 ==> further * dc <= k * dc))
        by (nonlinear_arith)
        requires
            1 <= k <= further,
    ;
    assert((dr >= 0 ==> k * dr >= 0) && (dr <= 0 ==> k * dr <= 0)) by (nonlinear_arith)
        requires
            1 <= k,
    ;
    assert((dc >= 0 ==> k * dc >= 0) && (dc <= 0 ==> k * dc <= 0)) by (nonlinear_arith)
        requires
            1 <= k,
    ;
}

/// The length of the first of `lines` that is not empty, or 0 where all are
/// empty.
pub open spec fn first_width(lines: Seq<Seq<char>>) -> int
    decreases lines.len(),
{
    if lines.len() == 0 {
        0
    } else if first_width(lines.drop_last()) > 0 {
        first_width(lines.drop_last())
    } else {
        lines.last().len() as int
    }
}

/// The antennas that the characters `cells` draw: one for each character
/// but the dot.
pub open spec fn antennas_of(cells: Map<Point, char>) -> Map<Point, char> {
    Map::new(|p: Point| cells.contains_key(p) && cells[p] != '.', |p: Point| cells[p])
}

/// Reads the antennas from the map of the city, one line for each row. The
/// map has as many rows as there are lines, and as many columns as the
/// first line that is not empty has characters.
pub fn get_map(input: &str) -> (map: AntennaMap)
    requires
        input@.len() <= i32::MAX,
    ensures
        map.antennas@ == antennas_of(cells_of(lines_of(input@))),
        map.size.0 == lines_of(input@).len(),
        map.size.1 == first_width(lines_of(input@)),
{
    let text = chars_of(input);
    let all = lines(&text);
    proof {
        lemma_lines_bounded(text@, 0);
    }
    let mut cols: usize = 0;
    let mut i: usize = 0;
    assert(rows(all@).take(0) =~= Seq::<Seq<char>>::empty());
    while i < all.len()
        invariant
            i <= all.len(),
            cols == first_width(rows(all@).take(i as int)),
            forall|k: int| 0 <= k < all@.len() ==> (#[trigger] rows(all@)[k]).len() <= i32::MAX,
            cols <= i32::MAX,
        decreases all.len() - i,
    {
        proof {
            assert(rows(all@).take(i + 1).drop_last() =~= rows(all@).take(i as int));
            assert(rows(all@).take(i + 1).last() == all@[i as int]@);
            assert(rows(all@)[i as int] == all@[i as int]@);
        }
        if cols == 0 {
            cols = all[i].len();
        }
        i += 1;
    }
    assert(rows(all@).take(i as int) =~= rows(all@));
    let cells = char_grid(input);
    let list = cells.coordinates();
    let mut antennas: SparseGrid<char> = SparseGrid::new();
    let mut k: usize = 0;
    while k < list.len()
        invariant
            k <= list.len(),
            lists(list@, cells@.dom()),
            forall|p: Point|
                antennas@.contains_key(p) <==> crate::grid::listed_before(list@, k as int, p)
                    && cells@[p] != '.',
            forall|p: Point| #[trigger] antennas@.contains_key(p) ==> antennas@[p] == cells@[p],
        decreases list.len() - k,
    {
        let at = list[k];
        assert(cells@.dom().contains(point(list@[k as int])));
        match cells.get(at) {
            Some(ch) => {
                if ch != '.' {
                    antennas.insert(at, ch);
                }
            },
            None => {},
        }
        proof {
            assert forall|p: Point|
                antennas@.contains_key(p) <==> crate::grid::listed_before(list@, k + 1, p)
                    && cells@[p] != '.' by {
                if crate::grid::listed_before(list@, k + 1, p) {
                    let j = choose|j: int| 0 <= j < k + 1 && point(#[trigger] list@[j]) == p;
                    if j < k {
                        assert(crate::grid::listed_before(list@, k as int, p));
                    }
                }
                if crate::grid::listed_before(list@, k as int, p) {
                    let j = choose|j: int| 0 <= j < k && point(#[trigger] list@[j]) == p;
                    assert(crate::grid::listed_before(list@, k + 1, p));
                }
                if p == point(at) {
                    assert(point(list@[k as int]) == p);
                    assert(crate::grid::listed_before(list@, k + 1, p));
                }
            }
        }
        k += 1;
    }
    proof {
        assert(antennas@ =~= antennas_of(cells@)) by {
            assert forall|p: Point|
                antennas@.contains_key(p) <==> antennas_of(cells@).contains_key(p) by {
                if cells@.contains_key(p) {
                    assert(cells@.dom().contains(p));
                    let j = choose|j: int| 0 <= j < list@.len() && point(#[trigger] list@[j]) == p;
                    assert(crate::grid::listed_before(list@, k as int, p));
                }
                if crate::grid::listed_before(list@, k as int, p) {
                    let j = choose|j: int| 0 <= j < k && point(#[trigger] list@[j]) == p;
                    assert(cells@.dom().contains(point(list@[j])));
                }
            }
        }
    }
    AntennaMap { antennas, size: (all.len() as i32, cols as i32) }
}

impl AntennaMap {
    /// Says whether every antenna stands on the map.
    pub fn is_wf(&self) -> (ok: bool)
        ensures
            ok == self.wf(),
    {
        let list = self.antennas.coordinates();
        let mut i: usize = 0;
        while i < list.len()
            invariant
                i <= list.len(),
                lists(list@, self.antennas@.dom()),
                forall|k: int| 0 <= k < i ==> on_map(self.size, point(#[trigger] list@[k])),
            decreases list.len() - i,
        {
            if !self.in_bounds(&list[i]) {
                assert(self.antennas@.dom().contains(point(list@[i as int])));
                return false;
            }
            i += 1;
        }
        proof {
            assert forall|p: Point| #[trigger] self.antennas@.contains_key(p) implies on_map(
                self.size,
                p,
            ) by {
                assert(self.antennas@.dom().contains(p));
                let k = choose|k: int| 0 <= k < list@.len() && point(#[trigger] list@[k]) == p;
                assert(on_map(self.size, point(list@[k])));
            }
        }
        true
    }
}

} // verus!
