//! A word search: where a word stands in a grid of letters, in any of the
//! eight directions.

use crate::grid::{
    in_range, key_of, lists, point, strictly_ordered, Coordinate, Point, SparseGrid,
};
use crate::text::{cells_of, char_grid, chars_of, lines_of};
use vstd::prelude::*;

verus! {

/// The eight directions in which a word can be read: down, up, left, right,
/// and the four diagonals.
pub open spec fn moves() -> Seq<Point> {
    seq![
        (1int, 0int),
        (-1int, 0int),
        (0int, -1int),
        (0int, 1int),
        (-1int, -1int),
        (1int, -1int),
        (-1int, 1int),
        (1int, 1int),
    ]
}

/// The `k`-th of the eight directions.
pub fn move_at(k: usize) -> (d: Coordinate)
    requires
        k < 8,
    ensures
        point(d) == moves()[k as int],
        -1 <= d.0 <= 1,
        -1 <= d.1 <= 1,
{
    if k == 0 {
        (1, 0)
    } else if k == 1 {
        (-1, 0)
    } else if k == 2 {
        (0, -1)
    } else if k == 3 {
        (0, 1)
    } else if k == 4 {
        (-1, -1)
    } else if k == 5 {
        (1, -1)
    } else if k == 6 {
        (-1, 1)
    } else {
        (1, 1)
    }
}

/// The position `i` steps from `start` in the direction `d`.
pub open spec fn place(start: Point, d: Point, i: int) -> Point {
    (start.0 + d.0 * i, start.1 + d.1 * i)
}

/// The `n` positions from `start` on in the direction `d`.
pub open spec fn line_of(start: Point, d: Point, n: nat) -> Seq<Point> {
    Seq::new(n, |i: int| place(start, d, i))
}

/// The positions of a list of coordinates.
pub open spec fn points(cells: Seq<Coordinate>) -> Seq<Point> {
    Seq::new(cells.len(), |i: int| point(cells[i]))
}

/// Whether the letters of `word` stand in `grid` from `start` on in the
/// direction `d`.
pub open spec fn spells(grid: Map<Point, char>, word: Seq<char>, start: Point, d: Point) -> bool {
    forall|i: int|
        0 <= i < word.len() ==> grid.contains_key(#[trigger] place(start, d, i)) && grid[place(
            start,
            d,
            i,
        )] == word[i]
}

/// Whether `cells` is an occurrence of `word` in `grid`: the positions of
/// its letters, one after the other in one of the eight directions.
pub open spec fn is_occurrence(grid: Map<Point, char>, word: Seq<char>, cells: Seq<Coordinate>) -> bool {
    word.len() > 0 && cells.len() == word.len() && exists|k: int|
        0 <= k < 8 && spells(grid, word, point(cells[0]), #[trigger] moves()[k]) && points(cells)
            == line_of(point(cells[0]), moves()[k], word.len())
}

/// What the list of occurrences holds while the grid is searched: `tags`
/// names for each entry the lead and the direction in which it was found,
/// and the tags rise.
spec fn tagged(
    grid: Map<Point, char>,
    word: Seq<char>,
    leads: Seq<Coordinate>,
    found: Seq<Vec<Coordinate>>,
    tags: Seq<(int, int)>,
    lead: int,
    dir: int,
) -> bool {
    &&& tags.len() == found.len()
    &&& forall|k: int|
        0 <= k < tags.len() ==> {
            let tag = #[trigger] tags[k];
            &&& 0 <= tag.0 < leads.len()
            &&& 0 <= tag.1 < 8
            &&& (word.len() == 1 ==> tag.1 == 0)
            &&& (tag.0 < lead || (tag.0 == lead && tag.1 < dir))
            &&& spells(grid, word, point(leads[tag.0]), moves()[tag.1])
            &&& found[k]@.len() == word.len()
            &&& points(found[k]@) == line_of(point(leads[tag.0]), moves()[tag.1], word.len())
        }
    &&& forall|j: int, k: int|
        0 <= j < k < tags.len() ==> (#[trigger] tags[j]).0 < (#[trigger] tags[k]).0 || (tags[j].0
            == tags[k].0 && tags[j].1 < tags[k].1)
}

/// Whether the word read from the lead `a` in the direction `d` has been
/// listed, if it stands there.
spec fn listed(
    grid: Map<Point, char>,
    word: Seq<char>,
    leads: Seq<Coordinate>,
    found: Seq<Vec<Coordinate>>,
    a: int,
    d: int,
) -> bool {
    spells(grid, word, point(leads[a]), moves()[d]) ==> exists|k: int|
        0 <= k < found.len() && points((#[trigger] found[k])@) == line_of(
            point(leads[a]),
            moves()[d],
            word.len(),
        )
}

/// Lists that hold the same positions are the same.
proof fn lemma_points_decide(a: Seq<Coordinate>, b: Seq<Coordinate>)
    requires
        points(a) == points(b),
    ensures
        a == b,
{
    assert(a.len() == points(a).len());
    assert(b.len() == points(b).len());
    assert forall|i: int| 0 <= i < a.len() implies a[i] == b[i] by {
        assert(points(a)[i] == point(a[i]));
        assert(points(b)[i] == point(b[i]));
    }
    assert(a =~= b);
}

/// Reads `word` in `map` from `lead` on in the direction `d`: the positions
/// of its letters where it stands there.
fn read_word(map: &SparseGrid<char>, word: &Vec<char>, lead: Coordinate, d: Coordinate) -> (cells:
    Option<Vec<Coordinate>>)
    requires
        word@.len() > 0,
        -1 <= d.0 <= 1,
        -1 <= d.1 <= 1,
        map@.contains_key(point(lead)),
        map@[point(lead)] == word@[0],
    ensures
        cells is Some <==> spells(map@, word@, point(lead), point(d)),
        cells matches Some(c) ==> c@.len() == word@.len() && points(c@) == line_of(
            point(lead),
            point(d),
            word@.len(),
        ),
{
    let ghost s = point(lead);
    let ghost dd = point(d);
    let mut cells: Vec<Coordinate> = Vec::new();
    cells.push(lead);
    let mut row: i64 = lead.0 as i64;
    let mut col: i64 = lead.1 as i64;
    let mut i: usize = 1;
    proof {
        map.lemma_view();
        assert(place(s, dd, 0) == s) by (nonlinear_arith)
            requires
                place(s, dd, 0) == (s.0 + dd.0 * 0, s.1 + dd.1 * 0),
        ;
        assert(points(cells@) =~= line_of(s, dd, 1));
    }
    while i < word.len()
        invariant
            1 <= i <= word.len(),
            s == point(lead),
            dd == point(d),
            -1 <= d.0 <= 1,
            -1 <= d.1 <= 1,
            forall|p: Point| #[trigger] map@.contains_key(p) ==> in_range(p),
            (row as int, col as int) == place(s, dd, i - 1),
            in_range((row as int, col as int)),
            cells@.len() == i,
            points(cells@) == line_of(s, dd, i as nat),
            forall|j: int|
                0 <= j < i ==> map@.contains_key(#[trigger] place(s, dd, j)) && map@[place(
                    s,
                    dd,
                    j,
                )] == word@[j],
        decreases word.len() - i,
    {
        row = row + d.0 as i64;
        col = col + d.1 as i64;
        proof {
            assert(place(s, dd, i as int) == (row as int, col as int)) by (nonlinear_arith)
                requires
                    (row - dd.0, col - dd.1) == place(s, dd, i - 1),
                    place(s, dd, i - 1) == (s.0 + dd.0 * (i - 1), s.1 + dd.1 * (i - 1)),
                    place(s, dd, i as int) == (s.0 + dd.0 * i, s.1 + dd.1 * i),
            ;
        }
        if row < i32::MIN as i64 || row > i32::MAX as i64 || col < i32::MIN as i64 || col
            > i32::MAX as i64 {
            assert(!map@.contains_key(place(s, dd, i as int)));
            return None;
        }
        let cell: Coordinate = (row as i32, col as i32);
        match map.get(cell) {
            Some(ch) => {
                if ch != word[i] {
                    assert(map@[place(s, dd, i as int)] != word@[i as int]);
                    return None;
                }
            },
            None => {
                assert(!map@.contains_key(place(s, dd, i as int)));
                return None;
            },
        }
        let ghost before = cells@;
        cells.push(cell);
        proof {
            assert(points(cells@) =~= line_of(s, dd, (i + 1) as nat)) by {
                assert forall|j: int| 0 <= j < i + 1 implies points(cells@)[j] == line_of(
                    s,
                    dd,
                    (i + 1) as nat,
                )[j] by {
                    if j < i {
                        assert(points(before)[j] == line_of(s, dd, i as nat)[j]);
                    }
                }
            }
        }
        i += 1;
    }
    Some(cells)
}

/// Two lines that begin at different positions, or go different ways for
/// at least two positions, differ.
proof fn lemma_lines_differ(s1: Point, k1: int, s2: Point, k2: int, n: nat)
    requires
        0 <= k1 < 8,
        0 <= k2 < 8,
        n >= 1,
        s1 != s2 || (k1 != k2 && n >= 2),
    ensures
        line_of(s1, moves()[k1], n) != line_of(s2, moves()[k2], n),
{
    let a = line_of(s1, moves()[k1], n);
    let b = line_of(s2, moves()[k2], n);
    assert(a[0] == place(s1, moves()[k1], 0));
    assert(b[0] == place(s2, moves()[k2], 0));
    assert(place(s1, moves()[k1], 0) == s1) by (nonlinear_arith)
        requires
            place(s1, moves()[k1], 0) == (s1.0 + moves()[k1].0 * 0, s1.1 + moves()[k1].1 * 0),
    ;
    assert(place(s2, moves()[k2], 0) == s2) by (nonlinear_arith)
        requires
            place(s2, moves()[k2], 0) == (s2.0 + moves()[k2].0 * 0, s2.1 + moves()[k2].1 * 0),
    ;
    if s1 == s2 {
        assert(a[1] == place(s1, moves()[k1], 1));
        assert(b[1] == place(s2, moves()[k2], 1));
        assert(a[1] != b[1]);
    }
}

/// The occurrences of `search_word` in the grid of letters `input`: for
/// each the positions of its letters. Each occurrence is listed once.
pub fn find_occurances(input: String, search_word: &str) -> (found: Vec<Vec<Coordinate>>)
    requires
        input@.len() <= i32::MAX,
    ensures
        forall|k: int|
            0 <= k < found@.len() ==> is_occurrence(
                cells_of(lines_of(input@)),
                search_word@,
                (#[trigger] found@[k])@,
            ),
        forall|cells: Seq<Coordinate>| #[trigger]
            is_occurrence(cells_of(lines_of(input@)), search_word@, cells) ==> exists|k: int|
                0 <= k < found@.len() && (#[trigger] found@[k])@ == cells,
        forall|j: int, k: int|
            0 <= j < k < found@.len() ==> (#[trigger] found@[j])@ != (#[trigger] found@[k])@,
{
    let map = char_grid(input.as_str());
    let word = chars_of(search_word);
    let mut found: Vec<Vec<Coordinate>> = Vec::new();
    if word.len() == 0 {
        return found;
    }
    let ghost grid = map@;
    let ghost w = word@;
    let leads = map.coordinates();
    let ghost mut tags: Seq<(int, int)> = Seq::empty();
    let dirs: usize = if word.len() == 1 {
        1
    } else {
        8
    };
    let mut a: usize = 0;
    while a < leads.len()
        invariant
            a <= leads.len(),
            grid == map@,
            w == word@,
            w.len() > 0,
            dirs == if w.len() == 1 { 1usize } else { 8usize },
            lists(leads@, grid.dom()),
            strictly_ordered(leads@),
            tagged(grid, w, leads@, found@, tags, a as int, 0),
            forall|x: int, d: int| 0 <= x < a && 0 <= d < 8 ==> #[trigger] listed(grid, w, leads@, found@, x, d),
        decreases leads.len() - a,
    {
        let lead = leads[a];
        assert(grid.dom().contains(point(leads@[a as int])));
        let mut d: usize = 0;
        if map.get(lead) == Some(word[0]) {
            while d < dirs
                invariant
                    d <= dirs,
                    a < leads.len(),
                    lead == leads@[a as int],
                    grid == map@,
                    w == word@,
                    w.len() > 0,
                    dirs == if w.len() == 1 { 1usize } else { 8usize },
                    grid.contains_key(point(lead)),
                    grid[point(lead)] == w[0],
                    tagged(grid, w, leads@, found@, tags, a as int, d as int),
                    forall|x: int, e: int|
                        0 <= x < a && 0 <= e < 8 ==> #[trigger] listed(grid, w, leads@, found@, x, e),
                    forall|e: int| 0 <= e < d ==> #[trigger] listed(grid, w, leads@, found@, a as int, e),
                decreases dirs - d,
            {
                let ghost before = found@;
                match read_word(&map, &word, lead, move_at(d)) {
                    Some(cells) => {
                        found.push(cells);
                        proof {
                            let old_tags = tags;
                            tags = tags.push((a as int, d as int));
                            assert forall|k: int| 0 <= k < tags.len() implies {
                                let tag = #[trigger] tags[k];
                                &&& found@[k]@.len() == w.len()
                                &&& points(found@[k]@) == line_of(
                                    point(leads@[tag.0]),
                                    moves()[tag.1],
                                    w.len(),
                                )
                            } by {
                                if k < before.len() {
                                    assert(found@[k] == before[k]);
                                    assert(tags[k] == old_tags[k]);
                                } else {
                                    assert(found@[k] == cells);
                                    assert(tags[k] == (a as int, d as int));
                                }
                            }
                        }
                    },
                    None => {},
                }
                proof {
                    assert forall|x: int, e: int| 0 <= x < a && 0 <= e < 8 implies #[trigger] listed(
                        grid,
                        w,
                        leads@,
                        found@,
                        x,
                        e,
                    ) by {
                        assert(listed(grid, w, leads@, before, x, e));
                        if spells(grid, w, point(leads@[x]), moves()[e]) {
                            let k = choose|k: int|
                                0 <= k < before.len() && points((#[trigger] before[k])@) == line_of(
                                    point(leads@[x]),
                                    moves()[e],
                                    w.len(),
                                );
                            assert(found@[k] == before[k]);
                        }
                    }
                    assert forall|e: int| 0 <= e < d + 1 implies #[trigger] listed(
                        grid,
                        w,
                        leads@,
                        found@,
                        a as int,
                        e,
                    ) by {
                        if e < d {
                            assert(listed(grid, w, leads@, before, a as int, e));
                            if spells(grid, w, point(leads@[a as int]), moves()[e]) {
                                let k = choose|k: int|
                                    0 <= k < before.len() && points((#[trigger] before[k])@)
                                        == line_of(point(leads@[a as int]), moves()[e], w.len());
                                assert(found@[k] == before[k]);
                            }
                        } else if spells(grid, w, point(leads@[a as int]), moves()[e]) {
                            assert(points(found@[found@.len() - 1]@) == line_of(
                                point(leads@[a as int]),
                                moves()[e],
                                w.len(),
                            ));
                        }
                    }
                }
                d += 1;
            }
            proof {
                // a word of one letter reads the same in every direction
                assert forall|e: int| 0 <= e < 8 implies #[trigger] listed(
                    grid,
                    w,
                    leads@,
                    found@,
                    a as int,
                    e,
                ) by {
                    if e >= d {
                        let s = point(leads@[a as int]);
                        assert(w.len() == 1);
                        assert(listed(grid, w, leads@, found@, a as int, 0));
                        assert(line_of(s, moves()[e], 1) =~= line_of(s, moves()[0], 1)) by {
                            assert(place(s, moves()[e], 0) == place(s, moves()[0], 0))
                                by (nonlinear_arith)
                                requires
                                    place(s, moves()[e], 0) == (s.0 + moves()[e].0 * 0, s.1
                                        + moves()[e].1 * 0),
                                    place(s, moves()[0], 0) == (s.0 + moves()[0].0 * 0, s.1
                                        + moves()[0].1 * 0),
                            ;
                        }
                        if spells(grid, w, s, moves()[e]) {
                            assert(grid.contains_key(place(s, moves()[0], 0)));
                            assert(spells(grid, w, s, moves()[0])) by {
                                assert forall|i: int| 0 <= i < w.len() implies grid.contains_key(
                                    #[trigger] place(s, moves()[0], i),
                                ) && grid[place(s, moves()[0], i)] == w[i] by {
                                    assert(grid.contains_key(place(s, moves()[e], 0)));
                                }
                            }
                        }
                    }
                }
            }
        } else {
            proof {
                assert forall|e: int| 0 <= e < 8 implies #[trigger] listed(
                    grid,
                    w,
                    leads@,
                    found@,
                    a as int,
                    e,
                ) by {
                    let s = point(leads@[a as int]);
                    if spells(grid, w, s, moves()[e]) {
                        assert(place(s, moves()[e], 0) == s) by (nonlinear_arith)
                            requires
                                place(s, moves()[e], 0) == (s.0 + moves()[e].0 * 0, s.1
                                    + moves()[e].1 * 0),
                        ;
                        assert(grid.contains_key(place(s, moves()[e], 0)));
                    }
                }
            }
        }
        a += 1;
    }
    proof {
        let whole = cells_of(lines_of(input@));
        assert forall|k: int| 0 <= k < found@.len() implies is_occurrence(
            whole,
            search_word@,
            (#[trigger] found@[k])@,
        ) by {
            let tag = tags[k];
            let cells = found@[k]@;
            let line = line_of(point(leads@[tag.0]), moves()[tag.1], w.len());
            assert(points(cells)[0] == line[0]);
            assert(place(point(leads@[tag.0]), moves()[tag.1], 0) == point(leads@[tag.0]))
                by (nonlinear_arith)
                requires
                    place(point(leads@[tag.0]), moves()[tag.1], 0) == (point(leads@[tag.0]).0
                        + moves()[tag.1].0 * 0, point(leads@[tag.0]).1 + moves()[tag.1].1 * 0),
            ;
            assert(point(cells[0]) == point(leads@[tag.0]));
            assert(spells(whole, w, point(cells[0]), moves()[tag.1]));
        }
        assert forall|cells: Seq<Coordinate>| #[trigger]
            is_occurrence(whole, search_word@, cells) implies exists|k: int|
            0 <= k < found@.len() && (#[trigger] found@[k])@ == cells by {
            assert(cells.len() == w.len());
            let e = choose|e: int|
                0 <= e < 8 && spells(whole, w, point(cells[0]), #[trigger] moves()[e]) && points(
                    cells,
                ) == line_of(point(cells[0]), moves()[e], w.len());
            let s = point(cells[0]);
            assert(place(s, moves()[e], 0) == s) by (nonlinear_arith)
                requires
                    place(s, moves()[e], 0) == (s.0 + moves()[e].0 * 0, s.1 + moves()[e].1 * 0),
            ;
            assert(whole.contains_key(place(s, moves()[e], 0)));
            assert(whole.dom().contains(s));
            let x = choose|x: int| 0 <= x < leads@.len() && point(#[trigger] leads@[x]) == s;
            assert(listed(grid, w, leads@, found@, x, e));
            let k = choose|k: int|
                0 <= k < found@.len() && points((#[trigger] found@[k])@) == line_of(
                    point(leads@[x]),
                    moves()[e],
                    w.len(),
                );
            lemma_points_decide(found@[k]@, cells);
        }
        assert forall|j: int, k: int| 0 <= j < k < found@.len() implies (#[trigger] found@[j])@ != (
        #[trigger] found@[k])@ by {
            let tj = tags[j];
            let tk = tags[k];
            assert(tj.0 < tk.0 || (tj.0 == tk.0 && tj.1 < tk.1));
            if tj.0 != tk.0 {
                assert(key_of(point(leads@[tj.0])) < key_of(point(leads@[tk.0])));
            }
            lemma_lines_differ(
                point(leads@[tj.0]),
                tj.1,
                point(leads@[tk.0]),
                tk.1,
                w.len(),
            );
        }
    }
    found
}

/// Whether the first three positions of `cells` lie in three different
/// rows and three different columns, as those of a word that is read along
/// a diagonal do.
pub open spec fn is_diagonal(cells: Seq<Coordinate>) -> bool {
    &&& cells[0].0 != cells[1].0
    &&& cells[0].0 != cells[2].0
    &&& cells[1].0 != cells[2].0
    &&& cells[0].1 != cells[1].1
    &&& cells[0].1 != cells[2].1
    &&& cells[1].1 != cells[2].1
}

/// How many of the first `n` occurrences are diagonal and have their second
/// position at `middle`.
pub open spec fn crossing_at(occurrences: Seq<Vec<Coordinate>>, middle: Point, n: int) -> int
    decreases n,
{
    if n <= 0 {
        0
    } else {
        crossing_at(occurrences, middle, n - 1) + if is_diagonal(occurrences[n - 1]@) && point(
            occurrences[n - 1]@[1],
        ) == middle {
            1int
        } else {
            0int
        }
    }
}

/// The positions at which exactly two diagonal occurrences cross.
pub open spec fn crosses_of(occurrences: Seq<Vec<Coordinate>>) -> Set<Point> {
    Set::new(|m: Point| crossing_at(occurrences, m, occurrences.len() as int) == 2)
}

/// A position that no occurrence has in its middle is crossed by none.
proof fn lemma_crossing_bounds(occurrences: Seq<Vec<Coordinate>>, middle: Point, n: int)
    requires
        0 <= n <= occurrences.len(),
    ensures
        0 <= crossing_at(occurrences, middle, n) <= n,
        crossing_at(occurrences, middle, n) > 0 ==> in_range(middle),
    decreases n,
{
    if n > 0 {
        lemma_crossing_bounds(occurrences, middle, n - 1);
    }
}

/// The number of positions at which exactly two diagonal occurrences cross,
/// each with its second position there.
pub fn count_crosses(occurrences: &Vec<Vec<Coordinate>>) -> (n: usize)
    requires
        forall|i: int| 0 <= i < occurrences@.len() ==> (#[trigger] occurrences@[i])@.len() >= 3,
    ensures
        n == crosses_of(occurrences@).len(),
{
    let mut counts: SparseGrid<usize> = SparseGrid::new();
    let mut i: usize = 0;
    while i < occurrences.len()
        invariant
            i <= occurrences.len(),
            forall|k: int| 0 <= k < occurrences@.len() ==> (#[trigger] occurrences@[k])@.len() >= 3,
            forall|m: Point|
                counts@.contains_key(m) <==> #[trigger] crossing_at(occurrences@, m, i as int) > 0,
            forall|m: Point| #[trigger]
                counts@.contains_key(m) ==> counts@[m] == crossing_at(occurrences@, m, i as int),
        decreases occurrences.len() - i,
    {
        let set = &occurrences[i];
        assert(set@.len() >= 3);
        let diagonal = set[0].0 != set[1].0 && set[0].0 != set[2].0 && set[1].0 != set[2].0
            && set[0].1 != set[1].1 && set[0].1 != set[2].1 && set[1].1 != set[2].1;
        if diagonal {
            let middle = set[1];
            proof {
                lemma_crossing_bounds(occurrences@, point(middle), i as int);
            }
            let so_far = match counts.get(middle) {
                Some(so_far) => so_far,
                None => 0,
            };
            counts.insert(middle, so_far + 1);
        }
        proof {
            assert forall|m: Point|
                counts@.contains_key(m) <==> #[trigger] crossing_at(
                    occurrences@,
                    m,
                    i + 1,
                ) > 0 by {
                lemma_crossing_bounds(occurrences@, m, i as int);
            }
        }
        i += 1;
    }
    let list = counts.coordinates();
    let mut n: usize = 0;
    let ghost mut found: Set<Point> = Set::empty();
    let mut k: usize = 0;
    while k < list.len()
        invariant
            k <= list.len(),
            i == occurrences.len(),
            lists(list@, counts@.dom()),
            strictly_ordered(list@),
            forall|m: Point|
                counts@.contains_key(m) <==> #[trigger] crossing_at(occurrences@, m, i as int) > 0,
            forall|m: Point| #[trigger]
                counts@.contains_key(m) ==> counts@[m] == crossing_at(occurrences@, m, i as int),
            found.finite(),
            n == found.len(),
            n <= k,
            forall|m: Point|
                found.contains(m) <==> crate::grid::listed_before(list@, k as int, m)
                    && crossing_at(occurrences@, m, i as int) == 2,
        decreases list.len() - k,
    {
        let at = list[k];
        assert(counts@.dom().contains(point(list@[k as int])));
        assert(!crate::grid::listed_before(list@, k as int, point(at))) by {
            if crate::grid::listed_before(list@, k as int, point(at)) {
                let j = choose|j: int| 0 <= j < k && point(#[trigger] list@[j]) == point(at);
                assert(key_of(point(list@[j])) < key_of(point(list@[k as int])));
            }
        }
        let two = match counts.get(at) {
            Some(count) => count == 2,
            None => false,
        };
        if two {
            n += 1;
            proof {
                found = found.insert(point(at));
            }
        }
        proof {
            assert forall|m: Point|
                found.contains(m) <==> crate::grid::listed_before(list@, k + 1, m) && crossing_at(
                    occurrences@,
                    m,
                    i as int,
                ) == 2 by {
                if crate::grid::listed_before(list@, k + 1, m) {
                    let j = choose|j: int| 0 <= j < k + 1 && point(#[trigger] list@[j]) == m;
                    if j < k {
                        assert(crate::grid::listed_before(list@, k as int, m));
                    }
                }
                if crate::grid::listed_before(list@, k as int, m) {
                    let j = choose|j: int| 0 <= j < k && point(#[trigger] list@[j]) == m;
                    assert(crate::grid::listed_before(list@, k + 1, m));
                }
                if m == point(at) {
                    assert(point(list@[k as int]) == m);
                    assert(crate::grid::listed_before(list@, k + 1, m));
                }
            }
        }
        k += 1;
    }
    proof {
        assert(found =~= crosses_of(occurrences@)) by {
            assert forall|m: Point| found.contains(m) <==> crosses_of(occurrences@).contains(m) by {
                if crosses_of(occurrences@).contains(m) {
                    assert(counts@.contains_key(m));
                    assert(counts@.dom().contains(m));
                    let j = choose|j: int| 0 <= j < list@.len() && point(#[trigger] list@[j]) == m;
                    assert(crate::grid::listed_before(list@, k as int, m));
                }
            }
        }
    }
    n
}

} // verus!
