//! Regions of a labelled grid.
//!
//! A region is a maximal set of cells that carry one label and hang together
//! through shared edges. The extractor drains a grid region by region.

use crate::grid::{
    adjacent, in_range, is_unit, key_of, lists, neighbor, point, step, strictly_ordered,
    unit_offset, unit_offsets, CoordSet, Coordinate, Point, SparseGrid,
};
use vstd::prelude::*;

verus! {

/// Whether `path` is a non-empty walk inside `s` in which each position
/// shares an edge with the next.
pub open spec fn is_chain(s: Set<Point>, path: Seq<Point>) -> bool {
    &&& path.len() > 0
    &&& forall|i: int| 0 <= i < path.len() ==> s.contains(#[trigger] path[i])
    &&& forall|i: int| 0 <= i < path.len() - 1 ==> adjacent(#[trigger] path[i], path[i + 1])
}

/// Whether a chain inside `s` leads from `a` to `b`.
pub open spec fn linked(s: Set<Point>, a: Point, b: Point) -> bool {
    exists|path: Seq<Point>| #[trigger] is_chain(s, path) && path[0] == a && path.last() == b
}

/// Whether `cells` is a region of `grid` with the label `label`: a non-empty
/// set of cells of that label, any two of them linked inside the set, which
/// no further cell of the label touches.
pub open spec fn is_region(grid: Map<Point, char>, label: char, cells: Set<Point>) -> bool {
    &&& exists|p: Point| cells.contains(p)
    &&& forall|p: Point| #[trigger] cells.contains(p) ==> grid.contains_key(p) && grid[p] == label
    &&& forall|a: Point, b: Point|
        cells.contains(a) && cells.contains(b) ==> #[trigger] linked(cells, a, b)
    &&& forall|a: Point, b: Point|
        cells.contains(a) && #[trigger] adjacent(a, b) && grid.contains_key(b) && grid[b]
            == label ==> cells.contains(b)
}

/// A chain stays a chain in a larger set.
pub proof fn lemma_linked_grows(s: Set<Point>, t: Set<Point>, a: Point, b: Point)
    requires
        linked(s, a, b),
        s.subset_of(t),
    ensures
        linked(t, a, b),
{
    let path = choose|path: Seq<Point>| #[trigger]
        is_chain(s, path) && path[0] == a && path.last() == b;
    assert(is_chain(t, path));
}

/// Every member is linked to itself.
pub proof fn lemma_linked_self(s: Set<Point>, a: Point)
    requires
        s.contains(a),
    ensures
        linked(s, a, a),
{
    let path = seq![a];
    assert(is_chain(s, path));
    assert(path[0] == a && path.last() == a);
}

/// A chain can be prolonged by a member next to its end.
pub proof fn lemma_linked_extend(s: Set<Point>, a: Point, b: Point, c: Point)
    requires
        linked(s, a, b),
        s.contains(c),
        adjacent(b, c),
    ensures
        linked(s, a, c),
{
    let path = choose|path: Seq<Point>| #[trigger]
        is_chain(s, path) && path[0] == a && path.last() == b;
    let longer = path.push(c);
    assert forall|i: int| 0 <= i < longer.len() - 1 implies adjacent(
        #[trigger] longer[i],
        longer[i + 1],
    ) by {
        if i < path.len() - 1 {
            assert(adjacent(path[i], path[i + 1]));
        }
    }
    assert(is_chain(s, longer));
    assert(longer[0] == a && longer.last() == c);
}

/// Chains can be walked backwards.
pub proof fn lemma_linked_symmetric(s: Set<Point>, a: Point, b: Point)
    requires
        linked(s, a, b),
    ensures
        linked(s, b, a),
{
    let path = choose|path: Seq<Point>| #[trigger]
        is_chain(s, path) && path[0] == a && path.last() == b;
    let back = path.reverse();
    assert forall|i: int| 0 <= i < back.len() - 1 implies adjacent(
        #[trigger] back[i],
        back[i + 1],
    ) by {
        let j = path.len() - 2 - i;
        assert(adjacent(path[j], path[j + 1]));
    }
    assert(is_chain(s, back));
    assert(back[0] == b && back.last() == a);
}

/// Chains that meet can be joined.
pub proof fn lemma_linked_transitive(s: Set<Point>, a: Point, b: Point, c: Point)
    requires
        linked(s, a, b),
        linked(s, b, c),
    ensures
        linked(s, a, c),
{
    let first = choose|path: Seq<Point>| #[trigger]
        is_chain(s, path) && path[0] == a && path.last() == b;
    let second = choose|path: Seq<Point>| #[trigger]
        is_chain(s, path) && path[0] == b && path.last() == c;
    let joined = first + second.drop_first();
    assert forall|i: int| 0 <= i < joined.len() implies s.contains(#[trigger] joined[i]) by {
        if i >= first.len() {
            assert(joined[i] == second[i - first.len() + 1]);
        }
    }
    assert forall|i: int| 0 <= i < joined.len() - 1 implies adjacent(
        #[trigger] joined[i],
        joined[i + 1],
    ) by {
        if i < first.len() - 1 {
            assert(adjacent(first[i], first[i + 1]));
        } else {
            let j = i - first.len() + 1;
            assert(joined[i + 1] == second[j + 1]);
            assert(joined[i] == second[j]);
            assert(adjacent(second[j], second[j + 1]));
        }
    }
    assert(is_chain(s, joined));
    assert(joined[0] == a);
    assert(joined.last() == c) by {
        if second.len() == 1 {
            assert(joined =~= first);
        }
    }
}

/// A region of a grid: its label and its cells.
pub struct Region {
    pub label: char,
    pub cells: CoordSet,
}

impl Region {
    /// The number of cells of the region.
    pub fn area(&self) -> (n: usize)
        ensures
            n == self.cells@.len(),
    {
        self.cells.len()
    }
}

/// What holds while a region is being filled from `seed`: `found` is what
/// has left the grid so far, each found cell has the label and is linked to
/// the seed, each is either visited or waits on the stack, and around every
/// cell of `done` all cells of the label have been found.
#[verifier::opaque]
spec fn filling(
    before: Map<Point, char>,
    label: char,
    seed: Point,
    grid: Map<Point, char>,
    visited: Set<Point>,
    stack: Seq<Coordinate>,
    found: Set<Point>,
    done: Set<Point>,
) -> bool {
    &&& found.contains(seed)
    &&& grid == before.remove_keys(found)
    &&& forall|p: Point| #[trigger]
        found.contains(p) ==> before.contains_key(p) && before[p] == label && linked(
            found,
            seed,
            p,
        )
    &&& forall|p: Point| #[trigger] visited.contains(p) ==> found.contains(p)
    &&& forall|i: int| 0 <= i < stack.len() ==> found.contains(point(#[trigger] stack[i]))
    &&& forall|p: Point| #[trigger]
        found.contains(p) ==> visited.contains(p) || exists|i: int|
            0 <= i < stack.len() && point(#[trigger] stack[i]) == p
    &&& forall|a: Point, b: Point|
        done.contains(a) && #[trigger] adjacent(a, b) && before.contains_key(b) && before[b]
            == label ==> found.contains(b)
}

/// Taking the seed out of the grid starts a fill.
proof fn lemma_fill_starts(before: Map<Point, char>, seed: Coordinate)
    requires
        before.contains_key(point(seed)),
    ensures
        filling(
            before,
            before[point(seed)],
            point(seed),
            before.remove(point(seed)),
            Set::empty(),
            seq![seed],
            set![point(seed)],
            Set::empty(),
        ),
{
    reveal(filling);
    let origin = point(seed);
    let found = set![origin];
    assert(before.remove(origin) =~= before.remove_keys(found));
    lemma_linked_self(found, origin);
    assert(point(seq![seed][0]) == origin);
}

/// Moving the top of the stack to the visited cells keeps [`filling`].
proof fn lemma_visit(
    before: Map<Point, char>,
    label: char,
    seed: Point,
    grid: Map<Point, char>,
    visited: Set<Point>,
    stack: Seq<Coordinate>,
    found: Set<Point>,
)
    requires
        filling(before, label, seed, grid, visited, stack, found, visited),
        stack.len() > 0,
    ensures
        found.contains(point(stack.last())),
        filling(
            before,
            label,
            seed,
            grid,
            visited.insert(point(stack.last())),
            stack.drop_last(),
            found,
            visited,
        ),
{
    reveal(filling);
    let here = point(stack.last());
    let visited2 = visited.insert(here);
    let stack2 = stack.drop_last();
    assert(found.contains(point(stack[stack.len() - 1])));
    assert forall|p: Point| #[trigger] found.contains(p) implies visited2.contains(p)
        || exists|i: int| 0 <= i < stack2.len() && point(#[trigger] stack2[i]) == p by {
        if !visited2.contains(p) {
            let i = choose|i: int| 0 <= i < stack.len() && point(#[trigger] stack[i]) == p;
            assert(point(stack2[i]) == p);
        }
    }
}

/// Finding one more cell next to a found one keeps [`filling`].
proof fn lemma_found_one_more(
    before: Map<Point, char>,
    label: char,
    seed: Point,
    grid: Map<Point, char>,
    visited: Set<Point>,
    stack: Seq<Coordinate>,
    found: Set<Point>,
    done: Set<Point>,
    from: Point,
    next: Coordinate,
)
    requires
        filling(before, label, seed, grid, visited, stack, found, done),
        found.contains(from),
        adjacent(from, point(next)),
        grid.contains_key(point(next)),
        grid[point(next)] == label,
    ensures
        filling(
            before,
            label,
            seed,
            grid.remove(point(next)),
            visited,
            stack.push(next),
            found.insert(point(next)),
            done,
        ),
{
    reveal(filling);
    let n = point(next);
    let found2 = found.insert(n);
    let stack2 = stack.push(next);
    assert(grid.remove(n) =~= before.remove_keys(found2));
    assert forall|p: Point| #[trigger] found2.contains(p) implies before.contains_key(p)
        && before[p] == label && linked(found2, seed, p) by {
        if p == n {
            lemma_linked_grows(found, found2, seed, from);
            lemma_linked_extend(found2, seed, from, n);
        } else {
            lemma_linked_grows(found, found2, seed, p);
        }
    }
    assert forall|i: int| 0 <= i < stack2.len() implies found2.contains(
        point(#[trigger] stack2[i]),
    ) by {
        if i < stack.len() {
            assert(stack2[i] == stack[i]);
        }
    }
    assert forall|p: Point| #[trigger] found2.contains(p) implies visited.contains(p)
        || exists|i: int| 0 <= i < stack2.len() && point(#[trigger] stack2[i]) == p by {
        if p == n {
            assert(point(stack2[stack.len() as int]) == p);
        } else if !visited.contains(p) {
            let i = choose|i: int| 0 <= i < stack.len() && point(#[trigger] stack[i]) == p;
            assert(point(stack2[i]) == p);
        }
    }
}

/// What a cell of the grid holds while a fill is under way.
proof fn lemma_filling_grid(
    before: Map<Point, char>,
    label: char,
    seed: Point,
    grid: Map<Point, char>,
    visited: Set<Point>,
    stack: Seq<Coordinate>,
    found: Set<Point>,
    done: Set<Point>,
    b: Point,
)
    requires
        filling(before, label, seed, grid, visited, stack, found, done),
    ensures
        grid.contains_key(b) <==> before.contains_key(b) && !found.contains(b),
        grid.contains_key(b) ==> grid[b] == before[b],
{
    reveal(filling);
}

/// Once all four neighbours of a visited cell have been looked at, the cell
/// is done.
proof fn lemma_cell_done(
    before: Map<Point, char>,
    label: char,
    seed: Point,
    grid: Map<Point, char>,
    visited: Set<Point>,
    stack: Seq<Coordinate>,
    found: Set<Point>,
    done: Set<Point>,
    here: Point,
)
    requires
        filling(before, label, seed, grid, visited, stack, found, done),
        forall|j: int|
            0 <= j < 4 ==> {
                let b = step(here, #[trigger] unit_offsets()[j]);
                before.contains_key(b) && before[b] == label ==> found.contains(b)
            },
    ensures
        filling(before, label, seed, grid, visited, stack, found, done.insert(here)),
{
    reveal(filling);
    let done2 = done.insert(here);
    assert forall|a: Point, b: Point|
        done2.contains(a) && #[trigger] adjacent(a, b) && before.contains_key(b) && before[b]
            == label implies found.contains(b) by {
        if a == here {
            let d = (b.0 - a.0, b.1 - a.1);
            assert(is_unit(d));
            let j = if d == (1int, 0int) {
                0int
            } else if d == (-1int, 0int) {
                1int
            } else if d == (0int, 1int) {
                2int
            } else {
                3int
            };
            assert(unit_offsets()[j] == d);
            assert(step(here, unit_offsets()[j]) == b);
        }
    }
}

/// With nothing left on the stack, the visited cells are a region.
proof fn lemma_fill_ends(
    before: Map<Point, char>,
    label: char,
    seed: Point,
    grid: Map<Point, char>,
    visited: Set<Point>,
    found: Set<Point>,
)
    requires
        filling(before, label, seed, grid, visited, Seq::empty(), found, visited),
    ensures
        visited.contains(seed),
        is_region(before, label, visited),
        grid == before.remove_keys(visited),
{
    reveal(filling);
    assert(found =~= visited);
    assert forall|a: Point, b: Point|
        visited.contains(a) && visited.contains(b) implies #[trigger] linked(visited, a, b) by {
        lemma_linked_symmetric(visited, seed, a);
        lemma_linked_transitive(visited, a, seed, b);
    }
}

/// Fills the region of the cell at `seed`, taking its cells out of `grid`.
/// Where `seed` is no cell of the grid, nothing happens.
pub fn flood_fill(grid: &mut SparseGrid<char>, seed: Coordinate) -> (region: Option<Region>)
    ensures
        match region {
            None => !old(grid)@.contains_key(point(seed)) && final(grid)@ == old(grid)@,
            Some(r) => {
                &&& old(grid)@.contains_key(point(seed))
                &&& r.label == old(grid)@[point(seed)]
                &&& r.cells@.contains(point(seed))
                &&& is_region(old(grid)@, r.label, r.cells@)
                &&& final(grid)@ == old(grid)@.remove_keys(r.cells@)
            },
        },
{
    let ghost before = grid@;
    let ghost origin = point(seed);
    proof {
        grid.lemma_view();
    }
    let label = match grid.remove(seed) {
        None => {
            assert(grid@ =~= before);
            return None;
        },
        Some(label) => label,
    };
    let mut stack: Vec<Coordinate> = Vec::new();
    stack.push(seed);
    let mut visited = CoordSet::new();
    let ghost mut found: Set<Point> = set![origin];
    proof {
        lemma_fill_starts(before, seed);
        assert(stack@ =~= seq![seed]);
    }
    while stack.len() > 0
        invariant
            filling(before, label, origin, grid@, visited@, stack@, found, visited@),
            forall|p: Point| before.contains_key(p) ==> in_range(p),
        decreases stack@.len() + 2 * grid@.dom().len(),
    {
        let ghost measure = stack@.len() + 2 * grid@.dom().len();
        let ghost visited_before = visited@;
        proof {
            lemma_visit(before, label, origin, grid@, visited@, stack@, found);
        }
        let pos = stack.pop().unwrap();
        let ghost here = point(pos);
        let fresh = visited.insert(pos);
        if fresh {
            for idx in 0..4usize
                invariant
                    filling(before, label, origin, grid@, visited@, stack@, found, visited_before),
                    visited@ == visited_before.insert(here),
                    found.contains(here),
                    here == point(pos),
                    forall|p: Point| before.contains_key(p) ==> in_range(p),
                    stack@.len() + 2 * grid@.dom().len() < measure,
                    forall|j: int|
                        0 <= j < idx ==> {
                            let b = step(here, #[trigger] unit_offsets()[j]);
                            before.contains_key(b) && before[b] == label ==> found.contains(b)
                        },
            {
                let d = unit_offset(idx);
                let ghost b = step(here, point(d));
                proof {
                    grid.lemma_view();
                    lemma_filling_grid(
                        before,
                        label,
                        origin,
                        grid@,
                        visited@,
                        stack@,
                        found,
                        visited_before,
                        b,
                    );
                }
                match neighbor(pos, d) {
                    Some(next) => {
                        if grid.get(next) == Some(label) {
                            proof {
                                lemma_found_one_more(
                                    before,
                                    label,
                                    origin,
                                    grid@,
                                    visited@,
                                    stack@,
                                    found,
                                    visited_before,
                                    here,
                                    next,
                                );
                                found = found.insert(b);
                            }
                            grid.remove(next);
                            stack.push(next);
                        }
                    },
                    None => {},
                }
            }
            proof {
                lemma_cell_done(
                    before,
                    label,
                    origin,
                    grid@,
                    visited@,
                    stack@,
                    found,
                    visited_before,
                    here,
                );
            }
        } else {
            proof {
                assert(visited@ =~= visited_before);
                assert(visited_before.insert(here) =~= visited_before);
            }
        }
    }
    proof {
        assert(stack@ =~= Seq::<Coordinate>::empty());
        lemma_fill_ends(before, label, origin, grid@, visited@, found);
    }
    Some(Region { label, cells: visited })
}

/// The member sets of a list of regions.
pub open spec fn region_cells(regions: Seq<Region>) -> Seq<Set<Point>> {
    Seq::new(regions.len(), |i: int| regions[i].cells@)
}

/// Whether `parts` splits `cells`: each part lies in `cells`, no two parts
/// share a position, and every position of `cells` is in some part.
pub open spec fn is_partition(cells: Set<Point>, parts: Seq<Set<Point>>) -> bool {
    &&& forall|i: int, p: Point|
        0 <= i < parts.len() && #[trigger] parts[i].contains(p) ==> cells.contains(p)
    &&& forall|i: int, j: int, p: Point|
        0 <= i < j < parts.len() && #[trigger] parts[i].contains(p) ==> !(#[trigger] parts[j]).contains(p)
    &&& forall|p: Point| #[trigger]
        cells.contains(p) ==> exists|i: int| 0 <= i < parts.len() && #[trigger] parts[i].contains(p)
}

/// Whether some position of `a` comes before every position of `b` in
/// row-major order.
pub open spec fn precedes(a: Set<Point>, b: Set<Point>) -> bool {
    exists|p: Point| #[trigger]
        a.contains(p) && forall|q: Point| #[trigger] b.contains(q) ==> key_of(p) < key_of(q)
}

/// Whether `p` is a cell of the `i`-th region of the list.
spec fn holds(regions: Seq<Region>, i: int, p: Point) -> bool {
    regions[i].cells@.contains(p)
}

/// Whether one of the first `scanned` positions of `order` is a cell of the
/// `i`-th region of the list.
spec fn seeded(regions: Seq<Region>, order: Seq<Coordinate>, scanned: int, i: int) -> bool {
    exists|j: int| 0 <= j < scanned && #[trigger] holds(regions, i, point(order[j]))
}

/// Whether `regions` is the list of the regions of `grid`: each entry is a
/// region, together they split the grid, and they stand in the row-major
/// order of their first cells.
pub open spec fn is_extraction(grid: Map<Point, char>, regions: Seq<Region>) -> bool {
    &&& is_partition(grid.dom(), region_cells(regions))
    &&& forall|i: int|
        0 <= i < regions.len() ==> is_region(grid, (#[trigger] regions[i]).label, regions[i].cells@)
    &&& forall|i: int, j: int|
        0 <= i < j < regions.len() ==> precedes(
            (#[trigger] regions[i]).cells@,
            (#[trigger] regions[j]).cells@,
        )
}

/// A chain that begins in a region stays in the region, where all of its
/// positions are cells of the label of the region.
proof fn lemma_chain_stays(
    grid: Map<Point, char>,
    label: char,
    cells: Set<Point>,
    path: Seq<Point>,
    n: int,
)
    requires
        is_region(grid, label, cells),
        path.len() > 0,
        cells.contains(path[0]),
        0 <= n < path.len(),
        forall|i: int| 0 <= i < path.len() ==> grid.contains_key(#[trigger] path[i]) && grid[path[i]]
            == label,
        forall|i: int| 0 <= i < path.len() - 1 ==> adjacent(#[trigger] path[i], path[i + 1]),
    ensures
        cells.contains(path[n]),
    decreases n,
{
    if n > 0 {
        lemma_chain_stays(grid, label, cells, path, n - 1);
        assert(adjacent(path[n - 1], path[n]));
    }
}

/// Two regions of a grid that share a cell are the same region.
pub proof fn lemma_region_unique(
    grid: Map<Point, char>,
    label: char,
    cells: Set<Point>,
    other_label: char,
    other_cells: Set<Point>,
    shared: Point,
)
    requires
        is_region(grid, label, cells),
        is_region(grid, other_label, other_cells),
        cells.contains(shared),
        other_cells.contains(shared),
    ensures
        label == other_label,
        cells == other_cells,
{
    assert forall|q: Point| cells.contains(q) implies other_cells.contains(q) by {
        assert(linked(cells, shared, q));
        let path = choose|path: Seq<Point>| #[trigger]
            is_chain(cells, path) && path[0] == shared && path.last() == q;
        lemma_chain_stays(grid, other_label, other_cells, path, path.len() - 1);
    }
    assert forall|q: Point| other_cells.contains(q) implies cells.contains(q) by {
        assert(linked(other_cells, shared, q));
        let path = choose|path: Seq<Point>| #[trigger]
            is_chain(other_cells, path) && path[0] == shared && path.last() == q;
        lemma_chain_stays(grid, label, cells, path, path.len() - 1);
    }
    assert(cells =~= other_cells);
}

/// Of two sets, at most one precedes the other.
proof fn lemma_precedes_one_way(a: Set<Point>, b: Set<Point>)
    requires
        precedes(a, b),
    ensures
        !precedes(b, a),
{
    if precedes(b, a) {
        let p = choose|p: Point| #[trigger]
            a.contains(p) && forall|q: Point| #[trigger] b.contains(q) ==> key_of(p) < key_of(q);
        let q = choose|q: Point| #[trigger]
            b.contains(q) && forall|p: Point| #[trigger] a.contains(p) ==> key_of(q) < key_of(p);
        assert(key_of(p) < key_of(q));
        assert(key_of(q) < key_of(p));
    }
}

/// [`is_extraction`], kept closed while it is not looked into.
#[verifier::opaque]
spec fn extracted(grid: Map<Point, char>, regions: Seq<Region>) -> bool {
    is_extraction(grid, regions)
}

/// The entry at `i` of a list of regions is a region; the result is one of
/// its cells.
proof fn lemma_entry_is_region(grid: Map<Point, char>, regions: Seq<Region>, i: int) -> (p: Point)
    requires
        extracted(grid, regions),
        0 <= i < regions.len(),
    ensures
        is_region(grid, regions[i].label, regions[i].cells@),
        regions[i].cells@.contains(p),
        grid.contains_key(p),
{
    reveal(extracted);
    choose|p: Point| regions[i].cells@.contains(p)
}

/// Every cell of the grid lies in an entry of a list of regions; the result
/// is the place of such an entry.
proof fn lemma_cell_is_covered(grid: Map<Point, char>, regions: Seq<Region>, p: Point) -> (j: int)
    requires
        extracted(grid, regions),
        grid.contains_key(p),
    ensures
        0 <= j < regions.len(),
        regions[j].cells@.contains(p),
{
    reveal(extracted);
    let parts = region_cells(regions);
    assert(grid.dom().contains(p));
    let j = choose|j: int| 0 <= j < parts.len() && #[trigger] parts[j].contains(p);
    j
}

/// Two entries of a list of regions share no cell, and the earlier
/// precedes the later.
proof fn lemma_entries_apart(
    grid: Map<Point, char>,
    regions: Seq<Region>,
    i: int,
    j: int,
    p: Point,
)
    requires
        extracted(grid, regions),
        0 <= i < j < regions.len(),
    ensures
        !(regions[i].cells@.contains(p) && regions[j].cells@.contains(p)),
        precedes(regions[i].cells@, regions[j].cells@),
{
    reveal(extracted);
    let parts = region_cells(regions);
    if regions[i].cells@.contains(p) {
        assert(parts[i].contains(p));
        assert(!parts[j].contains(p));
    }
}

/// Two lists of the regions of a grid agree in their first `n` entries.
proof fn lemma_extractions_agree(grid: Map<Point, char>, a: Seq<Region>, b: Seq<Region>, n: int)
    requires
        extracted(grid, a),
        extracted(grid, b),
        0 <= n <= a.len(),
    ensures
        n <= b.len(),
        forall|i: int|
            0 <= i < n ==> (#[trigger] a[i]).label == b[i].label && a[i].cells@ == b[i].cells@,
    decreases n,
{
    if n > 0 {
        lemma_extractions_agree(grid, a, b, n - 1);
        let i = n - 1;
        let p = lemma_entry_is_region(grid, a, i);
        let j = lemma_cell_is_covered(grid, b, p);
        let pj = lemma_entry_is_region(grid, b, j);
        lemma_region_unique(grid, a[i].label, a[i].cells@, b[j].label, b[j].cells@, p);
        if j < i {
            // the entry of `b` at `j` is the entry of `a` at `j`, which shares
            // nothing with the entry at `i`
            assert(a[j].cells@ == b[j].cells@);
            lemma_entries_apart(grid, a, j, i, p);
        } else if j > i {
            // then the entry of `b` at `i` stands later in `a`, and each of
            // the two regions would have to precede the other
            let q = lemma_entry_is_region(grid, b, i);
            let m = lemma_cell_is_covered(grid, a, q);
            let qm = lemma_entry_is_region(grid, a, m);
            lemma_region_unique(grid, b[i].label, b[i].cells@, a[m].label, a[m].cells@, q);
            if m < i {
                assert(a[m].cells@ == b[m].cells@);
                lemma_entries_apart(grid, b, m, i, q);
            } else if m == i {
                lemma_entries_apart(grid, b, i, j, p);
            } else {
                lemma_entries_apart(grid, a, i, m, p);
                lemma_entries_apart(grid, b, i, j, p);
                lemma_precedes_one_way(a[i].cells@, a[m].cells@);
            }
        }
    }
}

/// A grid has one list of regions only: any two lists that
/// [`is_extraction`] holds of name the same regions in the same order.
pub proof fn lemma_extraction_unique(grid: Map<Point, char>, a: Seq<Region>, b: Seq<Region>)
    requires
        is_extraction(grid, a),
        is_extraction(grid, b),
    ensures
        a.len() == b.len(),
        forall|i: int|
            0 <= i < a.len() ==> (#[trigger] a[i]).label == b[i].label && a[i].cells@ == b[i].cells@,
        region_cells(a) == region_cells(b),
{
    assert(extracted(grid, a) && extracted(grid, b)) by {
        reveal(extracted);
    }
    lemma_extractions_agree(grid, a, b, a.len() as int);
    lemma_extractions_agree(grid, b, a, b.len() as int);
    assert(region_cells(a) =~= region_cells(b));
}

/// What holds while a grid is being drained: the regions found so far are
/// regions of the whole grid, together with what is left they split it, what
/// is left is closed under touching cells of one label, and the first
/// `scanned` positions of `order` have all been taken.
#[verifier::opaque]
spec fn draining(
    whole: Map<Point, char>,
    order: Seq<Coordinate>,
    scanned: int,
    left: Map<Point, char>,
    regions: Seq<Region>,
) -> bool {
    &&& 0 <= scanned <= order.len()
    &&& forall|p: Point| #[trigger]
        left.contains_key(p) ==> whole.contains_key(p) && left[p] == whole[p]
    &&& forall|a: Point, b: Point|
        left.contains_key(a) && #[trigger] adjacent(a, b) && whole.contains_key(b) && whole[b]
            == whole[a] ==> left.contains_key(b)
    &&& forall|i: int|
        0 <= i < regions.len() ==> is_region(
            whole,
            (#[trigger] regions[i]).label,
            regions[i].cells@,
        )
    &&& forall|i: int, p: Point|
        0 <= i < regions.len() && #[trigger] holds(regions, i, p) ==> !left.contains_key(p)
    &&& forall|i: int, j: int, p: Point|
        0 <= i < j < regions.len() && #[trigger] holds(regions, i, p) ==> !#[trigger] holds(
            regions,
            j,
            p,
        )
    &&& forall|p: Point| #[trigger]
        whole.contains_key(p) ==> left.contains_key(p) || exists|i: int|
            0 <= i < regions.len() && #[trigger] holds(regions, i, p)
    &&& forall|j: int| 0 <= j < scanned ==> !left.contains_key(point(#[trigger] order[j]))
    &&& forall|i: int| 0 <= i < regions.len() ==> #[trigger] seeded(regions, order, scanned, i)
    &&& forall|i: int, j: int|
        0 <= i < j < regions.len() ==> precedes(
            (#[trigger] regions[i]).cells@,
            (#[trigger] regions[j]).cells@,
        )
}

/// Nothing found and nothing scanned: the start of a drain.
proof fn lemma_drain_starts(whole: Map<Point, char>, order: Seq<Coordinate>)
    ensures
        draining(whole, order, 0, whole, Seq::empty()),
{
    reveal(draining);
}

/// A position that has been taken already is passed over.
proof fn lemma_drain_skips(
    whole: Map<Point, char>,
    order: Seq<Coordinate>,
    scanned: int,
    left: Map<Point, char>,
    regions: Seq<Region>,
)
    requires
        draining(whole, order, scanned, left, regions),
        scanned < order.len(),
        !left.contains_key(point(order[scanned])),
    ensures
        draining(whole, order, scanned + 1, left, regions),
{
    reveal(draining);
    assert forall|i: int| 0 <= i < regions.len() implies #[trigger] seeded(
        regions,
        order,
        scanned + 1,
        i,
    ) by {
        assert(seeded(regions, order, scanned, i));
        let j = choose|j: int| 0 <= j < scanned && #[trigger] holds(regions, i, point(order[j]));
        assert(holds(regions, i, point(order[j])));
    }
}

/// A region filled from the next position of `order` joins the regions
/// found.
proof fn lemma_drain_takes(
    whole: Map<Point, char>,
    order: Seq<Coordinate>,
    scanned: int,
    left: Map<Point, char>,
    regions: Seq<Region>,
    region: Region,
)
    requires
        draining(whole, order, scanned, left, regions),
        scanned < order.len(),
        strictly_ordered(order),
        lists(order, whole.dom()),
        is_region(left, region.label, region.cells@),
        region.cells@.contains(point(order[scanned])),
    ensures
        draining(
            whole,
            order,
            scanned + 1,
            left.remove_keys(region.cells@),
            regions.push(region),
        ),
{
    reveal(draining);
    let cells = region.cells@;
    let label = region.label;
    let left2 = left.remove_keys(cells);
    let regions2 = regions.push(region);
    let n = regions.len() as int;
    assert(is_region(whole, label, cells)) by {
        assert forall|a: Point, b: Point|
            cells.contains(a) && #[trigger] adjacent(a, b) && whole.contains_key(b) && whole[b]
                == label implies cells.contains(b) by {
            assert(left.contains_key(a));
            assert(left.contains_key(b));
        }
    }
    assert forall|a: Point, b: Point|
        left2.contains_key(a) && #[trigger] adjacent(a, b) && whole.contains_key(b) && whole[b]
            == whole[a] implies left2.contains_key(b) by {
        assert(left.contains_key(b));
        if cells.contains(b) {
            assert(adjacent(b, a));
            assert(cells.contains(a));
        }
    }
    assert forall|i: int| 0 <= i < regions2.len() implies is_region(
        whole,
        (#[trigger] regions2[i]).label,
        regions2[i].cells@,
    ) by {
        if i < n {
            assert(regions2[i] == regions[i]);
        }
    }
    assert forall|i: int, p: Point|
        0 <= i < regions2.len() && #[trigger] holds(regions2, i, p) implies !left2.contains_key(
        p,
    ) by {
        if i < n {
            assert(regions2[i] == regions[i]);
            assert(holds(regions, i, p));
        }
    }
    assert forall|i: int, j: int, p: Point|
        0 <= i < j < regions2.len() && #[trigger] holds(regions2, i, p) implies !#[trigger] holds(
        regions2,
        j,
        p,
    ) by {
        assert(regions2[i] == regions[i]);
        assert(holds(regions, i, p));
        if j < n {
            assert(regions2[j] == regions[j]);
            assert(!holds(regions, j, p));
        } else {
            assert(!left.contains_key(p));
        }
    }
    assert forall|p: Point| #[trigger] whole.contains_key(p) implies left2.contains_key(p)
        || exists|i: int| 0 <= i < regions2.len() && #[trigger] holds(regions2, i, p) by {
        if left.contains_key(p) {
            if cells.contains(p) {
                assert(holds(regions2, n, p));
            }
        } else {
            let i = choose|i: int| 0 <= i < regions.len() && #[trigger] holds(regions, i, p);
            assert(regions2[i] == regions[i]);
            assert(holds(regions2, i, p));
        }
    }
    assert forall|i: int| 0 <= i < regions2.len() implies #[trigger] seeded(
        regions2,
        order,
        scanned + 1,
        i,
    ) by {
        if i < n {
            assert(regions2[i] == regions[i]);
            assert(seeded(regions, order, scanned, i));
            let j = choose|j: int|
                0 <= j < scanned && #[trigger] holds(regions, i, point(order[j]));
            assert(holds(regions2, i, point(order[j])));
        } else {
            assert(holds(regions2, i, point(order[scanned])));
        }
    }
    assert forall|i: int, j: int| 0 <= i < j < regions2.len() implies precedes(
        (#[trigger] regions2[i]).cells@,
        (#[trigger] regions2[j]).cells@,
    ) by {
        assert(regions2[i] == regions[i]);
        if j < n {
            assert(regions2[j] == regions[j]);
        } else {
            assert(seeded(regions, order, scanned, i));
            let s = choose|s: int|
                0 <= s < scanned && #[trigger] holds(regions, i, point(order[s]));
            let p = point(order[s]);
            assert forall|q: Point| #[trigger] cells.contains(q) implies key_of(p) < key_of(
                q,
            ) by {
                assert(left.contains_key(q));
                assert(whole.dom().contains(q));
                let m = choose|m: int| 0 <= m < order.len() && point(#[trigger] order[m]) == q;
                assert(m >= scanned);
            }
            assert(regions2[i].cells@.contains(p));
        }
    }
}

/// With every position scanned, the regions found split the whole grid.
proof fn lemma_drain_ends(
    whole: Map<Point, char>,
    order: Seq<Coordinate>,
    left: Map<Point, char>,
    regions: Seq<Region>,
)
    requires
        draining(whole, order, order.len() as int, left, regions),
        lists(order, whole.dom()),
    ensures
        is_partition(whole.dom(), region_cells(regions)),
        forall|i: int|
            0 <= i < regions.len() ==> is_region(
                whole,
                (#[trigger] regions[i]).label,
                regions[i].cells@,
            ),
        forall|i: int, j: int|
            0 <= i < j < regions.len() ==> precedes(
                (#[trigger] regions[i]).cells@,
                (#[trigger] regions[j]).cells@,
            ),
{
    reveal(draining);
    let parts = region_cells(regions);
    assert forall|p: Point| !left.contains_key(p) by {
        if left.contains_key(p) {
            assert(whole.dom().contains(p));
            let m = choose|m: int| 0 <= m < order.len() && point(#[trigger] order[m]) == p;
            assert(!left.contains_key(point(order[m])));
        }
    }
    assert forall|i: int, p: Point|
        0 <= i < parts.len() && #[trigger] parts[i].contains(p) implies whole.dom().contains(
        p,
    ) by {
        assert(is_region(whole, regions[i].label, regions[i].cells@));
    }
    assert forall|i: int, j: int, p: Point|
        0 <= i < j < parts.len() && #[trigger] parts[i].contains(p) implies !(
    #[trigger] parts[j]).contains(p) by {
        assert(holds(regions, i, p));
        assert(!holds(regions, j, p));
    }
    assert forall|p: Point| #[trigger] whole.dom().contains(p) implies exists|i: int|
        0 <= i < parts.len() && #[trigger] parts[i].contains(p) by {
        assert(whole.contains_key(p));
        let i = choose|i: int| 0 <= i < regions.len() && #[trigger] holds(regions, i, p);
        assert(parts[i].contains(p));
    }
}

/// Drains `grid` into its regions.
///
/// The regions come in the row-major order of their first cells, so the
/// outcome does not depend on the order in which a hash table yields its
/// keys.
pub fn extract_regions(grid: SparseGrid<char>) -> (regions: Vec<Region>)
    ensures
        is_extraction(grid@, regions@),
{
    let ghost whole = grid@;
    let order = grid.coordinates();
    let mut left = grid;
    let mut regions: Vec<Region> = Vec::new();
    proof {
        lemma_drain_starts(whole, order@);
    }
    let mut k: usize = 0;
    while k < order.len()
        invariant
            k <= order.len(),
            draining(whole, order@, k as int, left@, regions@),
            strictly_ordered(order@),
            lists(order@, whole.dom()),
        decreases order.len() - k,
    {
        let ghost left_before = left@;
        match flood_fill(&mut left, order[k]) {
            Some(region) => {
                proof {
                    lemma_drain_takes(whole, order@, k as int, left_before, regions@, region);
                }
                regions.push(region);
            },
            None => {
                proof {
                    lemma_drain_skips(whole, order@, k as int, left_before, regions@);
                }
            },
        }
        k += 1;
    }
    proof {
        lemma_drain_ends(whole, order@, left@, regions@);
    }
    regions
}

} // verus!
