//! The boundary of a set of cells: its perimeter and its number of sides.
//!
//! A boundary edge leads from a member of the set to a position next to it
//! that is no member. The perimeter is the number of such edges. A side is a
//! maximal straight run of edges that face the same way; the number of sides
//! is the number of edges that begin a run.

use crate::grid::{
    adjacent, in_range, is_unit, key_of, listed_before, lists, neighbor, point, step,
    strictly_ordered, unit_offset, unit_offsets, CoordSet, Coordinate, Point,
};
use vstd::prelude::*;

verus! {

/// An edge as specifications see it: the cell inside and the position
/// outside.
pub type Edge = (Point, Point);

/// The edges that lead from a member of `cells` to a position next to it
/// outside `cells`.
pub open spec fn boundary_edges(cells: Set<Point>) -> Set<Edge> {
    Set::new(|e: Edge| cells.contains(e.0) && adjacent(e.0, e.1) && !cells.contains(e.1))
}

/// The number of boundary edges of `cells`.
pub open spec fn perimeter_of(cells: Set<Point>) -> nat {
    boundary_edges(cells).len()
}

/// The edge `k` places further along the line on which `e` lies. An edge
/// that faces north or south lies on a horizontal line, one that faces east
/// or west on a vertical line.
pub open spec fn shifted(e: Edge, k: int) -> Edge {
    if e.0.1 == e.1.1 {
        ((e.0.0, e.0.1 + k), (e.1.0, e.1.1 + k))
    } else {
        ((e.0.0 + k, e.0.1), (e.1.0 + k, e.1.1))
    }
}

/// The edges of `edges` that begin a run: those whose predecessor on their
/// line is not in `edges`.
pub open spec fn side_starts(edges: Set<Edge>) -> Set<Edge> {
    edges.filter(|e: Edge| !edges.contains(shifted(e, -1)))
}

/// The number of sides of `cells`.
pub open spec fn sides_of(cells: Set<Point>) -> nat {
    side_starts(boundary_edges(cells)).len()
}

/// The place of a unit offset in the order south, north, east, west.
pub open spec fn offset_index(d: Point) -> int {
    if d == (1int, 0int) {
        0
    } else if d == (-1int, 0int) {
        1
    } else if d == (0int, 1int) {
        2
    } else {
        3
    }
}

/// The place of the way an edge faces in the order south, north, east, west.
pub open spec fn facing_index(e: Edge) -> int {
    offset_index((e.1.0 - e.0.0, e.1.1 - e.0.1))
}

/// A finite set of cells has finitely many boundary edges, at most four for
/// each cell.
pub proof fn lemma_boundary_finite(cells: Set<Point>)
    requires
        cells.finite(),
    ensures
        boundary_edges(cells).finite(),
        boundary_edges(cells).len() <= 4 * cells.len(),
{
    let south = |p: Point| (p, step(p, (1, 0)));
    let north = |p: Point| (p, step(p, (-1, 0)));
    let east = |p: Point| (p, step(p, (0, 1)));
    let west = |p: Point| (p, step(p, (0, -1)));
    let all = cells.map(south).union(cells.map(north)).union(cells.map(east)).union(
        cells.map(west),
    );
    vstd::set_lib::lemma_map_size_bound(cells, cells.map(south), south);
    vstd::set_lib::lemma_map_size_bound(cells, cells.map(north), north);
    vstd::set_lib::lemma_map_size_bound(cells, cells.map(east), east);
    vstd::set_lib::lemma_map_size_bound(cells, cells.map(west), west);
    vstd::set_lib::lemma_len_union(cells.map(south), cells.map(north));
    vstd::set_lib::lemma_len_union(cells.map(south).union(cells.map(north)), cells.map(east));
    vstd::set_lib::lemma_len_union(
        cells.map(south).union(cells.map(north)).union(cells.map(east)),
        cells.map(west),
    );
    assert forall|e: Edge| boundary_edges(cells).contains(e) implies all.contains(e) by {
        let d = (e.1.0 - e.0.0, e.1.1 - e.0.1);
        assert(is_unit(d));
        if d == (1int, 0int) {
            assert(south(e.0) == e);
            assert(cells.map(south).contains(e));
        } else if d == (-1int, 0int) {
            assert(north(e.0) == e);
            assert(cells.map(north).contains(e));
        } else if d == (0int, 1int) {
            assert(east(e.0) == e);
            assert(cells.map(east).contains(e));
        } else {
            assert(west(e.0) == e);
            assert(cells.map(west).contains(e));
        }
    }
    vstd::set_lib::lemma_len_subset(boundary_edges(cells), all);
}

/// The perimeter of `cells`: for each member and each of the four
/// directions, one unit where the neighbour is no member.
pub fn perimeter(cells: &CoordSet) -> (n: u128)
    ensures
        n == perimeter_of(cells@),
{
    let members = cells.coordinates();
    let mut count: u128 = 0;
    let ghost mut edges: Set<Edge> = Set::empty();
    proof {
        cells.lemma_view();
    }
    let mut i: usize = 0;
    while i < members.len()
        invariant
            i <= members.len(),
            strictly_ordered(members@),
            lists(members@, cells@),
            forall|p: Point| cells@.contains(p) ==> in_range(p),
            edges.finite(),
            count == edges.len(),
            count <= 4 * i,
            forall|e: Edge|
                edges.contains(e) <==> listed_before(members@, i as int, e.0) && adjacent(e.0, e.1)
                    && !cells@.contains(e.1),
        decreases members.len() - i,
    {
        let pos = members[i];
        let ghost here = point(pos);
        assert(!listed_before(members@, i as int, here)) by {
            if listed_before(members@, i as int, here) {
                let j = choose|j: int| 0 <= j < i && point(#[trigger] members@[j]) == here;
                assert(key_of(point(members@[j])) < key_of(point(members@[i as int])));
            }
        }
        for idx in 0..4usize
            invariant
                i < members.len(),
                pos == members@[i as int],
                here == point(pos),
                !listed_before(members@, i as int, here),
                lists(members@, cells@),
                forall|p: Point| cells@.contains(p) ==> in_range(p),
                edges.finite(),
                count == edges.len(),
                count <= 4 * i + idx,
                forall|e: Edge|
                    edges.contains(e) <==> (listed_before(members@, i as int, e.0) || (e.0 == here
                        && facing_index(e) < idx)) && adjacent(e.0, e.1) && !cells@.contains(e.1),
        {
            let d = unit_offset(idx);
            let ghost e = (here, step(here, point(d)));
            let exposed = match neighbor(pos, d) {
                Some(next) => !cells.contains(next),
                None => true,
            };
            assert(facing_index(e) == idx);
            assert(adjacent(e.0, e.1));
            assert(exposed == !cells@.contains(e.1));
            if exposed {
                count += 1;
                proof {
                    assert(!edges.contains(e));
                    edges = edges.insert(e);
                }
            }
            assert forall|x: Edge|
                edges.contains(x) <==> (listed_before(members@, i as int, x.0) || (x.0 == here
                    && facing_index(x) < idx + 1)) && adjacent(x.0, x.1) && !cells@.contains(
                    x.1,
                ) by {
                if x.0 == here && adjacent(x.0, x.1) && facing_index(x) == idx {
                    assert(x.1 == e.1);
                }
            }
        }
        proof {
            assert forall|x: Edge|
                edges.contains(x) <==> listed_before(members@, i + 1, x.0) && adjacent(x.0, x.1)
                    && !cells@.contains(x.1) by {
                if listed_before(members@, i + 1, x.0) {
                    let j = choose|j: int| 0 <= j < i + 1 && point(#[trigger] members@[j]) == x.0;
                    if j < i {
                        assert(listed_before(members@, i as int, x.0));
                    }
                }
                if listed_before(members@, i as int, x.0) {
                    let j = choose|j: int| 0 <= j < i && point(#[trigger] members@[j]) == x.0;
                    assert(listed_before(members@, i + 1, x.0));
                }
                if x.0 == here {
                    assert(point(members@[i as int]) == here);
                    assert(listed_before(members@, i + 1, x.0));
                }
            }
        }
        i += 1;
    }
    proof {
        assert(edges =~= boundary_edges(cells@)) by {
            assert forall|x: Edge| edges.contains(x) <==> boundary_edges(cells@).contains(x) by {
                if cells@.contains(x.0) {
                    let j = choose|j: int|
                        0 <= j < members@.len() && point(#[trigger] members@[j]) == x.0;
                    assert(listed_before(members@, i as int, x.0));
                }
                if listed_before(members@, i as int, x.0) {
                    let j = choose|j: int| 0 <= j < i && point(#[trigger] members@[j]) == x.0;
                    assert(cells@.contains(point(members@[j])));
                }
            }
        }
    }
    count
}

/// The way a boundary edge faces, seen from the cell inside.
#[derive(Clone, Copy, Debug, PartialEq, Eq, Structural)]
pub enum Facing {
    South,
    North,
    East,
    West,
}

impl Facing {
    /// The unit offset from the cell inside to the position outside.
    pub open spec fn offset(self) -> Point {
        match self {
            Facing::South => (1, 0),
            Facing::North => (-1, 0),
            Facing::East => (0, 1),
            Facing::West => (0, -1),
        }
    }

    /// The unit offset from the cell inside to the position outside.
    pub fn delta(self) -> (d: Coordinate)
        ensures
            point(d) == self.offset(),
    {
        match self {
            Facing::South => (1, 0),
            Facing::North => (-1, 0),
            Facing::East => (0, 1),
            Facing::West => (0, -1),
        }
    }

    /// The facing at place `i` of the order south, north, east, west.
    pub fn from_index(i: usize) -> (f: Facing)
        requires
            i < 4,
        ensures
            f.offset() == unit_offsets()[i as int],
            offset_index(f.offset()) == i,
    {
        if i == 0 {
            Facing::South
        } else if i == 1 {
            Facing::North
        } else if i == 2 {
            Facing::East
        } else {
            Facing::West
        }
    }
}

/// A boundary edge: the cell inside and the way the edge faces.
#[derive(Clone, Copy, Debug, PartialEq, Eq)]
pub struct DirectedEdge {
    pub interior: Coordinate,
    pub facing: Facing,
}

impl View for DirectedEdge {
    type V = Edge;

    open spec fn view(&self) -> Edge {
        (point(self.interior), step(point(self.interior), self.facing.offset()))
    }
}

impl DirectedEdge {
    /// The edge next to this one on its line: the following one if
    /// `forward`, else the preceding one. `None` where its cell would leave
    /// the `i32` range.
    pub fn next_on_line(self, forward: bool) -> (next: Option<DirectedEdge>)
        ensures
            next is Some <==> in_range(shifted(self@, if forward { 1int } else { -1int }).0),
            next matches Some(e) ==> e@ == shifted(self@, if forward { 1int } else { -1int }),
    {
        let along: Coordinate = match self.facing {
            Facing::South => (0, 1),
            Facing::North => (0, 1),
            Facing::East => (1, 0),
            Facing::West => (1, 0),
        };
        let d: Coordinate = if forward {
            along
        } else {
            (-along.0, -along.1)
        };
        match neighbor(self.interior, d) {
            Some(interior) => Some(DirectedEdge { interior, facing: self.facing }),
            None => None,
        }
    }
}

/// A set of boundary edges, kept as one set of cells for each facing.
pub struct EdgeSet {
    south: CoordSet,
    north: CoordSet,
    east: CoordSet,
    west: CoordSet,
}

impl View for EdgeSet {
    type V = Set<Edge>;

    closed spec fn view(&self) -> Set<Edge> {
        Set::new(
            |e: Edge|
                adjacent(e.0, e.1) && (if facing_index(e) == 0 {
                    self.south@.contains(e.0)
                } else if facing_index(e) == 1 {
                    self.north@.contains(e.0)
                } else if facing_index(e) == 2 {
                    self.east@.contains(e.0)
                } else {
                    self.west@.contains(e.0)
                }),
        )
    }
}

impl EdgeSet {
    /// The number of edges held.
    pub closed spec fn size(&self) -> nat {
        self.south@.len() + self.north@.len() + self.east@.len() + self.west@.len()
    }

    /// Every edge of the set leads from an in-range cell to a position next
    /// to it.
    pub proof fn lemma_view(&self)
        ensures
            forall|e: Edge| self@.contains(e) ==> in_range(e.0) && adjacent(e.0, e.1),
    {
        self.south.lemma_view();
        self.north.lemma_view();
        self.east.lemma_view();
        self.west.lemma_view();
    }

    /// The empty set.
    pub fn new() -> (edges: EdgeSet)
        ensures
            edges@ == Set::<Edge>::empty(),
    {
        let edges = EdgeSet {
            south: CoordSet::new(),
            north: CoordSet::new(),
            east: CoordSet::new(),
            west: CoordSet::new(),
        };
        assert(edges@ =~= Set::<Edge>::empty());
        edges
    }

    /// Whether `edge` is in the set.
    pub fn contains(&self, edge: DirectedEdge) -> (b: bool)
        ensures
            b == self@.contains(edge@),
    {
        match edge.facing {
            Facing::South => self.south.contains(edge.interior),
            Facing::North => self.north.contains(edge.interior),
            Facing::East => self.east.contains(edge.interior),
            Facing::West => self.west.contains(edge.interior),
        }
    }

    /// Adds `edge`, and says whether it was new.
    pub fn insert(&mut self, edge: DirectedEdge) -> (added: bool)
        ensures
            final(self)@ == old(self)@.insert(edge@),
            added == !old(self)@.contains(edge@),
    {
        let added = match edge.facing {
            Facing::South => self.south.insert(edge.interior),
            Facing::North => self.north.insert(edge.interior),
            Facing::East => self.east.insert(edge.interior),
            Facing::West => self.west.insert(edge.interior),
        };
        assert(self@ =~= old(self)@.insert(edge@)) by {
            assert forall|e: Edge| self@.contains(e) <==> old(self)@.insert(edge@).contains(e) by {
                if adjacent(e.0, e.1) && facing_index(e) == facing_index(edge@) && e.0 == edge@.0 {
                    assert(e.1 == edge@.1);
                }
            }
        }
        added
    }

    /// Takes `edge` out, and says whether it was in the set.
    pub fn remove(&mut self, edge: DirectedEdge) -> (removed: bool)
        ensures
            final(self)@ == old(self)@.remove(edge@),
            removed == old(self)@.contains(edge@),
            final(self).size() == old(self).size() - (if removed { 1int } else { 0int }),
    {
        proof {
            self.south.lemma_view();
            self.north.lemma_view();
            self.east.lemma_view();
            self.west.lemma_view();
        }
        let removed = match edge.facing {
            Facing::South => self.south.remove(edge.interior),
            Facing::North => self.north.remove(edge.interior),
            Facing::East => self.east.remove(edge.interior),
            Facing::West => self.west.remove(edge.interior),
        };
        assert(self@ =~= old(self)@.remove(edge@)) by {
            assert forall|e: Edge| self@.contains(e) <==> old(self)@.remove(edge@).contains(e) by {
                if adjacent(e.0, e.1) && facing_index(e) == facing_index(edge@) && e.0 == edge@.0 {
                    assert(e.1 == edge@.1);
                }
            }
        }
        removed
    }

    /// Some edge of the set, unless the set is empty.
    pub fn any(&self) -> (edge: Option<DirectedEdge>)
        ensures
            edge is None <==> self@.is_empty(),
            edge matches Some(e) ==> self@.contains(e@),
    {
        if let Some(interior) = self.south.any() {
            let edge = DirectedEdge { interior, facing: Facing::South };
            assert(self@.contains(edge@));
            return Some(edge);
        }
        if let Some(interior) = self.north.any() {
            let edge = DirectedEdge { interior, facing: Facing::North };
            assert(self@.contains(edge@));
            return Some(edge);
        }
        if let Some(interior) = self.east.any() {
            let edge = DirectedEdge { interior, facing: Facing::East };
            assert(self@.contains(edge@));
            return Some(edge);
        }
        if let Some(interior) = self.west.any() {
            let edge = DirectedEdge { interior, facing: Facing::West };
            assert(self@.contains(edge@));
            return Some(edge);
        }
        assert(self@ =~= Set::<Edge>::empty());
        None
    }

    /// Whether the set holds no edge.
    pub fn is_empty(&self) -> (b: bool)
        ensures
            b <==> self@.is_empty(),
    {
        self.any().is_none()
    }
}

/// The boundary edges of `cells`.
pub fn boundary(cells: &CoordSet) -> (edges: EdgeSet)
    ensures
        edges@ == boundary_edges(cells@),
{
    let members = cells.coordinates();
    let mut edges = EdgeSet::new();
    proof {
        cells.lemma_view();
    }
    let mut i: usize = 0;
    while i < members.len()
        invariant
            i <= members.len(),
            lists(members@, cells@),
            forall|p: Point| cells@.contains(p) ==> in_range(p),
            forall|e: Edge|
                edges@.contains(e) <==> listed_before(members@, i as int, e.0) && adjacent(e.0, e.1)
                    && !cells@.contains(e.1),
        decreases members.len() - i,
    {
        let pos = members[i];
        let ghost here = point(pos);
        for idx in 0..4usize
            invariant
                i < members.len(),
                pos == members@[i as int],
                here == point(pos),
                lists(members@, cells@),
                forall|p: Point| cells@.contains(p) ==> in_range(p),
                forall|e: Edge|
                    edges@.contains(e) <==> (listed_before(members@, i as int, e.0) || (e.0 == here
                        && facing_index(e) < idx)) && adjacent(e.0, e.1) && !cells@.contains(e.1),
        {
            let facing = Facing::from_index(idx);
            let edge = DirectedEdge { interior: pos, facing };
            let exposed = match neighbor(pos, facing.delta()) {
                Some(next) => !cells.contains(next),
                None => true,
            };
            assert(facing_index(edge@) == idx);
            assert(adjacent(edge@.0, edge@.1));
            assert(exposed == !cells@.contains(edge@.1));
            if exposed {
                edges.insert(edge);
            }
            assert forall|x: Edge|
                edges@.contains(x) <==> (listed_before(members@, i as int, x.0) || (x.0 == here
                    && facing_index(x) < idx + 1)) && adjacent(x.0, x.1) && !cells@.contains(
                    x.1,
                ) by {
                if x.0 == here && adjacent(x.0, x.1) && facing_index(x) == idx {
                    assert(x.1 == edge@.1);
                }
            }
        }
        proof {
            assert forall|x: Edge|
                edges@.contains(x) <==> listed_before(members@, i + 1, x.0) && adjacent(x.0, x.1)
                    && !cells@.contains(x.1) by {
                if listed_before(members@, i + 1, x.0) {
                    let j = choose|j: int| 0 <= j < i + 1 && point(#[trigger] members@[j]) == x.0;
                    if j < i {
                        assert(listed_before(members@, i as int, x.0));
                    }
                }
                if listed_before(members@, i as int, x.0) {
                    let j = choose|j: int| 0 <= j < i && point(#[trigger] members@[j]) == x.0;
                    assert(listed_before(members@, i + 1, x.0));
                }
                if x.0 == here {
                    assert(point(members@[i as int]) == here);
                    assert(listed_before(members@, i + 1, x.0));
                }
            }
        }
        i += 1;
    }
    proof {
        assert(edges@ =~= boundary_edges(cells@)) by {
            assert forall|x: Edge| edges@.contains(x) <==> boundary_edges(cells@).contains(x) by {
                if cells@.contains(x.0) {
                    let j = choose|j: int|
                        0 <= j < members@.len() && point(#[trigger] members@[j]) == x.0;
                    assert(listed_before(members@, i as int, x.0));
                }
                if listed_before(members@, i as int, x.0) {
                    let j = choose|j: int| 0 <= j < i && point(#[trigger] members@[j]) == x.0;
                    assert(cells@.contains(point(members@[j])));
                }
            }
        }
    }
    edges
}

/// How far along its line `x` lies from `e`, where both lie on one line.
pub open spec fn distance_along(e: Edge, x: Edge) -> int {
    if e.0.1 == e.1.1 {
        x.0.1 - e.0.1
    } else {
        x.0.0 - e.0.0
    }
}

/// The edges on the line of `e` that face as `e` does and lie between `lo`
/// and `hi` places from it.
pub open spec fn stretch(e: Edge, lo: int, hi: int) -> Set<Edge> {
    Set::new(|x: Edge| x == shifted(e, distance_along(e, x)) && lo <= distance_along(e, x) <= hi)
}

/// The edges of `left` that begin a run of `all`.
pub open spec fn starts_within(all: Set<Edge>, left: Set<Edge>) -> Set<Edge> {
    left.filter(|e: Edge| !all.contains(shifted(e, -1)))
}

/// What holds while the runs of `all` are being counted: what is left is
/// made of whole runs, and each run taken away has been counted once.
#[verifier::opaque]
spec fn compressing(all: Set<Edge>, left: Set<Edge>, count: int) -> bool {
    &&& left.subset_of(all)
    &&& forall|e: Edge| #[trigger]
        left.contains(e) ==> (all.contains(shifted(e, 1)) ==> left.contains(shifted(e, 1))) && (
        all.contains(shifted(e, -1)) ==> left.contains(shifted(e, -1)))
    &&& count + starts_within(all, left).len() == side_starts(all).len()
}

/// Before anything is taken away, nothing has been counted.
proof fn lemma_compress_starts(all: Set<Edge>)
    ensures
        compressing(all, all, 0),
{
    reveal(compressing);
    assert(starts_within(all, all) =~= side_starts(all));
}

/// With nothing left, every run has been counted.
proof fn lemma_compress_ends(all: Set<Edge>, left: Set<Edge>, count: int)
    requires
        compressing(all, left, count),
        left.is_empty(),
    ensures
        count == side_starts(all).len(),
{
    reveal(compressing);
    assert(starts_within(all, left) =~= Set::<Edge>::empty());
}

/// While runs are being counted, the count stays within the number of runs.
proof fn lemma_compress_bound(all: Set<Edge>, left: Set<Edge>, count: int)
    requires
        compressing(all, left, count),
    ensures
        count <= side_starts(all).len(),
        left.subset_of(all),
{
    reveal(compressing);
}

/// Taking away the whole run around `seed` counts as one side.
proof fn lemma_compress_run(
    all: Set<Edge>,
    left: Set<Edge>,
    count: int,
    seed: Edge,
    back: int,
    ahead: int,
)
    requires
        all.finite(),
        compressing(all, left, count),
        back >= 0,
        ahead >= 0,
        forall|j: int| -back <= j <= ahead ==> left.contains(#[trigger] shifted(seed, j)),
        !left.contains(shifted(seed, -back - 1)),
        !left.contains(shifted(seed, ahead + 1)),
    ensures
        compressing(all, left.difference(stretch(seed, -back, ahead)), count + 1),
{
    reveal(compressing);
    let run = stretch(seed, -back, ahead);
    let left2 = left.difference(run);
    let first = shifted(seed, -back);
    assert(left.contains(first));
    assert(!all.contains(shifted(first, -1))) by {
        assert(shifted(first, -1) == shifted(seed, -back - 1));
    }
    assert(run.contains(first)) by {
        assert(distance_along(seed, first) == -back);
    }
    assert forall|e: Edge| #[trigger] left2.contains(e) implies (all.contains(shifted(e, 1))
        ==> left2.contains(shifted(e, 1))) && (all.contains(shifted(e, -1)) ==> left2.contains(
        shifted(e, -1),
    )) by {
        let up = shifted(e, 1);
        if all.contains(up) && run.contains(up) {
            let j = distance_along(seed, up);
            assert(e == shifted(seed, j - 1));
            assert(distance_along(seed, e) == j - 1);
            if j - 1 >= -back {
                assert(run.contains(e));
            }
        }
        let down = shifted(e, -1);
        if all.contains(down) && run.contains(down) {
            let j = distance_along(seed, down);
            assert(e == shifted(seed, j + 1));
            assert(distance_along(seed, e) == j + 1);
            if j + 1 <= ahead {
                assert(run.contains(e));
            }
        }
    }
    let before = starts_within(all, left);
    let after = starts_within(all, left2);
    assert(after =~= before.remove(first)) by {
        assert forall|e: Edge| after.contains(e) <==> before.remove(first).contains(e) by {
            if before.contains(e) && e != first && run.contains(e) {
                let j = distance_along(seed, e);
                assert(j > -back) by {
                    if j == -back {
                        assert(e == first);
                    }
                }
                assert(left.contains(shifted(seed, j - 1)));
                assert(shifted(e, -1) == shifted(seed, j - 1));
            }
        }
    }
    vstd::set_lib::lemma_set_subset_finite(all, left);
    vstd::set_lib::lemma_set_subset_finite(left, before);
    assert(before.contains(first));
}

/// Takes out of `edges` the edges that follow `from` on its line, forward or
/// backward, up to the first one that is missing. The ghost result is the
/// number of edges taken out.
fn strip_run(edges: &mut EdgeSet, from: DirectedEdge, forward: bool) -> (taken: Ghost<int>)
    ensures
        taken@ >= 0,
        forward ==> {
            &&& forall|j: int| 1 <= j <= taken@ ==> old(edges)@.contains(#[trigger] shifted(from@, j))
            &&& !old(edges)@.contains(shifted(from@, taken@ + 1))
            &&& final(edges)@ == old(edges)@.difference(stretch(from@, 1, taken@))
        },
        !forward ==> {
            &&& forall|j: int|
                1 <= j <= taken@ ==> old(edges)@.contains(#[trigger] shifted(from@, -j))
            &&& !old(edges)@.contains(shifted(from@, -taken@ - 1))
            &&& final(edges)@ == old(edges)@.difference(stretch(from@, -taken@, -1))
        },
        final(edges).size() <= old(edges).size(),
{
    let ghost whole = edges@;
    let ghost mut taken: int = 0;
    let mut current = from;
    proof {
        edges.lemma_view();
        assert(edges@ =~= whole.difference(stretch(from@, 1, 0)));
        assert(edges@ =~= whole.difference(stretch(from@, 0, -1)));
    }
    loop
        invariant
            taken >= 0,
            forall|e: Edge| whole.contains(e) ==> in_range(e.0),
            current@ == shifted(from@, if forward { taken } else { -taken }),
            forward ==> {
                &&& forall|j: int| 1 <= j <= taken ==> whole.contains(#[trigger] shifted(from@, j))
                &&& edges@ == whole.difference(stretch(from@, 1, taken))
            },
            !forward ==> {
                &&& forall|j: int| 1 <= j <= taken ==> whole.contains(#[trigger] shifted(from@, -j))
                &&& edges@ == whole.difference(stretch(from@, -taken, -1))
            },
            edges.size() <= old(edges).size(),
        ensures
            taken >= 0,
            forward ==> {
                &&& forall|j: int| 1 <= j <= taken ==> whole.contains(#[trigger] shifted(from@, j))
                &&& !whole.contains(shifted(from@, taken + 1))
                &&& edges@ == whole.difference(stretch(from@, 1, taken))
            },
            !forward ==> {
                &&& forall|j: int| 1 <= j <= taken ==> whole.contains(#[trigger] shifted(from@, -j))
                &&& !whole.contains(shifted(from@, -taken - 1))
                &&& edges@ == whole.difference(stretch(from@, -taken, -1))
            },
            edges.size() <= old(edges).size(),
        decreases edges.size(),
    {
        let ghost target = shifted(from@, if forward { taken + 1 } else { -taken - 1 });
        assert(target == shifted(current@, if forward { 1int } else { -1int }));
        assert(distance_along(from@, target) == (if forward { taken + 1 } else { -taken - 1 }));
        let ghost held = edges@;
        let next = match current.next_on_line(forward) {
            Some(next) => next,
            None => {
                break ;
            },
        };
        if !edges.remove(next) {
            break ;
        }
        current = next;
        proof {
            taken = taken + 1;
            if forward {
                assert(edges@ =~= whole.difference(stretch(from@, 1, taken)));
            } else {
                assert(edges@ =~= whole.difference(stretch(from@, -taken, -1)));
            }
        }
    }
    Ghost(taken)
}

/// The number of sides of `cells`: one edge after another is taken from the
/// boundary together with the whole run that it belongs to, and the runs
/// are counted.
pub fn side_count(cells: &CoordSet) -> (n: u128)
    ensures
        n == sides_of(cells@),
{
    let mut edges = boundary(cells);
    let ghost all = edges@;
    let size = cells.len();
    let mut count: u128 = 0;
    proof {
        cells.lemma_view();
        lemma_boundary_finite(cells@);
        lemma_compress_starts(all);
        vstd::set_lib::lemma_len_subset(side_starts(all), all);
    }
    loop
        invariant
            all.finite(),
            side_starts(all).len() <= 4 * usize::MAX,
            compressing(all, edges@, count as int),
        ensures
            count == side_starts(all).len(),
        decreases edges.size(),
    {
        let seed = match edges.any() {
            Some(seed) => seed,
            None => {
                proof {
                    lemma_compress_ends(all, edges@, count as int);
                }
                break ;
            },
        };
        let ghost left = edges@;
        let back = strip_run(&mut edges, seed, false);
        let ghost midway = edges@;
        assert(midway.contains(seed@)) by {
            assert(distance_along(seed@, seed@) == 0);
        }
        let ahead = strip_run(&mut edges, seed, true);
        edges.remove(seed);
        proof {
            assert(shifted(seed@, 0) == seed@);
            assert forall|j: int| -back@ <= j <= ahead@ implies left.contains(
                #[trigger] shifted(seed@, j),
            ) by {
                if j < 0 {
                    assert(left.contains(shifted(seed@, -(-j))));
                } else if j > 0 {
                    assert(midway.contains(shifted(seed@, j)));
                }
            }
            assert(!left.contains(shifted(seed@, ahead@ + 1))) by {
                let x = shifted(seed@, ahead@ + 1);
                assert(distance_along(seed@, x) == ahead@ + 1);
                assert(!stretch(seed@, -back@, -1).contains(x));
            }
            assert(edges@ =~= left.difference(stretch(seed@, -back@, ahead@))) by {
                assert forall|x: Edge|
                    edges@.contains(x) <==> left.difference(
                        stretch(seed@, -back@, ahead@),
                    ).contains(x) by {
                    if x == shifted(seed@, distance_along(seed@, x)) && distance_along(seed@, x)
                        == 0 {
                        assert(x == seed@);
                    }
                }
            }
            lemma_compress_run(all, left, count as int, seed@, back@, ahead@);
            lemma_compress_bound(all, edges@, count + 1);
        }
        count += 1;
    }
    count
}

/// A set of cells has at most as many sides as it has boundary edges.
pub proof fn lemma_sides_at_most_perimeter(cells: Set<Point>)
    requires
        cells.finite(),
    ensures
        sides_of(cells) <= perimeter_of(cells),
{
    lemma_boundary_finite(cells);
    vstd::set_lib::lemma_len_subset(side_starts(boundary_edges(cells)), boundary_edges(cells));
}

/// A single cell has four boundary edges and four sides.
pub proof fn lemma_single_cell(p: Point)
    ensures
        perimeter_of(set![p]) == 4,
        sides_of(set![p]) == 4,
{
    let cells = set![p];
    let edges = boundary_edges(cells);
    let south = (p, step(p, (1, 0)));
    let north = (p, step(p, (-1, 0)));
    let east = (p, step(p, (0, 1)));
    let west = (p, step(p, (0, -1)));
    let four = Set::<Edge>::empty().insert(south).insert(north).insert(east).insert(west);
    assert(edges =~= four) by {
        assert forall|e: Edge| edges.contains(e) implies four.contains(e) by {
            assert(is_unit((e.1.0 - e.0.0, e.1.1 - e.0.1)));
        }
        assert(adjacent(p, south.1) && adjacent(p, north.1) && adjacent(p, east.1) && adjacent(
            p,
            west.1,
        ));
    }
    assert(four.len() == 4) by {
        broadcast use vstd::set::group_set_axioms;

    }
    assert(side_starts(edges) =~= edges);
}

} // verus!
