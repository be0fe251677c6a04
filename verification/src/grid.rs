//! Integer coordinates and a sparse grid keyed by them.
//!
//! A coordinate is a pair `(row, column)` of `i32`. Specifications speak of
//! coordinates as pairs of mathematical integers, so that the neighbour of a
//! cell on the rim of the `i32` range is still a well-defined position (one
//! that no grid can hold).
//!
//! Grids and coordinate sets are hash tables keyed by a single `u64`: the
//! pair is packed row-major, which makes key order the lexicographic order
//! on `(row, column)`.

use std::collections::HashMap;
use std::collections::HashSet;
use vstd::prelude::*;
use vstd::std_specs::iter::IteratorSpec;

verus! {

/// A cell position: `(row, column)`.
pub type Coordinate = (i32, i32);

/// A position as specifications see it.
pub type Point = (int, int);

/// The mathematical position of a coordinate.
pub open spec fn point(c: Coordinate) -> Point {
    (c.0 as int, c.1 as int)
}

/// Whether both components of `p` fit in an `i32`.
pub open spec fn in_range(p: Point) -> bool {
    &&& i32::MIN <= p.0 <= i32::MAX
    &&& i32::MIN <= p.1 <= i32::MAX
}

/// Row-major packing of an in-range position into a single key.
pub open spec fn key_of(p: Point) -> int {
    (p.0 + 0x8000_0000) * 0x1_0000_0000 + (p.1 + 0x8000_0000)
}

/// The position that a key stands for: the inverse of [`key_of`].
pub open spec fn point_of(k: int) -> Point {
    (k / 0x1_0000_0000 - 0x8000_0000, k % 0x1_0000_0000 - 0x8000_0000)
}

/// Packing is a bijection between in-range positions and `u64` keys.
pub proof fn lemma_key_bijection()
    ensures
        forall|p: Point| #[trigger]
            in_range(p) ==> 0 <= key_of(p) <= u64::MAX && point_of(key_of(p)) == p,
        forall|k: int|
            0 <= k <= u64::MAX ==> in_range(#[trigger] point_of(k)) && key_of(point_of(k)) == k,
{
}

/// Key order is lexicographic order on `(row, column)`.
pub proof fn lemma_key_order(p: Point, q: Point)
    requires
        in_range(p),
        in_range(q),
    ensures
        key_of(p) < key_of(q) <==> (p.0 < q.0 || (p.0 == q.0 && p.1 < q.1)),
        key_of(p) == key_of(q) <==> p == q,
{
}

/// Packs a coordinate into its key.
pub fn encode(c: Coordinate) -> (k: u64)
    ensures
        k == key_of(point(c)),
{
    let row: u64 = (c.0 as i64 + 0x8000_0000) as u64;
    let col: u64 = (c.1 as i64 + 0x8000_0000) as u64;
    row * 0x1_0000_0000 + col
}

/// Unpacks a key into its coordinate.
pub fn decode(k: u64) -> (c: Coordinate)
    ensures
        point(c) == point_of(k as int),
{
    let row: i64 = (k / 0x1_0000_0000) as i64 - 0x8000_0000;
    let col: i64 = (k % 0x1_0000_0000) as i64 - 0x8000_0000;
    (row as i32, col as i32)
}

/// One step from `p` by the offset `d`.
pub open spec fn step(p: Point, d: Point) -> Point {
    (p.0 + d.0, p.1 + d.1)
}

/// Whether `d` is one of the four unit offsets: south, north, east, west.
pub open spec fn is_unit(d: Point) -> bool {
    d == (1int, 0int) || d == (-1int, 0int) || d == (0int, 1int) || d == (0int, -1int)
}

/// Whether `p` and `q` share an edge.
pub open spec fn adjacent(p: Point, q: Point) -> bool {
    is_unit((q.0 - p.0, q.1 - p.1))
}

/// The four unit offsets in the order in which neighbours are visited.
pub open spec fn unit_offsets() -> Seq<Point> {
    seq![(1int, 0int), (-1int, 0int), (0int, 1int), (0int, -1int)]
}

/// The `i`-th unit offset (south, north, east, west).
pub fn unit_offset(i: usize) -> (d: Coordinate)
    requires
        i < 4,
    ensures
        point(d) == unit_offsets()[i as int],
        is_unit(point(d)),
{
    if i == 0 {
        (1, 0)
    } else if i == 1 {
        (-1, 0)
    } else if i == 2 {
        (0, 1)
    } else {
        (0, -1)
    }
}

/// The neighbour of `c` at offset `d`, or `None` where it leaves the `i32`
/// range (and so can belong to no grid).
pub fn neighbor(c: Coordinate, d: Coordinate) -> (n: Option<Coordinate>)
    ensures
        in_range(step(point(c), point(d))) <==> n is Some,
        n matches Some(q) ==> point(q) == step(point(c), point(d)),
{
    let row: i64 = c.0 as i64 + d.0 as i64;
    let col: i64 = c.1 as i64 + d.1 as i64;
    if row < i32::MIN as i64 || row > i32::MAX as i64 || col < i32::MIN as i64 || col
        > i32::MAX as i64 {
        None
    } else {
        Some((row as i32, col as i32))
    }
}

/// Sorts keys into increasing order.
///
/// Trusted: calls `sort_unstable` of the standard library's slices. The
/// contract claims what its documentation states: the outcome is the same
/// keys, each as often as before, in non-decreasing order.
#[verifier::external_body]
fn sort_keys(keys: &mut Vec<u64>)
    ensures
        final(keys)@.to_multiset() == old(keys)@.to_multiset(),
        forall|i: int, j: int|
            0 <= i <= j < final(keys)@.len() ==> final(keys)@[i] <= final(keys)@[j],
{
    keys.sort_unstable();
}

/// Whether `v` lists positions in strictly increasing row-major order.
pub open spec fn strictly_ordered(v: Seq<Coordinate>) -> bool {
    forall|i: int, j: int|
        0 <= i < j < v.len() ==> key_of(point(#[trigger] v[i])) < key_of(point(#[trigger] v[j]))
}

/// Whether `v` lists exactly the positions of `s`.
pub open spec fn lists(v: Seq<Coordinate>, s: Set<Point>) -> bool {
    &&& forall|i: int| 0 <= i < v.len() ==> s.contains(point(#[trigger] v[i]))
    &&& forall|p: Point| s.contains(p) ==> exists|i: int| 0 <= i < v.len() && point(#[trigger] v[i]) == p
}

/// The positions of `s` in increasing row-major order.
pub open spec fn sorted_points(s: Set<Point>) -> Seq<Coordinate> {
    choose|v: Seq<Coordinate>| strictly_ordered(v) && lists(v, s)
}

/// A set of positions has at most one listing in increasing row-major
/// order.
pub proof fn lemma_sorted_unique(v: Seq<Coordinate>, w: Seq<Coordinate>, s: Set<Point>)
    requires
        strictly_ordered(v),
        lists(v, s),
        strictly_ordered(w),
        lists(w, s),
    ensures
        v == w,
    decreases v.len(),
{
    if v.len() == 0 {
        if w.len() > 0 {
            assert(s.contains(point(w[0])));
            let i = choose|i: int| 0 <= i < v.len() && point(#[trigger] v[i]) == point(w[0]);
        }
        assert(v =~= w);
    } else {
        let top = v.last();
        assert(s.contains(point(v[v.len() - 1])));
        let j = choose|j: int| 0 <= j < w.len() && point(#[trigger] w[j]) == point(top);
        assert(w.len() > 0);
        assert(s.contains(point(w[w.len() - 1])));
        let i = choose|i: int| 0 <= i < v.len() && point(#[trigger] v[i]) == point(w.last());
        // each last entry is the largest of the set, so they are the same
        assert(point(w.last()) == point(top)) by {
            if j < w.len() - 1 {
                assert(key_of(point(w[j])) < key_of(point(w[w.len() - 1])));
            }
            if i < v.len() - 1 {
                assert(key_of(point(v[i])) < key_of(point(v[v.len() - 1])));
            }
        }
        let rest = s.remove(point(top));
        assert(lists(v.drop_last(), rest)) by {
            assert forall|k: int| 0 <= k < v.drop_last().len() implies rest.contains(
                point(#[trigger] v.drop_last()[k]),
            ) by {
                assert(s.contains(point(v[k])));
                assert(key_of(point(v[k])) < key_of(point(v[v.len() - 1])));
            }
            assert forall|p: Point| rest.contains(p) implies exists|k: int|
                0 <= k < v.drop_last().len() && point(#[trigger] v.drop_last()[k]) == p by {
                let k = choose|k: int| 0 <= k < v.len() && point(#[trigger] v[k]) == p;
                assert(point(v.drop_last()[k]) == p);
            }
        }
        assert(lists(w.drop_last(), rest)) by {
            assert forall|k: int| 0 <= k < w.drop_last().len() implies rest.contains(
                point(#[trigger] w.drop_last()[k]),
            ) by {
                assert(s.contains(point(w[k])));
                assert(key_of(point(w[k])) < key_of(point(w[w.len() - 1])));
            }
            assert forall|p: Point| rest.contains(p) implies exists|k: int|
                0 <= k < w.drop_last().len() && point(#[trigger] w.drop_last()[k]) == p by {
                let k = choose|k: int| 0 <= k < w.len() && point(#[trigger] w[k]) == p;
                assert(point(w.drop_last()[k]) == p);
            }
        }
        assert(strictly_ordered(v.drop_last()));
        assert(strictly_ordered(w.drop_last()));
        lemma_sorted_unique(v.drop_last(), w.drop_last(), rest);
        assert(v =~= v.drop_last().push(top));
        assert(w =~= w.drop_last().push(w.last()));
    }
}

/// Whether `p` is among the first `n` positions of `v`.
pub open spec fn listed_before(v: Seq<Coordinate>, n: int, p: Point) -> bool {
    exists|j: int| 0 <= j < n && point(#[trigger] v[j]) == p
}

/// Sorts the keys of a table and unpacks them.
fn sorted_coordinates(keys: Vec<u64>) -> (v: Vec<Coordinate>)
    requires
        keys@.no_duplicates(),
    ensures
        strictly_ordered(v@),
        v@.len() == keys@.len(),
        forall|i: int| 0 <= i < v@.len() ==> keys@.contains(key_of(point(#[trigger] v@[i])) as u64),
        forall|k: u64|
            keys@.contains(k) ==> exists|i: int|
                0 <= i < v@.len() && key_of(point(#[trigger] v@[i])) == k,
{
    let mut keys = keys;
    let ghost unsorted = keys@;
    sort_keys(&mut keys);
    proof {
        broadcast use vstd::seq_lib::group_to_multiset_ensures;

        lemma_key_bijection();
        unsorted.lemma_multiset_has_no_duplicates();
        keys@.lemma_multiset_has_no_duplicates_conv();
        assert forall|k: u64| unsorted.contains(k) <==> keys@.contains(k) by {
            assert(unsorted.to_multiset().count(k) == keys@.to_multiset().count(k));
        }
        assert(keys@.len() == unsorted.len()) by {
            assert(keys@.to_multiset().len() == unsorted.to_multiset().len());
        }
    }
    let mut v: Vec<Coordinate> = Vec::new();
    let mut i: usize = 0;
    while i < keys.len()
        invariant
            i <= keys.len(),
            v@.len() == i,
            forall|j: int| 0 <= j < i ==> key_of(point(#[trigger] v@[j])) == keys@[j],
        decreases keys.len() - i,
    {
        proof {
            lemma_key_bijection();
        }
        v.push(decode(keys[i]));
        i += 1;
    }
    proof {
        assert forall|k: u64| unsorted.contains(k) implies exists|i: int|
            0 <= i < v@.len() && key_of(point(#[trigger] v@[i])) == k by {
            let j = choose|j: int| 0 <= j < keys@.len() && keys@[j] == k;
            assert(key_of(point(v@[j])) == k);
        }
        assert forall|i: int| 0 <= i < v@.len() implies unsorted.contains(
            key_of(point(#[trigger] v@[i])) as u64,
        ) by {
            assert(keys@.contains(keys@[i]));
        }
    }
    v
}

/// A mapping from coordinates to cell labels. A coordinate without an entry
/// is simply not a cell of the grid.
pub struct SparseGrid<L> {
    cells: HashMap<u64, L>,
}

impl<L> View for SparseGrid<L> {
    type V = Map<Point, L>;

    closed spec fn view(&self) -> Map<Point, L> {
        Map::new(
            |p: Point| in_range(p) && self.cells@.contains_key(key_of(p) as u64),
            |p: Point| self.cells@[key_of(p) as u64],
        )
    }
}

impl<L: Copy> SparseGrid<L> {
    /// Every grid is finite and holds in-range positions only.
    pub proof fn lemma_view(&self)
        ensures
            self@.dom().finite(),
            forall|p: Point| #[trigger] self@.contains_key(p) ==> in_range(p),
    {
        broadcast use vstd::std_specs::hash::group_hash_axioms;

        lemma_key_bijection();
        let keys = self.cells@.dom();
        let f = |k: u64| point_of(k as int);
        keys.lemma_map_finite(f);
        assert forall|p: Point| self@.dom().contains(p) implies keys.map(f).contains(p) by {
            let k = key_of(p) as u64;
            assert(keys.contains(k) && f(k) == p);
        }
        vstd::set_lib::lemma_set_subset_finite(keys.map(f), self@.dom());
    }

    /// The grid without cells.
    pub fn new() -> (grid: SparseGrid<L>)
        ensures
            grid@ == Map::<Point, L>::empty(),
    {
        let grid = SparseGrid { cells: HashMap::new() };
        assert(grid@ =~= Map::<Point, L>::empty());
        grid
    }

    /// The view has as many positions as the table has keys.
    proof fn lemma_len(&self)
        ensures
            self@.dom().len() == self.cells@.dom().len(),
    {
        broadcast use vstd::std_specs::hash::group_hash_axioms;

        lemma_key_bijection();
        let keys = self.cells@.dom();
        let f = |k: u64| point_of(k as int);
        assert(keys.map(f) =~= self@.dom()) by {
            assert forall|p: Point| self@.dom().contains(p) implies keys.map(f).contains(p) by {
                let k = key_of(p) as u64;
                assert(keys.contains(k) && f(k) == p);
            }
        }
        assert(vstd::relations::injective_on(f, keys)) by {
            assert forall|a: u64, b: u64| #[trigger] f(a) == #[trigger] f(b) implies a == b by {
                assert(key_of(point_of(a as int)) == a);
                assert(key_of(point_of(b as int)) == b);
            }
        }
        vstd::set_lib::lemma_map_size(keys, self@.dom(), f);
    }

    /// A grid with the same cells.
    pub fn duplicate(&self) -> (copy: SparseGrid<L>)
        ensures
            copy@ == self@,
    {
        let copy = SparseGrid { cells: self.cells.clone() };
        assert(copy@ =~= self@);
        copy
    }

    /// The number of cells.
    pub fn len(&self) -> (n: usize)
        ensures
            n == self@.dom().len(),
    {
        broadcast use vstd::std_specs::hash::group_hash_axioms;

        proof {
            self.lemma_len();
        }
        self.cells.len()
    }

    /// Whether the grid has no cell.
    pub fn is_empty(&self) -> (b: bool)
        ensures
            b <==> self@.dom().is_empty(),
    {
        let n = self.len();
        proof {
            self.lemma_view();
            if n == 0 {
                self@.dom().lemma_len0_is_empty();
            }
        }
        n == 0
    }

    /// Sets the label of the cell at `c`, and returns the label it had.
    pub fn insert(&mut self, c: Coordinate, label: L) -> (previous: Option<L>)
        ensures
            final(self)@ == old(self)@.insert(point(c), label),
            previous == (if old(self)@.contains_key(point(c)) {
                Some(old(self)@[point(c)])
            } else {
                None
            }),
    {
        broadcast use vstd::std_specs::hash::group_hash_axioms;

        proof {
            lemma_key_bijection();
        }
        let previous = self.cells.insert(encode(c), label);
        assert(self@ =~= old(self)@.insert(point(c), label));
        previous
    }

    /// The label of the cell at `c`, if there is one.
    pub fn get(&self, c: Coordinate) -> (label: Option<L>)
        ensures
            label == (if self@.contains_key(point(c)) {
                Some(self@[point(c)])
            } else {
                None
            }),
    {
        broadcast use vstd::std_specs::hash::group_hash_axioms;

        proof {
            lemma_key_bijection();
        }
        let k = encode(c);
        match self.cells.get(&k) {
            Some(label) => Some(*label),
            None => None,
        }
    }

    /// Whether there is a cell at `c`.
    pub fn contains(&self, c: Coordinate) -> (b: bool)
        ensures
            b == self@.contains_key(point(c)),
    {
        broadcast use vstd::std_specs::hash::group_hash_axioms;

        proof {
            lemma_key_bijection();
        }
        let k = encode(c);
        self.cells.contains_key(&k)
    }

    /// Takes the cell at `c` out of the grid, and returns the label it had.
    pub fn remove(&mut self, c: Coordinate) -> (previous: Option<L>)
        ensures
            final(self)@ == old(self)@.remove(point(c)),
            previous == (if old(self)@.contains_key(point(c)) {
                Some(old(self)@[point(c)])
            } else {
                None
            }),
    {
        broadcast use vstd::std_specs::hash::group_hash_axioms;

        proof {
            lemma_key_bijection();
        }
        let k = encode(c);
        let previous = self.cells.remove(&k);
        assert(self@ =~= old(self)@.remove(point(c)));
        previous
    }

    /// The positions of all cells, in increasing row-major order.
    pub fn coordinates(&self) -> (v: Vec<Coordinate>)
        ensures
            strictly_ordered(v@),
            lists(v@, self@.dom()),
            v@.len() == self@.dom().len(),
    {
        broadcast use vstd::std_specs::hash::group_hash_axioms;

        let mut keys: Vec<u64> = Vec::new();
        let ghost all: Seq<u64> = self.cells.keys().remaining().unref();
        for k in it: self.cells.keys()
            invariant
                all == it.seq().unref(),
                keys@ == all.take(it.index()),
        {
            keys.push(*k);
        }
        assert(all.take(all.len() as int) == all);
        let ghost unsorted = keys@;
        let v = sorted_coordinates(keys);
        proof {
            lemma_key_bijection();
            self.lemma_len();
            assert forall|p: Point| self@.dom().contains(p) implies exists|i: int|
                0 <= i < v@.len() && point(#[trigger] v@[i]) == p by {
                let k = key_of(p) as u64;
                assert(unsorted.to_set().contains(k));
                let i = choose|i: int| 0 <= i < v@.len() && key_of(point(#[trigger] v@[i])) == k;
                assert(point_of(key_of(point(v@[i]))) == point(v@[i]));
            }
            assert forall|i: int| 0 <= i < v@.len() implies self@.dom().contains(
                point(#[trigger] v@[i]),
            ) by {
                let k = key_of(point(v@[i])) as u64;
                assert(unsorted.to_set().contains(k));
            }
        }
        v
    }

    /// The four positions that share an edge with `c`: south, north, east and
    /// west of it.
    pub fn neighbors4(c: Coordinate) -> (n: [Coordinate; 4])
        requires
            in_range(step(point(c), (1, 0))),
            in_range(step(point(c), (-1, 0))),
            in_range(step(point(c), (0, 1))),
            in_range(step(point(c), (0, -1))),
        ensures
            forall|i: int|
                0 <= i < 4 ==> point(#[trigger] n[i]) == step(point(c), unit_offsets()[i]),
    {
        [(c.0 + 1, c.1), (c.0 - 1, c.1), (c.0, c.1 + 1), (c.0, c.1 - 1)]
    }
}

/// A finite set of coordinates.
pub struct CoordSet {
    members: HashSet<u64>,
}

impl View for CoordSet {
    type V = Set<Point>;

    closed spec fn view(&self) -> Set<Point> {
        Set::new(|p: Point| in_range(p) && self.members@.contains(key_of(p) as u64))
    }
}

impl CoordSet {
    /// Every coordinate set is finite and holds in-range positions only.
    pub proof fn lemma_view(&self)
        ensures
            self@.finite(),
            forall|p: Point| #[trigger] self@.contains(p) ==> in_range(p),
    {
        broadcast use vstd::std_specs::hash::group_hash_axioms;

        lemma_key_bijection();
        self.lemma_members_finite();
        let keys = self.members@;
        let f = |k: u64| point_of(k as int);
        keys.lemma_map_finite(f);
        assert forall|p: Point| self@.contains(p) implies keys.map(f).contains(p) by {
            let k = key_of(p) as u64;
            assert(keys.contains(k) && f(k) == p);
        }
        vstd::set_lib::lemma_set_subset_finite(keys.map(f), self@);
    }

    /// The table holds finitely many keys.
    proof fn lemma_members_finite(&self)
        ensures
            self.members@.finite(),
    {
        broadcast use vstd::std_specs::hash::group_hash_axioms;

        let listed = vstd::std_specs::hash::spec_hash_keys_iter(&self.members).remaining().unref();
        vstd::seq_lib::seq_to_set_is_finite(listed);
    }

    /// The view has as many positions as the table has keys.
    proof fn lemma_len(&self)
        ensures
            self@.len() == self.members@.len(),
    {
        broadcast use vstd::std_specs::hash::group_hash_axioms;

        lemma_key_bijection();
        self.lemma_members_finite();
        let keys = self.members@;
        let f = |k: u64| point_of(k as int);
        assert(keys.map(f) =~= self@) by {
            assert forall|p: Point| self@.contains(p) implies keys.map(f).contains(p) by {
                let k = key_of(p) as u64;
                assert(keys.contains(k) && f(k) == p);
            }
        }
        assert(vstd::relations::injective_on(f, keys)) by {
            assert forall|a: u64, b: u64| #[trigger] f(a) == #[trigger] f(b) implies a == b by {
                assert(key_of(point_of(a as int)) == a);
                assert(key_of(point_of(b as int)) == b);
            }
        }
        vstd::set_lib::lemma_map_size(keys, self@, f);
    }

    /// The empty set.
    pub fn new() -> (set: CoordSet)
        ensures
            set@ == Set::<Point>::empty(),
    {
        let set = CoordSet { members: HashSet::new() };
        assert(set@ =~= Set::<Point>::empty());
        set
    }

    /// The number of members.
    pub fn len(&self) -> (n: usize)
        ensures
            n == self@.len(),
    {
        broadcast use vstd::std_specs::hash::group_hash_axioms;

        proof {
            self.lemma_len();
        }
        self.members.len()
    }

    /// Whether the set has no member.
    pub fn is_empty(&self) -> (b: bool)
        ensures
            b <==> self@.is_empty(),
    {
        let n = self.len();
        proof {
            self.lemma_view();
            if n == 0 {
                self@.lemma_len0_is_empty();
            }
        }
        n == 0
    }

    /// Adds `c`, and says whether it was new.
    pub fn insert(&mut self, c: Coordinate) -> (added: bool)
        ensures
            final(self)@ == old(self)@.insert(point(c)),
            added == !old(self)@.contains(point(c)),
    {
        broadcast use vstd::std_specs::hash::group_hash_axioms;

        proof {
            lemma_key_bijection();
        }
        let added = self.members.insert(encode(c));
        assert(self@ =~= old(self)@.insert(point(c)));
        added
    }

    /// Whether `c` is a member.
    pub fn contains(&self, c: Coordinate) -> (b: bool)
        ensures
            b == self@.contains(point(c)),
    {
        broadcast use vstd::std_specs::hash::group_hash_axioms;

        proof {
            lemma_key_bijection();
        }
        let k = encode(c);
        self.members.contains(&k)
    }

    /// Takes `c` out, and says whether it was a member.
    pub fn remove(&mut self, c: Coordinate) -> (removed: bool)
        ensures
            final(self)@ == old(self)@.remove(point(c)),
            removed == old(self)@.contains(point(c)),
    {
        broadcast use vstd::std_specs::hash::group_hash_axioms;

        proof {
            lemma_key_bijection();
        }
        let k = encode(c);
        let removed = self.members.remove(&k);
        assert(self@ =~= old(self)@.remove(point(c)));
        removed
    }

    /// Some member, unless the set is empty.
    pub fn any(&self) -> (c: Option<Coordinate>)
        ensures
            c is None <==> self@.is_empty(),
            c matches Some(m) ==> self@.contains(point(m)),
    {
        broadcast use vstd::std_specs::hash::group_hash_axioms;

        proof {
            lemma_key_bijection();
        }
        let ghost all: Seq<u64> = self.members.iter().remaining().unref();
        for k in it: self.members.iter()
            invariant
                all == it.seq().unref(),
                it.index() == 0,
        {
            assert(all.to_set().contains(*k));
            let c = decode(*k);
            assert(self@.contains(point(c)));
            return Some(c);
        }
        assert(self@ =~= Set::<Point>::empty()) by {
            assert forall|p: Point| !self@.contains(p) by {
                if self@.contains(p) {
                    assert(all.to_set().contains(key_of(p) as u64));
                }
            }
        }
        None
    }

    /// All members, in increasing row-major order.
    pub fn coordinates(&self) -> (v: Vec<Coordinate>)
        ensures
            strictly_ordered(v@),
            lists(v@, self@),
            v@.len() == self@.len(),
    {
        broadcast use vstd::std_specs::hash::group_hash_axioms;

        let mut keys: Vec<u64> = Vec::new();
        let ghost all: Seq<u64> = self.members.iter().remaining().unref();
        for k in it: self.members.iter()
            invariant
                all == it.seq().unref(),
                keys@ == all.take(it.index()),
        {
            keys.push(*k);
        }
        assert(all.take(all.len() as int) == all);
        let ghost unsorted = keys@;
        let v = sorted_coordinates(keys);
        proof {
            lemma_key_bijection();
            self.lemma_len();
            assert forall|p: Point| self@.contains(p) implies exists|i: int|
                0 <= i < v@.len() && point(#[trigger] v@[i]) == p by {
                let k = key_of(p) as u64;
                assert(unsorted.to_set().contains(k));
                let i = choose|i: int| 0 <= i < v@.len() && key_of(point(#[trigger] v@[i])) == k;
                assert(point_of(key_of(point(v@[i]))) == point(v@[i]));
            }
            assert forall|i: int| 0 <= i < v@.len() implies self@.contains(
                point(#[trigger] v@[i]),
            ) by {
                let k = key_of(point(v@[i])) as u64;
                assert(unsorted.to_set().contains(k));
            }
        }
        v
    }
}

} // verus!
