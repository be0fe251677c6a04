use advent_calendar::grid::{decode, encode, neighbor, unit_offset, CoordSet, SparseGrid};

#[test]
fn keys_round_trip() {
    for c in [(0, 0), (-1, 5), (i32::MIN, i32::MAX), (i32::MAX, i32::MIN), (7, -3)] {
        assert_eq!(decode(encode(c)), c);
    }
    assert!(encode((0, 5)) < encode((1, -5)));
    assert!(encode((-1, 0)) < encode((0, 0)));
}

#[test]
fn grid_insert_get_remove() {
    let mut grid: SparseGrid<char> = SparseGrid::new();
    assert!(grid.is_empty());
    assert_eq!(grid.insert((1, 2), 'A'), None);
    assert_eq!(grid.insert((1, 2), 'B'), Some('A'));
    assert_eq!(grid.insert((-4, 0), 'C'), None);
    assert_eq!(grid.len(), 2);
    assert_eq!(grid.get((1, 2)), Some('B'));
    assert_eq!(grid.get((2, 1)), None);
    assert!(grid.contains((-4, 0)));
    assert_eq!(grid.coordinates(), vec![(-4, 0), (1, 2)]);
    assert_eq!(grid.remove((1, 2)), Some('B'));
    assert_eq!(grid.remove((1, 2)), None);
    assert_eq!(grid.len(), 1);
}

#[test]
fn neighbors_are_the_four_unit_steps() {
    assert_eq!(SparseGrid::<char>::neighbors4((3, 4)), [(4, 4), (2, 4), (3, 5), (3, 3)]);
}

#[test]
fn coord_set_behaves_as_a_set() {
    let mut set = CoordSet::new();
    assert_eq!(set.any(), None);
    assert!(set.insert((5, 5)));
    assert!(!set.insert((5, 5)));
    assert!(set.insert((0, 9)));
    assert_eq!(set.len(), 2);
    assert!(set.contains((0, 9)));
    assert_eq!(set.coordinates(), vec![(0, 9), (5, 5)]);
    assert!(set.any().is_some());
    assert!(set.remove((0, 9)));
    assert!(!set.remove((0, 9)));
    assert_eq!(set.any(), Some((5, 5)));
}

#[test]
fn coordinates_come_in_row_major_order() {
    let mut grid: SparseGrid<u8> = SparseGrid::new();
    let mut set = CoordSet::new();
    let mut expected = Vec::new();
    for r in (-20..20).rev() {
        for c in (-20..20).rev() {
            grid.insert((r * 1000, c * 7), 0);
            set.insert((r * 1000, c * 7));
        }
    }
    for r in -20..20 {
        for c in -20..20 {
            expected.push((r * 1000, c * 7));
        }
    }
    assert_eq!(grid.coordinates(), expected);
    assert_eq!(set.coordinates(), expected);
    assert_eq!(grid.duplicate().coordinates(), expected);
}

#[test]
fn neighbor_at_the_rim_of_the_range() {
    assert_eq!(neighbor((0, 0), (1, 0)), Some((1, 0)));
    assert_eq!(neighbor((i32::MAX, 0), (1, 0)), None);
    assert_eq!(neighbor((i32::MIN, 0), (-1, 0)), None);
    assert_eq!(neighbor((0, i32::MAX), (0, 1)), None);
    assert_eq!(neighbor((0, i32::MIN), (0, -1)), None);
    assert_eq!(neighbor((i32::MAX, i32::MIN), (-1, 1)), Some((i32::MAX - 1, i32::MIN + 1)));
    assert_eq!(
        (0..4).map(unit_offset).collect::<Vec<_>>(),
        vec![(1, 0), (-1, 0), (0, 1), (0, -1)]
    );
}
