use advent_calendar::antenna::{get_map, AntennaMap};
use advent_calendar::grid::SparseGrid;

const CITY: &str = "............\n........0...\n.....0......\n.......0....\n....0.......\n......A.....\n............\n............\n........A...\n.........A..\n............\n............\n";

#[test]
fn example_antinodes() {
    let map = get_map(CITY);
    assert_eq!(map.size, (12, 12));
    assert_eq!(map.antennas.len(), 7);
    assert!(map.is_wf());
    assert_eq!(map.get_antidotes(true).len(), 14);
    assert_eq!(map.get_antidotes(false).len(), 34);
}

#[test]
fn two_antennas() {
    let mut antennas = SparseGrid::new();
    antennas.insert((3, 4), 'a');
    antennas.insert((5, 5), 'a');
    let map = AntennaMap { antennas, size: (10, 10) };
    assert_eq!(map.get_antidotes(true).coordinates(), vec![(1, 3), (7, 6)]);
    assert_eq!(
        map.get_antidotes(false).coordinates(),
        vec![(1, 3), (3, 4), (5, 5), (7, 6), (9, 7)]
    );
}

#[test]
fn antennas_of_different_frequencies_do_not_resonate() {
    let mut antennas = SparseGrid::new();
    antennas.insert((3, 4), 'a');
    antennas.insert((5, 5), 'A');
    let map = AntennaMap { antennas, size: (10, 10) };
    assert!(map.get_antidotes(true).is_empty());
    assert!(map.get_antidotes(false).is_empty());
}

#[test]
fn bounds_of_the_map() {
    let map = AntennaMap { antennas: SparseGrid::new(), size: (2, 3) };
    assert!(map.in_bounds(&(0, 0)));
    assert!(map.in_bounds(&(1, 2)));
    assert!(!map.in_bounds(&(2, 0)));
    assert!(!map.in_bounds(&(0, 3)));
    assert!(!map.in_bounds(&(-1, 0)));
    assert!(!map.in_bounds(&(0, -1)));
}

#[test]
fn the_first_filled_line_gives_the_width() {
    let map = get_map("\n.a\n.b.c\n");
    assert_eq!(map.size, (3, 2));
    assert_eq!(map.antennas.coordinates(), vec![(1, 1), (2, 1), (2, 3)]);
    assert!(!map.is_wf());
    let map = get_map("");
    assert_eq!(map.size, (0, 0));
    assert!(map.is_wf());
}
