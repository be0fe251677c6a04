use advent_calendar::boundary::{boundary, perimeter, side_count, DirectedEdge, Facing};
use advent_calendar::garden::{fence_price, get_garden_map, total_price, total_side_price};
use advent_calendar::grid::CoordSet;
use advent_calendar::regions::{extract_regions, flood_fill};

fn measures(text: &str) -> Vec<(char, usize, u128, u128)> {
    let garden = get_garden_map(text);
    extract_regions(garden.map)
        .iter()
        .map(|r| (r.label, r.area(), perimeter(&r.cells), side_count(&r.cells)))
        .collect()
}

const SMALL: &str = "AAAA\nBBCD\nBBCC\nEEEC\n";
const NESTED: &str = "OOOOO\nOXOXO\nOOOOO\nOXOXO\nOOOOO\n";
const LARGE: &str = "RRRRIICCFF\nRRRRIICCCF\nVVRRRCCFFF\nVVRCCCJFFF\nVVVVCJJCFE\nVVIVCCJJEE\nVVIIICJJEE\nMIIIIIJJEE\nMIIISIJEEE\nMMMISSJEEE\n";

#[test]
fn small_garden_regions() {
    assert_eq!(
        measures(SMALL),
        vec![('A', 4, 10, 4), ('B', 4, 8, 4), ('C', 4, 10, 8), ('D', 1, 4, 4), ('E', 3, 8, 4)]
    );
}

#[test]
fn small_garden_prices() {
    let garden = get_garden_map(SMALL);
    assert_eq!(total_price(&garden), Some(140));
    assert_eq!(total_side_price(&garden), Some(80));
    // the garden itself is left as it was
    assert_eq!(garden.map.len(), 16);
}

#[test]
fn enclosed_regions() {
    assert_eq!(
        measures(NESTED),
        vec![('O', 21, 36, 20), ('X', 1, 4, 4), ('X', 1, 4, 4), ('X', 1, 4, 4), ('X', 1, 4, 4)]
    );
    let garden = get_garden_map(NESTED);
    assert_eq!(total_price(&garden), Some(772));
    assert_eq!(total_side_price(&garden), Some(436));
}

#[test]
fn large_garden_prices() {
    let garden = get_garden_map(LARGE);
    assert_eq!(total_price(&garden), Some(1930));
    assert_eq!(total_side_price(&garden), Some(1206));
    assert_eq!(extract_regions(garden.map).len(), 11);
}

#[test]
fn e_shaped_region() {
    let garden = get_garden_map("EEEEE\nEXXXX\nEEEEE\nEXXXX\nEEEEE");
    assert_eq!(measures("EEEEE\nEXXXX\nEEEEE\nEXXXX\nEEEEE")[0], ('E', 17, 36, 12));
    assert_eq!(total_side_price(&garden), Some(236));
}

#[test]
fn sides_do_not_join_across_a_diagonal() {
    let text = "AAAAAA\nAAABBA\nAAABBA\nABBAAA\nABBAAA\nAAAAAA";
    let garden = get_garden_map(text);
    assert_eq!(total_side_price(&garden), Some(368));
    let all = measures(text);
    assert_eq!(all[0].0, 'A');
    assert_eq!(all[0].3, 12);
    assert_eq!(all[1], ('B', 4, 8, 4));
    assert_eq!(all[2], ('B', 4, 8, 4));
}

#[test]
fn single_cell_has_four_edges_and_four_sides() {
    for c in [(0, 0), (-7, 12), (i32::MAX, i32::MAX), (i32::MIN, i32::MIN), (i32::MIN, 5)] {
        let mut cells = CoordSet::new();
        cells.insert(c);
        assert_eq!(perimeter(&cells), 4);
        assert_eq!(side_count(&cells), 4);
    }
}

#[test]
fn empty_set_has_no_boundary() {
    let cells = CoordSet::new();
    assert_eq!(perimeter(&cells), 0);
    assert_eq!(side_count(&cells), 0);
    assert!(boundary(&cells).is_empty());
}

#[test]
fn regions_split_the_grid() {
    let garden = get_garden_map(LARGE);
    let cells = garden.map.coordinates();
    let regions = extract_regions(garden.map.duplicate());
    let mut seen = CoordSet::new();
    for region in &regions {
        assert!(region.area() > 0);
        for c in region.cells.coordinates() {
            assert_eq!(garden.map.get(c), Some(region.label));
            assert!(seen.insert(c), "a cell in two regions");
        }
    }
    assert_eq!(seen.coordinates(), cells);
}

#[test]
fn regions_come_in_the_order_of_their_first_cells() {
    let garden = get_garden_map(LARGE);
    let regions = extract_regions(garden.map);
    let firsts: Vec<(i32, i32)> = regions.iter().map(|r| r.cells.coordinates()[0]).collect();
    let mut sorted = firsts.clone();
    sorted.sort();
    assert_eq!(firsts, sorted);
    let labels: String = regions.iter().map(|r| r.label).collect();
    assert_eq!(labels, "RICFVJCEIMS");
}

#[test]
fn sides_never_exceed_perimeter() {
    for text in [SMALL, NESTED, LARGE] {
        for (_, _, perimeter, sides) in measures(text) {
            assert!(sides <= perimeter);
        }
    }
}

#[test]
fn flood_fill_takes_one_region_and_leaves_the_rest() {
    let mut grid = get_garden_map(SMALL).map;
    assert!(flood_fill(&mut grid, (9, 9)).is_none());
    assert_eq!(grid.len(), 16);
    let region = flood_fill(&mut grid, (2, 2)).unwrap();
    assert_eq!(region.label, 'C');
    assert_eq!(region.cells.coordinates(), vec![(1, 2), (2, 2), (2, 3), (3, 3)]);
    assert_eq!(grid.len(), 12);
    assert!(!grid.contains((2, 3)));
    assert!(flood_fill(&mut grid, (2, 2)).is_none());
}

#[test]
fn boundary_edges_of_a_domino() {
    let mut cells = CoordSet::new();
    cells.insert((0, 0));
    cells.insert((0, 1));
    let mut edges = boundary(&cells);
    assert!(edges.contains(DirectedEdge { interior: (0, 0), facing: Facing::West }));
    assert!(edges.contains(DirectedEdge { interior: (0, 1), facing: Facing::East }));
    assert!(!edges.contains(DirectedEdge { interior: (0, 0), facing: Facing::East }));
    let mut n = 0;
    while let Some(edge) = edges.any() {
        assert!(edges.remove(edge));
        n += 1;
    }
    assert_eq!(n, 6);
    assert_eq!(perimeter(&cells), 6);
    assert_eq!(side_count(&cells), 4);
}

#[test]
fn edges_step_along_their_line() {
    let edge = DirectedEdge { interior: (3, 3), facing: Facing::North };
    assert_eq!(
        edge.next_on_line(true),
        Some(DirectedEdge { interior: (3, 4), facing: Facing::North })
    );
    assert_eq!(
        edge.next_on_line(false),
        Some(DirectedEdge { interior: (3, 2), facing: Facing::North })
    );
    let edge = DirectedEdge { interior: (i32::MAX, 0), facing: Facing::East };
    assert_eq!(edge.next_on_line(true), None);
    assert_eq!(
        edge.next_on_line(false),
        Some(DirectedEdge { interior: (i32::MAX - 1, 0), facing: Facing::East })
    );
}

#[test]
fn garden_map_reads_lines_with_carriage_returns() {
    let garden = get_garden_map("AB\r\nC\r\n");
    assert_eq!(garden.map.coordinates(), vec![(0, 0), (0, 1), (1, 0)]);
    assert_eq!(garden.map.get((0, 1)), Some('B'));
    assert_eq!(garden.map.get((1, 0)), Some('C'));
}

#[test]
fn price_of_no_regions_is_zero() {
    assert_eq!(fence_price(&Vec::new(), false), Some(0));
    assert_eq!(fence_price(&Vec::new(), true), Some(0));
}

fn random_cells(seed: u64, size: i32, share: u64) -> Vec<(i32, i32)> {
    let mut state = seed;
    let mut cells = Vec::new();
    for r in 0..size {
        for c in 0..size {
            state = state.wrapping_mul(6364136223846793005).wrapping_add(1442695040888963407);
            if (state >> 33) % 100 < share {
                cells.push((r, c));
            }
        }
    }
    cells
}

#[test]
fn boundary_of_random_shapes() {
    for seed in 0..40u64 {
        let cells = random_cells(seed, 9, 30 + seed % 50);
        let mut set = CoordSet::new();
        for c in &cells {
            set.insert(*c);
        }
        let has = |r: i32, c: i32| cells.contains(&(r, c));
        let mut edges = 0;
        let mut corners = 0;
        for &(r, c) in &cells {
            for (dr, dc) in [(1, 0), (-1, 0), (0, 1), (0, -1)] {
                if !has(r + dr, c + dc) {
                    edges += 1;
                }
            }
            for (dr, dc) in [(1, 1), (1, -1), (-1, 1), (-1, -1)] {
                let beside = has(r, c + dc);
                let above = has(r + dr, c);
                if !beside && !above {
                    corners += 1;
                }
                if beside && above && !has(r + dr, c + dc) {
                    corners += 1;
                }
            }
        }
        assert_eq!(perimeter(&set), edges, "perimeter with seed {seed}");
        assert_eq!(side_count(&set), corners, "sides with seed {seed}");
        assert!(side_count(&set) <= perimeter(&set));
    }
}

#[test]
fn regions_of_random_grids() {
    for seed in 0..20u64 {
        let mut text = String::new();
        let mut state = seed + 99;
        for _ in 0..8 {
            for _ in 0..8 {
                state = state.wrapping_mul(6364136223846793005).wrapping_add(1442695040888963407);
                text.push(['a', 'b', 'c'][((state >> 33) % 3) as usize]);
            }
            text.push('\n');
        }
        let garden = get_garden_map(&text);
        let regions = extract_regions(garden.map.duplicate());
        let mut seen = CoordSet::new();
        let mut area = 0;
        for region in &regions {
            // every cell of the region has the label, and no cell of the
            // label touches the region from outside
            for (r, c) in region.cells.coordinates() {
                assert_eq!(garden.map.get((r, c)), Some(region.label));
                assert!(seen.insert((r, c)));
                for (dr, dc) in [(1, 0), (-1, 0), (0, 1), (0, -1)] {
                    if garden.map.get((r + dr, c + dc)) == Some(region.label) {
                        assert!(region.cells.contains((r + dr, c + dc)));
                    }
                }
            }
            area += region.area();
        }
        assert_eq!(area, 64);
        let firsts: Vec<(i32, i32)> = regions.iter().map(|r| r.cells.coordinates()[0]).collect();
        assert!(firsts.windows(2).all(|w| w[0] < w[1]));
    }
}
