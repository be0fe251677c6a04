use advent_calendar::grid::SparseGrid;
use advent_calendar::maze::{count_tiles, routes_or_none, Maze, Type};

const FIRST: &str = "###############\n#.......#....E#\n#.#.###.#.###.#\n#.....#.#...#.#\n#.###.#####.#.#\n#.#.#.......#.#\n#.#.#####.###.#\n#...........#.#\n###.#.#####.#.#\n#...#.....#.#.#\n#.#.#.###.#.#.#\n#.....#...#.#.#\n#.###.#.#.#.#.#\n#S..#.....#...#\n###############\n";

const SECOND: &str = "#################\n#...#...#...#..E#\n#.#.#.#.#.#.#.#.#\n#.#.#.#...#...#.#\n#.#.#.#.###.#.#.#\n#...#.#.#.....#.#\n#.#.#.#.#.#####.#\n#.#...#.#.#.....#\n#.#.#####.#.###.#\n#.#.#.......#...#\n#.#.###.#####.###\n#.#.#...#.....#.#\n#.#.#.#####.###.#\n#.#.#.........#.#\n#.#.#.#########.#\n#S#.............#\n#################\n";

#[test]
fn first_example_maze() {
    let maze = Maze::from_str(FIRST).unwrap();
    assert_eq!(maze.start, (13, 1));
    assert_eq!(maze.end, (1, 13));
    assert_eq!(maze.dir, (0, 1));
    assert!(maze.can_search());
    let (paths, cost) = maze.find_paths_to_end();
    assert_eq!(cost, 7036);
    assert!(!paths.is_empty());
    for path in &paths {
        assert_eq!(path[0], ((13, 1), (0, 1)));
        assert_eq!(path[path.len() - 1].0, (1, 13));
    }
    assert_eq!(count_tiles(&paths), 45);
}

#[test]
fn second_example_maze() {
    let maze = Maze::from_str(SECOND).unwrap();
    let (paths, cost) = maze.try_find_paths_to_end().unwrap();
    assert_eq!(cost, 11048);
    assert_eq!(count_tiles(&paths), 64);
}

#[test]
fn maze_without_a_route() {
    let maze = Maze::from_str("S#E").unwrap();
    let (paths, cost) = maze.find_paths_to_end();
    assert!(paths.is_empty());
    assert_eq!(cost, 0);
    assert_eq!(count_tiles(&paths), 0);
}

#[test]
fn start_on_the_end() {
    let mut map = SparseGrid::new();
    map.insert((0, 0), Type::Path);
    let maze = Maze { map, start: (0, 0), end: (0, 0), dir: (1, 0) };
    let (paths, cost) = maze.find_paths_to_end();
    assert_eq!(cost, 0);
    assert_eq!(paths, vec![vec![((0, 0), (1, 0))]]);
}

#[test]
fn turns() {
    assert_eq!(Maze::turn_clockwise((-1, 0)), (0, 1));
    assert_eq!(Maze::turn_clockwise((0, 1)), (1, 0));
    assert_eq!(Maze::turn_clockwise((1, 0)), (0, -1));
    assert_eq!(Maze::turn_clockwise((0, -1)), (-1, 0));
    assert_eq!(Maze::turn_anti_clockwise((0, 1)), (-1, 0));
    assert_eq!(Maze::turn_anti_clockwise((-1, 0)), (0, -1));
    assert_eq!(Maze::turn_anti_clockwise((0, -1)), (1, 0));
    assert_eq!(Maze::turn_anti_clockwise((1, 0)), (0, 1));
}

#[test]
fn moves_and_estimate() {
    let maze = Maze::from_str("S.#\n..E").unwrap();
    assert_eq!(
        maze.successors(&((0, 0), (0, 1))),
        vec![(((0, 1), (0, 1)), 1), (((0, 0), (1, 0)), 1000), (((0, 0), (-1, 0)), 1000)]
    );
    assert_eq!(
        maze.successors(&((0, 1), (0, 1))),
        vec![(((0, 1), (1, 0)), 1000), (((0, 1), (-1, 0)), 1000)]
    );
    assert_eq!(maze.successors(&((0, 0), (-1, 0))).len(), 2);
    assert_eq!(maze.heuristic(&((0, 0), (0, 1))), 3);
    assert!(maze.is_end(&((1, 2), (0, 1))));
    assert!(!maze.is_end(&((1, 1), (0, 1))));
    let far = Maze { map: SparseGrid::new(), start: (0, 0), end: (i32::MAX, i32::MAX), dir: (0, 1) };
    assert_eq!(far.heuristic(&((i32::MIN, i32::MIN), (0, 1))), u32::MAX);
    assert!(!far.can_search());
    assert!(far.try_find_paths_to_end().is_none());
}

#[test]
fn routes_of_a_search_without_outcome() {
    assert_eq!(routes_or_none(None), (vec![], 0));
    let found = (vec![vec![((0, 0), (0, 1))]], 7);
    assert_eq!(routes_or_none(Some(found.clone())), found);
}

#[test]
fn tiles_are_counted_once() {
    let a = vec![((0, 0), (0, 1)), ((0, 1), (0, 1)), ((0, 1), (1, 0)), ((1, 1), (1, 0))];
    let b = vec![((0, 0), (0, 1)), ((0, 0), (1, 0)), ((1, 0), (1, 0)), ((1, 0), (0, 1)), ((1, 1), (0, 1))];
    assert_eq!(count_tiles(&vec![a, b]), 4);
}

#[test]
fn malformed_mazes_are_refused() {
    assert!(Maze::from_str("S.x").is_none());
    let maze = Maze::from_str("...").unwrap();
    assert_eq!((maze.start, maze.end, maze.dir), ((0, 0), (0, 0), (0, 0)));
    assert!(!maze.can_search());
    // the last start and the last end count
    let maze = Maze::from_str("SE\nES").unwrap();
    assert_eq!((maze.start, maze.end), ((1, 1), (1, 0)));
    assert_eq!(maze.map.get((0, 0)), Some(Type::Path));
}
