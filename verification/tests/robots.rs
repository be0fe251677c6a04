use advent_calendar::robots::{Robot, RobotMap};

const ROBOTS: &str = "p=0,4 v=3,-3\np=6,3 v=-1,-3\np=10,3 v=-1,2\np=2,0 v=2,-1\np=0,0 v=1,3\np=3,0 v=-2,-2\np=7,6 v=-1,-3\np=3,0 v=-1,-2\np=9,3 v=2,3\np=7,3 v=-1,2\np=2,4 v=2,-3\np=9,5 v=-3,-3\n";

fn picture(map: &RobotMap) -> Vec<String> {
    map.display_grid().iter().map(|line| line.iter().collect()).collect()
}

#[test]
fn example_robots() {
    let map = RobotMap::from_str(ROBOTS).unwrap();
    assert_eq!((map.cols, map.rows), (11, 7));
    assert_eq!(map.robots.len(), 12);
    assert_eq!(map.robots[0], Robot { pos: (0, 4), velocity: (3, -3) });
    assert_eq!(
        picture(&map),
        vec![
            "#.##.......", "...........", "...........", "......##.##", "#.#........",
            ".........#.", ".......#..."
        ]
    );
    assert_eq!(map.move_x(100), Some(12));
}

#[test]
fn a_robot_comes_back_in_on_the_other_side() {
    let mut map = RobotMap::from_str("p=2,4 v=2,-3").unwrap();
    let mut seen = Vec::new();
    for _ in 0..5 {
        map.tick();
        seen.push(map.robots[0].pos);
    }
    assert_eq!(seen, vec![(4, 1), (6, 5), (8, 2), (10, 6), (1, 3)]);
    let robot = Robot { pos: (10, 0), velocity: (1, -1) };
    assert_eq!(map.move_robot(robot), Robot { pos: (0, 6), velocity: (1, -1) });
}

#[test]
fn bounds_of_the_floor() {
    let map = RobotMap { robots: vec![], cols: 11, rows: 7 };
    assert!(!map.pos_is_out_of_bounds((0, 0)));
    assert!(!map.pos_is_out_of_bounds((10, 6)));
    assert!(map.pos_is_out_of_bounds((11, 0)));
    assert!(map.pos_is_out_of_bounds((0, 7)));
    assert!(map.pos_is_out_of_bounds((-1, 3)));
    assert!(map.pos_is_out_of_bounds((3, -1)));
}

#[test]
fn safety_factor_leaves_out_the_middle() {
    let at = |c: i32, r: i32| Robot { pos: (c, r), velocity: (0, 0) };
    let map = RobotMap {
        robots: vec![at(0, 0), at(1, 1), at(10, 0), at(0, 6), at(0, 5), at(2, 4), at(9, 6), at(5, 0), at(3, 3), at(5, 3)],
        cols: 11,
        rows: 7,
    };
    assert_eq!(map.get_safety_factor(), 2 * 1 * 3 * 1);
    assert_eq!(map.checked_safety_factor(), Some(6));
    let empty = RobotMap { robots: vec![], cols: 11, rows: 7 };
    assert_eq!(empty.get_safety_factor(), 0);
}

#[test]
fn malformed_robots_are_refused() {
    assert!(RobotMap::from_str("p=0,4v=3,-3").is_none());
    assert!(RobotMap::from_str("p=0;4 v=3,-3").is_none());
    assert!(RobotMap::from_str("p=0,4 v=3").is_none());
    assert!(RobotMap::from_str("p=0,4 v=3,-3\n\n").is_none());
    assert!(RobotMap::from_str("").unwrap().robots.is_empty());
}

#[test]
fn tame_robots() {
    let map = RobotMap::from_str(ROBOTS).unwrap();
    assert!(map.is_tame());
    let wild = RobotMap::from_str("p=0,4 v=12,-3").unwrap();
    assert!(!wild.is_tame());
    let outside = RobotMap::from_str("p=11,4 v=1,1").unwrap();
    assert!(!outside.is_tame());
    let edge = RobotMap::from_str("p=10,6 v=-11,7").unwrap();
    assert!(edge.is_tame());
    assert_eq!(edge.move_x(3), Some(0));
    assert!(!RobotMap { robots: vec![], cols: -1, rows: 7 }.is_tame());
}
