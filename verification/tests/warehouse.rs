use advent_calendar::grid::SparseGrid;
use advent_calendar::warehouse::{push_row, shift_boxes, Object, Warehouse};
use advent_calendar::warehouse_map::{gps_sum, render};

fn narrow(rows: &[&str], commands: &str) -> Warehouse {
    let mut objects = SparseGrid::new();
    let mut wide_objects = SparseGrid::new();
    let mut robot = (0, 0);
    let mut mapsize = (0, 0);
    for (r, line) in rows.iter().enumerate() {
        for (c, ch) in line.chars().enumerate() {
            let at = (r as i32, c as i32);
            match ch {
                '#' => {
                    objects.insert(at, Object::Wall);
                    wide_objects.insert((at.0, 2 * at.1), Object::Wall);
                    wide_objects.insert((at.0, 2 * at.1 + 1), Object::Wall);
                }
                'O' => {
                    objects.insert(at, Object::Box);
                    wide_objects.insert((at.0, 2 * at.1), Object::BoxLeft);
                    wide_objects.insert((at.0, 2 * at.1 + 1), Object::BoxRight);
                }
                '@' => robot = at,
                _ => {}
            }
            mapsize = at;
        }
    }
    let robot_dirs = commands
        .chars()
        .filter_map(|ch| match ch {
            '^' => Some((-1, 0)),
            'v' => Some((1, 0)),
            '<' => Some((0, -1)),
            '>' => Some((0, 1)),
            _ => None,
        })
        .collect();
    Warehouse {
        mapsize,
        robot,
        robot_dirs,
        objects,
        wide_objects,
        wide_robot: (robot.0, 2 * robot.1),
        wide_mapsize: (mapsize.0, 2 * mapsize.1 + 1),
    }
}

fn picture(grid: &SparseGrid<Object>, robot: (i32, i32), size: (i32, i32)) -> Vec<String> {
    (0..=size.0)
        .map(|r| {
            (0..=size.1)
                .map(|c| match grid.get((r, c)) {
                    Some(Object::Wall) => '#',
                    Some(Object::Box) => 'O',
                    Some(Object::BoxLeft) => '[',
                    Some(Object::BoxRight) => ']',
                    None if robot == (r, c) => '@',
                    None => '.',
                })
                .collect()
        })
        .collect()
}

const SMALL: [&str; 8] = [
    "########", "#..O.O.#", "##@.O..#", "#...O..#", "#.#.O..#", "#...O..#", "#......#", "########",
];

#[test]
fn small_warehouse_walk() {
    let mut w = narrow(&SMALL, "<^^>>>vv<v>>v<<");
    w.walk();
    assert_eq!(
        picture(&w.objects, w.robot, w.mapsize),
        vec![
            "########", "#....OO#", "##.....#", "#.....O#", "#.#O@..#", "#...O..#", "#...O..#",
            "########"
        ]
    );
}

#[test]
fn pushing_into_a_wall_changes_nothing() {
    let mut w = narrow(&SMALL, "<");
    let before = picture(&w.objects, w.robot, w.mapsize);
    assert!(!w.can_move((2, 1), (0, -1)));
    w.walk();
    assert_eq!(picture(&w.objects, w.robot, w.mapsize), before);
    assert_eq!(w.robot, (2, 2));
    let wide_before = picture(&w.wide_objects, w.wide_robot, w.wide_mapsize);
    assert!(!w.can_move_wide(&(2, 3), &(0, -1)));
    w.walk_wide();
    assert_eq!(picture(&w.wide_objects, w.wide_robot, w.wide_mapsize), wide_before);
    assert_eq!(w.wide_robot, (2, 4));
}

#[test]
fn row_of_boxes_before_a_wall_stays() {
    let mut w = narrow(&["#.OO@#"], "");
    assert!(w.can_move((0, 3), (0, -1)));
    assert_eq!(picture(&w.objects, w.robot, w.mapsize), vec!["#OO.@#"]);
    assert!(!w.can_move((0, 2), (0, -1)));
    assert_eq!(picture(&w.objects, w.robot, w.mapsize), vec!["#OO.@#"]);
    assert!(w.can_move((0, 3), (0, 1)));
}

#[test]
fn push_row_moves_every_object_of_the_row() {
    let mut grid = SparseGrid::new();
    grid.insert((0, 1), Object::BoxLeft);
    grid.insert((0, 2), Object::BoxRight);
    grid.insert((0, 3), Object::BoxLeft);
    grid.insert((0, 4), Object::BoxRight);
    grid.insert((0, 6), Object::Wall);
    assert!(push_row(&mut grid, (0, 1), (0, 1)));
    assert_eq!(grid.coordinates(), vec![(0, 2), (0, 3), (0, 4), (0, 5), (0, 6)]);
    assert_eq!(grid.get((0, 2)), Some(Object::BoxLeft));
    assert_eq!(grid.get((0, 3)), Some(Object::BoxRight));
    assert_eq!(grid.get((0, 4)), Some(Object::BoxLeft));
    assert_eq!(grid.get((0, 5)), Some(Object::BoxRight));
    assert!(!push_row(&mut grid, (0, 2), (0, 1)));
    assert_eq!(grid.coordinates(), vec![(0, 2), (0, 3), (0, 4), (0, 5), (0, 6)]);
}

#[test]
fn nothing_is_pushed_out_of_the_range() {
    let mut grid = SparseGrid::new();
    grid.insert((0, i32::MAX), Object::Box);
    assert!(!push_row(&mut grid, (0, i32::MAX), (0, 1)));
    assert_eq!(grid.get((0, i32::MAX)), Some(Object::Box));
    assert!(push_row(&mut grid, (0, i32::MAX), (0, -1)));
    assert_eq!(grid.coordinates(), vec![(0, i32::MAX - 1)]);
}

const WIDE: [&str; 7] =
    ["#######", "#...#.#", "#.....#", "#..OO@#", "#..O..#", "#.....#", "#######"];

#[test]
fn wide_warehouse_walk() {
    let mut w = narrow(&WIDE, "<vv<<^^<<^^");
    assert_eq!(
        picture(&w.wide_objects, w.wide_robot, w.wide_mapsize),
        vec![
            "##############",
            "##......##..##",
            "##..........##",
            "##....[][]@.##",
            "##....[]....##",
            "##..........##",
            "##############"
        ]
    );
    w.walk_wide();
    assert_eq!(
        picture(&w.wide_objects, w.wide_robot, w.wide_mapsize),
        vec![
            "##############",
            "##...[].##..##",
            "##...@.[]...##",
            "##....[]....##",
            "##..........##",
            "##..........##",
            "##############"
        ]
    );
    // the narrow layout is untouched
    assert_eq!(picture(&w.objects, w.robot, w.mapsize), WIDE.to_vec());
}

#[test]
fn vertical_push_is_all_or_nothing() {
    // the left box of the upper row stands under a wall
    let mut w = narrow(&["#....", ".OO..", "..O..", "..@.."], "");
    // shift the middle box half a cell to the right, under both upper boxes
    w.wide_objects.remove((2, 4));
    w.wide_objects.remove((2, 5));
    w.wide_objects.remove((1, 4));
    w.wide_objects.remove((1, 5));
    w.wide_objects.insert((2, 3), Object::BoxLeft);
    w.wide_objects.insert((2, 4), Object::BoxRight);
    w.wide_objects.insert((1, 4), Object::BoxLeft);
    w.wide_objects.insert((1, 5), Object::BoxRight);
    w.wide_objects.insert((0, 2), Object::Wall);
    let before = picture(&w.wide_objects, (9, 9), (3, 9));
    assert_eq!(before, vec!["###.......", "..[][]....", "...[].....", ".........."]);
    let (allowed, list) = w.get_move_list(&(2, 4), &(-1, 0));
    assert!(!allowed);
    assert!(list.is_empty());
    assert!(!w.can_move_wide(&(2, 4), &(-1, 0)));
    assert_eq!(picture(&w.wide_objects, (9, 9), (3, 9)), before);
    // without the wall all three boxes go up
    w.wide_objects.remove((0, 2));
    let (allowed, mut list) = w.get_move_list(&(2, 4), &(-1, 0));
    assert!(allowed);
    list.sort();
    list.dedup();
    assert_eq!(list, vec![(1, 2), (1, 4), (2, 3)]);
    assert!(w.can_move_wide(&(2, 3), &(-1, 0)));
    assert_eq!(
        picture(&w.wide_objects, (9, 9), (3, 9)),
        vec!["##[][]....", "...[].....", "..........", ".........."]
    );
}

#[test]
fn a_box_outside_the_move_list_stays() {
    let mut w = narrow(&["....", ".O.O", ".O..", ".@.."], "^");
    w.walk_wide();
    assert_eq!(
        picture(&w.wide_objects, w.wide_robot, (3, 7)),
        vec!["..[]....", "..[]..[]", "..@.....", "........"]
    );
}

#[test]
fn shift_boxes_takes_out_then_puts_back() {
    let mut grid = SparseGrid::new();
    for r in 0..3 {
        grid.insert((r, 0), Object::BoxLeft);
        grid.insert((r, 1), Object::BoxRight);
    }
    // the list may name a box twice
    shift_boxes(&mut grid, &vec![(0, 0), (1, 0), (2, 0), (1, 0)], (1, 0));
    assert_eq!(grid.coordinates(), vec![(1, 0), (1, 1), (2, 0), (2, 1), (3, 0), (3, 1)]);
    assert_eq!(grid.get((3, 0)), Some(Object::BoxLeft));
    assert_eq!(grid.get((3, 1)), Some(Object::BoxRight));
}

const LARGER: &str = "##########\n#..O..O.O#\n#......O.#\n#.OO..O.O#\n#..O@..O.#\n#O#..O...#\n#O..O..O.#\n#.OO.O.OO#\n#....O...#\n##########\n\n<vv>^<v^>v>^vv^v>v<>v^v<v<^vv<<<^><<><>>v<vvv<>^v^>^<<<><<v<<<v^vv^v>^\nvvv<<^>^v^^><<>>><>^<<><^vv^^<>vvv<>><^^v>^>vv<>v<<<<v<^v>^<^^>>>^<v<v\n><>vv>v^v^<>><>>>><^^>vv>v<^^^>>v^v^<^^>v^^>v^<^v>v<>>v^v^<v>v^^<^^vv<\n<<v<^>>^^^^>>>v^<>vvv^><v<<<>^^^vv^<vvv>^>v<^^^^v<>^>vvvv><>>v^<<^^^^^\n^><^><>>><>^^<<^^v>>><^<v>^<vv>>v>>>^v><>^v><<<<v>>v<v<v>vvv>^<><<>^><\n^>><>^v<><^vvv<^^<><v<<<<<><^v<<<><<<^^<v<^^^><^>>^<v^><<<^>>^v<v^v<v^\n>^>>^v>vv>^<<^v<>><<><<v<<v><>v<^vv<<<>^^v^>^^>>><<^v>>v^v><^^>>^<>vv^\n<><^^>^^^<><vvvvv^v<v<<>^v<v>v<<^><<><<><<<^^<<<^<<>><<><^^^>^^<>^>v<>\n^^>vv<^v^v<vv>^<><v<^v>^^^>>>^^vvv^>vvv<>>>^<^>>>>>^<<^v>^vvv<>^<><<v>\nv^^>>><<^^<>>^v^<v^vv<>v^<<>^<^v^v><^<<<><<^<v><v<>vv>>v><v^<vv<>v^<<^\n";

fn text_of(picture: Vec<Vec<char>>) -> Vec<String> {
    picture.into_iter().map(|line| line.into_iter().collect()).collect()
}

#[test]
fn larger_warehouse_from_its_description() {
    let mut w = Warehouse::from_str(LARGER).unwrap();
    assert!(w.is_ready());
    assert_eq!(w.robot, (4, 4));
    assert_eq!(w.wide_robot, (4, 8));
    assert_eq!(w.mapsize, (9, 9));
    assert_eq!(w.wide_mapsize, (9, 19));
    assert_eq!(w.robot_dirs.len(), 700);
    assert_eq!(&w.robot_dirs[..4], &[(0, -1), (1, 0), (1, 0), (0, 1)]);
    assert_eq!(
        text_of(render(&w.wide_objects, w.wide_robot, w.wide_mapsize)),
        vec![
            "####################",
            "##....[]....[]..[]##",
            "##............[]..##",
            "##..[][]....[]..[]##",
            "##....[]@.....[]..##",
            "##[]##....[]......##",
            "##[]....[]....[]..##",
            "##..[][]..[]..[][]##",
            "##........[]......##",
            "####################"
        ]
    );
    w.walk();
    assert_eq!(
        text_of(render(&w.objects, w.robot, w.mapsize)),
        vec![
            "##########", "#.O.O.OOO#", "#........#", "#OO......#", "#OO@.....#", "#O#.....O#",
            "#O.....OO#", "#O.....OO#", "#OO....OO#", "##########"
        ]
    );
    assert_eq!(gps_sum(&w.objects, Object::Box), 10092);
    w.walk_wide();
    assert_eq!(
        text_of(render(&w.wide_objects, w.wide_robot, w.wide_mapsize)),
        vec![
            "####################",
            "##[].......[].[][]##",
            "##[]...........[].##",
            "##[]........[][][]##",
            "##[]......[]....[]##",
            "##..##......[]....##",
            "##..[]............##",
            "##..@......[].[][]##",
            "##......[][]..[]..##",
            "####################"
        ]
    );
    assert_eq!(gps_sum(&w.wide_objects, Object::BoxLeft), 9021);
    assert!(w.is_ready());
}

#[test]
fn small_warehouse_from_its_description() {
    let mut w = Warehouse::from_str(
        "########\n#..O.O.#\n##@.O..#\n#...O..#\n#.#.O..#\n#...O..#\n#......#\n########\n\n<^^>>>vv<v>>v<<\n",
    )
    .unwrap();
    w.walk();
    assert_eq!(gps_sum(&w.objects, Object::Box), 2028);
    assert_eq!(gps_sum(&w.objects, Object::BoxLeft), 0);
}

#[test]
fn gps_of_a_single_box() {
    let mut grid = SparseGrid::new();
    grid.insert((1, 4), Object::Box);
    grid.insert((0, 0), Object::Wall);
    assert_eq!(gps_sum(&grid, Object::Box), 104);
    grid.insert((-2, -3), Object::Box);
    assert_eq!(gps_sum(&grid, Object::Box), 104 - 203);
    assert_eq!(gps_sum(&SparseGrid::new(), Object::Box), 0);
}

#[test]
fn malformed_warehouses_are_refused() {
    assert!(Warehouse::from_str("#.x#\n\n<").is_none());
    assert!(Warehouse::from_str("#..#\n\n<x>").is_none());
    assert!(Warehouse::from_str("#..#\n<").is_none());
    let w = Warehouse::from_str("").unwrap();
    assert_eq!((w.robot, w.mapsize, w.wide_mapsize), ((0, 0), (0, 0), (0, 0)));
    assert!(w.robot_dirs.is_empty() && w.objects.is_empty());
    // commands may stand in several lines, with empty lines between them
    let w = Warehouse::from_str("@O\r\n\r\n<>\r\n\r\n^v\r\n").unwrap();
    assert_eq!(w.robot_dirs, vec![(0, -1), (0, 1), (-1, 0), (1, 0)]);
    assert_eq!(w.wide_objects.coordinates(), vec![(0, 2), (0, 3)]);
    assert_eq!(w.wide_mapsize, (0, 3));
    // the last robot counts
    let w = Warehouse::from_str("@.\n.@").unwrap();
    assert_eq!((w.robot, w.wide_robot), ((1, 1), (1, 2)));
}

#[test]
fn a_warehouse_that_is_not_ready() {
    let mut w = Warehouse::from_str("@O\n\n<").unwrap();
    assert!(w.is_ready());
    w.robot_dirs.push((1, 1));
    assert!(!w.is_ready());
    w.robot_dirs.pop();
    w.wide_objects.remove((0, 3));
    assert!(!w.is_ready());
    w.wide_objects.insert((0, 3), Object::BoxRight);
    w.objects.insert((5, 5), Object::BoxLeft);
    assert!(!w.is_ready());
    w.objects.remove((5, 5));
    w.wide_robot = (0, 2);
    assert!(!w.is_ready());
}

#[test]
fn picture_of_nothing() {
    assert!(render(&SparseGrid::new(), (0, 0), (-1, 5)).is_empty());
    assert_eq!(render(&SparseGrid::new(), (0, 1), (0, 2)), vec![vec!['.', '@', '.']]);
    assert_eq!(render(&SparseGrid::new(), (0, 0), (1, -1)), vec![Vec::<char>::new(), vec![]]);
}

#[test]
fn one_command_at_a_time() {
    let mut w = narrow(&SMALL, "");
    let before = picture(&w.objects, w.robot, w.mapsize);
    // against the wall
    w.step((0, -1));
    assert_eq!(picture(&w.objects, w.robot, w.mapsize), before);
    // up to a free tile
    w.step((-1, 0));
    assert_eq!(w.robot, (1, 2));
    // a box against a box against a free tile
    w.step((0, 1));
    assert_eq!(w.robot, (1, 3));
    assert_eq!(picture(&w.objects, w.robot, w.mapsize)[1], "#..@OO.#");
    let wide_before = picture(&w.wide_objects, w.wide_robot, w.wide_mapsize);
    w.step_wide((0, -1));
    assert_eq!(picture(&w.wide_objects, w.wide_robot, w.wide_mapsize), wide_before);
    w.step_wide((0, 1));
    assert_eq!(w.wide_robot, (2, 5));
    w.step_wide((-1, 0));
    assert_eq!(w.wide_robot, (1, 5));
    w.step_wide((0, 1));
    assert_eq!(picture(&w.wide_objects, w.wide_robot, w.wide_mapsize)[1], "##....@[].[]..##");
    w.step_wide((0, 1));
    w.step_wide((0, 1));
    assert_eq!(picture(&w.wide_objects, w.wide_robot, w.wide_mapsize)[1], "##......@[][].##");
    w.step_wide((0, 1));
    assert_eq!(picture(&w.wide_objects, w.wide_robot, w.wide_mapsize)[1], "##.......@[][]##");
    // two boxes against the wall
    w.step_wide((0, 1));
    assert_eq!(picture(&w.wide_objects, w.wide_robot, w.wide_mapsize)[1], "##.......@[][]##");
}

/// A plain model of one command in a layout of characters: every cell that
/// has to move is collected first, then all are moved.
fn model_step(cells: &mut std::collections::HashMap<(i32, i32), char>, robot: &mut (i32, i32), dir: (i32, i32)) {
    let mut moving: Vec<(i32, i32)> = Vec::new();
    let mut queue = vec![(robot.0 + dir.0, robot.1 + dir.1)];
    while let Some(at) = queue.pop() {
        if moving.contains(&at) {
            continue;
        }
        match cells.get(&at) {
            None => {}
            Some('#') => return,
            Some(&kind) => {
                moving.push(at);
                queue.push((at.0 + dir.0, at.1 + dir.1));
                if dir.1 == 0 && kind == '[' {
                    queue.push((at.0, at.1 + 1));
                }
                if dir.1 == 0 && kind == ']' {
                    queue.push((at.0, at.1 - 1));
                }
            }
        }
    }
    let kinds: Vec<char> = moving.iter().map(|at| cells.remove(at).unwrap()).collect();
    for (at, kind) in moving.iter().zip(kinds) {
        cells.insert((at.0 + dir.0, at.1 + dir.1), kind);
    }
    *robot = (robot.0 + dir.0, robot.1 + dir.1);
}

fn cells_of(grid: &SparseGrid<Object>) -> std::collections::HashMap<(i32, i32), char> {
    grid.coordinates()
        .into_iter()
        .map(|at| {
            let kind = match grid.get(at).unwrap() {
                Object::Wall => '#',
                Object::Box => 'O',
                Object::BoxLeft => '[',
                Object::BoxRight => ']',
            };
            (at, kind)
        })
        .collect()
}

#[test]
fn random_warehouses_agree_with_a_plain_model() {
    let mut state: u64 = 2024;
    let mut next = move |n: u64| {
        state = state.wrapping_mul(6364136223846793005).wrapping_add(1442695040888963407);
        (state >> 33) % n
    };
    for _ in 0..60 {
        let mut text = String::new();
        let mut placed = false;
        for r in 0..8 {
            for c in 0..8 {
                let rim = r == 0 || c == 0 || r == 7 || c == 7;
                let tile = if rim {
                    '#'
                } else if !placed && next(6) == 0 {
                    placed = true;
                    '@'
                } else {
                    match next(10) {
                        0 => '#',
                        1..=4 => 'O',
                        _ => '.',
                    }
                };
                text.push(tile);
            }
            text.push('\n');
        }
        if !placed {
            continue;
        }
        text.push('\n');
        for _ in 0..200 {
            text.push(['^', 'v', '<', '>'][next(4) as usize]);
        }
        let mut w = Warehouse::from_str(&text).unwrap();
        assert!(w.is_ready());
        let mut narrow_cells = cells_of(&w.objects);
        let mut narrow_robot = w.robot;
        let mut wide_cells = cells_of(&w.wide_objects);
        let mut wide_robot = w.wide_robot;
        for dir in w.robot_dirs.clone() {
            w.step(dir);
            model_step(&mut narrow_cells, &mut narrow_robot, dir);
            assert_eq!(w.robot, narrow_robot);
            assert_eq!(cells_of(&w.objects), narrow_cells);
            w.step_wide(dir);
            model_step(&mut wide_cells, &mut wide_robot, dir);
            assert_eq!(w.wide_robot, wide_robot);
            assert_eq!(cells_of(&w.wide_objects), wide_cells);
        }
        assert!(w.is_ready());
    }
}
