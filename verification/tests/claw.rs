use advent_calendar::claw::{parse_machines, total_cost, win_costs, Machine};

const MACHINES: &str = "Button A: X+94, Y+34\nButton B: X+22, Y+67\nPrize: X=8400, Y=5400\n\nButton A: X+26, Y+66\nButton B: X+67, Y+21\nPrize: X=12748, Y=12176\n\nButton A: X+17, Y+86\nButton B: X+84, Y+37\nPrize: X=7870, Y=6450\n\nButton A: X+69, Y+23\nButton B: X+27, Y+71\nPrize: X=18641, Y=10279\n";

#[test]
fn example_machines() {
    let machines = parse_machines(MACHINES).unwrap();
    assert_eq!(machines.len(), 4);
    assert_eq!(
        machines[0],
        Machine { button_a: (94, 34), button_b: (22, 67), target: (8400, 5400) }
    );
    assert!(machines.iter().all(|m| m.is_well_set()));
    let costs = win_costs(&machines, 0);
    assert_eq!(costs, vec![Some(280), None, Some(200), None]);
    assert_eq!(total_cost(&costs), 480);
}

#[test]
fn example_machines_with_far_prizes() {
    let machines = parse_machines(MACHINES).unwrap();
    let costs = win_costs(&machines, 10000000000000);
    assert!(costs[0].is_none() && costs[2].is_none());
    assert!(costs[1].is_some() && costs[3].is_some());
    assert_eq!(total_cost(&costs), 875318608908);
}

#[test]
fn target_delta_moves_the_prize_only() {
    let machine = Machine { button_a: (1, 2), button_b: (3, 4), target: (5, -6) };
    assert_eq!(
        machine.get_with_target_delta(10),
        Machine { button_a: (1, 2), button_b: (3, 4), target: (15, 4) }
    );
}

#[test]
fn press_counts_may_be_negative() {
    // 3 * (1, 0) - 2 * (0, 1) = (3, -2)
    let machine = Machine { button_a: (1, 0), button_b: (0, 1), target: (3, -2) };
    assert_eq!(machine.get_optimal_win_cost(), Some(7));
    // the counts exist but are no whole numbers
    let machine = Machine { button_a: (2, 0), button_b: (0, 2), target: (3, 2) };
    assert_eq!(machine.get_optimal_win_cost(), None);
}

#[test]
fn costs_at_the_rim_of_the_range() {
    let machine = Machine { button_a: (1, 0), button_b: (0, 1), target: (i64::MAX, 0) };
    assert_eq!(machine.get_optimal_win_cost(), None);
    let machine = Machine { button_a: (1, 0), button_b: (0, 1), target: (0, i64::MAX) };
    assert_eq!(machine.get_optimal_win_cost(), Some(i64::MAX));
    let machine = Machine { button_a: (-1, 0), button_b: (0, -1), target: (i64::MIN, i64::MIN) };
    assert_eq!(machine.get_optimal_win_cost(), None);
}

#[test]
fn ill_set_machines_are_told() {
    assert!(!Machine { button_a: (1, 2), button_b: (2, 4), target: (0, 0) }.is_well_set());
    assert!(!Machine { button_a: (0, 2), button_b: (2, 4), target: (0, 0) }.is_well_set());
    assert!(Machine { button_a: (1, 2), button_b: (2, 5), target: (0, 0) }.is_well_set());
}

#[test]
fn malformed_machines_are_refused() {
    assert!(parse_machines("Button A: X+1 Y+2").is_none());
    assert!(parse_machines("Button B: X+1, Y-2").is_none());
    assert!(parse_machines("Prize: X=1, Z=2").is_none());
    assert_eq!(parse_machines("nothing here\n"), Some(vec![]));
    // a prize line finishes a machine with what was read so far
    assert_eq!(
        parse_machines("Button B: X+-3, Y+4\nPrize: X=-5, Y=6\nPrize: X=1, Y=1"),
        Some(vec![
            Machine { button_a: (0, 0), button_b: (-3, 4), target: (-5, 6) },
            Machine { button_a: (0, 0), button_b: (0, 0), target: (1, 1) },
        ])
    );
}

#[test]
fn costs_add_up() {
    assert_eq!(total_cost(&vec![]), 0);
    assert_eq!(total_cost(&vec![Some(i64::MAX), Some(i64::MAX), None, Some(-1)]), 2 * (i64::MAX as i128) - 1);
}
