use advent_calendar::bridge::{apply_checked, calibration, get_equations, Equation, Operation};

const EQUATIONS: &str = "190: 10 19\n3267: 81 40 27\n83: 17 5\n156: 15 6\n7290: 6 8 6 15\n161011: 16 10 13\n192: 17 8 14\n21037: 9 7 18 13\n292: 11 6 16 20\n";

#[test]
fn example_calibration() {
    let equations = get_equations(EQUATIONS).unwrap();
    assert_eq!(equations.len(), 9);
    assert_eq!(equations[1], Equation { target: 3267, nums: vec![81, 40, 27] });
    let solved: Vec<usize> =
        equations.iter().map(|e| e.can_solve(&Equation::operations_1())).collect();
    assert_eq!(solved, vec![190, 3267, 0, 0, 0, 0, 0, 0, 292]);
    assert_eq!(calibration(&equations, &Equation::operations_1()), Some(3749));
    assert_eq!(calibration(&equations, &Equation::operations_2()), Some(11387));
}

#[test]
fn operators_are_applied_from_left_to_right() {
    let ops = Equation::operations_2();
    // 6 * 8 = 48, 48 || 6 = 486, 486 * 15 = 7290
    assert!(Equation::eval(7290, 6, vec![8, 6, 15], &ops));
    assert!(!Equation::eval(7290, 6, vec![8, 6, 15], &Equation::operations_1()));
    assert!(Equation::eval(5, 5, vec![], &ops));
    assert!(!Equation::eval(5, 6, vec![], &ops));
    assert!(!Equation::eval(5, 5, vec![0], &[]));
}

#[test]
fn each_operator() {
    assert_eq!(apply_checked(Operation::Add, 2, 3), Some(5));
    assert_eq!(apply_checked(Operation::Multiply, 2, 3), Some(6));
    assert_eq!(apply_checked(Operation::Concatenate, 12, 345), Some(12345));
    assert_eq!(apply_checked(Operation::Concatenate, 12, 0), Some(120));
    assert_eq!(apply_checked(Operation::Concatenate, 0, 10), Some(10));
    assert_eq!(apply_checked(Operation::Concatenate, 7, 9), Some(79));
    assert_eq!(apply_checked(Operation::Concatenate, 7, 10), Some(710));
    assert_eq!(apply_checked(Operation::Add, usize::MAX, 1), None);
    assert_eq!(apply_checked(Operation::Multiply, usize::MAX, 2), None);
    assert_eq!(apply_checked(Operation::Concatenate, usize::MAX, 1), None);
    assert_eq!(apply_checked(Operation::Add, usize::MAX, 0), Some(usize::MAX));
}

#[test]
fn a_value_that_does_not_fit_is_not_carried_on() {
    assert!(!Equation::eval(0, usize::MAX, vec![2, 0], &[Operation::Multiply]));
    assert!(Equation::eval(0, 3, vec![2, 0], &[Operation::Multiply]));
}

#[test]
fn equations_are_read() {
    assert_eq!(Equation::from_str("190: 10 19"), Some(Equation { target: 190, nums: vec![10, 19] }));
    assert_eq!(Equation::from_str("5: 5"), Some(Equation { target: 5, nums: vec![5] }));
    assert_eq!(Equation::from_str("190:10 19"), None);
    assert_eq!(Equation::from_str("190: 10  19"), None);
    assert_eq!(Equation::from_str("190: "), None);
    assert_eq!(Equation::from_str("x: 1"), None);
    assert!(get_equations("1: 1\n\n2: 2").is_none());
    assert_eq!(get_equations(""), Some(vec![]));
}

#[test]
fn calibration_that_does_not_fit() {
    let equations = vec![
        Equation { target: usize::MAX, nums: vec![usize::MAX] },
        Equation { target: 1, nums: vec![1] },
    ];
    assert_eq!(calibration(&equations, &Equation::operations_1()), None);
    assert_eq!(calibration(&equations[..1].iter().map(|e| Equation { target: e.target, nums: e.nums.clone() }).collect(), &[]), Some(usize::MAX));
}
