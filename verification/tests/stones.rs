use guard_patrol::problem_11;

const INPUT: &str = "125 17";

#[test]
fn test_part_1() {
    let result = problem_11::part_1(INPUT);
    assert_eq!(result, Some(55312));
}

#[test]
fn stones_single_blink_splits() {
    // one blink of "0 1 10 99 999": the worked example row
    let zero = problem_11::evaluate_rules(0);
    assert_eq!(zero, vec![1]);
    let one = problem_11::evaluate_rules(1);
    assert_eq!(one, vec![2024]);
    let ten = problem_11::evaluate_rules(10);
    assert_eq!(ten, vec![1, 0]);
    let nn = problem_11::evaluate_rules(99);
    assert_eq!(nn, vec![9, 9]);
    let big = problem_11::evaluate_rules(999);
    assert_eq!(big, vec![2021976]);
}

#[test]
fn stones_six_blinks_of_example() {
    let mut row: Vec<u64> = vec![125, 17];
    for _ in 0..6 {
        row = problem_11::apply_rules(&row);
    }
    assert_eq!(row.len(), 22);
}

#[test]
fn stones_frequency_solver_matches_flat_run() {
    let mut row: Vec<u64> = vec![125, 17];
    for _ in 0..25 {
        row = problem_11::apply_rules(&row);
    }
    let freq = problem_11::freq_map(&[125, 17]);
    let mut solver = problem_11::Solver::new();
    let expanded = solver.solve(&freq);
    assert_eq!(problem_11::tally(&expanded), row.len());
}
