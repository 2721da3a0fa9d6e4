use guard_patrol::problem_2;

const INPUT: &str = "7 6 4 2 1
1 2 7 8 9
9 7 6 2 1
1 3 2 4 5
8 6 4 4 1
1 3 6 7 9";

#[test]
fn problem_2_test_part_1() {
    assert_eq!(problem_2::part_1(INPUT), 2);
}

#[test]
fn problem_2_test_part_2() {
    assert_eq!(problem_2::part_2(INPUT), 4);
}

#[test]
fn records_level_safe_cases() {
    assert!(problem_2::level_safe(&[7, 6, 4, 2, 1]));
    assert!(!problem_2::level_safe(&[1, 2, 7, 8, 9]));
    assert!(!problem_2::level_safe(&[8, 6, 4, 4, 1]));
    assert!(problem_2::level_safe(&[]));
    assert!(problem_2::level_safe(&[5]));
}

#[test]
fn records_dampener_accepts_one_removal() {
    assert!(problem_2::level_safe_dampened("1 3 2 4 5"));
    assert!(problem_2::level_safe_dampened("8 6 4 4 1"));
    assert!(!problem_2::level_safe_dampened("9 7 6 2 1"));
}
