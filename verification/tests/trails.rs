use guard_patrol::problem_10;

const INPUT: &str = "89010123
78121874
87430965
96549874
45678903
32019012
01329801
10456732";

#[test]
fn lib_test_part_1() {
    let result = problem_10::part_1(INPUT);
    assert_eq!(result, Some(36));
}

#[test]
fn lib_test_part_2() {
    let result = problem_10::part_2(INPUT);
    assert_eq!(result, Some(81));
}

#[test]
fn single_trail_scores_one() {
    let grid = "0123\n1234\n8765\n9876";
    assert_eq!(problem_10::part_1(grid), Some(1));
}
