use guard_patrol::problem_4;

const INPUT: &str = "MMMSXXMASM
MSAMXMSMSA
AMXSXMAAMM
MSAMASMSMX
XMASAMXAMM
XXAMMXXAMA
SMSMSASXSS
SAXAMASAAA
MAMMMXMMMM
MXMXAXMASX";

#[test]
fn words_test_part_1() {
    let result = problem_4::part_1(INPUT);
    assert_eq!(result, Some(18));
}

#[test]
fn words_test_part_2() {
    let result = problem_4::part_2(INPUT);
    assert_eq!(result, Some(9));
}

#[test]
fn words_single_row() {
    assert_eq!(problem_4::part_1("XMASAMX.MM\nAAAAAAAAAA\nBBBBBBBBBB\nCCCCCCCCCC"), Some(2));
}
