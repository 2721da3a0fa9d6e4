use guard_patrol::problem_3;

#[test]
fn test_from_digits() {
    // the whole of "mul(2,4)" scans as one call with product eight
    let cs: Vec<char> = "mul(2,4)".chars().collect();
    let result = problem_3::mul_expr(&cs, 0);
    assert_eq!(result, Some((8, 8)));
}

#[test]
fn scanner_test_part_1() {
    let input = "xmul(2,4)%&mul[3,7]!@^do_not_mul(5,5)+mul(32,64]then(mul(11,8)mul(8,5))";
    let result = problem_3::part_1(input);
    assert_eq!(result, Some(161));
}

#[test]
fn scanner_test_part_2() {
    let input = "xmul(2,4)&mul[3,7]!^don't()_mul(5,5)+mul(32,64](mul(11,8)undo()?mul(8,5))";
    let result = problem_3::part_2(input);
    assert_eq!(result, Some(48));
}

#[test]
fn scanner_rejects_long_operands() {
    let cs: Vec<char> = "mul(1234,5)".chars().collect();
    assert_eq!(problem_3::mul_expr(&cs, 0), None);
    assert_eq!(problem_3::part_1("mul(123,4)"), Some(492));
}

#[test]
fn scanner_empty_input_sums_to_zero() {
    assert_eq!(problem_3::part_1(""), Some(0));
    assert_eq!(problem_3::part_2(""), Some(0));
}
