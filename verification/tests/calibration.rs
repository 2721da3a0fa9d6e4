use guard_patrol::problem_7;
use guard_patrol::problem_7::sequence::SequenceIterator;

const INPUT: &str = "190: 10 19
3267: 81 40 27
83: 17 5
156: 15 6
7290: 6 8 6 15
161011: 16 10 13
192: 17 8 14
21037: 9 7 18 13
292: 11 6 16 20";

#[test]
fn calibration_test_part_1() {
    let result = problem_7::part_1(INPUT);
    assert_eq!(result, Some(3749));
}

#[test]
fn calibration_test_part_2() {
    let result = problem_7::part_2(INPUT);
    assert_eq!(result, None);
}

#[test]
fn calibration_expressions() {
    assert!(problem_7::has_valid_expression(&[10, 19], 190));
    assert!(problem_7::has_valid_expression(&[81, 40, 27], 3267));
    assert!(!problem_7::has_valid_expression(&[17, 5], 83));
}

#[test]
fn sequence_iterator_counts_in_base_n() {
    let elems = [0u32, 1];
    let mut it = SequenceIterator::new(&elems, 2);
    let mut seen: Vec<Vec<u32>> = Vec::new();
    while let Some(s) = it.next() {
        seen.push(s);
    }
    assert_eq!(seen, vec![vec![0, 0], vec![0, 1], vec![1, 0], vec![1, 1]]);
}

#[test]
fn sequence_iterator_empty_alphabet() {
    let elems: [u32; 0] = [];
    let mut it = SequenceIterator::new(&elems, 3);
    assert_eq!(it.next(), None);
}
