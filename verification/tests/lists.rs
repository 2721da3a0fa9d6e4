use guard_patrol::problem_1;
use guard_patrol::problem_1::{read_into_columns, ColumnType, FreqMap};

const INPUT: &str = "3   4
4   3
2   5
1   3
3   9
3   3
";

#[test]
fn test_problem_1_part_1() {
    assert_eq!(problem_1::problem_1_part_1(INPUT), 11);
}

#[test]
fn test_problem_1_part_2() {
    assert_eq!(problem_1::problem_1_part_2(INPUT), 31);
}

#[test]
fn lists_read_ints() {
    assert_eq!(problem_1::read_ints_from_str("3   4  -7"), vec![3, 4, -7]);
}

#[test]
fn lists_sorted_copy_orders() {
    let v = vec![3i32, 1, 2, 2, -5];
    let s = problem_1::sorted_copy(&v);
    assert_eq!(s, vec![-5, 1, 2, 2, 3]);
}

#[test]
fn lists_count_occurrences() {
    let v = vec![3i32, 4, 3, 3];
    assert_eq!(problem_1::count_occurrences(&v, 3), 3);
    assert_eq!(problem_1::count_occurrences(&v, 9), 0);
}

#[test]
fn lists_empty_input() {
    assert_eq!(problem_1::problem_1_part_1(""), 0);
    assert_eq!(problem_1::problem_1_part_2(""), 0);
}

#[test]
fn lists_column_insert_and_sort() {
    let mut col = ColumnType::ListInts(Vec::new());
    col.insert(3);
    col.insert(1);
    col.insert(2);
    col.sort();
    assert_eq!(col.as_slice(), &[1, 2, 3]);
}

#[test]
fn lists_column_frequency_counts() {
    let mut col = ColumnType::FrequencyMapInts(FreqMap::new());
    col.insert(5);
    col.insert(9);
    col.insert(5);
    let freq = col.as_freq_map();
    assert_eq!(freq.get(5), 2);
    assert_eq!(freq.get(9), 1);
    assert_eq!(freq.get(7), 0);
}

#[test]
fn lists_read_into_columns() {
    let mut columns = vec![
        ColumnType::ListInts(Vec::new()),
        ColumnType::FrequencyMapInts(FreqMap::new()),
    ];
    read_into_columns("3   4\n4   3\n2   5\n1   3\n3   9\n3   3\n", &mut columns);
    assert_eq!(columns[0].as_slice(), &[3, 4, 2, 1, 3, 3]);
    assert_eq!(columns[1].as_freq_map().get(3), 3);
}
