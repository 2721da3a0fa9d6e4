use guard_patrol::problem_5;
use guard_patrol::problem_5::chatgpt;
use guard_patrol::problem_5::topological;

const INPUT: &str = "47|53
97|13
97|61
97|47
75|29
61|13
75|53
29|13
97|29
53|29
61|53
97|53
61|29
47|13
75|47
97|75
47|61
75|61
47|29
75|13
53|13

75,47,61,53,29
97,61,53,29,13
75,29,13
75,97,47,61,53
61,13,29
97,13,75,29,47";

#[test]
fn updates_test_part_1() {
    assert_eq!(problem_5::part_1(INPUT), Some(143));
}

#[test]
fn test_split_parts() {
    let cs: Vec<char> = INPUT.chars().collect();
    let (head, tail) = problem_5::split_blank(&cs).unwrap();
    let head_str: String = head.iter().collect();
    let tail_str: String = tail.iter().collect();
    assert_eq!(head_str.lines().count(), 21);
    assert_eq!(tail_str.lines().count(), 6);
    let (std_head, std_tail) = INPUT.split_once("\n\n").unwrap();
    assert_eq!(head_str, std_head);
    assert_eq!(tail_str, std_tail);
}

#[test]
fn test_rules_parsing() {
    let (head, _) = INPUT.split_once("\n\n").unwrap();
    let rules = problem_5::rules(head);
    let mut keys: Vec<i32> = rules.iter().map(|p| p.0).collect();
    keys.sort();
    keys.dedup();
    assert_eq!(keys.len(), 6);
    assert_eq!(rules.iter().filter(|p| p.0 == 47).count(), 4);
}

#[test]
fn updates_test_part_2() {
    assert_eq!(problem_5::part_2(INPUT), Some(123));
}

#[test]
fn updates_solve_matches() {
    assert_eq!(chatgpt::solve(INPUT), 123);
}

#[test]
fn updates_parse_rule_and_update() {
    assert_eq!(chatgpt::parse_rule("47|53"), (47, 53));
    assert_eq!(chatgpt::parse_update(" 75, 47 ,61"), vec![75, 47, 61]);
}

#[test]
fn updates_correct_order_cases() {
    let (head, _) = INPUT.split_once("\n\n").unwrap();
    let rules = problem_5::rules(head);
    assert!(problem_5::correct_order(vec![75, 47, 61, 53, 29], &rules));
    assert!(!problem_5::correct_order(vec![75, 97, 47, 61, 53], &rules));
}

#[test]
fn updates_fix_order_reorders() {
    let (head, _) = INPUT.split_once("\n\n").unwrap();
    let rules = problem_5::rules(head);
    let fixed = problem_5::fix_order(&[75, 97, 47, 61, 53], &rules);
    assert_eq!(fixed, vec![97, 75, 47, 61, 53]);
    let fixed2 = problem_5::fix_order(&[97, 13, 75, 29, 47], &rules);
    assert_eq!(fixed2, vec![97, 75, 47, 29, 13]);
}

#[test]
fn updates_rules_builder() {
    let mut r = topological::Rules::new();
    r.add_dependency(1, 2);
    r.add_dependency(1, 3);
    r.add_dependency(2, 3);
    let sorted = topological::fix_order(&[3, 1, 2], &r);
    assert_eq!(sorted, vec![1, 2, 3]);
}
