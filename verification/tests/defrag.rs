use guard_patrol::problem_9;

const INPUT: &str = "2333133121414131402";

fn block_as_string(block: Option<u32>) -> String {
    match block {
        Some(id) => id.to_string(),
        None => ".".to_string(),
    }
}

fn blocks_as_string(blocks: &[Option<u32>]) -> String {
    blocks.iter().map(|b| block_as_string(*b)).collect()
}

#[test]
fn test_construct() {
    let nums = problem_9::parse_digits(INPUT);
    let result = problem_9::construct_blocks(&nums);
    let expected = "00...111...2...333.44.5555.6666.777.888899";
    assert_eq!(blocks_as_string(&result), expected.to_string());
}

#[test]
fn defrag_test_part_1() {
    let result = problem_9::part_1(INPUT);
    assert_eq!(result, Some(1928));
}

#[test]
fn defrag_test_part_2() {
    let nums = problem_9::parse_digits(INPUT);
    let mut blocks = problem_9::construct_blocks(&nums);
    problem_9::defrag_files(&mut blocks);
    let result = problem_9::checksum(&blocks);
    assert_eq!(Some(result), Some(2858));
}

#[test]
fn defrag_whole_answer_part_2() {
    assert_eq!(problem_9::part_2(INPUT), Some(2858));
}

#[test]
fn defrag_compacts_blocks() {
    let nums = problem_9::parse_digits("12345");
    let mut blocks = problem_9::construct_blocks(&nums);
    problem_9::defrag_string(&mut blocks);
    assert_eq!(blocks_as_string(&blocks), "022111222......");
}

#[test]
fn defrag_checksum_formula() {
    // positions 0,1,2 hold files 1,2,3: checksum 0*1 + 1*2 + 2*3
    let blocks = vec![Some(1u32), Some(2), Some(3), None];
    assert_eq!(problem_9::checksum(&blocks), 8);
}
