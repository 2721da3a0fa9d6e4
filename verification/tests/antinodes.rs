use guard_patrol::problem_8;
use guard_patrol::problem_8::coord::Position;

const INPUT: &str = "............
........0...
.....0......
.......0....
....0.......
......A.....
............
............
........A...
.........A..
............
............";

#[test]
fn test_add() {
    let pos1 = Position::new(1, 2);
    let pos2 = Position::new(3, 4);
    let result = pos1.add(pos2);
    assert_eq!(result, Position::new(4, 6));
}

#[test]
fn test_sub() {
    let pos1 = Position::new(1, 2);
    let pos2 = Position::new(3, 4);
    let result = pos2.sub(pos1);
    assert_eq!(result, Position::new(2, 2));
}

#[test]
fn test_antinode() {
    let pos1 = Position::new(1, 1);
    let pos2 = Position::new(2, 2);
    let result = pos2.antinode(pos1);
    assert_eq!(result, Position::new(3, 3));
}

#[test]
fn antinodes_test_part_1() {
    let result = problem_8::part_1(INPUT);
    assert_eq!(result, Some(14));
}

#[test]
fn test_part_2() {
    let result = problem_8::part_2(INPUT);
    assert_eq!(result, None);
}

#[test]
fn antinodes_scale_saturates() {
    let p = Position::new(i64::MAX, 2);
    assert_eq!(p.scale(2), Position::new(i64::MAX, 4));
}
