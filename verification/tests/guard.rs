use guard_patrol::problem_6::{part_1, part_2, Direction, Guard, Position, World, loops, run};

const INPUT: &str = "....#.....
.........#
..........
..#.......
.......#..
..........
.#..^.....
........#.
#.........
......#...";

#[test]
fn guard_test_part_1() {
    let result = part_1(INPUT);
    assert_eq!(result, Some(41));
}

#[test]
fn guard_test_part_2() {
    let result = part_2(INPUT);
    assert_eq!(result, Some(6));
}

#[test]
fn guard_no_marker_is_rejected() {
    assert_eq!(part_1("....\n...."), None);
    assert_eq!(part_2("....\n...."), None);
}

#[test]
fn guard_ragged_grid_is_rejected() {
    assert_eq!(part_1("^..\n....."), None);
}

#[test]
fn guard_empty_input_is_rejected() {
    assert_eq!(part_1(""), None);
}

#[test]
fn guard_loop_is_rejected() {
    // four walls trap the guard in a square
    let looping = ".#..\n...#\n#^..\n..#.";
    assert_eq!(part_1(looping), None);
    assert_eq!(part_2(looping), None);
}

#[test]
fn boundary_guard_exits_after_one_step() {
    // facing the top edge: only the start cell is ever visited
    assert_eq!(part_1("^..\n...\n..."), Some(1));
    assert_eq!(part_1("...\n...\n..v"), Some(1));
    assert_eq!(part_1("<..\n...\n..."), Some(1));
}

#[test]
fn simulator_is_idempotent() {
    let world = World::new(INPUT);
    let guard = world.find_guard().unwrap();
    assert!(!loops(&world, &guard));
    let first = run(&world, &guard);
    let second = run(&world, &guard);
    assert_eq!(first.len(), second.len());
    for row in 0..10 {
        for col in 0..10 {
            let p = Position::new(row, col);
            assert_eq!(first.contains(p), second.contains(p));
        }
    }
}

#[test]
fn step_is_deterministic() {
    let world = World::new(INPUT);
    let guard = world.find_guard().unwrap();
    assert_eq!(guard.next(&world.grid), guard.next(&world.grid));
}

#[test]
fn visited_grows_step_by_step() {
    let world = World::new(INPUT);
    let mut guard = world.find_guard().unwrap();
    let mut seen: Vec<Position> = vec![guard.position];
    let mut sizes: Vec<usize> = vec![1];
    for _ in 0..100 {
        match guard.next(&world.grid) {
            Some(g) => {
                guard = g;
                if !seen.contains(&guard.position) {
                    seen.push(guard.position);
                }
                sizes.push(seen.len());
            }
            None => break,
        }
    }
    for w in sizes.windows(2) {
        assert!(w[0] <= w[1]);
    }
}

#[test]
fn turn_right_cycles_clockwise() {
    assert_eq!(Direction::Up.turn_right(), Direction::Right);
    assert_eq!(Direction::Right.turn_right(), Direction::Down);
    assert_eq!(Direction::Down.turn_right(), Direction::Left);
    assert_eq!(Direction::Left.turn_right(), Direction::Up);
}

#[test]
fn wall_ahead_turns_in_place() {
    let world = World::new("#.\n^.");
    let guard = Guard::new(Position::new(1, 0), Direction::Up);
    let next = guard.next(&world.grid).unwrap();
    assert_eq!(next.position, Position::new(1, 0));
    assert_eq!(next.direction, Direction::Right);
}

#[test]
fn off_path_wall_changes_nothing() {
    // a wall on a never-visited cell leaves both answers alone
    let with_wall = "....#.....
.........#
..........
..#.......
.......#..
..........
.#..^.....
........#.
#........#
......#...";
    assert_eq!(part_1(with_wall), Some(41));
    assert_eq!(part_2(with_wall), Some(6));
}
