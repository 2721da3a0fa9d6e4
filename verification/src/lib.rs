//! Grid-puzzle solvers centred on a guard patrol simulation: a guard walks a
//! rectangular grid, turning right at walls, until it leaves the board.  The
//! library computes the set of cells the guard visits and counts the wall
//! placements that would trap the guard in a loop.  The remaining modules are
//! self-contained solvers for unrelated text puzzles that share only the
//! plain-text parsing helpers.

pub mod parsing;
pub mod problem_6;
pub mod problem_2;
pub mod problem_1;
pub mod problem_4;
pub mod problem_10;
pub mod problem_8;
pub mod problem_7;
pub mod problem_3;
pub mod problem_11;
pub mod problem_5;
pub mod problem_9;
