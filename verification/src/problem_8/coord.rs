//! Plane coordinates with saturating arithmetic.

use vstd::prelude::*;

verus! {

/// Clamps a mathematical integer into the `i64` range.
pub open spec fn sat64(x: int) -> int {
    if x > i64::MAX {
        i64::MAX as int
    } else if x < i64::MIN {
        i64::MIN as int
    } else {
        x
    }
}

/// A grid point; coordinates may leave the board during arithmetic.
#[derive(Debug, Clone, Copy, PartialEq, Eq, Hash, Structural)]
pub struct Position {
    pub row: i64,
    pub col: i64,
}

impl Position {
    pub fn new(row: i64, col: i64) -> (r: Position)
        ensures
            r == (Position { row, col }),
    {
        Position { row, col }
    }

    /// Both coordinates scaled by `factor`, saturating at the `i64` range.
    pub fn scale(&self, factor: i64) -> (r: Position)
        ensures
            r.row == sat64(self.row * factor),
            r.col == sat64(self.col * factor),
    {
        Position { row: sat_mul(self.row, factor), col: sat_mul(self.col, factor) }
    }

    /// The point on the far side of `self` from `other`, at the same
    /// distance: `2 * self - other`, each step saturating.
    pub fn antinode(&self, other: Position) -> (r: Position)
        ensures
            r.row == sat64(sat64(self.row * 2) - other.row),
            r.col == sat64(sat64(self.col * 2) - other.col),
    {
        self.scale(2).sub(other)
    }

    /// Componentwise saturating sum.
    pub fn add(self, other: Position) -> (r: Position)
        ensures
            r.row == sat64(self.row + other.row),
            r.col == sat64(self.col + other.col),
    {
        Position { row: sat_add(self.row, other.row), col: sat_add(self.col, other.col) }
    }

    /// Componentwise saturating difference.
    pub fn sub(self, other: Position) -> (r: Position)
        ensures
            r.row == sat64(self.row - other.row),
            r.col == sat64(self.col - other.col),
    {
        Position { row: sat_sub(self.row, other.row), col: sat_sub(self.col, other.col) }
    }
}

fn sat_mul(a: i64, b: i64) -> (r: i64)
    ensures
        r == sat64(a * b),
{
    proof {
        assert((a as int) * (b as int) <= 0x7fffffffffffffffffffffffffffffff && (a as int) * (
        b as int) >= -0x80000000000000000000000000000000) by (nonlinear_arith)
            requires
                -0x8000000000000000 <= a as int <= 0x7fffffffffffffff,
                -0x8000000000000000 <= b as int <= 0x7fffffffffffffff,
        ;
    }
    let wide: i128 = (a as i128) * (b as i128);
    if wide > i64::MAX as i128 {
        i64::MAX
    } else if wide < i64::MIN as i128 {
        i64::MIN
    } else {
        wide as i64
    }
}

fn sat_add(a: i64, b: i64) -> (r: i64)
    ensures
        r == sat64(a + b),
{
    let wide: i128 = (a as i128) + (b as i128);
    if wide > i64::MAX as i128 {
        i64::MAX
    } else if wide < i64::MIN as i128 {
        i64::MIN
    } else {
        wide as i64
    }
}

fn sat_sub(a: i64, b: i64) -> (r: i64)
    ensures
        r == sat64(a - b),
{
    let wide: i128 = (a as i128) - (b as i128);
    if wide > i64::MAX as i128 {
        i64::MAX
    } else if wide < i64::MIN as i128 {
        i64::MIN
    } else {
        wide as i64
    }
}

} // verus!
