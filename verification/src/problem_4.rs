//! Word search: count every straight occurrence of "XMAS" in a character
//! grid (eight directions), and every X-shaped pair of "MAS" diagonals.

use vstd::prelude::*;
use crate::parsing;

verus! {

/// A rectangular character grid.
pub open spec fn rect(g: Seq<Seq<char>>) -> bool {
    forall|i: int| 0 <= i < g.len() ==> (#[trigger] g[i]).len() == g[0].len()
}

/// "XMAS" read upward from (`x`, `y`).
pub open spec fn xmas_up_at(g: Seq<Seq<char>>, x: int, y: int) -> bool {
    y >= 3 && g[y][x] == 'X' && g[y - 1][x] == 'M' && g[y - 2][x] == 'A' && g[y - 3][x] == 'S'
}

pub open spec fn xmas_down_at(g: Seq<Seq<char>>, x: int, y: int) -> bool {
    y + 3 < g.len() && g[y][x] == 'X' && g[y + 1][x] == 'M' && g[y + 2][x] == 'A' && g[y + 3][x]
        == 'S'
}

pub open spec fn xmas_left_at(g: Seq<Seq<char>>, x: int, y: int) -> bool {
    x >= 3 && g[y][x] == 'X' && g[y][x - 1] == 'M' && g[y][x - 2] == 'A' && g[y][x - 3] == 'S'
}

pub open spec fn xmas_right_at(g: Seq<Seq<char>>, x: int, y: int) -> bool {
    x + 3 < g[0].len() && g[y][x] == 'X' && g[y][x + 1] == 'M' && g[y][x + 2] == 'A' && g[y][x + 3]
        == 'S'
}

pub open spec fn xmas_up_left_at(g: Seq<Seq<char>>, x: int, y: int) -> bool {
    y >= 3 && x >= 3 && g[y][x] == 'X' && g[y - 1][x - 1] == 'M' && g[y - 2][x - 2] == 'A' && g[y
        - 3][x - 3] == 'S'
}

pub open spec fn xmas_up_right_at(g: Seq<Seq<char>>, x: int, y: int) -> bool {
    y >= 3 && x + 3 < g[0].len() && g[y][x] == 'X' && g[y - 1][x + 1] == 'M' && g[y - 2][x + 2]
        == 'A' && g[y - 3][x + 3] == 'S'
}

pub open spec fn xmas_down_left_at(g: Seq<Seq<char>>, x: int, y: int) -> bool {
    y + 3 < g.len() && x >= 3 && g[y][x] == 'X' && g[y + 1][x - 1] == 'M' && g[y + 2][x - 2] == 'A'
        && g[y + 3][x - 3] == 'S'
}

pub open spec fn xmas_down_right_at(g: Seq<Seq<char>>, x: int, y: int) -> bool {
    y + 3 < g.len() && x + 3 < g[0].len() && g[y][x] == 'X' && g[y + 1][x + 1] == 'M' && g[y + 2][x
        + 2] == 'A' && g[y + 3][x + 3] == 'S'
}

/// How many of the eight directions spell "XMAS" from (`x`, `y`).
pub open spec fn spec_count_at(g: Seq<Seq<char>>, x: int, y: int) -> int {
    (if xmas_up_at(g, x, y) {
        1int
    } else {
        0int
    }) + (if xmas_down_at(g, x, y) {
        1int
    } else {
        0int
    }) + (if xmas_left_at(g, x, y) {
        1int
    } else {
        0int
    }) + (if xmas_right_at(g, x, y) {
        1int
    } else {
        0int
    }) + (if xmas_up_left_at(g, x, y) {
        1int
    } else {
        0int
    }) + (if xmas_up_right_at(g, x, y) {
        1int
    } else {
        0int
    }) + (if xmas_down_left_at(g, x, y) {
        1int
    } else {
        0int
    }) + (if xmas_down_right_at(g, x, y) {
        1int
    } else {
        0int
    })
}

/// An X of two "MAS" strokes centred at (`x`, `y`).
pub open spec fn mas_at_spec(g: Seq<Seq<char>>, x: int, y: int) -> bool {
    &&& 1 <= y < g.len() - 1
    &&& 1 <= x < g[0].len() - 1
    &&& g[y][x] == 'A'
    &&& ((g[y - 1][x - 1] == 'M' && g[y + 1][x + 1] == 'S') || (g[y - 1][x - 1] == 'S' && g[y
        + 1][x + 1] == 'M'))
    &&& ((g[y - 1][x + 1] == 'M' && g[y + 1][x - 1] == 'S') || (g[y - 1][x + 1] == 'S' && g[y
        + 1][x - 1] == 'M'))
}

/// "XMAS" occurrences from the X cells of row `y`, up to column `j`.
pub open spec fn xmas_in_row(g: Seq<Seq<char>>, y: int, j: int) -> int
    decreases j,
{
    if j <= 0 {
        0
    } else {
        xmas_in_row(g, y, j - 1) + if g[y][j - 1] == 'X' {
            spec_count_at(g, j - 1, y)
        } else {
            0int
        }
    }
}

pub open spec fn xmas_upto_row(g: Seq<Seq<char>>, i: int) -> int
    decreases i,
{
    if i <= 0 {
        0
    } else {
        xmas_upto_row(g, i - 1) + xmas_in_row(g, i - 1, g[i - 1].len() as int)
    }
}

/// The total count of "XMAS" occurrences in the grid.
pub open spec fn spec_xmas_total(g: Seq<Seq<char>>) -> int {
    xmas_upto_row(g, g.len() as int)
}

pub open spec fn mas_in_row(g: Seq<Seq<char>>, y: int, j: int) -> int
    decreases j,
{
    if j <= 0 {
        0
    } else {
        mas_in_row(g, y, j - 1) + if mas_at_spec(g, j - 1, y) {
            1int
        } else {
            0int
        }
    }
}

pub open spec fn mas_upto_row(g: Seq<Seq<char>>, i: int) -> int
    decreases i,
{
    if i <= 0 {
        0
    } else {
        mas_upto_row(g, i - 1) + mas_in_row(g, i - 1, g[i - 1].len() as int)
    }
}

/// The total count of crossed "MAS" pairs in the grid.
pub open spec fn spec_mas_total(g: Seq<Seq<char>>) -> int {
    mas_upto_row(g, g.len() as int)
}

/// The parsed character grid.
pub struct Grid {
    pub grid: Vec<Vec<char>>,
}

pub open spec fn gview(g: &Vec<Vec<char>>) -> Seq<Seq<char>> {
    g@.map_values(|r: Vec<char>| r@)
}

impl Grid {
    /// Builds the grid from the raw puzzle text, one row per line.
    pub fn new(input: &str) -> (w: Grid)
        ensures
            gview(&w.grid) == parsing::spec_lines(input@),
    {
        let cs = parsing::chars_of(input);
        let grid = parsing::split_lines(cs.as_slice());
        let w = Grid { grid };
        proof {
            assert(gview(&w.grid) =~= parsing::spec_lines(input@));
        }
        w
    }

    fn at(&self, x: usize, y: usize) -> (c: char)
        requires
            y < gview(&self.grid).len(),
            x < gview(&self.grid)[y as int].len(),
        ensures
            c == gview(&self.grid)[y as int][x as int],
    {
        proof {
            assert(gview(&self.grid)[y as int] == self.grid@[y as int]@);
        }
        self.grid[y][x]
    }

    pub fn xmas_up(&self, x: usize, y: usize) -> (b: bool)
        requires
            grid_ok(gview(&self.grid)),
            y < gview(&self.grid).len(),
            x < gview(&self.grid)[0].len(),
        ensures
            b == xmas_up_at(gview(&self.grid), x as int, y as int),
    {
        if y < 3 {
            return false;
        }
        self.at(x, y) == 'X' && self.at(x, y - 1) == 'M' && self.at(x, y - 2) == 'A' && self.at(
            x,
            y - 3,
        ) == 'S'
    }

    pub fn xmas_down(&self, x: usize, y: usize) -> (b: bool)
        requires
            grid_ok(gview(&self.grid)),
            y < gview(&self.grid).len(),
            x < gview(&self.grid)[0].len(),
        ensures
            b == xmas_down_at(gview(&self.grid), x as int, y as int),
    {
        if y > self.grid.len() - 4 {
            return false;
        }
        self.at(x, y) == 'X' && self.at(x, y + 1) == 'M' && self.at(x, y + 2) == 'A' && self.at(
            x,
            y + 3,
        ) == 'S'
    }

    pub fn xmas_left(&self, x: usize, y: usize) -> (b: bool)
        requires
            grid_ok(gview(&self.grid)),
            y < gview(&self.grid).len(),
            x < gview(&self.grid)[0].len(),
        ensures
            b == xmas_left_at(gview(&self.grid), x as int, y as int),
    {
        if x < 3 {
            return false;
        }
        self.at(x, y) == 'X' && self.at(x - 1, y) == 'M' && self.at(x - 2, y) == 'A' && self.at(
            x - 3,
            y,
        ) == 'S'
    }

    pub fn xmas_right(&self, x: usize, y: usize) -> (b: bool)
        requires
            grid_ok(gview(&self.grid)),
            y < gview(&self.grid).len(),
            x < gview(&self.grid)[0].len(),
        ensures
            b == xmas_right_at(gview(&self.grid), x as int, y as int),
    {
        proof {
            assert(gview(&self.grid)[0] == self.grid@[0]@);
        }
        if x > self.grid[0].len() - 4 {
            return false;
        }
        self.at(x, y) == 'X' && self.at(x + 1, y) == 'M' && self.at(x + 2, y) == 'A' && self.at(
            x + 3,
            y,
        ) == 'S'
    }

    pub fn xmas_up_left(&self, x: usize, y: usize) -> (b: bool)
        requires
            grid_ok(gview(&self.grid)),
            y < gview(&self.grid).len(),
            x < gview(&self.grid)[0].len(),
        ensures
            b == xmas_up_left_at(gview(&self.grid), x as int, y as int),
    {
        if y < 3 || x < 3 {
            return false;
        }
        self.at(x, y) == 'X' && self.at(x - 1, y - 1) == 'M' && self.at(x - 2, y - 2) == 'A'
            && self.at(x - 3, y - 3) == 'S'
    }

    pub fn xmas_up_right(&self, x: usize, y: usize) -> (b: bool)
        requires
            grid_ok(gview(&self.grid)),
            y < gview(&self.grid).len(),
            x < gview(&self.grid)[0].len(),
        ensures
            b == xmas_up_right_at(gview(&self.grid), x as int, y as int),
    {
        proof {
            assert(gview(&self.grid)[0] == self.grid@[0]@);
        }
        if y < 3 || x > self.grid[0].len() - 4 {
            return false;
        }
        self.at(x, y) == 'X' && self.at(x + 1, y - 1) == 'M' && self.at(x + 2, y - 2) == 'A'
            && self.at(x + 3, y - 3) == 'S'
    }

    pub fn xmas_down_left(&self, x: usize, y: usize) -> (b: bool)
        requires
            grid_ok(gview(&self.grid)),
            y < gview(&self.grid).len(),
            x < gview(&self.grid)[0].len(),
        ensures
            b == xmas_down_left_at(gview(&self.grid), x as int, y as int),
    {
        if y > self.grid.len() - 4 || x < 3 {
            return false;
        }
        self.at(x, y) == 'X' && self.at(x - 1, y + 1) == 'M' && self.at(x - 2, y + 2) == 'A'
            && self.at(x - 3, y + 3) == 'S'
    }

    pub fn xmas_down_right(&self, x: usize, y: usize) -> (b: bool)
        requires
            grid_ok(gview(&self.grid)),
            y < gview(&self.grid).len(),
            x < gview(&self.grid)[0].len(),
        ensures
            b == xmas_down_right_at(gview(&self.grid), x as int, y as int),
    {
        proof {
            assert(gview(&self.grid)[0] == self.grid@[0]@);
        }
        if y > self.grid.len() - 4 || x > self.grid[0].len() - 4 {
            return false;
        }
        self.at(x, y) == 'X' && self.at(x + 1, y + 1) == 'M' && self.at(x + 2, y + 2) == 'A'
            && self.at(x + 3, y + 3) == 'S'
    }

    /// How many of the eight directions spell "XMAS" from (`x`, `y`).
    pub fn count_xmases_at(&self, x: usize, y: usize) -> (n: i32)
        requires
            grid_ok(gview(&self.grid)),
            y < gview(&self.grid).len(),
            x < gview(&self.grid)[0].len(),
        ensures
            n == spec_count_at(gview(&self.grid), x as int, y as int),
            0 <= n <= 8,
    {
        let mut n: i32 = 0;
        if self.xmas_up(x, y) {
            n += 1;
        }
        if self.xmas_down(x, y) {
            n += 1;
        }
        if self.xmas_left(x, y) {
            n += 1;
        }
        if self.xmas_right(x, y) {
            n += 1;
        }
        if self.xmas_up_left(x, y) {
            n += 1;
        }
        if self.xmas_up_right(x, y) {
            n += 1;
        }
        if self.xmas_down_left(x, y) {
            n += 1;
        }
        if self.xmas_down_right(x, y) {
            n += 1;
        }
        n
    }

    /// An X of two "MAS" strokes centred at (`x`, `y`).
    pub fn mas_at(&self, x: usize, y: usize) -> (b: bool)
        requires
            rect(gview(&self.grid)),
            y < gview(&self.grid).len(),
            x < gview(&self.grid)[y as int].len(),
        ensures
            b == mas_at_spec(gview(&self.grid), x as int, y as int),
    {
        if y < 1 {
            return false;
        }
        if y > self.grid.len() - 2 {
            return false;
        }
        if x < 1 {
            return false;
        }
        proof {
            assert(gview(&self.grid)[0] == self.grid@[0]@);
        }
        if x > self.grid[0].len() - 2 {
            return false;
        }
        self.at(x, y) == 'A' && ((self.at(x - 1, y - 1) == 'M' && self.at(x + 1, y + 1) == 'S') || (
        self.at(x - 1, y - 1) == 'S' && self.at(x + 1, y + 1) == 'M')) && ((self.at(x + 1, y - 1)
            == 'M' && self.at(x - 1, y + 1) == 'S') || (self.at(x + 1, y - 1) == 'S' && self.at(
            x - 1,
            y + 1,
        ) == 'M'))
    }
}

/// A rectangular grid whose dimensions allow the four-cell scans: at least
/// four rows and columns, unless it has no X cell at all.
pub open spec fn grid_ok(g: Seq<Seq<char>>) -> bool {
    &&& rect(g)
    &&& g.len() >= 4
    &&& g[0].len() >= 4
}

/// The inputs `part_1` accepts: a rectangular grid that is either free of X
/// cells or at least four by four, with a total that fits an `i32`.
pub open spec fn part_1_ok(g: Seq<Seq<char>>) -> bool {
    &&& rect(g)
    &&& (g.len() == 0 || grid_ok(g) || (forall|y: int, x: int|
        0 <= y < g.len() && 0 <= x < g[y].len() ==> #[trigger] g[y][x] != 'X'))
    &&& spec_xmas_total(g) <= i32::MAX
}

/// Counts every "XMAS" in the grid, in all eight directions.
pub fn part_1(input: &str) -> (r: Option<i32>)
    requires
        part_1_ok(parsing::spec_lines(input@)),
    ensures
        r == Some(spec_xmas_total(parsing::spec_lines(input@)) as i32),
{
    let ghost g = parsing::spec_lines(input@);
    let grid = Grid::new(input);
    let rows = grid.grid.len();
    let mut total: i32 = 0;
    let mut y: usize = 0;
    proof {
        lemma_xmas_total_nonneg(g, rows as int);
    }
    while y < rows
        invariant
            y <= rows,
            rows == g.len(),
            g == gview(&grid.grid),
            part_1_ok(g),
            total == xmas_upto_row(g, y as int),
            0 <= total,
        decreases rows - y,
    {
        let cols = grid.grid[y].len();
        proof {
            assert(gview(&grid.grid)[y as int] == grid.grid@[y as int]@);
        }
        let mut x: usize = 0;
        while x < cols
            invariant
                x <= cols,
                y < rows,
                rows == g.len(),
                cols == g[y as int].len(),
                g == gview(&grid.grid),
                part_1_ok(g),
                total == xmas_upto_row(g, y as int) + xmas_in_row(g, y as int, x as int),
                0 <= total,
            decreases cols - x,
        {
            let c = grid.at(x, y);
            if c == 'X' {
                proof {
                    lemma_xmas_row_bound(g, y as int, x as int + 1, cols as int);
                    lemma_xmas_rows_bound(g, y as int + 1, rows as int);
                    lemma_count_at_nonneg_parts(g, y as int, x as int);
                }
                let n = grid.count_xmases_at(x, y);
                total += n;
            }
            x += 1;
        }
        y += 1;
    }
    Some(total)
}

/// Row tallies only grow to the right.
proof fn lemma_xmas_row_mono(g: Seq<Seq<char>>, y: int, j: int, n: int)
    requires
        j <= n,
    ensures
        xmas_in_row(g, y, j) <= xmas_in_row(g, y, n),
    decreases n - j,
{
    if j < n {
        lemma_xmas_row_mono(g, y, j, n - 1);
        lemma_count_at_nonneg(g, n - 1, y);
    }
}

proof fn lemma_count_at_nonneg(g: Seq<Seq<char>>, x: int, y: int)
    ensures
        0 <= spec_count_at(g, x, y) <= 8,
{
}

proof fn lemma_count_at_nonneg_parts(g: Seq<Seq<char>>, y: int, x: int)
    requires
        x >= 0,
    ensures
        xmas_in_row(g, y, x + 1) == xmas_in_row(g, y, x) + (if g[y][x] == 'X' {
            spec_count_at(g, x, y)
        } else {
            0int
        }),
{
}

proof fn lemma_xmas_row_bound(g: Seq<Seq<char>>, y: int, j: int, cols: int)
    requires
        j <= cols,
    ensures
        xmas_in_row(g, y, j) <= xmas_in_row(g, y, cols),
{
    lemma_xmas_row_mono(g, y, j, cols);
}

proof fn lemma_xmas_rows_bound(g: Seq<Seq<char>>, i: int, rows: int)
    requires
        i <= rows,
        rows == g.len(),
    ensures
        xmas_upto_row(g, i) <= xmas_upto_row(g, rows),
    decreases rows - i,
{
    if i < rows {
        lemma_xmas_rows_bound(g, i + 1, rows);
        lemma_xmas_row_mono(g, i, 0, g[i].len() as int);
    }
}

proof fn lemma_xmas_total_nonneg(g: Seq<Seq<char>>, i: int)
    ensures
        0 <= xmas_upto_row(g, i),
    decreases i,
{
    if i > 0 {
        lemma_xmas_total_nonneg(g, i - 1);
        lemma_xmas_row_mono(g, i - 1, 0, g[i - 1].len() as int);
    }
}

/// The inputs `part_2` accepts: a rectangular grid whose total fits an `i32`.
pub open spec fn part_2_ok(g: Seq<Seq<char>>) -> bool {
    &&& rect(g)
    &&& spec_mas_total(g) <= i32::MAX
}

/// Counts every crossed pair of "MAS" strokes.
pub fn part_2(input: &str) -> (r: Option<i32>)
    requires
        part_2_ok(parsing::spec_lines(input@)),
    ensures
        r == Some(spec_mas_total(parsing::spec_lines(input@)) as i32),
{
    let ghost g = parsing::spec_lines(input@);
    let grid = Grid::new(input);
    let rows = grid.grid.len();
    let mut total: i32 = 0;
    let mut y: usize = 0;
    proof {
        lemma_mas_total_nonneg(g, rows as int);
    }
    while y < rows
        invariant
            y <= rows,
            rows == g.len(),
            g == gview(&grid.grid),
            part_2_ok(g),
            total == mas_upto_row(g, y as int),
            0 <= total,
        decreases rows - y,
    {
        let cols = grid.grid[y].len();
        proof {
            assert(gview(&grid.grid)[y as int] == grid.grid@[y as int]@);
        }
        let mut x: usize = 0;
        while x < cols
            invariant
                x <= cols,
                y < rows,
                rows == g.len(),
                cols == g[y as int].len(),
                g == gview(&grid.grid),
                part_2_ok(g),
                total == mas_upto_row(g, y as int) + mas_in_row(g, y as int, x as int),
                0 <= total,
            decreases cols - x,
        {
            proof {
                lemma_mas_row_mono(g, y as int, x as int + 1, cols as int);
                lemma_mas_rows_bound(g, y as int + 1, rows as int);
            }
            if grid.mas_at(x, y) {
                total += 1;
            }
            x += 1;
        }
        y += 1;
    }
    Some(total)
}

proof fn lemma_mas_row_mono(g: Seq<Seq<char>>, y: int, j: int, n: int)
    requires
        j <= n,
    ensures
        mas_in_row(g, y, j) <= mas_in_row(g, y, n),
    decreases n - j,
{
    if j < n {
        lemma_mas_row_mono(g, y, j, n - 1);
    }
}

proof fn lemma_mas_rows_bound(g: Seq<Seq<char>>, i: int, rows: int)
    requires
        i <= rows,
        rows == g.len(),
    ensures
        mas_upto_row(g, i) <= mas_upto_row(g, rows),
    decreases rows - i,
{
    if i < rows {
        lemma_mas_rows_bound(g, i + 1, rows);
        lemma_mas_row_mono(g, i, 0, g[i].len() as int);
    }
}

proof fn lemma_mas_total_nonneg(g: Seq<Seq<char>>, i: int)
    ensures
        0 <= mas_upto_row(g, i),
    decreases i,
{
    if i > 0 {
        lemma_mas_total_nonneg(g, i - 1);
        lemma_mas_row_mono(g, i - 1, 0, g[i - 1].len() as int);
    }
}

} // verus!
