//! Guard patrol simulation and obstruction search.
//!
//! A rectangular grid holds empty cells (`.`), walls (`#`) and one guard
//! marker (`^`, `v`, `<` or `>`, giving the initial heading).  The guard walks
//! straight ahead; a wall ahead makes it turn right in place; stepping over
//! the edge ends the walk.  The first answer is how many distinct cells the
//! guard visits before leaving; the second is how many empty visited cells
//! would, with one extra wall placed there, trap the guard in a loop.

use vstd::prelude::*;
use crate::parsing;

verus! {

/// A cell coordinate: row, then column, both from zero.
#[derive(Clone, Copy, PartialEq, Eq, Hash, Debug, Structural)]
pub struct Position {
    pub row: usize,
    pub col: usize,
}

impl Position {
    pub fn new(row: usize, col: usize) -> (r: Position)
        ensures
            r == (Position { row, col }),
    {
        Position { row, col }
    }
}

/// One of the four headings the guard can face.
#[derive(Clone, Copy, PartialEq, Eq, Hash, Debug, Structural)]
pub enum Direction {
    Up,
    Down,
    Left,
    Right,
}

/// The quarter turn the guard makes when a wall blocks it.
pub open spec fn spec_turn_right(d: Direction) -> Direction {
    match d {
        Direction::Up => Direction::Right,
        Direction::Right => Direction::Down,
        Direction::Down => Direction::Left,
        Direction::Left => Direction::Up,
    }
}

/// The heading a guard marker character denotes, if it is one.
pub open spec fn spec_dir_of(c: char) -> Option<Direction> {
    if c == '^' {
        Some(Direction::Up)
    } else if c == 'v' {
        Some(Direction::Down)
    } else if c == '<' {
        Some(Direction::Left)
    } else if c == '>' {
        Some(Direction::Right)
    } else {
        None
    }
}

pub open spec fn is_guard_char(c: char) -> bool {
    spec_dir_of(c) is Some
}

impl Direction {
    /// Reads a guard marker character.
    pub fn from_char(c: char) -> (r: Option<Direction>)
        ensures
            r == spec_dir_of(c),
    {
        match c {
            '^' => Some(Direction::Up),
            'v' => Some(Direction::Down),
            '<' => Some(Direction::Left),
            '>' => Some(Direction::Right),
            _ => None,
        }
    }

    pub fn turn_right(&self) -> (r: Direction)
        ensures
            r == spec_turn_right(*self),
    {
        match self {
            Direction::Up => Direction::Right,
            Direction::Right => Direction::Down,
            Direction::Down => Direction::Left,
            Direction::Left => Direction::Up,
        }
    }
}

/// The guard's full state: where it stands and where it faces.
#[derive(Clone, Copy, PartialEq, Eq, Hash, Debug, Structural)]
pub struct Guard {
    pub position: Position,
    pub direction: Direction,
}

impl Guard {
    pub fn new(position: Position, direction: Direction) -> (r: Guard)
        ensures
            r == (Guard { position, direction }),
    {
        Guard { position, direction }
    }
}

/// The mathematical view of a grid: one character sequence per row.
pub open spec fn grid_of(g: &Vec<Vec<char>>) -> Seq<Seq<char>> {
    g@.map_values(|r: Vec<char>| r@)
}

/// A non-empty rectangular grid.
pub open spec fn wf_grid(g: Seq<Seq<char>>) -> bool {
    &&& g.len() > 0
    &&& g[0].len() > 0
    &&& forall|i: int| 0 <= i < g.len() ==> (#[trigger] g[i]).len() == g[0].len()
}

pub open spec fn in_bounds(g: Seq<Seq<char>>, p: Position) -> bool {
    p.row < g.len() && p.col < g[0].len()
}

pub open spec fn cell_at(g: Seq<Seq<char>>, p: Position) -> char {
    g[p.row as int][p.col as int]
}

/// The cell straight ahead of the guard, or `None` when it faces the edge.
pub open spec fn spec_ahead(g: Seq<Seq<char>>, gd: Guard) -> Option<Position> {
    let r = gd.position.row;
    let c = gd.position.col;
    match gd.direction {
        Direction::Up => if r == 0 {
            None
        } else {
            Some(Position { row: (r - 1) as usize, col: c })
        },
        Direction::Down => if r as int == g.len() - 1 {
            None
        } else {
            Some(Position { row: (r + 1) as usize, col: c })
        },
        Direction::Left => if c == 0 {
            None
        } else {
            Some(Position { row: r, col: (c - 1) as usize })
        },
        Direction::Right => if c as int == g[0].len() - 1 {
            None
        } else {
            Some(Position { row: r, col: (c + 1) as usize })
        },
    }
}

/// One move of the guard: `None` when it walks off the grid, a right turn in
/// place when a wall is ahead, a single step forward otherwise.
pub open spec fn spec_step(g: Seq<Seq<char>>, gd: Guard) -> Option<Guard> {
    match spec_ahead(g, gd) {
        None => None,
        Some(p) => if cell_at(g, p) == '#' {
            Some(Guard { position: gd.position, direction: spec_turn_right(gd.direction) })
        } else {
            Some(Guard { position: p, direction: gd.direction })
        },
    }
}

/// The guard's state after `k` moves from `start`, or `None` once it has left.
pub open spec fn states(g: Seq<Seq<char>>, start: Guard, k: nat) -> Option<Guard>
    decreases k,
{
    if k == 0 {
        Some(start)
    } else {
        match states(g, start, (k - 1) as nat) {
            None => None,
            Some(gd) => spec_step(g, gd),
        }
    }
}

/// The walk from `start` eventually leaves the grid.
pub open spec fn exits(g: Seq<Seq<char>>, start: Guard) -> bool {
    exists|k: nat| states(g, start, k) is None
}

/// Every position the walk from `start` ever stands on.
pub open spec fn visited(g: Seq<Seq<char>>, start: Guard) -> Set<Position> {
    Set::new(
        |p: Position|
            exists|k: nat|
                #[trigger] states(g, start, k) is Some && states(g, start, k)->0.position == p,
    )
}

/// The positions reached within the first `k` moves.
pub open spec fn visited_upto(g: Seq<Seq<char>>, start: Guard, k: nat) -> Set<Position> {
    Set::new(
        |p: Position|
            exists|j: nat|
                j <= k && #[trigger] states(g, start, j) is Some && states(g, start, j)->0.position
                    == p,
    )
}

impl Guard {
    /// The character ahead of the guard and its position, or `None` when the
    /// guard faces the edge of the grid.
    pub fn peek(&self, grid: &Vec<Vec<char>>) -> (r: Option<(char, Position)>)
        requires
            wf_grid(grid_of(grid)),
            in_bounds(grid_of(grid), self.position),
        ensures
            r is Some <==> spec_ahead(grid_of(grid), *self) is Some,
            r is Some ==> (r->0).1 == spec_ahead(grid_of(grid), *self)->0 && (r->0).0 == cell_at(
                grid_of(grid),
                (r->0).1,
            ),
    {
        let row = self.position.row;
        let col = self.position.col;
        proof {
            let g = grid_of(grid);
            assert forall|i: int| 0 <= i < grid@.len() implies (#[trigger] grid@[i])@ == g[i] by {
                assert(g[i] == grid@.map_values(|r: Vec<char>| r@)[i]);
            }
        }
        match self.direction {
            Direction::Up => {
                if row == 0 {
                    None
                } else {
                    Some((grid[row - 1][col], Position::new(row - 1, col)))
                }
            },
            Direction::Down => {
                if row == grid.len() - 1 {
                    None
                } else {
                    Some((grid[row + 1][col], Position::new(row + 1, col)))
                }
            },
            Direction::Left => {
                if col == 0 {
                    None
                } else {
                    Some((grid[row][col - 1], Position::new(row, col - 1)))
                }
            },
            Direction::Right => {
                if col == grid[0].len() - 1 {
                    None
                } else {
                    Some((grid[row][col + 1], Position::new(row, col + 1)))
                }
            },
        }
    }

    /// The guard's next state, or `None` when it leaves the grid.
    pub fn next(&self, grid: &Vec<Vec<char>>) -> (r: Option<Guard>)
        requires
            wf_grid(grid_of(grid)),
            in_bounds(grid_of(grid), self.position),
        ensures
            r == spec_step(grid_of(grid), *self),
    {
        let peek = self.peek(grid);
        match peek {
            Some((c, position)) => {
                if c == '#' {
                    let direction = self.direction.turn_right();
                    Some(Guard::new(self.position, direction))
                } else {
                    Some(Guard::new(position, self.direction))
                }
            },
            None => None,
        }
    }
}

/// `g` with one extra wall at `p`.
pub open spec fn place_wall(g: Seq<Seq<char>>, p: Position) -> Seq<Seq<char>> {
    g.update(p.row as int, g[p.row as int].update(p.col as int, '#'))
}

/// No cell strictly before (`r0`, `c0`) in row-major order holds a guard marker.
pub open spec fn no_guard_before(g: Seq<Seq<char>>, r0: int, c0: int) -> bool {
    forall|i: int, j: int|
        0 <= i < g.len() && 0 <= j < g[i].len() && (i < r0 || (i == r0 && j < c0))
            ==> !is_guard_char(#[trigger] g[i][j])
}

/// The board: a grid of characters, one vector per input line.
#[derive(Debug, Clone)]
pub struct World {
    pub grid: Vec<Vec<char>>,
}

impl World {
    /// Builds the grid from the raw puzzle text, one row per line.
    pub fn new(input: &str) -> (w: World)
        ensures
            grid_of(&w.grid) == parsing::spec_lines(input@),
    {
        let cs = parsing::chars_of(input);
        let grid = parsing::split_lines(cs.as_slice());
        let w = World { grid };
        proof {
            assert(grid_of(&w.grid) =~= parsing::spec_lines(input@));
        }
        w
    }

    /// True exactly when the grid is non-empty and rectangular.
    pub fn well_formed(&self) -> (b: bool)
        ensures
            b == wf_grid(grid_of(&self.grid)),
    {
        let ghost g = grid_of(&self.grid);
        let rows = self.grid.len();
        if rows == 0 {
            return false;
        }
        let cols = self.grid[0].len();
        if cols == 0 {
            return false;
        }
        let mut i: usize = 1;
        while i < rows
            invariant
                1 <= i <= rows,
                rows == self.grid@.len(),
                cols == self.grid@[0]@.len(),
                cols > 0,
                forall|k: int| 0 <= k < i ==> (#[trigger] g[k]).len() == g[0].len(),
                g == grid_of(&self.grid),
            decreases rows - i,
        {
            if self.grid[i].len() != cols {
                proof {
                    assert(g[i as int].len() != g[0].len());
                }
                return false;
            }
            i += 1;
        }
        true
    }

    /// Finds the first guard marker in row-major order, with its heading.
    pub fn find_guard(&self) -> (r: Option<Guard>)
        ensures
            ({
                let g = grid_of(&self.grid);
                match r {
                    None => no_guard_before(g, g.len() as int, 0),
                    Some(gd) => {
                        &&& gd.position.row < g.len()
                        &&& gd.position.col < g[gd.position.row as int].len()
                        &&& spec_dir_of(g[gd.position.row as int][gd.position.col as int]) == Some(
                            gd.direction,
                        )
                        &&& no_guard_before(g, gd.position.row as int, gd.position.col as int)
                    },
                }
            }),
    {
        let ghost g = grid_of(&self.grid);
        let rows = self.grid.len();
        let mut row: usize = 0;
        while row < rows
            invariant
                row <= rows,
                rows == self.grid@.len(),
                g == grid_of(&self.grid),
                no_guard_before(g, row as int, 0),
            decreases rows - row,
        {
            let cols = self.grid[row].len();
            let mut col: usize = 0;
            while col < cols
                invariant
                    col <= cols,
                    row < rows,
                    rows == self.grid@.len(),
                    cols == self.grid@[row as int]@.len(),
                    g == grid_of(&self.grid),
                    no_guard_before(g, row as int, col as int),
                decreases cols - col,
            {
                let cellc = self.grid[row][col];
                proof {
                    assert(g[row as int] == self.grid@[row as int]@);
                }
                match Direction::from_char(cellc) {
                    Some(direction) => {
                        let position = Position::new(row, col);
                        return Some(Guard::new(position, direction));
                    },
                    None => {
                        proof {
                            assert forall|i: int, j: int|
                                0 <= i < g.len() && 0 <= j < g[i].len() && (i < row as int || (i
                                    == row as int && j < col as int + 1)) implies !is_guard_char(
                                #[trigger] g[i][j],
                            ) by {
                                if i == row as int && j == col as int {
                                    assert(g[i][j] == cellc);
                                }
                            }
                        }
                    },
                }
                col += 1;
            }
            proof {
                assert forall|i: int, j: int|
                    0 <= i < g.len() && 0 <= j < g[i].len() && (i < row as int + 1) implies !is_guard_char(
                    #[trigger] g[i][j],
                ) by {
                    if i == row as int {
                        assert(j < cols);
                    }
                }
            }
            row += 1;
        }
        None
    }

    /// The same board with one extra wall at `distraction`, or `None` when
    /// that cell is not empty.
    pub fn with_distraction(&self, distraction: Position) -> (r: Option<World>)
        requires
            distraction.row < grid_of(&self.grid).len(),
            distraction.col < grid_of(&self.grid)[distraction.row as int].len(),
        ensures
            ({
                let g = grid_of(&self.grid);
                &&& (r is Some <==> cell_at(g, distraction) == '.')
                &&& (r is Some ==> grid_of(&(r->0).grid) == place_wall(g, distraction))
            }),
    {
        let ghost g = grid_of(&self.grid);
        proof {
            assert(g[distraction.row as int] == self.grid@[distraction.row as int]@);
        }
        if self.grid[distraction.row][distraction.col] != '.' {
            return None;
        }
        let rows = self.grid.len();
        let mut ng: Vec<Vec<char>> = Vec::new();
        let mut i: usize = 0;
        while i < rows
            invariant
                i <= rows,
                rows == self.grid@.len(),
                g == grid_of(&self.grid),
                distraction.row < g.len(),
                distraction.col < g[distraction.row as int].len(),
                ng@.len() == i,
                forall|k: int|
                    0 <= k < i ==> (#[trigger] ng@[k])@ == place_wall(g, distraction)[k],
            decreases rows - i,
        {
            let cols = self.grid[i].len();
            let mut nr: Vec<char> = Vec::new();
            let mut j: usize = 0;
            while j < cols
                invariant
                    j <= cols,
                    i < rows,
                    rows == self.grid@.len(),
                    cols == self.grid@[i as int]@.len(),
                    g == grid_of(&self.grid),
                    distraction.row < g.len(),
                    distraction.col < g[distraction.row as int].len(),
                    nr@.len() == j,
                    forall|m: int|
                        0 <= m < j ==> nr@[m] == (if i as int == distraction.row as int && m
                            == distraction.col as int {
                            '#'
                        } else {
                            g[i as int][m]
                        }),
                decreases cols - j,
            {
                let c = self.grid[i][j];
                proof {
                    assert(g[i as int] == self.grid@[i as int]@);
                }
                if i == distraction.row && j == distraction.col {
                    nr.push('#');
                } else {
                    nr.push(c);
                }
                j += 1;
            }
            proof {
                assert(g[i as int] == self.grid@[i as int]@);
                if i as int == distraction.row as int {
                    assert(nr@ =~= place_wall(g, distraction)[i as int]);
                } else {
                    assert(nr@ =~= g[i as int]);
                    assert(place_wall(g, distraction)[i as int] == g[i as int]);
                }
            }
            ng.push(nr);
            i += 1;
        }
        let w = World { grid: ng };
        proof {
            assert(grid_of(&w.grid) =~= place_wall(g, distraction));
        }
        Some(w)
    }
}

/// How many flags in one row are set.
pub open spec fn count_true(r: Seq<bool>) -> nat
    decreases r.len(),
{
    if r.len() == 0 {
        0
    } else {
        count_true(r.drop_last()) + if r.last() {
            1nat
        } else {
            0nat
        }
    }
}

/// How many flags in the whole grid are set.
pub open spec fn count_grid(g: Seq<Seq<bool>>) -> nat
    decreases g.len(),
{
    if g.len() == 0 {
        0
    } else {
        count_grid(g.drop_last()) + count_true(g.last())
    }
}

pub proof fn lemma_count_true_le(r: Seq<bool>)
    ensures
        count_true(r) <= r.len(),
    decreases r.len(),
{
    if r.len() > 0 {
        lemma_count_true_le(r.drop_last());
    }
}

/// A row with one unset flag has at least one flag short of full.
pub proof fn lemma_count_true_lt(r: Seq<bool>, j: int)
    requires
        0 <= j < r.len(),
        !r[j],
    ensures
        count_true(r) < r.len(),
    decreases r.len(),
{
    if j == r.len() - 1 {
        lemma_count_true_le(r.drop_last());
    } else {
        lemma_count_true_lt(r.drop_last(), j);
    }
}

pub proof fn lemma_count_grid_le(g: Seq<Seq<bool>>, cols: nat)
    requires
        forall|i: int| 0 <= i < g.len() ==> (#[trigger] g[i]).len() == cols,
    ensures
        count_grid(g) <= g.len() * cols,
    decreases g.len(),
{
    if g.len() > 0 {
        lemma_count_grid_le(g.drop_last(), cols);
        lemma_count_true_le(g.last());
        assert((g.len() - 1) * cols + cols == g.len() * cols) by (nonlinear_arith);
    }
}

/// A grid with one unset flag has at least one flag short of full.
pub proof fn lemma_count_grid_lt(g: Seq<Seq<bool>>, cols: nat, i: int, j: int)
    requires
        forall|k: int| 0 <= k < g.len() ==> (#[trigger] g[k]).len() == cols,
        0 <= i < g.len(),
        0 <= j < cols,
        !g[i][j],
    ensures
        count_grid(g) < g.len() * cols,
    decreases g.len(),
{
    if i == g.len() - 1 {
        lemma_count_grid_le(g.drop_last(), cols);
        lemma_count_true_lt(g.last(), j);
        assert((g.len() - 1) * cols + cols == g.len() * cols) by (nonlinear_arith);
    } else {
        lemma_count_grid_lt(g.drop_last(), cols, i, j);
        lemma_count_true_le(g.last());
        assert((g.len() - 1) * cols + cols == g.len() * cols) by (nonlinear_arith);
    }
}

/// Two finite sets with no common element have additive size.
pub proof fn lemma_disjoint_union_len<A>(s1: Set<A>, s2: Set<A>)
    requires
        s1.finite(),
        s2.finite(),
        s1.disjoint(s2),
    ensures
        s1.union(s2).finite(),
        s1.union(s2).len() == s1.len() + s2.len(),
    decreases s2.len(),
{
    if s2.len() == 0 {
        s2.lemma_len0_is_empty();
        assert(s1.union(s2) =~= s1);
    } else {
        let a = s2.choose();
        assert(s2.contains(a));
        let s2r = s2.remove(a);
        lemma_disjoint_union_len(s1, s2r);
        assert(s1.union(s2) =~= s1.union(s2r).insert(a));
    }
}

/// A set of grid positions, one flag per cell, with the number of set flags
/// kept alongside.
pub struct PosSet {
    pub rows: usize,
    pub cols: usize,
    pub cells: Vec<Vec<bool>>,
    pub count: usize,
}

impl PosSet {
    pub open spec fn flags(&self) -> Seq<Seq<bool>> {
        self.cells@.map_values(|r: Vec<bool>| r@)
    }

    pub open spec fn wf(&self) -> bool {
        &&& self.flags().len() == self.rows
        &&& forall|i: int| 0 <= i < self.rows ==> (#[trigger] self.flags()[i]).len() == self.cols
        &&& self.count == count_grid(self.flags())
        &&& self.rows * self.cols <= usize::MAX
    }

    /// The set this structure stands for.
    pub open spec fn set_view(&self) -> Set<Position> {
        Set::new(
            |p: Position|
                p.row < self.rows && p.col < self.cols && self.flags()[p.row as int][p.col as int],
        )
    }

    /// An empty set over a `rows` by `cols` board; `None` when the cell count
    /// does not fit in a machine word.
    pub fn new(rows: usize, cols: usize) -> (r: Option<PosSet>)
        ensures
            r is Some <==> rows * cols <= usize::MAX,
            r is Some ==> {
                let ps = r->0;
                &&& ps.wf()
                &&& ps.rows == rows
                &&& ps.cols == cols
                &&& ps.count == 0
                &&& ps.set_view() == Set::<Position>::empty()
            },
    {
        match rows.checked_mul(cols) {
            None => None,
            Some(_) => {
                let mut cells: Vec<Vec<bool>> = Vec::new();
                let mut i: usize = 0;
                while i < rows
                    invariant
                        i <= rows,
                        cells@.len() == i,
                        forall|k: int|
                            0 <= k < i ==> (#[trigger] cells@[k])@ =~= Seq::new(
                                cols as nat,
                                |m: int| false,
                            ),
                    decreases rows - i,
                {
                    let mut row: Vec<bool> = Vec::new();
                    let mut j: usize = 0;
                    while j < cols
                        invariant
                            j <= cols,
                            row@ =~= Seq::new(j as nat, |m: int| false),
                        decreases cols - j,
                    {
                        row.push(false);
                        j += 1;
                    }
                    cells.push(row);
                    i += 1;
                }
                let ps = PosSet { rows, cols, cells, count: 0 };
                proof {
                    lemma_count_grid_zero(ps.flags());
                    assert(ps.set_view() =~= Set::<Position>::empty());
                }
                Some(ps)
            },
        }
    }

    pub fn contains(&self, p: Position) -> (b: bool)
        requires
            self.wf(),
        ensures
            b == self.set_view().contains(p),
    {
        proof {
            assert forall|i: int| 0 <= i < self.cells@.len() implies (#[trigger] self.cells@[i])@
                == self.flags()[i] by {
                assert(self.flags()[i] == self.cells@.map_values(|r: Vec<bool>| r@)[i]);
            }
        }
        p.row < self.rows && p.col < self.cols && self.cells[p.row][p.col]
    }

    pub fn len(&self) -> (n: usize)
        ensures
            n == self.count,
    {
        self.count
    }

    /// Adds `p` to the set.
    pub fn insert(&mut self, p: Position)
        requires
            old(self).wf(),
            p.row < old(self).rows,
            p.col < old(self).cols,
        ensures
            final(self).wf(),
            final(self).rows == old(self).rows,
            final(self).cols == old(self).cols,
            final(self).set_view() == old(self).set_view().insert(p),
            final(self).count == old(self).count + (if old(self).set_view().contains(p) {
                0int
            } else {
                1int
            }),
    {
        let i = p.row;
        let j = p.col;
        proof {
            assert forall|k: int| 0 <= k < self.cells@.len() implies (#[trigger] self.cells@[k])@
                == self.flags()[k] by {
                assert(self.flags()[k] == self.cells@.map_values(|r: Vec<bool>| r@)[k]);
            }
        }
        if !self.cells[i][j] {
            proof {
                lemma_count_grid_lt(
                    self.flags(),
                    self.cols as nat,
                    i as int,
                    j as int,
                );
                assert(self.rows * self.cols <= usize::MAX);
            }
            let ghost oldflags = self.flags();
            self.cells[i][j] = true;
            self.count += 1;
            proof {
                assert(self.flags() =~= oldflags.update(
                    i as int,
                    oldflags[i as int].update(j as int, true),
                ));
                lemma_count_grid_update(oldflags, i as int, j as int);
                assert(self.set_view() =~= old(self).set_view().insert(p));
            }
        } else {
            proof {
                assert(self.set_view() =~= old(self).set_view().insert(p));
            }
        }
    }
}

pub proof fn lemma_count_grid_zero(g: Seq<Seq<bool>>)
    requires
        forall|i: int| 0 <= i < g.len() ==> (#[trigger] g[i]) =~= Seq::new(g[i].len(), |m: int| false),
    ensures
        count_grid(g) == 0,
    decreases g.len(),
{
    if g.len() > 0 {
        lemma_count_grid_zero(g.drop_last());
        lemma_count_true_zero(g.last());
    }
}

pub proof fn lemma_count_true_zero(r: Seq<bool>)
    requires
        forall|m: int| 0 <= m < r.len() ==> !r[m],
    ensures
        count_true(r) == 0,
    decreases r.len(),
{
    if r.len() > 0 {
        lemma_count_true_zero(r.drop_last());
    }
}

/// Setting one flag raises the grid count by one exactly when it was unset.
pub proof fn lemma_count_true_update(r: Seq<bool>, j: int)
    requires
        0 <= j < r.len(),
    ensures
        count_true(r.update(j, true)) == count_true(r) + (if r[j] {
            0int
        } else {
            1int
        }),
    decreases r.len(),
{
    let r2 = r.update(j, true);
    if j == r.len() - 1 {
        assert(r2.drop_last() =~= r.drop_last());
    } else {
        assert(r2.drop_last() =~= r.drop_last().update(j, true));
        lemma_count_true_update(r.drop_last(), j);
    }
}

pub proof fn lemma_count_grid_update(g: Seq<Seq<bool>>, i: int, j: int)
    requires
        0 <= i < g.len(),
        0 <= j < g[i].len(),
    ensures
        count_grid(g.update(i, g[i].update(j, true))) == count_grid(g) + (if g[i][j] {
            0int
        } else {
            1int
        }),
    decreases g.len(),
{
    let g2 = g.update(i, g[i].update(j, true));
    if i == g.len() - 1 {
        assert(g2.drop_last() =~= g.drop_last());
        lemma_count_true_update(g[i], j);
    } else {
        assert(g2.drop_last() =~= g.drop_last().update(i, g[i].update(j, true)));
        assert(g2.last() =~= g.last());
        lemma_count_grid_update(g.drop_last(), i, j);
    }
}

/// The positions flagged in one row, up to column `j`.
pub open spec fn row_pos_set(r: Seq<bool>, i: int, j: int) -> Set<Position> {
    Set::new(|p: Position| p.row == i && (p.col as int) < j && r[p.col as int])
}

pub proof fn lemma_row_pos_card(r: Seq<bool>, i: int, j: int)
    requires
        0 <= j <= r.len(),
        0 <= i <= usize::MAX,
        r.len() <= usize::MAX,
    ensures
        row_pos_set(r, i, j).finite(),
        row_pos_set(r, i, j).len() == count_true(r.subrange(0, j)),
    decreases j,
{
    if j == 0 {
        assert(row_pos_set(r, i, 0) =~= Set::<Position>::empty());
        assert(r.subrange(0, 0) =~= Seq::<bool>::empty());
    } else {
        lemma_row_pos_card(r, i, j - 1);
        assert(r.subrange(0, j).drop_last() =~= r.subrange(0, j - 1));
        if r[j - 1] {
            let p = Position { row: i as usize, col: (j - 1) as usize };
            assert(row_pos_set(r, i, j) =~= row_pos_set(r, i, j - 1).insert(p));
        } else {
            assert(row_pos_set(r, i, j) =~= row_pos_set(r, i, j - 1));
        }
    }
}

/// The positions flagged in the first `i` rows.
pub open spec fn grid_pos_set(g: Seq<Seq<bool>>, i: int) -> Set<Position> {
    Set::new(|p: Position| (p.row as int) < i && (p.col as int) < g[p.row as int].len() && g[p.row as int][p.col as int])
}

pub proof fn lemma_grid_pos_card(g: Seq<Seq<bool>>, i: int)
    requires
        0 <= i <= g.len(),
        g.len() <= usize::MAX,
        forall|k: int| 0 <= k < g.len() ==> (#[trigger] g[k]).len() <= usize::MAX,
    ensures
        grid_pos_set(g, i).finite(),
        grid_pos_set(g, i).len() == count_grid(g.subrange(0, i)),
    decreases i,
{
    if i == 0 {
        assert(grid_pos_set(g, 0) =~= Set::<Position>::empty());
        assert(g.subrange(0, 0) =~= Seq::<Seq<bool>>::empty());
    } else {
        lemma_grid_pos_card(g, i - 1);
        assert(g.subrange(0, i).drop_last() =~= g.subrange(0, i - 1));
        let row = g[i - 1];
        lemma_row_pos_card(row, i - 1, row.len() as int);
        assert(row.subrange(0, row.len() as int) =~= row);
        lemma_disjoint_union_len(
            grid_pos_set(g, i - 1),
            row_pos_set(row, i - 1, row.len() as int),
        );
        assert(grid_pos_set(g, i) =~= grid_pos_set(g, i - 1).union(
            row_pos_set(row, i - 1, row.len() as int),
        ));
    }
}

/// Once the guard has left the grid, it stays gone.
pub proof fn lemma_states_none_after(g: Seq<Seq<char>>, start: Guard, i: nat, j: nat)
    requires
        states(g, start, i) is None,
        i <= j,
    ensures
        states(g, start, j) is None,
    decreases j - i,
{
    if i < j {
        lemma_states_none_after(g, start, i, (j - 1) as nat);
    }
}

/// On a well-formed grid a walk that starts in bounds stays in bounds.
pub proof fn lemma_states_in_bounds(g: Seq<Seq<char>>, start: Guard, k: nat)
    requires
        wf_grid(g),
        in_bounds(g, start.position),
        states(g, start, k) is Some,
    ensures
        in_bounds(g, states(g, start, k)->0.position),
    decreases k,
{
    if k > 0 {
        lemma_states_in_bounds(g, start, (k - 1) as nat);
    }
}

/// Equal states evolve equally ever after.
pub proof fn lemma_states_shift(g: Seq<Seq<char>>, start: Guard, a: nat, b: nat, m: nat)
    requires
        states(g, start, a) == states(g, start, b),
    ensures
        states(g, start, (a + m) as nat) == states(g, start, (b + m) as nat),
    decreases m,
{
    if m > 0 {
        lemma_states_shift(g, start, a, b, (m - 1) as nat);
    }
}

/// A repeated state means the guard never leaves the grid.
pub proof fn lemma_repeat_no_exit(g: Seq<Seq<char>>, start: Guard, j: nat, p: nat)
    requires
        p >= 1,
        states(g, start, (j + p) as nat) == states(g, start, j),
        states(g, start, (j + p) as nat) is Some,
    ensures
        !exits(g, start),
{
    assert forall|m: nat| !(states(g, start, m) is None) by {
        lemma_repeat_some(g, start, j, p, m);
    }
}

proof fn lemma_repeat_some(g: Seq<Seq<char>>, start: Guard, j: nat, p: nat, m: nat)
    requires
        p >= 1,
        states(g, start, (j + p) as nat) == states(g, start, j),
        states(g, start, (j + p) as nat) is Some,
    ensures
        states(g, start, m) is Some,
    decreases m,
{
    if m <= j + p {
        if states(g, start, m) is None {
            lemma_states_none_after(g, start, m, (j + p) as nat);
        }
    } else {
        lemma_repeat_some(g, start, j, p, (m - p) as nat);
        lemma_states_shift(g, start, j, (j + p) as nat, (m - j - p) as nat);
    }
}

/// At the very start only the starting position has been visited.
pub proof fn lemma_visited_upto_zero(g: Seq<Seq<char>>, start: Guard)
    ensures
        visited_upto(g, start, 0) == Set::<Position>::empty().insert(start.position),
{
    assert forall|p: Position| visited_upto(g, start, 0).contains(p) implies p
        == start.position by {
        let j = choose|j: nat|
            j <= 0 && #[trigger] states(g, start, j) is Some && states(g, start, j)->0.position
                == p;
        assert(states(g, start, j) == Some(start));
    }
    assert(states(g, start, 0) == Some(start));
    assert(visited_upto(g, start, 0) =~= Set::<Position>::empty().insert(start.position));
}

/// One more move adds exactly the new position to the visited set.
pub proof fn lemma_visited_upto_step(g: Seq<Seq<char>>, start: Guard, k: nat)
    requires
        states(g, start, (k + 1) as nat) is Some,
    ensures
        visited_upto(g, start, (k + 1) as nat) == visited_upto(g, start, k).insert(
            states(g, start, (k + 1) as nat)->0.position,
        ),
{
    let q = states(g, start, (k + 1) as nat)->0.position;
    assert forall|p: Position| visited_upto(g, start, (k + 1) as nat).contains(p) implies visited_upto(
        g,
        start,
        k,
    ).insert(q).contains(p) by {
        let j = choose|j: nat|
            j <= k + 1 && #[trigger] states(g, start, j) is Some && states(g, start, j)->0.position
                == p;
        if j <= k {
            assert(visited_upto(g, start, k).contains(p));
        } else {
            assert(p == q);
        }
    }
    assert forall|p: Position| visited_upto(g, start, k).insert(q).contains(p) implies visited_upto(
        g,
        start,
        (k + 1) as nat,
    ).contains(p) by {
        if visited_upto(g, start, k).contains(p) {
            let j = choose|j: nat|
                j <= k && #[trigger] states(g, start, j) is Some && states(
                    g,
                    start,
                    j,
                )->0.position == p;
            assert(j <= k + 1 && states(g, start, j) is Some && states(g, start, j)->0.position
                == p);
        } else {
            assert(p == q);
            assert((k + 1) as nat <= k + 1 && states(g, start, (k + 1) as nat) is Some && states(
                g,
                start,
                (k + 1) as nat,
            )->0.position == p);
        }
    }
    assert(visited_upto(g, start, (k + 1) as nat) =~= visited_upto(g, start, k).insert(q));
}

/// When the guard leaves right after move `k`, the first `k` moves saw it all.
pub proof fn lemma_visited_complete(g: Seq<Seq<char>>, start: Guard, k: nat)
    requires
        states(g, start, (k + 1) as nat) is None,
    ensures
        visited(g, start) == visited_upto(g, start, k),
{
    assert forall|p: Position| visited(g, start).contains(p) implies visited_upto(
        g,
        start,
        k,
    ).contains(p) by {
        let j = choose|j: nat|
            #[trigger] states(g, start, j) is Some && states(g, start, j)->0.position == p;
        if j > k {
            lemma_states_none_after(g, start, (k + 1) as nat, j);
        }
        assert(j <= k && states(g, start, j) is Some && states(g, start, j)->0.position == p);
    }
    assert forall|p: Position| visited_upto(g, start, k).contains(p) implies visited(
        g,
        start,
    ).contains(p) by {
        let j = choose|j: nat|
            j <= k && #[trigger] states(g, start, j) is Some && states(g, start, j)->0.position
                == p;
        assert(states(g, start, j) is Some && states(g, start, j)->0.position == p);
    }
    assert(visited(g, start) =~= visited_upto(g, start, k));
}

/// The stored count is the size of the set a well-formed `PosSet` stands for.
pub proof fn lemma_pos_set_card(ps: &PosSet)
    requires
        ps.wf(),
    ensures
        ps.set_view().finite(),
        ps.set_view().len() == ps.count,
{
    lemma_grid_pos_card(ps.flags(), ps.rows as int);
    assert(ps.flags().subrange(0, ps.rows as int) =~= ps.flags());
    assert(ps.set_view() =~= grid_pos_set(ps.flags(), ps.rows as int));
}

/// Walks the guard from `*guard` until it steps off the grid and collects
/// every position it stands on.  The walk must be known to leave the grid.
pub fn run(world: &World, guard: &Guard) -> (r: PosSet)
    requires
        wf_grid(grid_of(&world.grid)),
        in_bounds(grid_of(&world.grid), guard.position),
        grid_of(&world.grid).len() * grid_of(&world.grid)[0].len() <= usize::MAX,
        exits(grid_of(&world.grid), *guard),
    ensures
        r.wf(),
        r.rows == grid_of(&world.grid).len(),
        r.cols == grid_of(&world.grid)[0].len(),
        r.set_view() == visited(grid_of(&world.grid), *guard),
{
    let ghost g = grid_of(&world.grid);
    let rows = world.grid.len();
    let cols = world.grid[0].len();
    proof {
        assert(grid_of(&world.grid)[0] == world.grid@[0]@);
    }
    let mut path: PosSet = match PosSet::new(rows, cols) {
        Some(ps) => ps,
        None => {
            proof {
                assert(false);
            }
            vstd::pervasive::unreached()
        },
    };
    let mut gd: Guard = *guard;
    let ghost mut k: nat = 0;
    path.insert(gd.position);
    proof {
        lemma_visited_upto_zero(g, *guard);
        assert(path.set_view() == visited_upto(g, *guard, 0));
    }
    let ghost n = choose|n: nat| states(g, *guard, n) is None;
    proof {
        if n <= k {
            lemma_states_none_after(g, *guard, n, k);
        }
    }
    loop
        invariant
            path.wf(),
            path.rows == rows,
            path.cols == cols,
            rows == g.len(),
            cols == g[0].len(),
            wf_grid(g),
            g == grid_of(&world.grid),
            states(g, *guard, k) == Some(gd),
            in_bounds(g, gd.position),
            path.set_view() == visited_upto(g, *guard, k),
            states(g, *guard, n) is None,
            k < n,
        ensures
            path.wf(),
            path.rows == rows,
            path.cols == cols,
            path.set_view() == visited(g, *guard),
        decreases n - k,
    {
        match gd.next(&world.grid) {
            Some(g2) => {
                proof {
                    assert(states(g, *guard, (k + 1) as nat) == Some(g2));
                    lemma_visited_upto_step(g, *guard, k);
                }
                gd = g2;
                path.insert(gd.position);
                proof {
                    k = (k + 1) as nat;
                    if n <= k {
                        lemma_states_none_after(g, *guard, n, k);
                        assert(false);
                    }
                }
            },
            None => {
                proof {
                    assert(states(g, *guard, (k + 1) as nat) is None);
                    lemma_visited_complete(g, *guard, k);
                }
                break ;
            },
        }
    }
    path
}

/// A set of guard states: one position set per heading.
pub struct GuardSet {
    pub up: PosSet,
    pub down: PosSet,
    pub left: PosSet,
    pub right: PosSet,
}

impl GuardSet {
    pub open spec fn wf(&self, rows: int, cols: int) -> bool {
        &&& self.up.wf() && self.up.rows == rows && self.up.cols == cols
        &&& self.down.wf() && self.down.rows == rows && self.down.cols == cols
        &&& self.left.wf() && self.left.rows == rows && self.left.cols == cols
        &&& self.right.wf() && self.right.rows == rows && self.right.cols == cols
    }

    pub open spec fn part(&self, d: Direction) -> PosSet {
        match d {
            Direction::Up => self.up,
            Direction::Down => self.down,
            Direction::Left => self.left,
            Direction::Right => self.right,
        }
    }

    /// The set of guard states this structure stands for.
    pub open spec fn set_view(&self) -> Set<Guard> {
        Set::new(|gd: Guard| self.part(gd.direction).set_view().contains(gd.position))
    }

    /// The total number of stored states.
    pub open spec fn total(&self) -> int {
        self.up.count + self.down.count + self.left.count + self.right.count
    }

    pub fn new(rows: usize, cols: usize) -> (r: Option<GuardSet>)
        ensures
            r is Some <==> rows * cols <= usize::MAX,
            r is Some ==> {
                let s = r->0;
                &&& s.wf(rows as int, cols as int)
                &&& s.total() == 0
                &&& s.set_view() == Set::<Guard>::empty()
            },
    {
        let up = PosSet::new(rows, cols);
        let down = PosSet::new(rows, cols);
        let left = PosSet::new(rows, cols);
        let right = PosSet::new(rows, cols);
        match (up, down, left, right) {
            (Some(up), Some(down), Some(left), Some(right)) => {
                let s = GuardSet { up, down, left, right };
                proof {
                    assert(s.set_view() =~= Set::<Guard>::empty());
                }
                Some(s)
            },
            _ => None,
        }
    }

    pub fn contains(&self, gd: &Guard) -> (b: bool)
        requires
            self.up.wf(),
            self.down.wf(),
            self.left.wf(),
            self.right.wf(),
        ensures
            b == self.set_view().contains(*gd),
    {
        match gd.direction {
            Direction::Up => self.up.contains(gd.position),
            Direction::Down => self.down.contains(gd.position),
            Direction::Left => self.left.contains(gd.position),
            Direction::Right => self.right.contains(gd.position),
        }
    }

    /// Adds a state that is not yet present.
    pub fn insert(&mut self, gd: &Guard, Ghost(rows): Ghost<int>, Ghost(cols): Ghost<int>)
        requires
            old(self).wf(rows, cols),
            gd.position.row < rows,
            gd.position.col < cols,
            !old(self).set_view().contains(*gd),
        ensures
            final(self).wf(rows, cols),
            final(self).set_view() == old(self).set_view().insert(*gd),
            final(self).total() == old(self).total() + 1,
    {
        match gd.direction {
            Direction::Up => self.up.insert(gd.position),
            Direction::Down => self.down.insert(gd.position),
            Direction::Left => self.left.insert(gd.position),
            Direction::Right => self.right.insert(gd.position),
        }
        proof {
            assert(final(self).set_view() =~= old(self).set_view().insert(*gd));
        }
    }
}

/// Reports whether the guard walks forever: it wraps the step function with a
/// set of seen states and flags a loop as soon as a state repeats.  The state
/// space holds at most four states per cell, so the seen count bounds the
/// search and the detector always terminates.
pub fn loops(world: &World, guard: &Guard) -> (r: bool)
    requires
        wf_grid(grid_of(&world.grid)),
        in_bounds(grid_of(&world.grid), guard.position),
        grid_of(&world.grid).len() * grid_of(&world.grid)[0].len() <= usize::MAX,
    ensures
        r <==> !exits(grid_of(&world.grid), *guard),
{
    let ghost g = grid_of(&world.grid);
    let rows = world.grid.len();
    let cols = world.grid[0].len();
    proof {
        assert(grid_of(&world.grid)[0] == world.grid@[0]@);
    }
    let mut seen: GuardSet = match GuardSet::new(rows, cols) {
        Some(s) => s,
        None => {
            proof {
                assert(false);
            }
            vstd::pervasive::unreached()
        },
    };
    let mut gd: Guard = *guard;
    let ghost mut k: nat = 0;
    seen.insert(&gd, Ghost(rows as int), Ghost(cols as int));
    proof {
        assert(states(g, *guard, 0) == Some(gd));
        assert forall|s: Guard| seen.set_view().contains(s) implies exists|j: nat|
            j <= k && #[trigger] states(g, *guard, j) == Some(s) by {
            assert(states(g, *guard, 0) == Some(s));
        }
    }
    proof {
        assert forall|s: Guard|
            (exists|j: nat| j <= k && #[trigger] states(g, *guard, j) == Some(s)) implies seen.set_view().contains(
            s,
        ) by {
            let j = choose|j: nat| j <= k && #[trigger] states(g, *guard, j) == Some(s);
            assert(s == gd);
        }
        let rc = (rows as int) * (cols as int);
        assert(rc >= 1) by (nonlinear_arith)
            requires
                rows >= 1,
                cols >= 1,
                rc == (rows as int) * (cols as int),
        ;
        assert(4 * (rows as int) * (cols as int) == 4 * rc) by (nonlinear_arith)
            requires
                rc == (rows as int) * (cols as int),
        ;
    }
    loop
        invariant
            seen.wf(rows as int, cols as int),
            rows == g.len(),
            cols == g[0].len(),
            wf_grid(g),
            g == grid_of(&world.grid),
            in_bounds(g, guard.position),
            states(g, *guard, k) == Some(gd),
            in_bounds(g, gd.position),
            seen.total() == k + 1,
            k + 1 <= 4 * (rows as int) * (cols as int),
            forall|s: Guard|
                seen.set_view().contains(s) <==> exists|j: nat|
                    j <= k && #[trigger] states(g, *guard, j) == Some(s),
        decreases 4 * (rows as int) * (cols as int) - k,
    {
        match gd.next(&world.grid) {
            None => {
                proof {
                    assert(states(g, *guard, (k + 1) as nat) is None);
                    assert(exits(g, *guard));
                }
                return false;
            },
            Some(s2) => {
                proof {
                    assert(states(g, *guard, (k + 1) as nat) == Some(s2));
                }
                if seen.contains(&s2) {
                    proof {
                        let j = choose|j: nat|
                            j <= k && #[trigger] states(g, *guard, j) == Some(s2);
                        lemma_repeat_no_exit(g, *guard, j, (k + 1 - j) as nat);
                    }
                    return true;
                }
                proof {
                    lemma_states_in_bounds(g, *guard, (k + 1) as nat);
                }
                seen.insert(&s2, Ghost(rows as int), Ghost(cols as int));
                gd = s2;
                proof {
                    k = (k + 1) as nat;
                    assert forall|s: Guard| seen.set_view().contains(s) implies exists|j: nat|
                        j <= k && #[trigger] states(g, *guard, j) == Some(s) by {
                        if s == s2 {
                            assert(states(g, *guard, k) == Some(s));
                        } else {
                            let j = choose|j: nat|
                                j <= k - 1 && #[trigger] states(g, *guard, j) == Some(s);
                            assert(j <= k && states(g, *guard, j) == Some(s));
                        }
                    }
                    assert forall|s: Guard|
                        (exists|j: nat|
                            j <= k && #[trigger] states(g, *guard, j) == Some(
                                s,
                            )) implies seen.set_view().contains(s) by {
                        let j = choose|j: nat| j <= k && #[trigger] states(g, *guard, j) == Some(s);
                        if j == k {
                            assert(s == s2);
                        }
                    }
                    let rc = (rows as int) * (cols as int);
                    lemma_count_grid_le(seen.up.flags(), cols as nat);
                    lemma_count_grid_le(seen.down.flags(), cols as nat);
                    lemma_count_grid_le(seen.left.flags(), cols as nat);
                    lemma_count_grid_le(seen.right.flags(), cols as nat);
                    assert(seen.up.count <= rc);
                    assert(seen.down.count <= rc);
                    assert(seen.left.count <= rc);
                    assert(seen.right.count <= rc);
                    assert(4 * (rows as int) * (cols as int) == 4 * rc) by (nonlinear_arith)
                        requires
                            rc == (rows as int) * (cols as int),
                    ;
                }
            },
        }
    }
}

/// `gd` is the first guard marker of the grid in row-major order.
pub open spec fn spec_guard_at(g: Seq<Seq<char>>, gd: Guard) -> bool {
    &&& gd.position.row < g.len()
    &&& gd.position.col < g[gd.position.row as int].len()
    &&& spec_dir_of(g[gd.position.row as int][gd.position.col as int]) == Some(gd.direction)
    &&& no_guard_before(g, gd.position.row as int, gd.position.col as int)
}

pub open spec fn has_guard(g: Seq<Seq<char>>) -> bool {
    exists|gd: Guard| spec_guard_at(g, gd)
}

/// The grid's starting guard state.
pub open spec fn spec_start(g: Seq<Seq<char>>) -> Guard {
    choose|gd: Guard| spec_guard_at(g, gd)
}

/// Only one guard state fits the description "first marker in row-major order".
pub proof fn lemma_guard_unique(g: Seq<Seq<char>>, g1: Guard, g2: Guard)
    requires
        spec_guard_at(g, g1),
        spec_guard_at(g, g2),
    ensures
        g1 == g2,
{
    let r1 = g1.position.row as int;
    let c1 = g1.position.col as int;
    let r2 = g2.position.row as int;
    let c2 = g2.position.col as int;
    if r1 < r2 || (r1 == r2 && c1 < c2) {
        assert(!is_guard_char(g[r1][c1]));
    } else if r2 < r1 || (r1 == r2 && c2 < c1) {
        assert(!is_guard_char(g[r2][c2]));
    }
}

/// The inputs on which the solvers give an answer: a rectangular grid with a
/// guard marker whose cell count fits a machine word, and a walk that leaves
/// the grid.
pub open spec fn valid_patrol(g: Seq<Seq<char>>) -> bool {
    &&& wf_grid(g)
    &&& has_guard(g)
    &&& g.len() * g[0].len() <= usize::MAX
    &&& exits(g, spec_start(g))
}

/// A wall at `p` would trap the guard: the cell is an empty one on the
/// original path, and the walk with the wall added never leaves the grid.
pub open spec fn is_obstruction(g: Seq<Seq<char>>, start: Guard, p: Position) -> bool {
    &&& visited(g, start).contains(p)
    &&& cell_at(g, p) == '.'
    &&& !exits(place_wall(g, p), start)
}

/// Counts the loop-inducing wall placements in row `i` among its first `j`
/// cells.
pub open spec fn obst_in_row(g: Seq<Seq<char>>, start: Guard, i: int, j: int) -> nat
    decreases j,
{
    if j <= 0 {
        0
    } else {
        obst_in_row(g, start, i, j - 1) + if i <= usize::MAX && j - 1 <= usize::MAX
            && is_obstruction(g, start, Position { row: i as usize, col: (j - 1) as usize }) {
            1nat
        } else {
            0nat
        }
    }
}

pub open spec fn obst_upto_row(g: Seq<Seq<char>>, start: Guard, i: int) -> nat
    decreases i,
{
    if i <= 0 {
        0
    } else {
        obst_upto_row(g, start, i - 1) + obst_in_row(g, start, i - 1, g[0].len() as int)
    }
}

/// How many cells would, walled off, trap the guard in a loop.
pub open spec fn obstruction_count(g: Seq<Seq<char>>, start: Guard) -> nat {
    obst_upto_row(g, start, g.len() as int)
}

/// The number of distinct cells the guard visits before leaving the grid, or
/// `None` when the input is rejected: not a rectangular grid with one guard
/// marker reachable by this machine, or a walk that never leaves.
pub fn part_1(input: &str) -> (r: Option<i32>)
    ensures
        ({
            let g = parsing::spec_lines(input@);
            &&& (r is Some <==> valid_patrol(g))
            &&& (r is Some ==> r == Some(visited(g, spec_start(g)).len() as i32))
        }),
{
    let ghost g = parsing::spec_lines(input@);
    let world = World::new(input);
    if !world.well_formed() {
        return None;
    }
    let rows = world.grid.len();
    let cols = world.grid[0].len();
    proof {
        assert(grid_of(&world.grid)[0] == world.grid@[0]@);
    }
    if rows.checked_mul(cols).is_none() {
        return None;
    }
    match world.find_guard() {
        None => {
            proof {
                assert forall|gd: Guard| !spec_guard_at(g, gd) by {
                    if spec_guard_at(g, gd) {
                        assert(is_guard_char(
                            g[gd.position.row as int][gd.position.col as int],
                        ));
                    }
                }
            }
            None
        },
        Some(guard) => {
            proof {
                assert(spec_guard_at(g, guard));
                if spec_start(g) != guard {
                    lemma_guard_unique(g, spec_start(g), guard);
                }
            }
            if loops(&world, &guard) {
                return None;
            }
            let path = run(&world, &guard);
            proof {
                lemma_pos_set_card(&path);
            }
            Some(#[verifier::truncate] (path.len() as i32))
        },
    }
}

/// How many single-wall placements trap the guard, or `None` on the same
/// inputs `part_1` rejects.  Only cells on the unobstructed path are tried:
/// a wall the guard never reaches cannot change its walk.
pub fn part_2(input: &str) -> (r: Option<i32>)
    ensures
        ({
            let g = parsing::spec_lines(input@);
            &&& (r is Some <==> valid_patrol(g))
            &&& (r is Some ==> r == Some(obstruction_count(g, spec_start(g)) as i32))
        }),
{
    let ghost g = parsing::spec_lines(input@);
    let world = World::new(input);
    if !world.well_formed() {
        return None;
    }
    let rows = world.grid.len();
    let cols = world.grid[0].len();
    proof {
        assert(grid_of(&world.grid)[0] == world.grid@[0]@);
    }
    if rows.checked_mul(cols).is_none() {
        return None;
    }
    match world.find_guard() {
        None => {
            proof {
                assert forall|gd: Guard| !spec_guard_at(g, gd) by {
                    if spec_guard_at(g, gd) {
                        assert(is_guard_char(
                            g[gd.position.row as int][gd.position.col as int],
                        ));
                    }
                }
            }
            None
        },
        Some(guard) => {
            proof {
                assert(spec_guard_at(g, guard));
                if spec_start(g) != guard {
                    lemma_guard_unique(g, spec_start(g), guard);
                }
            }
            if loops(&world, &guard) {
                return None;
            }
            let path = run(&world, &guard);
            let mut guard_loops: usize = 0;
            let mut i: usize = 0;
            while i < rows
                invariant
                    i <= rows,
                    rows == g.len(),
                    cols == g[0].len(),
                    wf_grid(g),
                    g == grid_of(&world.grid),
                    valid_patrol(g),
                    spec_start(g) == guard,
                    in_bounds(g, guard.position),
                    path.wf(),
                    path.rows == rows,
                    path.cols == cols,
                    path.set_view() == visited(g, guard),
                    guard_loops == obst_upto_row(g, guard, i as int),
                    guard_loops + count_grid(path.flags())
                        - count_grid(path.flags().subrange(0, i as int)) <= path.count,
                decreases rows - i,
            {
                let mut j: usize = 0;
                proof {
                    assert(path.flags()[i as int].subrange(0, 0) =~= Seq::<bool>::empty());
                }
                while j < cols
                    invariant
                        j <= cols,
                        i < rows,
                        rows == g.len(),
                        cols == g[0].len(),
                        wf_grid(g),
                        g == grid_of(&world.grid),
                        valid_patrol(g),
                        spec_start(g) == guard,
                        in_bounds(g, guard.position),
                        path.wf(),
                        path.rows == rows,
                        path.cols == cols,
                        path.set_view() == visited(g, guard),
                        guard_loops == obst_upto_row(g, guard, i as int) + obst_in_row(
                            g,
                            guard,
                            i as int,
                            j as int,
                        ),
                        guard_loops + count_grid(path.flags()) - count_grid(
                            path.flags().subrange(0, i as int),
                        ) - count_true(path.flags()[i as int].subrange(0, j as int))
                            <= path.count,
                    decreases cols - j,
                {
                    let p = Position::new(i, j);
                    let ghost row_flags = path.flags()[i as int];
                    proof {
                        assert(row_flags.subrange(0, j as int + 1).drop_last() =~= row_flags
                            .subrange(0, j as int));
                    }
                    let hit = path.contains(p);
                    if hit {
                        match world.with_distraction(p) {
                            Some(w2) => {
                                proof {
                                    let g2 = place_wall(g, p);
                                    assert(grid_of(&w2.grid) == g2);
                                    assert(g2.len() == g.len());
                                    assert(g2[0].len() == g[0].len());
                                    assert(wf_grid(g2)) by {
                                        assert forall|t: int| 0 <= t < g2.len() implies (
                                        #[trigger] g2[t]).len() == g2[0].len() by {
                                            assert(g2[t].len() == g[t].len());
                                        }
                                    }
                                }
                                if loops(&w2, &guard) {
                                    proof {
                                        assert(is_obstruction(g, guard, p));
                                        lemma_prefix_count_bound(
                                            path.flags(),
                                            i as int,
                                            j as int,
                                        );
                                    }
                                    guard_loops += 1;
                                } else {
                                    proof {
                                        assert(!is_obstruction(g, guard, p));
                                    }
                                }
                            },
                            None => {
                                proof {
                                    assert(cell_at(g, p) != '.');
                                    assert(!is_obstruction(g, guard, p));
                                }
                            },
                        }
                    } else {
                        proof {
                            assert(!visited(g, guard).contains(p));
                            assert(!is_obstruction(g, guard, p));
                        }
                    }
                    j += 1;
                }
                proof {
                    assert(path.flags()[i as int].subrange(0, cols as int) =~= path.flags()[
                        i as int]);
                    assert(path.flags().subrange(0, i as int + 1).drop_last() =~= path.flags()
                        .subrange(0, i as int));
                }
                i += 1;
            }
            proof {
                assert(path.flags().subrange(0, rows as int) =~= path.flags());
            }
            Some(#[verifier::truncate] (guard_loops as i32))
        },
    }
}

/// A flagged cell at (`i`, `j`) accounts for one more set flag than the scan
/// has passed, so the running tally stays below the stored count.
proof fn lemma_prefix_count_bound(flags: Seq<Seq<bool>>, i: int, j: int)
    requires
        0 <= i < flags.len(),
        0 <= j < flags[i].len(),
        flags[i][j],
    ensures
        count_grid(flags.subrange(0, i)) + count_true(flags[i].subrange(0, j)) + 1 <= count_grid(
            flags,
        ),
{
    lemma_count_true_prefix_le(flags[i], j + 1);
    assert(flags[i].subrange(0, j + 1).drop_last() =~= flags[i].subrange(0, j));
    assert(flags[i].subrange(0, j + 1).last() == flags[i][j]);
    lemma_count_grid_prefix_le(flags, i + 1);
    assert(flags.subrange(0, i + 1).drop_last() =~= flags.subrange(0, i));
    assert(flags.subrange(0, i + 1).last() == flags[i]);
}

/// A prefix of a row never holds more set flags than the whole row.
pub proof fn lemma_count_true_prefix_le(r: Seq<bool>, j: int)
    requires
        0 <= j <= r.len(),
    ensures
        count_true(r.subrange(0, j)) <= count_true(r),
    decreases r.len(),
{
    if j == r.len() {
        assert(r.subrange(0, j) =~= r);
    } else {
        assert(r.drop_last().subrange(0, j) =~= r.subrange(0, j));
        lemma_count_true_prefix_le(r.drop_last(), j);
    }
}

/// A prefix of the grid never holds more set flags than the whole grid.
pub proof fn lemma_count_grid_prefix_le(g: Seq<Seq<bool>>, i: int)
    requires
        0 <= i <= g.len(),
    ensures
        count_grid(g.subrange(0, i)) <= count_grid(g),
    decreases g.len(),
{
    if i == g.len() {
        assert(g.subrange(0, i) =~= g);
    } else {
        assert(g.drop_last().subrange(0, i) =~= g.subrange(0, i));
        lemma_count_grid_prefix_le(g.drop_last(), i);
    }
}

/// The set of positions reached in `k` moves is finite, with at most `k + 1`
/// members.
pub proof fn lemma_visited_upto_finite(g: Seq<Seq<char>>, start: Guard, k: nat)
    ensures
        visited_upto(g, start, k).finite(),
        visited_upto(g, start, k).len() <= k + 1,
    decreases k,
{
    if k == 0 {
        lemma_visited_upto_zero(g, start);
    } else {
        lemma_visited_upto_finite(g, start, (k - 1) as nat);
        if states(g, start, k) is Some {
            lemma_visited_upto_step(g, start, (k - 1) as nat);
        } else {
            assert forall|p: Position| visited_upto(g, start, k).contains(p) implies visited_upto(
                g,
                start,
                (k - 1) as nat,
            ).contains(p) by {
                let j = choose|j: nat|
                    j <= k && #[trigger] states(g, start, j) is Some && states(
                        g,
                        start,
                        j,
                    )->0.position == p;
                assert(j <= k - 1 && states(g, start, j) is Some && states(g, start, j)->0.position
                    == p);
            }
            assert(visited_upto(g, start, k) =~= visited_upto(g, start, (k - 1) as nat));
        }
    }
}

/// As the simulation progresses the visited set only grows: every position
/// reached within `m` moves is still reached within `n >= m` moves, and the
/// set size is non-decreasing.
pub proof fn lemma_visited_monotone(g: Seq<Seq<char>>, start: Guard, m: nat, n: nat)
    requires
        m <= n,
    ensures
        visited_upto(g, start, m) <= visited_upto(g, start, n),
        visited_upto(g, start, m).len() <= visited_upto(g, start, n).len(),
{
    assert forall|p: Position| visited_upto(g, start, m).contains(p) implies visited_upto(
        g,
        start,
        n,
    ).contains(p) by {
        let j = choose|j: nat|
            j <= m && #[trigger] states(g, start, j) is Some && states(g, start, j)->0.position
                == p;
        assert(j <= n && states(g, start, j) is Some && states(g, start, j)->0.position == p);
    }
    lemma_visited_upto_finite(g, start, m);
    lemma_visited_upto_finite(g, start, n);
    vstd::set_lib::lemma_len_subset(visited_upto(g, start, m), visited_upto(g, start, n));
}

/// The step function is deterministic: its outcome is fixed by the grid and
/// the guard state alone, so two step results over equal inputs agree.
pub proof fn lemma_step_deterministic(
    g: Seq<Seq<char>>,
    gd: Guard,
    r1: Option<Guard>,
    r2: Option<Guard>,
)
    requires
        r1 == spec_step(g, gd),
        r2 == spec_step(g, gd),
    ensures
        r1 == r2,
{
}

/// The simulator is idempotent: its visited set is fixed by the grid and the
/// start state alone, so two runs over the same inputs give one and the same
/// set.
pub proof fn lemma_simulate_deterministic(
    g: Seq<Seq<char>>,
    start: Guard,
    r1: Set<Position>,
    r2: Set<Position>,
)
    requires
        r1 == visited(g, start),
        r2 == visited(g, start),
    ensures
        r1 == r2,
{
}

/// A guard standing at the edge and facing outward leaves in a single step,
/// and its visited set holds exactly its starting position.
pub proof fn lemma_boundary_exit(g: Seq<Seq<char>>, start: Guard)
    requires
        spec_ahead(g, start) is None,
    ensures
        exits(g, start),
        states(g, start, 1) is None,
        visited(g, start) == Set::<Position>::empty().insert(start.position),
        visited(g, start).len() == 1,
{
    assert(states(g, start, 0) == Some(start));
    assert(states(g, start, 1) is None);
    lemma_visited_complete(g, start, 0);
    lemma_visited_upto_zero(g, start);
    assert(Set::<Position>::empty().insert(start.position).len() == 1);
}

/// Restriction soundness: a wall added on a cell the guard never visits does
/// not change the walk at all, so only cells on the original path can be
/// loop-inducing obstructions.
pub proof fn lemma_wall_off_path(g: Seq<Seq<char>>, start: Guard, w: Position, k: nat)
    requires
        wf_grid(g),
        in_bounds(g, start.position),
        in_bounds(g, w),
        !visited(g, start).contains(w),
    ensures
        states(place_wall(g, w), start, k) == states(g, start, k),
    decreases k,
{
    let g2 = place_wall(g, w);
    assert(g2.len() == g.len());
    assert(g2[0].len() == g[0].len()) by {
        assert(g2[0].len() == g[0].len());
    }
    if k > 0 {
        lemma_wall_off_path(g, start, w, (k - 1) as nat);
        match states(g, start, (k - 1) as nat) {
            None => {},
            Some(gd) => {
                lemma_states_in_bounds(g, start, (k - 1) as nat);
                assert(spec_ahead(g2, gd) == spec_ahead(g, gd));
                match spec_ahead(g, gd) {
                    None => {},
                    Some(p) => {
                        if p == w {
                            if cell_at(g, w) != '#' {
                                assert(states(g, start, k) is Some && states(
                                    g,
                                    start,
                                    k,
                                )->0.position == w);
                                assert(visited(g, start).contains(w));
                                assert(false);
                            }
                            assert(cell_at(g2, p) == '#');
                        } else {
                            assert(cell_at(g2, p) == cell_at(g, p)) by {
                                if p.row == w.row {
                                    assert(g2[p.row as int][p.col as int] == g[p.row as int][p.col
                                        as int]);
                                }
                            }
                        }
                    },
                }
            },
        }
    }
}

} // verus!
