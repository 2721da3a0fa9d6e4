//! Antinode geometry: antenna cells that share a frequency character project
//! "antinodes" at the mirror point of each ordered pair; the answer counts
//! the distinct antinodes that land on the board.

use vstd::prelude::*;
use crate::parsing;

pub mod coord;

use coord::Position;
use coord::sat64;

verus! {

/// The labelled cells of row `y` among its first `j` columns, as
/// (frequency, row, column) triples.
pub open spec fn cells_in_row(g: Seq<Seq<char>>, y: int, j: int) -> Seq<(char, i64, i64)>
    decreases j,
{
    if j <= 0 {
        Seq::empty()
    } else {
        cells_in_row(g, y, j - 1) + if g[y][j - 1] != '.' {
            seq![(g[y][j - 1], y as i64, (j - 1) as i64)]
        } else {
            Seq::empty()
        }
    }
}

pub open spec fn cells_upto_row(g: Seq<Seq<char>>, i: int) -> Seq<(char, i64, i64)>
    decreases i,
{
    if i <= 0 {
        Seq::empty()
    } else {
        cells_upto_row(g, i - 1) + cells_in_row(g, i - 1, g[i - 1].len() as int)
    }
}

/// Every labelled cell of the grid in row-major order.
pub open spec fn spec_cells(g: Seq<Seq<char>>) -> Seq<(char, i64, i64)> {
    cells_upto_row(g, g.len() as int)
}

/// The greatest row index that holds any character, or `-1`.
pub open spec fn max_row_idx(g: Seq<Seq<char>>, n: int) -> int
    decreases n,
{
    if n <= 0 {
        -1
    } else if g[n - 1].len() > 0 {
        n - 1
    } else {
        max_row_idx(g, n - 1)
    }
}

/// The greatest column index that holds any character, or `-1`.
pub open spec fn max_col_idx(g: Seq<Seq<char>>, n: int) -> int
    decreases n,
{
    if n <= 0 {
        -1
    } else if g[n - 1].len() - 1 > max_col_idx(g, n - 1) {
        g[n - 1].len() - 1
    } else {
        max_col_idx(g, n - 1)
    }
}

/// The on-board antinode of the ordered cell pair (`a`, `b`), if their
/// frequencies match: the mirror point `2 * b - a`.
pub open spec fn pair_antinode(a: (char, i64, i64), b: (char, i64, i64), rows: int, cols: int) -> Seq<Position> {
    let p = Position { row: (sat64(sat64(b.1 * 2) - a.1)) as i64, col: (sat64(sat64(b.2 * 2) - a.2)) as i64 };
    if a.0 == b.0 && 0 <= p.row && p.row <= rows && 0 <= p.col && p.col <= cols {
        seq![p]
    } else {
        Seq::empty()
    }
}

/// The antinodes of the pairs of cell `i` with the first `j` other cells.
pub open spec fn anti_in_pair(cs: Seq<(char, i64, i64)>, i: int, j: int, rows: int, cols: int) -> Seq<Position>
    decreases j,
{
    if j <= 0 {
        Seq::empty()
    } else {
        anti_in_pair(cs, i, j - 1, rows, cols) + if i != j - 1 {
            pair_antinode(cs[i], cs[j - 1], rows, cols)
        } else {
            Seq::empty()
        }
    }
}

pub open spec fn anti_upto(cs: Seq<(char, i64, i64)>, i: int, rows: int, cols: int) -> Seq<Position>
    decreases i,
{
    if i <= 0 {
        Seq::empty()
    } else {
        anti_upto(cs, i - 1, rows, cols) + anti_in_pair(cs, i - 1, cs.len() as int, rows, cols)
    }
}

/// All on-board antinodes of the grid, one entry per ordered antenna pair.
pub open spec fn spec_antinodes(g: Seq<Seq<char>>) -> Seq<Position> {
    let cs = spec_cells(g);
    anti_upto(cs, cs.len() as int, max_row_idx(g, g.len() as int), max_col_idx(g, g.len() as int))
}

/// How many distinct entries a position sequence holds.
pub open spec fn count_distinct_pos(s: Seq<Position>) -> nat
    decreases s.len(),
{
    if s.len() == 0 {
        0
    } else {
        count_distinct_pos(s.drop_last()) + if s.drop_last().contains(s.last()) {
            0nat
        } else {
            1nat
        }
    }
}

/// Dimensions small enough for exact 64-bit coordinate arithmetic.
pub open spec fn dims_ok(g: Seq<Seq<char>>) -> bool {
    &&& g.len() <= 0x4000000000000000
    &&& forall|i: int| 0 <= i < g.len() ==> (#[trigger] g[i]).len() <= 0x4000000000000000
}

fn distinct_count_pos(v: &Vec<Position>) -> (r: usize)
    ensures
        r == count_distinct_pos(v@),
{
    let n: usize = v.len();
    let mut c: usize = 0;
    let mut i: usize = 0;
    while i < n
        invariant
            i <= n,
            n == v@.len(),
            c == count_distinct_pos(v@.subrange(0, i as int)),
            c <= i,
        decreases n - i,
    {
        let mut seen: bool = false;
        let mut j: usize = 0;
        while j < i
            invariant
                j <= i < n,
                n == v@.len(),
                seen == v@.subrange(0, j as int).contains(v@[i as int]),
            decreases i - j,
        {
            if v[j] == v[i] {
                proof {
                    assert(v@.subrange(0, j as int + 1)[j as int] == v@[i as int]);
                }
                seen = true;
            }
            proof {
                if !seen {
                    assert(!v@.subrange(0, j as int + 1).contains(v@[i as int])) by {
                        if v@.subrange(0, j as int + 1).contains(v@[i as int]) {
                            let w = choose|w: int|
                                0 <= w < j + 1 && #[trigger] v@.subrange(0, j as int + 1)[w]
                                    == v@[i as int];
                            if w < j {
                                assert(v@.subrange(0, j as int)[w] == v@[i as int]);
                            }
                        }
                    }
                } else {
                    assert(v@.subrange(0, j as int + 1).contains(v@[i as int])) by {
                        if v@.subrange(0, j as int).contains(v@[i as int]) {
                            let w = choose|w: int|
                                0 <= w < j && #[trigger] v@.subrange(0, j as int)[w] == v@[i
                                    as int];
                            assert(v@.subrange(0, j as int + 1)[w] == v@[i as int]);
                        } else {
                            assert(v@.subrange(0, j as int + 1)[j as int] == v@[i as int]);
                        }
                    }
                }
            }
            j += 1;
        }
        proof {
            assert(v@.subrange(0, i as int + 1).drop_last() =~= v@.subrange(0, i as int));
            assert(v@.subrange(0, i as int + 1).last() == v@[i as int]);
        }
        if !seen {
            c += 1;
        }
        i += 1;
    }
    proof {
        assert(v@.subrange(0, n as int) =~= v@);
    }
    c
}

/// Counts the distinct on-board antinodes of all same-frequency antenna
/// pairs.
pub fn part_1(input: &str) -> (r: Option<i32>)
    requires
        dims_ok(parsing::spec_lines(input@)),
    ensures
        r == Some(count_distinct_pos(spec_antinodes(parsing::spec_lines(input@))) as i32),
{
    let ghost g = parsing::spec_lines(input@);
    let cs = parsing::chars_of(input);
    let grid = parsing::split_lines(cs.as_slice());
    let nrows: usize = grid.len();
    let mut cells: Vec<(char, i64, i64)> = Vec::new();
    let mut rm: i64 = -1;
    let mut cm: i64 = -1;
    let mut y: usize = 0;
    proof {
        assert(forall|l: int| 0 <= l < g.len() ==> (#[trigger] grid@[l])@ == g[l]);
    }
    while y < nrows
        invariant
            y <= nrows,
            nrows == g.len(),
            grid@.len() == g.len(),
            forall|l: int| 0 <= l < g.len() ==> (#[trigger] grid@[l])@ == g[l],
            dims_ok(g),
            cells@ == cells_upto_row(g, y as int),
            rm == max_row_idx(g, y as int),
            cm == max_col_idx(g, y as int),
        decreases nrows - y,
    {
        let rl: usize = grid[y].len();
        if rl > 0 {
            rm = y as i64;
            if (rl - 1) as i64 > cm {
                cm = (rl - 1) as i64;
            }
        }
        let mut x: usize = 0;
        while x < rl
            invariant
                x <= rl,
                y < nrows,
                nrows == g.len(),
                grid@.len() == g.len(),
                forall|l: int| 0 <= l < g.len() ==> (#[trigger] grid@[l])@ == g[l],
                rl == g[y as int].len(),
                dims_ok(g),
                cells@ == cells_upto_row(g, y as int) + cells_in_row(g, y as int, x as int),
            decreases rl - x,
        {
            let c = grid[y][x];
            if c != '.' {
                cells.push((c, y as i64, x as i64));
                proof {
                    assert(cells@ =~= cells_upto_row(g, y as int) + cells_in_row(
                        g,
                        y as int,
                        x as int + 1,
                    ));
                }
            } else {
                proof {
                    assert(cells@ =~= cells_upto_row(g, y as int) + cells_in_row(
                        g,
                        y as int,
                        x as int + 1,
                    ));
                }
            }
            x += 1;
        }
        proof {
            assert(cells_upto_row(g, y as int + 1) =~= cells_upto_row(g, y as int) + cells_in_row(
                g,
                y as int,
                g[y as int].len() as int,
            ));
        }
        y += 1;
    }
    let n: usize = cells.len();
    let ghost cseq = cells@;
    let mut anti: Vec<Position> = Vec::new();
    let mut i: usize = 0;
    while i < n
        invariant
            i <= n,
            n == cseq.len(),
            cells@ == cseq,
            cseq == spec_cells(g),
            rm == max_row_idx(g, g.len() as int),
            cm == max_col_idx(g, g.len() as int),
            anti@ == anti_upto(cseq, i as int, rm as int, cm as int),
        decreases n - i,
    {
        let mut j: usize = 0;
        while j < n
            invariant
                j <= n,
                i < n,
                n == cseq.len(),
                cells@ == cseq,
                cseq == spec_cells(g),
                rm == max_row_idx(g, g.len() as int),
                cm == max_col_idx(g, g.len() as int),
                anti@ == anti_upto(cseq, i as int, rm as int, cm as int) + anti_in_pair(
                    cseq,
                    i as int,
                    j as int,
                    rm as int,
                    cm as int,
                ),
            decreases n - j,
        {
            if j != i {
                let a = cells[i];
                let b = cells[j];
                if a.0 == b.0 {
                    let p = Position::new(b.1, b.2).antinode(Position::new(a.1, a.2));
                    if p.row >= 0 && p.row <= rm && p.col >= 0 && p.col <= cm {
                        anti.push(p);
                        proof {
                            assert(anti@ =~= anti_upto(cseq, i as int, rm as int, cm as int)
                                + anti_in_pair(cseq, i as int, j as int + 1, rm as int, cm as int));
                        }
                    } else {
                        proof {
                            assert(anti@ =~= anti_upto(cseq, i as int, rm as int, cm as int)
                                + anti_in_pair(cseq, i as int, j as int + 1, rm as int, cm as int));
                        }
                    }
                } else {
                    proof {
                        assert(anti@ =~= anti_upto(cseq, i as int, rm as int, cm as int)
                            + anti_in_pair(cseq, i as int, j as int + 1, rm as int, cm as int));
                    }
                }
            } else {
                proof {
                    assert(anti@ =~= anti_upto(cseq, i as int, rm as int, cm as int) + anti_in_pair(
                        cseq,
                        i as int,
                        j as int + 1,
                        rm as int,
                        cm as int,
                    ));
                }
            }
            j += 1;
        }
        proof {
            assert(anti_upto(cseq, i as int + 1, rm as int, cm as int) =~= anti_upto(
                cseq,
                i as int,
                rm as int,
                cm as int,
            ) + anti_in_pair(cseq, i as int, cseq.len() as int, rm as int, cm as int));
        }
        i += 1;
    }
    let d = distinct_count_pos(&anti);
    proof {
        assert(anti@ == spec_antinodes(g));
    }
    Some(#[verifier::truncate] (d as i32))
}

/// The second half of this puzzle was never solved in this collection.
pub fn part_2(input: &str) -> (r: Option<i32>)
    ensures
        r is None,
{
    None
}

} // verus!
