//! Trail counting over a digit height map: walks climb from `0` to `9` in
//! steps of one, moving only up, down, left or right.  The first answer sums,
//! over the `0` cells, how many distinct `9` cells each can reach; the second
//! sums how many distinct climbing paths each `0` cell starts.

use vstd::prelude::*;
use crate::parsing;
use crate::problem_4::rect;
use crate::problem_4::gview;

verus! {

/// The next height character after a digit.
pub open spec fn succ_digit(c: char) -> char {
    if c == '0' {
        '1'
    } else if c == '1' {
        '2'
    } else if c == '2' {
        '3'
    } else if c == '3' {
        '4'
    } else if c == '4' {
        '5'
    } else if c == '5' {
        '6'
    } else if c == '6' {
        '7'
    } else if c == '7' {
        '8'
    } else if c == '8' {
        '9'
    } else {
        c
    }
}

/// The `9` cells reachable from (`row`, `col`) at height `cur`, with
/// repetition: one entry per distinct climbing path.
pub open spec fn trails_spec(g: Seq<Seq<char>>, cur: char, row: int, col: int) -> Seq<(usize, usize)>
    decreases 57 - cur as int,
{
    if cur == '9' {
        seq![(row as usize, col as usize)]
    } else if '0' <= cur && cur <= '8' {
        let nxt = succ_digit(cur);
        (if row > 0 && g[row - 1][col] == nxt {
            trails_spec(g, nxt, row - 1, col)
        } else {
            Seq::empty()
        }) + (if row < g.len() - 1 && g[row + 1][col] == nxt {
            trails_spec(g, nxt, row + 1, col)
        } else {
            Seq::empty()
        }) + (if col > 0 && g[row][col - 1] == nxt {
            trails_spec(g, nxt, row, col - 1)
        } else {
            Seq::empty()
        }) + (if col < g[0].len() - 1 && g[row][col + 1] == nxt {
            trails_spec(g, nxt, row, col + 1)
        } else {
            Seq::empty()
        })
    } else {
        Seq::empty()
    }
}

/// How many distinct climbing paths from (`row`, `col`) at height `cur`
/// reach a `9` cell.
pub open spec fn rating_spec(g: Seq<Seq<char>>, cur: char, row: int, col: int) -> nat
    decreases 57 - cur as int,
{
    trails_spec(g, cur, row, col).len()
}

/// How many distinct entries a sequence holds.
pub open spec fn count_distinct(s: Seq<(usize, usize)>) -> nat
    decreases s.len(),
{
    if s.len() == 0 {
        0
    } else {
        count_distinct(s.drop_last()) + if s.drop_last().contains(s.last()) {
            0nat
        } else {
            1nat
        }
    }
}

fn append_pairs(dst: &mut Vec<(usize, usize)>, src: Vec<(usize, usize)>)
    ensures
        final(dst)@ == old(dst)@ + src@,
{
    let n: usize = src.len();
    let mut i: usize = 0;
    while i < n
        invariant
            i <= n,
            n == src@.len(),
            dst@ == old(dst)@ + src@.subrange(0, i as int),
        decreases n - i,
    {
        let p = src[i];
        dst.push(p);
        proof {
            assert(dst@ =~= old(dst)@ + src@.subrange(0, i as int + 1));
        }
        i += 1;
    }
    proof {
        assert(dst@ =~= old(dst)@ + src@);
    }
}

fn at(grid: &Vec<Vec<char>>, row: usize, col: usize) -> (c: char)
    requires
        rect(gview(grid)),
        row < gview(grid).len(),
        col < gview(grid)[0].len(),
    ensures
        c == gview(grid)[row as int][col as int],
{
    proof {
        assert(gview(grid)[row as int] == grid@[row as int]@);
    }
    grid[row][col]
}

fn succ_of(c: char) -> (r: char)
    ensures
        r == succ_digit(c),
{
    match c {
        '0' => '1',
        '1' => '2',
        '2' => '3',
        '3' => '4',
        '4' => '5',
        '5' => '6',
        '6' => '7',
        '7' => '8',
        '8' => '9',
        _ => c,
    }
}

/// The reachable `9` cells from (`row`, `col`), one entry per path.
pub fn trails(grid: &Vec<Vec<char>>, current: char, row: usize, col: usize) -> (r: Vec<(usize, usize)>)
    requires
        rect(gview(grid)),
        gview(grid).len() > 0,
        gview(grid)[0].len() > 0,
        row < gview(grid).len(),
        col < gview(grid)[0].len(),
        '0' <= current && current <= '9',
    ensures
        r@ == trails_spec(gview(grid), current, row as int, col as int),
    decreases 57 - current as int,
{
    let ghost g = gview(grid);
    if current == '9' {
        let mut one: Vec<(usize, usize)> = Vec::new();
        one.push((row, col));
        proof {
            assert(one@ =~= trails_spec(g, current, row as int, col as int));
        }
        return one;
    }
    let nxt = succ_of(current);
    let rows = grid.len();
    proof {
        assert(gview(grid)[0] == grid@[0]@);
    }
    let cols = grid[0].len();
    let mut ends: Vec<(usize, usize)> = Vec::new();
    if row > 0 && at(grid, row - 1, col) == nxt {
        let sub = trails(grid, nxt, row - 1, col);
        append_pairs(&mut ends, sub);
    }
    if row < rows - 1 && at(grid, row + 1, col) == nxt {
        let sub = trails(grid, nxt, row + 1, col);
        append_pairs(&mut ends, sub);
    }
    if col > 0 && at(grid, row, col - 1) == nxt {
        let sub = trails(grid, nxt, row, col - 1);
        append_pairs(&mut ends, sub);
    }
    if col < cols - 1 && at(grid, row, col + 1) == nxt {
        let sub = trails(grid, nxt, row, col + 1);
        append_pairs(&mut ends, sub);
    }
    proof {
        assert(ends@ =~= trails_spec(g, current, row as int, col as int));
    }
    ends
}

/// How many distinct climbing paths start at (`row`, `col`).
pub fn rating(grid: &Vec<Vec<char>>, current: char, row: usize, col: usize) -> (r: usize)
    requires
        rect(gview(grid)),
        gview(grid).len() > 0,
        gview(grid)[0].len() > 0,
        row < gview(grid).len(),
        col < gview(grid)[0].len(),
        '0' <= current && current <= '9',
        rating_spec(gview(grid), current, row as int, col as int) <= usize::MAX,
    ensures
        r == rating_spec(gview(grid), current, row as int, col as int),
    decreases 57 - current as int,
{
    let ghost g = gview(grid);
    if current == '9' {
        return 1;
    }
    let nxt = succ_of(current);
    let rows = grid.len();
    proof {
        assert(gview(grid)[0] == grid@[0]@);
    }
    let cols = grid[0].len();
    let mut count: usize = 0;
    if row > 0 && at(grid, row - 1, col) == nxt {
        let sub = rating(grid, nxt, row - 1, col);
        count += sub;
    }
    if row < rows - 1 && at(grid, row + 1, col) == nxt {
        let sub = rating(grid, nxt, row + 1, col);
        count += sub;
    }
    if col > 0 && at(grid, row, col - 1) == nxt {
        let sub = rating(grid, nxt, row, col - 1);
        count += sub;
    }
    if col < cols - 1 && at(grid, row, col + 1) == nxt {
        let sub = rating(grid, nxt, row, col + 1);
        count += sub;
    }
    count
}

/// How many distinct entries `v` holds.
fn distinct_count(v: &Vec<(usize, usize)>) -> (r: usize)
    ensures
        r == count_distinct(v@),
{
    let n: usize = v.len();
    let mut c: usize = 0;
    let mut i: usize = 0;
    while i < n
        invariant
            i <= n,
            n == v@.len(),
            c == count_distinct(v@.subrange(0, i as int)),
            c <= i,
        decreases n - i,
    {
        let mut seen: bool = false;
        let mut j: usize = 0;
        while j < i
            invariant
                j <= i < n,
                n == v@.len(),
                seen == v@.subrange(0, j as int).contains(v@[i as int]),
            decreases i - j,
        {
            if v[j].0 == v[i].0 && v[j].1 == v[i].1 {
                proof {
                    assert(v@.subrange(0, j as int + 1)[j as int] == v@[i as int]);
                }
                seen = true;
            }
            proof {
                if !seen {
                    assert(!v@.subrange(0, j as int + 1).contains(v@[i as int])) by {
                        if v@.subrange(0, j as int + 1).contains(v@[i as int]) {
                            let w = choose|w: int|
                                0 <= w < j + 1 && #[trigger] v@.subrange(0, j as int + 1)[w] == v@[i as int];
                            if w < j {
                                assert(v@.subrange(0, j as int)[w] == v@[i as int]);
                            }
                        }
                    }
                } else {
                    assert(v@.subrange(0, j as int).contains(v@[i as int]) || (v@[j as int]
                        == v@[i as int])) by {
                        if v@.subrange(0, j as int).contains(v@[i as int]) {
                        }
                    }
                    assert(v@.subrange(0, j as int + 1).contains(v@[i as int])) by {
                        if v@.subrange(0, j as int).contains(v@[i as int]) {
                            let w = choose|w: int|
                                0 <= w < j && #[trigger] v@.subrange(0, j as int)[w] == v@[i as int];
                            assert(v@.subrange(0, j as int + 1)[w] == v@[i as int]);
                        } else {
                            assert(v@.subrange(0, j as int + 1)[j as int] == v@[i as int]);
                        }
                    }
                }
            }
            j += 1;
        }
        proof {
            assert(v@.subrange(0, i as int + 1).drop_last() =~= v@.subrange(0, i as int));
            assert(v@.subrange(0, i as int + 1).last() == v@[i as int]);
        }
        if !seen {
            c += 1;
        }
        i += 1;
    }
    proof {
        assert(v@.subrange(0, n as int) =~= v@);
    }
    c
}

/// The trail score of row `y` over its first `j` cells.
pub open spec fn score_in_row(g: Seq<Seq<char>>, y: int, j: int) -> nat
    decreases j,
{
    if j <= 0 {
        0
    } else {
        score_in_row(g, y, j - 1) + if g[y][j - 1] == '0' {
            count_distinct(trails_spec(g, '0', y, j - 1))
        } else {
            0nat
        }
    }
}

pub open spec fn score_upto_row(g: Seq<Seq<char>>, i: int) -> nat
    decreases i,
{
    if i <= 0 {
        0
    } else {
        score_upto_row(g, i - 1) + score_in_row(g, i - 1, g[0].len() as int)
    }
}

/// The sum over all trailheads of how many `9` cells each reaches.
pub open spec fn spec_score_total(g: Seq<Seq<char>>) -> nat {
    score_upto_row(g, g.len() as int)
}

/// The rating of row `y` over its first `j` cells.
pub open spec fn rating_in_row(g: Seq<Seq<char>>, y: int, j: int) -> nat
    decreases j,
{
    if j <= 0 {
        0
    } else {
        rating_in_row(g, y, j - 1) + if g[y][j - 1] == '0' {
            rating_spec(g, '0', y, j - 1)
        } else {
            0nat
        }
    }
}

pub open spec fn rating_upto_row(g: Seq<Seq<char>>, i: int) -> nat
    decreases i,
{
    if i <= 0 {
        0
    } else {
        rating_upto_row(g, i - 1) + rating_in_row(g, i - 1, g[0].len() as int)
    }
}

/// The sum over all trailheads of how many climbing paths each starts.
pub open spec fn spec_rating_total(g: Seq<Seq<char>>) -> nat {
    rating_upto_row(g, g.len() as int)
}

/// The inputs the solvers accept: a non-empty rectangular grid with totals a
/// machine word can hold.
pub open spec fn grid_ok(g: Seq<Seq<char>>) -> bool {
    &&& rect(g)
    &&& g.len() > 0
    &&& g[0].len() > 0
}

/// Sums the trail scores of all `0` cells.
pub fn part_1(input: &str) -> (r: Option<i32>)
    requires
        grid_ok(parsing::spec_lines(input@)),
        spec_score_total(parsing::spec_lines(input@)) <= usize::MAX,
    ensures
        r == Some(spec_score_total(parsing::spec_lines(input@)) as i32),
{
    let ghost g = parsing::spec_lines(input@);
    let cs = parsing::chars_of(input);
    let grid = parsing::split_lines(cs.as_slice());
    proof {
        assert(gview(&grid) =~= g);
    }
    let rows = grid.len();
    proof {
        assert(gview(&grid)[0] == grid@[0]@);
    }
    let cols = grid[0].len();
    let mut scores: usize = 0;
    let mut y: usize = 0;
    while y < rows
        invariant
            y <= rows,
            rows == g.len(),
            cols == g[0].len(),
            g == gview(&grid),
            grid_ok(g),
            spec_score_total(g) <= usize::MAX,
            scores == score_upto_row(g, y as int),
        decreases rows - y,
    {
        let mut x: usize = 0;
        while x < cols
            invariant
                x <= cols,
                y < rows,
                rows == g.len(),
                cols == g[0].len(),
                g == gview(&grid),
                grid_ok(g),
                spec_score_total(g) <= usize::MAX,
                scores == score_upto_row(g, y as int) + score_in_row(g, y as int, x as int),
            decreases cols - x,
        {
            let c = at(&grid, y, x);
            if c == '0' {
                let ends = trails(&grid, '0', y, x);
                let d = distinct_count(&ends);
                proof {
                    lemma_score_prefix(g, y as int, x as int + 1, cols as int);
                    lemma_score_rows(g, y as int + 1, rows as int);
                }
                scores += d;
            }
            x += 1;
        }
        y += 1;
    }
    Some(#[verifier::truncate] (scores as i32))
}

proof fn lemma_score_row_mono(g: Seq<Seq<char>>, y: int, j: int, n: int)
    requires
        j <= n,
    ensures
        score_in_row(g, y, j) <= score_in_row(g, y, n),
    decreases n - j,
{
    if j < n {
        lemma_score_row_mono(g, y, j, n - 1);
    }
}

proof fn lemma_score_prefix(g: Seq<Seq<char>>, y: int, j: int, cols: int)
    requires
        j <= cols,
    ensures
        score_in_row(g, y, j) <= score_in_row(g, y, cols),
{
    lemma_score_row_mono(g, y, j, cols);
}

proof fn lemma_score_rows(g: Seq<Seq<char>>, i: int, rows: int)
    requires
        i <= rows,
        rows == g.len(),
    ensures
        score_upto_row(g, i) <= score_upto_row(g, rows),
    decreases rows - i,
{
    if i < rows {
        lemma_score_rows(g, i + 1, rows);
        lemma_score_row_mono(g, i, 0, g[0].len() as int);
    }
}

/// Sums the ratings of all `0` cells.
pub fn part_2(input: &str) -> (r: Option<i32>)
    requires
        grid_ok(parsing::spec_lines(input@)),
        spec_rating_total(parsing::spec_lines(input@)) <= usize::MAX,
    ensures
        r == Some(spec_rating_total(parsing::spec_lines(input@)) as i32),
{
    let ghost g = parsing::spec_lines(input@);
    let cs = parsing::chars_of(input);
    let grid = parsing::split_lines(cs.as_slice());
    proof {
        assert(gview(&grid) =~= g);
    }
    let rows = grid.len();
    proof {
        assert(gview(&grid)[0] == grid@[0]@);
    }
    let cols = grid[0].len();
    let mut scores: usize = 0;
    let mut y: usize = 0;
    while y < rows
        invariant
            y <= rows,
            rows == g.len(),
            cols == g[0].len(),
            g == gview(&grid),
            grid_ok(g),
            spec_rating_total(g) <= usize::MAX,
            scores == rating_upto_row(g, y as int),
        decreases rows - y,
    {
        let mut x: usize = 0;
        while x < cols
            invariant
                x <= cols,
                y < rows,
                rows == g.len(),
                cols == g[0].len(),
                g == gview(&grid),
                grid_ok(g),
                spec_rating_total(g) <= usize::MAX,
                scores == rating_upto_row(g, y as int) + rating_in_row(g, y as int, x as int),
            decreases cols - x,
        {
            let c = at(&grid, y, x);
            if c == '0' {
                proof {
                    lemma_rating_prefix(g, y as int, x as int + 1, cols as int);
                    lemma_rating_rows(g, y as int + 1, rows as int);
                }
                let d = rating(&grid, '0', y, x);
                scores += d;
            }
            x += 1;
        }
        y += 1;
    }
    Some(#[verifier::truncate] (scores as i32))
}

proof fn lemma_rating_row_mono(g: Seq<Seq<char>>, y: int, j: int, n: int)
    requires
        j <= n,
    ensures
        rating_in_row(g, y, j) <= rating_in_row(g, y, n),
    decreases n - j,
{
    if j < n {
        lemma_rating_row_mono(g, y, j, n - 1);
    }
}

proof fn lemma_rating_prefix(g: Seq<Seq<char>>, y: int, j: int, cols: int)
    requires
        j <= cols,
    ensures
        rating_in_row(g, y, j) <= rating_in_row(g, y, cols),
{
    lemma_rating_row_mono(g, y, j, cols);
}

proof fn lemma_rating_rows(g: Seq<Seq<char>>, i: int, rows: int)
    requires
        i <= rows,
        rows == g.len(),
    ensures
        rating_upto_row(g, i) <= rating_upto_row(g, rows),
    decreases rows - i,
{
    if i < rows {
        lemma_rating_rows(g, i + 1, rows);
        lemma_rating_row_mono(g, i, 0, g[0].len() as int);
    }
}

} // verus!
