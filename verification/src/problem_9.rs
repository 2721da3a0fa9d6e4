//! Disk defragmentation: a dense map of digits alternates file lengths and
//! gap lengths.  The first pass moves single blocks from the end into the
//! leftmost gaps until the disk is compact; the second moves whole files,
//! highest file number first, into the first gap that fits.  The answer is
//! a position-weighted checksum.

use vstd::prelude::*;
use crate::parsing;

verus! {

/// The length of the leading digit run of the input.
pub open spec fn digits_prefix(s: Seq<char>) -> nat
    decreases s.len(),
{
    if s.len() > 0 && parsing::is_digit(s[0]) {
        1 + digits_prefix(s.drop_first())
    } else {
        0
    }
}

/// The digit values of the leading digit run.
pub open spec fn spec_digits(s: Seq<char>) -> Seq<u32> {
    Seq::new(digits_prefix(s), |i: int| parsing::digit_val(s[i]) as u32)
}

proof fn lemma_digits_prefix(s: Seq<char>, j: int)
    requires
        0 <= j <= s.len(),
        forall|i: int| 0 <= i < j ==> parsing::is_digit(#[trigger] s[i]),
        j < s.len() ==> !parsing::is_digit(s[j]),
    ensures
        digits_prefix(s) == j,
    decreases s.len(),
{
    if s.len() > 0 && parsing::is_digit(s[0]) {
        lemma_digits_prefix(s.drop_first(), j - 1);
    }
}

/// Reads the leading digit run of the dense map.
pub fn parse_digits(input: &str) -> (r: Vec<u32>)
    ensures
        r@ == spec_digits(input@),
{
    let cs = parsing::chars_of(input);
    let s = cs.as_slice();
    let n: usize = s.len();
    let mut out: Vec<u32> = Vec::new();
    let mut i: usize = 0;
    while i < n
        invariant
            i <= n,
            n == s@.len(),
            s@ == input@,
            forall|t: int| 0 <= t < i ==> parsing::is_digit(#[trigger] s@[t]),
            out@.len() == i,
            forall|t: int| 0 <= t < i ==> out@[t] == parsing::digit_val(s@[t]) as u32,
        decreases n - i,
    {
        let c = s[i];
        match parsing::digit_of(c) {
            Some(d) => {
                out.push(d as u32);
            },
            None => {
                proof {
                    lemma_digits_prefix(s@, i as int);
                    assert(out@ =~= spec_digits(input@));
                }
                return out;
            },
        }
        i += 1;
    }
    proof {
        lemma_digits_prefix(s@, n as int);
        assert(out@ =~= spec_digits(input@));
    }
    out
}

/// The block row the dense map denotes: alternating file and gap runs, files
/// numbered from zero.
pub open spec fn spec_blocks(map: Seq<u32>, n: int) -> Seq<Option<u32>>
    decreases n,
{
    if n <= 0 {
        Seq::empty()
    } else {
        spec_blocks(map, n - 1) + Seq::new(
            map[n - 1] as nat,
            |t: int|
                if (n - 1) % 2 == 0 {
                    Some(((n - 1) / 2) as u32)
                } else {
                    None::<u32>
                },
        )
    }
}

/// Lays the dense map out as blocks.
pub fn construct_blocks(map: &[u32]) -> (r: Vec<Option<u32>>)
    requires
        map@.len() <= u32::MAX,
    ensures
        r@ == spec_blocks(map@, map@.len() as int),
{
    let n: usize = map.len();
    let mut out: Vec<Option<u32>> = Vec::new();
    let mut i: usize = 0;
    let mut file_id: u32 = 0;
    while i < n
        invariant
            i <= n,
            n == map@.len(),
            n <= u32::MAX,
            file_id == (i + 1) / 2,
            out@ == spec_blocks(map@, i as int),
        decreases n - i,
    {
        let num = map[i];
        let is_space_run = i % 2 == 1;
        let mut t: u32 = 0;
        while t < num
            invariant
                t <= num,
                i < n,
                n == map@.len(),
                num == map@[i as int],
                file_id == (i + 1) / 2,
                is_space_run == (i % 2 == 1),
                out@ == spec_blocks(map@, i as int) + Seq::new(
                    t as nat,
                    |u: int|
                        if i as int % 2 == 0 {
                            Some((i as int / 2) as u32)
                        } else {
                            None::<u32>
                        },
                ),
            decreases num - t,
        {
            if is_space_run {
                out.push(None);
            } else {
                out.push(Some(file_id));
            }
            proof {
                assert(out@ =~= spec_blocks(map@, i as int) + Seq::new(
                    t as nat + 1,
                    |u: int|
                        if i as int % 2 == 0 {
                            Some((i as int / 2) as u32)
                        } else {
                            None::<u32>
                        },
                ));
            }
            t += 1;
        }
        proof {
            assert(out@ =~= spec_blocks(map@, i as int + 1));
        }
        if !is_space_run {
            file_id += 1;
        }
        i += 1;
    }
    out
}

/// How many blocks from position `p` on hold a file.
pub open spec fn somes_after(s: Seq<Option<u32>>, p: int) -> nat
    decreases s.len() - p,
{
    if p < 0 || p >= s.len() {
        0
    } else {
        (if s[p] is Some {
            1nat
        } else {
            0nat
        }) + somes_after(s, p + 1)
    }
}

/// How many file blocks the row holds.
pub open spec fn count_some(s: Seq<Option<u32>>) -> nat {
    somes_after(s, 0)
}

/// How many gaps lie before position `i`.
pub open spec fn nones_before(s: Seq<Option<u32>>, i: int) -> nat
    decreases i,
{
    if i <= 0 {
        0
    } else {
        nones_before(s, i - 1) + (if 0 <= i - 1 < s.len() && s[i - 1] is None {
            1nat
        } else {
            0nat
        })
    }
}

/// The position of the `j + 1`-th file block counting from the right.
pub open spec fn rsi(s: Seq<Option<u32>>, j: int) -> int
    decreases s.len(),
{
    if s.len() == 0 {
        0
    } else if s.last() is Some {
        if j == 0 {
            s.len() - 1
        } else {
            rsi(s.drop_last(), j - 1)
        }
    } else {
        rsi(s.drop_last(), j)
    }
}

/// The compacted row: every position below the file-block count keeps its
/// file or takes the next unused file block from the right; the rest is gaps.
pub open spec fn spec_defrag(s: Seq<Option<u32>>) -> Seq<Option<u32>> {
    Seq::new(
        s.len(),
        |i: int|
            if i < count_some(s) {
                if s[i] is Some {
                    s[i]
                } else {
                    s[rsi(s, nones_before(s, i) as int)]
                }
            } else {
                None::<u32>
            },
    )
}

/// Counting from farther left never finds fewer file blocks.
proof fn lemma_somes_after_antitone(s: Seq<Option<u32>>, p: int, q: int)
    requires
        0 <= p <= q,
    ensures
        somes_after(s, p) >= somes_after(s, q),
    decreases q - p,
{
    if p < q {
        lemma_somes_after_antitone(s, p + 1, q);
    }
}

/// A position holding a file with `j` file blocks after it is the `j + 1`-th
/// file block from the right.
proof fn lemma_rsi_pin(s: Seq<Option<u32>>, p: int, j: int)
    requires
        0 <= p < s.len(),
        s[p] is Some,
        somes_after(s, p + 1) == j,
    ensures
        rsi(s, j) == p,
    decreases s.len(),
{
    if p == s.len() - 1 {
        assert(somes_after(s, p + 1) == 0);
        assert(rsi(s, 0) == s.len() - 1);
    } else {
        let d = s.drop_last();
        assert(somes_after(s, s.len() as int) == 0);
        assert(somes_after(s, s.len() - 1) == (if s.last() is Some {
            1nat
        } else {
            0nat
        }));
        lemma_somes_drop_last(s, p + 1);
        if s.last() is Some {
            assert(j >= 1) by {
                lemma_somes_after_antitone(s, p + 1, s.len() - 1);
            }
            lemma_rsi_pin(d, p, j - 1);
        } else {
            lemma_rsi_pin(d, p, j);
        }
    }
}

/// Dropping the last block removes its contribution from a suffix count.
proof fn lemma_somes_drop_last(s: Seq<Option<u32>>, p: int)
    requires
        s.len() > 0,
        0 <= p <= s.len() - 1,
    ensures
        somes_after(s, p) == somes_after(s.drop_last(), p) + (if s.last() is Some {
            1nat
        } else {
            0nat
        }),
    decreases s.len() - p,
{
    if p < s.len() - 1 {
        lemma_somes_drop_last(s, p + 1);
    } else {
        assert(somes_after(s, p + 1) == 0);
        assert(somes_after(s.drop_last(), p) == 0);
    }
}

/// Compacts the row: single blocks move from the end into the leftmost gaps.
pub fn defrag_string(blocks: &mut Vec<Option<u32>>)
    requires
        old(blocks)@.len() >= 1,
    ensures
        final(blocks)@ == spec_defrag(old(blocks)@),
{
    let ghost s = blocks@;
    let n: usize = blocks.len();
    // count the file blocks
    let mut somes: usize = 0;
    let mut i: usize = 0;
    while i < n
        invariant
            i <= n,
            n == blocks@.len(),
            blocks@ == s,
            somes + somes_after(s, i as int) == count_some(s),
            somes <= i,
        decreases n - i,
    {
        if blocks[i].is_some() {
            somes += 1;
        }
        i += 1;
    }
    let cap: usize = somes;
    proof {
        assert(cap <= n);
    }
    let mut out: Vec<Option<u32>> = Vec::new();
    let mut rc: usize = n;
    let mut k: usize = 0;
    while k < cap
        invariant
            k <= cap,
            cap <= n,
            cap == count_some(s),
            n == s.len(),
            n == blocks@.len(),
            blocks@ == s,
            rc <= n,
            somes_after(s, rc as int) == nones_before(s, k as int),
            out@.len() == k,
            forall|t: int| 0 <= t < k ==> out@[t] == spec_defrag(s)[t],
        decreases cap - k,
    {
        let b = blocks[k];
        match b {
            Some(id) => {
                out.push(Some(id));
                proof {
                    assert(spec_defrag(s)[k as int] == s[k as int]);
                    assert(nones_before(s, k as int + 1) == nones_before(s, k as int));
                }
            },
            None => {
                // there is an unused file block above `k`: the suffix from
                // `k + 1` holds more file blocks than the cursor has passed
                proof {
                    lemma_prefix_split(s, k as int + 1);
                    assert(somes_after(s, k as int + 1) > nones_before(s, k as int));
                }
                let mut p: usize = rc;
                loop
                    invariant
                        p <= rc <= n,
                        n == s.len(),
                        n == blocks@.len(),
                        blocks@ == s,
                        somes_after(s, p as int) == nones_before(s, k as int),
                        somes_after(s, k as int + 1) > nones_before(s, k as int),
                        k < n,
                        s[k as int] is None,
                    ensures
                        0 < p <= n,
                        s[p as int - 1] is Some,
                        somes_after(s, p as int) == nones_before(s, k as int),
                        blocks@ == s,
                        n == blocks@.len(),
                    decreases p,
                {
                    proof {
                        if p as int <= k as int + 1 {
                            lemma_somes_after_antitone(s, p as int, k as int + 1);
                            assert(false);
                        }
                    }
                    let probe = blocks[p - 1];
                    if probe.is_some() {
                        break ;
                    }
                    p -= 1;
                }
                proof {
                    assert(s[p as int - 1] is Some);
                    lemma_rsi_pin(s, p as int - 1, nones_before(s, k as int) as int);
                }
                let v = blocks[p - 1];
                out.push(v);
                proof {
                    assert(spec_defrag(s)[k as int] == s[rsi(
                        s,
                        nones_before(s, k as int) as int,
                    )]);
                    assert(nones_before(s, k as int + 1) == nones_before(s, k as int) + 1);
                    assert(somes_after(s, p as int - 1) == 1 + somes_after(s, p as int));
                }
                rc = p - 1;
            },
        }
        k += 1;
    }
    while k < n
        invariant
            cap <= k <= n,
            cap == count_some(s),
            n == s.len(),
            out@.len() == k,
            forall|t: int| 0 <= t < k ==> out@[t] == spec_defrag(s)[t],
        decreases n - k,
    {
        out.push(None);
        proof {
            assert(spec_defrag(s)[k as int] is None);
        }
        k += 1;
    }
    proof {
        assert(out@ =~= spec_defrag(s));
    }
    *blocks = out;
}

/// Gap counts never exceed the position.
proof fn lemma_nones_le(s: Seq<Option<u32>>, i: int)
    ensures
        nones_before(s, i) <= (if i >= 0 {
            i
        } else {
            0
        }),
    decreases i,
{
    if i > 0 {
        lemma_nones_le(s, i - 1);
    }
}

/// The blocks before `i` split into files and gaps, so the whole file count
/// splits at `i`.
proof fn lemma_prefix_split(s: Seq<Option<u32>>, i: int)
    requires
        0 <= i <= s.len(),
    ensures
        somes_after(s, 0) == i - nones_before(s, i) + somes_after(s, i),
        nones_before(s, i) <= i,
    decreases i,
{
    if i > 0 {
        lemma_prefix_split(s, i - 1);
        assert(somes_after(s, i - 1) == (if s[i - 1] is Some {
            1nat
        } else {
            0nat
        }) + somes_after(s, i));
    }
}

/// The position-weighted checksum of the first `n` blocks.
pub open spec fn spec_checksum(s: Seq<Option<u32>>, n: int) -> int
    decreases n,
{
    if n <= 0 {
        0
    } else {
        spec_checksum(s, n - 1) + (match s[n - 1] {
            Some(id) => (n - 1) * id,
            None => 0int,
        })
    }
}

proof fn lemma_checksum_mono(s: Seq<Option<u32>>, k: int, n: int)
    requires
        0 <= k <= n,
    ensures
        0 <= spec_checksum(s, k) <= spec_checksum(s, n),
    decreases n,
{
    if k < n {
        lemma_checksum_mono(s, k, n - 1);
        match s[n - 1] {
            Some(id) => {
                assert((n - 1) * id >= 0) by (nonlinear_arith)
                    requires
                        n - 1 >= 0,
                        id >= 0,
                ;
            },
            None => {},
        }
    } else if n > 0 {
        lemma_checksum_mono(s, 0, n - 1);
        match s[n - 1] {
            Some(id) => {
                assert((n - 1) * id >= 0) by (nonlinear_arith)
                    requires
                        n - 1 >= 0,
                        id >= 0,
                ;
            },
            None => {},
        }
    }
}

/// Sums position times file number over all file blocks.
pub fn checksum(blocks: &[Option<u32>]) -> (r: u64)
    requires
        spec_checksum(blocks@, blocks@.len() as int) <= u64::MAX,
    ensures
        r == spec_checksum(blocks@, blocks@.len() as int),
{
    let n: usize = blocks.len();
    let mut sum: u64 = 0;
    let mut i: usize = 0;
    while i < n
        invariant
            i <= n,
            n == blocks@.len(),
            spec_checksum(blocks@, n as int) <= u64::MAX,
            sum == spec_checksum(blocks@, i as int),
        decreases n - i,
    {
        proof {
            lemma_checksum_mono(blocks@, i as int + 1, n as int);
            lemma_checksum_mono(blocks@, 0, i as int);
        }
        match blocks[i] {
            Some(id) => {
                let term: u64 = (i as u64) * (id as u64);
                sum = sum + term;
            },
            None => {},
        }
        i += 1;
    }
    sum
}

/// The inputs the first pass accepts: a digit map laying out at least one
/// block, few enough files to number, and a checksum a `u64` can hold.
pub open spec fn part_1_ok(input: Seq<char>) -> bool {
    let blocks = spec_blocks(spec_digits(input), spec_digits(input).len() as int);
    &&& spec_digits(input).len() <= u32::MAX
    &&& blocks.len() >= 1
    &&& spec_checksum(spec_defrag(blocks), spec_defrag(blocks).len() as int) <= u64::MAX
}

/// The checksum after compacting single blocks.
pub fn part_1(input: &str) -> (r: Option<u64>)
    requires
        part_1_ok(input@),
    ensures
        ({
            let blocks = spec_blocks(spec_digits(input@), spec_digits(input@).len() as int);
            r == Some(
                spec_checksum(spec_defrag(blocks), spec_defrag(blocks).len() as int) as u64,
            )
        }),
{
    let nums = parse_digits(input);
    let mut blocks = construct_blocks(nums.as_slice());
    defrag_string(&mut blocks);
    let result = checksum(blocks.as_slice());
    Some(result)
}

/// Every block in [`a`, `b`) is a gap.
pub open spec fn window_free(s: Seq<Option<u32>>, a: int, b: int) -> bool {
    forall|k: int| a <= k < b ==> 0 <= k < s.len() && s[k] is None
}

/// The first position before `left` whose window of `size` blocks is free.
pub open spec fn first_fit(s: Seq<Option<u32>>, size: int, left: int, i: int) -> Option<int>
    decreases left - i,
{
    if i >= left {
        None
    } else if window_free(s, i, i + size) {
        Some(i)
    } else {
        first_fit(s, size, left, i + 1)
    }
}

/// The row with [`a`, `b`) replaced by `v`.
pub open spec fn region_set(s: Seq<Option<u32>>, a: int, b: int, v: Option<u32>) -> Seq<
    Option<u32>,
> {
    Seq::new(
        s.len(),
        |k: int|
            if a <= k < b {
                v
            } else {
                s[k]
            },
    )
}

/// Where the scan for the start of the file run ending at `l` stops: the
/// first position downward holding a different value, or zero.
pub open spec fn scan_left(s: Seq<Option<u32>>, l: int, v: Option<u32>) -> nat
    decreases l,
{
    if l <= 0 {
        0
    } else if s[l] == v {
        scan_left(s, l - 1, v)
    } else {
        l as nat
    }
}

/// The row after the whole-file pass has considered every file ending at or
/// below position `right`: each file, highest position first, moves into the
/// first gap run before it that fits.
pub open spec fn spec_dfiles(s: Seq<Option<u32>>, right: int) -> Seq<Option<u32>>
    decreases right,
{
    if right <= 0 || right >= s.len() {
        s
    } else if s[right] is None {
        spec_dfiles(s, right - 1)
    } else {
        let v = s[right];
        let stop = scan_left(s, right, v);
        let left = stop as int + 1;
        let size = right - left + 1;
        if left <= right {
            match first_fit(s, size, left, 0) {
                Some(i) => spec_dfiles(
                    region_set(region_set(s, i, i + size, v), left, right + 1, None),
                    left - 1,
                ),
                None => spec_dfiles(s, left - 1),
            }
        } else {
            s
        }
    }
}

/// A found fit lies before `left` and its window is free.
proof fn lemma_first_fit_props(s: Seq<Option<u32>>, size: int, left: int, i: int)
    requires
        first_fit(s, size, left, i) is Some,
    ensures
        i <= first_fit(s, size, left, i)->0 < left,
        window_free(s, first_fit(s, size, left, i)->0, first_fit(s, size, left, i)->0 + size),
    decreases left - i,
{
    if i < left && !window_free(s, i, i + size) {
        lemma_first_fit_props(s, size, left, i + 1);
    }
}

fn opt_eq(a: Option<u32>, b: Option<u32>) -> (r: bool)
    ensures
        r == (a == b),
{
    match (a, b) {
        (Some(x), Some(y)) => x == y,
        (None, None) => true,
        _ => false,
    }
}

/// Compacts whole files: highest file position first, each file run moves to
/// the first gap run before it that can hold it.
pub fn defrag_files(blocks: &mut Vec<Option<u32>>)
    requires
        old(blocks)@.len() >= 1,
    ensures
        final(blocks)@ == spec_dfiles(old(blocks)@, old(blocks)@.len() - 1),
{
    let ghost goal = spec_dfiles(old(blocks)@, old(blocks)@.len() - 1);
    let n: usize = blocks.len();
    let mut right: usize = n - 1;
    while right > 0
        invariant
            right < n,
            n == blocks@.len(),
            spec_dfiles(blocks@, right as int) == goal,
        ensures
            n == blocks@.len(),
            spec_dfiles(blocks@, 0int) == goal,
        decreases right,
    {
        let cur = blocks[right];
        match cur {
            None => {
                right -= 1;
            },
            Some(_) => {
                let ghost s = blocks@;
                // find the start of this file's run
                let mut l: usize = right;
                loop
                    invariant
                        l <= right < n,
                        n == blocks@.len(),
                        blocks@ == s,
                        scan_left(s, right as int, s[right as int]) == scan_left(
                            s,
                            l as int,
                            s[right as int],
                        ),
                    ensures
                        blocks@ == s,
                        scan_left(s, right as int, s[right as int]) == l,
                        l <= right,
                    decreases l,
                {
                    if l == 0 {
                        proof {
                            assert(scan_left(s, 0, s[right as int]) == 0);
                        }
                        break ;
                    }
                    let a = blocks[l];
                    let b = blocks[right];
                    if !opt_eq(a, b) {
                        proof {
                            assert(scan_left(s, l as int, s[right as int]) == l);
                        }
                        break ;
                    }
                    l -= 1;
                }
                let left = l + 1;
                if left > right {
                    proof {
                        assert(spec_dfiles(blocks@, right as int) == blocks@);
                        assert(goal == blocks@);
                        assert(spec_dfiles(blocks@, 0) == blocks@);
                    }
                    right = 0;
                    break ;
                }
                let size = right - left + 1;
                // find the first gap run that fits
                let mut found: Option<usize> = None;
                let mut i: usize = 0;
                loop
                    invariant_except_break
                        found is None,
                        first_fit(s, size as int, left as int, 0) == first_fit(
                            s,
                            size as int,
                            left as int,
                            i as int,
                        ),
                    invariant
                        i <= left,
                        left <= right < n,
                        size == right - left + 1,
                        n == blocks@.len(),
                        blocks@ == s,
                    ensures
                        blocks@ == s,
                        match found {
                            Some(f) => first_fit(s, size as int, left as int, 0) == Some(
                                f as int,
                            ),
                            None => first_fit(s, size as int, left as int, 0) is None,
                        },
                    decreases left - i,
                {
                    if i >= left {
                        break ;
                    }
                    // is the window at i free?
                    let mut free = true;
                    let mut w: usize = 0;
                    while w < size
                        invariant
                            w <= size,
                            i + size <= right + 1 <= n,
                            n == blocks@.len(),
                            blocks@ == s,
                            free == (forall|k: int|
                                i <= k < i + w ==> 0 <= k < s.len() && s[k] is None),
                        decreases size - w,
                    {
                        let b = blocks[i + w];
                        if b.is_some() {
                            proof {
                                assert(s[i as int + w] is Some);
                            }
                            free = false;
                        }
                        proof {
                            if free {
                                assert forall|k: int| i <= k < i + w + 1 implies 0 <= k < s.len()
                                    && s[k] is None by {}
                            } else {
                                assert(!(forall|k: int|
                                    i <= k < i + w + 1 ==> 0 <= k < s.len() && s[k] is None))
                                    by {
                                    let bad = choose|k: int|
                                        i <= k < i + w && !(0 <= k < s.len() && s[k] is None);
                                    if w > 0 && !(forall|k: int|
                                        i <= k < i + w ==> 0 <= k < s.len() && s[k] is None) {
                                        assert(i <= bad < i + w + 1 && !(0 <= bad < s.len()
                                            && s[bad] is None));
                                    } else {
                                        assert(s[i as int + w] is Some);
                                    }
                                }
                            }
                        }
                        w += 1;
                    }
                    if free {
                        proof {
                            assert(window_free(s, i as int, i as int + size));
                            assert(first_fit(s, size as int, left as int, i as int) == Some(
                                i as int,
                            ));
                        }
                        found = Some(i);
                        break ;
                    }
                    proof {
                        assert(!window_free(s, i as int, i as int + size)) by {
                            let bad = choose|k: int|
                                i <= k < i + size && !(0 <= k < s.len() && s[k] is None);
                            assert(i <= bad < i + size && !(0 <= bad < s.len() && s[bad] is None));
                        }
                    }
                    i += 1;
                }
                match found {
                    Some(f) => {
                        proof {
                            lemma_first_fit_props(s, size as int, left as int, 0);
                        }
                        // move the file into the gap run
                        let mut k: usize = f;
                        while k < f + size
                            invariant
                                f <= k <= f + size,
                                f + size <= right + 1 <= n,
                                n == blocks@.len(),
                                blocks@ == region_set(s, f as int, k as int, s[right as int]),
                            decreases f + size - k,
                        {
                            let v = blocks[right];
                            proof {
                                assert(region_set(s, f as int, k as int, s[right as int])[
                                    right as int] == s[right as int]) by {
                                    assert(f + size <= right || k <= right);
                                }
                            }
                            blocks[k] = v;
                            proof {
                                assert(blocks@ =~= region_set(
                                    s,
                                    f as int,
                                    k as int + 1,
                                    s[right as int],
                                ));
                            }
                            k += 1;
                        }
                        let ghost mid = blocks@;
                        let mut c: usize = left;
                        while c < right + 1
                            invariant
                                left <= c <= right + 1 <= n,
                                n == blocks@.len(),
                                blocks@ == region_set(mid, left as int, c as int, None),
                            decreases right + 1 - c,
                        {
                            blocks[c] = None;
                            proof {
                                assert(blocks@ =~= region_set(
                                    mid,
                                    left as int,
                                    c as int + 1,
                                    None,
                                ));
                            }
                            c += 1;
                        }
                        proof {
                            assert(blocks@ =~= region_set(
                                region_set(s, f as int, f as int + size, s[right as int]),
                                left as int,
                                right as int + 1,
                                None,
                            ));
                            assert(spec_dfiles(blocks@, left as int - 1) == goal);
                        }
                        right = left - 1;
                    },
                    None => {
                        proof {
                            assert(spec_dfiles(blocks@, left as int - 1) == goal);
                        }
                        right = left - 1;
                    },
                }
            },
        }
    }
    proof {
        assert(spec_dfiles(blocks@, 0) == blocks@);
    }
}

/// The inputs the second pass accepts.
pub open spec fn part_2_ok(input: Seq<char>) -> bool {
    let blocks = spec_blocks(spec_digits(input), spec_digits(input).len() as int);
    let moved = spec_dfiles(blocks, blocks.len() - 1);
    &&& spec_digits(input).len() <= u32::MAX
    &&& blocks.len() >= 1
    &&& spec_checksum(moved, moved.len() as int) <= u64::MAX
}

/// The checksum after compacting whole files.
pub fn part_2(input: &str) -> (r: Option<u64>)
    requires
        part_2_ok(input@),
    ensures
        ({
            let blocks = spec_blocks(spec_digits(input@), spec_digits(input@).len() as int);
            let moved = spec_dfiles(blocks, blocks.len() - 1);
            r == Some(spec_checksum(moved, moved.len() as int) as u64)
        }),
{
    let nums = parse_digits(input);
    let mut blocks = construct_blocks(nums.as_slice());
    defrag_files(&mut blocks);
    let result = checksum(blocks.as_slice());
    Some(result)
}

} // verus!
