//! Location lists: two columns of numbers.  The first answer pairs the
//! columns in sorted order and sums the absolute differences; the second sums
//! each left value times how often it appears on the right.

use vstd::prelude::*;
use crate::parsing;
use vstd::multiset::Multiset;

verus! {

broadcast use vstd::seq_lib::group_to_multiset_ensures;

/// The ordering the columns are sorted by.
pub open spec fn i32_leq() -> spec_fn(i32, i32) -> bool {
    |x: i32, y: i32| x <= y
}

pub proof fn lemma_i32_leq_total()
    ensures
        vstd::relations::total_ordering(i32_leq()),
{
    let leq = i32_leq();
    assert forall|x: i32| #[trigger] leq(x, x) by {}
}

/// The values in column `k`, over the first `n` lines that have one there.
pub open spec fn col_vals(lines: Seq<Seq<char>>, k: int, n: int) -> Seq<i32>
    decreases n,
{
    if n <= 0 {
        Seq::empty()
    } else {
        col_vals(lines, k, n - 1) + if parsing::spec_tokens(lines[n - 1]).len() > k {
            seq![parsing::line_i32_values(lines[n - 1])[k]]
        } else {
            Seq::empty()
        }
    }
}

/// The sum of absolute pairwise differences over the first `n` pairs.
pub open spec fn abs_diff_sum(a: Seq<i32>, b: Seq<i32>, n: int) -> int
    decreases n,
{
    if n <= 0 {
        0
    } else {
        abs_diff_sum(a, b, n - 1) + if a[n - 1] >= b[n - 1] {
            a[n - 1] - b[n - 1]
        } else {
            b[n - 1] - a[n - 1]
        }
    }
}

/// How often `v` occurs in `b`.
pub open spec fn count_in(b: Seq<i32>, v: i32) -> int
    decreases b.len(),
{
    if b.len() == 0 {
        0
    } else {
        count_in(b.drop_last(), v) + if b.last() == v {
            1int
        } else {
            0int
        }
    }
}

/// The similarity score over the first `n` left values.
pub open spec fn sim_score(a: Seq<i32>, b: Seq<i32>, n: int) -> int
    decreases n,
{
    if n <= 0 {
        0
    } else {
        sim_score(a, b, n - 1) + a[n - 1] * count_in(b, a[n - 1])
    }
}

/// The count each value carries in a frequency table.
pub open spec fn fcount(m: Seq<(i32, i32)>, v: i32) -> int
    decreases m.len(),
{
    if m.len() == 0 {
        0
    } else {
        (if m.last().0 == v {
            m.last().1 as int
        } else {
            0int
        }) + fcount(m.drop_last(), v)
    }
}

/// A frequency table of values, one entry per distinct value.
pub struct FreqMap {
    pub entries: Vec<(i32, i32)>,
}

impl FreqMap {
    pub open spec fn wf(&self) -> bool {
        &&& forall|i: int, j: int|
            0 <= i < j < self.entries@.len() ==> (#[trigger] self.entries@[i]).0 != (
            #[trigger] self.entries@[j]).0
        &&& forall|i: int| 0 <= i < self.entries@.len() ==> (#[trigger] self.entries@[i]).1 >= 1
    }

    pub fn new() -> (r: FreqMap)
        ensures
            r.wf(),
            forall|v: i32| fcount(r.entries@, v) == 0,
    {
        let r = FreqMap { entries: Vec::new() };
        r
    }

    /// The count stored for `v`, zero when absent.
    pub fn get(&self, v: i32) -> (r: i32)
        requires
            self.wf(),
        ensures
            r == fcount(self.entries@, v),
    {
        let ghost m = self.entries@;
        let n: usize = self.entries.len();
        let mut i: usize = 0;
        while i < n
            invariant
                i <= n,
                n == m.len(),
                m == self.entries@,
                self.wf(),
                forall|t: int| 0 <= t < i ==> (#[trigger] m[t]).0 != v,
            decreases n - i,
        {
            let e = self.entries[i];
            if e.0 == v {
                proof {
                    lemma_fcount_at(m, i as int, v);
                }
                return e.1;
            }
            i += 1;
        }
        proof {
            lemma_fcount_absent(m, v);
        }
        0
    }

    /// Raises the count of `v` by one: the first entry with that value grows,
    /// or a new entry is appended.
    pub fn bump(&mut self, v: i32)
        requires
            old(self).wf(),
            fcount(old(self).entries@, v) < i32::MAX,
        ensures
            final(self).wf(),
            final(self).entries@ == fbump(old(self).entries@, v),
    {
        let ghost m = self.entries@;
        proof {
            assert(m.subrange(0, 0) =~= Seq::<(i32, i32)>::empty());
            assert(m.subrange(0, m.len() as int) =~= m);
        }
        let n: usize = self.entries.len();
        let mut i: usize = 0;
        while i < n
            invariant
                i <= n,
                n == m.len(),
                self.entries@ == old(self).entries@,
                m == self.entries@,
                self.wf(),
                fcount(m, v) < i32::MAX,
                forall|t: int| 0 <= t < i ==> (#[trigger] m[t]).0 != v,
                fbump(m, v) == m.subrange(0, i as int) + fbump(
                    m.subrange(i as int, n as int),
                    v,
                ),
            decreases n - i,
        {
            let e = self.entries[i];
            if e.0 == v {
                proof {
                    lemma_fcount_at(m, i as int, v);
                    let suf = m.subrange(i as int, n as int);
                    assert(suf.first() == m[i as int]);
                    assert(suf.drop_first() =~= m.subrange(i as int + 1, n as int));
                    assert(fbump(suf, v) == seq![(v, (m[i as int].1 + 1) as i32)] + m.subrange(
                        i as int + 1,
                        n as int,
                    ));
                }
                let c2: i32 = e.1 + 1;
                self.entries[i] = (v, c2);
                proof {
                    assert(self.entries@ =~= m.subrange(0, i as int) + (seq![(v, c2)] + m.subrange(
                        i as int + 1,
                        n as int,
                    )));
                    assert(self.entries@ =~= fbump(m, v));
                    assert(final(self).wf()) by {
                        assert forall|a: int, b: int|
                            0 <= a < b < self.entries@.len() implies (
                        #[trigger] self.entries@[a]).0 != (#[trigger] self.entries@[b]).0 by {
                            assert(m[a].0 == self.entries@[a].0 || a == i);
                            assert(m[b].0 == self.entries@[b].0 || b == i);
                        }
                    }
                }
                return ;
            }
            proof {
                let suf = m.subrange(i as int, n as int);
                assert(suf.first() == m[i as int]);
                assert(suf.drop_first() =~= m.subrange(i as int + 1, n as int));
                assert(m.subrange(0, i as int) + (seq![m[i as int]] + fbump(
                    m.subrange(i as int + 1, n as int),
                    v,
                )) =~= m.subrange(0, i as int + 1) + fbump(m.subrange(i as int + 1, n as int), v));
            }
            i += 1;
        }
        proof {
            assert(m.subrange(n as int, n as int) =~= Seq::<(i32, i32)>::empty());
        }
        self.entries.push((v, 1));
        proof {
            assert(self.entries@ =~= m.subrange(0, n as int) + seq![(v, 1i32)]);
        }
    }
}

/// Raising the count of `v`: the first entry with that value grows by one, or
/// a new entry is appended.
pub open spec fn fbump(m: Seq<(i32, i32)>, v: i32) -> Seq<(i32, i32)>
    decreases m.len(),
{
    if m.len() == 0 {
        seq![(v, 1i32)]
    } else if m.first().0 == v {
        seq![(v, (m.first().1 + 1) as i32)] + m.drop_first()
    } else {
        seq![m.first()] + fbump(m.drop_first(), v)
    }
}

/// What a bump does to every value's count.
pub proof fn lemma_fbump_count(m: Seq<(i32, i32)>, v: i32, w: i32)
    requires
        fcount(m, v) < i32::MAX,
        forall|i: int| 0 <= i < m.len() ==> (#[trigger] m[i]).1 >= 1,
        forall|a: int, b: int| 0 <= a < b < m.len() ==> (#[trigger] m[a]).0 != (#[trigger] m[b]).0,
    ensures
        fcount(fbump(m, v), w) == fcount(m, w) + (if w == v {
            1int
        } else {
            0int
        }),
    decreases m.len(),
{
    let r = fbump(m, v);
    if m.len() == 0 {
        assert(seq![(v, 1i32)].drop_last() =~= Seq::<(i32, i32)>::empty());
        assert(fcount(Seq::<(i32, i32)>::empty(), w) == 0);
    } else if m.first().0 == v {
        lemma_fcount_at(m, 0, v);
        assert(m.first().1 + 1 <= i32::MAX);
        lemma_fcount_head(m, w);
        lemma_fcount_head(r, w);
        assert(r.drop_first() =~= m.drop_first());
    } else {
        assert forall|a: int, b: int|
            0 <= a < b < m.drop_first().len() implies (#[trigger] m.drop_first()[a]).0 != (
        #[trigger] m.drop_first()[b]).0 by {
            assert(m.drop_first()[a] == m[a + 1]);
            assert(m.drop_first()[b] == m[b + 1]);
        }
        lemma_fcount_head(m, v);
        lemma_fbump_count(m.drop_first(), v, w);
        lemma_fcount_head(m, w);
        lemma_fcount_head(r, w);
        assert(r.drop_first() =~= fbump(m.drop_first(), v));
    }
}

/// Counts peel from the front as well as the back.
proof fn lemma_fcount_head(m: Seq<(i32, i32)>, w: i32)
    requires
        m.len() > 0,
    ensures
        fcount(m, w) == (if m.first().0 == w {
            m.first().1 as int
        } else {
            0int
        }) + fcount(m.drop_first(), w),
    decreases m.len(),
{
    if m.len() == 1 {
        assert(m.drop_first() =~= Seq::<(i32, i32)>::empty());
        assert(m.drop_last() =~= Seq::<(i32, i32)>::empty());
    } else {
        lemma_fcount_head(m.drop_last(), w);
        assert(m.drop_last().drop_first() =~= m.drop_first().drop_last());
        assert(m.drop_last().first() == m.first());
        assert(m.drop_first().last() == m.last());
    }
}

/// The count of `v` can be read off its entry when keys are unique.
proof fn lemma_fcount_at(m: Seq<(i32, i32)>, i: int, v: i32)
    requires
        0 <= i < m.len(),
        m[i].0 == v,
        forall|a: int, b: int| 0 <= a < b < m.len() ==> (#[trigger] m[a]).0 != (#[trigger] m[b]).0,
    ensures
        fcount(m, v) == m[i].1,
    decreases m.len(),
{
    if i == m.len() - 1 {
        lemma_fcount_absent(m.drop_last(), v);
    } else {
        lemma_fcount_at(m.drop_last(), i, v);
    }
}

proof fn lemma_fcount_absent(m: Seq<(i32, i32)>, v: i32)
    requires
        forall|t: int| 0 <= t < m.len() ==> (#[trigger] m[t]).0 != v,
    ensures
        fcount(m, v) == 0,
    decreases m.len(),
{
    if m.len() > 0 {
        lemma_fcount_absent(m.drop_last(), v);
    }
}

proof fn lemma_fcount_update(m: Seq<(i32, i32)>, i: int, v: i32, c2: i32, w: i32)
    requires
        0 <= i < m.len(),
        m[i].0 == v,
        c2 == m[i].1 + 1,
    ensures
        fcount(m.update(i, (v, c2)), w) == fcount(m, w) + (if m[i].0 == w {
            1int
        } else {
            0int
        }),
    decreases m.len(),
{
    let m2 = m.update(i, (v, c2));
    if i == m.len() - 1 {
        assert(m2.drop_last() =~= m.drop_last());
    } else {
        assert(m2.drop_last() =~= m.drop_last().update(i, (v, c2)));
        lemma_fcount_update(m.drop_last(), i, v, c2, w);
    }
}

/// One input column: either the plain list of its values, or their
/// frequency table.
pub enum ColumnType {
    ListInts(Vec<i32>),
    FrequencyMapInts(FreqMap),
}

impl ColumnType {
    pub open spec fn wf(&self) -> bool {
        match self {
            ColumnType::ListInts(_) => true,
            ColumnType::FrequencyMapInts(m) => m.wf(),
        }
    }

    /// Adds one value: appended to a list column, counted in a frequency
    /// column.
    pub fn insert(&mut self, num: i32)
        requires
            old(self).wf(),
            (*old(self)) is FrequencyMapInts ==> fcount((*old(self))->FrequencyMapInts_0.entries@, num)
                < i32::MAX,
        ensures
            final(self).wf(),
            (*old(self)) is ListInts ==> (*final(self)) is ListInts && (*final(self))->ListInts_0@ == old(
                self,
            )->ListInts_0@ + seq![num],
            (*old(self)) is FrequencyMapInts ==> (*final(self)) is FrequencyMapInts
                && (*final(self))->FrequencyMapInts_0.entries@ == fbump(
                (*old(self))->FrequencyMapInts_0.entries@,
                num,
            ),
    {
        match self {
            ColumnType::ListInts(l) => {
                l.push(num);
            },
            ColumnType::FrequencyMapInts(freq_map) => {
                freq_map.bump(num);
            },
        }
    }

    /// The values of a list column.
    pub fn as_slice(&self) -> (r: &[i32])
        requires
            self is ListInts,
        ensures
            r@ == self->ListInts_0@,
    {
        match self {
            ColumnType::ListInts(l) => l.as_slice(),
            ColumnType::FrequencyMapInts(_) => {
                proof {
                    assert(false);
                }
                vstd::pervasive::unreached()
            },
        }
    }

    /// Sorts a list column in place.
    pub fn sort(&mut self)
        requires
            (*old(self)) is ListInts,
        ensures
            (*final(self)) is ListInts,
            (*final(self))->ListInts_0@ == (*old(self))->ListInts_0@.sort_by(i32_leq()),
    {
        match self {
            ColumnType::ListInts(l) => {
                let sorted = sorted_copy(l);
                *l = sorted;
            },
            ColumnType::FrequencyMapInts(_) => {
                proof {
                    assert(false);
                }
            },
        }
    }

    /// The table of a frequency column.
    pub fn as_freq_map(&self) -> (r: &FreqMap)
        requires
            self is FrequencyMapInts,
        ensures
            *r == self->FrequencyMapInts_0,
    {
        match self {
            ColumnType::FrequencyMapInts(freq_map) => freq_map,
            ColumnType::ListInts(_) => {
                proof {
                    assert(false);
                }
                vstd::pervasive::unreached()
            },
        }
    }
}

/// What a column holds after the input's values have been fed to it, line
/// by line: list columns grow by their column of values, frequency columns
/// count them.
pub open spec fn column_fed(old_c: ColumnType, new_c: ColumnType, vals: Seq<i32>) -> bool {
    match old_c {
        ColumnType::ListInts(l) => new_c is ListInts && new_c->ListInts_0@ == l@ + vals,
        ColumnType::FrequencyMapInts(fm) => new_c is FrequencyMapInts && forall|w: i32|
            fcount(new_c->FrequencyMapInts_0.entries@, w) == fcount(fm.entries@, w) + count_in(
                vals,
                w,
            ),
    }
}

/// Prefixes of a column never hold more copies of a value than the whole.
proof fn lemma_count_in_col_mono(lines: Seq<Seq<char>>, k: int, a: int, b: int, w: i32)
    requires
        a <= b,
    ensures
        count_in(col_vals(lines, k, a), w) <= count_in(col_vals(lines, k, b), w),
        count_in(col_vals(lines, k, a), w) >= 0,
    decreases b - a + (if a >= 0 {
        0int
    } else {
        0int
    }), b - a,
{
    if a < b {
        lemma_count_in_col_mono(lines, k, a, b - 1, w);
        if b > 0 && parsing::spec_tokens(lines[b - 1]).len() > k {
            assert(col_vals(lines, k, b).drop_last() =~= col_vals(lines, k, b - 1));
        }
    } else {
        lemma_count_in_nonneg(col_vals(lines, k, a), w);
    }
}

proof fn lemma_count_in_nonneg(s: Seq<i32>, w: i32)
    ensures
        count_in(s, w) >= 0,
    decreases s.len(),
{
    if s.len() > 0 {
        lemma_count_in_nonneg(s.drop_last(), w);
    }
}

/// Feeds every line of values into the columns: the value in position `k`
/// of a line goes to column `k`.  No line may have more values than there
/// are columns, and a frequency column's counts must stay within `i32`.
pub fn read_into_columns(input: &str, columns: &mut Vec<ColumnType>)
    requires
        forall|l: int|
            0 <= l < parsing::spec_lines(input@).len() ==> parsing::line_all_i32(
                #[trigger] parsing::spec_lines(input@)[l],
            ),
        forall|l: int|
            0 <= l < parsing::spec_lines(input@).len() ==> parsing::spec_tokens(
                #[trigger] parsing::spec_lines(input@)[l],
            ).len() <= old(columns)@.len(),
        forall|k: int| 0 <= k < old(columns)@.len() ==> (#[trigger] old(columns)@[k]).wf(),
        forall|k: int, w: i32|
            0 <= k < old(columns)@.len() && (#[trigger] old(columns)@[k]) is FrequencyMapInts
                ==> fcount(old(columns)@[k]->FrequencyMapInts_0.entries@, w) + #[trigger] count_in(
                col_vals(
                    parsing::spec_lines(input@),
                    k,
                    parsing::spec_lines(input@).len() as int,
                ),
                w,
            ) <= i32::MAX,
    ensures
        final(columns)@.len() == old(columns)@.len(),
        forall|k: int| 0 <= k < final(columns)@.len() ==> (#[trigger] final(columns)@[k]).wf(),
        forall|k: int|
            0 <= k < final(columns)@.len() ==> column_fed(
                old(columns)@[k],
                #[trigger] final(columns)@[k],
                col_vals(
                    parsing::spec_lines(input@),
                    k,
                    parsing::spec_lines(input@).len() as int,
                ),
            ),
{
    let ghost glines = parsing::spec_lines(input@);
    let ghost cols0 = columns@;
    let cs = parsing::chars_of(input);
    let lines = parsing::split_lines(cs.as_slice());
    let n: usize = lines.len();
    let mut i: usize = 0;
    while i < n
        invariant
            i <= n,
            n == glines.len(),
            lines@.len() == glines.len(),
            glines == parsing::spec_lines(input@),
            cols0 == old(columns)@,
            forall|l: int| 0 <= l < n ==> lines@[l]@ == glines[l],
            forall|l: int| 0 <= l < n ==> parsing::line_all_i32(#[trigger] glines[l]),
            forall|l: int|
                0 <= l < n ==> parsing::spec_tokens(#[trigger] glines[l]).len() <= cols0.len(),
            forall|k: int, w: i32|
                0 <= k < cols0.len() && (#[trigger] cols0[k]) is FrequencyMapInts ==> fcount(
                    cols0[k]->FrequencyMapInts_0.entries@,
                    w,
                ) + #[trigger] count_in(col_vals(glines, k, n as int), w) <= i32::MAX,
            columns@.len() == cols0.len(),
            forall|k: int| 0 <= k < cols0.len() ==> (#[trigger] columns@[k]).wf(),
            forall|k: int|
                0 <= k < cols0.len() ==> column_fed(
                    cols0[k],
                    #[trigger] columns@[k],
                    col_vals(glines, k, i as int),
                ),
        decreases n - i,
    {
        proof {
            assert(lines@[i as int]@ == glines[i as int]);
            assert(parsing::line_all_i32(glines[i as int]));
        }
        let vals: Vec<i32> = match parsing::parse_i32_line(lines[i].as_slice()) {
            Some(v) => v,
            None => {
                proof {
                    assert(false);
                }
                vstd::pervasive::unreached()
            },
        };
        let tn: usize = vals.len();
        proof {
            assert(parsing::spec_tokens(glines[i as int]).len() <= cols0.len());
        }
        let mut t: usize = 0;
        while t < tn
            invariant
                t <= tn,
                i < n,
                n == glines.len(),
                glines == parsing::spec_lines(input@),
                cols0 == old(columns)@,
                vals@ == parsing::line_i32_values(glines[i as int]),
                tn == vals@.len(),
                tn == parsing::spec_tokens(glines[i as int]).len(),
                tn <= cols0.len(),
                forall|k: int, w: i32|
                    0 <= k < cols0.len() && (#[trigger] cols0[k]) is FrequencyMapInts ==> fcount(
                        cols0[k]->FrequencyMapInts_0.entries@,
                        w,
                    ) + #[trigger] count_in(col_vals(glines, k, n as int), w) <= i32::MAX,
                columns@.len() == cols0.len(),
                forall|k: int| 0 <= k < cols0.len() ==> (#[trigger] columns@[k]).wf(),
                forall|k: int|
                    0 <= k < cols0.len() ==> column_fed(
                        cols0[k],
                        #[trigger] columns@[k],
                        col_vals(glines, k, i as int + (if k < t {
                            1int
                        } else {
                            0int
                        })),
                    ),
            decreases tn - t,
    {
            let num = vals[t];
            let ghost colk = columns@[t as int];
            let ghost before = col_vals(glines, t as int, i as int);
            let ghost after = col_vals(glines, t as int, i as int + 1);
            proof {
                assert(parsing::spec_tokens(glines[i as int]).len() > t as int);
                assert(after =~= before + seq![
                    parsing::line_i32_values(glines[i as int])[t as int],
                ]);
                assert(after.drop_last() =~= before);
                assert(column_fed(cols0[t as int], colk, before));
                if cols0[t as int] is FrequencyMapInts {
                    lemma_count_in_col_mono(glines, t as int, i as int + 1, n as int, num);
                    lemma_count_in_nonneg(before, num);
                    assert(count_in(after, num) == count_in(before, num) + 1);
                }
            }
            columns[t].insert(num);
            proof {
                assert forall|k: int| 0 <= k < cols0.len() implies column_fed(
                    cols0[k],
                    #[trigger] columns@[k],
                    col_vals(glines, k, i as int + (if k < t + 1 {
                        1int
                    } else {
                        0int
                    })),
                ) by {
                    if k == t as int {
                        if cols0[k] is FrequencyMapInts {
                            assert forall|w: i32|
                                fcount(columns@[k]->FrequencyMapInts_0.entries@, w) == fcount(
                                    cols0[k]->FrequencyMapInts_0.entries@,
                                    w,
                                ) + count_in(after, w) by {
                                lemma_fbump_count(
                                    colk->FrequencyMapInts_0.entries@,
                                    num,
                                    w,
                                );
                                assert(count_in(after, w) == count_in(before, w) + (if w == num {
                                    1int
                                } else {
                                    0int
                                }));
                            }
                        } else {
                            assert(columns@[k]->ListInts_0@ =~= cols0[k]->ListInts_0@ + after);
                        }
                    }
                }
            }
            t += 1;
        }
        proof {
            assert forall|k: int| 0 <= k < cols0.len() implies column_fed(
                cols0[k],
                #[trigger] columns@[k],
                col_vals(glines, k, i as int + 1),
            ) by {
                if k >= tn {
                    assert(col_vals(glines, k, i as int + 1) =~= col_vals(glines, k, i as int));
                }
            }
        }
        i += 1;
    }
}

/// Reads one line of whitespace-separated decimal values.
pub fn read_ints_from_str(input: &str) -> (r: Vec<i32>)
    requires
        parsing::line_all_i32(input@),
    ensures
        r@ == parsing::line_i32_values(input@),
{
    let cs = parsing::chars_of(input);
    match parsing::parse_i32_line(cs.as_slice()) {
        Some(v) => v,
        None => {
            proof {
                assert(false);
            }
            vstd::pervasive::unreached()
        },
    }
}

/// A sorted copy of `v`, in the canonical order of `Seq::sort_by`.
pub fn sorted_copy(v: &Vec<i32>) -> (r: Vec<i32>)
    ensures
        r@ == v@.sort_by(i32_leq()),
{
    let mut rest: Vec<i32> = Vec::new();
    let n: usize = v.len();
    let mut i: usize = 0;
    while i < n
        invariant
            i <= n,
            n == v@.len(),
            rest@ == v@.subrange(0, i as int),
        decreases n - i,
    {
        let x = v[i];
        rest.push(x);
        proof {
            assert(rest@ =~= v@.subrange(0, i as int + 1));
        }
        i += 1;
    }
    proof {
        assert(rest@ =~= v@);
    }
    let mut out: Vec<i32> = Vec::new();
    while rest.len() > 0
        invariant
            out@.to_multiset().add(rest@.to_multiset()) =~= v@.to_multiset(),
            vstd::relations::sorted_by(out@, i32_leq()),
            forall|x: int, y: int|
                0 <= x < out@.len() && 0 <= y < rest@.len() ==> #[trigger] out@[x]
                    <= #[trigger] rest@[y],
        decreases rest@.len(),
    {
        let m: usize = rest.len();
        let mut best: usize = 0;
        let mut t: usize = 1;
        while t < m
            invariant
                best < t <= m,
                m == rest@.len(),
                forall|u: int| 0 <= u < t ==> rest@[best as int] <= #[trigger] rest@[u],
            decreases m - t,
        {
            if rest[t] < rest[best] {
                best = t;
            }
            t += 1;
        }
        let ghost old_out = out@;
        let ghost old_rest = rest@;
        let x = rest.remove(best);
        out.push(x);
        proof {
            assert(old_rest[best as int] == x);
            assert(old_rest.contains(x));
            assert(old_rest.to_multiset().count(x) > 0);
            assert(out@ == old_out.push(x));
            assert(rest@ == old_rest.remove(best as int));
            assert(out@.to_multiset() =~= old_out.to_multiset().insert(x));
            assert(rest@.to_multiset() =~= old_rest.to_multiset().remove(x));
            assert(out@.to_multiset().add(rest@.to_multiset()) =~= v@.to_multiset());
            assert(vstd::relations::sorted_by(out@, i32_leq())) by {
                assert forall|p: int, q: int| 0 <= p < q < out@.len() implies i32_leq()(
                    out@[p],
                    out@[q],
                ) by {
                    if q == out@.len() - 1 {
                        assert(out@[p] == old_out[p]);
                        assert(out@[q] == x);
                    }
                }
            }
            assert forall|p: int, y: int|
                0 <= p < out@.len() && 0 <= y < rest@.len() implies #[trigger] out@[p]
                <= #[trigger] rest@[y] by {
                if y < best {
                    assert(rest@[y] == old_rest[y]);
                } else {
                    assert(rest@[y] == old_rest[y + 1]);
                }
                if p < out@.len() - 1 {
                    assert(out@[p] == old_out[p]);
                } else {
                    assert(out@[p] == x);
                }
            }
        }
    }
    proof {
        assert(rest@.to_multiset() =~= Multiset::<i32>::empty());
        assert(out@.to_multiset() =~= v@.to_multiset());
        lemma_i32_leq_total();
        v@.lemma_sort_by_ensures(i32_leq());
        vstd::seq_lib::lemma_sorted_unique(out@, v@.sort_by(i32_leq()), i32_leq());
    }
    out
}

/// A value occurs at most once per element.
pub proof fn lemma_count_in_le(b: Seq<i32>, v: i32)
    ensures
        0 <= count_in(b, v) <= b.len(),
    decreases b.len(),
{
    if b.len() > 0 {
        lemma_count_in_le(b.drop_last(), v);
    }
}

/// How often `v` occurs in `b`.
pub fn count_occurrences(b: &Vec<i32>, v: i32) -> (r: usize)
    ensures
        r == count_in(b@, v),
{
    let n: usize = b.len();
    let mut c: usize = 0;
    let mut i: usize = 0;
    while i < n
        invariant
            i <= n,
            n == b@.len(),
            c == count_in(b@.subrange(0, i as int), v),
            c <= i,
        decreases n - i,
    {
        proof {
            assert(b@.subrange(0, i as int + 1).drop_last() =~= b@.subrange(0, i as int));
        }
        if b[i] == v {
            c += 1;
        }
        i += 1;
    }
    proof {
        assert(b@.subrange(0, n as int) =~= b@);
    }
    c
}

/// Splits the input into its two columns of values.
fn read_columns(input: &str) -> (r: (Vec<i32>, Vec<i32>))
    requires
        forall|l: int|
            0 <= l < parsing::spec_lines(input@).len() ==> parsing::line_all_i32(
                #[trigger] parsing::spec_lines(input@)[l],
            ),
    ensures
        ({
            let lines = parsing::spec_lines(input@);
            &&& r.0@ == col_vals(lines, 0, lines.len() as int)
            &&& r.1@ == col_vals(lines, 1, lines.len() as int)
        }),
{
    let ghost glines = parsing::spec_lines(input@);
    let cs = parsing::chars_of(input);
    let lines = parsing::split_lines(cs.as_slice());
    let n: usize = lines.len();
    let mut a: Vec<i32> = Vec::new();
    let mut b: Vec<i32> = Vec::new();
    let mut i: usize = 0;
    while i < n
        invariant
            i <= n,
            n == lines@.len(),
            glines == parsing::spec_lines(input@),
            lines@.len() == glines.len(),
            forall|l: int| 0 <= l < n ==> lines@[l]@ == glines[l],
            forall|l: int|
                0 <= l < n ==> parsing::line_all_i32(#[trigger] parsing::spec_lines(input@)[l]),
            a@ == col_vals(glines, 0, i as int),
            b@ == col_vals(glines, 1, i as int),
        decreases n - i,
    {
        proof {
            assert(lines@[i as int]@ == glines[i as int]);
            assert(parsing::line_all_i32(parsing::spec_lines(input@)[i as int]));
        }
        let vals: Vec<i32> = match parsing::parse_i32_line(lines[i].as_slice()) {
            Some(v) => v,
            None => {
                proof {
                    assert(false);
                }
                vstd::pervasive::unreached()
            },
        };
        if vals.len() > 0 {
            let x = vals[0];
            a.push(x);
            proof {
                assert(a@ =~= col_vals(glines, 0, i as int + 1));
            }
        } else {
            proof {
                assert(a@ =~= col_vals(glines, 0, i as int + 1));
            }
        }
        if vals.len() > 1 {
            let y = vals[1];
            b.push(y);
            proof {
                assert(b@ =~= col_vals(glines, 1, i as int + 1));
            }
        } else {
            proof {
                assert(b@ =~= col_vals(glines, 1, i as int + 1));
            }
        }
        i += 1;
    }
    (a, b)
}

/// The inputs `problem_1_part_1` accepts: decimal columns whose paired
/// differences and their running total stay within `i32`.
pub open spec fn part_1_ok(input: Seq<char>) -> bool {
    let lines = parsing::spec_lines(input);
    let sa = col_vals(lines, 0, lines.len() as int).sort_by(i32_leq());
    let sb = col_vals(lines, 1, lines.len() as int).sort_by(i32_leq());
    let m = if sa.len() <= sb.len() {
        sa.len() as int
    } else {
        sb.len() as int
    };
    &&& forall|l: int|
        0 <= l < lines.len() ==> parsing::line_all_i32(#[trigger] lines[l])
    &&& forall|i: int| 0 <= i < m ==> i32::MIN <= #[trigger] (sa[i] - sb[i]) <= i32::MAX
    &&& abs_diff_sum(sa, sb, m) <= i32::MAX
}

/// Sum of pairwise distances of the two columns in sorted order.
pub fn problem_1_part_1(input: &str) -> (r: i32)
    requires
        part_1_ok(input@),
    ensures
        ({
            let lines = parsing::spec_lines(input@);
            let sa = col_vals(lines, 0, lines.len() as int).sort_by(i32_leq());
            let sb = col_vals(lines, 1, lines.len() as int).sort_by(i32_leq());
            let m = if sa.len() <= sb.len() {
                sa.len() as int
            } else {
                sb.len() as int
            };
            r == abs_diff_sum(sa, sb, m)
        }),
{
    let ghost lines = parsing::spec_lines(input@);
    let (a, b) = read_columns(input);
    let sa = sorted_copy(&a);
    let sb = sorted_copy(&b);
    let m: usize = if sa.len() <= sb.len() {
        sa.len()
    } else {
        sb.len()
    };
    let mut sum: i32 = 0;
    let mut i: usize = 0;
    proof {
        lemma_abs_diff_sum_nonneg(sa@, sb@, m as int);
    }
    while i < m
        invariant
            i <= m,
            m == (if sa@.len() <= sb@.len() {
                sa@.len() as int
            } else {
                sb@.len() as int
            }),
            sa@ == col_vals(lines, 0, lines.len() as int).sort_by(i32_leq()),
            sb@ == col_vals(lines, 1, lines.len() as int).sort_by(i32_leq()),
            part_1_ok(input@),
            lines == parsing::spec_lines(input@),
            sum == abs_diff_sum(sa@, sb@, i as int),
        decreases m - i,
    {
        proof {
            lemma_abs_diff_sum_mono(sa@, sb@, i as int + 1, m as int);
            lemma_abs_diff_sum_nonneg(sa@, sb@, i as int);
        }
        let x: i64 = sa[i] as i64;
        let y: i64 = sb[i] as i64;
        let d: i64 = if x >= y {
            x - y
        } else {
            y - x
        };
        sum = sum + (d as i32);
        i += 1;
    }
    sum
}

/// A prefix of the distance sum never exceeds a longer one.
pub proof fn lemma_abs_diff_sum_mono(a: Seq<i32>, b: Seq<i32>, k: int, n: int)
    requires
        k <= n,
    ensures
        abs_diff_sum(a, b, k) <= abs_diff_sum(a, b, n),
    decreases n - k,
{
    if k < n {
        lemma_abs_diff_sum_mono(a, b, k, n - 1);
    }
}

pub proof fn lemma_abs_diff_sum_nonneg(a: Seq<i32>, b: Seq<i32>, n: int)
    ensures
        abs_diff_sum(a, b, n) >= 0,
    decreases n,
{
    if n > 0 {
        lemma_abs_diff_sum_nonneg(a, b, n - 1);
    }
}

/// The inputs `problem_1_part_2` accepts: decimal columns whose products and
/// running totals stay within `i32`.
pub open spec fn part_2_ok(input: Seq<char>) -> bool {
    let lines = parsing::spec_lines(input);
    let a = col_vals(lines, 0, lines.len() as int);
    let b = col_vals(lines, 1, lines.len() as int);
    &&& forall|l: int|
        0 <= l < lines.len() ==> parsing::line_all_i32(#[trigger] lines[l])
    &&& b.len() <= i32::MAX
    &&& forall|i: int|
        0 <= i < a.len() ==> i32::MIN <= #[trigger] (a[i] * count_in(b, a[i])) <= i32::MAX
    &&& forall|k: int| 0 <= k <= a.len() ==> i32::MIN <= #[trigger] sim_score(a, b, k) <= i32::MAX
}

/// Similarity score: each left value times its frequency on the right.
pub fn problem_1_part_2(input: &str) -> (r: i32)
    requires
        part_2_ok(input@),
    ensures
        ({
            let lines = parsing::spec_lines(input@);
            let a = col_vals(lines, 0, lines.len() as int);
            let b = col_vals(lines, 1, lines.len() as int);
            r == sim_score(a, b, a.len() as int)
        }),
{
    let ghost lines = parsing::spec_lines(input@);
    let (a, b) = read_columns(input);
    let n: usize = a.len();
    let mut sum: i32 = 0;
    let mut i: usize = 0;
    while i < n
        invariant
            i <= n,
            n == a@.len(),
            lines == parsing::spec_lines(input@),
            a@ == col_vals(lines, 0, lines.len() as int),
            b@ == col_vals(lines, 1, lines.len() as int),
            part_2_ok(input@),
            sum == sim_score(a@, b@, i as int),
        decreases n - i,
    {
        let v = a[i];
        let c: usize = count_occurrences(&b, v);
        proof {
            lemma_count_in_le(b@, v);
            assert(c <= i32::MAX);
            assert(a@[i as int] * count_in(b@, a@[i as int]) <= i32::MAX);
            assert(i32::MIN <= a@[i as int] * count_in(b@, a@[i as int]));
            assert(i32::MIN <= sim_score(a@, b@, i as int + 1) <= i32::MAX);
            assert((v as int) * (c as int) <= 0x4000000000000000int && (v as int) * (c as int)
                >= -0x4000000000000000int) by (nonlinear_arith)
                requires
                    -0x80000000 <= v as int <= 0x7fffffff,
                    0 <= c as int <= 0x7fffffff,
            ;
        }
        let prod: i64 = (v as i64) * (c as i64);
        sum = sum + (prod as i32);
        i += 1;
    }
    sum
}

} // verus!
