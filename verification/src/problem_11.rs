//! Blinking stones: at each blink a `0` stone becomes `1`, a stone with an
//! even number of decimal digits splits into its two halves, and any other
//! stone is multiplied by 2024.  The answers count the stones after 25 and
//! 75 blinks; the 75-blink run works on stone frequencies, since the flat
//! list grows far too large.

use vstd::prelude::*;
use crate::parsing;

verus! {

/// Powers of ten.
pub open spec fn p10(k: nat) -> int
    decreases k,
{
    if k == 0 {
        1
    } else {
        10 * p10((k - 1) as nat)
    }
}

/// How many decimal digits a non-negative number has (one for zero).
pub open spec fn num_digits(v: int) -> nat
    decreases v,
{
    if v < 10 {
        1
    } else {
        1 + num_digits(v / 10)
    }
}

/// One blink of a single stone.
pub open spec fn blink(v: int) -> Seq<int> {
    if v == 0 {
        seq![1]
    } else if num_digits(v) % 2 == 0 {
        let half = p10(num_digits(v) / 2);
        seq![v / half, v % half]
    } else {
        seq![v * 2024]
    }
}

/// One blink of a whole row of stones.
pub open spec fn blink_all(s: Seq<int>) -> Seq<int>
    decreases s.len(),
{
    if s.len() == 0 {
        Seq::empty()
    } else {
        blink_all(s.drop_last()) + blink(s.last())
    }
}

/// The row of stones after `n` blinks.
pub open spec fn stones_after(s: Seq<int>, n: nat) -> Seq<int>
    decreases n,
{
    if n == 0 {
        s
    } else {
        stones_after(blink_all(s), (n - 1) as nat)
    }
}

/// Every stone value within the first `n` blinks fits a `u64`.
pub open spec fn all_fit(s: Seq<int>, n: nat) -> bool {
    forall|k: nat, i: int|
        k <= n && 0 <= i < stones_after(s, k).len() ==> 0 <= #[trigger] stones_after(s, k)[i]
            <= u64::MAX
}

pub open spec fn u64s_int(s: Seq<u64>) -> Seq<int> {
    s.map_values(|x: u64| x as int)
}

fn copy_u64s(v: &Vec<u64>) -> (r: Vec<u64>)
    ensures
        r@ == v@,
{
    let n: usize = v.len();
    let mut r: Vec<u64> = Vec::new();
    let mut i: usize = 0;
    while i < n
        invariant
            i <= n,
            n == v@.len(),
            r@ == v@.subrange(0, i as int),
        decreases n - i,
    {
        let x = v[i];
        r.push(x);
        proof {
            assert(r@ =~= v@.subrange(0, i as int + 1));
        }
        i += 1;
    }
    proof {
        assert(r@ =~= v@);
    }
    r
}

fn count_digits(v: u64) -> (d: usize)
    ensures
        d == num_digits(v as int),
{
    let mut d: usize = 1;
    let mut t: u64 = v;
    while t >= 10
        invariant
            t >= 0,
            d >= 1,
            d <= 20,
            num_digits(v as int) == num_digits(t as int) + d - 1,
        decreases t,
    {
        proof {
            lemma_num_digits_le(v as int);
            assert(num_digits(t as int) == 1 + num_digits(t as int / 10));
            assert(num_digits(t as int / 10) >= 1);
        }
        t = t / 10;
        d += 1;
    }
    d
}

proof fn lemma_num_digits_le(v: int)
    requires
        0 <= v <= u64::MAX,
    ensures
        num_digits(v) <= 20,
{
    assert(p10(20) == 100000000000000000000) by {
        reveal_with_fuel(p10, 21);
    }
    lemma_nd_lt_pow(v, 20);
}

proof fn lemma_nd_lt_pow(v: int, k: nat)
    requires
        0 <= v,
        1 <= k,
        v < p10(k),
    ensures
        num_digits(v) <= k,
    decreases k,
{
    if v >= 10 {
        assert(p10(k) == 10 * p10((k - 1) as nat));
        assert(v / 10 < p10((k - 1) as nat)) by (nonlinear_arith)
            requires
                v < 10 * p10((k - 1) as nat),
                v >= 0,
        ;
        if k >= 2 {
            lemma_nd_lt_pow(v / 10, (k - 1) as nat);
        } else {
            assert(p10(1) == 10) by {
                reveal_with_fuel(p10, 2);
            }
            assert(false);
        }
    }
}

/// `10^k` for the small exponents a split can need.
fn pow10(k: usize) -> (r: u64)
    requires
        k <= 10,
    ensures
        r == p10(k as nat),
        r >= 1,
{
    let mut r: u64 = 1;
    let mut i: usize = 0;
    while i < k
        invariant
            i <= k <= 10,
            r == p10(i as nat),
            1 <= r,
        decreases k - i,
    {
        proof {
            lemma_p10_le(i as nat + 1, 10);
            assert(p10(10) == 10000000000) by {
                reveal_with_fuel(p10, 11);
            }
        }
        r = r * 10;
        i += 1;
    }
    r
}

/// Powers of ten grow with the exponent.
proof fn lemma_p10_le(a: nat, b: nat)
    requires
        a <= b,
    ensures
        1 <= p10(a) <= p10(b),
    decreases b,
{
    if a < b {
        lemma_p10_le(a, (b - 1) as nat);
        assert(p10((b - 1) as nat) <= p10(b)) by (nonlinear_arith)
            requires
                p10(b) == 10 * p10((b - 1) as nat),
                p10((b - 1) as nat) >= 1,
        ;
    } else if a == b && a == 0 {
    } else {
        lemma_p10_le((a - 1) as nat, (b - 1) as nat);
        assert(p10(a) == 10 * p10((a - 1) as nat));
    }
}

/// The stones one stone becomes at a blink.
pub fn evaluate_rules(input: u64) -> (r: Vec<u64>)
    requires
        forall|i: int| 0 <= i < blink(input as int).len() ==> 0 <= #[trigger] blink(input as int)[i]
            <= u64::MAX,
    ensures
        u64s_int(r@) == blink(input as int),
{
    let mut out: Vec<u64> = Vec::new();
    if input == 0 {
        out.push(1);
        proof {
            assert(u64s_int(out@) =~= blink(input as int));
        }
        return out;
    }
    let d = count_digits(input);
    if d % 2 == 0 {
        proof {
            lemma_num_digits_le(input as int);
        }
        let half = pow10(d / 2);
        let first = input / half;
        let second = input % half;
        out.push(first);
        out.push(second);
        proof {
            assert(u64s_int(out@) =~= blink(input as int));
        }
        return out;
    }
    proof {
        assert(blink(input as int)[0] == (input as int) * 2024);
        assert(0 <= (input as int) * 2024 <= u64::MAX);
    }
    let prod: u64 = input * 2024;
    out.push(prod);
    proof {
        assert(u64s_int(out@) =~= blink(input as int));
    }
    out
}

/// One blink of a whole row.
pub fn apply_rules(inputs: &Vec<u64>) -> (r: Vec<u64>)
    requires
        forall|i: int|
            0 <= i < blink_all(u64s_int(inputs@)).len() ==> 0 <= #[trigger] blink_all(
                u64s_int(inputs@),
            )[i] <= u64::MAX,
    ensures
        u64s_int(r@) == blink_all(u64s_int(inputs@)),
{
    let n: usize = inputs.len();
    let mut out: Vec<u64> = Vec::new();
    let mut i: usize = 0;
    proof {
        assert(u64s_int(inputs@).subrange(0, 0) =~= Seq::<int>::empty());
        assert(u64s_int(out@) =~= blink_all(u64s_int(inputs@).subrange(0, 0)));
    }
    while i < n
        invariant
            i <= n,
            n == inputs@.len(),
            u64s_int(inputs@).len() == n,
            forall|t: int|
                0 <= t < blink_all(u64s_int(inputs@)).len() ==> 0 <= #[trigger] blink_all(
                    u64s_int(inputs@),
                )[t] <= u64::MAX,
            u64s_int(out@) == blink_all(u64s_int(inputs@).subrange(0, i as int)),
        decreases n - i,
    {
        let v = inputs[i];
        proof {
            lemma_blink_all_prefix(u64s_int(inputs@), i as int);
            assert(u64s_int(inputs@)[i as int] == v as int);
            assert forall|t: int| 0 <= t < blink(v as int).len() implies 0 <= #[trigger] blink(
                v as int,
            )[t] <= u64::MAX by {
                let base = blink_all(u64s_int(inputs@).subrange(0, i as int)).len();
                assert(blink_all(u64s_int(inputs@).subrange(0, i as int + 1)) == blink_all(
                    u64s_int(inputs@).subrange(0, i as int),
                ) + blink(v as int));
                assert(blink_all(u64s_int(inputs@).subrange(0, i as int + 1))[base + t] == blink(
                    v as int,
                )[t]);
                lemma_blink_all_prefix_le(u64s_int(inputs@), i as int + 1);
            }
        }
        let ws = evaluate_rules(v);
        let m: usize = ws.len();
        let mut t: usize = 0;
        while t < m
            invariant
                t <= m,
                m == ws@.len(),
                u64s_int(ws@) == blink(v as int),
                v as int == u64s_int(inputs@)[i as int],
                i < n,
                n == inputs@.len(),
                u64s_int(inputs@).len() == n,
                u64s_int(out@) == blink_all(u64s_int(inputs@).subrange(0, i as int)) + blink(
                    v as int,
                ).subrange(0, t as int),
            decreases m - t,
        {
            let w = ws[t];
            let ghost prev = out@;
            out.push(w);
            proof {
                assert(u64s_int(out@) =~= u64s_int(prev) + seq![w as int]);
                assert(w as int == u64s_int(ws@)[t as int]);
                assert(blink(v as int).subrange(0, t as int + 1) =~= blink(v as int).subrange(
                    0,
                    t as int,
                ) + seq![blink(v as int)[t as int]]);
                assert(u64s_int(out@) =~= blink_all(u64s_int(inputs@).subrange(0, i as int))
                    + blink(v as int).subrange(0, t as int + 1));
            }
            t += 1;
        }
        proof {
            assert(blink(v as int).subrange(0, m as int) =~= blink(v as int));
            lemma_blink_all_prefix(u64s_int(inputs@), i as int);
            assert(u64s_int(out@) =~= blink_all(u64s_int(inputs@).subrange(0, i as int + 1)));
        }
        i += 1;
    }
    proof {
        assert(u64s_int(inputs@).subrange(0, n as int) =~= u64s_int(inputs@));
    }
    out
}

/// Blinking a row with one more stone appends that stone's blink.
proof fn lemma_blink_all_prefix(s: Seq<int>, i: int)
    requires
        0 <= i < s.len(),
    ensures
        blink_all(s.subrange(0, i + 1)) == blink_all(s.subrange(0, i)) + blink(s[i]),
{
    assert(s.subrange(0, i + 1).drop_last() =~= s.subrange(0, i));
    assert(s.subrange(0, i + 1).last() == s[i]);
}

/// A blink of a prefix is a prefix of the blink.
proof fn lemma_blink_all_prefix_le(s: Seq<int>, i: int)
    requires
        0 <= i <= s.len(),
    ensures
        blink_all(s.subrange(0, i)).len() <= blink_all(s).len(),
        forall|t: int|
            0 <= t < blink_all(s.subrange(0, i)).len() ==> #[trigger] blink_all(
                s.subrange(0, i),
            )[t] == blink_all(s)[t],
    decreases s.len() - i,
{
    if i == s.len() {
        assert(s.subrange(0, i) =~= s);
    } else {
        lemma_blink_all_prefix(s, i);
        lemma_blink_all_prefix_le(s, i + 1);
        assert forall|t: int|
            0 <= t < blink_all(s.subrange(0, i)).len() implies #[trigger] blink_all(
            s.subrange(0, i),
        )[t] == blink_all(s)[t] by {
            assert(blink_all(s.subrange(0, i + 1))[t] == blink_all(s.subrange(0, i))[t]);
            assert(blink_all(s.subrange(0, i + 1))[t] == blink_all(s)[t]);
        }
    }
}

/// Counts the stones after 25 blinks of the listed start stones.
pub fn part_1(input: &str) -> (r: Option<usize>)
    requires
        ({
            let toks = parsing::spec_tokens(input@);
            &&& forall|t: int| 0 <= t < toks.len() ==> parsing::is_u64_string(#[trigger] toks[t])
            &&& all_fit(start_values(input@), 25)
            &&& stones_after(start_values(input@), 25).len() <= usize::MAX
        }),
    ensures
        r == Some(stones_after(start_values(input@), 25).len() as usize),
{
    let stones = parse_stones(input);
    let mut cur = stones;
    let mut k: usize = 0;
    while k < 25
        invariant
            k <= 25,
            u64s_int(cur@) == stones_after(start_values(input@), k as nat),
            all_fit(start_values(input@), 25),
        decreases 25 - k,
    {
        proof {
            assert(stones_after(start_values(input@), (k + 1) as nat) == blink_all(
                u64s_int(cur@),
            )) by {
                lemma_stones_step(start_values(input@), k as nat);
            }
            assert forall|t: int| 0 <= t < blink_all(u64s_int(cur@)).len() implies 0
                <= #[trigger] blink_all(u64s_int(cur@))[t] <= u64::MAX by {
                assert(stones_after(start_values(input@), (k + 1) as nat)[t] == blink_all(
                    u64s_int(cur@),
                )[t]);
            }
        }
        cur = apply_rules(&cur);
        k += 1;
    }
    Some(cur.len())
}

/// The stones named by the input tokens.
pub open spec fn start_values(input: Seq<char>) -> Seq<int> {
    parsing::spec_tokens(input).map_values(|t: Seq<char>| parsing::u64_string_value(t))
}

/// Blinking `k + 1` times is one blink after `k` blinks.
proof fn lemma_stones_step(s: Seq<int>, k: nat)
    ensures
        stones_after(s, (k + 1) as nat) == blink_all(stones_after(s, k)),
    decreases k,
{
    if k == 0 {
        assert(stones_after(s, 1nat) == stones_after(blink_all(s), 0nat));
        assert(stones_after(s, 0nat) == s);
    } else {
        lemma_stones_step(blink_all(s), (k - 1) as nat);
        assert(stones_after(s, (k + 1) as nat) == stones_after(blink_all(s), k));
        assert(stones_after(s, k) == stones_after(blink_all(s), (k - 1) as nat));
    }
}

/// The stones named by the input tokens, as machine numbers.
pub open spec fn start_u64s(input: Seq<char>) -> Seq<u64> {
    parsing::spec_tokens(input).map_values(
        |t: Seq<char>| parsing::u64_string_value(t) as u64,
    )
}

fn parse_stones(input: &str) -> (r: Vec<u64>)
    requires
        forall|t: int|
            0 <= t < parsing::spec_tokens(input@).len() ==> parsing::is_u64_string(
                #[trigger] parsing::spec_tokens(input@)[t],
            ),
    ensures
        u64s_int(r@) == start_values(input@),
        r@ == start_u64s(input@),
{
    let cs = parsing::chars_of(input);
    let toks = parsing::split_tokens(cs.as_slice());
    let n: usize = toks.len();
    let mut out: Vec<u64> = Vec::new();
    let mut i: usize = 0;
    while i < n
        invariant
            i <= n,
            n == toks@.len(),
            n == parsing::spec_tokens(input@).len(),
            forall|t: int| 0 <= t < n ==> toks@[t]@ == parsing::spec_tokens(input@)[t],
            forall|t: int|
                0 <= t < n ==> parsing::is_u64_string(#[trigger] parsing::spec_tokens(input@)[t]),
            out@.len() == i,
            forall|t: int|
                0 <= t < i ==> out@[t] as int == parsing::u64_string_value(
                    #[trigger] parsing::spec_tokens(input@)[t],
                ),
        decreases n - i,
    {
        proof {
            assert(toks@[i as int]@ == parsing::spec_tokens(input@)[i as int]);
            assert(parsing::is_u64_string(parsing::spec_tokens(input@)[i as int]));
            let tok = parsing::spec_tokens(input@)[i as int];
            let dseq = if tok.len() > 0 && tok[0] == '+' {
                tok.drop_first()
            } else {
                tok
            };
            parsing::lemma_digits_value_nonneg(dseq);
        }
        let v: u64 = match parsing::parse_u64(toks[i].as_slice()) {
            Some(v) => v,
            None => {
                proof {
                    assert(false);
                }
                vstd::pervasive::unreached()
            },
        };
        out.push(v);
        i += 1;
    }
    proof {
        assert(u64s_int(out@) =~= start_values(input@));
        assert forall|t: int| 0 <= t < out@.len() implies out@[t] == start_u64s(input@)[t] by {
            let tok = parsing::spec_tokens(input@)[t];
            let dseq = if tok.len() > 0 && tok[0] == '+' {
                tok.drop_first()
            } else {
                tok
            };
            parsing::lemma_digits_value_nonneg(dseq);
        }
        assert(out@ =~= start_u64s(input@));
    }
    out
}

/// Stone frequencies as association entries, counts modelled as integers.
pub open spec fn eview(entries: Seq<(u64, usize)>) -> Seq<(u64, int)> {
    entries.map_values(|e: (u64, usize)| (e.0, e.1 as int))
}

/// The count stored for `v`.
pub open spec fn spec_count_of(m: Seq<(u64, int)>, v: u64) -> int
    decreases m.len(),
{
    if m.len() == 0 {
        0
    } else {
        (if m.last().0 == v {
            m.last().1
        } else {
            0int
        }) + spec_count_of(m.drop_last(), v)
    }
}

/// Raising the count of `v` by `c`: the first entry with that stone grows,
/// or a new entry is appended.
pub open spec fn spec_bump(m: Seq<(u64, int)>, v: u64, c: int) -> Seq<(u64, int)>
    decreases m.len(),
{
    if m.len() == 0 {
        seq![(v, c)]
    } else if m.first().0 == v {
        seq![(v, m.first().1 + c)] + m.drop_first()
    } else {
        seq![m.first()] + spec_bump(m.drop_first(), v, c)
    }
}

/// Adds `c` stones of each value in `ws` in turn.
pub open spec fn spec_expand(m: Seq<(u64, int)>, ws: Seq<int>, c: int) -> Seq<(u64, int)>
    decreases ws.len(),
{
    if ws.len() == 0 {
        m
    } else {
        spec_expand(spec_bump(m, ws.first() as u64, c), ws.drop_first(), c)
    }
}

/// Expands the entries of `m` from index `i` on into `acc`: each stone's
/// 25-blink row, weighted by its count.
pub open spec fn spec_solve_from(acc: Seq<(u64, int)>, m: Seq<(u64, int)>, i: int) -> Seq<
    (u64, int),
>
    decreases m.len() - i,
{
    if i < 0 || i >= m.len() {
        acc
    } else {
        spec_solve_from(
            spec_expand(acc, stones_after(seq![m[i].0 as int], 25), m[i].1),
            m,
            i + 1,
        )
    }
}

/// The frequency table of the listed stones.
pub open spec fn spec_freq(vals: Seq<u64>, i: int) -> Seq<(u64, int)>
    decreases i,
{
    if i <= 0 {
        Seq::empty()
    } else {
        spec_bump(spec_freq(vals, i - 1), vals[i - 1], 1)
    }
}

/// The total stone count of a table.
pub open spec fn spec_tally(m: Seq<(u64, int)>) -> int
    decreases m.len(),
{
    if m.len() == 0 {
        0
    } else {
        spec_tally(m.drop_last()) + m.last().1
    }
}

pub open spec fn counts_nonneg(m: Seq<(u64, int)>) -> bool {
    forall|i: int| 0 <= i < m.len() ==> (#[trigger] m[i]).1 >= 0
}

/// A bump grows the tally by exactly the added count.
pub proof fn lemma_bump_tally(m: Seq<(u64, int)>, v: u64, c: int)
    ensures
        spec_tally(spec_bump(m, v, c)) == spec_tally(m) + c,
        c >= 0 && counts_nonneg(m) ==> counts_nonneg(spec_bump(m, v, c)),
        spec_bump(m, v, c).len() >= m.len(),
    decreases m.len(),
{
    let r = spec_bump(m, v, c);
    if m.len() == 0 {
        assert(seq![(v, c)].last() == (v, c));
        assert(seq![(v, c)].drop_last() =~= Seq::<(u64, int)>::empty());
        assert(spec_tally(Seq::<(u64, int)>::empty()) == 0);
        assert(spec_tally(seq![(v, c)]) == c);
    } else if m.first().0 == v {
        lemma_tally_head(m);
        lemma_tally_head(r);
        assert(r.drop_first() =~= m.drop_first());
    } else {
        lemma_bump_tally(m.drop_first(), v, c);
        lemma_tally_head(m);
        lemma_tally_head(r);
        assert(r.drop_first() =~= spec_bump(m.drop_first(), v, c));
    }
}

/// The tally can be peeled from the front as well as the back.
pub proof fn lemma_tally_head(m: Seq<(u64, int)>)
    requires
        m.len() > 0,
    ensures
        spec_tally(m) == m.first().1 + spec_tally(m.drop_first()),
    decreases m.len(),
{
    if m.len() == 1 {
        assert(m.drop_first() =~= Seq::<(u64, int)>::empty());
        assert(m.drop_last() =~= Seq::<(u64, int)>::empty());
    } else {
        lemma_tally_head(m.drop_last());
        assert(m.drop_last().drop_first() =~= m.drop_first().drop_last());
        assert(m.drop_last().first() == m.first());
        assert(m.drop_first().last() == m.last());
    }
}

/// Tallies bound every single count when counts are non-negative.
pub proof fn lemma_count_le_tally(m: Seq<(u64, int)>, v: u64)
    requires
        counts_nonneg(m),
    ensures
        0 <= spec_count_of(m, v) <= spec_tally(m),
    decreases m.len(),
{
    if m.len() > 0 {
        assert(counts_nonneg(m.drop_last()));
        lemma_count_le_tally(m.drop_last(), v);
    }
}

/// Expanding never lowers a tally and keeps counts non-negative.
pub proof fn lemma_expand_tally(m: Seq<(u64, int)>, ws: Seq<int>, c: int)
    requires
        c >= 0,
        counts_nonneg(m),
    ensures
        spec_tally(spec_expand(m, ws, c)) == spec_tally(m) + c * ws.len(),
        counts_nonneg(spec_expand(m, ws, c)),
    decreases ws.len(),
{
    if ws.len() > 0 {
        lemma_bump_tally(m, ws.first() as u64, c);
        lemma_expand_tally(spec_bump(m, ws.first() as u64, c), ws.drop_first(), c);
        assert(c * ws.len() == c + c * (ws.len() - 1)) by (nonlinear_arith)
            requires
                ws.len() >= 1,
        ;
    } else {
        assert(c * ws.len() == 0) by (nonlinear_arith)
            requires
                ws.len() == 0,
        ;
    }
}

/// The remaining expansion only grows tallies.
pub proof fn lemma_solve_from_tally(acc: Seq<(u64, int)>, m: Seq<(u64, int)>, i: int)
    requires
        counts_nonneg(acc),
        counts_nonneg(m),
    ensures
        spec_tally(spec_solve_from(acc, m, i)) >= spec_tally(acc),
        counts_nonneg(spec_solve_from(acc, m, i)),
    decreases m.len() - i,
{
    if 0 <= i < m.len() {
        let ws = stones_after(seq![m[i].0 as int], 25);
        lemma_expand_tally(acc, ws, m[i].1);
        assert(m[i].1 * ws.len() >= 0) by (nonlinear_arith)
            requires
                m[i].1 >= 0,
                ws.len() >= 0,
        ;
        lemma_solve_from_tally(spec_expand(acc, ws, m[i].1), m, i + 1);
    }
}

/// Each matching entry's count is at most the total count of that stone.
pub proof fn lemma_entry_le_count(m: Seq<(u64, int)>, v: u64, j: int)
    requires
        counts_nonneg(m),
        0 <= j < m.len(),
        m[j].0 == v,
    ensures
        m[j].1 <= spec_count_of(m, v),
    decreases m.len(),
{
    if j == m.len() - 1 {
        assert(counts_nonneg(m.drop_last()));
        lemma_count_le_tally(m.drop_last(), v);
    } else {
        assert(counts_nonneg(m.drop_last()));
        lemma_entry_le_count(m.drop_last(), v, j);
    }
}

/// What a bump does to every stone's count.
pub proof fn lemma_bump_count(m: Seq<(u64, int)>, v: u64, c: int, w: u64)
    ensures
        spec_count_of(spec_bump(m, v, c), w) == spec_count_of(m, w) + (if w == v {
            c
        } else {
            0int
        }),
    decreases m.len(),
{
    let r = spec_bump(m, v, c);
    if m.len() == 0 {
        assert(seq![(v, c)].last() == (v, c));
        assert(seq![(v, c)].drop_last() =~= Seq::<(u64, int)>::empty());
        assert(spec_count_of(Seq::<(u64, int)>::empty(), w) == 0);
    } else if m.first().0 == v {
        lemma_count_head(m, w);
        lemma_count_head(r, w);
        assert(r.drop_first() =~= m.drop_first());
    } else {
        lemma_bump_count(m.drop_first(), v, c, w);
        lemma_count_head(m, w);
        lemma_count_head(r, w);
        assert(r.drop_first() =~= spec_bump(m.drop_first(), v, c));
    }
}

/// Counts peel from the front as well as the back.
pub proof fn lemma_count_head(m: Seq<(u64, int)>, w: u64)
    requires
        m.len() > 0,
    ensures
        spec_count_of(m, w) == (if m.first().0 == w {
            m.first().1
        } else {
            0int
        }) + spec_count_of(m.drop_first(), w),
    decreases m.len(),
{
    if m.len() == 1 {
        assert(m.drop_first() =~= Seq::<(u64, int)>::empty());
        assert(m.drop_last() =~= Seq::<(u64, int)>::empty());
    } else {
        lemma_count_head(m.drop_last(), w);
        assert(m.drop_last().drop_first() =~= m.drop_first().drop_last());
        assert(m.drop_last().first() == m.first());
        assert(m.drop_first().last() == m.last());
    }
}

/// A frequency table of stone counts.
pub struct StoneCounts {
    pub entries: Vec<(u64, usize)>,
}

impl StoneCounts {
    pub fn new() -> (r: StoneCounts)
        ensures
            eview(r.entries@) == Seq::<(u64, int)>::empty(),
    {
        let r = StoneCounts { entries: Vec::new() };
        proof {
            assert(eview(r.entries@) =~= Seq::<(u64, int)>::empty());
        }
        r
    }

    /// Adds `c` stones of value `v`.
    pub fn bump(&mut self, v: u64, c: usize)
        requires
            spec_count_of(eview(old(self).entries@), v) + c <= usize::MAX,
        ensures
            eview(final(self).entries@) == spec_bump(eview(old(self).entries@), v, c as int),
    {
        let ghost m = eview(self.entries@);
        proof {
            lemma_eview_nonneg(self.entries@);
            assert(m.subrange(0, 0) =~= Seq::<(u64, int)>::empty());
            assert(m.subrange(0, m.len() as int) =~= m);
        }
        let n: usize = self.entries.len();
        let mut j: usize = 0;
        while j < n
            invariant
                j <= n,
                n == self.entries@.len(),
                self.entries@ == old(self).entries@,
                m == eview(self.entries@),
                counts_nonneg(m),
                spec_count_of(m, v) + c <= usize::MAX,
                spec_bump(m, v, c as int) == m.subrange(0, j as int) + spec_bump(
                    m.subrange(j as int, n as int),
                    v,
                    c as int,
                ),
                forall|t: int| 0 <= t < j ==> (#[trigger] m[t]).0 != v,
            decreases n - j,
        {
            let e = self.entries[j];
            if e.0 == v {
                proof {
                    lemma_entry_le_count(m, v, j as int);
                    let suf = m.subrange(j as int, n as int);
                    assert(suf.first() == m[j as int]);
                    assert(suf.drop_first() =~= m.subrange(j as int + 1, n as int));
                    assert(spec_bump(suf, v, c as int) == seq![(v, m[j as int].1 + c)]
                        + m.subrange(j as int + 1, n as int));
                }
                let c2: usize = e.1 + c;
                self.entries[j] = (v, c2);
                proof {
                    assert(eview(self.entries@) =~= m.subrange(0, j as int) + (seq![
                        (v, m[j as int].1 + c),
                    ] + m.subrange(j as int + 1, n as int)));
                }
                return ;
            }
            proof {
                let suf = m.subrange(j as int, n as int);
                assert(suf.first() == m[j as int]);
                assert(suf.drop_first() =~= m.subrange(j as int + 1, n as int));
                assert(m.subrange(0, j as int) + seq![m[j as int]] =~= m.subrange(
                    0,
                    j as int + 1,
                ));
                assert(m.subrange(0, j as int) + (seq![m[j as int]] + spec_bump(
                    m.subrange(j as int + 1, n as int),
                    v,
                    c as int,
                )) =~= m.subrange(0, j as int + 1) + spec_bump(
                    m.subrange(j as int + 1, n as int),
                    v,
                    c as int,
                ));
            }
            j += 1;
        }
        proof {
            assert(m.subrange(n as int, n as int) =~= Seq::<(u64, int)>::empty());
        }
        self.entries.push((v, c));
        proof {
            assert(eview(self.entries@) =~= m.subrange(0, n as int) + seq![(v, c as int)]);
        }
    }
}

/// Counts in a stored table are machine numbers, so they are non-negative.
pub proof fn lemma_eview_nonneg(entries: Seq<(u64, usize)>)
    ensures
        counts_nonneg(eview(entries)),
{
}

/// The total count of a table.
pub fn tally(inputs: &StoneCounts) -> (r: usize)
    requires
        spec_tally(eview(inputs.entries@)) <= usize::MAX,
    ensures
        r == spec_tally(eview(inputs.entries@)),
{
    let ghost m = eview(inputs.entries@);
    let n: usize = inputs.entries.len();
    let mut sum: usize = 0;
    let mut i: usize = 0;
    proof {
        assert(m.subrange(0, 0) =~= Seq::<(u64, int)>::empty());
        lemma_eview_nonneg(inputs.entries@);
    }
    while i < n
        invariant
            i <= n,
            n == inputs.entries@.len(),
            m == eview(inputs.entries@),
            counts_nonneg(m),
            spec_tally(m) <= usize::MAX,
            sum == spec_tally(m.subrange(0, i as int)),
        decreases n - i,
    {
        proof {
            assert(m.subrange(0, i as int + 1).drop_last() =~= m.subrange(0, i as int));
            assert(m.subrange(0, i as int + 1).last() == m[i as int]);
            lemma_tally_prefix(m, i as int + 1);
        }
        let e = inputs.entries[i];
        sum = sum + e.1;
        i += 1;
    }
    proof {
        assert(m.subrange(0, n as int) =~= m);
    }
    sum
}

/// Prefix tallies never exceed the whole when counts are non-negative.
pub proof fn lemma_tally_prefix(m: Seq<(u64, int)>, i: int)
    requires
        counts_nonneg(m),
        0 <= i <= m.len(),
    ensures
        0 <= spec_tally(m.subrange(0, i)) <= spec_tally(m),
    decreases m.len(),
{
    if i == m.len() {
        assert(m.subrange(0, i) =~= m);
        if m.len() > 0 {
            assert(counts_nonneg(m.drop_last()));
            lemma_tally_prefix(m.drop_last(), i - 1);
            assert(m.drop_last().subrange(0, i - 1) =~= m.subrange(0, i - 1));
        }
    } else {
        assert(counts_nonneg(m.drop_last()));
        lemma_tally_prefix(m.drop_last(), i);
        assert(m.drop_last().subrange(0, i) =~= m.subrange(0, i));
    }
}

/// The frequency table of the listed stones.
pub fn freq_map(inputs: &[u64]) -> (r: StoneCounts)
    ensures
        eview(r.entries@) == spec_freq(inputs@, inputs@.len() as int),
{
    let n: usize = inputs.len();
    let mut r = StoneCounts::new();
    let mut i: usize = 0;
    while i < n
        invariant
            i <= n,
            n == inputs@.len(),
            eview(r.entries@) == spec_freq(inputs@, i as int),
            counts_nonneg(eview(r.entries@)),
            spec_tally(eview(r.entries@)) == i,
        decreases n - i,
    {
        let v = inputs[i];
        proof {
            lemma_eview_nonneg(r.entries@);
            lemma_count_le_tally(eview(r.entries@), v);
            lemma_bump_tally(eview(r.entries@), v, 1);
        }
        r.bump(v, 1);
        proof {
            lemma_eview_nonneg(r.entries@);
        }
        i += 1;
    }
    r
}

/// A memo of 25-blink expansions, keyed by starting stone.
pub struct Solver {
    pub memo: Vec<(u64, Vec<u64>)>,
}

impl Solver {
    pub open spec fn wf(&self) -> bool {
        forall|i: int|
            0 <= i < self.memo@.len() ==> u64s_int((#[trigger] self.memo@[i]).1@) == stones_after(
                seq![self.memo@[i].0 as int],
                25,
            )
    }

    pub fn new() -> (r: Solver)
        ensures
            r.wf(),
    {
        Solver { memo: Vec::new() }
    }

    /// The row one stone becomes after 25 blinks, memoised.
    pub fn solve_25(&mut self, input: u64) -> (r: Vec<u64>)
        requires
            old(self).wf(),
            all_fit(seq![input as int], 25),
        ensures
            final(self).wf(),
            u64s_int(r@) == stones_after(seq![input as int], 25),
    {
        let n: usize = self.memo.len();
        let mut i: usize = 0;
        while i < n
            invariant
                i <= n,
                n == self.memo@.len(),
                self.wf(),
                self.memo@ == old(self).memo@,
            decreases n - i,
        {
            if self.memo[i].0 == input {
                let r = copy_u64s(&self.memo[i].1);
                return r;
            }
            i += 1;
        }
        let mut cur: Vec<u64> = Vec::new();
        cur.push(input);
        proof {
            assert(u64s_int(cur@) =~= seq![input as int]);
            assert(stones_after(seq![input as int], 0nat) == seq![input as int]);
        }
        let mut k: usize = 0;
        while k < 25
            invariant
                k <= 25,
                u64s_int(cur@) == stones_after(seq![input as int], k as nat),
                all_fit(seq![input as int], 25),
                self.wf(),
                self.memo@ == old(self).memo@,
            decreases 25 - k,
        {
            proof {
                lemma_stones_step(seq![input as int], k as nat);
                assert forall|t: int| 0 <= t < blink_all(u64s_int(cur@)).len() implies 0
                    <= #[trigger] blink_all(u64s_int(cur@))[t] <= u64::MAX by {
                    assert(stones_after(seq![input as int], (k + 1) as nat)[t] == blink_all(
                        u64s_int(cur@),
                    )[t]);
                }
            }
            cur = apply_rules(&cur);
            k += 1;
        }
        let stored = copy_u64s(&cur);
        let ghost oldmemo = self.memo@;
        self.memo.push((input, stored));
        proof {
            assert forall|t: int| 0 <= t < self.memo@.len() implies u64s_int(
                (#[trigger] self.memo@[t]).1@,
            ) == stones_after(seq![self.memo@[t].0 as int], 25) by {
                if t < oldmemo.len() {
                    assert(self.memo@[t] == oldmemo[t]);
                }
            }
        }
        cur
    }

    /// Expands a whole frequency table by 25 blinks.
    pub fn solve(&mut self, freq: &StoneCounts) -> (r: StoneCounts)
        requires
            old(self).wf(),
            forall|i: int|
                0 <= i < freq.entries@.len() ==> all_fit(
                    seq![(#[trigger] freq.entries@[i]).0 as int],
                    25,
                ),
            spec_tally(spec_solve_from(Seq::empty(), eview(freq.entries@), 0)) <= usize::MAX,
        ensures
            final(self).wf(),
            eview(r.entries@) == spec_solve_from(Seq::empty(), eview(freq.entries@), 0),
    {
        let ghost m = eview(freq.entries@);
        let ghost fin = spec_solve_from(Seq::<(u64, int)>::empty(), m, 0);
        let n: usize = freq.entries.len();
        let mut acc = StoneCounts::new();
        let mut i: usize = 0;
        proof {
            lemma_eview_nonneg(freq.entries@);
        }
        while i < n
            invariant
                i <= n,
                n == freq.entries@.len(),
                m == eview(freq.entries@),
                counts_nonneg(m),
                counts_nonneg(eview(acc.entries@)),
                self.wf(),
                forall|t: int|
                    0 <= t < freq.entries@.len() ==> all_fit(
                        seq![(#[trigger] freq.entries@[t]).0 as int],
                        25,
                    ),
                spec_tally(fin) <= usize::MAX,
                fin == spec_solve_from(eview(acc.entries@), m, i as int),
            decreases n - i,
        {
            let entry = freq.entries[i];
            proof {
                assert(m[i as int] == (entry.0, entry.1 as int));
                assert(freq.entries@[i as int].0 == entry.0);
            }
            let ws = self.solve_25(entry.0);
            let ghost wseq = stones_after(seq![entry.0 as int], 25);
            let wn: usize = ws.len();
            let mut t: usize = 0;
            proof {
                assert(wseq.subrange(0, wn as int) =~= wseq);
                assert(wseq.subrange(0, 0) =~= Seq::<int>::empty());
            }
            while t < wn
                invariant
                    t <= wn,
                    wn == ws@.len(),
                    u64s_int(ws@) == wseq,
                    wseq == stones_after(seq![entry.0 as int], 25),
                    counts_nonneg(eview(acc.entries@)),
                    counts_nonneg(m),
                    i < n,
                    m == eview(freq.entries@),
                    entry.1 as int == m[i as int].1,
                    spec_tally(fin) <= usize::MAX,
                    fin == spec_solve_from(
                        spec_expand(
                            eview(acc.entries@),
                            wseq.subrange(t as int, wn as int),
                            entry.1 as int,
                        ),
                        m,
                        i as int + 1,
                    ),
                decreases wn - t,
            {
                let w = ws[t];
                let ghost a0 = eview(acc.entries@);
                let ghost rest = wseq.subrange(t as int, wn as int);
                proof {
                    assert(rest.first() == wseq[t as int]);
                    assert(wseq[t as int] == w as int);
                    assert(rest.drop_first() =~= wseq.subrange(t as int + 1, wn as int));
                    assert(spec_expand(a0, rest, entry.1 as int) == spec_expand(
                        spec_bump(a0, w, entry.1 as int),
                        wseq.subrange(t as int + 1, wn as int),
                        entry.1 as int,
                    ));
                    // the bumped count stays below the final tally
                    lemma_bump_count(a0, w, entry.1 as int, w);
                    lemma_bump_tally(a0, w, entry.1 as int);
                    lemma_count_le_tally(spec_bump(a0, w, entry.1 as int), w);
                    lemma_expand_tally(
                        spec_bump(a0, w, entry.1 as int),
                        wseq.subrange(t as int + 1, wn as int),
                        entry.1 as int,
                    );
                    assert((entry.1 as int) * wseq.subrange(t as int + 1, wn as int).len() >= 0)
                        by (nonlinear_arith)
                        requires
                            entry.1 as int >= 0,
                            wseq.subrange(t as int + 1, wn as int).len() >= 0,
                    ;
                    lemma_solve_from_tally(
                        spec_expand(
                            spec_bump(a0, w, entry.1 as int),
                            wseq.subrange(t as int + 1, wn as int),
                            entry.1 as int,
                        ),
                        m,
                        i as int + 1,
                    );
                    lemma_count_le_tally(a0, w);
                }
                acc.bump(w, entry.1);
                t += 1;
            }
            i += 1;
        }
        acc
    }
}

/// Every key of a table has a 25-blink expansion within `u64`.
pub open spec fn keys_fit(m: Seq<(u64, int)>) -> bool {
    forall|i: int| 0 <= i < m.len() ==> all_fit(seq![(#[trigger] m[i]).0 as int], 25)
}

/// The frequency table of the input after one, two and three rounds of 25
/// blinks.
pub open spec fn stage(input: Seq<char>, k: nat) -> Seq<(u64, int)>
    decreases k,
{
    if k == 0 {
        spec_freq(start_u64s(input), parsing::spec_tokens(input).len() as int)
    } else {
        spec_solve_from(Seq::empty(), stage(input, (k - 1) as nat), 0)
    }
}

/// Counts the stones after 75 blinks, working on stone frequencies in three
/// rounds of 25 blinks each.
pub fn part_2(input: &str) -> (r: Option<usize>)
    requires
        forall|t: int|
            0 <= t < parsing::spec_tokens(input@).len() ==> parsing::is_u64_string(
                #[trigger] parsing::spec_tokens(input@)[t],
            ),
        keys_fit(stage(input@, 0)),
        keys_fit(stage(input@, 1)),
        keys_fit(stage(input@, 2)),
        spec_tally(stage(input@, 1)) <= usize::MAX,
        spec_tally(stage(input@, 2)) <= usize::MAX,
        spec_tally(stage(input@, 3)) <= usize::MAX,
    ensures
        r == Some(spec_tally(stage(input@, 3)) as usize),
{
    let inputs = parse_stones(input);
    let freq = freq_map(inputs.as_slice());
    proof {
        assert(eview(freq.entries@) == stage(input@, 0));
        assert forall|i: int| 0 <= i < freq.entries@.len() implies all_fit(
            seq![(#[trigger] freq.entries@[i]).0 as int],
            25,
        ) by {
            assert(eview(freq.entries@)[i].0 == freq.entries@[i].0);
        }
    }
    let mut solver = Solver::new();
    let f2 = solver.solve(&freq);
    proof {
        assert(eview(f2.entries@) == stage(input@, 1));
        assert forall|i: int| 0 <= i < f2.entries@.len() implies all_fit(
            seq![(#[trigger] f2.entries@[i]).0 as int],
            25,
        ) by {
            assert(eview(f2.entries@)[i].0 == f2.entries@[i].0);
        }
    }
    let f3 = solver.solve(&f2);
    proof {
        assert(eview(f3.entries@) == stage(input@, 2));
        assert forall|i: int| 0 <= i < f3.entries@.len() implies all_fit(
            seq![(#[trigger] f3.entries@[i]).0 as int],
            25,
        ) by {
            assert(eview(f3.entries@)[i].0 == f3.entries@[i].0);
        }
    }
    let f4 = solver.solve(&f3);
    proof {
        assert(eview(f4.entries@) == stage(input@, 3));
    }
    Some(tally(&f4))
}

} // verus!
