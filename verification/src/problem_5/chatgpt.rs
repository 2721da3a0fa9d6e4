//! A second cut of the page-ordering solver: rules and updates come from two
//! blank-line-separated sections, every field is trimmed, and each
//! incorrectly ordered update is rebuilt with the ordering rules.

use vstd::prelude::*;
use crate::parsing;
use crate::problem_5::topological;
use crate::problem_5::spec_correct;
use crate::problem_5::head_of;
use crate::problem_5::tail_of;
use crate::problem_5::dbl_nl_index;
use crate::problem_5::split_blank;

verus! {

use crate::problem_5::topological::in_pairs;
use crate::problem_5::topological::distinct;
use crate::problem_5::topological::strict_total_vals;
use crate::problem_5::topological::spec_fix;

/// How many whitespace characters lead the text.
pub open spec fn lead_ws(s: Seq<char>) -> nat
    decreases s.len(),
{
    if s.len() > 0 && parsing::is_space(s[0]) {
        1 + lead_ws(s.drop_first())
    } else {
        0
    }
}

/// How many whitespace characters trail the text.
pub open spec fn trail_ws(s: Seq<char>) -> nat
    decreases s.len(),
{
    if s.len() > 0 && parsing::is_space(s.last()) {
        1 + trail_ws(s.drop_last())
    } else {
        0
    }
}

/// The text with leading and trailing whitespace removed, as `str::trim`.
pub open spec fn spec_trim(s: Seq<char>) -> Seq<char> {
    if lead_ws(s) == s.len() {
        Seq::empty()
    } else {
        s.subrange(lead_ws(s) as int, s.len() - trail_ws(s))
    }
}

proof fn lemma_lead_ws_is(s: Seq<char>, j: int)
    requires
        0 <= j <= s.len(),
        forall|i: int| 0 <= i < j ==> parsing::is_space(#[trigger] s[i]),
        j < s.len() ==> !parsing::is_space(s[j]),
    ensures
        lead_ws(s) == j,
    decreases s.len(),
{
    if s.len() > 0 && parsing::is_space(s[0]) {
        lemma_lead_ws_is(s.drop_first(), j - 1);
    }
}

proof fn lemma_trail_ws_is(s: Seq<char>, j: int)
    requires
        0 <= j <= s.len(),
        forall|i: int| s.len() - j <= i < s.len() ==> parsing::is_space(#[trigger] s[i]),
        j < s.len() ==> !parsing::is_space(s[s.len() - j - 1]),
    ensures
        trail_ws(s) == j,
    decreases s.len(),
{
    if s.len() > 0 && parsing::is_space(s.last()) {
        assert forall|i: int| s.drop_last().len() - (j - 1) <= i < s.drop_last().len() implies parsing::is_space(
            #[trigger] s.drop_last()[i],
        ) by {
            assert(s.drop_last()[i] == s[i]);
        }
        lemma_trail_ws_is(s.drop_last(), j - 1);
    }
}

fn is_space_c(c: char) -> (b: bool)
    ensures
        b == parsing::is_space(c),
{
    c == ' ' || c == '\t' || c == '\n' || c == '\r'
}

/// Removes leading and trailing whitespace.
pub fn trim_chars(s: &[char]) -> (r: Vec<char>)
    ensures
        r@ == spec_trim(s@),
{
    let n: usize = s.len();
    let mut a: usize = 0;
    while a < n && is_space_c(s[a])
        invariant
            a <= n,
            n == s@.len(),
            forall|i: int| 0 <= i < a ==> parsing::is_space(#[trigger] s@[i]),
        decreases n - a,
    {
        a += 1;
    }
    proof {
        lemma_lead_ws_is(s@, a as int);
    }
    if a == n {
        let r: Vec<char> = Vec::new();
        proof {
            assert(r@ =~= spec_trim(s@));
        }
        return r;
    }
    let mut b: usize = n;
    while b > a && is_space_c(s[b - 1])
        invariant
            a <= b <= n,
            n == s@.len(),
            a < n,
            !parsing::is_space(s@[a as int]),
            forall|i: int| b <= i < n ==> parsing::is_space(#[trigger] s@[i]),
        decreases b,
    {
        b -= 1;
    }
    proof {
        if b == a {
            assert(parsing::is_space(s@[a as int]));
            assert(false);
        }
        lemma_trail_ws_is(s@, (n - b) as int);
    }
    let mut r: Vec<char> = Vec::new();
    let mut k: usize = a;
    while k < b
        invariant
            a <= k <= b <= n,
            n == s@.len(),
            r@ == s@.subrange(a as int, k as int),
        decreases b - k,
    {
        let c = s[k];
        r.push(c);
        proof {
            assert(r@ =~= s@.subrange(a as int, k as int + 1));
        }
        k += 1;
    }
    proof {
        assert(r@ =~= spec_trim(s@));
    }
    r
}

/// The pair a rule line names: the trimmed fields either side of the bar.
pub open spec fn spec_rule2_of(line: Seq<char>) -> (i32, i32) {
    let segs = parsing::spec_split(line, '|');
    (
        parsing::int_string_value(spec_trim(segs[0])) as i32,
        parsing::int_string_value(spec_trim(segs[1])) as i32,
    )
}

pub open spec fn rule2_ok(line: Seq<char>) -> bool {
    let segs = parsing::spec_split(line, '|');
    segs.len() >= 2 && parsing::is_i32_string(spec_trim(segs[0])) && parsing::is_i32_string(
        spec_trim(segs[1]),
    )
}

/// Reads one `a|b` rule line.
pub fn parse_rule(line: &str) -> (r: (i32, i32))
    requires
        rule2_ok(line@),
    ensures
        r == spec_rule2_of(line@),
{
    let cs = parsing::chars_of(line);
    parse_rule_chars(cs.as_slice())
}

fn parse_rule_chars(line: &[char]) -> (r: (i32, i32))
    requires
        rule2_ok(line@),
    ensures
        r == spec_rule2_of(line@),
{
    let segs = parsing::split_on(line, '|');
    let t0 = trim_chars(segs[0].as_slice());
    let t1 = trim_chars(segs[1].as_slice());
    let a: i32 = match parsing::parse_i32(t0.as_slice()) {
        Some(v) => v,
        None => {
            proof {
                assert(false);
            }
            vstd::pervasive::unreached()
        },
    };
    let b: i32 = match parsing::parse_i32(t1.as_slice()) {
        Some(v) => v,
        None => {
            proof {
                assert(false);
            }
            vstd::pervasive::unreached()
        },
    };
    (a, b)
}

/// The pages an update line names, each field trimmed.
pub open spec fn spec_update2_of(line: Seq<char>) -> Seq<i32> {
    parsing::spec_split(line, ',').map_values(
        |t: Seq<char>| parsing::int_string_value(spec_trim(t)) as i32,
    )
}

pub open spec fn update2_ok(line: Seq<char>) -> bool {
    let segs = parsing::spec_split(line, ',');
    forall|i: int| 0 <= i < segs.len() ==> parsing::is_i32_string(spec_trim(#[trigger] segs[i]))
}

/// Reads one comma-separated update line.
pub fn parse_update(line: &str) -> (r: Vec<i32>)
    requires
        update2_ok(line@),
    ensures
        r@ == spec_update2_of(line@),
{
    let cs = parsing::chars_of(line);
    parse_update_chars(cs.as_slice())
}

fn parse_update_chars(line: &[char]) -> (r: Vec<i32>)
    requires
        update2_ok(line@),
    ensures
        r@ == spec_update2_of(line@),
{
    let segs = parsing::split_on(line, ',');
    let n: usize = segs.len();
    let mut out: Vec<i32> = Vec::new();
    let mut i: usize = 0;
    while i < n
        invariant
            i <= n,
            n == segs@.len(),
            n == parsing::spec_split(line@, ',').len(),
            forall|t: int| 0 <= t < n ==> segs@[t]@ == parsing::spec_split(line@, ',')[t],
            update2_ok(line@),
            out@.len() == i,
            forall|t: int|
                0 <= t < i ==> out@[t] == parsing::int_string_value(
                    spec_trim(#[trigger] parsing::spec_split(line@, ',')[t]),
                ) as i32,
        decreases n - i,
    {
        proof {
            assert(parsing::is_i32_string(spec_trim(parsing::spec_split(line@, ',')[i as int])));
        }
        let tt = trim_chars(segs[i].as_slice());
        let v: i32 = match parsing::parse_i32(tt.as_slice()) {
            Some(v) => v,
            None => {
                proof {
                    assert(false);
                }
                vstd::pervasive::unreached()
            },
        };
        out.push(v);
        i += 1;
    }
    proof {
        assert(out@ =~= spec_update2_of(line@));
    }
    out
}

/// Whether no ordering rule places a later page of the update before an
/// earlier one.
pub fn is_correct_order(update: &[i32], constraints: &[(i32, i32)]) -> (r: bool)
    ensures
        r == spec_correct(constraints@, update@),
{
    let n: usize = update.len();
    let mut j: usize = 0;
    while j < n
        invariant
            j <= n,
            n == update@.len(),
            forall|a: int, b: int|
                0 <= a < b < j ==> !in_pairs(constraints@, update@[b], update@[a]),
        decreases n - j,
    {
        let mut i: usize = 0;
        while i < j
            invariant
                i <= j < n,
                n == update@.len(),
                forall|a: int, b: int|
                    0 <= a < b < j ==> !in_pairs(constraints@, update@[b], update@[a]),
                forall|a: int| 0 <= a < i ==> !in_pairs(constraints@, update@[j as int], update@[a]),
            decreases j - i,
        {
            let m: usize = constraints.len();
            let mut k: usize = 0;
            while k < m
                invariant
                    k <= m,
                    m == constraints@.len(),
                    i < j < n,
                    n == update@.len(),
                    forall|t: int|
                        0 <= t < k ==> #[trigger] constraints@[t] != (
                            update@[j as int],
                            update@[i as int],
                        ),
                decreases m - k,
            {
                let p = constraints[k];
                let x = update[j];
                let y = update[i];
                if p.0 == x && p.1 == y {
                    proof {
                        assert(in_pairs(constraints@, update@[j as int], update@[i as int]));
                    }
                    return false;
                }
                k += 1;
            }
            proof {
                assert(!in_pairs(constraints@, update@[j as int], update@[i as int]));
            }
            i += 1;
        }
        proof {
            assert forall|a: int, b: int| 0 <= a < b < j + 1 implies !in_pairs(
                constraints@,
                update@[b],
                update@[a],
            ) by {
                if b == j as int {
                    assert(!in_pairs(constraints@, update@[j as int], update@[a]));
                }
            }
        }
        j += 1;
    }
    true
}

/// Orders the pages under the constraints; they must order the distinct
/// pages strictly and totally.
pub fn topological_sort(pages: &[i32], constraints: &[(i32, i32)]) -> (r: Vec<i32>)
    requires
        distinct(pages@),
        strict_total_vals(constraints@, pages@),
    ensures
        r@ == spec_fix(constraints@, pages@),
        r@.len() == pages@.len(),
{
    topological::topological_sort(pages, constraints)
}

/// The middle page of an update.
pub fn middle_page(pages: &[i32]) -> (r: i32)
    requires
        pages@.len() >= 1,
    ensures
        r == pages@[pages@.len() as int / 2],
{
    let middle: usize = pages.len() / 2;
    pages[middle]
}

/// The rule pairs of the trimmed rule section.
pub open spec fn rules2(input: Seq<char>) -> Seq<(i32, i32)> {
    spec_rules2_upto(
        parsing::spec_lines(spec_trim(head_of(input))),
        parsing::spec_lines(spec_trim(head_of(input))).len() as int,
    )
}

pub open spec fn spec_rules2_upto(lines: Seq<Seq<char>>, n: int) -> Seq<(i32, i32)>
    decreases n,
{
    if n <= 0 {
        Seq::empty()
    } else {
        spec_rules2_upto(lines, n - 1) + seq![spec_rule2_of(lines[n - 1])]
    }
}

/// The sum of the fixed middle pages of the incorrect updates.
pub open spec fn sum_fixed2(lines: Seq<Seq<char>>, pairs: Seq<(i32, i32)>, n: int) -> int
    decreases n,
{
    if n <= 0 {
        0
    } else {
        sum_fixed2(lines, pairs, n - 1) + if !spec_correct(pairs, spec_update2_of(lines[n - 1])) {
            spec_fix(pairs, spec_update2_of(lines[n - 1]))[spec_update2_of(lines[n - 1]).len()
                as int / 2] as int
        } else {
            0int
        }
    }
}

/// The inputs `solve` accepts: two blank-line-separated sections of
/// well-formed rules and updates, running sums within `i32`, and rules that
/// order each incorrect update's distinct pages strictly and totally.
pub open spec fn solve_ok(input: Seq<char>) -> bool {
    let rl = parsing::spec_lines(spec_trim(head_of(input)));
    let ul = parsing::spec_lines(spec_trim(tail_of(input)));
    let pairs = rules2(input);
    &&& dbl_nl_index(input) + 2 <= input.len()
    &&& forall|l: int| 0 <= l < rl.len() ==> rule2_ok(#[trigger] rl[l])
    &&& forall|l: int| 0 <= l < ul.len() ==> update2_ok(#[trigger] ul[l])
    &&& forall|k: int| 0 <= k <= ul.len() ==> i32::MIN <= #[trigger] sum_fixed2(ul, pairs, k)
        <= i32::MAX
    &&& forall|l: int|
        0 <= l < ul.len() && !spec_correct(pairs, spec_update2_of(#[trigger] ul[l])) ==> distinct(
            spec_update2_of(ul[l]),
        ) && strict_total_vals(pairs, spec_update2_of(ul[l]))
}

/// Rebuilds every incorrectly ordered update and sums the fixed middles.
pub fn solve(input: &str) -> (r: i32)
    requires
        solve_ok(input@),
    ensures
        ({
            let ul = parsing::spec_lines(spec_trim(tail_of(input@)));
            r == sum_fixed2(ul, rules2(input@), ul.len() as int) as i32
        }),
{
    let ghost rl = parsing::spec_lines(spec_trim(head_of(input@)));
    let ghost ul = parsing::spec_lines(spec_trim(tail_of(input@)));
    let ghost pairs = rules2(input@);
    let cs = parsing::chars_of(input);
    let (headraw, tailraw) = match split_blank(cs.as_slice()) {
        Some(p) => p,
        None => {
            proof {
                assert(false);
            }
            vstd::pervasive::unreached()
        },
    };
    let rules_section = trim_chars(headraw.as_slice());
    let updates_section = trim_chars(tailraw.as_slice());
    let rlines = parsing::split_lines(rules_section.as_slice());
    let rn: usize = rlines.len();
    let mut all_rules: Vec<(i32, i32)> = Vec::new();
    let mut i: usize = 0;
    while i < rn
        invariant
            i <= rn,
            rn == rl.len(),
            rlines@.len() == rl.len(),
            forall|l: int| 0 <= l < rn ==> rlines@[l]@ == rl[l],
            forall|l: int| 0 <= l < rn ==> rule2_ok(#[trigger] rl[l]),
            all_rules@ == spec_rules2_upto(rl, i as int),
        decreases rn - i,
    {
        proof {
            assert(rlines@[i as int]@ == rl[i as int]);
            assert(rule2_ok(rl[i as int]));
        }
        let p = parse_rule_chars(rlines[i].as_slice());
        all_rules.push(p);
        proof {
            assert(all_rules@ =~= spec_rules2_upto(rl, i as int + 1));
        }
        i += 1;
    }
    proof {
        assert(all_rules@ == pairs);
    }
    let ulines = parsing::split_lines(updates_section.as_slice());
    let un: usize = ulines.len();
    let mut sum: i32 = 0;
    let mut u: usize = 0;
    while u < un
        invariant
            u <= un,
            un == ul.len(),
            ulines@.len() == ul.len(),
            forall|l: int| 0 <= l < un ==> ulines@[l]@ == ul[l],
            all_rules@ == pairs,
            solve_ok(input@),
            rl == parsing::spec_lines(spec_trim(head_of(input@))),
            ul == parsing::spec_lines(spec_trim(tail_of(input@))),
            pairs == rules2(input@),
            sum == sum_fixed2(ul, pairs, u as int),
        decreases un - u,
    {
        proof {
            assert(ulines@[u as int]@ == ul[u as int]);
            assert(update2_ok(ul[u as int]));
            assert(i32::MIN <= sum_fixed2(ul, pairs, u as int + 1) <= i32::MAX);
            assert(parsing::spec_split(ul[u as int], ',').len() >= 1);
        }
        let upd = parse_update_chars(ulines[u].as_slice());
        if !is_correct_order(upd.as_slice(), all_rules.as_slice()) {
            let fixed = topological_sort(upd.as_slice(), all_rules.as_slice());
            let m = middle_page(fixed.as_slice());
            sum = sum + m;
        }
        u += 1;
    }
    sum
}

} // verus!
