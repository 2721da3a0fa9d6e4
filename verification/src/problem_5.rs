//! Page-ordering rules and print updates: rule `a|b` means page `a` must be
//! printed before page `b`.  The first answer sums the middle pages of the
//! correctly ordered updates; the second fixes each incorrect update with
//! the rules and sums the fixed middle pages.

use vstd::prelude::*;
use crate::parsing;

pub mod topological;
pub mod chatgpt;

verus! {

use crate::problem_5::topological::in_pairs;
use crate::problem_5::topological::distinct;
use crate::problem_5::topological::strict_total_vals;
use crate::problem_5::topological::spec_fix;
use crate::problem_5::topological::topological_sort;

/// The rule pairs named by the rule lines (`a|b`, one per line).
pub open spec fn spec_rule_pairs(lines: Seq<Seq<char>>, n: int) -> Seq<(i32, i32)>
    decreases n,
{
    if n <= 0 {
        Seq::empty()
    } else {
        spec_rule_pairs(lines, n - 1) + seq![spec_rule_of(lines[n - 1])]
    }
}

/// The pair one rule line denotes.
pub open spec fn spec_rule_of(line: Seq<char>) -> (i32, i32) {
    let segs = parsing::spec_split(line, '|');
    (
        parsing::int_string_value(segs[0]) as i32,
        parsing::int_string_value(segs[1]) as i32,
    )
}

/// A well-formed rule line: two decimal pages split by one bar.
pub open spec fn rule_line_ok(line: Seq<char>) -> bool {
    let segs = parsing::spec_split(line, '|');
    segs.len() == 2 && parsing::is_i32_string(segs[0]) && parsing::is_i32_string(segs[1])
}

/// A well-formed update line: comma-separated decimal pages.
pub open spec fn update_line_ok(line: Seq<char>) -> bool {
    let segs = parsing::spec_split(line, ',');
    forall|i: int| 0 <= i < segs.len() ==> parsing::is_i32_string(#[trigger] segs[i])
}

/// The pages one update line names.
pub open spec fn spec_pages_of(line: Seq<char>) -> Seq<i32> {
    parsing::spec_split(line, ',').map_values(|t: Seq<char>| parsing::int_string_value(t) as i32)
}

/// An update is in correct order when no later page must come before an
/// earlier one.
pub open spec fn spec_correct(pairs: Seq<(i32, i32)>, pages: Seq<i32>) -> bool {
    forall|i: int, j: int| 0 <= i < j < pages.len() ==> !in_pairs(pairs, pages[j], pages[i])
}

/// Reads the rule lines into pairs.
pub fn rules(input: &str) -> (r: Vec<(i32, i32)>)
    requires
        forall|l: int|
            0 <= l < parsing::spec_lines(input@).len() ==> rule_line_ok(
                #[trigger] parsing::spec_lines(input@)[l],
            ),
    ensures
        r@ == spec_rule_pairs(parsing::spec_lines(input@), parsing::spec_lines(input@).len() as int),
{
    let ghost glines = parsing::spec_lines(input@);
    let cs = parsing::chars_of(input);
    let lines = parsing::split_lines(cs.as_slice());
    let n: usize = lines.len();
    let mut out: Vec<(i32, i32)> = Vec::new();
    let mut i: usize = 0;
    while i < n
        invariant
            i <= n,
            n == glines.len(),
            lines@.len() == glines.len(),
            glines == parsing::spec_lines(input@),
            forall|l: int| 0 <= l < n ==> lines@[l]@ == glines[l],
            forall|l: int| 0 <= l < n ==> rule_line_ok(#[trigger] parsing::spec_lines(input@)[l]),
            out@ == spec_rule_pairs(glines, i as int),
        decreases n - i,
    {
        proof {
            assert(lines@[i as int]@ == glines[i as int]);
            assert(rule_line_ok(parsing::spec_lines(input@)[i as int]));
        }
        let segs = parsing::split_on(lines[i].as_slice(), '|');
        let a: i32 = match parsing::parse_i32(segs[0].as_slice()) {
            Some(v) => v,
            None => {
                proof {
                    assert(false);
                }
                vstd::pervasive::unreached()
            },
        };
        let b: i32 = match parsing::parse_i32(segs[1].as_slice()) {
            Some(v) => v,
            None => {
                proof {
                    assert(false);
                }
                vstd::pervasive::unreached()
            },
        };
        out.push((a, b));
        proof {
            assert(out@ =~= spec_rule_pairs(glines, i as int + 1));
        }
        i += 1;
    }
    out
}

/// Reads one update line into its pages.
pub fn pages(input: &str) -> (r: Vec<i32>)
    requires
        update_line_ok(input@),
    ensures
        r@ == spec_pages_of(input@),
{
    let cs = parsing::chars_of(input);
    pages_of_chars(cs.as_slice())
}

/// As `pages`, over an already split line.
pub fn pages_of_chars(line: &[char]) -> (r: Vec<i32>)
    requires
        update_line_ok(line@),
    ensures
        r@ == spec_pages_of(line@),
{
    let segs = parsing::split_on(line, ',');
    let n: usize = segs.len();
    let mut out: Vec<i32> = Vec::new();
    let mut i: usize = 0;
    while i < n
        invariant
            i <= n,
            n == segs@.len(),
            n == parsing::spec_split(line@, ',').len(),
            forall|t: int| 0 <= t < n ==> segs@[t]@ == parsing::spec_split(line@, ',')[t],
            update_line_ok(line@),
            out@.len() == i,
            forall|t: int|
                0 <= t < i ==> out@[t] == parsing::int_string_value(
                    #[trigger] parsing::spec_split(line@, ',')[t],
                ) as i32,
        decreases n - i,
    {
        proof {
            assert(parsing::is_i32_string(parsing::spec_split(line@, ',')[i as int]));
        }
        let v: i32 = match parsing::parse_i32(segs[i].as_slice()) {
            Some(v) => v,
            None => {
                proof {
                    assert(false);
                }
                vstd::pervasive::unreached()
            },
        };
        out.push(v);
        i += 1;
    }
    proof {
        assert(out@ =~= spec_pages_of(line@));
    }
    out
}

/// The middle page of an update.
pub fn middle_page(pages: Vec<i32>) -> (r: i32)
    requires
        pages@.len() >= 1,
    ensures
        r == pages@[pages@.len() as int / 2],
{
    let middle: usize = pages.len() / 2;
    pages[middle]
}

/// Whether an update is correctly ordered under the rules.
pub fn correct_order(pages: Vec<i32>, rules: &Vec<(i32, i32)>) -> (r: bool)
    ensures
        r == spec_correct(rules@, pages@),
{
    let n: usize = pages.len();
    let mut j: usize = 0;
    while j < n
        invariant
            j <= n,
            n == pages@.len(),
            forall|a: int, b: int| 0 <= a < b < j ==> !in_pairs(rules@, pages@[b], pages@[a]),
        decreases n - j,
    {
        let mut i: usize = 0;
        while i < j
            invariant
                i <= j < n,
                n == pages@.len(),
                forall|a: int, b: int| 0 <= a < b < j ==> !in_pairs(rules@, pages@[b], pages@[a]),
                forall|a: int| 0 <= a < i ==> !in_pairs(rules@, pages@[j as int], pages@[a]),
            decreases j - i,
    {
            let m: usize = rules.len();
            let mut k: usize = 0;
            while k < m
                invariant
                    k <= m,
                    m == rules@.len(),
                    i < j < n,
                    n == pages@.len(),
                    forall|t: int|
                        0 <= t < k ==> #[trigger] rules@[t] != (pages@[j as int], pages@[i as int]),
                decreases m - k,
            {
                let p = rules[k];
                let x = pages[j];
                let y = pages[i];
                if p.0 == x && p.1 == y {
                    proof {
                        assert(in_pairs(rules@, pages@[j as int], pages@[i as int]));
                    }
                    return false;
                }
                k += 1;
            }
            proof {
                assert(!in_pairs(rules@, pages@[j as int], pages@[i as int]));
            }
            i += 1;
        }
        proof {
            assert forall|a: int, b: int| 0 <= a < b < j + 1 implies !in_pairs(
                rules@,
                pages@[b],
                pages@[a],
            ) by {
                if b == j as int {
                    assert(!in_pairs(rules@, pages@[j as int], pages@[a]));
                }
            }
        }
        j += 1;
    }
    true
}

/// Reorders an incorrect update with the rules; they must order its distinct
/// pages strictly and totally.
pub fn fix_order(pages: &[i32], rules: &Vec<(i32, i32)>) -> (r: Vec<i32>)
    requires
        distinct(pages@),
        strict_total_vals(rules@, pages@),
    ensures
        r@ == spec_fix(rules@, pages@),
        r@.len() == pages@.len(),
{
    topological_sort(pages, rules.as_slice())
}

/// The middle page of a correct update, `None` for an incorrect one.
pub fn get_middle_if_correct(input: &str, rules: &Vec<(i32, i32)>) -> (r: Option<i32>)
    requires
        update_line_ok(input@),
        parsing::spec_split(input@, ',').len() >= 1,
    ensures
        r == (if spec_correct(rules@, spec_pages_of(input@)) {
            Some(spec_pages_of(input@)[spec_pages_of(input@).len() as int / 2])
        } else {
            None::<i32>
        }),
{
    let ps = pages(input);
    let ps2 = pages(input);
    if correct_order(ps, rules) {
        Some(middle_page(ps2))
    } else {
        None
    }
}

/// The index of the first blank-line break (two line feeds in a row), or the
/// text length when there is none.
pub open spec fn dbl_nl_index(s: Seq<char>) -> nat
    decreases s.len(),
{
    if s.len() <= 1 {
        s.len()
    } else if s[0] == '\n' && s[1] == '\n' {
        0
    } else {
        1 + dbl_nl_index(s.drop_first())
    }
}

proof fn lemma_dbl_nl_is(s: Seq<char>, j: int)
    requires
        0 <= j,
        j + 1 <= s.len(),
        forall|i: int| 0 <= i < j ==> !(#[trigger] s[i] == '\n' && s[i + 1] == '\n'),
        j + 1 < s.len() ==> s[j] == '\n' && s[j + 1] == '\n',
    ensures
        j + 1 < s.len() ==> dbl_nl_index(s) == j,
        j + 1 == s.len() ==> dbl_nl_index(s) >= j,
    decreases s.len(),
{
    if s.len() > 1 && !(s[0] == '\n' && s[1] == '\n') {
        if j > 0 {
            lemma_dbl_nl_is(s.drop_first(), j - 1);
        }
    }
}

/// The rule section: everything before the first blank line.
pub open spec fn head_of(s: Seq<char>) -> Seq<char> {
    s.subrange(0, dbl_nl_index(s) as int)
}

/// The update section: everything after the first blank line.
pub open spec fn tail_of(s: Seq<char>) -> Seq<char> {
    s.subrange(dbl_nl_index(s) as int + 2, s.len() as int)
}

/// Splits the input at its first blank line, as `split_once` on a double
/// line feed; `None` when there is no blank line.
pub fn split_blank(s: &[char]) -> (r: Option<(Vec<char>, Vec<char>)>)
    ensures
        r is Some <==> dbl_nl_index(s@) + 2 <= s@.len(),
        r is Some ==> (r->0).0@ == head_of(s@) && (r->0).1@ == tail_of(s@),
{
    let n: usize = s.len();
    let mut j: usize = 0;
    while j + 1 < n && !(s[j] == '\n' && s[j + 1] == '\n')
        invariant
            n == s@.len(),
            j <= n,
            n > 0 ==> j + 1 <= n,
            forall|i: int| 0 <= i < j ==> !(#[trigger] s@[i] == '\n' && s@[i + 1] == '\n'),
        decreases n - j,
    {
        j += 1;
    }
    if n == 0 || j + 1 >= n {
        proof {
            if n > 0 {
                lemma_dbl_nl_is(s@, j as int);
            }
        }
        return None;
    }
    proof {
        lemma_dbl_nl_is(s@, j as int);
    }
    let mut head: Vec<char> = Vec::new();
    let mut k: usize = 0;
    while k < j
        invariant
            k <= j,
            j < n,
            n == s@.len(),
            head@ == s@.subrange(0, k as int),
        decreases j - k,
    {
        let c = s[k];
        head.push(c);
        proof {
            assert(head@ =~= s@.subrange(0, k as int + 1));
        }
        k += 1;
    }
    let mut tail: Vec<char> = Vec::new();
    let mut t: usize = j + 2;
    while t < n
        invariant
            j + 2 <= t <= n,
            n == s@.len(),
            tail@ == s@.subrange(j as int + 2, t as int),
        decreases n - t,
    {
        let c = s[t];
        tail.push(c);
        proof {
            assert(tail@ =~= s@.subrange(j as int + 2, t as int + 1));
        }
        t += 1;
    }
    Some((head, tail))
}

/// The sum of the middle pages of the correct updates among the first `n`.
pub open spec fn sum_correct(lines: Seq<Seq<char>>, pairs: Seq<(i32, i32)>, n: int) -> int
    decreases n,
{
    if n <= 0 {
        0
    } else {
        sum_correct(lines, pairs, n - 1) + if spec_correct(pairs, spec_pages_of(lines[n - 1])) {
            spec_pages_of(lines[n - 1])[spec_pages_of(lines[n - 1]).len() as int / 2] as int
        } else {
            0int
        }
    }
}

/// The sum of the fixed middle pages of the incorrect updates.
pub open spec fn sum_fixed(lines: Seq<Seq<char>>, pairs: Seq<(i32, i32)>, n: int) -> int
    decreases n,
{
    if n <= 0 {
        0
    } else {
        sum_fixed(lines, pairs, n - 1) + if !spec_correct(pairs, spec_pages_of(lines[n - 1])) {
            spec_fix(pairs, spec_pages_of(lines[n - 1]))[spec_pages_of(lines[n - 1]).len() as int
                / 2] as int
        } else {
            0int
        }
    }
}

/// The inputs the solvers accept: a rule section and an update section split
/// by a blank line, rules and updates well formed, and running sums within
/// `i32`; for the fixing pass the rules must order each incorrect update's
/// distinct pages strictly and totally.
pub open spec fn sections_ok(input: Seq<char>) -> bool {
    let rl = parsing::spec_lines(head_of(input));
    let ul = parsing::spec_lines(tail_of(input));
    &&& dbl_nl_index(input) + 2 <= input.len()
    &&& forall|l: int| 0 <= l < rl.len() ==> rule_line_ok(#[trigger] rl[l])
    &&& forall|l: int| 0 <= l < ul.len() ==> update_line_ok(#[trigger] ul[l])
}

pub open spec fn part_1_ok(input: Seq<char>) -> bool {
    let rl = parsing::spec_lines(head_of(input));
    let ul = parsing::spec_lines(tail_of(input));
    let pairs = spec_rule_pairs(rl, rl.len() as int);
    &&& sections_ok(input)
    &&& forall|k: int| 0 <= k <= ul.len() ==> i32::MIN <= #[trigger] sum_correct(ul, pairs, k)
        <= i32::MAX
}

/// Sums the middle pages of the correctly ordered updates.
pub fn part_1(input: &str) -> (r: Option<i32>)
    requires
        part_1_ok(input@),
    ensures
        ({
            let rl = parsing::spec_lines(head_of(input@));
            let ul = parsing::spec_lines(tail_of(input@));
            let pairs = spec_rule_pairs(rl, rl.len() as int);
            r == Some(sum_correct(ul, pairs, ul.len() as int) as i32)
        }),
{
    let ghost rl = parsing::spec_lines(head_of(input@));
    let ghost ul = parsing::spec_lines(tail_of(input@));
    let ghost pairs = spec_rule_pairs(rl, rl.len() as int);
    let cs = parsing::chars_of(input);
    let (head, tail) = match split_blank(cs.as_slice()) {
        Some(p) => p,
        None => {
            proof {
                assert(false);
            }
            vstd::pervasive::unreached()
        },
    };
    let rls = rules_of_chars(head.as_slice(), Ghost(head_of(input@)));
    let lines = parsing::split_lines(tail.as_slice());
    let n: usize = lines.len();
    let mut sum: i32 = 0;
    let mut i: usize = 0;
    while i < n
        invariant
            i <= n,
            n == ul.len(),
            lines@.len() == ul.len(),
            forall|l: int| 0 <= l < n ==> lines@[l]@ == ul[l],
            rls@ == pairs,
            part_1_ok(input@),
            rl == parsing::spec_lines(head_of(input@)),
            ul == parsing::spec_lines(tail_of(input@)),
            pairs == spec_rule_pairs(rl, rl.len() as int),
            sum == sum_correct(ul, pairs, i as int),
        decreases n - i,
    {
        proof {
            assert(lines@[i as int]@ == ul[i as int]);
            assert(update_line_ok(ul[i as int]));
            assert(i32::MIN <= sum_correct(ul, pairs, i as int + 1) <= i32::MAX);
            assert(parsing::spec_split(ul[i as int], ',').len() >= 1);
        }
        let ps = pages_of_chars(lines[i].as_slice());
        let ps2 = pages_of_chars(lines[i].as_slice());
        if correct_order(ps, &rls) {
            let m = middle_page(ps2);
            sum = sum + m;
        }
        i += 1;
    }
    Some(sum)
}

/// As `rules`, over an already split section.
fn rules_of_chars(head: &[char], Ghost(hspec): Ghost<Seq<char>>) -> (r: Vec<(i32, i32)>)
    requires
        head@ == hspec,
        forall|l: int|
            0 <= l < parsing::spec_lines(hspec).len() ==> rule_line_ok(
                #[trigger] parsing::spec_lines(hspec)[l],
            ),
    ensures
        r@ == spec_rule_pairs(parsing::spec_lines(hspec), parsing::spec_lines(hspec).len() as int),
{
    let ghost glines = parsing::spec_lines(hspec);
    let lines = parsing::split_lines(head);
    let n: usize = lines.len();
    let mut out: Vec<(i32, i32)> = Vec::new();
    let mut i: usize = 0;
    while i < n
        invariant
            i <= n,
            n == glines.len(),
            lines@.len() == glines.len(),
            forall|l: int| 0 <= l < n ==> lines@[l]@ == glines[l],
            forall|l: int| 0 <= l < n ==> rule_line_ok(#[trigger] glines[l]),
            out@ == spec_rule_pairs(glines, i as int),
        decreases n - i,
    {
        proof {
            assert(lines@[i as int]@ == glines[i as int]);
            assert(rule_line_ok(glines[i as int]));
        }
        let segs = parsing::split_on(lines[i].as_slice(), '|');
        let a: i32 = match parsing::parse_i32(segs[0].as_slice()) {
            Some(v) => v,
            None => {
                proof {
                    assert(false);
                }
                vstd::pervasive::unreached()
            },
        };
        let b: i32 = match parsing::parse_i32(segs[1].as_slice()) {
            Some(v) => v,
            None => {
                proof {
                    assert(false);
                }
                vstd::pervasive::unreached()
            },
        };
        out.push((a, b));
        proof {
            assert(out@ =~= spec_rule_pairs(glines, i as int + 1));
        }
        i += 1;
    }
    out
}

pub open spec fn part_2_ok(input: Seq<char>) -> bool {
    let rl = parsing::spec_lines(head_of(input));
    let ul = parsing::spec_lines(tail_of(input));
    let pairs = spec_rule_pairs(rl, rl.len() as int);
    &&& sections_ok(input)
    &&& forall|k: int| 0 <= k <= ul.len() ==> i32::MIN <= #[trigger] sum_fixed(ul, pairs, k)
        <= i32::MAX
    &&& forall|l: int|
        0 <= l < ul.len() && !spec_correct(pairs, spec_pages_of(#[trigger] ul[l])) ==> distinct(
            spec_pages_of(ul[l]),
        ) && strict_total_vals(pairs, spec_pages_of(ul[l]))
}

/// Fixes each incorrectly ordered update and sums the fixed middle pages.
pub fn part_2(input: &str) -> (r: Option<i32>)
    requires
        part_2_ok(input@),
    ensures
        ({
            let rl = parsing::spec_lines(head_of(input@));
            let ul = parsing::spec_lines(tail_of(input@));
            let pairs = spec_rule_pairs(rl, rl.len() as int);
            r == Some(sum_fixed(ul, pairs, ul.len() as int) as i32)
        }),
{
    let ghost rl = parsing::spec_lines(head_of(input@));
    let ghost ul = parsing::spec_lines(tail_of(input@));
    let ghost pairs = spec_rule_pairs(rl, rl.len() as int);
    let cs = parsing::chars_of(input);
    let (head, tail) = match split_blank(cs.as_slice()) {
        Some(p) => p,
        None => {
            proof {
                assert(false);
            }
            vstd::pervasive::unreached()
        },
    };
    let rls = rules_of_chars(head.as_slice(), Ghost(head_of(input@)));
    let lines = parsing::split_lines(tail.as_slice());
    let n: usize = lines.len();
    let mut sum: i32 = 0;
    let mut i: usize = 0;
    while i < n
        invariant
            i <= n,
            n == ul.len(),
            lines@.len() == ul.len(),
            forall|l: int| 0 <= l < n ==> lines@[l]@ == ul[l],
            rls@ == pairs,
            part_2_ok(input@),
            rl == parsing::spec_lines(head_of(input@)),
            ul == parsing::spec_lines(tail_of(input@)),
            pairs == spec_rule_pairs(rl, rl.len() as int),
            sum == sum_fixed(ul, pairs, i as int),
        decreases n - i,
    {
        proof {
            assert(lines@[i as int]@ == ul[i as int]);
            assert(update_line_ok(ul[i as int]));
            assert(i32::MIN <= sum_fixed(ul, pairs, i as int + 1) <= i32::MAX);
            assert(parsing::spec_split(ul[i as int], ',').len() >= 1);
        }
        let ps = pages_of_chars(lines[i].as_slice());
        let ps2 = pages_of_chars(lines[i].as_slice());
        if !correct_order(ps, &rls) {
            let fixed = fix_order(ps2.as_slice(), &rls);
            let m = middle_page(fixed);
            sum = sum + m;
        }
        i += 1;
    }
    Some(sum)
}

} // verus!
