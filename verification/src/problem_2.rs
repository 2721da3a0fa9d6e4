//! Reactor level reports: a report (one line of numbers) is safe when its
//! values are strictly monotone and neighbours differ by one to three.  The
//! first answer counts safe reports; the second also accepts reports that one
//! removal would make safe.

use vstd::prelude::*;
use crate::parsing;

verus! {

/// Neighbouring values differ by at least one and at most three.
pub open spec fn diffs_ok(s: Seq<i32>) -> bool {
    forall|i: int|
        0 <= i < s.len() - 1 ==> {
            let d = #[trigger] s[i + 1] - s[i];
            (1 <= d && d <= 3) || (-3 <= d && d <= -1)
        }
}

/// The values all rise, or all fall.
pub open spec fn monotone(s: Seq<i32>) -> bool {
    (forall|i: int| 0 <= i < s.len() - 1 ==> #[trigger] s[i + 1] > s[i]) || (forall|i: int|
        0 <= i < s.len() - 1 ==> #[trigger] s[i + 1] < s[i])
}

/// A safe report.
pub open spec fn spec_safe(s: Seq<i32>) -> bool {
    diffs_ok(s) && monotone(s)
}

/// A report that is safe outright, or becomes safe once one value is removed.
pub open spec fn spec_safe_dampened(s: Seq<i32>) -> bool {
    spec_safe(s) || exists|i: int| 0 <= i < s.len() && spec_safe(#[trigger] s.remove(i))
}

/// Reports whether one line of levels is safe.
pub fn level_safe(line: &[i32]) -> (r: bool)
    ensures
        r == spec_safe(line@),
{
    let n: usize = line.len();
    if n < 2 {
        return true;
    }
    let inc: bool = line[1] > line[0];
    let mut i: usize = 0;
    while i + 1 < n
        invariant
            n == line@.len(),
            n >= 2,
            i < n,
            inc == (line@[1] > line@[0]),
            forall|t: int|
                0 <= t < i ==> {
                    let d = #[trigger] line@[t + 1] - line@[t];
                    (1 <= d && d <= 3) || (-3 <= d && d <= -1)
                },
            forall|t: int|
                0 <= t < i ==> (inc ==> #[trigger] line@[t + 1] > line@[t]) && (!inc ==> line@[t
                    + 1] < line@[t]),
        decreases n - i,
    {
        let a: i64 = line[i] as i64;
        let b: i64 = line[i + 1] as i64;
        let d: i64 = b - a;
        if d == 0 || d > 3 || d < -3 {
            proof {
                assert(!diffs_ok(line@)) by {
                    let dd = line@[i as int + 1] - line@[i as int];
                    assert(!((1 <= dd && dd <= 3) || (-3 <= dd && dd <= -1)));
                }
            }
            return false;
        }
        if (d > 0) != inc {
            proof {
                let ii = i as int;
                if inc {
                    assert(line@[0int + 1] > line@[0int]);
                    assert(line@[ii + 1] < line@[ii]);
                } else {
                    assert(line@[0int + 1] < line@[0int]);
                    assert(line@[ii + 1] > line@[ii]);
                }
                assert(!monotone(line@));
            }
            return false;
        }
        i += 1;
    }
    proof {
        assert(diffs_ok(line@));
        if inc {
            assert(forall|t: int| 0 <= t < line@.len() - 1 ==> #[trigger] line@[t + 1] > line@[t]);
        } else {
            assert(forall|t: int| 0 <= t < line@.len() - 1 ==> #[trigger] line@[t + 1] < line@[t]);
        }
    }
    true
}

/// `v` with the element at `i` removed.
fn vec_without(v: &Vec<i32>, i: usize) -> (r: Vec<i32>)
    requires
        i < v@.len(),
    ensures
        r@ == v@.remove(i as int),
{
    let n: usize = v.len();
    let mut r: Vec<i32> = Vec::new();
    let mut k: usize = 0;
    while k < n
        invariant
            k <= n,
            n == v@.len(),
            i < n,
            r@ == (if k <= i {
                v@.subrange(0, k as int)
            } else {
                v@.subrange(0, i as int) + v@.subrange(i as int + 1, k as int)
            }),
        decreases n - k,
    {
        if k != i {
            let x = v[k];
            r.push(x);
        }
        proof {
            if k + 1 <= i {
                assert(r@ =~= v@.subrange(0, k as int + 1));
            } else if k as int == i {
                assert(r@ =~= v@.subrange(0, i as int) + v@.subrange(i as int + 1, k as int + 1));
            } else {
                assert(r@ =~= v@.subrange(0, i as int) + v@.subrange(i as int + 1, k as int + 1));
            }
        }
        k += 1;
    }
    proof {
        assert(r@ =~= v@.remove(i as int));
    }
    r
}

/// Reports whether one line of levels is safe when one bad value may be
/// dropped.  The line must hold whitespace-separated decimal values.
pub fn level_safe_dampened(line: &str) -> (r: bool)
    requires
        parsing::line_all_i32(line@),
    ensures
        r == spec_safe_dampened(parsing::line_i32_values(line@)),
{
    let cs = parsing::chars_of(line);
    let nums: Vec<i32> = match parsing::parse_i32_line(cs.as_slice()) {
        Some(v) => v,
        None => {
            proof {
                assert(false);
            }
            vstd::pervasive::unreached()
        },
    };
    if level_safe(nums.as_slice()) {
        return true;
    }
    let n: usize = nums.len();
    let mut i: usize = 0;
    while i < n
        invariant
            i <= n,
            n == nums@.len(),
            nums@ == parsing::line_i32_values(line@),
            !spec_safe(nums@),
            forall|t: int| 0 <= t < i ==> !spec_safe(#[trigger] nums@.remove(t)),
        decreases n - i,
    {
        let shorter = vec_without(&nums, i);
        if level_safe(shorter.as_slice()) {
            return true;
        }
        i += 1;
    }
    false
}

/// How many reports are safe.  Every line must hold only decimal values.
pub fn part_1(input: &str) -> (r: i32)
    requires
        forall|l: int|
            0 <= l < parsing::spec_lines(input@).len() ==> parsing::line_all_i32(
                #[trigger] parsing::spec_lines(input@)[l],
            ),
    ensures
        r == spec_safe_count(parsing::spec_lines(input@), parsing::spec_lines(input@).len() as int)
            as i32,
{
    let cs = parsing::chars_of(input);
    let lines = parsing::split_lines(cs.as_slice());
    let n: usize = lines.len();
    let mut count: usize = 0;
    let mut i: usize = 0;
    while i < n
        invariant
            i <= n,
            n == lines@.len(),
            lines@.len() == parsing::spec_lines(input@).len(),
            forall|l: int| 0 <= l < n ==> lines@[l]@ == parsing::spec_lines(input@)[l],
            forall|l: int|
                0 <= l < n ==> parsing::line_all_i32(#[trigger] parsing::spec_lines(input@)[l]),
            count == spec_safe_count(parsing::spec_lines(input@), i as int),
            count <= i,
        decreases n - i,
    {
        proof {
            assert(lines@[i as int]@ == parsing::spec_lines(input@)[i as int]);
            assert(parsing::line_all_i32(parsing::spec_lines(input@)[i as int]));
        }
        let nums: Vec<i32> = match parsing::parse_i32_line(lines[i].as_slice()) {
            Some(v) => v,
            None => {
                proof {
                    assert(false);
                }
                vstd::pervasive::unreached()
            },
        };
        if level_safe(nums.as_slice()) {
            count += 1;
        }
        i += 1;
    }
    #[verifier::truncate] (count as i32)
}

/// How many lines up to `n` hold a safe report.
pub open spec fn spec_safe_count(lines: Seq<Seq<char>>, n: int) -> nat
    decreases n,
{
    if n <= 0 {
        0
    } else {
        spec_safe_count(lines, n - 1) + if spec_safe(parsing::line_i32_values(lines[n - 1])) {
            1nat
        } else {
            0nat
        }
    }
}

/// How many lines up to `n` hold a report that dampening makes safe.
pub open spec fn spec_dampened_count(lines: Seq<Seq<char>>, n: int) -> nat
    decreases n,
{
    if n <= 0 {
        0
    } else {
        spec_dampened_count(lines, n - 1) + if spec_safe_dampened(
            parsing::line_i32_values(lines[n - 1]),
        ) {
            1nat
        } else {
            0nat
        }
    }
}

/// How many reports are safe with one value dropped at most.
pub fn part_2(input: &str) -> (r: i32)
    requires
        forall|l: int|
            0 <= l < parsing::spec_lines(input@).len() ==> parsing::line_all_i32(
                #[trigger] parsing::spec_lines(input@)[l],
            ),
    ensures
        r == spec_dampened_count(
            parsing::spec_lines(input@),
            parsing::spec_lines(input@).len() as int,
        ) as i32,
{
    let cs = parsing::chars_of(input);
    let lines = parsing::split_lines(cs.as_slice());
    let n: usize = lines.len();
    let mut count: usize = 0;
    let mut i: usize = 0;
    while i < n
        invariant
            i <= n,
            n == lines@.len(),
            lines@.len() == parsing::spec_lines(input@).len(),
            forall|l: int| 0 <= l < n ==> lines@[l]@ == parsing::spec_lines(input@)[l],
            forall|l: int|
                0 <= l < n ==> parsing::line_all_i32(#[trigger] parsing::spec_lines(input@)[l]),
            count == spec_dampened_count(parsing::spec_lines(input@), i as int),
            count <= i,
        decreases n - i,
    {
        proof {
            assert(lines@[i as int]@ == parsing::spec_lines(input@)[i as int]);
            assert(parsing::line_all_i32(parsing::spec_lines(input@)[i as int]));
        }
        let line_str = &lines[i];
        if level_safe_dampened_chars(line_str.as_slice()) {
            count += 1;
        }
        i += 1;
    }
    #[verifier::truncate] (count as i32)
}

/// As `level_safe_dampened`, over an already split line.
pub fn level_safe_dampened_chars(line: &[char]) -> (r: bool)
    requires
        parsing::line_all_i32(line@),
    ensures
        r == spec_safe_dampened(parsing::line_i32_values(line@)),
{
    let nums: Vec<i32> = match parsing::parse_i32_line(line) {
        Some(v) => v,
        None => {
            proof {
                assert(false);
            }
            vstd::pervasive::unreached()
        },
    };
    if level_safe(nums.as_slice()) {
        return true;
    }
    let n: usize = nums.len();
    let mut i: usize = 0;
    while i < n
        invariant
            i <= n,
            n == nums@.len(),
            nums@ == parsing::line_i32_values(line@),
            !spec_safe(nums@),
            forall|t: int| 0 <= t < i ==> !spec_safe(#[trigger] nums@.remove(t)),
        decreases n - i,
    {
        let shorter = vec_without(&nums, i);
        if level_safe(shorter.as_slice()) {
            return true;
        }
        i += 1;
    }
    false
}

} // verus!
