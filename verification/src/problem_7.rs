//! Bridge calibration: each line names a target and some operands; the line
//! counts when some mix of additions and multiplications, applied left to
//! right, hits the target.

use vstd::prelude::*;
use crate::parsing;

pub mod sequence;

verus! {

/// An operator slot of a candidate expression.
#[derive(Clone, Copy)]
pub enum Ops {
    Add,
    Mul,
}

/// Some assignment of `+` and `*` over the remaining operands, folded left
/// to right from `acc`, reaches `target`.
pub open spec fn reaches(target: int, nums: Seq<i64>, i: int, acc: int) -> bool
    decreases nums.len() - i,
{
    if i >= nums.len() || i < 0 {
        acc == target
    } else {
        reaches(target, nums, i + 1, acc + nums[i]) || reaches(target, nums, i + 1, acc * nums[i])
    }
}

/// Every partial fold along every operator mix stays within `i64`.
pub open spec fn fold_fits(nums: Seq<i64>, i: int, acc: int) -> bool
    decreases nums.len() - i,
{
    if i >= nums.len() || i < 0 {
        true
    } else {
        &&& i64::MIN <= acc + nums[i] <= i64::MAX
        &&& i64::MIN <= acc * nums[i] <= i64::MAX
        &&& fold_fits(nums, i + 1, acc + nums[i])
        &&& fold_fits(nums, i + 1, acc * nums[i])
    }
}

fn search(nums: &[i64], i: usize, acc: i64, total: i64) -> (r: bool)
    requires
        i <= nums@.len(),
        fold_fits(nums@, i as int, acc as int),
    ensures
        r == reaches(total as int, nums@, i as int, acc as int),
    decreases nums@.len() - i,
{
    if i == nums.len() {
        return acc == total;
    }
    let x = nums[i];
    proof {
        assert((acc as int) * (x as int) == (acc * x) as int || true);
    }
    if search(nums, i + 1, acc + x, total) {
        return true;
    }
    let prod: i64 = acc * x;
    search(nums, i + 1, prod, total)
}

/// Whether some operator mix over `nums` evaluates to `total`.
pub fn has_valid_expression(nums: &[i64], total: i64) -> (r: bool)
    requires
        nums@.len() >= 1,
        fold_fits(nums@, 1, nums@[0] as int),
    ensures
        r == reaches(total as int, nums@, 1, nums@[0] as int),
{
    let acc = nums[0];
    search(nums, 1, acc, total)
}

/// One input line is well formed: a target token `T:` followed by operands.
pub open spec fn line_ok(line: Seq<char>) -> bool {
    let toks = parsing::spec_tokens(line);
    &&& toks.len() >= 2
    &&& toks[0].len() > 0
    &&& toks[0].last() == ':'
    &&& parsing::is_i64_string(toks[0].drop_last())
    &&& forall|t: int| 1 <= t < toks.len() ==> parsing::is_i64_string(#[trigger] toks[t])
}

/// The target value of a well-formed line.
pub open spec fn line_target(line: Seq<char>) -> int {
    parsing::int_string_value(parsing::spec_tokens(line)[0].drop_last())
}

/// The operand values of a well-formed line.
pub open spec fn line_nums(line: Seq<char>) -> Seq<i64> {
    parsing::spec_tokens(line).drop_first().map_values(
        |t: Seq<char>| parsing::int_string_value(t) as i64,
    )
}

/// A well-formed line whose folds stay in range.
pub open spec fn line_fits(line: Seq<char>) -> bool {
    line_ok(line) && fold_fits(line_nums(line), 1, line_nums(line)[0] as int)
}

/// The sum of the targets of the satisfiable lines among the first `n`.
pub open spec fn spec_total(lines: Seq<Seq<char>>, n: int) -> int
    decreases n,
{
    if n <= 0 {
        0
    } else {
        spec_total(lines, n - 1) + if reaches(
            line_target(lines[n - 1]),
            line_nums(lines[n - 1]),
            1,
            line_nums(lines[n - 1])[0] as int,
        ) {
            line_target(lines[n - 1])
        } else {
            0int
        }
    }
}

/// The inputs `part_1` accepts: well-formed lines whose folds and running
/// target total stay within `i64`.
pub open spec fn part_1_ok(input: Seq<char>) -> bool {
    let lines = parsing::spec_lines(input);
    &&& forall|l: int| 0 <= l < lines.len() ==> line_fits(#[trigger] lines[l])
    &&& forall|k: int| 0 <= k <= lines.len() ==> i64::MIN <= #[trigger] spec_total(lines, k) <= i64::MAX
}

/// Sums the targets of the lines some operator mix can satisfy.
pub fn part_1(input: &str) -> (r: Option<i64>)
    requires
        part_1_ok(input@),
    ensures
        ({
            let lines = parsing::spec_lines(input@);
            r == Some(spec_total(lines, lines.len() as int) as i64)
        }),
{
    let ghost glines = parsing::spec_lines(input@);
    let cs = parsing::chars_of(input);
    let lines = parsing::split_lines(cs.as_slice());
    let n: usize = lines.len();
    let mut total: i64 = 0;
    let mut i: usize = 0;
    while i < n
        invariant
            i <= n,
            n == glines.len(),
            lines@.len() == glines.len(),
            forall|l: int| 0 <= l < n ==> lines@[l]@ == glines[l],
            glines == parsing::spec_lines(input@),
            part_1_ok(input@),
            total == spec_total(glines, i as int),
        decreases n - i,
    {
        proof {
            assert(line_fits(glines[i as int]));
            assert(i64::MIN <= spec_total(glines, i as int + 1) <= i64::MAX);
        }
        let toks = parsing::split_tokens(lines[i].as_slice());
        let head = &toks[0];
        let ghost htok = parsing::spec_tokens(glines[i as int])[0];
        let hn: usize = head.len();
        let mut digits: Vec<char> = Vec::new();
        let mut k: usize = 0;
        while k < hn - 1
            invariant
                k <= hn - 1,
                hn == head@.len(),
                hn >= 1,
                head@ == htok,
                digits@ == htok.subrange(0, k as int),
            decreases hn - 1 - k,
        {
            let c = head[k];
            digits.push(c);
            proof {
                assert(digits@ =~= htok.subrange(0, k as int + 1));
            }
            k += 1;
        }
        proof {
            assert(digits@ =~= htok.drop_last());
        }
        let depth: i64 = match parsing::parse_i64(digits.as_slice()) {
            Some(v) => v,
            None => {
                proof {
                    assert(false);
                }
                vstd::pervasive::unreached()
            },
        };
        let tn: usize = toks.len();
        let mut nums: Vec<i64> = Vec::new();
        let mut t: usize = 1;
        while t < tn
            invariant
                1 <= t <= tn,
                tn == toks@.len(),
                tn == parsing::spec_tokens(glines[i as int]).len(),
                forall|u: int| 0 <= u < tn ==> toks@[u]@ == parsing::spec_tokens(glines[i as int])[u],
                line_ok(glines[i as int]),
                nums@ == line_nums(glines[i as int]).subrange(0, t - 1),
            decreases tn - t,
        {
            proof {
                assert(toks@[t as int]@ == parsing::spec_tokens(glines[i as int])[t as int]);
                assert(parsing::is_i64_string(parsing::spec_tokens(glines[i as int])[t as int]));
            }
            let v: i64 = match parsing::parse_i64(toks[t].as_slice()) {
                Some(v) => v,
                None => {
                    proof {
                        assert(false);
                    }
                    vstd::pervasive::unreached()
                },
            };
            nums.push(v);
            proof {
                let lw = line_nums(glines[i as int]);
                assert(lw[t as int - 1] == parsing::int_string_value(
                    parsing::spec_tokens(glines[i as int])[t as int],
                ) as i64);
                assert(nums@ =~= lw.subrange(0, t as int));
            }
            t += 1;
        }
        proof {
            assert(nums@ =~= line_nums(glines[i as int]));
        }
        if has_valid_expression(nums.as_slice(), depth) {
            total = total + depth;
        }
        i += 1;
    }
    Some(total)
}

/// The second half of this puzzle was never solved in this collection.
pub fn part_2(input: &str) -> (r: Option<i32>)
    ensures
        r is None,
{
    None
}

} // verus!
