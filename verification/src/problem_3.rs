//! Corrupted-memory scanner: pick every well-formed `mul(a,b)` call (one to
//! three digits per operand) out of a noisy character stream and sum the
//! products; conditional mode also honours `do()` and `don't()` switches.

use vstd::prelude::*;
use crate::parsing;

verus! {

/// The length of the digit run at `pos`, capped at `max`.
pub open spec fn digit_run(s: Seq<char>, pos: int, max: int) -> nat
    decreases max,
{
    if max <= 0 || pos < 0 || pos >= s.len() || !parsing::is_digit(s[pos]) {
        0
    } else {
        1 + digit_run(s, pos + 1, max - 1)
    }
}

/// The literal `lit` occurs at `pos`.
pub open spec fn lit_at(s: Seq<char>, pos: int, lit: Seq<char>) -> bool {
    pos >= 0 && pos + lit.len() <= s.len() && s.subrange(pos, pos + lit.len()) == lit
}

/// A well-formed `mul(a,b)` call at `pos`: its product and the position just
/// after it.
pub open spec fn mul_at(s: Seq<char>, pos: int) -> Option<(int, int)> {
    let d1 = digit_run(s, pos + 4, 3);
    let comma = pos + 4 + d1;
    let d2 = digit_run(s, comma + 1, 3);
    let close = comma + 1 + d2;
    if lit_at(s, pos, seq!['m', 'u', 'l', '(']) && d1 >= 1 && comma < s.len() && s[comma] == ','
        && d2 >= 1 && close < s.len() && s[close] == ')' {
        Some(
            (
                parsing::digits_value(s.subrange(pos + 4, comma)) * parsing::digits_value(
                    s.subrange(comma + 1, close),
                ),
                close + 1,
            ),
        )
    } else {
        None
    }
}

/// The sum of the products of every `mul` call the scan finds from `pos` on.
pub open spec fn scan_sum(s: Seq<char>, pos: int) -> int
    decreases s.len() - pos,
{
    if pos < 0 || pos >= s.len() {
        0
    } else {
        match mul_at(s, pos) {
            Some(ve) => if ve.1 > pos {
                ve.0 + scan_sum(s, ve.1)
            } else {
                0
            },
            None => scan_sum(s, pos + 1),
        }
    }
}

/// The sum of the enabled products in conditional mode from `pos` on.
pub open spec fn scan_sum_cond(s: Seq<char>, pos: int, enabled: bool) -> int
    decreases s.len() - pos,
{
    if pos < 0 || pos >= s.len() {
        0
    } else {
        match mul_at(s, pos) {
            Some(ve) => if ve.1 > pos {
                (if enabled {
                    ve.0
                } else {
                    0int
                }) + scan_sum_cond(s, ve.1, enabled)
            } else {
                0
            },
            None => if lit_at(s, pos, seq!['d', 'o', '(', ')']) {
                scan_sum_cond(s, pos + 4, true)
            } else if lit_at(s, pos, seq!['d', 'o', 'n', '\'', 't', '(', ')']) {
                scan_sum_cond(s, pos + 7, false)
            } else {
                scan_sum_cond(s, pos + 1, enabled)
            },
        }
    }
}

/// The value of a short digit run is small.
proof fn lemma_digits_value_small(s: Seq<char>)
    requires
        parsing::all_digits(s),
    ensures
        0 <= parsing::digits_value(s),
        s.len() <= 1 ==> parsing::digits_value(s) <= 9,
        s.len() <= 2 ==> parsing::digits_value(s) <= 99,
        s.len() <= 3 ==> parsing::digits_value(s) <= 999,
    decreases s.len(),
{
    if s.len() > 0 {
        assert(parsing::all_digits(s.drop_last()));
        lemma_digits_value_small(s.drop_last());
        parsing::lemma_digits_value_nonneg(s);
    }
}

proof fn lemma_digit_run_digits(s: Seq<char>, pos: int, max: int)
    requires
        0 <= pos <= s.len(),
        max >= 0,
    ensures
        digit_run(s, pos, max) <= max,
        pos + digit_run(s, pos, max) <= s.len(),
        parsing::all_digits(s.subrange(pos, pos + digit_run(s, pos, max))),
        digit_run(s, pos, max) < max && pos + digit_run(s, pos, max) < s.len() ==> !parsing::is_digit(
            s[pos + digit_run(s, pos, max)],
        ),
    decreases max,
{
    if !(max <= 0 || pos >= s.len() || !parsing::is_digit(s[pos])) {
        lemma_digit_run_digits(s, pos + 1, max - 1);
        let d = digit_run(s, pos, max);
        assert(d == 1 + digit_run(s, pos + 1, max - 1));
        assert forall|k: int| 0 <= k < d implies parsing::is_digit(
            #[trigger] s.subrange(pos, pos + d)[k],
        ) by {
            assert(s.subrange(pos, pos + d)[k] == s[pos + k]);
            if k > 0 {
                assert(parsing::is_digit(s.subrange(pos + 1, pos + 1 + (d - 1) as int)[k - 1]));
                assert(s.subrange(pos + 1, pos + 1 + (d - 1) as int)[k - 1] == s[pos + k]);
            }
        }
    } else {
        assert(s.subrange(pos, pos) =~= Seq::<char>::empty());
    }
}

/// Reads the digit run at `pos`, capped at three digits.
fn digit_run_exec(s: &[char], pos: usize) -> (d: usize)
    requires
        pos <= s@.len(),
    ensures
        d == digit_run(s@, pos as int, 3),
        pos + d <= s@.len(),
{
    let n: usize = s.len();
    let mut d: usize = 0;
    loop
        invariant
            0 <= d <= 3,
            pos + d <= n,
            n == s@.len(),
            digit_run(s@, pos as int, 3) >= d,
        ensures
            digit_run(s@, pos as int, 3) == d,
            pos + d <= n,
        decreases 3 - d,
    {
        proof {
            lemma_digit_run_digits(s@, pos as int, 3);
        }
        if d >= 3 {
            proof {
                lemma_digit_run_digits(s@, pos as int, 3);
            }
            break ;
        }
        if pos + d >= n {
            proof {
                lemma_digit_run_stop(s@, pos as int, d as int, 3, n as int);
            }
            break ;
        }
        let c = s[pos + d];
        if !('0' <= c && c <= '9') {
            proof {
                assert(!parsing::is_digit(s@[pos as int + d]));
                lemma_digit_run_stop(s@, pos as int, d as int, 3, n as int);
            }
            break ;
        }
        proof {
            assert(parsing::is_digit(s@[pos as int + d]));
            lemma_digit_run_step(s@, pos as int, d as int, 3);
        }
        d += 1;
    }
    d
}

/// A digit at distance `d` extends the run past `d`.
proof fn lemma_digit_run_step(s: Seq<char>, pos: int, d: int, max: int)
    requires
        0 <= d < max,
        digit_run(s, pos, max) >= d,
        pos >= 0,
        pos + d < s.len(),
        parsing::is_digit(s[pos + d]),
    ensures
        digit_run(s, pos, max) >= d + 1,
    decreases d,
{
    if d > 0 {
        lemma_digit_run_step(s, pos + 1, d - 1, max - 1);
    }
}

/// The run ends where the scan stopped.
proof fn lemma_digit_run_stop(s: Seq<char>, pos: int, d: int, max: int, n: int)
    requires
        0 <= d <= max,
        digit_run(s, pos, max) >= d,
        pos >= 0,
        n == s.len(),
        pos + d <= n,
        d < max ==> pos + d >= n || !parsing::is_digit(s[pos + d]),
    ensures
        digit_run(s, pos, max) == d,
    decreases d,
{
    if d == 0 {
    } else {
        lemma_digit_run_stop(s, pos + 1, d - 1, max - 1, n);
    }
}

/// Parses `mul(a,b)` at `pos`: the product and the position after it, as the
/// combinator grammar accepts it.
pub fn mul_expr(s: &[char], pos: usize) -> (r: Option<(i32, usize)>)
    requires
        pos <= s@.len(),
    ensures
        ({
            match mul_at(s@, pos as int) {
                None => r is None,
                Some(ve) => r == Some((ve.0 as i32, ve.1 as usize)),
            }
        }),
{
    let n: usize = s.len();
    if n - pos < 4 || s[pos] != 'm' || s[pos + 1] != 'u' || s[pos + 2] != 'l' || s[pos + 3] != '('
    {
        proof {
            if lit_at(s@, pos as int, seq!['m', 'u', 'l', '(']) {
                assert(s@.subrange(pos as int, pos as int + 4)[0] == 'm');
                assert(s@.subrange(pos as int, pos as int + 4)[1] == 'u');
                assert(s@.subrange(pos as int, pos as int + 4)[2] == 'l');
                assert(s@.subrange(pos as int, pos as int + 4)[3] == '(');
            }
        }
        return None;
    }
    proof {
        assert(s@.subrange(pos as int, pos as int + 4) =~= seq!['m', 'u', 'l', '(']);
    }
    let d1 = digit_run_exec(s, pos + 4);
    if d1 == 0 {
        return None;
    }
    let comma = pos + 4 + d1;
    if comma >= n || s[comma] != ',' {
        return None;
    }
    let d2 = digit_run_exec(s, comma + 1);
    if d2 == 0 {
        return None;
    }
    let close = comma + 1 + d2;
    if close >= n || s[close] != ')' {
        return None;
    }
    proof {
        lemma_digit_run_digits(s@, pos as int + 4, 3);
        lemma_digit_run_digits(s@, comma as int + 1, 3);
        lemma_digits_value_small(s@.subrange(pos as int + 4, comma as int));
        lemma_digits_value_small(s@.subrange(comma as int + 1, close as int));
    }
    let a: i32 = match parsing::parse_i32(slice_range(s, pos + 4, comma)) {
        Some(v) => v,
        None => {
            proof {
                assert(false);
            }
            vstd::pervasive::unreached()
        },
    };
    let b: i32 = match parsing::parse_i32(slice_range(s, comma + 1, close)) {
        Some(v) => v,
        None => {
            proof {
                assert(false);
            }
            vstd::pervasive::unreached()
        },
    };
    proof {
        assert(0 <= (a as int) * (b as int) <= 998001) by (nonlinear_arith)
            requires
                0 <= a as int <= 999,
                0 <= b as int <= 999,
        ;
    }
    Some((a * b, close + 1))
}

/// A copy of `s[from..to]`.
fn slice_range(s: &[char], from: usize, to: usize) -> (r: &[char])
    requires
        from <= to <= s@.len(),
    ensures
        r@ == s@.subrange(from as int, to as int),
{
    let (_, tail) = s.split_at(from);
    let (mid, _) = tail.split_at(to - from);
    proof {
        assert(mid@ =~= s@.subrange(from as int, to as int));
    }
    mid
}

proof fn lemma_scan_sum_nonneg(s: Seq<char>, pos: int)
    ensures
        scan_sum(s, pos) >= 0,
    decreases s.len() - pos + 1,
{
    if 0 <= pos < s.len() {
        match mul_at(s, pos) {
            Some(ve) => {
                if ve.1 > pos {
                    lemma_scan_sum_nonneg(s, ve.1);
                    lemma_mul_at_value_nonneg(s, pos);
                }
            },
            None => {
                lemma_scan_sum_nonneg(s, pos + 1);
            },
        }
    }
}

proof fn lemma_mul_at_value_nonneg(s: Seq<char>, pos: int)
    requires
        mul_at(s, pos) is Some,
        pos >= 0,
    ensures
        0 <= (mul_at(s, pos)->0).0 <= 998001,
        pos < (mul_at(s, pos)->0).1 <= s.len(),
{
    let d1 = digit_run(s, pos + 4, 3);
    let comma = pos + 4 + d1;
    let d2 = digit_run(s, comma + 1, 3);
    let close = comma + 1 + d2;
    lemma_digit_run_digits(s, pos + 4, 3);
    lemma_digit_run_digits(s, comma + 1, 3);
    lemma_digits_value_small(s.subrange(pos + 4, comma));
    lemma_digits_value_small(s.subrange(comma + 1, close));
    let a = parsing::digits_value(s.subrange(pos + 4, comma));
    let b = parsing::digits_value(s.subrange(comma + 1, close));
    assert(0 <= a * b <= 998001) by (nonlinear_arith)
        requires
            0 <= a <= 999,
            0 <= b <= 999,
    ;
}

/// Sums the products of all well-formed `mul` calls in the stream.
pub fn part_1(input: &str) -> (r: Option<i32>)
    requires
        scan_sum(input@, 0) <= i32::MAX,
    ensures
        r == Some(scan_sum(input@, 0) as i32),
{
    let cs = parsing::chars_of(input);
    let s = cs.as_slice();
    let n: usize = s.len();
    let mut result: i32 = 0;
    let mut pos: usize = 0;
    while pos < n
        invariant
            pos <= n,
            n == s@.len(),
            s@ == input@,
            scan_sum(input@, 0) <= i32::MAX,
            result + scan_sum(s@, pos as int) == scan_sum(s@, 0),
            result >= 0,
        decreases n - pos,
    {
        match mul_expr(s, pos) {
            Some((v, end)) => {
                proof {
                    lemma_mul_at_value_nonneg(s@, pos as int);
                    lemma_scan_sum_nonneg(s@, end as int);
                }
                result = result + v;
                pos = end;
            },
            None => {
                pos += 1;
            },
        }
    }
    proof {
        assert(scan_sum(s@, pos as int) == 0);
    }
    Some(result)
}

fn lit_do(s: &[char], pos: usize) -> (b: bool)
    requires
        pos <= s@.len(),
    ensures
        b == lit_at(s@, pos as int, seq!['d', 'o', '(', ')']),
{
    if s.len() - pos >= 4 && s[pos] == 'd' && s[pos + 1] == 'o' && s[pos + 2] == '(' && s[pos + 3]
        == ')' {
        proof {
            assert(s@.subrange(pos as int, pos as int + 4) =~= seq!['d', 'o', '(', ')']);
        }
        true
    } else {
        proof {
            if lit_at(s@, pos as int, seq!['d', 'o', '(', ')']) {
                assert(s@.subrange(pos as int, pos as int + 4)[0] == 'd');
                assert(s@.subrange(pos as int, pos as int + 4)[1] == 'o');
                assert(s@.subrange(pos as int, pos as int + 4)[2] == '(');
                assert(s@.subrange(pos as int, pos as int + 4)[3] == ')');
            }
        }
        false
    }
}

fn lit_dont(s: &[char], pos: usize) -> (b: bool)
    requires
        pos <= s@.len(),
    ensures
        b == lit_at(s@, pos as int, seq!['d', 'o', 'n', '\'', 't', '(', ')']),
{
    if s.len() - pos >= 7 && s[pos] == 'd' && s[pos + 1] == 'o' && s[pos + 2] == 'n' && s[pos + 3]
        == '\'' && s[pos + 4] == 't' && s[pos + 5] == '(' && s[pos + 6] == ')' {
        proof {
            assert(s@.subrange(pos as int, pos as int + 7) =~= seq![
                'd',
                'o',
                'n',
                '\'',
                't',
                '(',
                ')',
            ]);
        }
        true
    } else {
        proof {
            if lit_at(s@, pos as int, seq!['d', 'o', 'n', '\'', 't', '(', ')']) {
                let w = s@.subrange(pos as int, pos as int + 7);
                assert(w[0] == 'd');
                assert(w[1] == 'o');
                assert(w[2] == 'n');
                assert(w[3] == '\'');
                assert(w[4] == 't');
                assert(w[5] == '(');
                assert(w[6] == ')');
            }
        }
        false
    }
}

proof fn lemma_scan_cond_nonneg(s: Seq<char>, pos: int, enabled: bool)
    ensures
        scan_sum_cond(s, pos, enabled) >= 0,
    decreases s.len() - pos + 1,
{
    if 0 <= pos < s.len() {
        match mul_at(s, pos) {
            Some(ve) => {
                if ve.1 > pos {
                    lemma_scan_cond_nonneg(s, ve.1, enabled);
                    lemma_mul_at_value_nonneg(s, pos);
                }
            },
            None => {
                if lit_at(s, pos, seq!['d', 'o', '(', ')']) {
                    lemma_scan_cond_nonneg(s, pos + 4, true);
                } else if lit_at(s, pos, seq!['d', 'o', 'n', '\'', 't', '(', ')']) {
                    lemma_scan_cond_nonneg(s, pos + 7, false);
                } else {
                    lemma_scan_cond_nonneg(s, pos + 1, enabled);
                }
            },
        }
    }
}

/// Sums the products of the `mul` calls that `do()` / `don't()` switches
/// leave enabled.
pub fn part_2(input: &str) -> (r: Option<i32>)
    requires
        scan_sum_cond(input@, 0, true) <= i32::MAX,
    ensures
        r == Some(scan_sum_cond(input@, 0, true) as i32),
{
    let cs = parsing::chars_of(input);
    let s = cs.as_slice();
    let n: usize = s.len();
    let mut result: i32 = 0;
    let mut enabled: bool = true;
    let mut pos: usize = 0;
    while pos < n
        invariant
            pos <= n,
            n == s@.len(),
            s@ == input@,
            scan_sum_cond(input@, 0, true) <= i32::MAX,
            result + scan_sum_cond(s@, pos as int, enabled) == scan_sum_cond(s@, 0, true),
            result >= 0,
        decreases n - pos,
    {
        match mul_expr(s, pos) {
            Some((v, end)) => {
                proof {
                    lemma_mul_at_value_nonneg(s@, pos as int);
                    lemma_scan_cond_nonneg(s@, end as int, enabled);
                }
                if enabled {
                    result = result + v;
                }
                pos = end;
            },
            None => {
                if lit_do(s, pos) {
                    enabled = true;
                    pos += 4;
                } else if lit_dont(s, pos) {
                    enabled = false;
                    pos += 7;
                } else {
                    pos += 1;
                }
            },
        }
    }
    proof {
        assert(scan_sum_cond(s@, pos as int, enabled) == 0);
    }
    Some(result)
}

} // verus!
