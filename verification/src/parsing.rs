//! Plain-text parsing helpers shared by the solver modules: turning a string
//! into characters, splitting on line breaks, separators and whitespace, and
//! reading decimal integers.

use vstd::prelude::*;

verus! {

broadcast use vstd::string::group_string_axioms;

/// The whitespace characters the token splitter recognises.
pub open spec fn is_space(c: char) -> bool {
    c == ' ' || c == '\t' || c == '\n' || c == '\r'
}

/// Collects the characters of a string into a vector.
pub fn chars_of(s: &str) -> (r: Vec<char>)
    ensures
        r@ == s@,
{
    let mut it = s.chars();
    let mut r: Vec<char> = Vec::new();
    loop
        invariant
            vstd::std_specs::iter::IteratorSpec::obeys_prophetic_iter_laws(&it),
            vstd::std_specs::iter::IteratorSpec::decrease(&it) is Some,
            r@ + vstd::std_specs::iter::IteratorSpec::remaining(&it) == s@,
        ensures
            r@ == s@,
        decreases vstd::std_specs::iter::IteratorSpec::decrease(&it)->0,
    {
        match it.next() {
            Some(c) => {
                r.push(c);
            },
            None => {
                proof {
                    assert(vstd::std_specs::iter::IteratorSpec::remaining(&it).len() == 0);
                    assert(r@ =~= s@);
                }
                break ;
            },
        }
    }
    r
}

/// Index of the first occurrence of `sep` in `s`, or `s.len()` if there is none.
pub open spec fn sep_index(s: Seq<char>, sep: char) -> nat
    decreases s.len(),
{
    if s.len() == 0 {
        0
    } else if s[0] == sep {
        0
    } else {
        1 + sep_index(s.drop_first(), sep)
    }
}

/// A scan that finds no `sep` before position `j` pins `sep_index` down.
pub proof fn lemma_sep_index_is(s: Seq<char>, sep: char, j: int)
    requires
        0 <= j <= s.len(),
        forall|i: int| 0 <= i < j ==> s[i] != sep,
        j < s.len() ==> s[j] == sep,
    ensures
        sep_index(s, sep) == j,
    decreases s.len(),
{
    if s.len() > 0 && s[0] != sep {
        lemma_sep_index_is(s.drop_first(), sep, j - 1);
    }
}

/// One raw line segment with a line-ending carriage return removed.
pub open spec fn strip_cr(s: Seq<char>) -> Seq<char> {
    if s.len() > 0 && s.last() == '\r' {
        s.drop_last()
    } else {
        s
    }
}

/// The lines of `s`, as `str::lines` yields them: segments split at line
/// feeds, a carriage return before a line feed removed, and no empty final
/// line after a trailing line feed.
pub open spec fn spec_lines(s: Seq<char>) -> Seq<Seq<char>>
    decreases s.len(),
{
    if s.len() == 0 {
        Seq::empty()
    } else {
        let e = sep_index(s, '\n');
        if e >= s.len() {
            seq![s]
        } else {
            seq![strip_cr(s.subrange(0, e as int))] + spec_lines(
                s.subrange(e as int + 1, s.len() as int),
            )
        }
    }
}

/// Splits `s` at line feeds, as `str::lines` does on a string.
pub fn split_lines(s: &[char]) -> (r: Vec<Vec<char>>)
    ensures
        r@.len() == spec_lines(s@).len(),
        forall|i: int| 0 <= i < r@.len() ==> r@[i]@ == spec_lines(s@)[i],
{
    let n: usize = s.len();
    let mut r: Vec<Vec<char>> = Vec::new();
    let mut pos: usize = 0;
    proof {
        assert(s@.subrange(0, n as int) =~= s@);
        assert(r@.map_values(|v: Vec<char>| v@) =~= Seq::<Seq<char>>::empty());
    }
    while pos < n
        invariant
            n == s@.len(),
            pos <= n,
            spec_lines(s@) == r@.map_values(|v: Vec<char>| v@) + spec_lines(
                s@.subrange(pos as int, n as int),
            ),
        decreases n - pos,
    {
        let ghost rest = s@.subrange(pos as int, n as int);
        let mut j: usize = pos;
        while j < n && s[j] != '\n'
            invariant
                n == s@.len(),
                pos <= j <= n,
                forall|i: int| pos <= i < j ==> s@[i] != '\n',
            decreases n - j,
        {
            j += 1;
        }
        proof {
            assert forall|i: int| 0 <= i < j - pos implies rest[i] != '\n' by {
                assert(rest[i] == s@[pos + i]);
            }
            if j < n {
                assert(rest[j - pos] == s@[j as int]);
            }
            lemma_sep_index_is(rest, '\n', j - pos);
        }
        let mut line: Vec<char> = Vec::new();
        let mut k: usize = pos;
        let end: usize = if j < n && j > pos && s[j - 1] == '\r' {
            j - 1
        } else {
            j
        };
        while k < end
            invariant
                pos <= k <= end <= n,
                n == s@.len(),
                line@ == s@.subrange(pos as int, k as int),
            decreases end - k,
        {
            let c = s[k];
            line.push(c);
            proof {
                assert(line@ =~= s@.subrange(pos as int, k as int + 1));
            }
            k += 1;
        }
        proof {
            if j < n {
                assert(strip_cr(rest.subrange(0, j - pos)) =~= s@.subrange(
                    pos as int,
                    end as int,
                ));
                assert(rest.subrange(j - pos + 1, rest.len() as int) =~= s@.subrange(
                    j as int + 1,
                    n as int,
                ));
            } else {
                assert(rest =~= s@.subrange(pos as int, end as int));
            }
        }
        let ghost prev = r@;
        let ghost lv = line@;
        r.push(line);
        proof {
            assert(r@.map_values(|v: Vec<char>| v@) =~= prev.map_values(|v: Vec<char>| v@) + seq![
                lv,
            ]);
        }
        if j < n {
            pos = j + 1;
        } else {
            pos = n;
        }
    }
    proof {
        assert(spec_lines(s@.subrange(pos as int, n as int)) =~= Seq::<Seq<char>>::empty());
        assert(spec_lines(s@) =~= r@.map_values(|v: Vec<char>| v@));
    }
    r
}

/// The segments of `s` between occurrences of `sep`, as `str::split` yields
/// them: empty segments are kept, and an empty input has one empty segment.
pub open spec fn spec_split(s: Seq<char>, sep: char) -> Seq<Seq<char>>
    decreases s.len(),
{
    let e = sep_index(s, sep);
    if e >= s.len() {
        seq![s]
    } else {
        seq![s.subrange(0, e as int)] + spec_split(s.subrange(e as int + 1, s.len() as int), sep)
    }
}

/// Splits `s` at every occurrence of `sep`, keeping empty segments.
pub fn split_on(s: &[char], sep: char) -> (r: Vec<Vec<char>>)
    ensures
        r@.len() == spec_split(s@, sep).len(),
        forall|i: int| 0 <= i < r@.len() ==> r@[i]@ == spec_split(s@, sep)[i],
{
    let n: usize = s.len();
    let mut r: Vec<Vec<char>> = Vec::new();
    let mut pos: usize = 0;
    proof {
        assert(s@.subrange(0, n as int) =~= s@);
        assert(r@.map_values(|v: Vec<char>| v@) =~= Seq::<Seq<char>>::empty());
    }
    loop
        invariant_except_break
            spec_split(s@, sep) == r@.map_values(|v: Vec<char>| v@) + spec_split(
                s@.subrange(pos as int, n as int),
                sep,
            ),
        invariant
            n == s@.len(),
            pos <= n,
        ensures
            spec_split(s@, sep) == r@.map_values(|v: Vec<char>| v@),
        decreases n + 1 - pos,
    {
        let ghost rest = s@.subrange(pos as int, n as int);
        let mut j: usize = pos;
        while j < n && s[j] != sep
            invariant
                n == s@.len(),
                pos <= j <= n,
                forall|i: int| pos <= i < j ==> s@[i] != sep,
            decreases n - j,
        {
            j += 1;
        }
        proof {
            assert forall|i: int| 0 <= i < j - pos implies rest[i] != sep by {
                assert(rest[i] == s@[pos + i]);
            }
            if j < n {
                assert(rest[j - pos] == s@[j as int]);
            }
            lemma_sep_index_is(rest, sep, j - pos);
        }
        let mut seg: Vec<char> = Vec::new();
        let mut k: usize = pos;
        while k < j
            invariant
                pos <= k <= j <= n,
                n == s@.len(),
                seg@ == s@.subrange(pos as int, k as int),
            decreases j - k,
        {
            let c = s[k];
            seg.push(c);
            proof {
                assert(seg@ =~= s@.subrange(pos as int, k as int + 1));
            }
            k += 1;
        }
        proof {
            if j < n {
                assert(rest.subrange(0, j - pos) =~= s@.subrange(pos as int, j as int));
                assert(rest.subrange(j - pos + 1, rest.len() as int) =~= s@.subrange(
                    j as int + 1,
                    n as int,
                ));
            } else {
                assert(rest =~= s@.subrange(pos as int, j as int));
            }
        }
        let ghost prev = r@;
        let ghost sv = seg@;
        r.push(seg);
        proof {
            assert(r@.map_values(|v: Vec<char>| v@) =~= prev.map_values(|v: Vec<char>| v@) + seq![
                sv,
            ]);
        }
        if j < n {
            pos = j + 1;
        } else {
            proof {
                assert(spec_split(s@, sep) =~= r@.map_values(|v: Vec<char>| v@));
            }
            break ;
        }
    }
    r
}

/// Length of the maximal whitespace-free prefix of `s`.
pub open spec fn token_end(s: Seq<char>) -> nat
    decreases s.len(),
{
    if s.len() > 0 && !is_space(s[0]) {
        1 + token_end(s.drop_first())
    } else {
        0
    }
}

pub proof fn lemma_token_end_is(s: Seq<char>, j: int)
    requires
        0 <= j <= s.len(),
        forall|i: int| 0 <= i < j ==> !is_space(s[i]),
        j < s.len() ==> is_space(s[j]),
    ensures
        token_end(s) == j,
    decreases s.len(),
{
    if s.len() > 0 && !is_space(s[0]) {
        lemma_token_end_is(s.drop_first(), j - 1);
    }
}

/// The whitespace-separated tokens of `s`, as `str::split_whitespace` yields
/// them: maximal runs of non-whitespace characters.
pub open spec fn spec_tokens(s: Seq<char>) -> Seq<Seq<char>>
    decreases s.len(),
{
    if s.len() == 0 {
        Seq::empty()
    } else if is_space(s[0]) {
        spec_tokens(s.drop_first())
    } else {
        let e = token_end(s);
        if e >= s.len() {
            seq![s]
        } else {
            seq![s.subrange(0, e as int)] + spec_tokens(s.subrange(e as int, s.len() as int))
        }
    }
}

/// Splits `s` into maximal runs of non-whitespace characters.
pub fn split_tokens(s: &[char]) -> (r: Vec<Vec<char>>)
    ensures
        r@.len() == spec_tokens(s@).len(),
        forall|i: int| 0 <= i < r@.len() ==> r@[i]@ == spec_tokens(s@)[i],
{
    let n: usize = s.len();
    let mut r: Vec<Vec<char>> = Vec::new();
    let mut pos: usize = 0;
    proof {
        assert(s@.subrange(0, n as int) =~= s@);
        assert(r@.map_values(|v: Vec<char>| v@) =~= Seq::<Seq<char>>::empty());
    }
    while pos < n
        invariant
            n == s@.len(),
            pos <= n,
            spec_tokens(s@) == r@.map_values(|v: Vec<char>| v@) + spec_tokens(
                s@.subrange(pos as int, n as int),
            ),
        decreases n - pos,
    {
        let ghost rest = s@.subrange(pos as int, n as int);
        let c = s[pos];
        if c == ' ' || c == '\t' || c == '\n' || c == '\r' {
            proof {
                assert(rest[0] == s@[pos as int]);
                assert(rest.drop_first() =~= s@.subrange(pos as int + 1, n as int));
            }
            pos += 1;
        } else {
            let mut j: usize = pos + 1;
            while j < n && !(s[j] == ' ' || s[j] == '\t' || s[j] == '\n' || s[j] == '\r')
                invariant
                    n == s@.len(),
                    pos < j <= n,
                    forall|i: int| pos <= i < j ==> !is_space(s@[i]),
                decreases n - j,
            {
                j += 1;
            }
            proof {
                assert forall|i: int| 0 <= i < j - pos implies !is_space(rest[i]) by {
                    assert(rest[i] == s@[pos + i]);
                }
                if j < n {
                    assert(rest[j - pos] == s@[j as int]);
                }
                lemma_token_end_is(rest, j - pos);
            }
            let mut tok: Vec<char> = Vec::new();
            let mut k: usize = pos;
            while k < j
                invariant
                    pos <= k <= j <= n,
                    n == s@.len(),
                    tok@ == s@.subrange(pos as int, k as int),
                decreases j - k,
            {
                let ch = s[k];
                tok.push(ch);
                proof {
                    assert(tok@ =~= s@.subrange(pos as int, k as int + 1));
                }
                k += 1;
            }
            proof {
                if j < n {
                    assert(rest.subrange(0, j - pos) =~= s@.subrange(pos as int, j as int));
                    assert(rest.subrange(j - pos, rest.len() as int) =~= s@.subrange(
                        j as int,
                        n as int,
                    ));
                } else {
                    assert(rest =~= s@.subrange(pos as int, j as int));
                }
            }
            let ghost prev = r@;
            let ghost tv = tok@;
            r.push(tok);
            proof {
                assert(r@.map_values(|v: Vec<char>| v@) =~= prev.map_values(|v: Vec<char>| v@)
                    + seq![tv]);
            }
            pos = j;
        }
    }
    proof {
        assert(spec_tokens(s@.subrange(pos as int, n as int)) =~= Seq::<Seq<char>>::empty());
        assert(spec_tokens(s@) =~= r@.map_values(|v: Vec<char>| v@));
    }
    r
}

/// Decimal digit test, stated over the character's code point.
pub open spec fn is_digit(c: char) -> bool {
    48 <= c as int && c as int <= 57
}

pub open spec fn digit_val(c: char) -> int {
    c as int - 48
}

pub open spec fn all_digits(s: Seq<char>) -> bool {
    forall|i: int| 0 <= i < s.len() ==> is_digit(s[i])
}

/// The number a digit string denotes, most significant digit first.
pub open spec fn digits_value(s: Seq<char>) -> int
    decreases s.len(),
{
    if s.len() == 0 {
        0
    } else {
        10 * digits_value(s.drop_last()) + digit_val(s.last())
    }
}

pub proof fn lemma_digits_value_nonneg(s: Seq<char>)
    requires
        all_digits(s),
    ensures
        digits_value(s) >= 0,
    decreases s.len(),
{
    if s.len() > 0 {
        assert(all_digits(s.drop_last()));
        lemma_digits_value_nonneg(s.drop_last());
    }
}

/// A digit string is worth at least any of its prefixes.
pub proof fn lemma_digits_prefix_le(s: Seq<char>, k: int)
    requires
        all_digits(s),
        0 <= k <= s.len(),
    ensures
        digits_value(s.subrange(0, k)) <= digits_value(s),
    decreases s.len(),
{
    if k == s.len() {
        assert(s.subrange(0, k) =~= s);
    } else {
        assert(s.drop_last().subrange(0, k) =~= s.subrange(0, k));
        assert(all_digits(s.drop_last()));
        lemma_digits_prefix_le(s.drop_last(), k);
        lemma_digits_value_nonneg(s.drop_last());
    }
}

/// A non-empty digit string whose value fits in a `u64`, as `u64::from_str`
/// accepts it (an optional leading plus sign included).
pub open spec fn is_u64_string(s: Seq<char>) -> bool {
    let d = if s.len() > 0 && s[0] == '+' {
        s.drop_first()
    } else {
        s
    };
    d.len() > 0 && all_digits(d) && digits_value(d) <= u64::MAX
}

/// The value of such a string.
pub open spec fn u64_string_value(s: Seq<char>) -> int {
    if s.len() > 0 && s[0] == '+' {
        digits_value(s.drop_first())
    } else {
        digits_value(s)
    }
}

/// The value of a single decimal digit character, or `None`.
pub fn digit_of(c: char) -> (r: Option<u64>)
    ensures
        r is Some <==> is_digit(c),
        r is Some ==> r == Some(digit_val(c) as u64),
{
    match c {
        '0' => Some(0),
        '1' => Some(1),
        '2' => Some(2),
        '3' => Some(3),
        '4' => Some(4),
        '5' => Some(5),
        '6' => Some(6),
        '7' => Some(7),
        '8' => Some(8),
        '9' => Some(9),
        _ => None,
    }
}

fn parse_digits(s: &[char], from: usize) -> (r: Option<u64>)
    requires
        from <= s@.len(),
    ensures
        ({
            let d = s@.subrange(from as int, s@.len() as int);
            &&& (r is Some <==> (d.len() > 0 && all_digits(d) && digits_value(d) <= u64::MAX))
            &&& (r is Some ==> r == Some(digits_value(d) as u64))
        }),
{
    let ghost d = s@.subrange(from as int, s@.len() as int);
    let n: usize = s.len();
    if from == n {
        return None;
    }
    let mut acc: u64 = 0;
    let mut i: usize = from;
    while i < n
        invariant
            from <= i <= n,
            n == s@.len(),
            d == s@.subrange(from as int, n as int),
            all_digits(d.subrange(0, i - from)),
            acc == digits_value(d.subrange(0, i - from)),
        decreases n - i,
    {
        let c = s[i];
        let dv: u64 = match digit_of(c) {
            Some(v) => v,
            None => {
                proof {
                    assert(d[i - from] == s@[i as int]);
                    assert(!is_digit(d[i - from]));
                }
                return None;
            },
        };
        proof {
            assert(d[i - from] == s@[i as int]);
            assert(is_digit(d[i - from]));
            assert(d.subrange(0, i - from + 1).drop_last() =~= d.subrange(0, i - from));
            assert(d.subrange(0, i - from + 1).last() == d[i - from]);
        }
        if acc > (u64::MAX - dv) / 10 {
            proof {
                assert(acc * 10 + dv > u64::MAX) by (nonlinear_arith)
                    requires
                        acc > (u64::MAX - dv) / 10,
                        dv <= u64::MAX,
                        acc >= 0,
                        dv >= 0,
                ;
                assert(digits_value(d.subrange(0, i - from + 1)) > u64::MAX);
                if all_digits(d) {
                    lemma_digits_prefix_le(d, i - from + 1);
                }
            }
            return None;
        }
        proof {
            assert(acc * 10 + dv <= u64::MAX) by (nonlinear_arith)
                requires
                    acc <= (u64::MAX - dv) / 10,
                    dv <= 57,
                    acc >= 0,
                    dv >= 0,
            ;
        }
        acc = acc * 10 + dv;
        i += 1;
    }
    proof {
        assert(d.subrange(0, n - from) =~= d);
    }
    Some(acc)
}

/// Reads a `u64` from a decimal token, as `str::parse::<u64>` would: `None`
/// exactly when the token is malformed or the value does not fit.
pub fn parse_u64(s: &[char]) -> (r: Option<u64>)
    ensures
        r is Some <==> is_u64_string(s@),
        r is Some ==> r == Some(u64_string_value(s@) as u64),
{
    if s.len() > 0 && s[0] == '+' {
        proof {
            assert(s@.subrange(1, s@.len() as int) =~= s@.drop_first());
        }
        parse_digits(s, 1)
    } else {
        proof {
            assert(s@.subrange(0, s@.len() as int) =~= s@);
        }
        parse_digits(s, 0)
    }
}

/// A decimal integer with an optional sign whose value fits in an `i64`, as
/// `i64::from_str` accepts it.
pub open spec fn is_i64_string(s: Seq<char>) -> bool {
    let d = if s.len() > 0 && (s[0] == '+' || s[0] == '-') {
        s.drop_first()
    } else {
        s
    };
    d.len() > 0 && all_digits(d) && i64::MIN <= int_string_value(s) && int_string_value(s)
        <= i64::MAX
}

/// The signed value a decimal token denotes.
pub open spec fn int_string_value(s: Seq<char>) -> int {
    if s.len() > 0 && s[0] == '-' {
        -digits_value(s.drop_first())
    } else if s.len() > 0 && s[0] == '+' {
        digits_value(s.drop_first())
    } else {
        digits_value(s)
    }
}

/// Reads an `i64` from a decimal token, as `str::parse::<i64>` would: `None`
/// exactly when the token is malformed or the value does not fit.
pub fn parse_i64(s: &[char]) -> (r: Option<i64>)
    ensures
        r is Some <==> is_i64_string(s@),
        r is Some ==> r == Some(int_string_value(s@) as i64),
{
    let n: usize = s.len();
    if n == 0 {
        return None;
    }
    let neg: bool = s[0] == '-';
    let from: usize = if s[0] == '-' || s[0] == '+' {
        1
    } else {
        0
    };
    proof {
        if from == 1 {
            assert(s@.subrange(1, n as int) =~= s@.drop_first());
        } else {
            assert(s@.subrange(0, n as int) =~= s@);
        }
    }
    let mag = parse_digits(s, from);
    match mag {
        None => {
            proof {
                let d = if s@.len() > 0 && (s@[0] == '+' || s@[0] == '-') {
                    s@.drop_first()
                } else {
                    s@
                };
                assert(d == s@.subrange(from as int, n as int));
                if d.len() > 0 && all_digits(d) {
                    // the magnitude overflowed a u64, so it cannot fit an i64 either
                    assert(digits_value(d) > u64::MAX);
                    if s@[0] == '-' {
                        assert(int_string_value(s@) == -digits_value(d));
                        assert(int_string_value(s@) < i64::MIN);
                    } else {
                        assert(int_string_value(s@) == digits_value(d));
                        assert(int_string_value(s@) > i64::MAX);
                    }
                }
                assert(!is_i64_string(s@));
            }
            None
        },
        Some(v) => {
            proof {
                let d = if s@.len() > 0 && (s@[0] == '+' || s@[0] == '-') {
                    s@.drop_first()
                } else {
                    s@
                };
                assert(d == s@.subrange(from as int, n as int));
                assert(d.len() > 0 && all_digits(d) && digits_value(d) <= u64::MAX);
                lemma_digits_value_nonneg(d);
                assert(v == digits_value(d));
                if neg {
                    assert(int_string_value(s@) == -digits_value(d));
                } else {
                    assert(int_string_value(s@) == digits_value(d));
                }
            }
            if neg {
                if v > 9223372036854775808u64 {
                    None
                } else if v == 9223372036854775808u64 {
                    Some(i64::MIN)
                } else {
                    Some(-(v as i64))
                }
            } else {
                if v > 9223372036854775807u64 {
                    None
                } else {
                    Some(v as i64)
                }
            }
        },
    }
}

/// A decimal token whose value fits in an `i32`, as `i32::from_str` accepts.
pub open spec fn is_i32_string(s: Seq<char>) -> bool {
    is_i64_string(s) && i32::MIN <= int_string_value(s) && int_string_value(s) <= i32::MAX
}

/// Reads an `i32` from a decimal token, as `str::parse::<i32>` would.
pub fn parse_i32(s: &[char]) -> (r: Option<i32>)
    ensures
        r is Some <==> is_i32_string(s@),
        r is Some ==> r == Some(int_string_value(s@) as i32),
{
    match parse_i64(s) {
        None => None,
        Some(v) => {
            if v < -2147483648i64 || v > 2147483647i64 {
                None
            } else {
                Some(v as i32)
            }
        },
    }
}

/// Every whitespace-separated token of `line` is a decimal `i32`.
pub open spec fn line_all_i32(line: Seq<char>) -> bool {
    forall|t: int|
        0 <= t < spec_tokens(line).len() ==> is_i32_string(#[trigger] spec_tokens(line)[t])
}

/// The values of the tokens of `line`.
pub open spec fn line_i32_values(line: Seq<char>) -> Seq<i32> {
    spec_tokens(line).map_values(|t: Seq<char>| int_string_value(t) as i32)
}

/// Reads every whitespace-separated token of `line` as an `i32`; `None`
/// exactly when one of them is not one.
pub fn parse_i32_line(line: &[char]) -> (r: Option<Vec<i32>>)
    ensures
        r is Some <==> line_all_i32(line@),
        r is Some ==> (r->0)@ == line_i32_values(line@),
{
    let toks = split_tokens(line);
    let mut vals: Vec<i32> = Vec::new();
    let n: usize = toks.len();
    let mut i: usize = 0;
    while i < n
        invariant
            i <= n,
            n == toks@.len(),
            toks@.len() == spec_tokens(line@).len(),
            forall|t: int| 0 <= t < n ==> toks@[t]@ == spec_tokens(line@)[t],
            forall|t: int| 0 <= t < i ==> is_i32_string(#[trigger] spec_tokens(line@)[t]),
            vals@.len() == i,
            forall|t: int|
                0 <= t < i ==> vals@[t] == int_string_value(#[trigger] spec_tokens(line@)[t])
                    as i32,
        decreases n - i,
    {
        match parse_i32(toks[i].as_slice()) {
            None => {
                proof {
                    assert(!is_i32_string(spec_tokens(line@)[i as int]));
                }
                return None;
            },
            Some(v) => {
                vals.push(v);
            },
        }
        i += 1;
    }
    proof {
        assert(vals@ =~= line_i32_values(line@));
    }
    Some(vals)
}

} // verus!
