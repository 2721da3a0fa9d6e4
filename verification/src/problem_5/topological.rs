//! Ordering pages under before/after rules: repeatedly take the page that
//! must come before all remaining ones.

use vstd::prelude::*;

verus! {

/// The ordered pair (`x`, `y`) is one of the listed rules.
pub open spec fn in_pairs(pairs: Seq<(i32, i32)>, x: i32, y: i32) -> bool {
    exists|k: int| 0 <= k < pairs.len() && #[trigger] pairs[k] == (x, y)
}

pub open spec fn distinct(s: Seq<i32>) -> bool {
    forall|i: int, j: int| 0 <= i < j < s.len() ==> s[i] != s[j]
}

/// The rules order the listed values strictly and totally.
pub open spec fn strict_total_vals(pairs: Seq<(i32, i32)>, s: Seq<i32>) -> bool {
    &&& forall|x: i32, y: i32|
        s.contains(x) && s.contains(y) && x != y ==> (in_pairs(pairs, x, y) <==> !in_pairs(
            pairs,
            y,
            x,
        ))
    &&& forall|x: i32, y: i32, z: i32|
        s.contains(x) && s.contains(y) && s.contains(z) && in_pairs(pairs, x, y) && in_pairs(
            pairs,
            y,
            z,
        ) ==> in_pairs(pairs, x, z)
    &&& forall|x: i32| s.contains(x) ==> !in_pairs(pairs, x, x)
}

/// Every pair of the result stands in rule order.
pub open spec fn ordered_by(pairs: Seq<(i32, i32)>, s: Seq<i32>) -> bool {
    forall|i: int, j: int| 0 <= i < j < s.len() ==> in_pairs(pairs, s[i], s[j])
}

/// `x` must come before every other remaining value.
pub open spec fn minimal_of(pairs: Seq<(i32, i32)>, s: Seq<i32>, x: i32) -> bool {
    s.contains(x) && forall|j: int| 0 <= j < s.len() && s[j] != x ==> in_pairs(pairs, x, #[trigger] s[j])
}

/// The unique rule-sorted arrangement of `s`.
pub open spec fn spec_fix(pairs: Seq<(i32, i32)>, s: Seq<i32>) -> Seq<i32>
    decreases s.len(),
{
    if s.len() == 0 {
        Seq::empty()
    } else {
        let m = choose|x: i32| minimal_of(pairs, s, x);
        let i = choose|i: int| 0 <= i < s.len() && s[i] == m;
        if 0 <= i < s.len() {
            seq![m] + spec_fix(pairs, s.remove(i))
        } else {
            Seq::empty()
        }
    }
}

/// Whether (`x`, `y`) is one of the rules.
fn pair_in(pairs: &[(i32, i32)], x: i32, y: i32) -> (b: bool)
    ensures
        b == in_pairs(pairs@, x, y),
{
    let n: usize = pairs.len();
    let mut k: usize = 0;
    while k < n
        invariant
            k <= n,
            n == pairs@.len(),
            forall|t: int| 0 <= t < k ==> #[trigger] pairs@[t] != (x, y),
        decreases n - k,
    {
        let p = pairs[k];
        if p.0 == x && p.1 == y {
            return true;
        }
        k += 1;
    }
    false
}

/// Sorts `pages` so that every pair respects the rules.  The rules must
/// order the distinct pages strictly and totally.
pub fn topological_sort(pages: &[i32], pairs: &[(i32, i32)]) -> (r: Vec<i32>)
    requires
        distinct(pages@),
        strict_total_vals(pairs@, pages@),
    ensures
        r@ == spec_fix(pairs@, pages@),
        r@.len() == pages@.len(),
{
    let n: usize = pages.len();
    let mut rest: Vec<i32> = Vec::new();
    let mut i: usize = 0;
    while i < n
        invariant
            i <= n,
            n == pages@.len(),
            rest@ == pages@.subrange(0, i as int),
        decreases n - i,
    {
        let x = pages[i];
        rest.push(x);
        proof {
            assert(rest@ =~= pages@.subrange(0, i as int + 1));
        }
        i += 1;
    }
    proof {
        assert(rest@ =~= pages@);
    }
    let mut out: Vec<i32> = Vec::new();
    while rest.len() > 0
        invariant
            distinct(rest@),
            forall|k: int| 0 <= k < rest@.len() ==> pages@.contains(#[trigger] rest@[k]),
            strict_total_vals(pairs@, pages@),
            distinct(pages@),
            spec_fix(pairs@, pages@) == out@ + spec_fix(pairs@, rest@),
            out@.len() + rest@.len() == pages@.len(),
        decreases rest@.len(),
    {
        let m: usize = rest.len();
        let mut best: usize = 0;
        let mut j: usize = 1;
        while j < m
            invariant
                best < j <= m,
                m == rest@.len(),
                distinct(rest@),
                forall|k: int| 0 <= k < rest@.len() ==> pages@.contains(#[trigger] rest@[k]),
                strict_total_vals(pairs@, pages@),
                forall|u: int|
                    0 <= u < j && u != best ==> in_pairs(
                        pairs@,
                        rest@[best as int],
                        #[trigger] rest@[u],
                    ),
            decreases m - j,
        {
            let a = rest[j];
            let b = rest[best];
            if pair_in(pairs, a, b) {
                proof {
                    assert forall|u: int|
                        0 <= u < j + 1 && u != j as int implies in_pairs(
                        pairs@,
                        rest@[j as int],
                        #[trigger] rest@[u],
                    ) by {
                        if u != best {
                            assert(in_pairs(pairs@, rest@[best as int], rest@[u]));
                            assert(pages@.contains(rest@[j as int]));
                            assert(pages@.contains(rest@[best as int]));
                            assert(pages@.contains(rest@[u]));
                        }
                    }
                }
                best = j;
            } else {
                proof {
                    assert(pages@.contains(rest@[j as int]));
                    assert(pages@.contains(rest@[best as int]));
                    assert(rest@[j as int] != rest@[best as int]);
                    assert(in_pairs(pairs@, rest@[best as int], rest@[j as int]));
                }
            }
            j += 1;
        }
        proof {
            assert forall|t: int| 0 <= t < rest@.len() && rest@[t] != rest@[best as int] implies in_pairs(
                pairs@,
                rest@[best as int],
                #[trigger] rest@[t],
            ) by {
                if t != best {
                } else {
                    assert(false);
                }
            }
            assert(minimal_of(pairs@, rest@, rest@[best as int])) by {
                assert(rest@.contains(rest@[best as int]));
            }
            // the chosen minimal element and index agree with this scan
            let mm = choose|x: i32| minimal_of(pairs@, rest@, x);
            assert(minimal_of(pairs@, rest@, mm));
            if mm != rest@[best as int] {
                let ki = choose|k: int| 0 <= k < rest@.len() && rest@[k] == mm;
                assert(in_pairs(pairs@, rest@[best as int], mm));
                assert(in_pairs(pairs@, mm, rest@[best as int]));
                assert(pages@.contains(mm));
                assert(pages@.contains(rest@[best as int]));
                assert(false);
            }
            let ii = choose|k: int| 0 <= k < rest@.len() && rest@[k] == mm;
            if ii != best {
                assert(rest@[ii] == rest@[best as int]);
                assert(false);
            }
        }
        let ghost oldrest = rest@;
        let ghost oldout = out@;
        let x = rest.remove(best);
        out.push(x);
        proof {
            assert(rest@ == oldrest.remove(best as int));
            assert forall|k: int| 0 <= k < rest@.len() implies pages@.contains(
                #[trigger] rest@[k],
            ) by {
                if k < best {
                    assert(rest@[k] == oldrest[k]);
                } else {
                    assert(rest@[k] == oldrest[k + 1]);
                }
            }
            assert(distinct(rest@)) by {
                assert forall|a: int, b: int| 0 <= a < b < rest@.len() implies rest@[a]
                    != rest@[b] by {
                    if a < best {
                        assert(rest@[a] == oldrest[a]);
                    } else {
                        assert(rest@[a] == oldrest[a + 1]);
                    }
                    if b < best {
                        assert(rest@[b] == oldrest[b]);
                    } else {
                        assert(rest@[b] == oldrest[b + 1]);
                    }
                }
            }
            assert(spec_fix(pairs@, oldrest) == seq![x] + spec_fix(pairs@, rest@));
            assert(out@ == oldout + seq![x]);
            assert(spec_fix(pairs@, pages@) =~= out@ + spec_fix(pairs@, rest@));
        }
    }
    proof {
        assert(spec_fix(pairs@, rest@) =~= Seq::<i32>::empty());
        assert(out@ =~= spec_fix(pairs@, pages@));
    }
    out
}

/// Ordering rules: which pages must come after a given page.
pub struct Rules {
    pub dependencies: Vec<(i32, Vec<i32>)>,
}

/// The rules as a flat pair list, one pair per dependency.
pub open spec fn rules_pairs(deps: Seq<(i32, Vec<i32>)>) -> Seq<(i32, i32)>
    decreases deps.len(),
{
    if deps.len() == 0 {
        Seq::empty()
    } else {
        rules_pairs(deps.drop_last()) + deps.last().1@.map_values(
            |a: i32| (deps.last().0, a),
        )
    }
}

impl Rules {
    pub fn new() -> (r: Rules)
        ensures
            rules_pairs(r.dependencies@) == Seq::<(i32, i32)>::empty(),
    {
        let r = Rules { dependencies: Vec::new() };
        proof {
            assert(rules_pairs(r.dependencies@) =~= Seq::<(i32, i32)>::empty());
        }
        r
    }

    /// Records that `before` must come before `after`.
    pub fn add_dependency(&mut self, before: i32, after: i32)
        ensures
            rules_pairs(final(self).dependencies@) == rules_pairs(old(self).dependencies@) + seq![
                (before, after),
            ],
    {
        let ghost olddeps = self.dependencies@;
        let mut afters: Vec<i32> = Vec::new();
        afters.push(after);
        self.dependencies.push((before, afters));
        proof {
            assert(self.dependencies@.drop_last() =~= olddeps);
            assert(self.dependencies@.last().1@ =~= seq![after]);
            assert(self.dependencies@.last().1@.map_values(|a: i32| (before, a)) =~= seq![
                (before, after),
            ]);
        }
    }
}

/// Sorts `pages` under the recorded rules; they must order the distinct
/// pages strictly and totally.
pub fn fix_order(pages: &[i32], rules: &Rules) -> (r: Vec<i32>)
    requires
        distinct(pages@),
        strict_total_vals(rules_pairs(rules.dependencies@), pages@),
    ensures
        r@ == spec_fix(rules_pairs(rules.dependencies@), pages@),
        r@.len() == pages@.len(),
{
    let flat = flatten_rules(rules);
    topological_sort(pages, flat.as_slice())
}

fn flatten_rules(rules: &Rules) -> (r: Vec<(i32, i32)>)
    ensures
        r@ == rules_pairs(rules.dependencies@),
{
    let n: usize = rules.dependencies.len();
    let mut out: Vec<(i32, i32)> = Vec::new();
    let mut i: usize = 0;
    proof {
        assert(rules.dependencies@.subrange(0, 0) =~= Seq::<(i32, Vec<i32>)>::empty());
        assert(out@ =~= rules_pairs(rules.dependencies@.subrange(0, 0)));
    }
    while i < n
        invariant
            i <= n,
            n == rules.dependencies@.len(),
            out@ == rules_pairs(rules.dependencies@.subrange(0, i as int)),
        decreases n - i,
    {
        let key = rules.dependencies[i].0;
        let vn: usize = rules.dependencies[i].1.len();
        let mut t: usize = 0;
        while t < vn
            invariant
                t <= vn,
                i < n,
                n == rules.dependencies@.len(),
                vn == rules.dependencies@[i as int].1@.len(),
                key == rules.dependencies@[i as int].0,
                out@ == rules_pairs(rules.dependencies@.subrange(0, i as int))
                    + rules.dependencies@[i as int].1@.subrange(0, t as int).map_values(
                    |a: i32| (key, a),
                ),
            decreases vn - t,
        {
            let a = rules.dependencies[i].1[t];
            out.push((key, a));
            proof {
                assert(out@ =~= rules_pairs(rules.dependencies@.subrange(0, i as int))
                    + rules.dependencies@[i as int].1@.subrange(0, t as int + 1).map_values(
                    |aa: i32| (key, aa),
                ));
            }
            t += 1;
        }
        proof {
            let pre = rules.dependencies@.subrange(0, i as int + 1);
            assert(pre.drop_last() =~= rules.dependencies@.subrange(0, i as int));
            assert(pre.last() == rules.dependencies@[i as int]);
            assert(rules.dependencies@[i as int].1@.subrange(0, vn as int) =~= rules.dependencies@[
                i as int].1@);
            assert(out@ =~= rules_pairs(pre));
        }
        i += 1;
    }
    proof {
        assert(rules.dependencies@.subrange(0, n as int) =~= rules.dependencies@);
    }
    out
}

} // verus!
