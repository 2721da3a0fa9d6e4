//! Enumeration of all fixed-length sequences over a finite alphabet, in
//! base-N counter order.

use vstd::prelude::*;

verus! {

/// The next counter state: indices as a base-`n` number, least significant
/// digit last, or `None` when the counter wraps around.
pub open spec fn inc_indices(ix: Seq<usize>, n: int) -> Option<Seq<usize>>
    decreases ix.len(),
{
    if ix.len() == 0 {
        None
    } else if ix.last() + 1 < n {
        Some(ix.update(ix.len() - 1, (ix.last() + 1) as usize))
    } else {
        match inc_indices(ix.drop_last(), n) {
            None => None,
            Some(p) => Some(p.push(0)),
        }
    }
}

/// Yields every sequence of `m` draws (with repetition) from `elements`.
pub struct SequenceIterator<'a, T> {
    pub elements: &'a [T],
    pub indices: Vec<usize>,
    pub done: bool,
}

impl<'a, T: Copy> SequenceIterator<'a, T> {
    pub open spec fn wf(&self) -> bool {
        self.done || forall|k: int| 0 <= k < self.indices@.len() ==> #[trigger] self.indices@[k]
            < self.elements@.len()
    }

    /// Starts the counter at all zeroes; with an empty alphabet and a
    /// positive length there is nothing to yield.
    pub fn new(elements: &'a [T], m: usize) -> (r: SequenceIterator<'a, T>)
        ensures
            r.elements@ == elements@,
            r.indices@ =~= Seq::new(m as nat, |k: int| 0usize),
            r.done == (elements@.len() == 0 && m > 0),
            r.wf(),
    {
        let done = elements.len() == 0 && m > 0;
        let mut indices: Vec<usize> = Vec::new();
        let mut k: usize = 0;
        while k < m
            invariant
                k <= m,
                indices@ =~= Seq::new(k as nat, |t: int| 0usize),
                done == (elements@.len() == 0 && m > 0),
            decreases m - k,
        {
            indices.push(0);
            proof {
                assert(indices@ =~= Seq::new(k as nat + 1, |t: int| 0usize));
            }
            k += 1;
        }
        let r = SequenceIterator { elements, indices, done };
        proof {
            if !done {
                assert forall|t: int| 0 <= t < r.indices@.len() implies #[trigger] r.indices@[t]
                    < r.elements@.len() by {
                    assert(r.indices@[t] == 0);
                }
            }
        }
        r
    }

    /// The sequence the counter currently denotes, advancing the counter;
    /// `None` once every sequence has been yielded.
    pub fn next(&mut self) -> (r: Option<Vec<T>>)
        requires
            old(self).wf(),
        ensures
            final(self).wf(),
            final(self).elements@ == old(self).elements@,
            (r is Some) == !old(self).done,
            !old(self).done ==> {
                &&& (r->0)@ =~= Seq::new(
                    old(self).indices@.len(),
                    |k: int| old(self).elements@[old(self).indices@[k] as int],
                )
                &&& match inc_indices(old(self).indices@, old(self).elements@.len() as int) {
                    None => final(self).done,
                    Some(ix2) => !final(self).done && final(self).indices@ == ix2,
                }
            },
    {
        if self.done {
            return None;
        }
        let m: usize = self.indices.len();
        let mut sequence: Vec<T> = Vec::new();
        let mut k: usize = 0;
        while k < m
            invariant
                k <= m,
                m == self.indices@.len(),
                self.indices@ == old(self).indices@,
                self.elements@ == old(self).elements@,
                self.done == old(self).done,
                !self.done,
                self.wf(),
                sequence@ =~= Seq::new(
                    k as nat,
                    |t: int| self.elements@[self.indices@[t] as int],
                ),
            decreases m - k,
        {
            let ix = self.indices[k];
            let e = self.elements[ix];
            sequence.push(e);
            proof {
                assert(sequence@ =~= Seq::new(
                    k as nat + 1,
                    |t: int| self.elements@[self.indices@[t] as int],
                ));
            }
            k += 1;
        }
        let n: usize = self.elements.len();
        if n == 0 {
            self.done = true;
            proof {
                assert(inc_indices(old(self).indices@, 0) is None) by {
                    lemma_inc_none_when_zero(old(self).indices@);
                }
            }
            return Some(sequence);
        }
        let mut pos: usize = m;
        proof {
            assert(old(self).indices@.subrange(0, m as int) =~= old(self).indices@);
            if inc_indices(old(self).indices@, n as int) is Some {
                let p = inc_indices(old(self).indices@, n as int)->0;
                assert(p + self.indices@.subrange(m as int, m as int) =~= p);
            }
        }
        loop
            invariant_except_break
                self.done == old(self).done,
                !self.done,
                forall|t: int| pos <= t < m ==> self.indices@[t] == 0,
                forall|t: int| pos <= t < m ==> old(self).indices@[t] + 1 == n,
                inc_indices(old(self).indices@, n as int) == (if pos == 0 {
                    None::<Seq<usize>>
                } else {
                    match inc_indices(old(self).indices@.subrange(0, pos as int), n as int) {
                        None => None::<Seq<usize>>,
                        Some(p) => Some(p + self.indices@.subrange(pos as int, m as int)),
                    }
                }),
            invariant
                pos <= m,
                m == self.indices@.len(),
                old(self).indices@.len() == m,
                n == self.elements@.len(),
                n > 0,
                self.elements@ == old(self).elements@,
                forall|t: int| 0 <= t < pos ==> self.indices@[t] == old(self).indices@[t],
                forall|t: int| 0 <= t < m ==> #[trigger] self.indices@[t] < n,
            ensures
                match inc_indices(old(self).indices@, n as int) {
                    None => self.done && self.elements@ == old(self).elements@,
                    Some(ix2) => !self.done && self.indices@ == ix2 && self.elements@ == old(
                        self,
                    ).elements@,
                },
                self.wf(),
            decreases pos,
        {
            if pos == 0 {
                proof {
                    assert(inc_indices(old(self).indices@, n as int) is None);
                }
                self.done = true;
                break ;
            }
            pos -= 1;
            let cur = self.indices[pos];
            proof {
                assert(cur == old(self).indices@[pos as int]);
                let pre = old(self).indices@.subrange(0, pos as int + 1);
                assert(pre.last() == old(self).indices@[pos as int]);
                assert(pre.drop_last() =~= old(self).indices@.subrange(0, pos as int));
            }
            if cur + 1 < n {
                let ghost tail = self.indices@.subrange(pos as int + 1, m as int);
                self.indices[pos] = cur + 1;
                proof {
                    let pre = old(self).indices@.subrange(0, pos as int + 1);
                    assert(inc_indices(pre, n as int) == Some(
                        pre.update(pos as int, (cur + 1) as usize),
                    ));
                    assert(self.indices@.subrange(pos as int + 1, m as int) =~= tail);
                    assert(self.indices@ =~= pre.update(pos as int, (cur + 1) as usize) + tail);
                    assert(pre.update(pos as int, (cur + 1) as usize) + self.indices@.subrange(
                        pos as int + 1,
                        m as int,
                    ) =~= self.indices@);
                }
                break ;
            }
            proof {
                assert(cur + 1 == n);
            }
            self.indices[pos] = 0;
            proof {
                let pre = old(self).indices@.subrange(0, pos as int + 1);
                assert(pre.last() + 1 == n);
                assert(inc_indices(pre, n as int) == (match inc_indices(
                    old(self).indices@.subrange(0, pos as int),
                    n as int,
                ) {
                    None => None::<Seq<usize>>,
                    Some(p) => Some(p.push(0)),
                }));
                if inc_indices(old(self).indices@.subrange(0, pos as int), n as int) is Some {
                    let p = inc_indices(old(self).indices@.subrange(0, pos as int), n as int)->0;
                    assert(p.push(0) + self.indices@.subrange(pos as int + 1, m as int) =~= p
                        + self.indices@.subrange(pos as int, m as int));
                }
            }
        }
        Some(sequence)
    }
}

proof fn lemma_inc_none_when_zero(ix: Seq<usize>)
    ensures
        inc_indices(ix, 0) is None,
    decreases ix.len(),
{
    if ix.len() > 0 {
        lemma_inc_none_when_zero(ix.drop_last());
    }
}

} // verus!
