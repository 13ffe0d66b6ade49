use vstd::prelude::*;

use crate::fst::{label_of, tr_label, trs_sorted, FstState, Tr, VectorFst};
use crate::semirings::Semiring;

verus! {

/// Where a transition with label `lab` goes in a sorted sequence so that it
/// follows every transition whose label is not greater.
pub open spec fn insert_pos<W>(s: Seq<Tr<W>>, lab: usize, input: bool) -> int
    decreases s.len(),
{
    if s.len() == 0 {
        0
    } else if tr_label(s.last(), input) <= lab {
        s.len() as int
    } else {
        insert_pos(s.drop_last(), lab, input)
    }
}

/// Stable sort of transitions by the chosen label, by insertion.
pub open spec fn sort_trs<W>(s: Seq<Tr<W>>, input: bool) -> Seq<Tr<W>>
    decreases s.len(),
{
    if s.len() == 0 {
        s
    } else {
        let p = sort_trs(s.drop_last(), input);
        let q = insert_pos(p, tr_label(s.last(), input), input);
        p.take(q).push(s.last()) + p.skip(q)
    }
}

proof fn lemma_insert_pos_bounds<W>(s: Seq<Tr<W>>, lab: usize, input: bool)
    ensures
        0 <= insert_pos(s, lab, input) <= s.len(),
        forall|i: int| insert_pos(s, lab, input) <= i < s.len() ==> tr_label(#[trigger] s[i], input) > lab,
        trs_sorted(s, input) ==> forall|i: int| 0 <= i < insert_pos(s, lab, input) ==> tr_label(#[trigger] s[i], input) <= lab,
    decreases s.len(),
{
    if s.len() > 0 {
        if tr_label(s.last(), input) > lab {
            lemma_insert_pos_bounds(s.drop_last(), lab, input);
            assert forall|i: int| insert_pos(s, lab, input) <= i < s.len() implies tr_label(#[trigger] s[i], input) > lab by {
                if i < s.len() - 1 {
                    assert(s[i] == s.drop_last()[i]);
                }
            }
            if trs_sorted(s, input) {
                assert(trs_sorted(s.drop_last(), input)) by {
                    assert forall|i: int, j: int| 0 <= i <= j < s.drop_last().len() implies
                        tr_label(#[trigger] s.drop_last()[i], input) <= tr_label(#[trigger] s.drop_last()[j], input) by {
                        assert(s.drop_last()[i] == s[i]);
                        assert(s.drop_last()[j] == s[j]);
                    }
                }
                assert forall|i: int| 0 <= i < insert_pos(s, lab, input) implies tr_label(#[trigger] s[i], input) <= lab by {
                    assert(s[i] == s.drop_last()[i]);
                }
            }
        } else {
            if trs_sorted(s, input) {
                assert forall|i: int| 0 <= i < insert_pos(s, lab, input) implies tr_label(#[trigger] s[i], input) <= lab by {
                    assert(tr_label(s[i], input) <= tr_label(s[s.len() - 1], input));
                }
            }
        }
    }
}

/// The sort yields a sorted sequence of the same length.
pub proof fn lemma_sort_trs<W>(s: Seq<Tr<W>>, input: bool)
    ensures
        trs_sorted(sort_trs(s, input), input),
        sort_trs(s, input).len() == s.len(),
    decreases s.len(),
{
    if s.len() > 0 {
        let p = sort_trs(s.drop_last(), input);
        lemma_sort_trs(s.drop_last(), input);
        let lab = tr_label(s.last(), input);
        let q = insert_pos(p, lab, input);
        lemma_insert_pos_bounds(p, lab, input);
        let r = p.take(q).push(s.last()) + p.skip(q);
        assert(r.len() == s.len());
        assert forall|i: int| 0 <= i < r.len() implies #[trigger] r[i] == (if i < q { p[i] } else if i == q { s.last() } else { p[i - 1] }) by {}
        assert forall|i: int, j: int| 0 <= i <= j < r.len() implies tr_label(#[trigger] r[i], input) <= tr_label(#[trigger] r[j], input) by {
            assert(r[i] == (if i < q { p[i] } else if i == q { s.last() } else { p[i - 1] }));
            assert(r[j] == (if j < q { p[j] } else if j == q { s.last() } else { p[j - 1] }));
        }
    }
}

/// Sorting transitions that are already sorted leaves them as they are.
pub proof fn lemma_sort_sorted<W>(s: Seq<Tr<W>>, input: bool)
    requires
        trs_sorted(s, input),
    ensures
        sort_trs(s, input) == s,
    decreases s.len(),
{
    if s.len() > 0 {
        let init = s.drop_last();
        assert(trs_sorted(init, input)) by {
            assert forall|i: int, j: int| 0 <= i <= j < init.len() implies tr_label(#[trigger] init[i], input) <= tr_label(#[trigger] init[j], input) by {
                assert(init[i] == s[i]);
                assert(init[j] == s[j]);
            }
        }
        lemma_sort_sorted(init, input);
        let lab = tr_label(s.last(), input);
        if init.len() > 0 {
            assert(tr_label(init.last(), input) <= lab) by {
                assert(init.last() == s[s.len() - 2]);
            }
        }
        assert(insert_pos(init, lab, input) == init.len());
        assert(init.take(init.len() as int).push(s.last()) + init.skip(init.len() as int) =~= s);
    }
}

/// Whether a transition carries `lab` as its chosen label.
pub open spec fn has_label<W>(lab: usize, input: bool) -> spec_fn(Tr<W>) -> bool {
    |t: Tr<W>| tr_label(t, input) == lab
}

/// The transitions of a sequence whose chosen label is `lab`, in their order.
pub open spec fn trs_with_label<W>(s: Seq<Tr<W>>, lab: usize, input: bool) -> Seq<Tr<W>> {
    s.filter(has_label(lab, input))
}

/// The sort only reorders transitions: the result holds each transition of
/// the input exactly as often as the input does, and the transitions that
/// share a label come out in the order in which they came in.
pub proof fn lemma_sort_trs_stable_permutation<W>(s: Seq<Tr<W>>, input: bool)
    ensures
        sort_trs(s, input).to_multiset() == s.to_multiset(),
        forall|lab: usize|
            #[trigger] trs_with_label(sort_trs(s, input), lab, input) == trs_with_label(s, lab, input),
    decreases s.len(),
{
    if s.len() > 0 {
        let init = s.drop_last();
        let p = sort_trs(init, input);
        lemma_sort_trs_stable_permutation(init, input);
        let e = s.last();
        let lab = tr_label(e, input);
        let q = insert_pos(p, lab, input);
        lemma_insert_pos_bounds(p, lab, input);
        let r = sort_trs(s, input);
        let a = p.take(q);
        let b = p.skip(q);
        assert(r =~= p.insert(q, e));
        vstd::seq_lib::to_multiset_insert(p, q, e);
        assert(s =~= init.push(e));
        vstd::seq_lib::to_multiset_build(init, e);
        assert(p =~= a + b);
        assert forall|l: usize| #[trigger] trs_with_label(r, l, input) == trs_with_label(s, l, input) by {
            let pred = has_label::<W>(l, input);
            Seq::filter_distributes_over_add(a, b, pred);
            Seq::filter_distributes_over_add(a.push(e), b, pred);
            a.lemma_filter_push(e, pred);
            init.lemma_filter_push(e, pred);
            assert(trs_with_label(init, l, input) == trs_with_label(p, l, input));
            if lab == l {
                assert(b.all(|x: Tr<W>| !pred(x))) by {
                    assert forall|i: int| 0 <= i < b.len() implies !pred(#[trigger] b[i]) by {
                        assert(b[i] == p[q + i]);
                    }
                }
                b.lemma_all_neg_filter_empty(pred);
                assert(b.filter(pred) =~= Seq::<Tr<W>>::empty());
                assert(a.filter(pred) + b.filter(pred) =~= a.filter(pred));
                assert(a.filter(pred).push(e) + b.filter(pred) =~= a.filter(pred).push(e));
            }
        }
    }
}

/// Sorts transitions by the chosen label; equal labels keep their order.
pub fn sort_trs_by_label<W: Semiring>(trs: Vec<Tr<W>>, input: bool) -> (r: Vec<Tr<W>>)
    ensures
        r@ == sort_trs(trs@, input),
        trs_sorted(r@, input),
        r@.to_multiset() == trs@.to_multiset(),
        forall|lab: usize| #[trigger] trs_with_label(r@, lab, input) == trs_with_label(trs@, lab, input),
{
    let mut out: Vec<Tr<W>> = Vec::new();
    let mut trs = trs;
    let ghost orig = trs@;
    let mut i: usize = 0;
    let n = trs.len();
    while trs.len() > 0
        invariant
            i + trs@.len() == n,
            n == orig.len(),
            trs@ == orig.skip(i as int),
            out@ == sort_trs(orig.take(i as int), input),
        decreases trs@.len(),
    {
        let tr = trs.remove(0);
        let lab = label_of(&tr, input);
        let mut q = out.len();
        proof {
            assert(out@.take(q as int) =~= out@);
        }
        while q > 0 && label_of(&out[q - 1], input) > lab
            invariant
                q <= out@.len(),
                insert_pos(out@, lab, input) == insert_pos(out@.take(q as int), lab, input),
                lab == tr_label(tr, input),
            decreases q,
        {
            proof {
                assert(out@.take(q as int).drop_last() =~= out@.take(q - 1));
                assert(out@.take(q as int).last() == out@[q - 1]);
            }
            q -= 1;
        }
        proof {
            if q > 0 {
                assert(out@.take(q as int).last() == out@[q - 1]);
            }
            assert(insert_pos(out@.take(q as int), lab, input) == q);
            let t = orig.take(i + 1);
            assert(t.drop_last() =~= orig.take(i as int));
            assert(t.last() == tr);
        }
        let ghost before = out@;
        out.insert(q, tr);
        proof {
            assert(out@ =~= before.take(q as int).push(tr) + before.skip(q as int));
            assert(trs@ =~= orig.skip(i + 1));
        }
        i += 1;
    }
    assert(orig.take(n as int) =~= orig);
    proof {
        lemma_sort_trs(orig, input);
        lemma_sort_trs_stable_permutation(orig, input);
    }
    out
}

impl<W: Semiring> VectorFst<W> {
    /// Sorts the transitions of each state by the chosen label (stable).
    pub fn tr_sort(&mut self, input: bool)
        ensures
            final(self).states@.len() == old(self).states@.len(),
            final(self).start_state == old(self).start_state,
            forall|s: int| 0 <= s < final(self).states@.len() ==> (#[trigger] final(self).states@[s]).final_weight
                == old(self).states@[s].final_weight && final(self).states@[s].trs@ == sort_trs(old(self).states@[s].trs@, input),
            forall|s: int| 0 <= s < final(self).states@.len() ==> (#[trigger] final(self).states@[s]).trs@.to_multiset()
                == old(self).states@[s].trs@.to_multiset(),
            forall|s: int, lab: usize| 0 <= s < final(self).states@.len() ==> #[trigger] trs_with_label(final(self).states@[s].trs@, lab, input)
                == trs_with_label(old(self).states@[s].trs@, lab, input),
            final(self).sorted_spec(input),
            old(self).wf() ==> final(self).wf(),
    {
        let n = self.states.len();
        let mut s: usize = 0;
        while s < n
            invariant
                s <= n,
                n == self.states@.len(),
                self.states@.len() == old(self).states@.len(),
                self.start_state == old(self).start_state,
                forall|q: int| 0 <= q < n ==> (#[trigger] self.states@[q]).final_weight == old(self).states@[q].final_weight,
                forall|q: int| 0 <= q < s ==> (#[trigger] self.states@[q]).trs@ == sort_trs(old(self).states@[q].trs@, input),
                forall|q: int| s <= q < n ==> (#[trigger] self.states@[q]).trs@ == old(self).states@[q].trs@,
            decreases n - s,
        {
            let mut st = FstState { final_weight: None, trs: Vec::new() };
            std::mem::swap(&mut st, &mut self.states[s]);
            let sorted = sort_trs_by_label(st.trs, input);
            let ghost before = self.states@;
            self.states.set(s, FstState { final_weight: st.final_weight, trs: sorted });
            proof {
                assert forall|q: int| 0 <= q < n implies (#[trigger] self.states@[q]).final_weight == old(self).states@[q].final_weight by {
                    if q != s {
                        assert(self.states@[q] == before[q]);
                    }
                }
            }
            s += 1;
        }
        proof {
            assert forall|q: int| 0 <= q < self.states@.len() implies trs_sorted(#[trigger] self.states@[q].trs@, input) by {
                lemma_sort_trs(old(self).states@[q].trs@, input);
            }
            assert forall|q: int| 0 <= q < self.states@.len() implies (#[trigger] self.states@[q]).trs@.to_multiset()
                == old(self).states@[q].trs@.to_multiset() by {
                lemma_sort_trs_stable_permutation(old(self).states@[q].trs@, input);
            }
            assert forall|q: int, lab: usize| 0 <= q < self.states@.len() implies #[trigger] trs_with_label(self.states@[q].trs@, lab, input)
                == trs_with_label(old(self).states@[q].trs@, lab, input) by {
                lemma_sort_trs_stable_permutation(old(self).states@[q].trs@, input);
            }
            if old(self).wf() {
                assert forall|q: int, k: int|
                    0 <= q < self.states@.len() && 0 <= k < self.states@[q].trs@.len()
                        implies #[trigger] self.states@[q].trs@[k].nextstate < self.states@.len() by {
                    lemma_sort_trs_members(old(self).states@[q].trs@, input, k);
                }
            }
        }
    }
}

/// Each transition of the sorted sequence is one of the input.
pub proof fn lemma_sort_trs_members<W>(s: Seq<Tr<W>>, input: bool, k: int)
    requires
        0 <= k < sort_trs(s, input).len(),
    ensures
        exists|j: int| 0 <= j < s.len() && s[j] == #[trigger] sort_trs(s, input)[k],
    decreases s.len(),
{
    lemma_sort_trs(s, input);
    if s.len() > 0 {
        let p = sort_trs(s.drop_last(), input);
        lemma_sort_trs(s.drop_last(), input);
        let lab = tr_label(s.last(), input);
        let q = insert_pos(p, lab, input);
        lemma_insert_pos_bounds(p, lab, input);
        let r = p.take(q).push(s.last()) + p.skip(q);
        assert(r[k] == (if k < q { p[k] } else if k == q { s.last() } else { p[k - 1] }));
        if k == q {
            assert(s[s.len() - 1] == r[k]);
        } else {
            let kk = if k < q { k } else { k - 1 };
            lemma_sort_trs_members(s.drop_last(), input, kk);
            let j = choose|j: int| 0 <= j < s.drop_last().len() && s.drop_last()[j] == #[trigger] sort_trs(s.drop_last(), input)[kk];
            assert(s[j] == s.drop_last()[j]);
        }
    }
}

} // verus!
