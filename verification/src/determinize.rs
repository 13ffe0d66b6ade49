use vstd::prelude::*;

use std::marker::PhantomData;

use crate::condense::plus_all;
use crate::fst::{FstError, FstState, Tr, VectorFst};
use crate::semirings::{Semiring, TropicalWeight};
use crate::{Label, StateId};

verus! {

/// Determinization type.
#[derive(Debug, Clone, Copy, PartialEq, Eq, Structural)]
pub enum DeterminizeType {
    /// Input transducer is known to be functional (or error).
    DeterminizeFunctional,
    /// Input transducer is NOT known to be functional.
    DeterminizeNonFunctional,
    /// Input transducer is not known to be functional but only keep the min of
    /// of ambiguous outputs.
    DeterminizeDisambiguate,
}

/// The weight by which the destinations of one label are normalised.
pub trait CommonDivisor<W: Semiring> {
    spec fn common_divisor_spec(w1: W, w2: W) -> W;

    fn common_divisor(w1: &W, w2: &W) -> (r: Result<W, FstError>)
        ensures
            r == Ok::<W, FstError>(Self::common_divisor_spec(*w1, *w2)),
    ;
}

/// The common divisor of a weight with a left division: the sum of the weights.
pub struct DefaultCommonDivisor;

impl<W: Semiring> CommonDivisor<W> for DefaultCommonDivisor {
    open spec fn common_divisor_spec(w1: W, w2: W) -> W {
        W::plus_spec(w1, w2)
    }

    fn common_divisor(w1: &W, w2: &W) -> (r: Result<W, FstError>) {
        Ok(w1.plus(w2))
    }
}

/// A state of the input FST with the residual weight still owed to it.
#[derive(Debug, PartialEq, Eq)]
pub struct DeterminizeElement<W> {
    pub state: StateId,
    pub weight: W,
}

impl<W: Semiring> DeterminizeElement<W> {
    pub fn new(state: StateId, weight: W) -> (r: Self)
        ensures
            r.state == state,
            r.weight == weight,
    {
        DeterminizeElement { state, weight }
    }

    fn elem_clone(&self) -> (r: Self)
        ensures
            r == *self,
    {
        DeterminizeElement { state: self.state, weight: self.weight.weight_clone() }
    }
}

/// A set of input states, each with a residual weight.
#[derive(Debug, PartialEq, Eq)]
pub struct WeightedSubset<W> {
    pub pairs: Vec<DeterminizeElement<W>>,
}

impl<W: Semiring> WeightedSubset<W> {
    pub fn from_vec(vec: Vec<DeterminizeElement<W>>) -> (r: Self)
        ensures
            r.pairs@ == vec@,
    {
        WeightedSubset { pairs: vec }
    }

    pub fn iter(&self) -> (r: &[DeterminizeElement<W>])
        ensures
            r@ == self.pairs@,
    {
        self.pairs.as_slice()
    }
}

/// The tuple that identifies a state of the determinized FST.
#[derive(Debug, PartialEq, Eq)]
pub struct DeterminizeStateTuple<W> {
    pub subset: WeightedSubset<W>,
    pub filter_state: StateId,
}

/// A transition of the determinized FST under construction.
#[derive(Debug, PartialEq, Eq)]
pub struct DeterminizeTr<W> {
    pub label: Label,
    pub weight: W,
    pub dest_tuple: DeterminizeStateTuple<W>,
}

impl<W: Semiring> DeterminizeTr<W> {
    /// A transition on the input label of `tr`, with weight zero and an empty destination.
    pub fn from_tr(tr: &Tr<W>, filter_state: StateId) -> (r: Self)
        ensures
            r.label == tr.ilabel,
            r.weight == W::zero_spec(),
            r.dest_tuple.subset.pairs@.len() == 0,
            r.dest_tuple.filter_state == filter_state,
    {
        DeterminizeTr {
            label: tr.ilabel,
            weight: W::zero(),
            dest_tuple: DeterminizeStateTuple { subset: WeightedSubset { pairs: Vec::new() }, filter_state },
        }
    }
}

/// The final weight of a state of the input, zero where it is not final.
pub open spec fn final_or_zero<W: Semiring>(fst: VectorFst<W>, s: StateId) -> W {
    match fst.states@[s as int].final_weight {
        Some(w) => w,
        None => W::zero_spec(),
    }
}

/// The sum over a subset of each residual weight times the final weight of its state.
pub open spec fn subset_final<W: Semiring>(fst: VectorFst<W>, pairs: Seq<DeterminizeElement<W>>) -> W
    decreases pairs.len(),
{
    if pairs.len() == 0 {
        W::zero_spec()
    } else {
        W::plus_spec(
            subset_final(fst, pairs.drop_last()),
            W::times_spec(pairs.last().weight, final_or_zero(fst, pairs.last().state)),
        )
    }
}

/// The final weight of the determinized state of a subset: none where the sum is zero.
pub open spec fn subset_final_weight<W: Semiring>(fst: VectorFst<W>, pairs: Seq<DeterminizeElement<W>>) -> Option<W> {
    if subset_final(fst, pairs) == W::zero_spec() {
        None
    } else {
        Some(subset_final(fst, pairs))
    }
}

/// The sum over a subset of each residual weight times the distance of its state.
pub open spec fn subset_distance<W: Semiring>(in_dist: Seq<W>, pairs: Seq<DeterminizeElement<W>>) -> W
    decreases pairs.len(),
{
    if pairs.len() == 0 {
        W::zero_spec()
    } else {
        let ind = if pairs.last().state < in_dist.len() { in_dist[pairs.last().state as int] } else { W::zero_spec() };
        W::plus_spec(subset_distance(in_dist, pairs.drop_last()), W::times_spec(pairs.last().weight, ind))
    }
}

/// Every state of a subset is a state of an FST with `n` states.
pub open spec fn pairs_within<W>(pairs: Seq<DeterminizeElement<W>>, n: nat) -> bool {
    forall|i: int| 0 <= i < pairs.len() ==> #[trigger] pairs[i].state < n
}

/// The states of a subset are strictly increasing.
pub open spec fn pairs_sorted<W>(pairs: Seq<DeterminizeElement<W>>) -> bool {
    forall|i: int, j: int| 0 <= i < j < pairs.len() ==> #[trigger] pairs[i].state < #[trigger] pairs[j].state
}

/// Some transition leaving a state of the subset has input label `l`.
pub open spec fn subset_has_label<W>(fst: VectorFst<W>, pairs: Seq<DeterminizeElement<W>>, l: Label) -> bool {
    exists|a: int, b: int|
        0 <= a < pairs.len() && 0 <= b < fst.states@[pairs[a].state as int].trs@.len()
            && #[trigger] fst.states@[pairs[a].state as int].trs@[b].ilabel == l
}

/// Like `subset_has_label`, among the transitions before position `(i, k)`.
pub open spec fn seen_label<W>(fst: VectorFst<W>, pairs: Seq<DeterminizeElement<W>>, i: int, k: int, l: Label) -> bool {
    exists|a: int, b: int|
        0 <= a < pairs.len() && 0 <= b < fst.states@[pairs[a].state as int].trs@.len() && (a < i || (a == i && b < k))
            && #[trigger] fst.states@[pairs[a].state as int].trs@[b].ilabel == l
}

/// Some transition of the sequence has input label `l`.
pub open spec fn trs_have_label<W>(trs: Seq<Tr<W>>, l: Label) -> bool {
    exists|k: int| 0 <= k < trs.len() && #[trigger] trs[k].ilabel == l
}

/// The input labels of a sequence of transitions are pairwise distinct.
pub open spec fn labels_distinct<W>(trs: Seq<Tr<W>>) -> bool {
    forall|k1: int, k2: int| 0 <= k1 < k2 < trs.len() ==> #[trigger] trs[k1].ilabel != #[trigger] trs[k2].ilabel
}

/// Distinct input labels, each equal to the output label, and destinations below `n`.
pub open spec fn det_trs_ok<W>(trs: Seq<Tr<W>>, n: nat) -> bool {
    &&& labels_distinct(trs)
    &&& forall|k: int| 0 <= k < trs.len() ==> #[trigger] trs[k].ilabel == trs[k].olabel && trs[k].nextstate < n
}

/// Some pending transition carries label `l`.
pub open spec fn det_trs_have_label<W>(v: Seq<DeterminizeTr<W>>, l: Label) -> bool {
    exists|j: int| 0 <= j < v.len() && #[trigger] v[j].label == l
}

/// Structural equality of two state tuples, comparing weights by `weight_eq`.
fn tuple_eq<W: Semiring>(a: &DeterminizeStateTuple<W>, b: &DeterminizeStateTuple<W>) -> (r: bool)
    ensures
        r == (a.filter_state == b.filter_state && a.subset.pairs@ == b.subset.pairs@),
{
    if a.filter_state != b.filter_state {
        return false;
    }
    let pa = &a.subset.pairs;
    let pb = &b.subset.pairs;
    if pa.len() != pb.len() {
        assert(pa@.len() != pb@.len());
        return false;
    }
    let mut i: usize = 0;
    while i < pa.len()
        invariant
            pa@.len() == pb@.len(),
            pa@ == a.subset.pairs@,
            pb@ == b.subset.pairs@,
            a.filter_state == b.filter_state,
            i <= pa@.len(),
            forall|j: int| 0 <= j < i ==> pa@[j] == pb@[j],
        decreases pa@.len() - i,
    {
        if pa[i].state != pb[i].state || !pa[i].weight.weight_eq(&pb[i].weight) {
            assert(pa@[i as int] != pb@[i as int]);
            assert(pa@ != pb@);
            return false;
        }
        i += 1;
    }
    assert(pa@ =~= pb@);
    true
}

fn clone_pairs<W: Semiring>(v: &Vec<DeterminizeElement<W>>) -> (r: Vec<DeterminizeElement<W>>)
    ensures
        r@ == v@,
{
    let mut r: Vec<DeterminizeElement<W>> = Vec::new();
    let mut i: usize = 0;
    while i < v.len()
        invariant
            i <= v@.len(),
            r@ == v@.subrange(0, i as int),
        decreases v@.len() - i,
    {
        r.push(v[i].elem_clone());
        i += 1;
        assert(r@ =~= v@.subrange(0, i as int));
    }
    assert(r@ =~= v@);
    r
}

/// The number of leading elements whose state is below `st`.
pub open spec fn lead_count<W>(pairs: Seq<DeterminizeElement<W>>, st: StateId) -> nat
    decreases pairs.len(),
{
    if pairs.len() == 0 || pairs[0].state >= st {
        0
    } else {
        1 + lead_count(pairs.drop_first(), st)
    }
}

/// A subset sorted by state with `e` added: its weight goes to the element on
/// the same state, or it is inserted at its place.
pub open spec fn merge_elt<W: Semiring>(pairs: Seq<DeterminizeElement<W>>, e: DeterminizeElement<W>) -> Seq<DeterminizeElement<W>> {
    let j = lead_count(pairs, e.state) as int;
    if j < pairs.len() && pairs[j].state == e.state {
        pairs.update(j, DeterminizeElement { state: e.state, weight: W::plus_spec(pairs[j].weight, e.weight) })
    } else {
        pairs.insert(j, e)
    }
}

/// The elements of `pairs` merged one after the other into an empty subset.
pub open spec fn merge_all<W: Semiring>(pairs: Seq<DeterminizeElement<W>>) -> Seq<DeterminizeElement<W>>
    decreases pairs.len(),
{
    if pairs.len() == 0 {
        Seq::empty()
    } else {
        merge_elt(merge_all(pairs.drop_last()), pairs.last())
    }
}

proof fn lemma_lead_count<W>(pairs: Seq<DeterminizeElement<W>>, st: StateId, j: int)
    requires
        0 <= j <= pairs.len(),
        forall|q: int| 0 <= q < j ==> #[trigger] pairs[q].state < st,
        j < pairs.len() ==> pairs[j].state >= st,
    ensures
        lead_count(pairs, st) == j,
    decreases pairs.len(),
{
    if j > 0 {
        let t = pairs.drop_first();
        assert forall|q: int| 0 <= q < j - 1 implies #[trigger] t[q].state < st by {
            assert(t[q] == pairs[q + 1]);
        }
        if j - 1 < t.len() {
            assert(t[j - 1] == pairs[j]);
        }
        lemma_lead_count(t, st, j - 1);
    }
}

/// The leading elements counted are those on a state below `st`.
proof fn lemma_lead_count_bounds<W>(pairs: Seq<DeterminizeElement<W>>, st: StateId)
    ensures
        lead_count(pairs, st) <= pairs.len(),
        forall|q: int| 0 <= q < lead_count(pairs, st) ==> #[trigger] pairs[q].state < st,
        lead_count(pairs, st) < pairs.len() ==> pairs[lead_count(pairs, st) as int].state >= st,
    decreases pairs.len(),
{
    if pairs.len() > 0 && pairs[0].state < st {
        let t = pairs.drop_first();
        lemma_lead_count_bounds(t, st);
        assert forall|q: int| 0 <= q < lead_count(pairs, st) implies #[trigger] pairs[q].state < st by {
            if q > 0 {
                assert(pairs[q] == t[q - 1]);
            }
        }
        if lead_count(pairs, st) < pairs.len() {
            assert(pairs[lead_count(pairs, st) as int] == t[lead_count(t, st) as int]);
        }
    }
}

/// Whether an element lies on state `st`.
pub open spec fn on_state<W>(st: StateId) -> spec_fn(DeterminizeElement<W>) -> bool {
    |e: DeterminizeElement<W>| e.state == st
}

/// The weight of an element.
pub open spec fn elem_weight<W>() -> spec_fn(DeterminizeElement<W>) -> W {
    |e: DeterminizeElement<W>| e.weight
}

/// The weights of the elements of `d` on state `st`, in order.
pub open spec fn weights_on<W>(d: Seq<DeterminizeElement<W>>, st: StateId) -> Seq<W> {
    d.filter(on_state(st)).map_values(elem_weight())
}

proof fn lemma_weights_on_push<W>(d: Seq<DeterminizeElement<W>>, e: DeterminizeElement<W>, st: StateId)
    ensures
        weights_on(d.push(e), st) == if e.state == st { weights_on(d, st).push(e.weight) } else { weights_on(d, st) },
{
    d.lemma_filter_push(e, on_state(st));
    if e.state == st {
        d.filter(on_state(st)).lemma_push_map_commute(elem_weight(), e);
    }
}

proof fn lemma_plus_all_push<W: Semiring>(ws: Seq<W>, w: W)
    ensures
        plus_all(ws.push(w)) == if ws.len() == 0 { w } else { W::plus_spec(plus_all(ws), w) },
{
    let t = ws.push(w);
    if ws.len() == 0 {
        assert(t.drop_first() =~= Seq::<W>::empty());
    } else {
        assert(t.drop_first() =~= ws.drop_first().push(w));
        assert(t.drop_first().drop_last() =~= ws.drop_first());
        assert(t[0] == ws[0]);
    }
}

/// Merging the elements of `d` by state keeps, in increasing state order, one
/// element for each state that occurs in `d`, whose weight is the semiring
/// sum, in order, of the weights of the elements of `d` on that state.
pub proof fn lemma_merge_all<W: Semiring>(d: Seq<DeterminizeElement<W>>)
    ensures
        pairs_sorted(merge_all(d)),
        forall|q: int| 0 <= q < merge_all(d).len() ==> weights_on(d, #[trigger] merge_all(d)[q].state).len() > 0
            && merge_all(d)[q].weight == plus_all(weights_on(d, merge_all(d)[q].state)),
        forall|st: StateId| #[trigger] weights_on(d, st).len() > 0
            ==> exists|q: int| 0 <= q < merge_all(d).len() && merge_all(d)[q].state == st,
    decreases d.len(),
{
    if d.len() == 0 {
        assert forall|st: StateId| #[trigger] weights_on(d, st).len() > 0
            implies exists|q: int| 0 <= q < merge_all(d).len() && merge_all(d)[q].state == st by {
            assert(d.filter(on_state(st)).len() <= d.len()) by {
                d.lemma_filter_len(on_state(st));
            }
        }
    } else {
        let d0 = d.drop_last();
        let e = d.last();
        assert(d =~= d0.push(e));
        lemma_merge_all(d0);
        let m0 = merge_all(d0);
        let m = merge_all(d);
        let j = lead_count(m0, e.state) as int;
        lemma_lead_count_bounds(m0, e.state);
        assert forall|st: StateId| #[trigger] weights_on(d, st) == if e.state == st {
            weights_on(d0, st).push(e.weight)
        } else {
            weights_on(d0, st)
        } by {
            lemma_weights_on_push(d0, e, st);
        }
        if j < m0.len() && m0[j].state == e.state {
            let ws0 = weights_on(d0, e.state);
            assert(weights_on(d0, m0[j].state).len() > 0);
            lemma_plus_all_push(ws0, e.weight);
            assert(m == m0.update(j, DeterminizeElement { state: e.state, weight: W::plus_spec(m0[j].weight, e.weight) }));
            assert forall|a: int, b: int| 0 <= a < b < m.len() implies #[trigger] m[a].state < #[trigger] m[b].state by {
                assert(m0[a].state < m0[b].state);
            }
            assert forall|q: int| 0 <= q < m.len() implies weights_on(d, #[trigger] m[q].state).len() > 0
                && m[q].weight == plus_all(weights_on(d, m[q].state)) by {
                if q != j {
                    assert(m[q] == m0[q]);
                    assert(weights_on(d0, m0[q].state).len() > 0);
                    if q < j {
                        assert(m0[q].state < m0[j].state);
                    } else {
                        assert(m0[j].state < m0[q].state);
                    }
                }
            }
            assert forall|st: StateId| #[trigger] weights_on(d, st).len() > 0
                implies exists|q: int| 0 <= q < m.len() && m[q].state == st by {
                if st == e.state {
                    assert(m[j].state == st);
                } else {
                    assert(weights_on(d0, st).len() > 0);
                    let q = choose|q: int| 0 <= q < m0.len() && m0[q].state == st;
                    assert(m[q].state == st);
                }
            }
        } else {
            assert(m == m0.insert(j, e));
            if j < m0.len() {
                assert(m0[j].state > e.state);
            }
            assert forall|q: int| 0 <= q < m0.len() implies #[trigger] m0[q].state != e.state by {
                if q > j {
                    assert(m0[j].state < m0[q].state);
                }
            }
            assert(weights_on(d0, e.state).len() == 0) by {
                if weights_on(d0, e.state).len() > 0 {
                    let q = choose|q: int| 0 <= q < m0.len() && m0[q].state == e.state;
                    assert(m0[q].state != e.state);
                }
            }
            lemma_plus_all_push(weights_on(d0, e.state), e.weight);
            assert forall|a: int, b: int| 0 <= a < b < m.len() implies #[trigger] m[a].state < #[trigger] m[b].state by {
                if b < j {
                    assert(m[a] == m0[a] && m[b] == m0[b]);
                    assert(m0[a].state < m0[b].state);
                } else if b == j {
                    assert(m[a] == m0[a]);
                } else if a == j {
                    assert(m[b] == m0[b - 1]);
                    if b - 1 > j {
                        assert(m0[j].state < m0[b - 1].state);
                    }
                } else if a < j {
                    assert(m[a] == m0[a] && m[b] == m0[b - 1]);
                    assert(m0[a].state < m0[b - 1].state);
                } else {
                    assert(m[a] == m0[a - 1] && m[b] == m0[b - 1]);
                    assert(m0[a - 1].state < m0[b - 1].state);
                }
            }
            assert forall|q: int| 0 <= q < m.len() implies weights_on(d, #[trigger] m[q].state).len() > 0
                && m[q].weight == plus_all(weights_on(d, m[q].state)) by {
                if q < j {
                    assert(m[q] == m0[q]);
                    assert(weights_on(d0, m0[q].state).len() > 0);
                } else if q > j {
                    assert(m[q] == m0[q - 1]);
                    assert(weights_on(d0, m0[q - 1].state).len() > 0);
                } else {
                    assert(m[q] == e);
                }
            }
            assert forall|st: StateId| #[trigger] weights_on(d, st).len() > 0
                implies exists|q: int| 0 <= q < m.len() && m[q].state == st by {
                if st == e.state {
                    assert(m[j].state == st);
                } else {
                    assert(weights_on(d0, st).len() > 0);
                    let q = choose|q: int| 0 <= q < m0.len() && m0[q].state == st;
                    if q < j {
                        assert(m[q] == m0[q]);
                    } else {
                        assert(m[q + 1] == m0[q]);
                    }
                }
            }
        }
    }
}

/// Adds `elt` to a subset sorted by state: its weight is added to that of an
/// element on the same state, or it is inserted at its place.
fn merge_into_sorted<W: Semiring>(pairs: &mut Vec<DeterminizeElement<W>>, elt: DeterminizeElement<W>)
    requires
        pairs_sorted(old(pairs)@),
    ensures
        pairs_sorted(final(pairs)@),
        forall|n: nat| pairs_within(old(pairs)@, n) && elt.state < n ==> pairs_within(final(pairs)@, n),
        final(pairs)@ == merge_elt(old(pairs)@, elt),
{
    let mut j: usize = 0;
    while j < pairs.len() && pairs[j].state < elt.state
        invariant
            j <= pairs@.len(),
            pairs@ == old(pairs)@,
            forall|q: int| 0 <= q < j ==> #[trigger] pairs@[q].state < elt.state,
        decreases pairs@.len() - j,
    {
        j += 1;
    }
    proof {
        lemma_lead_count(pairs@, elt.state, j as int);
    }
    if j < pairs.len() && pairs[j].state == elt.state {
        let w = pairs[j].weight.plus(&elt.weight);
        let st = pairs[j].state;
        pairs.set(j, DeterminizeElement { state: st, weight: w });
        proof {
            assert forall|a: int, b: int| 0 <= a < b < pairs@.len() implies #[trigger] pairs@[a].state < #[trigger] pairs@[b].state by {
                assert(pairs@[a].state == old(pairs)@[a].state);
                assert(pairs@[b].state == old(pairs)@[b].state);
                assert(old(pairs)@[a].state < old(pairs)@[b].state);
            }
            assert forall|n: nat| pairs_within(old(pairs)@, n) && elt.state < n implies pairs_within(pairs@, n) by {
                assert forall|q: int| 0 <= q < pairs@.len() implies #[trigger] pairs@[q].state < n by {
                    assert(pairs@[q].state == old(pairs)@[q].state);
                }
            }
        }
        return;
    }
    let ghost st = elt.state;
    proof {
        if j < old(pairs)@.len() {
            assert(old(pairs)@[j as int].state > st);
        }
    }
    pairs.insert(j, elt);
    proof {
        assert forall|a: int, b: int| 0 <= a < b < pairs@.len() implies #[trigger] pairs@[a].state < #[trigger] pairs@[b].state by {
            if b < j {
                assert(pairs@[a] == old(pairs)@[a]);
                assert(pairs@[b] == old(pairs)@[b]);
                assert(old(pairs)@[a].state < old(pairs)@[b].state);
            } else if b == j {
                assert(pairs@[a] == old(pairs)@[a]);
            } else if a == j {
                assert(pairs@[b] == old(pairs)@[b - 1]);
                if b - 1 > j {
                    assert(old(pairs)@[j as int].state < old(pairs)@[b - 1].state);
                }
            } else if a < j {
                assert(pairs@[a] == old(pairs)@[a]);
                assert(pairs@[b] == old(pairs)@[b - 1]);
                assert(old(pairs)@[a].state < old(pairs)@[b - 1].state);
            } else {
                assert(pairs@[a] == old(pairs)@[a - 1]);
                assert(pairs@[b] == old(pairs)@[b - 1]);
                assert(old(pairs)@[a - 1].state < old(pairs)@[b - 1].state);
            }
        }
        assert forall|n: nat| pairs_within(old(pairs)@, n) && st < n implies pairs_within(pairs@, n) by {
            assert forall|q: int| 0 <= q < pairs@.len() implies #[trigger] pairs@[q].state < n by {
                if q < j {
                    assert(pairs@[q] == old(pairs)@[q]);
                } else if q > j {
                    assert(pairs@[q] == old(pairs)@[q - 1]);
                }
            }
        }
    }
}

proof fn lemma_seen_step<W>(fst: VectorFst<W>, pairs: Seq<DeterminizeElement<W>>, i: int, k: int)
    requires
        0 <= i < pairs.len(),
        0 <= k < fst.states@[pairs[i].state as int].trs@.len(),
    ensures
        forall|l: Label| seen_label(fst, pairs, i, k + 1, l) <==> (seen_label(fst, pairs, i, k, l)
            || l == fst.states@[pairs[i].state as int].trs@[k].ilabel),
{
    let lab = fst.states@[pairs[i].state as int].trs@[k].ilabel;
    assert forall|l: Label| seen_label(fst, pairs, i, k + 1, l) implies (seen_label(fst, pairs, i, k, l) || l == lab) by {
        let (a, b) = choose|a: int, b: int|
            0 <= a < pairs.len() && 0 <= b < fst.states@[pairs[a].state as int].trs@.len() && (a < i || (a == i && b < k + 1))
                && #[trigger] fst.states@[pairs[a].state as int].trs@[b].ilabel == l;
        if !(a == i && b == k) {
            assert(fst.states@[pairs[a].state as int].trs@[b].ilabel == l);
        }
    }
    assert forall|l: Label| (seen_label(fst, pairs, i, k, l) || l == lab) implies seen_label(fst, pairs, i, k + 1, l) by {
        if l == lab {
            assert(fst.states@[pairs[i].state as int].trs@[k].ilabel == l);
        } else {
            let (a, b) = choose|a: int, b: int|
                0 <= a < pairs.len() && 0 <= b < fst.states@[pairs[a].state as int].trs@.len() && (a < i || (a == i && b < k))
                    && #[trigger] fst.states@[pairs[a].state as int].trs@[b].ilabel == l;
            assert(fst.states@[pairs[a].state as int].trs@[b].ilabel == l);
        }
    }
}

proof fn lemma_seen_next_pair<W>(fst: VectorFst<W>, pairs: Seq<DeterminizeElement<W>>, i: int)
    requires
        0 <= i < pairs.len(),
    ensures
        forall|l: Label| seen_label(fst, pairs, i, fst.states@[pairs[i].state as int].trs@.len() as int, l)
            <==> seen_label(fst, pairs, i + 1, 0, l),
{
    let n = fst.states@[pairs[i].state as int].trs@.len() as int;
    assert forall|l: Label| seen_label(fst, pairs, i, n, l) implies seen_label(fst, pairs, i + 1, 0, l) by {
        let (a, b) = choose|a: int, b: int|
            0 <= a < pairs.len() && 0 <= b < fst.states@[pairs[a].state as int].trs@.len() && (a < i || (a == i && b < n))
                && #[trigger] fst.states@[pairs[a].state as int].trs@[b].ilabel == l;
        assert(fst.states@[pairs[a].state as int].trs@[b].ilabel == l);
    }
    assert forall|l: Label| seen_label(fst, pairs, i + 1, 0, l) implies seen_label(fst, pairs, i, n, l) by {
        let (a, b) = choose|a: int, b: int|
            0 <= a < pairs.len() && 0 <= b < fst.states@[pairs[a].state as int].trs@.len() && (a < i + 1 || (a == i + 1 && b < 0))
                && #[trigger] fst.states@[pairs[a].state as int].trs@[b].ilabel == l;
        assert(fst.states@[pairs[a].state as int].trs@[b].ilabel == l);
    }
}

proof fn lemma_seen_all<W>(fst: VectorFst<W>, pairs: Seq<DeterminizeElement<W>>)
    ensures
        forall|l: Label| seen_label(fst, pairs, pairs.len() as int, 0, l) <==> subset_has_label(fst, pairs, l),
{
    assert forall|l: Label| subset_has_label(fst, pairs, l) implies seen_label(fst, pairs, pairs.len() as int, 0, l) by {
        let (a, b) = choose|a: int, b: int|
            0 <= a < pairs.len() && 0 <= b < fst.states@[pairs[a].state as int].trs@.len()
                && #[trigger] fst.states@[pairs[a].state as int].trs@[b].ilabel == l;
        assert(fst.states@[pairs[a].state as int].trs@[b].ilabel == l);
    }
}

/// The destinations of the transitions of `trs` with input label `l`, each
/// with `w` times the transition's weight, in order.
pub open spec fn trs_dest<W: Semiring>(trs: Seq<Tr<W>>, w: W, l: Label) -> Seq<DeterminizeElement<W>>
    decreases trs.len(),
{
    if trs.len() == 0 {
        Seq::empty()
    } else {
        let p = trs_dest(trs.drop_last(), w, l);
        let t = trs.last();
        if t.ilabel == l {
            p.push(DeterminizeElement { state: t.nextstate, weight: W::times_spec(w, t.weight) })
        } else {
            p
        }
    }
}

/// The destinations, with their residual weights, of the transitions with
/// input label `l` leaving the states of a subset, in order.
pub open spec fn label_dest<W: Semiring>(fst: VectorFst<W>, pairs: Seq<DeterminizeElement<W>>, l: Label) -> Seq<DeterminizeElement<W>>
    decreases pairs.len(),
{
    if pairs.len() == 0 {
        Seq::empty()
    } else {
        label_dest(fst, pairs.drop_last(), l) + trs_dest(fst.states@[pairs.last().state as int].trs@, pairs.last().weight, l)
    }
}

/// The destination of transition `t` taken from a subset element of
/// residual weight `w`: its next state, with `w` times its weight.
pub open spec fn dest_elem<W: Semiring>(t: Tr<W>, w: W) -> DeterminizeElement<W> {
    DeterminizeElement { state: t.nextstate, weight: W::times_spec(w, t.weight) }
}

proof fn lemma_trs_dest_source<W: Semiring>(trs: Seq<Tr<W>>, w: W, l: Label, m: int)
    requires
        0 <= m < trs_dest(trs, w, l).len(),
    ensures
        exists|k: int| 0 <= k < trs.len() && (#[trigger] trs[k]).ilabel == l && trs_dest(trs, w, l)[m] == dest_elem(trs[k], w),
    decreases trs.len(),
{
    let p = trs_dest(trs.drop_last(), w, l);
    if m < p.len() {
        lemma_trs_dest_source(trs.drop_last(), w, l, m);
        let k = choose|k: int| 0 <= k < trs.drop_last().len() && (#[trigger] trs.drop_last()[k]).ilabel == l
            && p[m] == dest_elem(trs.drop_last()[k], w);
        assert(trs.drop_last()[k] == trs[k]);
        assert(trs_dest(trs, w, l)[m] == p[m]);
    } else {
        let k = trs.len() - 1;
        assert(trs[k].ilabel == l && trs_dest(trs, w, l)[m] == dest_elem(trs[k], w));
    }
}

proof fn lemma_trs_dest_has<W: Semiring>(trs: Seq<Tr<W>>, w: W, l: Label, k: int)
    requires
        0 <= k < trs.len(),
        trs[k].ilabel == l,
    ensures
        exists|m: int| 0 <= m < trs_dest(trs, w, l).len() && #[trigger] trs_dest(trs, w, l)[m] == dest_elem(trs[k], w),
    decreases trs.len(),
{
    let p = trs_dest(trs.drop_last(), w, l);
    if k == trs.len() - 1 {
        assert(trs_dest(trs, w, l)[p.len() as int] == dest_elem(trs[k], w));
    } else {
        assert(trs.drop_last()[k] == trs[k]);
        lemma_trs_dest_has(trs.drop_last(), w, l, k);
        let m = choose|m: int| 0 <= m < p.len() && #[trigger] p[m] == dest_elem(trs.drop_last()[k], w);
        assert(trs_dest(trs, w, l)[m] == p[m]);
    }
}

/// Each destination of label `l` from a subset is that of a transition on
/// `l` of one of its elements: its next state, with the element's residual
/// weight times the transition's weight.
pub proof fn lemma_label_dest_source<W: Semiring>(fst: VectorFst<W>, pairs: Seq<DeterminizeElement<W>>, l: Label, m: int)
    requires
        0 <= m < label_dest(fst, pairs, l).len(),
    ensures
        exists|i: int, k: int| 0 <= i < pairs.len() && 0 <= k < fst.states@[pairs[i].state as int].trs@.len()
            && (#[trigger] fst.states@[pairs[i].state as int].trs@[k]).ilabel == l
            && label_dest(fst, pairs, l)[m] == dest_elem(fst.states@[pairs[i].state as int].trs@[k], pairs[i].weight),
    decreases pairs.len(),
{
    let init = pairs.drop_last();
    let pre = label_dest(fst, init, l);
    let e = pairs.last();
    let trs = fst.states@[e.state as int].trs@;
    if m < pre.len() {
        lemma_label_dest_source(fst, init, l, m);
        let (i, k) = choose|i: int, k: int| 0 <= i < init.len() && 0 <= k < fst.states@[init[i].state as int].trs@.len()
            && (#[trigger] fst.states@[init[i].state as int].trs@[k]).ilabel == l
            && pre[m] == dest_elem(fst.states@[init[i].state as int].trs@[k], init[i].weight);
        assert(init[i] == pairs[i]);
        assert(label_dest(fst, pairs, l)[m] == pre[m]);
        assert(fst.states@[pairs[i].state as int].trs@[k].ilabel == l);
    } else {
        lemma_trs_dest_source(trs, e.weight, l, m - pre.len());
        let k = choose|k: int| 0 <= k < trs.len() && (#[trigger] trs[k]).ilabel == l
            && trs_dest(trs, e.weight, l)[m - pre.len()] == dest_elem(trs[k], e.weight);
        let i = pairs.len() - 1;
        assert(pairs[i] == e);
        assert(label_dest(fst, pairs, l)[m] == trs_dest(trs, e.weight, l)[m - pre.len()]);
        assert(fst.states@[pairs[i].state as int].trs@[k].ilabel == l);
    }
}

/// Each transition on `l` of an element of a subset gives a destination of
/// label `l`: its next state, with the element's residual weight times the
/// transition's weight.
pub proof fn lemma_label_dest_has<W: Semiring>(fst: VectorFst<W>, pairs: Seq<DeterminizeElement<W>>, l: Label, i: int, k: int)
    requires
        0 <= i < pairs.len(),
        0 <= k < fst.states@[pairs[i].state as int].trs@.len(),
        fst.states@[pairs[i].state as int].trs@[k].ilabel == l,
    ensures
        exists|m: int| 0 <= m < label_dest(fst, pairs, l).len()
            && #[trigger] label_dest(fst, pairs, l)[m] == dest_elem(fst.states@[pairs[i].state as int].trs@[k], pairs[i].weight),
    decreases pairs.len(),
{
    let init = pairs.drop_last();
    let pre = label_dest(fst, init, l);
    let e = pairs.last();
    let trs = fst.states@[e.state as int].trs@;
    let d = dest_elem(fst.states@[pairs[i].state as int].trs@[k], pairs[i].weight);
    if i == pairs.len() - 1 {
        lemma_trs_dest_has(trs, e.weight, l, k);
        let m = choose|m: int| 0 <= m < trs_dest(trs, e.weight, l).len() && #[trigger] trs_dest(trs, e.weight, l)[m] == dest_elem(trs[k], e.weight);
        assert(label_dest(fst, pairs, l)[pre.len() + m] == trs_dest(trs, e.weight, l)[m]);
    } else {
        assert(init[i] == pairs[i]);
        lemma_label_dest_has(fst, init, l, i, k);
        let m = choose|m: int| 0 <= m < pre.len() && #[trigger] pre[m] == dest_elem(fst.states@[init[i].state as int].trs@[k], init[i].weight);
        assert(label_dest(fst, pairs, l)[m] == pre[m]);
    }
}

/// Like `label_dest`, for the elements before `i` and the first `k`
/// transitions of element `i`.
pub open spec fn label_dest_upto<W: Semiring>(fst: VectorFst<W>, pairs: Seq<DeterminizeElement<W>>, i: int, k: int, l: Label) -> Seq<DeterminizeElement<W>> {
    label_dest(fst, pairs.take(i), l) + trs_dest(fst.states@[pairs[i].state as int].trs@.take(k), pairs[i].weight, l)
}

proof fn lemma_dest_step<W: Semiring>(fst: VectorFst<W>, pairs: Seq<DeterminizeElement<W>>, i: int, k: int)
    requires
        0 <= i < pairs.len(),
        0 <= k < fst.states@[pairs[i].state as int].trs@.len(),
    ensures
        forall|l: Label| #[trigger] label_dest_upto(fst, pairs, i, k + 1, l) == if l == fst.states@[pairs[i].state as int].trs@[k].ilabel {
            label_dest_upto(fst, pairs, i, k, l).push(DeterminizeElement {
                state: fst.states@[pairs[i].state as int].trs@[k].nextstate,
                weight: W::times_spec(pairs[i].weight, fst.states@[pairs[i].state as int].trs@[k].weight),
            })
        } else {
            label_dest_upto(fst, pairs, i, k, l)
        },
{
    let trs = fst.states@[pairs[i].state as int].trs@;
    assert(trs.take(k + 1).drop_last() =~= trs.take(k));
    assert(trs.take(k + 1).last() == trs[k]);
    assert forall|l: Label| #[trigger] label_dest_upto(fst, pairs, i, k + 1, l) == if l == trs[k].ilabel {
        label_dest_upto(fst, pairs, i, k, l).push(DeterminizeElement { state: trs[k].nextstate, weight: W::times_spec(pairs[i].weight, trs[k].weight) })
    } else {
        label_dest_upto(fst, pairs, i, k, l)
    } by {
        let a = label_dest(fst, pairs.take(i), l);
        let b = trs_dest(trs.take(k), pairs[i].weight, l);
        if l == trs[k].ilabel {
            let e = DeterminizeElement { state: trs[k].nextstate, weight: W::times_spec(pairs[i].weight, trs[k].weight) };
            assert(a + b.push(e) =~= (a + b).push(e));
        }
    }
}

proof fn lemma_dest_next<W: Semiring>(fst: VectorFst<W>, pairs: Seq<DeterminizeElement<W>>, i: int)
    requires
        0 <= i < pairs.len(),
    ensures
        forall|l: Label| #[trigger] label_dest(fst, pairs.take(i + 1), l)
            == label_dest_upto(fst, pairs, i, fst.states@[pairs[i].state as int].trs@.len() as int, l),
{
    let trs = fst.states@[pairs[i].state as int].trs@;
    assert(pairs.take(i + 1).drop_last() =~= pairs.take(i));
    assert(pairs.take(i + 1).last() == pairs[i]);
    assert(trs.take(trs.len() as int) =~= trs);
}

/// Groups the transitions leaving the states of a subset by input label: one
/// pending transition per label, in order of first appearance, whose destination
/// collects each transition's next state with the residual weight times the
/// transition weight.
fn label_map<W: Semiring>(fst: &VectorFst<W>, pairs: &Vec<DeterminizeElement<W>>) -> (r: Vec<DeterminizeTr<W>>)
    requires
        fst.wf(),
        pairs_within(pairs@, fst.states@.len()),
    ensures
        forall|j1: int, j2: int| 0 <= j1 < j2 < r@.len() ==> #[trigger] r@[j1].label != #[trigger] r@[j2].label,
        forall|l: Label| det_trs_have_label(r@, l) <==> subset_has_label(*fst, pairs@, l),
        forall|j: int| 0 <= j < r@.len() ==> pairs_within(#[trigger] r@[j].dest_tuple.subset.pairs@, fst.states@.len()),
        forall|j: int| 0 <= j < r@.len() ==> (#[trigger] r@[j]).dest_tuple.filter_state == 0,
        forall|j: int| 0 <= j < r@.len() ==> (#[trigger] r@[j]).dest_tuple.subset.pairs@ == label_dest(*fst, pairs@, r@[j].label)
            && r@[j].weight == W::zero_spec(),
{
    let mut v: Vec<DeterminizeTr<W>> = Vec::new();
    let mut i: usize = 0;
    while i < pairs.len()
        invariant
            fst.wf(),
            pairs_within(pairs@, fst.states@.len()),
            i <= pairs@.len(),
            forall|j1: int, j2: int| 0 <= j1 < j2 < v@.len() ==> #[trigger] v@[j1].label != #[trigger] v@[j2].label,
            forall|l: Label| det_trs_have_label(v@, l) <==> seen_label(*fst, pairs@, i as int, 0, l),
            forall|j: int| 0 <= j < v@.len() ==> pairs_within(#[trigger] v@[j].dest_tuple.subset.pairs@, fst.states@.len()),
            forall|j: int| 0 <= j < v@.len() ==> (#[trigger] v@[j]).dest_tuple.filter_state == 0,
            forall|j: int| 0 <= j < v@.len() ==> (#[trigger] v@[j]).dest_tuple.subset.pairs@ == label_dest(*fst, pairs@.take(i as int), v@[j].label)
                && v@[j].weight == W::zero_spec(),
            forall|l: Label| !det_trs_have_label(v@, l) ==> #[trigger] label_dest(*fst, pairs@.take(i as int), l).len() == 0,
        decreases pairs@.len() - i,
    {
        let src_state = pairs[i].state;
        assert(pairs@[i as int].state < fst.states@.len());
        let trs = &fst.states[src_state].trs;
        proof {
            assert forall|l: Label| #[trigger] label_dest_upto(*fst, pairs@, i as int, 0, l) == label_dest(*fst, pairs@.take(i as int), l) by {
                assert(label_dest_upto(*fst, pairs@, i as int, 0, l) =~= label_dest(*fst, pairs@.take(i as int), l));
            }
        }
        let mut k: usize = 0;
        while k < trs.len()
            invariant
                fst.wf(),
                pairs_within(pairs@, fst.states@.len()),
                i < pairs@.len(),
                src_state == pairs@[i as int].state,
                src_state < fst.states@.len(),
                trs@ == fst.states@[src_state as int].trs@,
                k <= trs@.len(),
                forall|j1: int, j2: int| 0 <= j1 < j2 < v@.len() ==> #[trigger] v@[j1].label != #[trigger] v@[j2].label,
                forall|l: Label| det_trs_have_label(v@, l) <==> seen_label(*fst, pairs@, i as int, k as int, l),
                forall|j: int| 0 <= j < v@.len() ==> pairs_within(#[trigger] v@[j].dest_tuple.subset.pairs@, fst.states@.len()),
                forall|j: int| 0 <= j < v@.len() ==> (#[trigger] v@[j]).dest_tuple.filter_state == 0,
                forall|j: int| 0 <= j < v@.len() ==> (#[trigger] v@[j]).dest_tuple.subset.pairs@
                    == label_dest_upto(*fst, pairs@, i as int, k as int, v@[j].label) && v@[j].weight == W::zero_spec(),
                forall|l: Label| !det_trs_have_label(v@, l) ==> #[trigger] label_dest_upto(*fst, pairs@, i as int, k as int, l).len() == 0,
            decreases trs@.len() - k,
        {
            let tr = &trs[k];
            let w = pairs[i].weight.times(&tr.weight);
            let dest_elt = DeterminizeElement::new(tr.nextstate, w);
            assert(fst.states@[src_state as int].trs@[k as int].nextstate < fst.states@.len());
            let mut j: usize = 0;
            while j < v.len() && v[j].label != tr.ilabel
                invariant
                    j <= v@.len(),
                    forall|q: int| 0 <= q < j ==> #[trigger] v@[q].label != tr.ilabel,
                decreases v@.len() - j,
            {
                j += 1;
            }
            proof {
                lemma_seen_step(*fst, pairs@, i as int, k as int);
                lemma_dest_step(*fst, pairs@, i as int, k as int);
            }
            let ghost v_before = v@;
            if j == v.len() {
                v.push(DeterminizeTr::from_tr(tr, 0));
            }
            let ghost v_mid = v@;
            let ghost old_pairs = v@[j as int].dest_tuple.subset.pairs@;
            v[j].dest_tuple.subset.pairs.push(dest_elt);
            proof {
                assert forall|q: int| 0 <= q < v@.len() && q != j implies #[trigger] v@[q] == v_mid[q] by {}
                assert(v@[j as int].label == tr.ilabel);
                assert forall|j1: int, j2: int| 0 <= j1 < j2 < v@.len() implies #[trigger] v@[j1].label != #[trigger] v@[j2].label by {
                    assert(v@[j1].label == v_mid[j1].label);
                    assert(v@[j2].label == v_mid[j2].label);
                    if j2 < v_before.len() {
                        assert(v_mid[j1] == v_before[j1]);
                        assert(v_mid[j2] == v_before[j2]);
                    } else {
                        assert(v_mid[j1] == v_before[j1]);
                    }
                }
                assert forall|l: Label| det_trs_have_label(v@, l) <==> seen_label(*fst, pairs@, i as int, k + 1, l) by {
                    if det_trs_have_label(v@, l) {
                        let q = choose|q: int| 0 <= q < v@.len() && #[trigger] v@[q].label == l;
                        if l != tr.ilabel {
                            assert(q < v_before.len());
                            assert(v_before[q].label == l);
                        }
                    }
                    if det_trs_have_label(v_before, l) {
                        let q = choose|q: int| 0 <= q < v_before.len() && #[trigger] v_before[q].label == l;
                        assert(v@[q].label == l);
                    }
                    if l == tr.ilabel {
                        assert(v@[j as int].label == l);
                    }
                }
                assert forall|q: int| 0 <= q < v@.len() implies pairs_within(#[trigger] v@[q].dest_tuple.subset.pairs@, fst.states@.len()) by {
                    if q == j {
                        assert(v@[q].dest_tuple.subset.pairs@ == old_pairs.push(dest_elt));
                        assert forall|e: int| 0 <= e < v@[q].dest_tuple.subset.pairs@.len()
                            implies #[trigger] v@[q].dest_tuple.subset.pairs@[e].state < fst.states@.len() by {
                            if e < old_pairs.len() {
                                assert(v@[q].dest_tuple.subset.pairs@[e] == old_pairs[e]);
                                if j < v_before.len() {
                                    assert(pairs_within(v_before[j as int].dest_tuple.subset.pairs@, fst.states@.len()));
                                }
                            }
                        }
                    } else {
                        assert(v@[q] == v_mid[q]);
                    }
                }
                assert forall|q: int| 0 <= q < v@.len() implies (#[trigger] v@[q]).dest_tuple.filter_state == 0 by {
                    if q != j {
                        assert(v@[q] == v_mid[q]);
                    }
                }
                assert forall|q: int| 0 <= q < v@.len() implies (#[trigger] v@[q]).dest_tuple.subset.pairs@
                    == label_dest_upto(*fst, pairs@, i as int, k + 1, v@[q].label) && v@[q].weight == W::zero_spec() by {
                    let lq = v@[q].label;
                    assert(label_dest_upto(*fst, pairs@, i as int, k + 1, lq) == if lq == tr.ilabel {
                        label_dest_upto(*fst, pairs@, i as int, k as int, lq).push(dest_elt)
                    } else {
                        label_dest_upto(*fst, pairs@, i as int, k as int, lq)
                    });
                    if q == j {
                        if j < v_before.len() {
                            assert(old_pairs == v_before[j as int].dest_tuple.subset.pairs@);
                        } else {
                            assert(!det_trs_have_label(v_before, tr.ilabel));
                            assert(label_dest_upto(*fst, pairs@, i as int, k as int, tr.ilabel).len() == 0);
                            assert(old_pairs.len() == 0);
                            assert(old_pairs =~= label_dest_upto(*fst, pairs@, i as int, k as int, tr.ilabel));
                        }
                    } else {
                        assert(v@[q] == v_mid[q]);
                        assert(q < v_before.len());
                        assert(v_mid[q] == v_before[q]);
                    }
                }
                assert forall|l: Label| !det_trs_have_label(v@, l) implies #[trigger] label_dest_upto(*fst, pairs@, i as int, k + 1, l).len() == 0 by {
                    assert(l != tr.ilabel);
                    if det_trs_have_label(v_before, l) {
                        let q = choose|q: int| 0 <= q < v_before.len() && #[trigger] v_before[q].label == l;
                        assert(v@[q].label == l);
                    }
                    assert(label_dest_upto(*fst, pairs@, i as int, k + 1, l) == label_dest_upto(*fst, pairs@, i as int, k as int, l));
                }
            }
            k += 1;
        }
        proof {
            lemma_seen_next_pair(*fst, pairs@, i as int);
            lemma_dest_next(*fst, pairs@, i as int);
        }
        i += 1;
    }
    proof {
        lemma_seen_all(*fst, pairs@);
        assert(pairs@.take(i as int) =~= pairs@);
    }
    v
}

/// The common divisor of `w` and the weights of `pairs`, taken in order.
pub open spec fn cd_fold<W: Semiring, CD: CommonDivisor<W>>(w: W, pairs: Seq<DeterminizeElement<W>>) -> W
    decreases pairs.len(),
{
    if pairs.len() == 0 {
        w
    } else {
        CD::common_divisor_spec(cd_fold::<W, CD>(w, pairs.drop_last()), pairs.last().weight)
    }
}

/// `dest` is `merged` with each weight divided by `w`.
pub open spec fn divided_by<W: Semiring>(dest: Seq<DeterminizeElement<W>>, merged: Seq<DeterminizeElement<W>>, w: W) -> bool {
    &&& dest.len() == merged.len()
    &&& forall|q: int| 0 <= q < dest.len() ==> #[trigger] dest[q].state == merged[q].state
        && W::divide_spec(merged[q].weight, w) == Some(dest[q].weight)
}

/// Each weight of `pairs` can be divided by `w`.
pub open spec fn all_divisible<W: Semiring>(pairs: Seq<DeterminizeElement<W>>, w: W) -> bool {
    forall|q: int| 0 <= q < pairs.len() ==> (#[trigger] W::divide_spec(pairs[q].weight, w)) is Some
}

/// The destination weights of label `l` from subset `src` can be divided by
/// their common divisor.
pub open spec fn label_divisible<W: Semiring, CD: CommonDivisor<W>>(fst: VectorFst<W>, src: Seq<DeterminizeElement<W>>, l: Label) -> bool {
    all_divisible(merge_all(label_dest(fst, src, l)), cd_fold::<W, CD>(W::zero_spec(), label_dest(fst, src, l)))
}

/// Every label leaving subset `src` has divisible destination weights.
pub open spec fn subset_divisible<W: Semiring, CD: CommonDivisor<W>>(fst: VectorFst<W>, src: Seq<DeterminizeElement<W>>) -> bool {
    forall|l: Label| #[trigger] subset_has_label(fst, src, l) ==> label_divisible::<W, CD>(fst, src, l)
}

/// Normalises a pending transition: its weight becomes the common divisor of its
/// destination weights, destination elements on the same state are merged by
/// adding their weights (the result is sorted by state), and each destination
/// weight is divided by the transition weight.
fn norm_tr<W: Semiring, CD: CommonDivisor<W>>(det_tr: &mut DeterminizeTr<W>) -> (r: Result<(), FstError>)
    ensures
        final(det_tr).label == old(det_tr).label,
        final(det_tr).dest_tuple.filter_state == old(det_tr).dest_tuple.filter_state,
        r is Ok ==> pairs_sorted(final(det_tr).dest_tuple.subset.pairs@),
        forall|n: nat| #![trigger pairs_within(old(det_tr).dest_tuple.subset.pairs@, n)]
            r is Ok && pairs_within(old(det_tr).dest_tuple.subset.pairs@, n)
                ==> pairs_within(final(det_tr).dest_tuple.subset.pairs@, n),
        r is Ok ==> final(det_tr).weight == cd_fold::<W, CD>(old(det_tr).weight, old(det_tr).dest_tuple.subset.pairs@),
        r is Ok ==> divided_by(final(det_tr).dest_tuple.subset.pairs@, merge_all(old(det_tr).dest_tuple.subset.pairs@), final(det_tr).weight),
        r is Err ==> r == Err::<(), FstError>(FstError::WeightNotDivisible),
        (r is Ok) == all_divisible(merge_all(old(det_tr).dest_tuple.subset.pairs@), cd_fold::<W, CD>(old(det_tr).weight, old(det_tr).dest_tuple.subset.pairs@)),
{
    let mut weight = det_tr.weight.weight_clone();
    let pairs = &det_tr.dest_tuple.subset.pairs;
    let mut i: usize = 0;
    while i < pairs.len()
        invariant
            i <= pairs@.len(),
            weight == cd_fold::<W, CD>(det_tr.weight, pairs@.subrange(0, i as int)),
        decreases pairs@.len() - i,
    {
        proof {
            assert(pairs@.subrange(0, i + 1).drop_last() =~= pairs@.subrange(0, i as int));
        }
        weight = CD::common_divisor(&weight, &pairs[i].weight)?;
        i += 1;
    }
    proof {
        assert(pairs@.subrange(0, i as int) =~= pairs@);
    }
    let mut merged: Vec<DeterminizeElement<W>> = Vec::new();
    i = 0;
    while i < pairs.len()
        invariant
            i <= pairs@.len(),
            pairs_sorted(merged@),
            merged@ == merge_all(pairs@.subrange(0, i as int)),
            forall|n: nat| #![trigger pairs_within(pairs@, n)]
                pairs_within(pairs@, n) ==> pairs_within(merged@, n),
        decreases pairs@.len() - i,
    {
        let ghost before = merged@;
        let elt = pairs[i].elem_clone();
        merge_into_sorted(&mut merged, elt);
        proof {
            assert(pairs@.subrange(0, i + 1).drop_last() =~= pairs@.subrange(0, i as int));
            assert forall|n: nat| #![trigger pairs_within(pairs@, n)] pairs_within(pairs@, n) implies pairs_within(merged@, n) by {
                assert(pairs@[i as int].state < n);
                assert(pairs_within(before, n));
            }
        }
        i += 1;
    }
    proof {
        assert(pairs@.subrange(0, i as int) =~= pairs@);
    }
    let mut divided: Vec<DeterminizeElement<W>> = Vec::new();
    i = 0;
    while i < merged.len()
        invariant
            i <= merged@.len(),
            pairs_sorted(merged@),
            divided@.len() == i,
            forall|q: int| 0 <= q < i ==> #[trigger] divided@[q].state == merged@[q].state
                && W::divide_spec(merged@[q].weight, weight) == Some(divided@[q].weight),
            merged@ == merge_all(pairs@),
            weight == cd_fold::<W, CD>(det_tr.weight, pairs@),
            pairs@ == old(det_tr).dest_tuple.subset.pairs@,
            det_tr.weight == old(det_tr).weight,
        decreases merged@.len() - i,
    {
        match merged[i].weight.divide(&weight) {
            Some(q) => {
                let ghost dv = divided@;
                divided.push(DeterminizeElement { state: merged[i].state, weight: q });
                proof {
                    assert forall|k: int| 0 <= k < i + 1 implies #[trigger] divided@[k].state == merged@[k].state
                        && W::divide_spec(merged@[k].weight, weight) == Some(divided@[k].weight) by {
                        if k < i {
                            assert(divided@[k] == dv[k]);
                        }
                    }
                }
            },
            None => {
                proof {
                    assert(W::divide_spec(merged@[i as int].weight, weight) is None);
                }
                return Err(FstError::WeightNotDivisible);
            },
        }
        i += 1;
    }
    proof {
        assert forall|a: int, b: int| 0 <= a < b < divided@.len() implies #[trigger] divided@[a].state < #[trigger] divided@[b].state by {
            assert(divided@[a].state == merged@[a].state);
            assert(divided@[b].state == merged@[b].state);
        }
        assert forall|n: nat| #![trigger pairs_within(old(det_tr).dest_tuple.subset.pairs@, n)]
            pairs_within(old(det_tr).dest_tuple.subset.pairs@, n) implies pairs_within(divided@, n) by {
            assert(pairs_within(merged@, n));
            assert forall|q: int| 0 <= q < divided@.len() implies #[trigger] divided@[q].state < n by {
                assert(divided@[q].state == merged@[q].state);
            }
        }
    }
    proof {
        assert forall|q: int| 0 <= q < merged@.len() implies (#[trigger] W::divide_spec(merged@[q].weight, weight)) is Some by {
            assert(divided@[q].state == merged@[q].state);
            assert(W::divide_spec(merged@[q].weight, weight) == Some(divided@[q].weight));
        }
    }
    det_tr.weight = weight;
    det_tr.dest_tuple.subset.pairs = divided;
    Ok(())
}

/// The subset of each identifier of the table.
pub open spec fn subsets_of<W>(table: Seq<DeterminizeStateTuple<W>>) -> Seq<Seq<DeterminizeElement<W>>> {
    Seq::new(table.len(), |i: int| table[i].subset.pairs@)
}

/// `new` keeps the subsets of `old` and may add some.
pub open spec fn subsets_extend<W>(old: Seq<Seq<DeterminizeElement<W>>>, new: Seq<Seq<DeterminizeElement<W>>>) -> bool {
    &&& new.len() >= old.len()
    &&& forall|k: int| 0 <= k < old.len() ==> new[k] == old[k]
}

/// `t` is the transition, out of the subset `pairs`, on its input label: its
/// weight is the common divisor of the weights of the destinations of that
/// label, and it leads to the subset of those destinations, merged by state
/// and divided by that weight.
pub open spec fn det_tr_ok<W: Semiring, CD: CommonDivisor<W>>(
    fst: VectorFst<W>,
    subsets: Seq<Seq<DeterminizeElement<W>>>,
    pairs: Seq<DeterminizeElement<W>>,
    t: Tr<W>,
) -> bool {
    &&& t.ilabel == t.olabel
    &&& t.nextstate < subsets.len()
    &&& t.weight == cd_fold::<W, CD>(W::zero_spec(), label_dest(fst, pairs, t.ilabel))
    &&& divided_by(subsets[t.nextstate as int], merge_all(label_dest(fst, pairs, t.ilabel)), t.weight)
}

/// `st` is the state of the determinized FST for the subset `pairs`: its final
/// weight, one transition per input label leaving the subset, each as
/// `det_tr_ok` says.
pub open spec fn det_state_ok<W: Semiring, CD: CommonDivisor<W>>(
    fst: VectorFst<W>,
    subsets: Seq<Seq<DeterminizeElement<W>>>,
    pairs: Seq<DeterminizeElement<W>>,
    st: FstState<W>,
) -> bool {
    &&& st.final_weight == subset_final_weight(fst, pairs)
    &&& labels_distinct(st.trs@)
    &&& forall|l: Label| #[trigger] trs_have_label(st.trs@, l) <==> subset_has_label(fst, pairs, l)
    &&& forall|k: int| 0 <= k < st.trs@.len() ==> #[trigger] det_tr_ok::<W, CD>(fst, subsets, pairs, st.trs@[k])
}

proof fn lemma_det_state_extend<W: Semiring, CD: CommonDivisor<W>>(
    fst: VectorFst<W>,
    old: Seq<Seq<DeterminizeElement<W>>>,
    new: Seq<Seq<DeterminizeElement<W>>>,
    pairs: Seq<DeterminizeElement<W>>,
    st: FstState<W>,
)
    requires
        subsets_extend(old, new),
        det_state_ok::<W, CD>(fst, old, pairs, st),
    ensures
        det_state_ok::<W, CD>(fst, new, pairs, st),
{
    assert forall|k: int| 0 <= k < st.trs@.len() implies #[trigger] det_tr_ok::<W, CD>(fst, new, pairs, st.trs@[k]) by {
        assert(det_tr_ok::<W, CD>(fst, old, pairs, st.trs@[k]));
        assert(new[st.trs@[k].nextstate as int] == old[st.trs@[k].nextstate as int]);
    }
}

/// `f` is the determinization of `fst` whose states stand for the weighted
/// subsets `subsets`: state 0 is the start state of `fst` with weight one, and
/// each state is built from its subset as `det_state_ok` says.
pub open spec fn determinization_by<W: Semiring, CD: CommonDivisor<W>>(
    f: VectorFst<W>,
    fst: VectorFst<W>,
    subsets: Seq<Seq<DeterminizeElement<W>>>,
) -> bool {
    &&& subsets.len() == f.states@.len()
    &&& match fst.start_state {
        Some(s0) => f.start_state == Some(0usize) && subsets[0] == seq![DeterminizeElement { state: s0, weight: W::one_spec() }],
        None => f.start_state is None && f.states@.len() == 0,
    }
    &&& forall|q: int| 0 <= q < subsets.len() ==> #[trigger] det_state_ok::<W, CD>(fst, subsets, subsets[q], f.states@[q])
}

/// `f` is a determinization of `fst` whose states stand for pairwise
/// distinct pairs of a weighted subset and a filter state.
pub open spec fn determinization_distinct<W: Semiring, CD: CommonDivisor<W>>(f: VectorFst<W>, fst: VectorFst<W>) -> bool {
    exists|subsets: Seq<Seq<DeterminizeElement<W>>>, filters: Seq<StateId>|
        #![trigger determinization_by::<W, CD>(f, fst, subsets), filters.len()]
        determinization_by::<W, CD>(f, fst, subsets) && filters.len() == subsets.len()
        && forall|i: int, j: int| #![trigger subsets[i], subsets[j]] 0 <= i < j < subsets.len()
            ==> (subsets[i], filters[i]) != (subsets[j], filters[j])
}

/// `f` is a determinization of `fst` by weighted subsets.
pub open spec fn determinization_of<W: Semiring, CD: CommonDivisor<W>>(f: VectorFst<W>, fst: VectorFst<W>) -> bool {
    exists|subsets: Seq<Seq<DeterminizeElement<W>>>| #[trigger] determinization_by::<W, CD>(f, fst, subsets)
}

/// One step of the sum behind a subset's final weight: add the residual
/// weight of `e` times the final weight of its state.
pub open spec fn add_residual_final<W: Semiring>(fst: VectorFst<W>) -> spec_fn(W, DeterminizeElement<W>) -> W {
    |acc: W, e: DeterminizeElement<W>| W::plus_spec(acc, W::times_spec(e.weight, final_or_zero(fst, e.state)))
}

/// `Some(w)`, or `None` where `w` is zero.
pub open spec fn nonzero_weight<W: Semiring>(w: W) -> Option<W> {
    if w == W::zero_spec() { None } else { Some(w) }
}

proof fn lemma_subset_final_fold<W: Semiring>(fst: VectorFst<W>, pairs: Seq<DeterminizeElement<W>>)
    ensures
        subset_final(fst, pairs) == pairs.fold_left(W::zero_spec(), add_residual_final(fst)),
    decreases pairs.len(),
{
    if pairs.len() > 0 {
        lemma_subset_final_fold(fst, pairs.drop_last());
    }
}

/// Each state of a determinization has as final weight the semiring sum, from
/// zero and in subset order, of each element's residual weight times the final
/// weight of the element's state in the input; it is not final where that sum
/// is zero.
pub proof fn lemma_determinized_final<W: Semiring, CD: CommonDivisor<W>>(
    f: VectorFst<W>,
    fst: VectorFst<W>,
    subsets: Seq<Seq<DeterminizeElement<W>>>,
    q: int,
)
    requires
        determinization_by::<W, CD>(f, fst, subsets),
        0 <= q < f.states@.len(),
    ensures
        f.states@[q].final_weight == nonzero_weight(subsets[q].fold_left(W::zero_spec(), add_residual_final(fst))),
{
    assert(det_state_ok::<W, CD>(fst, subsets, subsets[q], f.states@[q]));
    lemma_subset_final_fold(fst, subsets[q]);
}

/// A determinized state whose subset holds one element `(p, w)` has final
/// weight `zero + w * final(p)`, and a state whose subset holds two, `(p1, w1)`
/// then `(p2, w2)`, has `(zero + w1 * final(p1)) + w2 * final(p2)`, where
/// `final` is zero at a state that is not final; neither is final where that
/// sum is zero.
pub proof fn lemma_determinized_final_small<W: Semiring, CD: CommonDivisor<W>>(
    f: VectorFst<W>,
    fst: VectorFst<W>,
    subsets: Seq<Seq<DeterminizeElement<W>>>,
    q: int,
)
    requires
        determinization_by::<W, CD>(f, fst, subsets),
        0 <= q < f.states@.len(),
    ensures
        subsets[q].len() == 1 ==> f.states@[q].final_weight == nonzero_weight(
            W::plus_spec(W::zero_spec(), W::times_spec(subsets[q][0].weight, final_or_zero(fst, subsets[q][0].state))),
        ),
        subsets[q].len() == 2 ==> f.states@[q].final_weight == nonzero_weight(
            W::plus_spec(
                W::plus_spec(W::zero_spec(), W::times_spec(subsets[q][0].weight, final_or_zero(fst, subsets[q][0].state))),
                W::times_spec(subsets[q][1].weight, final_or_zero(fst, subsets[q][1].state)),
            ),
        ),
{
    let pairs = subsets[q];
    assert(det_state_ok::<W, CD>(fst, subsets, pairs, f.states@[q]));
    let t0 = W::times_spec(pairs[0].weight, final_or_zero(fst, pairs[0].state));
    if pairs.len() == 1 {
        assert(subset_final(fst, pairs.drop_last()) == W::zero_spec());
        assert(pairs.last() == pairs[0]);
        assert(subset_final(fst, pairs) == W::plus_spec(W::zero_spec(), t0));
    }
    if pairs.len() == 2 {
        let init = pairs.drop_last();
        assert(subset_final(fst, init.drop_last()) == W::zero_spec());
        assert(init.last() == pairs[0]);
        assert(subset_final(fst, init) == W::plus_spec(W::zero_spec(), t0));
        assert(pairs.last() == pairs[1]);
    }
}

/// Where dividing `a` by `b` gives `c`, `b` times `c` is `a`, for all weights.
pub open spec fn divide_inverts_times<W: Semiring>() -> bool {
    forall|a: W, b: W| (#[trigger] W::divide_spec(a, b)) is Some ==> W::times_spec(b, W::divide_spec(a, b)->0) == a
}

/// Tropical division undoes `times`.
pub proof fn lemma_tropical_divide_inverts_times()
    ensures
        divide_inverts_times::<TropicalWeight>(),
{
    assert forall|a: TropicalWeight, b: TropicalWeight| (#[trigger] TropicalWeight::divide_spec(a, b)) is Some
        implies TropicalWeight::times_spec(b, TropicalWeight::divide_spec(a, b)->0) == a by {
        match (a.value, b.value) {
            (Some(x), Some(y)) => {
                assert(x >= y);
                assert(y + (x - y) == x);
            },
            _ => {},
        }
    }
}

/// A transition of a determinization, on label `l` from the state of subset
/// `S`, keeps the weights of the input, where division undoes `times`: for
/// each element of the destination subset, the transition's weight times the
/// element's residual weight is the semiring sum, in order, of the weights of
/// the destinations on its state of the transitions on `l` leaving `S` (each
/// the source element's residual weight times the transition's weight); and
/// each state such a transition leads to is in the destination subset.
pub proof fn lemma_determinized_tr_weights<W: Semiring, CD: CommonDivisor<W>>(
    f: VectorFst<W>,
    fst: VectorFst<W>,
    subsets: Seq<Seq<DeterminizeElement<W>>>,
    q: int,
    k: int,
)
    requires
        determinization_by::<W, CD>(f, fst, subsets),
        0 <= q < f.states@.len(),
        0 <= k < f.states@[q].trs@.len(),
        divide_inverts_times::<W>(),
    ensures
        ({
            let t = f.states@[q].trs@[k];
            let d = label_dest(fst, subsets[q], t.ilabel);
            let dest = subsets[t.nextstate as int];
            &&& forall|i: int| 0 <= i < dest.len() ==> weights_on(d, #[trigger] dest[i].state).len() > 0
                && W::times_spec(t.weight, dest[i].weight) == plus_all(weights_on(d, dest[i].state))
            &&& forall|st: StateId| #[trigger] weights_on(d, st).len() > 0
                ==> exists|i: int| 0 <= i < dest.len() && dest[i].state == st
        }),
{
    let t = f.states@[q].trs@[k];
    let d = label_dest(fst, subsets[q], t.ilabel);
    let dest = subsets[t.nextstate as int];
    let merged = merge_all(d);
    assert(det_state_ok::<W, CD>(fst, subsets, subsets[q], f.states@[q]));
    assert(det_tr_ok::<W, CD>(fst, subsets, subsets[q], t));
    lemma_merge_all(d);
    assert forall|i: int| 0 <= i < dest.len() implies weights_on(d, #[trigger] dest[i].state).len() > 0
        && W::times_spec(t.weight, dest[i].weight) == plus_all(weights_on(d, dest[i].state)) by {
        assert(dest[i].state == merged[i].state);
        assert(W::divide_spec(merged[i].weight, t.weight) == Some(dest[i].weight));
        assert(weights_on(d, merged[i].state).len() > 0);
    }
    assert forall|st: StateId| #[trigger] weights_on(d, st).len() > 0
        implies exists|i: int| 0 <= i < dest.len() && dest[i].state == st by {
        let i = choose|i: int| 0 <= i < merged.len() && merged[i].state == st;
        assert(dest[i].state == merged[i].state);
    }
}

/// Tuples are equal: the same filter state and the same elements in order.
pub open spec fn tuple_matches<W>(a: DeterminizeStateTuple<W>, b: DeterminizeStateTuple<W>) -> bool {
    a.filter_state == b.filter_state && a.subset.pairs@ == b.subset.pairs@
}

/// Determinization of a weighted acceptor by weighted subset construction.
pub struct DeterminizeFsaImpl<'a, 'b, W, CD> {
    pub fst: &'a VectorFst<W>,
    pub state_table: Vec<DeterminizeStateTuple<W>>,
    pub divisor: PhantomData<CD>,
    pub in_dist: Option<&'b [W]>,
    pub out_dist: Vec<W>,
}

impl<'a, 'b, W: Semiring, CD: CommonDivisor<W>> DeterminizeFsaImpl<'a, 'b, W, CD> {
    /// The input is well formed, every subset holds states of the input, and,
    /// where input distances are given, each state has its output distance.
    pub open spec fn inv(&self) -> bool {
        &&& self.fst.wf()
        &&& forall|i: int, j: int| #![trigger self.state_table@[i], self.state_table@[j]]
            0 <= i < j < self.state_table@.len() ==> !tuple_matches(self.state_table@[i], self.state_table@[j])
        &&& forall|t: int| 0 <= t < self.state_table@.len()
            ==> pairs_within(#[trigger] self.state_table@[t].subset.pairs@, self.fst.states@.len())
        &&& (self.in_dist matches Some(d) ==> self.out_dist@.len() == self.state_table@.len()
            && forall|t: int| 0 <= t < self.state_table@.len()
            ==> #[trigger] self.out_dist@[t] == subset_distance(d@, self.state_table@[t].subset.pairs@))
    }

    /// The table only grew, and the rest stayed.
    pub open spec fn extends(&self, old: &Self) -> bool {
        &&& self.fst == old.fst
        &&& self.in_dist == old.in_dist
        &&& self.state_table@.len() >= old.state_table@.len()
        &&& forall|t: int| 0 <= t < old.state_table@.len() ==> #[trigger] self.state_table@[t] == old.state_table@[t]
    }

    pub fn new(fst: &'a VectorFst<W>, in_dist: Option<&'b [W]>) -> (r: Result<Self, FstError>)
        requires
            fst.wf(),
        ensures
            !fst.acceptor_spec() ==> r == Err::<Self, FstError>(FstError::NotAnAcceptor),
            fst.acceptor_spec() ==> (r matches Ok(d) && *d.fst == *fst && d.in_dist == in_dist
                && d.state_table@.len() == 0 && d.out_dist@.len() == 0 && d.inv()),
    {
        if !fst.is_acceptor() {
            return Err(FstError::NotAnAcceptor);
        }
        Ok(DeterminizeFsaImpl {
            fst,
            state_table: Vec::new(),
            divisor: PhantomData,
            in_dist,
            out_dist: Vec::new(),
        })
    }

    /// The sum over a subset of each residual weight times the input distance of its state.
    fn compute_distance(&self, subset: &WeightedSubset<W>) -> (r: Result<W, FstError>)
        requires
            self.in_dist is Some,
        ensures
            r == Ok::<W, FstError>(subset_distance(self.in_dist->0@, subset.pairs@)),
    {
        let d = self.in_dist.unwrap();
        let pairs = &subset.pairs;
        let mut outd = W::zero();
        let mut i: usize = 0;
        while i < pairs.len()
            invariant
                i <= pairs@.len(),
                d@ == self.in_dist->0@,
                outd == subset_distance(d@, pairs@.subrange(0, i as int)),
            decreases pairs@.len() - i,
        {
            let ind = if pairs[i].state < d.len() { d[pairs[i].state].weight_clone() } else { W::zero() };
            outd = outd.plus(&pairs[i].weight.times(&ind));
            proof {
                let sub = pairs@.subrange(0, i + 1);
                assert(sub.drop_last() =~= pairs@.subrange(0, i as int));
                assert(sub.last() == pairs@[i as int]);
            }
            i += 1;
        }
        assert(pairs@.subrange(0, i as int) =~= pairs@);
        Ok(outd)
    }

    /// The state of a tuple: found in the table, or added to it.
    fn find_state(&mut self, tuple: DeterminizeStateTuple<W>) -> (r: Result<StateId, FstError>)
        requires
            old(self).inv(),
            pairs_within(tuple.subset.pairs@, old(self).fst.states@.len()),
        ensures
            final(self).inv(),
            final(self).extends(old(self)),
            final(self).state_table@.len() <= old(self).state_table@.len() + 1,
            r matches Ok(s) ==> s < final(self).state_table@.len() && tuple_matches(final(self).state_table@[s as int], tuple),
            r is Err ==> r == Err::<StateId, FstError>(FstError::TooManyStates),
            r is Err ==> old(self).state_table@.len() == usize::MAX && *final(self) == *old(self),
            old(self).state_table@.len() < usize::MAX ==> r is Ok,
    {
        let mut s: usize = 0;
        while s < self.state_table.len()
            invariant
                s <= self.state_table@.len(),
                *self == *old(self),
                old(self).inv(),
                forall|q: int| 0 <= q < s ==> !tuple_matches(#[trigger] self.state_table@[q], tuple),
            decreases self.state_table@.len() - s,
        {
            if tuple_eq(&self.state_table[s], &tuple) {
                return Ok(s);
            }
            s += 1;
        }
        if self.state_table.len() == usize::MAX {
            return Err(FstError::TooManyStates);
        }
        let ghost t = tuple;
        let dist = match self.in_dist {
            Some(_) => Some(self.compute_distance(&tuple.subset)?),
            None => None,
        };
        self.state_table.push(tuple);
        match dist {
            Some(w) => {
                self.out_dist.push(w);
            },
            None => {},
        }
        proof {
            assert(self.state_table@[s as int] == t);
            assert forall|q: int| 0 <= q < self.state_table@.len()
                implies pairs_within(#[trigger] self.state_table@[q].subset.pairs@, self.fst.states@.len()) by {
                if q < s {
                    assert(self.state_table@[q] == old(self).state_table@[q]);
                }
            }
            assert forall|i: int, j: int| #![trigger self.state_table@[i], self.state_table@[j]]
                0 <= i < j < self.state_table@.len() implies !tuple_matches(self.state_table@[i], self.state_table@[j]) by {
                assert(self.state_table@[i] == old(self).state_table@[i]);
                if j < s {
                    assert(self.state_table@[j] == old(self).state_table@[j]);
                } else {
                    assert(!tuple_matches(old(self).state_table@[i], t));
                }
            }
            if self.in_dist is Some {
                assert forall|q: int| 0 <= q < self.state_table@.len()
                    implies #[trigger] self.out_dist@[q] == subset_distance(self.in_dist->0@, self.state_table@[q].subset.pairs@) by {
                    if q < s {
                        assert(self.state_table@[q] == old(self).state_table@[q]);
                        assert(self.out_dist@[q] == old(self).out_dist@[q]);
                    }
                }
            }
        }
        Ok(s)
    }

    /// The start state: the subset of the input start state with weight one.
    fn compute_start(&mut self) -> (r: Result<Option<StateId>, FstError>)
        requires
            old(self).inv(),
            old(self).state_table@.len() == 0,
        ensures
            final(self).inv(),
            final(self).extends(old(self)),
            r is Ok,
            r is Ok ==> (match old(self).fst.start_state {
                Some(s0) => r == Ok::<Option<StateId>, FstError>(Some(0usize)) && final(self).state_table@.len() == 1
                    && final(self).state_table@[0].filter_state == s0
                    && final(self).state_table@[0].subset.pairs@ == seq![DeterminizeElement { state: s0, weight: W::one_spec() }],
                None => r == Ok::<Option<StateId>, FstError>(None) && final(self).state_table@.len() == 0,
            }),
    {
        match self.fst.start() {
            Some(start_state) => {
                let elt = DeterminizeElement::new(start_state, W::one());
                let mut v: Vec<DeterminizeElement<W>> = Vec::new();
                v.push(elt);
                let tuple = DeterminizeStateTuple { subset: WeightedSubset::from_vec(v), filter_state: start_state };
                assert(tuple.subset.pairs@ =~= seq![DeterminizeElement { state: start_state, weight: W::one_spec() }]);
                let s = self.find_state(tuple)?;
                Ok(Some(s))
            },
            None => Ok(None),
        }
    }

    /// The final weight of a state: the sum over its subset of each residual
    /// weight times the final weight of its input state, none where it is zero.
    fn compute_final(&self, state: StateId) -> (r: Result<Option<W>, FstError>)
        requires
            self.inv(),
            state < self.state_table@.len(),
        ensures
            r == Ok::<Option<W>, FstError>(subset_final_weight(*self.fst, self.state_table@[state as int].subset.pairs@)),
    {
        let pairs = &self.state_table[state].subset.pairs;
        assert(pairs_within(pairs@, self.fst.states@.len()));
        let mut final_weight = W::zero();
        let mut i: usize = 0;
        while i < pairs.len()
            invariant
                self.inv(),
                pairs_within(pairs@, self.fst.states@.len()),
                i <= pairs@.len(),
                final_weight == subset_final(*self.fst, pairs@.subrange(0, i as int)),
            decreases pairs@.len() - i,
        {
            assert(pairs@[i as int].state < self.fst.states@.len());
            let fw = match &self.fst.states[pairs[i].state].final_weight {
                Some(w) => w.weight_clone(),
                None => W::zero(),
            };
            final_weight = final_weight.plus(&pairs[i].weight.times(&fw));
            proof {
                let sub = pairs@.subrange(0, i + 1);
                assert(sub.drop_last() =~= pairs@.subrange(0, i as int));
                assert(sub.last() == pairs@[i as int]);
            }
            i += 1;
        }
        assert(pairs@.subrange(0, i as int) =~= pairs@);
        if final_weight.is_zero() {
            Ok(None)
        } else {
            Ok(Some(final_weight))
        }
    }

    /// The transition of a normalised pending transition: same input and output
    /// label, its weight, and the state of its destination tuple.
    fn add_tr(&mut self, det_tr: DeterminizeTr<W>) -> (r: Result<Tr<W>, FstError>)
        requires
            old(self).inv(),
            pairs_within(det_tr.dest_tuple.subset.pairs@, old(self).fst.states@.len()),
        ensures
            final(self).inv(),
            final(self).extends(old(self)),
            r matches Ok(tr) ==> tr.ilabel == det_tr.label && tr.olabel == det_tr.label && tr.weight == det_tr.weight
                && tr.nextstate < final(self).state_table@.len()
                && tuple_matches(final(self).state_table@[tr.nextstate as int], det_tr.dest_tuple),
            r is Err ==> r == Err::<Tr<W>, FstError>(FstError::TooManyStates),
            r is Err ==> old(self).state_table@.len() == usize::MAX && *final(self) == *old(self),
            old(self).state_table@.len() < usize::MAX ==> r is Ok,
    {
        let label = det_tr.label;
        let weight = det_tr.weight;
        let ns = self.find_state(det_tr.dest_tuple)?;
        Ok(Tr::new(label, label, weight, ns))
    }

    /// The transitions of a state: one per input label leaving its subset, to
    /// the state of the normalised destination subset.
    fn expand(&mut self, state: StateId) -> (r: Result<Vec<Tr<W>>, FstError>)
        requires
            old(self).inv(),
            state < old(self).state_table@.len(),
        ensures
            final(self).inv(),
            final(self).extends(old(self)),
            r matches Ok(trs) ==> labels_distinct(trs@)
                && (forall|k: int| 0 <= k < trs@.len() ==> #[trigger] trs@[k].ilabel == trs@[k].olabel
                    && trs@[k].nextstate < final(self).state_table@.len())
                && (forall|l: Label| trs_have_label(trs@, l)
                    <==> subset_has_label(*old(self).fst, old(self).state_table@[state as int].subset.pairs@, l))
                && forall|k: int| 0 <= k < trs@.len() ==> #[trigger] det_tr_ok::<W, CD>(
                    *old(self).fst,
                    subsets_of(final(self).state_table@),
                    old(self).state_table@[state as int].subset.pairs@,
                    trs@[k],
                ),
            r is Ok ==> subset_divisible::<W, CD>(*old(self).fst, old(self).state_table@[state as int].subset.pairs@),
            subset_divisible::<W, CD>(*old(self).fst, old(self).state_table@[state as int].subset.pairs@)
                && final(self).state_table@.len() < usize::MAX ==> r is Ok,
    {
        let pairs = clone_pairs(&self.state_table[state].subset.pairs);
        let ghost src = pairs@;
        let mut label_trs = label_map(self.fst, &pairs);
        let mut trs: Vec<Tr<W>> = Vec::new();
        let ghost labels = label_trs@;
        let n_labels = label_trs.len();
        let ghost start_self = *self;
        let mut j: usize = 0;
        while label_trs.len() > 0
            invariant
                self.inv(),
                self.extends(&start_self),
                start_self == *old(self),
                j + label_trs@.len() == labels.len(),
                labels.len() == n_labels,
                trs@.len() == j,
                forall|q: int| 0 <= q < label_trs@.len() ==> #[trigger] label_trs@[q] == labels[j + q],
                forall|q: int| 0 <= q < labels.len() ==> (#[trigger] labels[q]).dest_tuple.subset.pairs@ == label_dest(*self.fst, src, labels[q].label)
                    && labels[q].weight == W::zero_spec(),
                forall|q: int| 0 <= q < j ==> #[trigger] det_tr_ok::<W, CD>(*self.fst, subsets_of(self.state_table@), src, trs@[q]),
                forall|q: int| 0 <= q < label_trs@.len()
                    ==> pairs_within(#[trigger] label_trs@[q].dest_tuple.subset.pairs@, self.fst.states@.len()),
                forall|q: int| 0 <= q < j ==> #[trigger] trs@[q].ilabel == labels[q].label && trs@[q].olabel == labels[q].label
                    && trs@[q].nextstate < self.state_table@.len(),
                forall|q: int| 0 <= q < j ==> label_divisible::<W, CD>(*self.fst, src, #[trigger] labels[q].label),
                forall|l: Label| det_trs_have_label(labels, l) <==> subset_has_label(*self.fst, src, l),
                src == old(self).state_table@[state as int].subset.pairs@,
            decreases label_trs@.len(),
        {
            let ghost lt_before = label_trs@;
            let mut det_tr = label_trs.remove(0);
            let ghost before = det_tr;
            assert(before == labels[j as int]);
            assert(pairs_within(before.dest_tuple.subset.pairs@, self.fst.states@.len()));
            match norm_tr::<W, CD>(&mut det_tr) {
                Ok(()) => {},
                Err(e) => {
                    proof {
                        assert(labels[j as int].label == labels[j as int].label);
                        assert(det_trs_have_label(labels, labels[j as int].label));
                        assert(!label_divisible::<W, CD>(*self.fst, src, labels[j as int].label));
                    }
                    return Err(e);
                },
            }
            let ghost normed = det_tr;
            let ghost self_before = *self;
            let ghost trs_before = trs@;
            let tr = self.add_tr(det_tr)?;
            trs.push(tr);
            proof {
                assert forall|q: int| 0 <= q < label_trs@.len() implies #[trigger] label_trs@[q] == labels[j + 1 + q] by {
                    assert(label_trs@[q] == lt_before[q + 1]);
                }
                let new_sub = subsets_of(self.state_table@);
                let old_sub = subsets_of(self_before.state_table@);
                assert forall|q: int| 0 <= q < j + 1 implies #[trigger] det_tr_ok::<W, CD>(*self.fst, new_sub, src, trs@[q]) by {
                    if q < j {
                        assert(trs@[q] == trs_before[q]);
                        assert(det_tr_ok::<W, CD>(*self.fst, old_sub, src, trs_before[q]));
                        assert(new_sub[trs_before[q].nextstate as int] == old_sub[trs_before[q].nextstate as int]);
                    } else {
                        assert(trs@[q] == tr);
                        assert(new_sub[tr.nextstate as int] == normed.dest_tuple.subset.pairs@);
                    }
                }
            }
            proof {
                assert forall|q: int| 0 <= q < j + 1 implies label_divisible::<W, CD>(*self.fst, src, #[trigger] labels[q].label) by {}
            }
            j += 1;
        }
        proof {
            assert(self.fst == old(self).fst);
            assert(src == old(self).state_table@[state as int].subset.pairs@);
            assert forall|l: Label| #[trigger] subset_has_label(*self.fst, src, l) implies label_divisible::<W, CD>(*self.fst, src, l) by {
                assert(det_trs_have_label(labels, l));
                let q = choose|q: int| 0 <= q < labels.len() && #[trigger] labels[q].label == l;
            }
            assert forall|k1: int, k2: int| 0 <= k1 < k2 < trs@.len() implies #[trigger] trs@[k1].ilabel != #[trigger] trs@[k2].ilabel by {
                assert(trs@[k1].ilabel == labels[k1].label);
                assert(trs@[k2].ilabel == labels[k2].label);
            }
            assert forall|l: Label| trs_have_label(trs@, l) <==> subset_has_label(*old(self).fst, src, l) by {
                if trs_have_label(trs@, l) {
                    let k = choose|k: int| 0 <= k < trs@.len() && #[trigger] trs@[k].ilabel == l;
                    assert(labels[k].label == l);
                    assert(det_trs_have_label(labels, l));
                }
                if det_trs_have_label(labels, l) {
                    let k = choose|k: int| 0 <= k < labels.len() && #[trigger] labels[k].label == l;
                    assert(trs@[k].ilabel == l);
                }
            }
        }
        Ok(trs)
    }

    /// The determinized FST: its states are the subsets reached from the start subset.
    pub fn compute(&mut self) -> (r: Result<VectorFst<W>, FstError>)
        requires
            old(self).inv(),
            old(self).state_table@.len() == 0,
        ensures
            final(self).inv(),
            final(self).fst == old(self).fst,
            final(self).in_dist == old(self).in_dist,
            r matches Ok(f) ==> f.wf() && f.deterministic_spec() && f.acceptor_spec()
                && f.states@.len() == final(self).state_table@.len()
                && (match old(self).fst.start_state {
                    Some(s0) => f.start_state == Some(0usize) && final(self).state_table@[0].filter_state == s0
                        && final(self).state_table@[0].subset.pairs@ == seq![DeterminizeElement { state: s0, weight: W::one_spec() }],
                    None => f.start_state is None && f.states@.len() == 0,
                })
                && (forall|t: int| 0 <= t < f.states@.len() ==> #[trigger] det_state_ok::<W, CD>(
                    *old(self).fst,
                    subsets_of(final(self).state_table@),
                    final(self).state_table@[t].subset.pairs@,
                    f.states@[t],
                ))
                && determinization_of::<W, CD>(f, *old(self).fst)
                && determinization_by::<W, CD>(f, *old(self).fst, subsets_of(final(self).state_table@)),
            (forall|t: int| 0 <= t < final(self).state_table@.len()
                ==> subset_divisible::<W, CD>(*old(self).fst, #[trigger] final(self).state_table@[t].subset.pairs@))
                && final(self).state_table@.len() < usize::MAX ==> r is Ok,
    {
        let ghost start_self = *self;
        let start = self.compute_start()?;
        let ghost after_start = *self;
        let mut states: Vec<FstState<W>> = Vec::new();
        let mut s: usize = 0;
        while s < self.state_table.len()
            invariant
                self.inv(),
                self.extends(&after_start),
                after_start.extends(&start_self),
                start_self == *old(self),
                states@.len() == s,
                s <= self.state_table@.len(),
                old(self).fst.start_state is None ==> self.state_table@.len() == 0,
                match old(self).fst.start_state {
                    Some(s0) => start == Some(0usize) && after_start.state_table@.len() == 1
                        && after_start.state_table@[0].filter_state == s0
                        && after_start.state_table@[0].subset.pairs@ == seq![DeterminizeElement { state: s0, weight: W::one_spec() }],
                    None => start is None && after_start.state_table@.len() == 0,
                },
                forall|q: int| 0 <= q < s ==> det_trs_ok(#[trigger] states@[q].trs@, self.state_table@.len()),
                forall|q: int| 0 <= q < s ==> #[trigger] det_state_ok::<W, CD>(
                    *old(self).fst,
                    subsets_of(self.state_table@),
                    self.state_table@[q].subset.pairs@,
                    states@[q],
                ),
            decreases usize::MAX - s,
        {
            let ghost before = *self;
            let trs = match self.expand(s) {
                Ok(trs) => trs,
                Err(e) => {
                    proof {
                        assert(self.state_table@[s as int] == before.state_table@[s as int]);
                    }
                    return Err(e);
                },
            };
            let final_weight = self.compute_final(s)?;
            assert(self.state_table@[s as int] == before.state_table@[s as int]);
            let ghost old_states = states@;
            states.push(FstState { final_weight, trs });
            proof {
                assert forall|q: int| 0 <= q < s + 1 implies det_trs_ok(#[trigger] states@[q].trs@, self.state_table@.len()) by {
                    if q < s {
                        assert(states@[q] == old_states[q]);
                        assert(det_trs_ok(old_states[q].trs@, before.state_table@.len()));
                    }
                }
                let new_sub = subsets_of(self.state_table@);
                let old_sub = subsets_of(before.state_table@);
                assert(subsets_extend(old_sub, new_sub)) by {
                    assert forall|k: int| 0 <= k < old_sub.len() implies new_sub[k] == old_sub[k] by {
                        assert(self.state_table@[k] == before.state_table@[k]);
                    }
                }
                assert forall|q: int| 0 <= q < s + 1 implies #[trigger] det_state_ok::<W, CD>(
                    *old(self).fst,
                    new_sub,
                    self.state_table@[q].subset.pairs@,
                    states@[q],
                ) by {
                    assert(self.state_table@[q] == before.state_table@[q]);
                    if q < s {
                        assert(states@[q] == old_states[q]);
                        assert(det_state_ok::<W, CD>(*old(self).fst, old_sub, before.state_table@[q].subset.pairs@, old_states[q]));
                        lemma_det_state_extend::<W, CD>(*old(self).fst, old_sub, new_sub, before.state_table@[q].subset.pairs@, old_states[q]);
                    }
                }
            }
            s += 1;
        }
        let f = VectorFst { states, start_state: start };
        proof {
            assert forall|q: int, k: int|
                0 <= q < f.states@.len() && 0 <= k < f.states@[q].trs@.len()
                    implies #[trigger] f.states@[q].trs@[k].nextstate < f.states@.len() by {
                assert(det_trs_ok(f.states@[q].trs@, f.states@.len() as nat));
                assert(f.states@[q].trs@[k].ilabel == f.states@[q].trs@[k].olabel);
            }
            assert forall|q: int, k: int|
                0 <= q < f.states@.len() && 0 <= k < f.states@[q].trs@.len()
                    implies #[trigger] f.states@[q].trs@[k].ilabel == f.states@[q].trs@[k].olabel by {
                assert(det_trs_ok(f.states@[q].trs@, f.states@.len() as nat));
            }
            assert forall|q: int, k1: int, k2: int|
                0 <= q < f.states@.len() && 0 <= k1 < k2 < f.states@[q].trs@.len()
                    implies #[trigger] f.states@[q].trs@[k1].ilabel != #[trigger] f.states@[q].trs@[k2].ilabel by {
                assert(det_trs_ok(f.states@[q].trs@, f.states@.len() as nat));
            }
            let subsets = subsets_of(self.state_table@);
            assert forall|q: int| 0 <= q < subsets.len() implies #[trigger] det_state_ok::<W, CD>(*self.fst, subsets, subsets[q], f.states@[q]) by {
                assert(subsets[q] == self.state_table@[q].subset.pairs@);
            }
            if self.fst.start_state is Some {
                assert(subsets[0] == self.state_table@[0].subset.pairs@);
            }
            assert(determinization_by::<W, CD>(f, *self.fst, subsets));
        }
        Ok(f)
    }

    /// The determinized FST and the distance of each of its states.
    pub fn compute_with_distance(&mut self) -> (r: Result<(VectorFst<W>, Vec<W>), FstError>)
        requires
            old(self).inv(),
            old(self).state_table@.len() == 0,
            old(self).in_dist is Some,
        ensures
            r matches Ok((f, d)) ==> f.wf() && f.deterministic_spec() && f.acceptor_spec()
                && d@.len() == f.states@.len()
                && (forall|t: int| 0 <= t < d@.len() ==> #[trigger] d@[t]
                    == subset_distance(old(self).in_dist->0@, final(self).state_table@[t].subset.pairs@))
                && determinization_by::<W, CD>(f, *old(self).fst, subsets_of(final(self).state_table@)),
            (forall|t: int| 0 <= t < final(self).state_table@.len()
                ==> subset_divisible::<W, CD>(*old(self).fst, #[trigger] final(self).state_table@[t].subset.pairs@))
                && final(self).state_table@.len() < usize::MAX ==> r is Ok,
    {
        let dfst = self.compute()?;
        let out_dist = clone_weights(&self.out_dist);
        proof {
            let subsets = subsets_of(self.state_table@);
            assert forall|q: int| 0 <= q < subsets.len() implies #[trigger] det_state_ok::<W, CD>(*self.fst, subsets, subsets[q], dfst.states@[q]) by {
                assert(subsets[q] == self.state_table@[q].subset.pairs@);
            }
            if self.fst.start_state is Some {
                assert(subsets[0] == self.state_table@[0].subset.pairs@);
            }
        }
        Ok((dfst, out_dist))
    }
}

fn clone_weights<W: Semiring>(v: &Vec<W>) -> (r: Vec<W>)
    ensures
        r@ == v@,
{
    let mut r: Vec<W> = Vec::new();
    let mut i: usize = 0;
    while i < v.len()
        invariant
            i <= v@.len(),
            r@ == v@.subrange(0, i as int),
        decreases v@.len() - i,
    {
        r.push(v[i].weight_clone());
        i += 1;
        assert(r@ =~= v@.subrange(0, i as int));
    }
    assert(r@ =~= v@);
    r
}

/// Determinizes a weighted acceptor with the given common divisor. The result is
/// deterministic; its final weights are those of the subsets its states stand for.
pub fn determinize_fsa<W: Semiring, CD: CommonDivisor<W>>(fst_in: &VectorFst<W>) -> (r: Result<VectorFst<W>, FstError>)
    requires
        fst_in.wf(),
    ensures
        !W::left_semiring_spec() ==> r == Err::<VectorFst<W>, FstError>(FstError::UnsupportedSemiring),
        W::left_semiring_spec() && !fst_in.acceptor_spec() ==> r == Err::<VectorFst<W>, FstError>(FstError::NotAnAcceptor),
        r matches Ok(f) ==> f.wf() && f.deterministic_spec() && f.acceptor_spec()
            && (fst_in.start_state is None ==> f.start_state is None && f.states@.len() == 0)
            && (fst_in.start_state is Some ==> f.start_state == Some(0usize))
            && determinization_of::<W, CD>(f, *fst_in),
        r matches Ok(f) ==> determinization_distinct::<W, CD>(f, *fst_in),
{
    if !W::is_left_semiring() {
        return Err(FstError::UnsupportedSemiring);
    }
    let mut det_fsa_impl: DeterminizeFsaImpl<W, CD> = DeterminizeFsaImpl::new(fst_in, None)?;
    let r = det_fsa_impl.compute();
    proof {
        if r is Ok {
            let table = det_fsa_impl.state_table@;
            let subsets = subsets_of(table);
            let filters = Seq::new(table.len(), |i: int| table[i].filter_state);
            assert forall|i: int, j: int| #![trigger subsets[i], subsets[j]] 0 <= i < j < subsets.len()
                implies (subsets[i], filters[i]) != (subsets[j], filters[j]) by {
                assert(!tuple_matches(table[i], table[j]));
            }
            assert(determinization_by::<W, CD>(r->Ok_0, *fst_in, subsets));
            assert(filters.len() == subsets.len());
        }
    }
    r
}

/// Determinizes a weighted acceptor and computes the distance of each result
/// state from the distances `in_dist` of the input states.
pub fn determinize_with_distance<W: Semiring>(ifst: &VectorFst<W>, in_dist: &[W]) -> (r: Result<(VectorFst<W>, Vec<W>), FstError>)
    requires
        ifst.wf(),
    ensures
        !W::left_semiring_spec() ==> r == Err::<(VectorFst<W>, Vec<W>), FstError>(FstError::UnsupportedSemiring),
        W::left_semiring_spec() && !ifst.acceptor_spec() ==> r == Err::<(VectorFst<W>, Vec<W>), FstError>(FstError::NotAnAcceptor),
        r matches Ok((f, d)) ==> f.wf() && f.deterministic_spec() && f.acceptor_spec() && d@.len() == f.states@.len()
            && exists|subsets: Seq<Seq<DeterminizeElement<W>>>| #[trigger] determinization_by::<W, DefaultCommonDivisor>(f, *ifst, subsets)
                && forall|t: int| 0 <= t < d@.len() ==> #[trigger] d@[t] == subset_distance(in_dist@, subsets[t]),
{
    if !W::is_left_semiring() {
        return Err(FstError::UnsupportedSemiring);
    }
    let mut det_fsa_impl: DeterminizeFsaImpl<W, DefaultCommonDivisor> = DeterminizeFsaImpl::new(ifst, Some(in_dist))?;
    let r = det_fsa_impl.compute_with_distance();
    proof {
        if r is Ok {
            let subsets = subsets_of(det_fsa_impl.state_table@);
            let d = r->Ok_0.1;
            assert forall|t: int| 0 <= t < d@.len() implies #[trigger] d@[t] == subset_distance(in_dist@, subsets[t]) by {
                assert(subsets[t] == det_fsa_impl.state_table@[t].subset.pairs@);
            }
            assert(determinization_by::<W, DefaultCommonDivisor>(r->Ok_0.0, *ifst, subsets));
        }
    }
    r
}

/// Creates an equivalent FST in which no state has two transitions with the same
/// input label; epsilon is treated as a regular symbol. Acceptors are determinized
/// by weighted subset construction.
pub fn determinize<W: Semiring>(fst_in: &VectorFst<W>, det_type: DeterminizeType) -> (r: Result<VectorFst<W>, FstError>)
    requires
        fst_in.wf(),
    ensures
        !fst_in.acceptor_spec() ==> r == Err::<VectorFst<W>, FstError>(FstError::NotAnAcceptor),
        !W::left_semiring_spec() ==> r == Err::<VectorFst<W>, FstError>(FstError::UnsupportedSemiring)
            || r == Err::<VectorFst<W>, FstError>(FstError::NotAnAcceptor),
        r matches Ok(f) ==> f.wf() && f.deterministic_spec() && f.acceptor_spec()
            && (fst_in.start_state is None ==> f.start_state is None && f.states@.len() == 0)
            && (fst_in.start_state is Some ==> f.start_state == Some(0usize))
            && determinization_of::<W, DefaultCommonDivisor>(f, *fst_in),
        r matches Ok(f) ==> determinization_distinct::<W, DefaultCommonDivisor>(f, *fst_in),
{
    if fst_in.is_acceptor() {
        determinize_fsa::<W, DefaultCommonDivisor>(fst_in)
    } else {
        Err(FstError::NotAnAcceptor)
    }
}

} // verus!
