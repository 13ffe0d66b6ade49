use vstd::prelude::*;

use std::collections::HashMap;
use std::sync::Arc;

use crate::fst::{label_of, tr_label, trs_sorted, FstError, Tr, VectorFst};
use crate::interval_set::IntervalSet;
use crate::semirings::Semiring;
use crate::connect::{lemma_reach_leaves, reachable};
use crate::state_reachable::{final_on_cycle, isets_normalized, isets_positive, StateReachable};
use crate::tr_sort::sort_trs;
use crate::{Label, StateId, EPS_LABEL, NO_LABEL};

verus! {

/// The new label of `l`: epsilon stays, any other label takes its index.
pub open spec fn relabel_spec(m: Map<Label, Label>, l: Label) -> Label {
    if l == EPS_LABEL {
        EPS_LABEL
    } else {
        m[l]
    }
}

/// A transition with its chosen label replaced by its new label.
pub open spec fn relabel_tr<W>(tr: Tr<W>, m: Map<Label, Label>, input: bool) -> Tr<W> {
    if input {
        Tr { ilabel: relabel_spec(m, tr.ilabel), ..tr }
    } else {
        Tr { olabel: relabel_spec(m, tr.olabel), ..tr }
    }
}

/// Every key of `old` keeps its value in `new`.
pub open spec fn map_extends(new: Map<Label, Label>, old: Map<Label, Label>) -> bool {
    forall|k: Label| #[trigger] old.contains_key(k) ==> new.contains_key(k) && new[k] == old[k]
}

/// A pair sent past the indexed labels: `a` is below `bound` and is not the
/// index of a label, or is the final label's index.
pub open spec fn collision_pair(m: Map<Label, Label>, final_label: Label, a: Label, b: Label, bound: int) -> bool {
    &&& 1 <= a < bound
    &&& (!m.contains_key(a) || m[a] == final_label)
    &&& b == m.len() + 1
}

/// The data of label reachability: for each state, the intervals of label
/// indices it can reach, and the index of each label.
#[derive(Debug)]
pub struct LabelReachableData {
    pub reach_input: bool,
    pub final_label: Label,
    pub label2index: HashMap<Label, Label>,
    pub interval_sets: Vec<IntervalSet>,
}

impl LabelReachableData {
    /// The interval sets are normalized, of positive non-empty intervals.
    pub open spec fn wf(&self) -> bool {
        &&& isets_normalized(self.interval_sets@)
        &&& isets_positive(self.interval_sets@)
    }

    pub fn new(reach_input: bool) -> (r: Self)
        ensures
            r.reach_input == reach_input,
            r.final_label == NO_LABEL,
            r.label2index@ == Map::<Label, Label>::empty(),
            r.interval_sets@.len() == 0,
            r.wf(),
    {
        LabelReachableData {
            reach_input,
            final_label: NO_LABEL,
            label2index: HashMap::new(),
            interval_sets: Vec::new(),
        }
    }

    /// The interval set of a state; fails for a missing state.
    pub fn interval_set(&self, s: StateId) -> (r: Result<&IntervalSet, FstError>)
        ensures
            s < self.interval_sets@.len() ==> (r matches Ok(iset) && *iset == self.interval_sets@[s as int]),
            s >= self.interval_sets@.len() ==> r == Err::<&IntervalSet, FstError>(FstError::StateOutOfRange),
    {
        if s < self.interval_sets.len() {
            Ok(&self.interval_sets[s])
        } else {
            Err(FstError::StateOutOfRange)
        }
    }

    /// Whether the interval sets are normalized, of positive non-empty intervals.
    pub fn wf_check(&self) -> (b: bool)
        ensures
            b == self.wf(),
    {
        let n = self.interval_sets.len();
        let mut s: usize = 0;
        while s < n
            invariant
                s <= n,
                n == self.interval_sets@.len(),
                forall|q: int| 0 <= q < s ==> (#[trigger] self.interval_sets@[q]).is_normalized()
                    && crate::state_reachable::ivs_positive(self.interval_sets@[q].ivs()),
            decreases n - s,
        {
            let ivs = self.interval_sets[s].iter();
            let mut i: usize = 0;
            while i < ivs.len()
                invariant
                    i <= ivs@.len(),
                    s < n,
                    n == self.interval_sets@.len(),
                    ivs@ == self.interval_sets@[s as int].ivs(),
                    forall|q: int| 0 <= q < s ==> (#[trigger] self.interval_sets@[q]).is_normalized()
                        && crate::state_reachable::ivs_positive(self.interval_sets@[q].ivs()),
                    forall|a: int| 0 <= a < i ==> 1 <= #[trigger] ivs@[a].begin && ivs@[a].begin < ivs@[a].end,
                    forall|a: int, b: int| 0 <= a < b < i ==> #[trigger] ivs@[a].end < #[trigger] ivs@[b].begin,
                decreases ivs@.len() - i,
            {
                if ivs[i].begin < 1 || ivs[i].begin >= ivs[i].end {
                    return false;
                }
                if i > 0 && ivs[i - 1].end >= ivs[i].begin {
                    return false;
                }
                proof {
                    assert forall|a: int, b: int| 0 <= a < b < i + 1 implies #[trigger] ivs@[a].end < #[trigger] ivs@[b].begin by {
                        if b == i && a < i - 1 {
                            assert(ivs@[a].end < ivs@[i - 1].begin);
                        }
                    }
                }
                i += 1;
            }
            s += 1;
        }
        true
    }

    /// A copy of the data.
    pub fn data_clone(&self) -> (r: Self)
        ensures
            r.reach_input == self.reach_input,
            r.final_label == self.final_label,
            r.label2index@ == self.label2index@,
            r.interval_sets@.len() == self.interval_sets@.len(),
            forall|s: int| 0 <= s < self.interval_sets@.len() ==> (#[trigger] r.interval_sets@[s]).ivs() == self.interval_sets@[s].ivs()
                && r.interval_sets@[s].intervals.count == self.interval_sets@[s].intervals.count,
            self.wf() ==> r.wf(),
    {
        let mut sets: Vec<IntervalSet> = Vec::new();
        let mut i: usize = 0;
        while i < self.interval_sets.len()
            invariant
                i <= self.interval_sets@.len(),
                sets@.len() == i,
                forall|s: int| 0 <= s < i ==> (#[trigger] sets@[s]).ivs() == self.interval_sets@[s].ivs()
                    && sets@[s].intervals.count == self.interval_sets@[s].intervals.count,
            decreases self.interval_sets@.len() - i,
        {
            sets.push(self.interval_sets[i].clone_set());
            i += 1;
        }
        LabelReachableData {
            reach_input: self.reach_input,
            final_label: self.final_label,
            label2index: self.label2index.clone(),
            interval_sets: sets,
        }
    }

    pub fn final_label(&self) -> (l: Label)
        ensures
            l == self.final_label,
    {
        self.final_label
    }

    pub fn label2index(&self) -> (m: &HashMap<Label, Label>)
        ensures
            m@ == self.label2index@,
    {
        &self.label2index
    }

    pub fn reach_input(&self) -> (b: bool)
        ensures
            b == self.reach_input,
    {
        self.reach_input
    }

    /// The index of a label: epsilon keeps 0; a label without an index gets the
    /// next one (one more than the number of labels indexed so far).
    pub fn relabel(&mut self, label: Label) -> (r: Label)
        requires
            old(self).label2index@.len() < usize::MAX,
        ensures
            final(self).reach_input == old(self).reach_input,
            final(self).final_label == old(self).final_label,
            final(self).interval_sets@ == old(self).interval_sets@,
            label == EPS_LABEL ==> r == EPS_LABEL && final(self).label2index@ == old(self).label2index@,
            label != EPS_LABEL && old(self).label2index@.contains_key(label) ==> r == old(self).label2index@[label]
                && final(self).label2index@ == old(self).label2index@,
            label != EPS_LABEL && !old(self).label2index@.contains_key(label) ==> r == old(self).label2index@.len() + 1
                && final(self).label2index@ == old(self).label2index@.insert(label, r),
    {
        if label == EPS_LABEL {
            return EPS_LABEL;
        }
        let n = self.label2index.len();
        match self.label2index.get(&label) {
            Some(v) => *v,
            None => {
                self.label2index.insert(label, n + 1);
                n + 1
            },
        }
    }

    /// The index of a label without adding labels: epsilon keeps 0; a label
    /// without an index is an error.
    pub fn relabel_unmut(&self, label: Label) -> (r: Result<Label, FstError>)
        ensures
            label == EPS_LABEL ==> r == Ok::<Label, FstError>(EPS_LABEL),
            label != EPS_LABEL && self.label2index@.contains_key(label) ==> r == Ok::<Label, FstError>(self.label2index@[label]),
            label != EPS_LABEL && !self.label2index@.contains_key(label) ==> r == Err::<Label, FstError>(FstError::UnknownLabel),
    {
        if label == EPS_LABEL {
            return Ok(EPS_LABEL);
        }
        match self.label2index.get(&label) {
            Some(v) => Ok(*v),
            None => Err(FstError::UnknownLabel),
        }
    }

    /// Replaces the chosen label of every transition by its index, then sorts
    /// the transitions of each state by that label.
    pub fn relabel_fst<W: Semiring>(&mut self, fst: &mut VectorFst<W>, relabel_input: bool) -> (r: Result<(), FstError>)
        ensures
            final(self).reach_input == old(self).reach_input,
            final(self).final_label == old(self).final_label,
            final(self).interval_sets@ == old(self).interval_sets@,
            r is Ok ==> {
                &&& map_extends(final(self).label2index@, old(self).label2index@)
                &&& final(fst).states@.len() == old(fst).states@.len()
                &&& final(fst).start_state == old(fst).start_state
                &&& final(fst).sorted_spec(relabel_input)
                &&& forall|s: int, k: int| 0 <= s < old(fst).states@.len() && 0 <= k < old(fst).states@[s].trs@.len()
                    && tr_label(old(fst).states@[s].trs@[k], relabel_input) != EPS_LABEL
                    ==> final(self).label2index@.contains_key(#[trigger] tr_label(old(fst).states@[s].trs@[k], relabel_input))
                &&& forall|s: int| 0 <= s < final(fst).states@.len() ==> (#[trigger] final(fst).states@[s]).final_weight
                    == old(fst).states@[s].final_weight
                    && final(fst).states@[s].trs@ == sort_trs(
                        old(fst).states@[s].trs@.map_values(|tr: Tr<W>| relabel_tr(tr, final(self).label2index@, relabel_input)),
                        relabel_input)
            },
            r is Err ==> r == Err::<(), FstError>(FstError::TooManyStates),
            r is Err ==> final(self).label2index@.len() == usize::MAX,
            old(fst).wf() ==> final(fst).wf(),
    {
        let n = fst.states.len();
        let ghost m0 = self.label2index@;
        let mut s: usize = 0;
        while s < n
            invariant
                s <= n,
                n == fst.states@.len(),
                fst.states@.len() == old(fst).states@.len(),
                fst.start_state == old(fst).start_state,
                self.reach_input == old(self).reach_input,
                self.final_label == old(self).final_label,
                self.interval_sets@ == old(self).interval_sets@,
                m0 == old(self).label2index@,
                map_extends(self.label2index@, m0),
                forall|q: int| 0 <= q < n ==> (#[trigger] fst.states@[q]).final_weight == old(fst).states@[q].final_weight,
                forall|q: int| 0 <= q < n ==> (#[trigger] fst.states@[q]).trs@.len() == old(fst).states@[q].trs@.len(),
                forall|q: int, k: int| 0 <= q < n && 0 <= k < fst.states@[q].trs@.len()
                    ==> (#[trigger] fst.states@[q].trs@[k]).nextstate == old(fst).states@[q].trs@[k].nextstate,
                forall|q: int, k: int| 0 <= q < s && 0 <= k < fst.states@[q].trs@.len()
                    ==> #[trigger] fst.states@[q].trs@[k] == relabel_tr(old(fst).states@[q].trs@[k], self.label2index@, relabel_input),
                forall|q: int, k: int| 0 <= q < s && 0 <= k < fst.states@[q].trs@.len()
                    ==> (tr_label(old(fst).states@[q].trs@[k], relabel_input) != EPS_LABEL
                        ==> self.label2index@.contains_key(#[trigger] tr_label(old(fst).states@[q].trs@[k], relabel_input))),
                forall|q: int| s <= q < n ==> (#[trigger] fst.states@[q]).trs@ == old(fst).states@[q].trs@,
            decreases n - s,
        {
            let ntr = fst.states[s].trs.len();
            let mut k: usize = 0;
            while k < ntr
                invariant
                    k <= ntr,
                    s < n,
                    n == fst.states@.len(),
                    ntr == fst.states@[s as int].trs@.len(),
                    fst.states@.len() == old(fst).states@.len(),
                    fst.start_state == old(fst).start_state,
                    self.reach_input == old(self).reach_input,
                    self.final_label == old(self).final_label,
                    self.interval_sets@ == old(self).interval_sets@,
                    m0 == old(self).label2index@,
                    map_extends(self.label2index@, m0),
                    forall|q: int| 0 <= q < n ==> (#[trigger] fst.states@[q]).final_weight == old(fst).states@[q].final_weight,
                    forall|q: int| 0 <= q < n ==> (#[trigger] fst.states@[q]).trs@.len() == old(fst).states@[q].trs@.len(),
                    forall|q: int, kk: int| 0 <= q < n && 0 <= kk < fst.states@[q].trs@.len()
                        ==> (#[trigger] fst.states@[q].trs@[kk]).nextstate == old(fst).states@[q].trs@[kk].nextstate,
                    forall|q: int, kk: int| (0 <= q < s && 0 <= kk < fst.states@[q].trs@.len()) || (q == s && 0 <= kk < k)
                        ==> #[trigger] fst.states@[q].trs@[kk] == relabel_tr(old(fst).states@[q].trs@[kk], self.label2index@, relabel_input),
                    forall|q: int, kk: int| (0 <= q < s && 0 <= kk < fst.states@[q].trs@.len()) || (q == s && 0 <= kk < k)
                        ==> (tr_label(old(fst).states@[q].trs@[kk], relabel_input) != EPS_LABEL
                            ==> self.label2index@.contains_key(#[trigger] tr_label(old(fst).states@[q].trs@[kk], relabel_input))),
                    forall|kk: int| k <= kk < ntr ==> #[trigger] fst.states@[s as int].trs@[kk] == old(fst).states@[s as int].trs@[kk],
                    forall|q: int| s < q < n ==> (#[trigger] fst.states@[q]).trs@ == old(fst).states@[q].trs@,
                decreases ntr - k,
            {
                if self.label2index.len() == usize::MAX {
                    return Err(FstError::TooManyStates);
                }
                let tr = fst.states[s].trs[k].tr_clone();
                let lab = label_of(&tr, relabel_input);
                let ghost m_before = self.label2index@;
                let new_label = self.relabel(lab);
                let new_tr = if relabel_input {
                    Tr { ilabel: new_label, olabel: tr.olabel, weight: tr.weight, nextstate: tr.nextstate }
                } else {
                    Tr { ilabel: tr.ilabel, olabel: new_label, weight: tr.weight, nextstate: tr.nextstate }
                };
                let ghost before = fst.states@;
                fst.states[s].trs.set(k, new_tr);
                proof {
                    assert(map_extends(self.label2index@, m_before));
                    assert(map_extends(self.label2index@, m0)) by {
                        assert forall|key: Label| #[trigger] m0.contains_key(key) implies self.label2index@.contains_key(key)
                            && self.label2index@[key] == m0[key] by {
                            assert(m_before.contains_key(key));
                        }
                    }
                    assert forall|q: int, kk: int| (0 <= q < s && 0 <= kk < fst.states@[q].trs@.len()) || (q == s && 0 <= kk < k + 1)
                        implies #[trigger] fst.states@[q].trs@[kk] == relabel_tr(old(fst).states@[q].trs@[kk], self.label2index@, relabel_input) by {
                        if q == s && kk == k {
                        } else {
                            assert(before[q].trs@[kk] == fst.states@[q].trs@[kk]);
                            let l = tr_label(old(fst).states@[q].trs@[kk], relabel_input);
                            if l != EPS_LABEL {
                                assert(m_before.contains_key(l));
                            }
                        }
                    }
                    assert forall|q: int, kk: int| ((0 <= q < s && 0 <= kk < fst.states@[q].trs@.len()) || (q == s && 0 <= kk < k + 1))
                        && tr_label(old(fst).states@[q].trs@[kk], relabel_input) != EPS_LABEL
                        implies self.label2index@.contains_key(#[trigger] tr_label(old(fst).states@[q].trs@[kk], relabel_input)) by {
                        if !(q == s && kk == k) {
                            assert(before[q].trs@[kk] == fst.states@[q].trs@[kk]);
                            let l = tr_label(old(fst).states@[q].trs@[kk], relabel_input);
                            if l != EPS_LABEL {
                                assert(m_before.contains_key(l));
                            }
                        }
                    }
                    assert forall|q: int| 0 <= q < n implies (#[trigger] fst.states@[q]).final_weight == old(fst).states@[q].final_weight by {
                        assert(fst.states@[q].final_weight == before[q].final_weight);
                    }
                    assert forall|q: int| 0 <= q < n implies (#[trigger] fst.states@[q]).trs@.len() == old(fst).states@[q].trs@.len() by {
                        assert(fst.states@[q].trs@.len() == before[q].trs@.len());
                    }
                    assert forall|q: int, kk: int| 0 <= q < n && 0 <= kk < fst.states@[q].trs@.len()
                        implies (#[trigger] fst.states@[q].trs@[kk]).nextstate == old(fst).states@[q].trs@[kk].nextstate by {
                        if !(q == s && kk == k) {
                            assert(before[q].trs@[kk] == fst.states@[q].trs@[kk]);
                        }
                    }
                    assert forall|kk: int| k + 1 <= kk < ntr implies #[trigger] fst.states@[s as int].trs@[kk]
                        == old(fst).states@[s as int].trs@[kk] by {
                        assert(before[s as int].trs@[kk] == fst.states@[s as int].trs@[kk]);
                    }
                    assert forall|q: int| s < q < n implies (#[trigger] fst.states@[q]).trs@ == old(fst).states@[q].trs@ by {
                        assert(fst.states@[q] == before[q]);
                    }
                }
                k += 1;
            }
            s += 1;
        }
        let ghost relabeled = *fst;
        let ghost m = self.label2index@;
        fst.tr_sort(relabel_input);
        proof {
            assert forall|q: int| 0 <= q < fst.states@.len() implies (#[trigger] fst.states@[q]).final_weight
                == old(fst).states@[q].final_weight
                && fst.states@[q].trs@ == sort_trs(
                    old(fst).states@[q].trs@.map_values(|tr: Tr<W>| relabel_tr(tr, m, relabel_input)), relabel_input) by {
                assert(relabeled.states@[q].trs@ =~= old(fst).states@[q].trs@.map_values(|tr: Tr<W>| relabel_tr(tr, m, relabel_input)));
            }
            if old(fst).wf() {
                assert forall|q: int, k: int|
                    0 <= q < relabeled.states@.len() && 0 <= k < relabeled.states@[q].trs@.len()
                        implies #[trigger] relabeled.states@[q].trs@[k].nextstate < relabeled.states@.len() by {
                    assert(relabeled.states@[q].trs@[k].nextstate == old(fst).states@[q].trs@[k].nextstate);
                }
            }
        }
        Ok(())
    }

    /// The relabeling pairs: each label with its index, except the final label's.
    /// With `avoid_collisions`, each index up to the number of labels that is not
    /// the index of a label (or is the final label's) is also sent past them.
    pub fn relabel_pairs(&self, avoid_collisions: bool) -> (r: Vec<(Label, Label)>)
        requires
            self.label2index@.len() < usize::MAX,
        ensures
            forall|a: Label, b: Label| r@.contains((a, b)) <==> (
                (self.label2index@.contains_key(a) && self.label2index@[a] == b && b != self.final_label)
                || (avoid_collisions && 1 <= a <= self.label2index@.len()
                    && (!self.label2index@.contains_key(a) || self.label2index@[a] == self.final_label)
                    && b == self.label2index@.len() + 1)),
            r@.no_duplicates(),
    {
        let mut pairs: Vec<(Label, Label)> = Vec::new();
        let final_label = self.final_label;
        for (key, val) in it: self.label2index.iter()
            invariant
                final_label == self.final_label,
                forall|a: Label, b: Label| pairs@.contains((a, b)) <==> (exists|i: int| 0 <= i < it.index()
                    && *it.seq()[i].0 == a && *it.seq()[i].1 == b && b != final_label),
                pairs@.no_duplicates(),
                it.seq().no_duplicates(),
        {
            let ghost idx = it.index();
            assert(*it.seq()[idx].0 == *key && *it.seq()[idx].1 == *val);
            let ghost before = pairs@;
            if *val != final_label {
                proof {
                    if before.contains((*key, *val)) {
                        let i = choose|i: int| 0 <= i < idx && *it.seq()[i].0 == *key && *it.seq()[i].1 == *val && *val != final_label;
                        assert(it.seq()[i] == it.seq()[idx as int]);
                    }
                }
                pairs.push((*key, *val));
                proof {
                    assert forall|x: int, y: int| 0 <= x < y < pairs@.len() implies pairs@[x] != pairs@[y] by {
                        if y == pairs@.len() - 1 {
                            assert(before[x] == pairs@[x]);
                            assert(before.contains(pairs@[x]));
                        } else {
                            assert(before[x] == pairs@[x] && before[y] == pairs@[y]);
                        }
                    }
                }
            }
            assert forall|a: Label, b: Label| pairs@.contains((a, b)) <==> (exists|i: int| 0 <= i < idx + 1
                && *it.seq()[i].0 == a && *it.seq()[i].1 == b && b != final_label) by {
                if pairs@.contains((a, b)) {
                    if !before.contains((a, b)) {
                        assert(*it.seq()[idx].0 == a && *it.seq()[idx].1 == b);
                    }
                }
                if exists|i: int| 0 <= i < idx + 1 && *it.seq()[i].0 == a && *it.seq()[i].1 == b && b != final_label {
                    let i = choose|i: int| 0 <= i < idx + 1 && *it.seq()[i].0 == a && *it.seq()[i].1 == b && b != final_label;
                    if i < idx {
                        assert(before.contains((a, b)));
                        let j = choose|j: int| 0 <= j < before.len() && before[j] == (a, b);
                        assert(pairs@[j] == (a, b));
                    } else {
                        assert(pairs@[pairs@.len() - 1] == (a, b));
                    }
                }
            }
        }
        let ghost first = pairs@;
        assert forall|a: Label, b: Label| first.contains((a, b)) <==> (self.label2index@.contains_key(a)
            && self.label2index@[a] == b && b != self.final_label) by {}
        if avoid_collisions {
            let n = self.label2index.len();
            let mut i: usize = 1;
            while i <= n
                invariant
                    1 <= i <= n + 1,
                    n == self.label2index@.len(),
                    n < usize::MAX,
                    forall|a: Label, b: Label| #[trigger] pairs@.contains((a, b)) <==> (first.contains((a, b))
                        || collision_pair(self.label2index@, self.final_label, a, b, i as int)),
                    pairs@.no_duplicates(),
                    forall|a: Label, b: Label| first.contains((a, b)) <==> (self.label2index@.contains_key(a)
                        && self.label2index@[a] == b && b != self.final_label),
                decreases n + 1 - i,
            {
                let ghost before = pairs@;
                let add = match self.label2index.get(&i) {
                    None => true,
                    Some(v) => *v == self.final_label,
                };
                assert(add == (!self.label2index@.contains_key(i) || self.label2index@[i] == self.final_label));
                if add {
                    proof {
                        if before.contains((i, (n + 1) as usize)) {
                            assert(first.contains((i, (n + 1) as usize)) || collision_pair(self.label2index@, self.final_label, i, (n + 1) as usize, i as int));
                        }
                    }
                    pairs.push((i, n + 1));
                    proof {
                        assert forall|x: int, y: int| 0 <= x < y < pairs@.len() implies pairs@[x] != pairs@[y] by {
                            if y == pairs@.len() - 1 {
                                assert(before[x] == pairs@[x]);
                                assert(before.contains(pairs@[x]));
                            } else {
                                assert(before[x] == pairs@[x] && before[y] == pairs@[y]);
                            }
                        }
                    }
                }
                assert forall|a: Label, b: Label| #[trigger] pairs@.contains((a, b)) <==> (first.contains((a, b))
                    || collision_pair(self.label2index@, self.final_label, a, b, i + 1)) by {
                    assert(before.contains((a, b)) <==> (first.contains((a, b))
                        || collision_pair(self.label2index@, self.final_label, a, b, i as int)));
                    if add {
                        assert(pairs@ == before.push((i, (n + 1) as usize)));
                    } else {
                        assert(pairs@ == before);
                    }
                    if pairs@.contains((a, b)) {
                        let j = choose|j: int| 0 <= j < pairs@.len() && pairs@[j] == (a, b);
                        if j < before.len() {
                            assert(before[j] == (a, b));
                            assert(before.contains((a, b)));
                        }
                    }
                    if before.contains((a, b)) {
                        let j = choose|j: int| 0 <= j < before.len() && before[j] == (a, b);
                        assert(pairs@[j] == (a, b));
                    }
                    if a == i && collision_pair(self.label2index@, self.final_label, a, b, i + 1) {
                        assert(pairs@[pairs@.len() - 1] == (a, b));
                    }
                }
                i += 1;
            }
        }
        pairs
    }
}

/// Some transition of a state before `q`, or one of the first `k` of state
/// `q`, leads to `t`.
pub open spec fn enters_before<W>(f: VectorFst<W>, q: int, k: int, t: int) -> bool {
    exists|q2: int, k2: int|
        #![trigger f.states@[q2].trs@[k2]]
        ((0 <= q2 < q && 0 <= k2 < f.states@[q2].trs@.len()) || (q2 == q && 0 <= k2 < k)) && f.states@[q2].trs@[k2].nextstate == t
}

/// Some transition of the first `n` states of `f` leads to `t`.
pub open spec fn enters<W>(f: VectorFst<W>, n: int, t: int) -> bool {
    enters_before(f, n, 0, t)
}

/// The transitions of a super-initial state: one towards each of the first
/// `upto` states that no transition of the first `n` states of `f` leads to,
/// in increasing order, with epsilon labels and weight one.
pub open spec fn zero_indeg_trs<W: Semiring>(f: VectorFst<W>, n: int, upto: nat) -> Seq<Tr<W>>
    decreases upto,
{
    if upto == 0 {
        Seq::empty()
    } else {
        let p = zero_indeg_trs(f, n, (upto - 1) as nat);
        if enters(f, n, upto - 1) {
            p
        } else {
            p.push(Tr { ilabel: 0, olabel: 0, weight: W::one_spec(), nextstate: (upto - 1) as StateId })
        }
    }
}

proof fn lemma_zero_indeg_same<W: Semiring>(f: VectorFst<W>, n: int, g: VectorFst<W>, m: int, upto: nat)
    requires
        forall|t: int| 0 <= t < upto ==> enters(f, n, t) == enters(g, m, t),
    ensures
        zero_indeg_trs(f, n, upto) == zero_indeg_trs(g, m, upto),
    decreases upto,
{
    if upto > 0 {
        lemma_zero_indeg_same(f, n, g, m, (upto - 1) as nat);
    }
}

proof fn lemma_zero_indeg_len<W: Semiring>(f: VectorFst<W>, n: int, upto: nat)
    ensures
        forall|k: int| 0 <= k < zero_indeg_trs(f, n, upto).len() ==> {
            let t = #[trigger] zero_indeg_trs(f, n, upto)[k];
            &&& t.ilabel == 0
            &&& t.olabel == 0
            &&& t.weight == W::one_spec()
            &&& t.nextstate < upto
        },
    decreases upto,
{
    if upto > 0 {
        let p = zero_indeg_trs(f, n, (upto - 1) as nat);
        lemma_zero_indeg_len(f, n, (upto - 1) as nat);
        assert forall|k: int| 0 <= k < zero_indeg_trs(f, n, upto).len() implies {
            let t = #[trigger] zero_indeg_trs(f, n, upto)[k];
            &&& t.ilabel == 0
            &&& t.olabel == 0
            &&& t.weight == W::one_spec()
            &&& t.nextstate < upto
        } by {
            if k < p.len() {
                assert(zero_indeg_trs(f, n, upto)[k] == p[k]);
            }
        }
    }
}

/// For each state below `m`, whether some transition of the first `n` states leads to it.
fn in_degrees<W>(f: &VectorFst<W>, n: usize, m: usize) -> (r: Vec<bool>)
    requires
        n <= f.states@.len(),
    ensures
        r@.len() == m,
        forall|t: int| 0 <= t < m ==> #[trigger] r@[t] == enters(*f, n as int, t),
{
    let mut r: Vec<bool> = Vec::new();
    let mut t: usize = 0;
    while t < m
        invariant
            t <= m,
            r@.len() == t,
            forall|x: int| 0 <= x < t ==> !#[trigger] r@[x],
        decreases m - t,
    {
        r.push(false);
        t += 1;
    }
    let mut q: usize = 0;
    while q < n
        invariant
            q <= n,
            n <= f.states@.len(),
            r@.len() == m,
            forall|x: int| 0 <= x < m ==> #[trigger] r@[x] == enters_before(*f, q as int, 0, x),
        decreases n - q,
    {
        let ntr = f.states[q].trs.len();
        let mut k: usize = 0;
        while k < ntr
            invariant
                q < n,
                n <= f.states@.len(),
                k <= ntr,
                ntr == f.states@[q as int].trs@.len(),
                r@.len() == m,
                forall|x: int| 0 <= x < m ==> #[trigger] r@[x] == enters_before(*f, q as int, k as int, x),
            decreases ntr - k,
        {
            let x = f.states[q].trs[k].nextstate;
            let ghost before = r@;
            if x < m {
                r.set(x, true);
            }
            proof {
                assert forall|y: int| 0 <= y < m implies #[trigger] r@[y] == enters_before(*f, q as int, k + 1, y) by {
                    if y == x {
                        assert(f.states@[q as int].trs@[k as int].nextstate == y);
                    } else {
                        assert(before[y] == r@[y]);
                        if enters_before(*f, q as int, k + 1, y) {
                            let (q2, k2) = choose|q2: int, k2: int|
                                #![trigger f.states@[q2].trs@[k2]]
                                ((0 <= q2 < q && 0 <= k2 < f.states@[q2].trs@.len()) || (q2 == q && 0 <= k2 < k + 1))
                                    && f.states@[q2].trs@[k2].nextstate == y;
                            assert(f.states@[q2].trs@[k2].nextstate == y);
                        }
                    }
                }
            }
            k += 1;
        }
        proof {
            assert forall|y: int| 0 <= y < m implies #[trigger] r@[y] == enters_before(*f, q + 1, 0, y) by {
                if enters_before(*f, q + 1, 0, y) {
                    let (q2, k2) = choose|q2: int, k2: int|
                        #![trigger f.states@[q2].trs@[k2]]
                        ((0 <= q2 < q + 1 && 0 <= k2 < f.states@[q2].trs@.len()) || (q2 == q + 1 && 0 <= k2 < 0))
                            && f.states@[q2].trs@[k2].nextstate == y;
                    assert(f.states@[q2].trs@[k2].nextstate == y);
                }
                if enters_before(*f, q as int, ntr as int, y) {
                    let (q2, k2) = choose|q2: int, k2: int|
                        #![trigger f.states@[q2].trs@[k2]]
                        ((0 <= q2 < q && 0 <= k2 < f.states@[q2].trs@.len()) || (q2 == q && 0 <= k2 < ntr))
                            && f.states@[q2].trs@[k2].nextstate == y;
                    assert(f.states@[q2].trs@[k2].nextstate == y);
                }
            }
        }
        q += 1;
    }
    r
}

/// The destination a transition of the original FST takes in the transformed
/// one: the state of its label, or its own destination for epsilon.
pub open spec fn redirect(l2s: Map<Label, StateId>, label: Label, nextstate: StateId) -> StateId {
    if label != EPS_LABEL {
        l2s[label]
    } else {
        nextstate
    }
}

/// Transition `k` of state `q` of `f` is that of `o`, redirected to the state of its label.
pub open spec fn tr_redirected<W>(f: VectorFst<W>, o: VectorFst<W>, l2s: Map<Label, StateId>, input: bool, q: int, k: int) -> bool {
    let t = o.states@[q].trs@[k];
    &&& l2s.contains_key(tr_label(t, input)) || tr_label(t, input) == EPS_LABEL
    &&& f.states@[q].trs@[k] == Tr { nextstate: redirect(l2s, tr_label(t, input), t.nextstate), ..t }
}

/// State `q` of `f` is final in `o` with a non-zero weight and now leaves
/// through a `NO_LABEL` transition to the state of `NO_LABEL`; or its final
/// weight and number of transitions are those of `o`.
pub open spec fn final_redirected<W: Semiring>(f: VectorFst<W>, o: VectorFst<W>, l2s: Map<Label, StateId>, q: int) -> bool {
    if nonzero_final(o.states@[q].final_weight) {
        &&& l2s.contains_key(NO_LABEL)
        &&& f.states@[q].final_weight is None
        &&& f.states@[q].trs@.len() == o.states@[q].trs@.len() + 1
        &&& f.states@[q].trs@.last() == (Tr {
            ilabel: NO_LABEL,
            olabel: NO_LABEL,
            weight: o.states@[q].final_weight->0,
            nextstate: l2s[NO_LABEL],
        })
    } else {
        &&& f.states@[q].final_weight == o.states@[q].final_weight
        &&& f.states@[q].trs@.len() == o.states@[q].trs@.len()
    }
}

/// The label states of `l2s` are numbered from `ins` to `ons` (excluded), one per label.
pub open spec fn label_states_ok(l2s: Map<Label, StateId>, ins: nat, ons: nat) -> bool {
    &&& l2s.dom().finite()
    &&& ons == ins + l2s.len()
    &&& forall|l: Label| #[trigger] l2s.contains_key(l) ==> ins <= l2s[l] < ons
    &&& forall|l1: Label, l2: Label| #[trigger] l2s.contains_key(l1) && #[trigger] l2s.contains_key(l2) && l1 != l2 ==> l2s[l1] != l2s[l2]
}

/// The number of transitions of the first `s` states.
pub open spec fn trs_upto<W>(fst: VectorFst<W>, s: int) -> nat
    decreases s,
{
    if s <= 0 {
        0
    } else {
        trs_upto(fst, s - 1) + fst.states@[s - 1].trs@.len()
    }
}

proof fn lemma_trs_upto_mono<W>(fst: VectorFst<W>, a: int, b: int)
    requires
        0 <= a <= b,
    ensures
        trs_upto(fst, a) <= trs_upto(fst, b),
    decreases b - a,
{
    if a < b {
        lemma_trs_upto_mono(fst, a, b - 1);
    }
}

proof fn lemma_trs_upto_same<W>(f: VectorFst<W>, g: VectorFst<W>, s: int)
    requires
        0 <= s <= f.states@.len(),
        s <= g.states@.len(),
        forall|q: int| 0 <= q < s ==> #[trigger] f.states@[q].trs@.len() == g.states@[q].trs@.len(),
    ensures
        trs_upto(f, s) == trs_upto(g, s),
    decreases s,
{
    if s > 0 {
        lemma_trs_upto_same(f, g, s - 1);
    }
}

/// `data` is label reachability data of `fst` on the input side if
/// `reach_input`: one well-formed interval set per state, an index for every
/// non-epsilon label on that side and, when some state has a non-zero final
/// weight, for `NO_LABEL`, which is then the final label.
pub open spec fn label_data_of<W: Semiring>(fst: VectorFst<W>, reach_input: bool, data: LabelReachableData) -> bool {
    &&& data.wf()
    &&& data.reach_input == reach_input
    &&& data.interval_sets@.len() == fst.states@.len()
    &&& forall|s: int, k: int| 0 <= s < fst.states@.len() && 0 <= k < fst.states@[s].trs@.len()
        && #[trigger] tr_label(fst.states@[s].trs@[k], reach_input) != EPS_LABEL
        ==> data.label2index@.contains_key(tr_label(fst.states@[s].trs@[k], reach_input))
    &&& (exists|s: int| 0 <= s < fst.states@.len() && nonzero_final(#[trigger] fst.states@[s].final_weight))
        ==> data.label2index@.contains_key(NO_LABEL) && data.final_label == data.label2index@[NO_LABEL]
    &&& forall|l: Label| #[trigger] data.label2index@.contains_key(l) ==> label_source(fst, reach_input, l)
}

/// `l` is a label of `fst`: a non-epsilon label of a transition on the chosen
/// side, or `NO_LABEL` when some state has a non-zero final weight.
pub open spec fn label_source<W: Semiring>(fst: VectorFst<W>, input: bool, l: Label) -> bool {
    ||| (l == NO_LABEL && exists|s: int| 0 <= s < fst.states@.len() && nonzero_final(#[trigger] fst.states@[s].final_weight))
    ||| (l != EPS_LABEL && exists|s: int, k: int| 0 <= s < fst.states@.len() && 0 <= k < fst.states@[s].trs@.len()
        && #[trigger] tr_label(fst.states@[s].trs@[k], input) == l)
}

/// Every final weight present is non-zero.
pub open spec fn finals_nonzero<W: Semiring>(fst: VectorFst<W>) -> bool {
    forall|s: int| 0 <= s < fst.states@.len() ==> (#[trigger] fst.states@[s].final_weight matches Some(w) ==> w != W::zero_spec())
}

/// The final weight of a state is a non-zero weight.
pub open spec fn nonzero_final<W: Semiring>(f: Option<W>) -> bool {
    f matches Some(w) && w != W::zero_spec()
}

proof fn lemma_label_states_insert(l2s: Map<Label, StateId>, ins: nat, ons: StateId, label: Label)
    requires
        label_states_ok(l2s, ins, ons as nat),
        !l2s.contains_key(label),
    ensures
        label_states_ok(l2s.insert(label, ons), ins, (ons + 1) as nat),
{
    let m = l2s.insert(label, ons);
    assert(m.dom() =~= l2s.dom().insert(label));
    assert forall|l1: Label, l2: Label| #[trigger] m.contains_key(l1) && #[trigger] m.contains_key(l2) && l1 != l2 implies m[l1] != m[l2] by {
        if l1 != label && l2 != label {
            assert(l2s.contains_key(l1) && l2s.contains_key(l2));
        } else if l1 == label {
            assert(l2s.contains_key(l2));
            assert(l2s[l2] < ons);
        } else {
            assert(l2s.contains_key(l1));
            assert(l2s[l1] < ons);
        }
    }
}

proof fn lemma_redirected_extend<W>(f: VectorFst<W>, g: VectorFst<W>, o: VectorFst<W>, l2s: Map<Label, StateId>,
    m: Map<Label, StateId>, input: bool, q: int, k: int)
    requires
        tr_redirected(f, o, l2s, input, q, k),
        g.states@[q].trs@[k] == f.states@[q].trs@[k],
        forall|l: Label| #[trigger] l2s.contains_key(l) ==> m.contains_key(l) && m[l] == l2s[l],
    ensures
        tr_redirected(g, o, m, input, q, k),
{
}

proof fn lemma_final_extend<W: Semiring>(f: VectorFst<W>, g: VectorFst<W>, o: VectorFst<W>, l2s: Map<Label, StateId>,
    m: Map<Label, StateId>, q: int)
    requires
        final_redirected(f, o, l2s, q),
        g.states@[q] == f.states@[q],
        forall|l: Label| #[trigger] l2s.contains_key(l) ==> m.contains_key(l) && m[l] == l2s[l],
    ensures
        final_redirected(g, o, m, q),
{
    if nonzero_final(o.states@[q].final_weight) {
        assert(l2s.contains_key(NO_LABEL));
    }
}

/// Label reachability: which labels can be read, after epsilon moves, from a state.
#[derive(Debug)]
pub struct LabelReachable {
    pub data: Arc<LabelReachableData>,
    pub reach_fst_input: bool,
}

impl LabelReachable {
    pub open spec fn wf(&self) -> bool {
        self.data.wf()
    }

    /// Redirects labeled transitions (input or output labels as `data.reach_input`
    /// says) to new label-specific final states. Each original final state is
    /// redirected via a transition labeled `NO_LABEL` to a new `NO_LABEL`-specific
    /// final state. Creates a super-initial state for all states with zero in-degree.
    fn transform_fst<W: Semiring>(
        fst: &mut VectorFst<W>,
        data: &LabelReachableData,
        label2state: &mut HashMap<Label, StateId>,
    ) -> (r: Result<(), FstError>)
        requires
            old(fst).wf(),
            old(label2state)@ == Map::<Label, StateId>::empty(),
        ensures
            r is Err ==> r == Err::<(), FstError>(FstError::TooManyStates),
            2 * old(fst).states@.len() + trs_upto(*old(fst), old(fst).states@.len() as int) + 2 < usize::MAX ==> r is Ok,
            r is Ok ==> final(fst).states@.len() <= 2 * old(fst).states@.len() + trs_upto(*old(fst), old(fst).states@.len() as int) + 1,
            r is Ok ==> ({
                let ins = old(fst).states@.len();
                let l2s = final(label2state)@;
                let ons = final(fst).states@.len() - 1;
                let f = *final(fst);
                &&& f.wf()
                &&& ons >= ins
                &&& label_states_ok(l2s, ins, ons as nat)
                &&& forall|l: Label| #[trigger] l2s.contains_key(l) ==> label_source(*old(fst), data.reach_input, l)
                &&& f.start_state == Some(ons as StateId)
                &&& forall|s: int, k: int| 0 <= s < ins && 0 <= k < old(fst).states@[s].trs@.len()
                    ==> #[trigger] tr_redirected(f, *old(fst), l2s, data.reach_input, s, k)
                &&& forall|s: int| 0 <= s < ins ==> #[trigger] final_redirected(f, *old(fst), l2s, s)
                &&& forall|t: int| ins <= t < ons ==> (#[trigger] f.states@[t]).final_weight == Some(W::one_spec())
                    && f.states@[t].trs@.len() == 0
                &&& f.states@[ons].final_weight is None
                &&& f.states@[ons].trs@ == zero_indeg_trs(f, ons, ons as nat)
                &&& forall|k: int| 0 <= k < f.states@[ons].trs@.len() ==> (#[trigger] f.states@[ons].trs@[k]).ilabel == 0
                    && f.states@[ons].trs@[k].olabel == 0 && f.states@[ons].trs@[k].weight == W::one_spec()
                    && f.states@[ons].trs@[k].nextstate < ons
            }),
    {
        let ins = fst.states.len();
        if ins >= usize::MAX - 1 {
            return Err(FstError::TooManyStates);
        }
        let reach_input = data.reach_input;
        let mut ons = ins;
        let mut s: usize = 0;
        while s < ins
            invariant
                s <= ins,
                ins == old(fst).states@.len(),
                fst.states@.len() == ins,
                old(fst).wf(),
                fst.start_state == old(fst).start_state,
                reach_input == data.reach_input,
                ons >= ins,
                ons < usize::MAX,
                ons <= ins + trs_upto(*old(fst), s as int) + s,
                label_states_ok(label2state@, ins as nat, ons as nat),
                forall|l: Label| #[trigger] label2state@.contains_key(l) ==> label_source(*old(fst), reach_input, l),
                forall|q: int, k: int| 0 <= q < s && 0 <= k < old(fst).states@[q].trs@.len()
                    ==> #[trigger] tr_redirected(*fst, *old(fst), label2state@, reach_input, q, k),
                forall|q: int| 0 <= q < s ==> #[trigger] final_redirected(*fst, *old(fst), label2state@, q),
                forall|q: int| s <= q < ins ==> #[trigger] fst.states@[q] == old(fst).states@[q],
                forall|q: int, k: int| 0 <= q < ins && 0 <= k < fst.states@[q].trs@.len() ==> #[trigger] fst.states@[q].trs@[k].nextstate < ons,
            decreases ins - s,
        {
            let ntr = fst.states[s].trs.len();
            let mut k: usize = 0;
            while k < ntr
                invariant
                    s < ins,
                    k <= ntr,
                    ntr == old(fst).states@[s as int].trs@.len(),
                    fst.states@[s as int].trs@.len() == ntr,
                    fst.states@[s as int].final_weight == old(fst).states@[s as int].final_weight,
                    ins == old(fst).states@.len(),
                    fst.states@.len() == ins,
                    old(fst).wf(),
                    fst.start_state == old(fst).start_state,
                    reach_input == data.reach_input,
                    ons >= ins,
                    ons < usize::MAX,
                    ons <= ins + trs_upto(*old(fst), s as int) + s + k,
                    label_states_ok(label2state@, ins as nat, ons as nat),
                    forall|l: Label| #[trigger] label2state@.contains_key(l) ==> label_source(*old(fst), reach_input, l),
                    forall|q: int, kk: int| (0 <= q < s && 0 <= kk < old(fst).states@[q].trs@.len()) || (q == s && 0 <= kk < k)
                        ==> #[trigger] tr_redirected(*fst, *old(fst), label2state@, reach_input, q, kk),
                    forall|q: int| 0 <= q < s ==> #[trigger] final_redirected(*fst, *old(fst), label2state@, q),
                    forall|kk: int| k <= kk < ntr ==> #[trigger] fst.states@[s as int].trs@[kk] == old(fst).states@[s as int].trs@[kk],
                    forall|q: int| s < q < ins ==> #[trigger] fst.states@[q] == old(fst).states@[q],
                    forall|q: int, kk: int| 0 <= q < ins && 0 <= kk < fst.states@[q].trs@.len() ==> #[trigger] fst.states@[q].trs@[kk].nextstate < ons,
                decreases ntr - k,
            {
                let tr = fst.states[s].trs[k].tr_clone();
                let label = label_of(&tr, reach_input);
                let ghost l2s_before = label2state@;
                let ghost before = *fst;
                let nextstate = if label != EPS_LABEL {
                    match label2state.get(&label) {
                        Some(v) => *v,
                        None => {
                            if ons >= usize::MAX - 1 {
                                proof {
                                    lemma_trs_upto_mono(*old(fst), s + 1, ins as int);
                                }
                                return Err(FstError::TooManyStates);
                            }
                            proof {
                                lemma_label_states_insert(label2state@, ins as nat, ons, label);
                                assert(tr_label(old(fst).states@[s as int].trs@[k as int], reach_input) == label);
                                assert(label_source(*old(fst), reach_input, label));
                            }
                            label2state.insert(label, ons);
                            ons = ons + 1;
                            ons - 1
                        },
                    }
                } else {
                    assert(old(fst).states@[s as int].trs@[k as int].nextstate < ins);
                    tr.nextstate
                };
                let new_tr = Tr { ilabel: tr.ilabel, olabel: tr.olabel, weight: tr.weight, nextstate };
                fst.states[s].trs.set(k, new_tr);
                proof {
                    assert forall|l: Label| #[trigger] l2s_before.contains_key(l) implies label2state@.contains_key(l)
                        && label2state@[l] == l2s_before[l] by {}
                    assert forall|q: int, kk: int| (0 <= q < s && 0 <= kk < old(fst).states@[q].trs@.len()) || (q == s && 0 <= kk < k + 1)
                        implies #[trigger] tr_redirected(*fst, *old(fst), label2state@, reach_input, q, kk) by {
                        if !(q == s && kk == k) {
                            assert(tr_redirected(before, *old(fst), l2s_before, reach_input, q, kk));
                            assert(fst.states@[q].trs@[kk] == before.states@[q].trs@[kk]);
                            lemma_redirected_extend(before, *fst, *old(fst), l2s_before, label2state@, reach_input, q, kk);
                        }
                    }
                    assert forall|q: int| 0 <= q < s implies #[trigger] final_redirected(*fst, *old(fst), label2state@, q) by {
                        assert(final_redirected(before, *old(fst), l2s_before, q));
                        assert(fst.states@[q] == before.states@[q]);
                        lemma_final_extend(before, *fst, *old(fst), l2s_before, label2state@, q);
                    }
                    assert forall|kk: int| k + 1 <= kk < ntr implies #[trigger] fst.states@[s as int].trs@[kk] == old(fst).states@[s as int].trs@[kk] by {
                        assert(fst.states@[s as int].trs@[kk] == before.states@[s as int].trs@[kk]);
                    }
                    assert forall|q: int| s < q < ins implies #[trigger] fst.states@[q] == old(fst).states@[q] by {
                        assert(fst.states@[q] == before.states@[q]);
                    }
                    assert forall|q: int, kk: int| 0 <= q < ins && 0 <= kk < fst.states@[q].trs@.len() implies #[trigger] fst.states@[q].trs@[kk].nextstate < ons by {
                        if !(q == s && kk == k) {
                            assert(fst.states@[q].trs@[kk] == before.states@[q].trs@[kk]);
                        }
                    }
                }
                k += 1;
            }
            let fw_opt = match &fst.states[s].final_weight {
                Some(w) => if !w.is_zero() { Some(w.weight_clone()) } else { None },
                None => None,
            };
            let ghost before = *fst;
            let ghost l2s_before = label2state@;
            match fw_opt {
                Some(final_weight) => {
                    let nextstate = match label2state.get(&NO_LABEL) {
                        Some(v) => *v,
                        None => {
                            if ons >= usize::MAX - 1 {
                                proof {
                                    lemma_trs_upto_mono(*old(fst), s + 1, ins as int);
                                }
                                return Err(FstError::TooManyStates);
                            }
                            proof {
                                lemma_label_states_insert(label2state@, ins as nat, ons, NO_LABEL);
                                assert(nonzero_final(old(fst).states@[s as int].final_weight));
                                assert(label_source(*old(fst), reach_input, NO_LABEL));
                            }
                            label2state.insert(NO_LABEL, ons);
                            ons = ons + 1;
                            ons - 1
                        },
                    };
                    fst.states[s].trs.push(Tr::new(NO_LABEL, NO_LABEL, final_weight, nextstate));
                        fst.states[s].final_weight = None;
                },
                None => {},
            }
            proof {
                assert forall|l: Label| #[trigger] l2s_before.contains_key(l) implies label2state@.contains_key(l)
                    && label2state@[l] == l2s_before[l] by {}
                assert forall|q: int, kk: int| 0 <= q < s + 1 && 0 <= kk < old(fst).states@[q].trs@.len()
                    implies #[trigger] tr_redirected(*fst, *old(fst), label2state@, reach_input, q, kk) by {
                    assert(tr_redirected(before, *old(fst), l2s_before, reach_input, q, kk));
                    assert(fst.states@[q].trs@[kk] == before.states@[q].trs@[kk]);
                    lemma_redirected_extend(before, *fst, *old(fst), l2s_before, label2state@, reach_input, q, kk);
                }
                assert forall|q: int| 0 <= q < s + 1 implies #[trigger] final_redirected(*fst, *old(fst), label2state@, q) by {
                    if q < s {
                        assert(final_redirected(before, *old(fst), l2s_before, q));
                        assert(fst.states@[q] == before.states@[q]);
                        lemma_final_extend(before, *fst, *old(fst), l2s_before, label2state@, q);
                    }
                }
                assert forall|q: int| s + 1 <= q < ins implies #[trigger] fst.states@[q] == old(fst).states@[q] by {
                    assert(fst.states@[q] == before.states@[q]);
                }
                assert forall|q: int, kk: int| 0 <= q < ins && 0 <= kk < fst.states@[q].trs@.len() implies #[trigger] fst.states@[q].trs@[kk].nextstate < ons by {
                    if !(q == s && kk == before.states@[s as int].trs@.len()) {
                        assert(fst.states@[q].trs@[kk] == before.states@[q].trs@[kk]);
                    }
                }
            }
            s += 1;
        }
        // Adds the new final states.
        let ghost mid = *fst;
        let incoming = in_degrees(fst, ins, ons);
        while fst.states.len() < ons
            invariant
                ins <= fst.states@.len() <= ons,
                ons < usize::MAX,
                fst.start_state == old(fst).start_state,
                forall|q: int| 0 <= q < ins ==> #[trigger] fst.states@[q] == mid.states@[q],
                forall|t: int| ins <= t < fst.states@.len() ==> (#[trigger] fst.states@[t]).final_weight == Some(W::one_spec())
                    && fst.states@[t].trs@.len() == 0,
            decreases ons - fst.states@.len(),
        {
            let t = fst.add_state();
            let _ = fst.set_final(t, W::one());
        }
        let start = fst.add_state();
        let _ = fst.set_start(start);
        let mut t: usize = 0;
        while t < start
            invariant
                t <= start,
                start == ons,
                ins <= ons,
                fst.states@.len() == ons + 1,
                incoming@.len() == ons,
                forall|x: int| 0 <= x < ons ==> #[trigger] incoming@[x] == enters(mid, ins as int, x),
                fst.states@[ons as int].trs@ == zero_indeg_trs(mid, ins as int, t as nat),
                fst.start_state == Some(start),
                forall|q: int| 0 <= q < ins ==> #[trigger] fst.states@[q] == mid.states@[q],
                forall|q: int| ins <= q < ons ==> (#[trigger] fst.states@[q]).final_weight == Some(W::one_spec())
                    && fst.states@[q].trs@.len() == 0,
                fst.states@[ons as int].final_weight is None,
                forall|k: int| 0 <= k < fst.states@[ons as int].trs@.len() ==> (#[trigger] fst.states@[ons as int].trs@[k]).ilabel == 0
                    && fst.states@[ons as int].trs@[k].olabel == 0 && fst.states@[ons as int].trs@[k].weight == W::one_spec()
                    && fst.states@[ons as int].trs@[k].nextstate < ons,
            decreases start - t,
        {
            let ghost trs_before = fst.states@[ons as int].trs@;
            if !incoming[t] {
                let ghost before = fst.states@;
                let _ = fst.add_tr(start, Tr::new(0, 0, W::one(), t));
                proof {
                    assert forall|q: int| 0 <= q < ins implies #[trigger] fst.states@[q] == mid.states@[q] by {
                        assert(fst.states@[q] == before[q]);
                    }
                    assert forall|q: int| ins <= q < ons implies (#[trigger] fst.states@[q]).final_weight == Some(W::one_spec())
                        && fst.states@[q].trs@.len() == 0 by {
                        assert(fst.states@[q] == before[q]);
                    }
                    assert forall|k: int| 0 <= k < fst.states@[ons as int].trs@.len() implies (#[trigger] fst.states@[ons as int].trs@[k]).ilabel == 0
                        && fst.states@[ons as int].trs@[k].olabel == 0 && fst.states@[ons as int].trs@[k].weight == W::one_spec()
                        && fst.states@[ons as int].trs@[k].nextstate < ons by {
                        if k < before[ons as int].trs@.len() {
                            assert(fst.states@[ons as int].trs@[k] == before[ons as int].trs@[k]);
                        }
                    }
                }
            }
            proof {
                assert(incoming@[t as int] == enters(mid, ins as int, t as int));
                assert(fst.states@[ons as int].trs@ == zero_indeg_trs(mid, ins as int, (t + 1) as nat));
            }
            t += 1;
        }
        proof {
            assert forall|x: int| 0 <= x < ons implies enters(*fst, ons as int, x) == enters(mid, ins as int, x) by {
                if enters(*fst, ons as int, x) {
                    let (q2, k2) = choose|q2: int, k2: int|
                        #![trigger fst.states@[q2].trs@[k2]]
                        ((0 <= q2 < ons && 0 <= k2 < fst.states@[q2].trs@.len()) || (q2 == ons && 0 <= k2 < 0))
                            && fst.states@[q2].trs@[k2].nextstate == x;
                    assert(q2 < ins);
                    assert(fst.states@[q2] == mid.states@[q2]);
                    assert(mid.states@[q2].trs@[k2].nextstate == x);
                }
                if enters(mid, ins as int, x) {
                    let (q2, k2) = choose|q2: int, k2: int|
                        #![trigger mid.states@[q2].trs@[k2]]
                        ((0 <= q2 < ins && 0 <= k2 < mid.states@[q2].trs@.len()) || (q2 == ins && 0 <= k2 < 0))
                            && mid.states@[q2].trs@[k2].nextstate == x;
                    assert(fst.states@[q2] == mid.states@[q2]);
                    assert(fst.states@[q2].trs@[k2].nextstate == x);
                }
            }
            lemma_zero_indeg_same(*fst, ons as int, mid, ins as int, ons as nat);
            assert forall|q: int, k: int|
                0 <= q < fst.states@.len() && 0 <= k < fst.states@[q].trs@.len()
                    implies #[trigger] fst.states@[q].trs@[k].nextstate < fst.states@.len() by {
                if q < ins {
                    assert(fst.states@[q] == mid.states@[q]);
                    assert(mid.states@[q].trs@[k].nextstate < ons);
                } else if q == ons {
                    assert(fst.states@[ons as int].trs@[k].nextstate < ons);
                }
            }
            assert forall|q: int, k: int| 0 <= q < ins && 0 <= k < old(fst).states@[q].trs@.len()
                implies #[trigger] tr_redirected(*fst, *old(fst), label2state@, reach_input, q, k) by {
                assert(tr_redirected(mid, *old(fst), label2state@, reach_input, q, k));
                assert(fst.states@[q] == mid.states@[q]);
            }
            assert forall|q: int| 0 <= q < ins implies #[trigger] final_redirected(*fst, *old(fst), label2state@, q) by {
                assert(final_redirected(mid, *old(fst), label2state@, q));
                assert(fst.states@[q] == mid.states@[q]);
            }
        }
        Ok(())
    }

    /// Computes the reachable interval sets of the transformed FST, keeps those
    /// of the first `ins` states, and gives each label the index of its state.
    fn find_intervals<W: Semiring>(
        fst: &VectorFst<W>,
        ins: StateId,
        data: &mut LabelReachableData,
        label2state: &mut HashMap<Label, StateId>,
    ) -> (r: Result<(), FstError>)
        requires
            fst.wf(),
            fst.states@.len() > 0 ==> fst.start_state is Some,
            forall|l: Label| #[trigger] old(label2state)@.contains_key(l) ==> old(label2state)@[l] < fst.states@.len(),
        ensures
            final(data).reach_input == old(data).reach_input,
            r is Ok ==> {
                &&& final(data).wf()
                &&& final(data).interval_sets@.len() == ins
                &&& forall|l: Label| #[trigger] old(label2state)@.contains_key(l) ==> final(data).label2index@.contains_key(l)
                &&& forall|l: Label| !old(label2state)@.contains_key(l) ==> (#[trigger] final(data).label2index@.contains_key(l)
                    == old(data).label2index@.contains_key(l))
                &&& (old(label2state)@.contains_key(NO_LABEL) ==> final(data).final_label == final(data).label2index@[NO_LABEL])
                &&& (!old(label2state)@.contains_key(NO_LABEL) ==> final(data).final_label == old(data).final_label)
                &&& final(label2state)@ == Map::<Label, StateId>::empty()
            },
            r is Err ==> r == Err::<(), FstError>(FstError::FinalStateInCycle) || r == Err::<(), FstError>(FstError::TooManyStates),
            !final_on_cycle(*fst) && fst.states@.len() + 1 < usize::MAX ==> r is Ok,
    {
        let state_reachable = StateReachable::new(fst)?;
        let state2index = state_reachable.state2index;
        let mut isets = state_reachable.isets;
        if isets.len() > ins {
            isets.truncate(ins);
        }
        while isets.len() < ins
            invariant
                isets_normalized(isets@),
                isets_positive(isets@),
                isets@.len() <= ins,
            decreases ins - isets@.len(),
        {
            let ghost before = isets@;
            isets.push(IntervalSet::new());
            proof {
                assert forall|q: int| 0 <= q < isets@.len() implies (#[trigger] isets@[q]).is_normalized()
                    && crate::state_reachable::ivs_positive(isets@[q].ivs()) by {
                    if q < before.len() {
                        assert(isets@[q] == before[q]);
                    }
                }
            }
        }
        data.interval_sets = isets;
        let ghost old_index = data.label2index@;
        let ghost l2s = label2state@;
        for (label, state) in it: label2state.iter()
            invariant
                state2index@.len() == fst.states@.len(),
                l2s == label2state@,
                forall|l: Label| #[trigger] l2s.contains_key(l) ==> l2s[l] < fst.states@.len(),
                data.wf(),
                data.interval_sets@.len() == ins,
                data.reach_input == old(data).reach_input,
                forall|i: int| 0 <= i < it.index() ==> data.label2index@.contains_key(#[trigger] *it.seq()[i].0),
                forall|l: Label| #[trigger] l2s.contains_key(l) ==> (data.label2index@.contains_key(l)
                    || exists|i: int| it.index() <= i < it.seq().len() && *it.seq()[i].0 == l),
                forall|l: Label| !l2s.contains_key(l) ==> (#[trigger] data.label2index@.contains_key(l) == old_index.contains_key(l)),
                forall|i: int| 0 <= i < it.index() && *it.seq()[i].0 == NO_LABEL ==> data.final_label == data.label2index@[NO_LABEL],
                (forall|i: int| 0 <= i < it.index() ==> *it.seq()[i].0 != NO_LABEL) ==> data.final_label == old(data).final_label,
                it.seq().no_duplicates(),
        {
            let ghost idx = it.index();
            assert(l2s.contains_key(*label));
            let i = state2index[*state];
            let ghost before = data.label2index@;
            data.label2index.insert(*label, i);
            if *label == NO_LABEL {
                data.final_label = i;
            }
            proof {
                assert forall|q: int| 0 <= q < idx + 1 implies data.label2index@.contains_key(#[trigger] *it.seq()[q].0) by {
                    if q < idx {
                        assert(before.contains_key(*it.seq()[q].0));
                    }
                }
                assert forall|q: int| 0 <= q < idx + 1 && *it.seq()[q].0 == NO_LABEL implies data.final_label == data.label2index@[NO_LABEL] by {
                    if q < idx && *label != NO_LABEL {
                        assert(before.contains_key(NO_LABEL));
                    }
                }
                if forall|q: int| 0 <= q < idx + 1 ==> *it.seq()[q].0 != NO_LABEL {
                    assert(*it.seq()[idx].0 != NO_LABEL);
                }
                assert forall|l: Label| #[trigger] l2s.contains_key(l) implies (data.label2index@.contains_key(l)
                    || exists|q: int| idx + 1 <= q < it.seq().len() && *it.seq()[q].0 == l) by {
                    if !before.contains_key(l) && l != *label {
                        let q = choose|q: int| idx <= q < it.seq().len() && *it.seq()[q].0 == l;
                        assert(q != idx);
                    }
                }
            }
        }
        label2state.clear();
        Ok(())
    }

    /// In the transformed FST only the label states are final, and they have
    /// no transitions, so no final state lies on a cycle.
    proof fn lemma_transformed_no_final_cycle<W: Semiring>(fst: VectorFst<W>, t0: VectorFst<W>, tfst: VectorFst<W>,
        l2s: Map<Label, StateId>, reach_input: bool)
        requires
            finals_nonzero(fst),
            t0.states@.len() == fst.states@.len(),
            forall|s: int| 0 <= s < fst.states@.len() ==> (#[trigger] t0.states@[s]).final_weight == fst.states@[s].final_weight,
            tfst.states@.len() > fst.states@.len(),
            forall|s: int| 0 <= s < fst.states@.len() ==> #[trigger] final_redirected(tfst, t0, l2s, s),
            forall|t: int| fst.states@.len() <= t < tfst.states@.len() - 1 ==> (#[trigger] tfst.states@[t]).final_weight == Some(W::one_spec())
                && tfst.states@[t].trs@.len() == 0,
            tfst.states@[tfst.states@.len() - 1].final_weight is None,
        ensures
            !final_on_cycle(tfst),
    {
        if final_on_cycle(tfst) {
            let (f, g) = choose|f: StateId, g: StateId| #![trigger reachable(tfst, f, g), reachable(tfst, g, f)]
                f < tfst.states@.len() && g < tfst.states@.len() && f != g
                && tfst.states@[f as int].final_weight is Some && reachable(tfst, f, g) && reachable(tfst, g, f);
            lemma_reach_leaves(tfst, f, g);
            if f < fst.states@.len() {
                assert(final_redirected(tfst, t0, l2s, f as int));
                assert(t0.states@[f as int].final_weight == fst.states@[f as int].final_weight);
                if fst.states@[f as int].final_weight is Some {
                    assert(nonzero_final(fst.states@[f as int].final_weight));
                }
            }
        }
    }

    /// The label reachability data of an FST: the interval sets of its states
    /// and the index of each label, on the input side if `reach_input`.
    pub fn compute_data<W: Semiring>(fst: &VectorFst<W>, reach_input: bool) -> (r: Result<LabelReachableData, FstError>)
        requires
            fst.wf(),
        ensures
            r matches Ok(data) ==> label_data_of(*fst, reach_input, data),
            r is Err ==> r == Err::<LabelReachableData, FstError>(FstError::FinalStateInCycle)
                || r == Err::<LabelReachableData, FstError>(FstError::TooManyStates),
            finals_nonzero(*fst) && 2 * fst.states@.len() + trs_upto(*fst, fst.states@.len() as int) + 3 < usize::MAX
                ==> r is Ok,
    {
        let mut tfst = fst.fst_clone();
        let ghost t0 = tfst;
        let mut data = LabelReachableData::new(reach_input);
        let mut label2state: HashMap<Label, StateId> = HashMap::new();
        let nstates = tfst.num_states();
        proof {
            lemma_trs_upto_same(*fst, t0, fst.states@.len() as int);
        }
        Self::transform_fst(&mut tfst, &data, &mut label2state)?;
        let ghost l2s = label2state@;
        proof {
            assert forall|s: int| 0 <= s < fst.states@.len() implies #[trigger] t0.states@[s] == fst.states@[s] || (
                t0.states@[s].final_weight == fst.states@[s].final_weight && t0.states@[s].trs@ == fst.states@[s].trs@) by {}
            assert forall|l: Label| #[trigger] label2state@.contains_key(l) implies label2state@[l] < tfst.states@.len() by {}
            assert forall|s: int, k: int| 0 <= s < fst.states@.len() && 0 <= k < fst.states@[s].trs@.len()
                && #[trigger] tr_label(fst.states@[s].trs@[k], reach_input) != EPS_LABEL
                implies l2s.contains_key(tr_label(fst.states@[s].trs@[k], reach_input)) by {
                assert(tr_redirected(tfst, t0, l2s, reach_input, s, k));
                assert(t0.states@[s].trs@[k] == fst.states@[s].trs@[k]);
            }
            if exists|s: int| 0 <= s < fst.states@.len() && nonzero_final(#[trigger] fst.states@[s].final_weight) {
                let s = choose|s: int| 0 <= s < fst.states@.len() && nonzero_final(#[trigger] fst.states@[s].final_weight);
                assert(final_redirected(tfst, t0, l2s, s));
                assert(t0.states@[s].final_weight == fst.states@[s].final_weight);
            }
            assert forall|l: Label| #[trigger] l2s.contains_key(l) implies label_source(*fst, reach_input, l) by {
                assert(label_source(t0, reach_input, l));
                if l == NO_LABEL && exists|s: int| 0 <= s < t0.states@.len() && nonzero_final(#[trigger] t0.states@[s].final_weight) {
                    let s = choose|s: int| 0 <= s < t0.states@.len() && nonzero_final(#[trigger] t0.states@[s].final_weight);
                    assert(t0.states@[s].final_weight == fst.states@[s].final_weight);
                } else {
                    let (s, k) = choose|s: int, k: int| 0 <= s < t0.states@.len() && 0 <= k < t0.states@[s].trs@.len()
                        && #[trigger] tr_label(t0.states@[s].trs@[k], reach_input) == l;
                    assert(t0.states@[s].trs@ == fst.states@[s].trs@);
                    assert(tr_label(fst.states@[s].trs@[k], reach_input) == l);
                }
            }
        }
        proof {
            if finals_nonzero(*fst) {
                Self::lemma_transformed_no_final_cycle(*fst, t0, tfst, l2s, reach_input);
            }
        }
        Self::find_intervals(&tfst, nstates, &mut data, &mut label2state)?;
        Ok(data)
    }

    /// The label reachability of an FST, on the input side if `reach_input`.
    pub fn new<W: Semiring>(fst: &VectorFst<W>, reach_input: bool) -> (r: Result<Self, FstError>)
        requires
            fst.wf(),
        ensures
            r matches Ok(lr) ==> lr.wf() && lr.data.reach_input == reach_input && !lr.reach_fst_input
                && lr.data.interval_sets@.len() == fst.states@.len(),
            r is Err ==> r == Err::<Self, FstError>(FstError::FinalStateInCycle)
                || r == Err::<Self, FstError>(FstError::TooManyStates),
            finals_nonzero(*fst) && 2 * fst.states@.len() + trs_upto(*fst, fst.states@.len() as int) + 3 < usize::MAX
                ==> r is Ok,
    {
        let data = Self::compute_data(fst, reach_input)?;
        Ok(LabelReachable { data: Arc::new(data), reach_fst_input: false })
    }

    pub fn new_from_data(data: Arc<LabelReachableData>) -> (r: Self)
        ensures
            *r.data == *data,
            !r.reach_fst_input,
    {
        LabelReachable { data, reach_fst_input: false }
    }

    pub fn data(&self) -> (r: &Arc<LabelReachableData>)
        ensures
            **r == *self.data,
    {
        &self.data
    }

    pub fn reach_input(&self) -> (b: bool)
        ensures
            b == self.data.reach_input,
    {
        self.data.reach_input
    }

    /// Sets the side of the FST whose labels are tested; fails when the FST is
    /// not sorted on that side.
    pub fn reach_init<W: Semiring>(&mut self, fst: &VectorFst<W>, reach_input: bool) -> (r: Result<(), FstError>)
        ensures
            final(self).reach_fst_input == reach_input,
            *final(self).data == *old(self).data,
            fst.sorted_spec(reach_input) ==> r is Ok,
            !fst.sorted_spec(reach_input) ==> r == Err::<(), FstError>(FstError::NotSorted),
    {
        self.reach_fst_input = reach_input;
        if !fst.is_sorted(reach_input) {
            return Err(FstError::NotSorted);
        }
        Ok(())
    }

    /// Whether the (relabeled) label can be reached from the state.
    pub fn reach_label(&self, current_state: StateId, label: Label) -> (r: Result<bool, FstError>)
        requires
            self.wf(),
        ensures
            label == EPS_LABEL ==> r == Ok::<bool, FstError>(false),
            label != EPS_LABEL && current_state < self.data.interval_sets@.len() ==> r == Ok::<bool, FstError>(
                self.data.interval_sets@[current_state as int].contains_point(label as int)),
            label != EPS_LABEL && current_state >= self.data.interval_sets@.len() ==> r == Err::<bool, FstError>(FstError::StateOutOfRange),
    {
        if label == EPS_LABEL {
            return Ok(false);
        }
        let iset = self.data.interval_set(current_state)?;
        assert(self.data.interval_sets@[current_state as int].is_normalized());
        Ok(iset.member(label))
    }

    /// Whether a final state can be reached (via epsilon transitions) from the state.
    pub fn reach_final(&self, current_state: StateId) -> (r: Result<bool, FstError>)
        requires
            self.wf(),
        ensures
            current_state < self.data.interval_sets@.len() ==> r == Ok::<bool, FstError>(
                self.data.interval_sets@[current_state as int].contains_point(self.data.final_label as int)),
            current_state >= self.data.interval_sets@.len() ==> r == Err::<bool, FstError>(FstError::StateOutOfRange),
    {
        let iset = self.data.interval_set(current_state)?;
        assert(self.data.interval_sets@[current_state as int].is_normalized());
        Ok(iset.member(self.data.final_label()))
    }

    /// The first position in `[aiter_begin, aiter_end)` whose label is not
    /// below `match_label`, by binary search on labels sorted over that range.
    fn lower_bound<W: Semiring>(&self, trs: &[Tr<W>], aiter_begin: usize, aiter_end: usize, match_label: Label) -> (r: usize)
        requires
            aiter_begin <= aiter_end <= trs@.len(),
            forall|i: int, j: int| aiter_begin <= i <= j < aiter_end
                ==> tr_label(#[trigger] trs@[i], self.reach_fst_input) <= tr_label(#[trigger] trs@[j], self.reach_fst_input),
        ensures
            aiter_begin <= r <= aiter_end,
            forall|i: int| aiter_begin <= i < r ==> tr_label(#[trigger] trs@[i], self.reach_fst_input) < match_label,
            forall|i: int| r <= i < aiter_end ==> tr_label(#[trigger] trs@[i], self.reach_fst_input) >= match_label,
    {
        let mut low = aiter_begin;
        let mut high = aiter_end;
        while low < high
            invariant
                aiter_begin <= low <= high <= aiter_end,
                aiter_end <= trs@.len(),
                forall|i: int, j: int| aiter_begin <= i <= j < aiter_end
                    ==> tr_label(#[trigger] trs@[i], self.reach_fst_input) <= tr_label(#[trigger] trs@[j], self.reach_fst_input),
                forall|i: int| aiter_begin <= i < low ==> tr_label(#[trigger] trs@[i], self.reach_fst_input) < match_label,
                forall|i: int| high <= i < aiter_end ==> tr_label(#[trigger] trs@[i], self.reach_fst_input) >= match_label,
            decreases high - low,
        {
            let mid = low + (high - low) / 2;
            let label = label_of(&trs[mid], self.reach_fst_input);
            if label < match_label {
                proof {
                    assert forall|i: int| aiter_begin <= i < mid + 1 implies tr_label(#[trigger] trs@[i], self.reach_fst_input) < match_label by {
                        assert(tr_label(trs@[i], self.reach_fst_input) <= tr_label(trs@[mid as int], self.reach_fst_input));
                    }
                }
                low = mid + 1;
            } else {
                proof {
                    assert forall|i: int| mid <= i < aiter_end implies tr_label(#[trigger] trs@[i], self.reach_fst_input) >= match_label by {
                        assert(tr_label(trs@[mid as int], self.reach_fst_input) <= tr_label(trs@[i], self.reach_fst_input));
                    }
                }
                high = mid;
            }
        }
        low
    }

    /// Which transitions of `trs[aiter_begin..aiter_end]` carry a label
    /// reachable from the state: the first and one past the last such position,
    /// with the sum of their weights when `compute_weight` (zero otherwise), or
    /// none when there is no such position. Short ranges are scanned; long ones
    /// are searched interval by interval.
    pub fn reach<W: Semiring>(
        &self,
        current_state: StateId,
        trs: &[Tr<W>],
        aiter_begin: usize,
        aiter_end: usize,
        compute_weight: bool,
    ) -> (r: Result<Option<(usize, usize, W)>, FstError>)
        requires
            self.wf(),
            aiter_begin <= aiter_end <= trs@.len(),
            forall|i: int, j: int| aiter_begin <= i <= j < aiter_end
                ==> tr_label(#[trigger] trs@[i], self.reach_fst_input) <= tr_label(#[trigger] trs@[j], self.reach_fst_input),
        ensures
            current_state >= self.data.interval_sets@.len() ==> r == Err::<Option<(usize, usize, W)>, FstError>(FstError::StateOutOfRange),
            current_state < self.data.interval_sets@.len() ==> ({
                let iset = self.data.interval_sets@[current_state as int];
                let input = self.reach_fst_input;
                match r {
                    Ok(None) => forall|p: int| aiter_begin <= p < aiter_end ==> !#[trigger] reached(iset, trs@, input, p),
                    Ok(Some((rb, re, w))) => {
                        &&& aiter_begin <= rb < re <= aiter_end
                        &&& reached(iset, trs@, input, rb as int)
                        &&& reached(iset, trs@, input, re - 1)
                        &&& forall|p: int| aiter_begin <= p < rb ==> !#[trigger] reached(iset, trs@, input, p)
                        &&& forall|p: int| re <= p < aiter_end ==> !#[trigger] reached(iset, trs@, input, p)
                        &&& w == if compute_weight { reached_sum(iset, trs@, input, aiter_begin as int, aiter_end as int) } else { W::zero_spec() }
                    },
                    Err(_) => false,
                }
            }),
    {
        let input = self.reach_fst_input;
        let iset = self.data.interval_set(current_state)?;
        let ghost gi = *iset;
        assert(gi.is_normalized() && crate::state_reachable::ivs_positive(gi.ivs()));
        let mut reach_begin: usize = UNASSIGNED_POS;
        let mut reach_end: usize = UNASSIGNED_POS;
        let mut reach_weight = W::zero();
        let len = iset.len();
        if len > 0 && aiter_end - aiter_begin <= (len - 1) / 2 {
            let mut reach_label: Label = NO_LABEL;
            let mut pos = aiter_begin;
            while pos < aiter_end
                invariant
                    aiter_begin <= pos <= aiter_end,
                    aiter_end <= trs@.len(),
                    self.wf(),
                    current_state < self.data.interval_sets@.len(),
                    gi == self.data.interval_sets@[current_state as int],
                    input == self.reach_fst_input,
                    reach_label == NO_LABEL || (reach_label != EPS_LABEL && gi.contains_point(reach_label as int)),
                    reach_scan_ok(gi, trs@, input, aiter_begin as int, pos as int, reach_begin, reach_end),
                    reach_weight == if compute_weight { reached_sum(gi, trs@, input, aiter_begin as int, pos as int) } else { W::zero_spec() },
                decreases aiter_end - pos,
            {
                let label = label_of(&trs[pos], input);
                let hit = if label == reach_label && label != NO_LABEL { true } else { self.reach_label(current_state, label)? };
                assert(hit == reached(gi, trs@, input, pos as int));
                if hit {
                    reach_label = label;
                    if reach_begin == UNASSIGNED_POS {
                        reach_begin = pos;
                    }
                    reach_end = pos + 1;
                    if compute_weight {
                        reach_weight = reach_weight.plus(&trs[pos].weight);
                    }
                }
                pos += 1;
            }
        } else {
            let ivs = iset.iter();
            let mut end_low = aiter_begin;
            let mut k: usize = 0;
            while k < ivs.len()
                invariant
                    k <= ivs@.len(),
                    ivs@ == gi.ivs(),
                    gi.is_normalized(),
                    crate::state_reachable::ivs_positive(gi.ivs()),
                    aiter_begin <= end_low <= aiter_end,
                    aiter_end <= trs@.len(),
                    input == self.reach_fst_input,
                    forall|i: int, j: int| aiter_begin <= i <= j < aiter_end
                        ==> tr_label(#[trigger] trs@[i], self.reach_fst_input) <= tr_label(#[trigger] trs@[j], self.reach_fst_input),
                    k > 0 ==> forall|i: int| end_low <= i < aiter_end ==> tr_label(#[trigger] trs@[i], input) >= gi.ivs()[k - 1].end,
                    reach_scan_ok(gi, trs@, input, aiter_begin as int, end_low as int, reach_begin, reach_end),
                    reach_weight == if compute_weight { reached_sum(gi, trs@, input, aiter_begin as int, end_low as int) } else { W::zero_spec() },
                decreases ivs@.len() - k,
            {
                let interval = ivs[k];
                let begin_low = self.lower_bound(trs, end_low, aiter_end, interval.begin);
                let new_end = self.lower_bound(trs, begin_low, aiter_end, interval.end);
                proof {
                    // Positions in [end_low, begin_low) lie in the gap before the interval.
                    assert forall|p: int| end_low <= p < begin_low implies !#[trigger] reached(gi, trs@, input, p) by {
                        lemma_gap_not_covered(gi, k as int, tr_label(trs@[p], input) as int);
                    }
                    lemma_reach_scan_skip(gi, trs@, input, aiter_begin as int, end_low as int, begin_low as int, reach_begin, reach_end);
                    if compute_weight {
                        lemma_sum_skip(gi, trs@, input, aiter_begin as int, end_low as int, begin_low as int);
                    }
                    assert forall|p: int| begin_low <= p < new_end implies #[trigger] reached(gi, trs@, input, p) by {
                        assert(gi.ivs()[k as int].begin <= tr_label(trs@[p], input) < gi.ivs()[k as int].end);
                        assert(gi.ivs()[k as int].begin >= 1);
                    }
                }
                proof {
                    lemma_reach_scan_block(gi, trs@, input, aiter_begin as int, begin_low, new_end, reach_begin, reach_end);
                }
                if new_end > begin_low {
                    if reach_begin == UNASSIGNED_POS {
                        reach_begin = begin_low;
                    }
                    reach_end = new_end;
                }
                if compute_weight {
                    let mut i = begin_low;
                    while i < new_end
                        invariant
                            begin_low <= i <= new_end,
                            new_end <= aiter_end,
                            aiter_begin <= begin_low,
                            aiter_end <= trs@.len(),
                            forall|p: int| begin_low <= p < new_end ==> #[trigger] reached(gi, trs@, input, p),
                            reach_weight == reached_sum(gi, trs@, input, aiter_begin as int, i as int),
                        decreases new_end - i,
                    {
                        assert(reached(gi, trs@, input, i as int));
                        reach_weight = reach_weight.plus(&trs[i].weight);
                        i += 1;
                    }
                }
                proof {
                    assert forall|i: int| new_end <= i < aiter_end implies tr_label(#[trigger] trs@[i], input) >= gi.ivs()[k as int].end by {}
                }
                end_low = new_end;
                k += 1;
            }
            proof {
                assert forall|p: int| end_low <= p < aiter_end implies !#[trigger] reached(gi, trs@, input, p) by {
                    lemma_gap_not_covered(gi, ivs@.len() as int, tr_label(trs@[p], input) as int);
                }
                lemma_reach_scan_skip(gi, trs@, input, aiter_begin as int, end_low as int, aiter_end as int, reach_begin, reach_end);
                if compute_weight {
                    lemma_sum_skip(gi, trs@, input, aiter_begin as int, end_low as int, aiter_end as int);
                }
            }
        }
        if reach_begin != UNASSIGNED_POS {
            Ok(Some((reach_begin, reach_end, reach_weight)))
        } else {
            Ok(None)
        }
    }
}

/// A position that designates no transition.
pub const UNASSIGNED_POS: usize = usize::MAX;

/// The transition at `p` carries a label (on the tested side) of the interval set.
pub open spec fn reached<W>(iset: IntervalSet, trs: Seq<Tr<W>>, input: bool, p: int) -> bool {
    tr_label(trs[p], input) != EPS_LABEL && iset.contains_point(tr_label(trs[p], input) as int)
}

/// The sum, in order, of the weights of the reached transitions in `[b, e)`.
pub open spec fn reached_sum<W: Semiring>(iset: IntervalSet, trs: Seq<Tr<W>>, input: bool, b: int, e: int) -> W
    decreases e - b,
{
    if e <= b {
        W::zero_spec()
    } else if reached(iset, trs, input, e - 1) {
        W::plus_spec(reached_sum(iset, trs, input, b, e - 1), trs[e - 1].weight)
    } else {
        reached_sum(iset, trs, input, b, e - 1)
    }
}

/// `rb` and `re` describe the reached positions of `[b, pos)`: none when `rb`
/// is unassigned, else the first one and one past the last one.
pub open spec fn reach_scan_ok<W>(iset: IntervalSet, trs: Seq<Tr<W>>, input: bool, b: int, pos: int, rb: usize, re: usize) -> bool {
    if rb == UNASSIGNED_POS {
        forall|p: int| b <= p < pos ==> !#[trigger] reached(iset, trs, input, p)
    } else {
        &&& b <= rb < re <= pos
        &&& rb < UNASSIGNED_POS
        &&& reached(iset, trs, input, rb as int)
        &&& reached(iset, trs, input, re - 1)
        &&& forall|p: int| b <= p < rb ==> !#[trigger] reached(iset, trs, input, p)
        &&& forall|p: int| re <= p < pos ==> !#[trigger] reached(iset, trs, input, p)
    }
}

proof fn lemma_reach_scan_skip<W>(iset: IntervalSet, trs: Seq<Tr<W>>, input: bool, b: int, x: int, y: int, rb: usize, re: usize)
    requires
        reach_scan_ok(iset, trs, input, b, x, rb, re),
        x <= y,
        forall|p: int| x <= p < y ==> !#[trigger] reached(iset, trs, input, p),
    ensures
        reach_scan_ok(iset, trs, input, b, y, rb, re),
{
}

proof fn lemma_reach_scan_block<W>(iset: IntervalSet, trs: Seq<Tr<W>>, input: bool, b: int, x: usize, y: usize, rb: usize, re: usize)
    requires
        reach_scan_ok(iset, trs, input, b, x as int, rb, re),
        b <= x <= y,
        forall|p: int| x <= p < y ==> #[trigger] reached(iset, trs, input, p),
    ensures
        y > x ==> reach_scan_ok(iset, trs, input, b, y as int, if rb == UNASSIGNED_POS { x } else { rb }, y),
        y == x ==> reach_scan_ok(iset, trs, input, b, y as int, rb, re),
{
    if y > x {
        assert(reached(iset, trs, input, x as int));
        assert(reached(iset, trs, input, y - 1));
    }
}

proof fn lemma_sum_skip<W: Semiring>(iset: IntervalSet, trs: Seq<Tr<W>>, input: bool, b: int, x: int, y: int)
    requires
        b <= x <= y,
        forall|p: int| x <= p < y ==> !#[trigger] reached(iset, trs, input, p),
    ensures
        reached_sum(iset, trs, input, b, y) == reached_sum(iset, trs, input, b, x),
    decreases y - x,
{
    if y > x {
        assert(!reached(iset, trs, input, y - 1));
        lemma_sum_skip(iset, trs, input, b, x, y - 1);
    }
}

/// A point at or past the end of interval `k - 1` and before interval `k`
/// (or past the last one) lies in no interval of a normalized set.
proof fn lemma_gap_not_covered(iset: IntervalSet, k: int, v: int)
    requires
        iset.is_normalized(),
        0 <= k <= iset.ivs().len(),
        k > 0 ==> iset.ivs()[k - 1].end <= v,
        k < iset.ivs().len() ==> v < iset.ivs()[k].begin,
    ensures
        !iset.contains_point(v),
{
    let s = iset.ivs();
    if iset.contains_point(v) {
        let j = choose|j: int| 0 <= j < s.len() && #[trigger] s[j].begin <= v < s[j].end;
        if j < k - 1 {
            assert(s[j].end < s[k - 1].begin);
            assert(s[k - 1].begin < s[k - 1].end);
        } else if j > k {
            assert(s[k].end < s[j].begin);
            assert(s[k].begin < s[k].end);
        }
    }
}

} // verus!
