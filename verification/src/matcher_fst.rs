use vstd::prelude::*;

use std::marker::PhantomData;
use std::sync::Arc;

use crate::add_on::FstAddOn;
use crate::fst::{count_eps, label_of, tr_label, FstError, Tr, VectorFst};
use crate::label_reachable::{map_extends, relabel_tr, LabelReachableData};
use crate::lookahead_matchers::LookaheadMatcher;
use crate::matchers::MatchType;
use crate::semirings::Semiring;
use crate::tr_sort::{sort_trs, sort_trs_by_label};
use crate::{Label, StateId, EPS_LABEL};

verus! {

/// The transitions of each state of `f` are those of `o`, relabeled with `m`
/// on the chosen side and sorted by that label.
pub open spec fn relabeled_fst<W>(f: VectorFst<W>, o: VectorFst<W>, m: Map<Label, Label>, input: bool) -> bool {
    &&& f.states@.len() == o.states@.len()
    &&& f.start_state == o.start_state
    &&& forall|s: int| 0 <= s < f.states@.len() ==> (#[trigger] f.states@[s]).final_weight == o.states@[s].final_weight
        && f.states@[s].trs@ == sort_trs(o.states@[s].trs@.map_values(|tr: Tr<W>| relabel_tr(tr, m, input)), input)
}

/// Every non-epsilon label of `f` on the side of the first data present has an index there.
pub open spec fn labels_indexed<W>(f: VectorFst<W>, addon: (Option<LabelReachableData>, Option<LabelReachableData>), first: bool) -> bool {
    if first {
        addon.0 matches Some(dd) && all_labels_indexed(f, dd.label2index@, true)
    } else {
        addon.1 matches Some(dd) && all_labels_indexed(f, dd.label2index@, false)
    }
}

/// Every non-epsilon label of `f` on the chosen side is a key of `m`.
pub open spec fn all_labels_indexed<W>(f: VectorFst<W>, m: Map<Label, Label>, input: bool) -> bool {
    forall|s: int, k: int| 0 <= s < f.states@.len() && 0 <= k < f.states@[s].trs@.len()
        && tr_label(f.states@[s].trs@[k], input) != EPS_LABEL
        ==> m.contains_key(#[trigger] tr_label(f.states@[s].trs@[k], input))
}

/// Relabeling with a map and with an extension of it agree when every label has an index.
pub proof fn lemma_relabeled_extend<W>(f: VectorFst<W>, o: VectorFst<W>, m1: Map<Label, Label>, m2: Map<Label, Label>, input: bool)
    requires
        relabeled_fst(f, o, m1, input),
        map_extends(m2, m1),
        all_labels_indexed(o, m1, input),
    ensures
        relabeled_fst(f, o, m2, input),
{
    assert forall|s: int| 0 <= s < f.states@.len() implies (#[trigger] f.states@[s]).final_weight == o.states@[s].final_weight
        && f.states@[s].trs@ == sort_trs(o.states@[s].trs@.map_values(|tr: Tr<W>| relabel_tr(tr, m2, input)), input) by {
        let a = o.states@[s].trs@.map_values(|tr: Tr<W>| relabel_tr(tr, m1, input));
        let b = o.states@[s].trs@.map_values(|tr: Tr<W>| relabel_tr(tr, m2, input));
        assert forall|k: int| 0 <= k < a.len() implies a[k] == b[k] by {
            let l = tr_label(o.states@[s].trs@[k], input);
            if l != EPS_LABEL {
                assert(m1.contains_key(l));
            }
        }
        assert(a =~= b);
    }
}

/// `d` is `d0` after relabeling: the same interval sets, side and final
/// label, with label indices that extend those of `d0`.
pub open spec fn data_relabeled(d: LabelReachableData, d0: LabelReachableData) -> bool {
    &&& d.reach_input == d0.reach_input
    &&& d.final_label == d0.final_label
    &&& d.interval_sets@ == d0.interval_sets@
    &&& map_extends(d.label2index@, d0.label2index@)
}

/// Relabels FSTs with the label indices of label reachability data.
pub struct LabelLookAheadRelabeler {}

impl LabelLookAheadRelabeler {
    /// Relabels an FST with the first data present: on the input side with the
    /// input data, else on the output side with the output data.
    pub fn init<W: Semiring>(
        mfst: &mut VectorFst<W>,
        addon: &mut (Option<LabelReachableData>, Option<LabelReachableData>),
    ) -> (r: Result<(), FstError>)
        ensures
            old(addon).0 is None && old(addon).1 is None ==> r == Err::<(), FstError>(FstError::MissingConfig),
            r is Ok && old(addon).0 is Some ==> (final(addon).0 matches Some(d) && relabeled_fst(*final(mfst), *old(mfst), d.label2index@, true)),
            r is Ok && old(addon).0 is None ==> (final(addon).1 matches Some(d) && relabeled_fst(*final(mfst), *old(mfst), d.label2index@, false)),
            old(addon).0 is None ==> final(addon).0 is None,
            r is Ok ==> labels_indexed(*old(mfst), *final(addon), old(addon).0 is Some),
            old(addon).0 is Some ==> final(addon).0 is Some && final(addon).1 == old(addon).1,
            old(addon).0 is None ==> final(addon).1 is Some == old(addon).1 is Some,
            old(addon).0 is Some && final(addon).0->0.label2index@.len() < usize::MAX ==> r is Ok,
            old(addon).0 is None && old(addon).1 is Some && final(addon).1->0.label2index@.len() < usize::MAX ==> r is Ok,
            r is Ok && old(addon).0 is Some ==> (final(addon).0 matches Some(d) && old(addon).0 matches Some(o) && data_relabeled(d, o)),
            r is Ok && old(addon).0 is None ==> (final(addon).1 matches Some(d) && old(addon).1 matches Some(o) && data_relabeled(d, o)),
            r is Err ==> r == Err::<(), FstError>(FstError::MissingConfig) && old(addon).0 is None && old(addon).1 is None
                || r == Err::<(), FstError>(FstError::TooManyStates),
    {
        match &mut addon.0 {
            Some(reachable_data) => {
                reachable_data.relabel_fst(mfst, true)?;
                return Ok(());
            },
            None => {},
        }
        match &mut addon.1 {
            Some(reachable_data) => {
                reachable_data.relabel_fst(mfst, false)?;
                Ok(())
            },
            None => Err(FstError::MissingConfig),
        }
    }

    /// Relabels an FST on the chosen side with the first data present.
    pub fn relabel<W: Semiring>(
        fst: &mut VectorFst<W>,
        addon: &mut (Option<LabelReachableData>, Option<LabelReachableData>),
        relabel_input: bool,
    ) -> (r: Result<(), FstError>)
        ensures
            old(addon).0 is None && old(addon).1 is None ==> r == Err::<(), FstError>(FstError::MissingConfig),
            r is Ok && old(addon).0 is Some ==> (final(addon).0 matches Some(d)
                && relabeled_fst(*final(fst), *old(fst), d.label2index@, relabel_input)),
            r is Ok && old(addon).0 is None ==> (final(addon).1 matches Some(d)
                && relabeled_fst(*final(fst), *old(fst), d.label2index@, relabel_input)),
            old(addon).0 is None ==> final(addon).0 is None,
            r is Ok && old(addon).0 is Some ==> (final(addon).0 matches Some(d) && old(addon).0 matches Some(o)
                && map_extends(d.label2index@, o.label2index@)),
            r is Ok && old(addon).0 is None ==> (final(addon).1 matches Some(d) && old(addon).1 matches Some(o)
                && map_extends(d.label2index@, o.label2index@)),
            old(addon).0 is Some ==> final(addon).0 is Some && final(addon).1 == old(addon).1,
            old(addon).0 is None ==> final(addon).1 is Some == old(addon).1 is Some,
            old(addon).0 is Some && final(addon).0->0.label2index@.len() < usize::MAX ==> r is Ok,
            old(addon).0 is None && old(addon).1 is Some && final(addon).1->0.label2index@.len() < usize::MAX ==> r is Ok,
            r is Ok && old(addon).0 is Some ==> (final(addon).0 matches Some(d) && old(addon).0 matches Some(o) && data_relabeled(d, o)),
            r is Ok && old(addon).0 is None ==> (final(addon).1 matches Some(d) && old(addon).1 matches Some(o) && data_relabeled(d, o)),
            r is Err ==> r == Err::<(), FstError>(FstError::MissingConfig) && old(addon).0 is None && old(addon).1 is None
                || r == Err::<(), FstError>(FstError::TooManyStates),
    {
        match &mut addon.0 {
            Some(reachable_data) => {
                reachable_data.relabel_fst(fst, relabel_input)?;
                return Ok(());
            },
            None => {},
        }
        match &mut addon.1 {
            Some(reachable_data) => {
                reachable_data.relabel_fst(fst, relabel_input)?;
                Ok(())
            },
            None => Err(FstError::MissingConfig),
        }
    }

    /// An FST whose transitions are computed on demand, relabeled with the first
    /// data present.
    pub fn relabel_lazy<W: Semiring>(
        fst: Arc<VectorFst<W>>,
        addon: &mut (Option<LabelReachableData>, Option<LabelReachableData>),
        relabel_input: bool,
    ) -> (r: Result<LookaheadRelabelFstOp<W>, FstError>)
        ensures
            old(addon).0 is None && old(addon).1 is None ==> r == Err::<LookaheadRelabelFstOp<W>, FstError>(FstError::MissingConfig),
            r matches Ok(op) ==> *op.fst == *fst && op.relabel_input == relabel_input
                && (old(addon).0 matches Some(d) ==> op.label_reachable_data.label2index@ == d.label2index@)
                && (old(addon).0 is None ==> (old(addon).1 matches Some(d) && op.label_reachable_data.label2index@ == d.label2index@)),
    {
        match &addon.0 {
            Some(reachable_data) => {
                return Ok(LookaheadRelabelFstOp::new(fst, reachable_data.data_clone(), relabel_input));
            },
            None => {},
        }
        match &addon.1 {
            Some(reachable_data) => Ok(LookaheadRelabelFstOp::new(fst, reachable_data.data_clone(), relabel_input)),
            None => Err(FstError::MissingConfig),
        }
    }
}

/// Computes, state by state, an FST relabeled with label reachability data.
pub struct LookaheadRelabelFstOp<W> {
    pub fst: Arc<VectorFst<W>>,
    pub label_reachable_data: LabelReachableData,
    pub relabel_input: bool,
}

impl<W: Semiring> LookaheadRelabelFstOp<W> {
    pub fn new(fst: Arc<VectorFst<W>>, label_reachable_data: LabelReachableData, relabel_input: bool) -> (r: Self)
        ensures
            *r.fst == *fst,
            r.label_reachable_data == label_reachable_data,
            r.relabel_input == relabel_input,
    {
        LookaheadRelabelFstOp { fst, label_reachable_data, relabel_input }
    }

    pub fn compute_start(&self) -> (r: Result<Option<StateId>, FstError>)
        ensures
            r == Ok::<Option<StateId>, FstError>(self.fst.start_state),
    {
        Ok(self.fst.start())
    }

    /// The transitions of a state, relabeled on the chosen side and sorted by
    /// that label; fails for a missing state or a label without an index.
    pub fn compute_trs(&self, id: StateId) -> (r: Result<Vec<Tr<W>>, FstError>)
        ensures
            id >= self.fst.states@.len() ==> r == Err::<Vec<Tr<W>>, FstError>(FstError::StateOutOfRange),
            id < self.fst.states@.len() && (forall|k: int| 0 <= k < self.fst.states@[id as int].trs@.len()
                ==> #[trigger] tr_label(self.fst.states@[id as int].trs@[k], self.relabel_input) == EPS_LABEL
                || self.label_reachable_data.label2index@.contains_key(tr_label(self.fst.states@[id as int].trs@[k], self.relabel_input)))
                ==> (r matches Ok(v) && v@ == sort_trs(self.fst.states@[id as int].trs@.map_values(
                    |tr: Tr<W>| relabel_tr(tr, self.label_reachable_data.label2index@, self.relabel_input)), self.relabel_input)),
            r is Err && id < self.fst.states@.len() ==> r == Err::<Vec<Tr<W>>, FstError>(FstError::UnknownLabel),
    {
        let trs = self.fst.get_trs(id)?;
        let mut new_trs: Vec<Tr<W>> = Vec::new();
        let mut k: usize = 0;
        let ghost m = self.label_reachable_data.label2index@;
        while k < trs.len()
            invariant
                k <= trs@.len(),
                id < self.fst.states@.len(),
                trs@ == self.fst.states@[id as int].trs@,
                m == self.label_reachable_data.label2index@,
                new_trs@ == trs@.subrange(0, k as int).map_values(|tr: Tr<W>| relabel_tr(tr, m, self.relabel_input)),
            decreases trs@.len() - k,
        {
            let tr = &trs[k];
            let label = self.label_reachable_data.relabel_unmut(label_of(tr, self.relabel_input))?;
            let new_tr = if self.relabel_input {
                Tr { ilabel: label, olabel: tr.olabel, weight: tr.weight.weight_clone(), nextstate: tr.nextstate }
            } else {
                Tr { ilabel: tr.ilabel, olabel: label, weight: tr.weight.weight_clone(), nextstate: tr.nextstate }
            };
            new_trs.push(new_tr);
            k += 1;
            assert(new_trs@ =~= trs@.subrange(0, k as int).map_values(|tr: Tr<W>| relabel_tr(tr, m, self.relabel_input)));
        }
        assert(trs@.subrange(0, k as int) =~= trs@);
        Ok(sort_trs_by_label(new_trs, self.relabel_input))
    }

    pub fn compute_final_weight(&self, id: StateId) -> (r: Result<Option<W>, FstError>)
        ensures
            id < self.fst.states@.len() ==> r == Ok::<Option<W>, FstError>(self.fst.states@[id as int].final_weight),
            id >= self.fst.states@.len() ==> r == Err::<Option<W>, FstError>(FstError::StateOutOfRange),
    {
        self.fst.final_weight(id)
    }
}

/// An FST together with the label reachability data of a lookahead matcher,
/// for its input and output sides, its labels relabeled by that data.
pub struct MatcherFst<W, M> {
    pub fst_add_on: FstAddOn<W, (Option<Arc<LabelReachableData>>, Option<Arc<LabelReachableData>>)>,
    pub matcher: PhantomData<M>,
}

fn share(d: Option<LabelReachableData>) -> (r: Option<Arc<LabelReachableData>>)
    ensures
        d is None ==> r is None,
        d matches Some(v) ==> (r matches Some(a) && *a == v),
{
    match d {
        Some(v) => Some(Arc::new(v)),
        None => None,
    }
}

impl<W: Semiring, M: LookaheadMatcher<W, MatcherData = LabelReachableData>> MatcherFst<W, M> {
    pub fn fst(&self) -> (r: &VectorFst<W>)
        ensures
            *r == self.fst_add_on.fst,
    {
        self.fst_add_on.fst()
    }

    pub fn addon(&self) -> (r: &(Option<Arc<LabelReachableData>>, Option<Arc<LabelReachableData>>))
        ensures
            *r == self.fst_add_on.add_on,
    {
        self.fst_add_on.add_on()
    }

    /// The data for a side: the input one for `MatchInput`, else the output one.
    pub fn data(&self, match_type: MatchType) -> (r: Option<&Arc<LabelReachableData>>)
        ensures
            match_type == MatchType::MatchInput ==> (match self.fst_add_on.add_on.0 {
                Some(d) => r matches Some(x) && *x == d,
                None => r is None,
            }),
            match_type != MatchType::MatchInput ==> (match self.fst_add_on.add_on.1 {
                Some(d) => r matches Some(x) && *x == d,
                None => r is None,
            }),
    {
        let data = self.fst_add_on.add_on();
        if match_type == MatchType::MatchInput {
            data.0.as_ref()
        } else {
            data.1.as_ref()
        }
    }

    /// The FST with the matcher's data for both sides, relabeled by the first.
    pub fn new(fst: VectorFst<W>) -> (r: Result<Self, FstError>)
        requires
            fst.wf(),
        ensures
            r matches Ok(mf) ==> (match mf.fst_add_on.add_on.0 {
                Some(d) => relabeled_fst(mf.fst_add_on.fst, fst, d.label2index@, true),
                None => mf.fst_add_on.add_on.1 matches Some(d) && relabeled_fst(mf.fst_add_on.fst, fst, d.label2index@, false),
            }),
            r matches Ok(mf) ==> (mf.fst_add_on.add_on.0 is Some <==> M::creates_data(MatchType::MatchInput))
                && (mf.fst_add_on.add_on.1 is Some <==> M::creates_data(MatchType::MatchOutput)),
            r matches Ok(mf) ==> (mf.fst_add_on.add_on.0 matches Some(d) ==> exists|d0: LabelReachableData|
                M::data_for(fst, MatchType::MatchInput, d0) && #[trigger] data_relabeled(*d, d0)),
            r matches Ok(mf) ==> (mf.fst_add_on.add_on.1 matches Some(d) ==> exists|d0: LabelReachableData|
                M::data_for(fst, MatchType::MatchOutput, d0) && #[trigger] data_relabeled(*d, d0)),
            M::create_data_ok(fst, MatchType::MatchInput) && M::create_data_ok(fst, MatchType::MatchOutput)
                && !M::creates_data(MatchType::MatchInput) && !M::creates_data(MatchType::MatchOutput)
                ==> r is Err && r->Err_0 == FstError::MissingConfig,
            r is Err && M::create_data_ok(fst, MatchType::MatchInput) && M::create_data_ok(fst, MatchType::MatchOutput)
                ==> r->Err_0 == FstError::MissingConfig || r->Err_0 == FstError::TooManyStates,
    {
        let mut fst = fst;
        let imatcher_data = M::create_data(&fst, MatchType::MatchInput)?;
        let omatcher_data = M::create_data(&fst, MatchType::MatchOutput)?;
        let mut add_on = (imatcher_data, omatcher_data);
        let ghost a0 = add_on;
        LabelLookAheadRelabeler::init(&mut fst, &mut add_on)?;
        let ghost a1 = add_on;
        proof {
            if a1.0 is Some {
                assert(data_relabeled(a1.0->0, a0.0->0));
            }
            if a1.1 is Some {
                if a0.0 is None {
                    assert(data_relabeled(a1.1->0, a0.1->0));
                } else {
                    assert(a1.1->0.label2index@ == a0.1->0.label2index@);
                    assert(data_relabeled(a1.1->0, a0.1->0));
                }
            }
        }
        let add_on = (share(add_on.0), share(add_on.1));
        let fst_add_on = FstAddOn::new(fst, add_on, String::new());
        Ok(MatcherFst { fst_add_on, matcher: PhantomData })
    }

    /// The FST with the matcher's data, relabeled by it, and `fst2` relabeled by
    /// the same data on the chosen side, for lookahead composition.
    pub fn new_with_relabeling(fst: VectorFst<W>, fst2: &mut VectorFst<W>, relabel_input: bool) -> (r: Result<Self, FstError>)
        requires
            fst.wf(),
        ensures
            r matches Ok(mf) ==> (match mf.fst_add_on.add_on.0 {
                Some(d) => relabeled_fst(mf.fst_add_on.fst, fst, d.label2index@, true),
                None => mf.fst_add_on.add_on.1 matches Some(d) && relabeled_fst(mf.fst_add_on.fst, fst, d.label2index@, false),
            }),
            r matches Ok(mf) ==> (mf.fst_add_on.add_on.0 is Some <==> M::creates_data(MatchType::MatchInput))
                && (mf.fst_add_on.add_on.1 is Some <==> M::creates_data(MatchType::MatchOutput)),
            r matches Ok(mf) ==> (mf.fst_add_on.add_on.0 matches Some(d) ==> exists|d0: LabelReachableData|
                M::data_for(fst, MatchType::MatchInput, d0) && #[trigger] data_relabeled(*d, d0)),
            r matches Ok(mf) ==> (mf.fst_add_on.add_on.1 matches Some(d) ==> exists|d0: LabelReachableData|
                M::data_for(fst, MatchType::MatchOutput, d0) && #[trigger] data_relabeled(*d, d0)),
            r matches Ok(mf) ==> (match mf.fst_add_on.add_on.0 {
                Some(d) => relabeled_fst(*final(fst2), *old(fst2), d.label2index@, relabel_input),
                None => mf.fst_add_on.add_on.1 matches Some(d) && relabeled_fst(*final(fst2), *old(fst2), d.label2index@, relabel_input),
            }),
            M::create_data_ok(fst, MatchType::MatchInput) && M::create_data_ok(fst, MatchType::MatchOutput)
                && !M::creates_data(MatchType::MatchInput) && !M::creates_data(MatchType::MatchOutput)
                ==> r is Err && r->Err_0 == FstError::MissingConfig,
            r is Err && M::create_data_ok(fst, MatchType::MatchInput) && M::create_data_ok(fst, MatchType::MatchOutput)
                ==> r->Err_0 == FstError::MissingConfig || r->Err_0 == FstError::TooManyStates,
    {
        let mut fst = fst;
        let imatcher_data = M::create_data(&fst, MatchType::MatchInput)?;
        let omatcher_data = M::create_data(&fst, MatchType::MatchOutput)?;
        let mut add_on = (imatcher_data, omatcher_data);
        let ghost fst0 = fst;
        let ghost a0 = add_on;
        let ghost first = add_on.0 is Some;
        LabelLookAheadRelabeler::init(&mut fst, &mut add_on)?;
        let ghost after_init = add_on;
        LabelLookAheadRelabeler::relabel(fst2, &mut add_on, relabel_input)?;
        let ghost a2 = add_on;
        proof {
            if a2.0 is Some {
                assert(data_relabeled(after_init.0->0, a0.0->0));
                assert(data_relabeled(a2.0->0, a0.0->0));
            }
            if a2.1 is Some {
                if a0.0 is None {
                    assert(data_relabeled(after_init.1->0, a0.1->0));
                    assert(data_relabeled(a2.1->0, a0.1->0));
                } else {
                    assert(a2.1->0.label2index@ == a0.1->0.label2index@);
                    assert(data_relabeled(a2.1->0, a0.1->0));
                }
            }
            assert(labels_indexed(fst0, after_init, first));
            if first {
                lemma_relabeled_extend(fst, fst0, after_init.0->0.label2index@, add_on.0->0.label2index@, true);
            } else {
                lemma_relabeled_extend(fst, fst0, after_init.1->0.label2index@, add_on.1->0.label2index@, false);
            }
        }
        let add_on = (share(add_on.0), share(add_on.1));
        let fst_add_on = FstAddOn::new(fst, add_on, String::new());
        Ok(MatcherFst { fst_add_on, matcher: PhantomData })
    }

    pub fn start(&self) -> (r: Option<StateId>)
        ensures
            r == self.fst_add_on.fst.start_state,
    {
        self.fst_add_on.start()
    }

    pub fn final_weight(&self, state_id: StateId) -> (r: Result<Option<W>, FstError>)
        ensures
            state_id < self.fst_add_on.fst.states@.len() ==> r == Ok::<Option<W>, FstError>(self.fst_add_on.fst.states@[state_id as int].final_weight),
            state_id >= self.fst_add_on.fst.states@.len() ==> r == Err::<Option<W>, FstError>(FstError::StateOutOfRange),
    {
        self.fst_add_on.final_weight(state_id)
    }

    pub fn num_trs(&self, s: StateId) -> (r: Result<usize, FstError>)
        ensures
            s < self.fst_add_on.fst.states@.len() ==> r == Ok::<usize, FstError>(self.fst_add_on.fst.states@[s as int].trs@.len() as usize),
            s >= self.fst_add_on.fst.states@.len() ==> r == Err::<usize, FstError>(FstError::StateOutOfRange),
    {
        self.fst_add_on.num_trs(s)
    }

    pub fn get_trs(&self, state_id: StateId) -> (r: Result<&Vec<Tr<W>>, FstError>)
        ensures
            state_id < self.fst_add_on.fst.states@.len() ==> (r matches Ok(v) && v@ == self.fst_add_on.fst.states@[state_id as int].trs@),
            state_id >= self.fst_add_on.fst.states@.len() ==> r == Err::<&Vec<Tr<W>>, FstError>(FstError::StateOutOfRange),
    {
        self.fst_add_on.get_trs(state_id)
    }

    pub fn num_input_epsilons(&self, state: StateId) -> (r: Result<usize, FstError>)
        ensures
            state < self.fst_add_on.fst.states@.len() ==> (r matches Ok(n) && n == count_eps(self.fst_add_on.fst.states@[state as int].trs@, true)),
            state >= self.fst_add_on.fst.states@.len() ==> r is Err,
    {
        self.fst_add_on.num_input_epsilons(state)
    }

    pub fn num_output_epsilons(&self, state: StateId) -> (r: Result<usize, FstError>)
        ensures
            state < self.fst_add_on.fst.states@.len() ==> (r matches Ok(n) && n == count_eps(self.fst_add_on.fst.states@[state as int].trs@, false)),
            state >= self.fst_add_on.fst.states@.len() ==> r is Err,
    {
        self.fst_add_on.num_output_epsilons(state)
    }

    pub fn num_states(&self) -> (n: usize)
        ensures
            n == self.fst_add_on.fst.states@.len(),
    {
        self.fst_add_on.num_states()
    }
}

} // verus!
