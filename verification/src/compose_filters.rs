use vstd::prelude::*;

use std::sync::Arc;

use crate::filter_states::{FilterState, IntegerFilterState, TrivialFilterState};
use crate::fst::{count_eps, FstError, Tr, VectorFst};
use crate::matchers::{MatchType, Matcher};
use crate::semirings::Semiring;
use crate::shared::arc_clone;
use crate::{StateId, EPS_LABEL, NO_LABEL, NO_STATE_ID};

verus! {

/// Composition filters determine which matches are allowed to proceed. The
/// filter's state is represented by the type `ComposeFilter::FS`.
pub trait ComposeFilter<W: Semiring, M1: Matcher<W>, M2: Matcher<W>>: Sized {
    type FS: FilterState;

    spec fn matcher1_spec(&self) -> M1;

    spec fn matcher2_spec(&self) -> M2;

    /// What `start` returns.
    spec fn start_spec(&self) -> Self::FS;

    /// The filter may be used: what its matchers need holds.
    spec fn filter_inv(&self) -> bool;

    fn start(&self) -> (r: Self::FS)
        ensures
            r == self.start_spec(),
    ;

    /// Whether `set_state` and `filter_tr` leave the matchers unchanged.
    spec fn matchers_fixed_spec() -> bool;

    fn matchers_fixed() -> (b: bool)
        ensures
            b == Self::matchers_fixed_spec(),
    ;

    /// The arguments on which `set_state` is sure to succeed.
    spec fn set_state_ok(&self, s1: StateId, s2: StateId, filter_state: Self::FS) -> bool;

    /// The transitions on which `filter_tr` is sure to succeed.
    spec fn filter_tr_ok(&self, arc1: Tr<W>, arc2: Tr<W>) -> bool;

    /// The final weights on which `filter_final` is sure to succeed.
    spec fn filter_final_ok(&self, w1: W, w2: W) -> bool;

    fn set_state(&mut self, s1: StateId, s2: StateId, filter_state: &Self::FS) -> (r: Result<(), FstError>)
        requires
            old(self).filter_inv(),
        ensures
            old(self).set_state_ok(s1, s2, *filter_state) ==> r is Ok,
            Self::matchers_fixed_spec() ==> final(self).matcher1_spec() == old(self).matcher1_spec(),
            Self::matchers_fixed_spec() ==> final(self).matcher2_spec() == old(self).matcher2_spec(),
            usable_kept(old(self).matcher1_spec(), final(self).matcher1_spec()),
            usable_kept(old(self).matcher2_spec(), final(self).matcher2_spec()),
            final(self).start_spec() == old(self).start_spec(),
            final(self).filter_inv(),
    ;

    fn filter_tr(&mut self, arc1: &mut Tr<W>, arc2: &mut Tr<W>) -> (r: Result<Self::FS, FstError>)
        requires
            old(self).filter_inv(),
        ensures
            old(self).filter_tr_ok(*old(arc1), *old(arc2)) ==> r is Ok,
            Self::matchers_fixed_spec() ==> final(self).matcher1_spec() == old(self).matcher1_spec(),
            Self::matchers_fixed_spec() ==> final(self).matcher2_spec() == old(self).matcher2_spec(),
            usable_kept(old(self).matcher1_spec(), final(self).matcher1_spec()),
            usable_kept(old(self).matcher2_spec(), final(self).matcher2_spec()),
            final(self).start_spec() == old(self).start_spec(),
            final(self).filter_inv(),
            Self::keeps_arcs_spec() ==> *final(arc1) == *old(arc1) && *final(arc2) == *old(arc2),
            Self::passes_labels() && old(arc1).olabel == old(arc2).ilabel && old(arc1).olabel != EPS_LABEL
                && old(arc1).olabel != NO_LABEL ==> (r matches Ok(fs) ==> fs != <Self::FS as FilterState>::no_state_spec()),
    ;

    /// Whether the filter lets through every pair of transitions that share a
    /// label other than epsilon and `NO_LABEL`.
    spec fn passes_labels() -> bool;

    fn filter_final(&self, w1: &mut W, w2: &mut W) -> (r: Result<(), FstError>)
        requires
            self.filter_inv(),
        ensures
            self.filter_final_ok(*old(w1), *old(w2)) ==> r is Ok,
            Self::keeps_arcs_spec() ==> *final(w1) == *old(w1) && *final(w2) == *old(w2),
    ;

    /// Whether the filter leaves the transitions and final weights it is
    /// given as they are.
    spec fn keeps_arcs_spec() -> bool;

    fn matcher1(&self) -> (r: &M1)
        ensures
            *r == self.matcher1_spec(),
    ;

    fn matcher2(&self) -> (r: &M2)
        ensures
            *r == self.matcher2_spec(),
    ;

    /// The first matcher, shared, when the filter can share it.
    fn matcher1_shared(&self) -> (r: Option<Arc<M1>>)
        ensures
            r matches Some(a) && *a == self.matcher1_spec(),
    ;

    /// The second matcher, shared, when the filter can share it.
    fn matcher2_shared(&self) -> (r: Option<Arc<M2>>)
        ensures
            r matches Some(a) && *a == self.matcher2_spec(),
    ;
}

/// A matcher that was usable before still is, on the same FST.
pub open spec fn usable_kept<W: Semiring, M: Matcher<W>>(before: M, after: M) -> bool {
    &&& before.wf() ==> after.wf()
    &&& before.can_iter() ==> after.can_iter()
    &&& after.fst_spec() == before.fst_spec()
}

/// Builds composition filters that share the same matchers.
pub trait ComposeFilterBuilder<W: Semiring, M1: Matcher<W>, M2: Matcher<W>>: Sized {
    type CF: ComposeFilter<W, M1, M2>;

    spec fn matcher1_spec(&self) -> M1;

    spec fn matcher2_spec(&self) -> M2;

    /// Filters built from the builder may be used.
    spec fn builder_inv(&self) -> bool;

    /// Whether `new` keeps the matchers it is given unchanged.
    spec fn keeps_matchers_spec() -> bool;

    /// The inputs on which `new` is sure to succeed.
    spec fn new_ok(fst1: VectorFst<W>, fst2: VectorFst<W>, matcher1: Option<M1>, matcher2: Option<M2>) -> bool;

    /// Whether `build` is sure to succeed.
    spec fn build_ok(&self) -> bool;

    fn keeps_matchers() -> (b: bool)
        ensures
            b == Self::keeps_matchers_spec(),
    ;

    fn new(
        fst1: Arc<VectorFst<W>>,
        fst2: Arc<VectorFst<W>>,
        matcher1: Option<M1>,
        matcher2: Option<M2>,
    ) -> (r: Result<Self, FstError>)
        requires
            matcher1 matches Some(m) ==> m.wf(),
            matcher2 matches Some(m) ==> m.wf(),
        ensures
            r matches Ok(b) ==> (matcher1 matches Some(m) ==> b.matcher1_spec().wf() && b.matcher1_spec().fst_spec() == m.fst_spec())
                && (matcher1 is None ==> b.matcher1_spec().wf() && b.matcher1_spec().fst_spec() == *fst1)
                && (matcher2 matches Some(m) ==> b.matcher2_spec().wf() && b.matcher2_spec().fst_spec() == m.fst_spec())
                && (matcher2 is None ==> b.matcher2_spec().wf() && b.matcher2_spec().fst_spec() == *fst2),
            Self::keeps_matchers_spec() ==> (r matches Ok(b) ==> (matcher1 matches Some(m) ==> b.matcher1_spec() == m)
                && (matcher2 matches Some(m) ==> b.matcher2_spec() == m)),
            r matches Ok(b) ==> b.builder_inv(),
            Self::new_ok(*fst1, *fst2, matcher1, matcher2) ==> (r matches Ok(b) && b.build_ok()),
    ;

    fn build(&self) -> (r: Result<Self::CF, FstError>)
        requires
            self.builder_inv(),
        ensures
            r matches Ok(cf) ==> cf.matcher1_spec() == self.matcher1_spec() && cf.matcher2_spec() == self.matcher2_spec() && cf.filter_inv(),
            self.build_ok() ==> r is Ok,
    ;
}

/// The matchers given, or else matchers that are sure to be created: the
/// first on outputs of `fst1`, the second on inputs of `fst2`.
pub open spec fn default_ok<W: Semiring, M1: Matcher<W>, M2: Matcher<W>>(
    fst1: VectorFst<W>,
    fst2: VectorFst<W>,
    matcher1: Option<M1>,
    matcher2: Option<M2>,
) -> bool {
    &&& (matcher1 is Some || M1::new_ok(fst1, MatchType::MatchOutput))
    &&& (matcher2 is Some || M2::new_ok(fst2, MatchType::MatchInput))
}

/// The matchers a builder creates when none is given.
fn default_matchers<W: Semiring, M1: Matcher<W>, M2: Matcher<W>>(
    fst1: Arc<VectorFst<W>>,
    fst2: Arc<VectorFst<W>>,
    matcher1: Option<M1>,
    matcher2: Option<M2>,
) -> (r: Result<(Arc<M1>, Arc<M2>), FstError>)
    ensures
        r matches Ok(p) ==> (matcher1 matches Some(m) ==> *p.0 == m) && (matcher1 is None ==> p.0.wf() && p.0.fst_spec() == *fst1)
            && (matcher2 matches Some(m) ==> *p.1 == m) && (matcher2 is None ==> p.1.wf() && p.1.fst_spec() == *fst2),
        default_ok::<W, M1, M2>(*fst1, *fst2, matcher1, matcher2) ==> r is Ok,
{
    let m1 = match matcher1 {
        Some(m) => m,
        None => M1::new(fst1, MatchType::MatchOutput)?,
    };
    let m2 = match matcher2 {
        Some(m) => m,
        None => M2::new(fst2, MatchType::MatchInput)?,
    };
    Ok((Arc::new(m1), Arc::new(m2)))
}

/// What a sequence filter answers: epsilons on FST1 are read before epsilons on FST2.
pub open spec fn sequence_filter_spec<W>(arc1: Tr<W>, arc2: Tr<W>, fs: IntegerFilterState, alleps1: bool, noeps1: bool) -> IntegerFilterState {
    if arc1.olabel == NO_LABEL {
        if alleps1 {
            IntegerFilterState { state: NO_STATE_ID }
        } else if noeps1 {
            IntegerFilterState { state: 0 }
        } else {
            IntegerFilterState { state: 1 }
        }
    } else if arc2.ilabel == NO_LABEL {
        if fs.state != 0 {
            IntegerFilterState { state: NO_STATE_ID }
        } else {
            IntegerFilterState { state: 0 }
        }
    } else if arc1.olabel == EPS_LABEL {
        IntegerFilterState { state: NO_STATE_ID }
    } else {
        IntegerFilterState { state: 0 }
    }
}

/// This filter requires epsilons on FST1 to be read before epsilons on FST2.
#[derive(Debug)]
pub struct SequenceComposeFilter<M1, M2> {
    pub matcher1: Arc<M1>,
    pub matcher2: Arc<M2>,
    /// Current fst1 state
    pub s1: StateId,
    /// Current fst2 state
    pub s2: StateId,
    /// Current filter state
    pub fs: IntegerFilterState,
    /// Only epsilons (and non-final) leaving s1 ?
    pub alleps1: bool,
    /// No epsilons leaving s1 ?
    pub noeps1: bool,
}

/// Builds sequence filters.
#[derive(Debug)]
pub struct SequenceComposeFilterBuilder<M1, M2> {
    pub matcher1: Arc<M1>,
    pub matcher2: Arc<M2>,
}

impl<W: Semiring, M1: Matcher<W>, M2: Matcher<W>> ComposeFilterBuilder<W, M1, M2> for SequenceComposeFilterBuilder<M1, M2> {
    type CF = SequenceComposeFilter<M1, M2>;

    open spec fn builder_inv(&self) -> bool {
        true
    }

    open spec fn keeps_matchers_spec() -> bool {
        true
    }

    fn keeps_matchers() -> (b: bool) {
        true
    }

    open spec fn new_ok(fst1: VectorFst<W>, fst2: VectorFst<W>, matcher1: Option<M1>, matcher2: Option<M2>) -> bool {
        default_ok::<W, M1, M2>(fst1, fst2, matcher1, matcher2)
    }

    open spec fn build_ok(&self) -> bool {
        true
    }

    open spec fn matcher1_spec(&self) -> M1 {
        *self.matcher1
    }

    open spec fn matcher2_spec(&self) -> M2 {
        *self.matcher2
    }

    fn new(
        fst1: Arc<VectorFst<W>>,
        fst2: Arc<VectorFst<W>>,
        matcher1: Option<M1>,
        matcher2: Option<M2>,
    ) -> (r: Result<Self, FstError>) {
        let (m1, m2) = default_matchers(fst1, fst2, matcher1, matcher2)?;
        Ok(SequenceComposeFilterBuilder { matcher1: m1, matcher2: m2 })
    }

    fn build(&self) -> (r: Result<Self::CF, FstError>) {
        Ok(SequenceComposeFilter {
            matcher1: arc_clone(&self.matcher1),
            matcher2: arc_clone(&self.matcher2),
            s1: NO_STATE_ID,
            s2: NO_STATE_ID,
            fs: IntegerFilterState::new_no_state(),
            alleps1: false,
            noeps1: false,
        })
    }
}

impl<W: Semiring, M1: Matcher<W>, M2: Matcher<W>> ComposeFilter<W, M1, M2> for SequenceComposeFilter<M1, M2> {
    type FS = IntegerFilterState;

    open spec fn set_state_ok(&self, s1: StateId, s2: StateId, filter_state: IntegerFilterState) -> bool {
        s1 < self.matcher1.fst_spec().states@.len()
    }

    open spec fn filter_tr_ok(&self, arc1: Tr<W>, arc2: Tr<W>) -> bool {
        true
    }

    open spec fn filter_final_ok(&self, w1: W, w2: W) -> bool {
        true
    }

    open spec fn filter_inv(&self) -> bool {
        true
    }

    open spec fn matcher1_spec(&self) -> M1 {
        *self.matcher1
    }

    open spec fn matcher2_spec(&self) -> M2 {
        *self.matcher2
    }

    open spec fn start_spec(&self) -> IntegerFilterState {
        IntegerFilterState { state: 0 }
    }

    fn start(&self) -> (r: IntegerFilterState) {
        IntegerFilterState::new(0)
    }

    fn set_state(&mut self, s1: StateId, s2: StateId, filter_state: &IntegerFilterState) -> (r: Result<(), FstError>)
        ensures
            r is Ok ==> final(self).s1 == s1 && final(self).s2 == s2 && final(self).fs == *filter_state,
            r is Ok ==> (final(self).alleps1 == (old(self).matcher1.fst_spec().states@[s1 as int].trs@.len() == count_eps(old(self).matcher1.fst_spec().states@[s1 as int].trs@, false)
                && old(self).matcher1.fst_spec().states@[s1 as int].final_weight is None)
                && final(self).noeps1 == (count_eps(old(self).matcher1.fst_spec().states@[s1 as int].trs@, false) == 0)
                || (old(self).s1 == s1 && old(self).s2 == s2 && old(self).fs == *filter_state && *final(self) == *old(self))),
            r is Err ==> s1 >= old(self).matcher1.fst_spec().states@.len(),
    {
        if !(self.s1 == s1 && self.s2 == s2 && self.fs == *filter_state) {
            let fst1 = self.matcher1.fst();
            let na1 = fst1.num_trs(s1)?;
            let ne1 = fst1.num_output_epsilons(s1)?;
            let fin1 = fst1.is_final(s1)?;
            self.s1 = s1;
            self.s2 = s2;
            self.fs = *filter_state;
            self.alleps1 = na1 == ne1 && !fin1;
            self.noeps1 = ne1 == 0;
        }
        Ok(())
    }

    fn filter_tr(&mut self, arc1: &mut Tr<W>, arc2: &mut Tr<W>) -> (r: Result<IntegerFilterState, FstError>)
        ensures
            r == Ok::<IntegerFilterState, FstError>(sequence_filter_spec(*old(arc1), *old(arc2), old(self).fs, old(self).alleps1, old(self).noeps1)),
            *final(self) == *old(self),
            *final(arc1) == *old(arc1),
            *final(arc2) == *old(arc2),
    {
        let res = if arc1.olabel == NO_LABEL {
            if self.alleps1 {
                IntegerFilterState::new_no_state()
            } else if self.noeps1 {
                IntegerFilterState::new(0)
            } else {
                IntegerFilterState::new(1)
            }
        } else if arc2.ilabel == NO_LABEL {
            if self.fs.state != 0 {
                IntegerFilterState::new_no_state()
            } else {
                IntegerFilterState::new(0)
            }
        } else if arc1.olabel == EPS_LABEL {
            IntegerFilterState::new_no_state()
        } else {
            IntegerFilterState::new(0)
        };
        Ok(res)
    }

    fn filter_final(&self, w1: &mut W, w2: &mut W) -> (r: Result<(), FstError>)
        ensures
            r is Ok && *final(w1) == *old(w1) && *final(w2) == *old(w2),
    {
        Ok(())
    }

    fn matcher1(&self) -> (r: &M1) {
        &self.matcher1
    }

    fn matcher2(&self) -> (r: &M2) {
        &self.matcher2
    }

    fn matcher1_shared(&self) -> (r: Option<Arc<M1>>) {
        Some(arc_clone(&self.matcher1))
    }

    fn matcher2_shared(&self) -> (r: Option<Arc<M2>>) {
        Some(arc_clone(&self.matcher2))
    }

    open spec fn matchers_fixed_spec() -> bool {
        true
    }

    fn matchers_fixed() -> (b: bool) {
        true
    }

    open spec fn keeps_arcs_spec() -> bool {
        true
    }

    open spec fn passes_labels() -> bool {
        true
    }
}

/// What an alternative sequence filter answers: epsilons on FST2 are read before epsilons on FST1.
pub open spec fn alt_sequence_filter_spec<W>(arc1: Tr<W>, arc2: Tr<W>, fs: IntegerFilterState, alleps2: bool, noeps2: bool) -> IntegerFilterState {
    if arc2.ilabel == NO_LABEL {
        if alleps2 {
            IntegerFilterState { state: NO_STATE_ID }
        } else if noeps2 {
            IntegerFilterState { state: 0 }
        } else {
            IntegerFilterState { state: 1 }
        }
    } else if arc1.olabel == NO_LABEL {
        if fs.state == 1 {
            IntegerFilterState { state: NO_STATE_ID }
        } else {
            IntegerFilterState { state: 0 }
        }
    } else if arc1.olabel == EPS_LABEL {
        IntegerFilterState { state: NO_STATE_ID }
    } else {
        IntegerFilterState { state: 0 }
    }
}

/// This filter requires epsilons on FST2 to be read before epsilons on FST1.
#[derive(Debug)]
pub struct AltSequenceComposeFilter<M1, M2> {
    pub matcher1: Arc<M1>,
    pub matcher2: Arc<M2>,
    /// Current fst1 state
    pub s1: StateId,
    /// Current fst2 state
    pub s2: StateId,
    /// Current filter state
    pub fs: IntegerFilterState,
    /// Only epsilons (and non-final) leaving s2 ?
    pub alleps2: bool,
    /// No epsilons leaving s2 ?
    pub noeps2: bool,
}

/// Builds alternative sequence filters.
#[derive(Debug)]
pub struct AltSequenceComposeFilterBuilder<M1, M2> {
    pub matcher1: Arc<M1>,
    pub matcher2: Arc<M2>,
}

impl<W: Semiring, M1: Matcher<W>, M2: Matcher<W>> ComposeFilterBuilder<W, M1, M2> for AltSequenceComposeFilterBuilder<M1, M2> {
    type CF = AltSequenceComposeFilter<M1, M2>;

    open spec fn builder_inv(&self) -> bool {
        true
    }

    open spec fn keeps_matchers_spec() -> bool {
        true
    }

    fn keeps_matchers() -> (b: bool) {
        true
    }

    open spec fn new_ok(fst1: VectorFst<W>, fst2: VectorFst<W>, matcher1: Option<M1>, matcher2: Option<M2>) -> bool {
        default_ok::<W, M1, M2>(fst1, fst2, matcher1, matcher2)
    }

    open spec fn build_ok(&self) -> bool {
        true
    }

    open spec fn matcher1_spec(&self) -> M1 {
        *self.matcher1
    }

    open spec fn matcher2_spec(&self) -> M2 {
        *self.matcher2
    }

    fn new(
        fst1: Arc<VectorFst<W>>,
        fst2: Arc<VectorFst<W>>,
        matcher1: Option<M1>,
        matcher2: Option<M2>,
    ) -> (r: Result<Self, FstError>) {
        let (m1, m2) = default_matchers(fst1, fst2, matcher1, matcher2)?;
        Ok(AltSequenceComposeFilterBuilder { matcher1: m1, matcher2: m2 })
    }

    fn build(&self) -> (r: Result<Self::CF, FstError>) {
        Ok(AltSequenceComposeFilter {
            matcher1: arc_clone(&self.matcher1),
            matcher2: arc_clone(&self.matcher2),
            s1: NO_STATE_ID,
            s2: NO_STATE_ID,
            fs: IntegerFilterState::new_no_state(),
            alleps2: false,
            noeps2: false,
        })
    }
}

impl<W: Semiring, M1: Matcher<W>, M2: Matcher<W>> ComposeFilter<W, M1, M2> for AltSequenceComposeFilter<M1, M2> {
    type FS = IntegerFilterState;

    open spec fn set_state_ok(&self, s1: StateId, s2: StateId, filter_state: IntegerFilterState) -> bool {
        s2 < self.matcher2.fst_spec().states@.len()
    }

    open spec fn filter_tr_ok(&self, arc1: Tr<W>, arc2: Tr<W>) -> bool {
        true
    }

    open spec fn filter_final_ok(&self, w1: W, w2: W) -> bool {
        true
    }

    open spec fn filter_inv(&self) -> bool {
        true
    }

    open spec fn matcher1_spec(&self) -> M1 {
        *self.matcher1
    }

    open spec fn matcher2_spec(&self) -> M2 {
        *self.matcher2
    }

    open spec fn start_spec(&self) -> IntegerFilterState {
        IntegerFilterState { state: 0 }
    }

    fn start(&self) -> (r: IntegerFilterState) {
        IntegerFilterState::new(0)
    }

    fn set_state(&mut self, s1: StateId, s2: StateId, filter_state: &IntegerFilterState) -> (r: Result<(), FstError>)
        ensures
            r is Ok ==> final(self).s1 == s1 && final(self).s2 == s2 && final(self).fs == *filter_state,
            r is Ok ==> (final(self).alleps2 == (old(self).matcher2.fst_spec().states@[s2 as int].trs@.len() == count_eps(old(self).matcher2.fst_spec().states@[s2 as int].trs@, true)
                && old(self).matcher2.fst_spec().states@[s2 as int].final_weight is None)
                && final(self).noeps2 == (count_eps(old(self).matcher2.fst_spec().states@[s2 as int].trs@, true) == 0)
                || (old(self).s1 == s1 && old(self).s2 == s2 && old(self).fs == *filter_state && *final(self) == *old(self))),
            r is Err ==> s2 >= old(self).matcher2.fst_spec().states@.len(),
    {
        if !(self.s1 == s1 && self.s2 == s2 && self.fs == *filter_state) {
            let fst2 = self.matcher2.fst();
            let na2 = fst2.num_trs(s2)?;
            let ne2 = fst2.num_input_epsilons(s2)?;
            let fin2 = fst2.is_final(s2)?;
            self.s1 = s1;
            self.s2 = s2;
            self.fs = *filter_state;
            self.alleps2 = na2 == ne2 && !fin2;
            self.noeps2 = ne2 == 0;
        }
        Ok(())
    }

    fn filter_tr(&mut self, arc1: &mut Tr<W>, arc2: &mut Tr<W>) -> (r: Result<IntegerFilterState, FstError>)
        ensures
            r == Ok::<IntegerFilterState, FstError>(alt_sequence_filter_spec(*old(arc1), *old(arc2), old(self).fs, old(self).alleps2, old(self).noeps2)),
            *final(self) == *old(self),
            *final(arc1) == *old(arc1),
            *final(arc2) == *old(arc2),
    {
        let res = if arc2.ilabel == NO_LABEL {
            if self.alleps2 {
                IntegerFilterState::new_no_state()
            } else if self.noeps2 {
                IntegerFilterState::new(0)
            } else {
                IntegerFilterState::new(1)
            }
        } else if arc1.olabel == NO_LABEL {
            if self.fs.state == 1 {
                IntegerFilterState::new_no_state()
            } else {
                IntegerFilterState::new(0)
            }
        } else if arc1.olabel == EPS_LABEL {
            IntegerFilterState::new_no_state()
        } else {
            IntegerFilterState::new(0)
        };
        Ok(res)
    }

    fn filter_final(&self, w1: &mut W, w2: &mut W) -> (r: Result<(), FstError>)
        ensures
            r is Ok && *final(w1) == *old(w1) && *final(w2) == *old(w2),
    {
        Ok(())
    }

    fn matcher1(&self) -> (r: &M1) {
        &self.matcher1
    }

    fn matcher2(&self) -> (r: &M2) {
        &self.matcher2
    }

    fn matcher1_shared(&self) -> (r: Option<Arc<M1>>) {
        Some(arc_clone(&self.matcher1))
    }

    fn matcher2_shared(&self) -> (r: Option<Arc<M2>>) {
        Some(arc_clone(&self.matcher2))
    }

    open spec fn matchers_fixed_spec() -> bool {
        true
    }

    fn matchers_fixed() -> (b: bool) {
        true
    }

    open spec fn keeps_arcs_spec() -> bool {
        true
    }

    open spec fn passes_labels() -> bool {
        true
    }
}

/// What a match filter answers: epsilon moves on each side are matched against each other first.
pub open spec fn match_filter_spec<W>(
    arc1: Tr<W>,
    arc2: Tr<W>,
    fs: IntegerFilterState,
    alleps1: bool,
    alleps2: bool,
    noeps1: bool,
    noeps2: bool,
) -> IntegerFilterState {
    if arc2.ilabel == NO_LABEL {
        if fs.state == 0 {
            if noeps2 {
                IntegerFilterState { state: 0 }
            } else if alleps2 {
                IntegerFilterState { state: NO_STATE_ID }
            } else {
                IntegerFilterState { state: 1 }
            }
        } else if fs.state == 1 {
            IntegerFilterState { state: 1 }
        } else {
            IntegerFilterState { state: NO_STATE_ID }
        }
    } else if arc1.olabel == NO_LABEL {
        if fs.state == 0 {
            if noeps1 {
                IntegerFilterState { state: 0 }
            } else if alleps1 {
                IntegerFilterState { state: NO_STATE_ID }
            } else {
                IntegerFilterState { state: 2 }
            }
        } else if fs.state == 2 {
            IntegerFilterState { state: 2 }
        } else {
            IntegerFilterState { state: NO_STATE_ID }
        }
    } else if arc1.olabel == EPS_LABEL {
        if fs.state == 0 {
            IntegerFilterState { state: 0 }
        } else {
            IntegerFilterState { state: NO_STATE_ID }
        }
    } else {
        IntegerFilterState { state: 0 }
    }
}

/// This filter requires epsilons on FST1 to be matched with epsilons on FST2 whenever possible.
#[derive(Debug)]
pub struct MatchComposeFilter<M1, M2> {
    pub matcher1: Arc<M1>,
    pub matcher2: Arc<M2>,
    /// Current fst1 state
    pub s1: StateId,
    /// Current fst2 state
    pub s2: StateId,
    /// Current filter state
    pub fs: IntegerFilterState,
    /// Only epsilons (and non-final) leaving s1 ?
    pub alleps1: bool,
    /// Only epsilons (and non-final) leaving s2 ?
    pub alleps2: bool,
    /// No epsilons leaving s1 ?
    pub noeps1: bool,
    /// No epsilons leaving s2 ?
    pub noeps2: bool,
}

/// Builds match filters.
#[derive(Debug)]
pub struct MatchComposeFilterBuilder<M1, M2> {
    pub matcher1: Arc<M1>,
    pub matcher2: Arc<M2>,
}

impl<W: Semiring, M1: Matcher<W>, M2: Matcher<W>> ComposeFilterBuilder<W, M1, M2> for MatchComposeFilterBuilder<M1, M2> {
    type CF = MatchComposeFilter<M1, M2>;

    open spec fn builder_inv(&self) -> bool {
        true
    }

    open spec fn keeps_matchers_spec() -> bool {
        true
    }

    fn keeps_matchers() -> (b: bool) {
        true
    }

    open spec fn new_ok(fst1: VectorFst<W>, fst2: VectorFst<W>, matcher1: Option<M1>, matcher2: Option<M2>) -> bool {
        default_ok::<W, M1, M2>(fst1, fst2, matcher1, matcher2)
    }

    open spec fn build_ok(&self) -> bool {
        true
    }

    open spec fn matcher1_spec(&self) -> M1 {
        *self.matcher1
    }

    open spec fn matcher2_spec(&self) -> M2 {
        *self.matcher2
    }

    fn new(
        fst1: Arc<VectorFst<W>>,
        fst2: Arc<VectorFst<W>>,
        matcher1: Option<M1>,
        matcher2: Option<M2>,
    ) -> (r: Result<Self, FstError>) {
        let (m1, m2) = default_matchers(fst1, fst2, matcher1, matcher2)?;
        Ok(MatchComposeFilterBuilder { matcher1: m1, matcher2: m2 })
    }

    fn build(&self) -> (r: Result<Self::CF, FstError>) {
        Ok(MatchComposeFilter {
            matcher1: arc_clone(&self.matcher1),
            matcher2: arc_clone(&self.matcher2),
            s1: NO_STATE_ID,
            s2: NO_STATE_ID,
            fs: IntegerFilterState::new_no_state(),
            alleps1: false,
            alleps2: false,
            noeps1: false,
            noeps2: false,
        })
    }
}

impl<W: Semiring, M1: Matcher<W>, M2: Matcher<W>> ComposeFilter<W, M1, M2> for MatchComposeFilter<M1, M2> {
    type FS = IntegerFilterState;

    open spec fn set_state_ok(&self, s1: StateId, s2: StateId, filter_state: IntegerFilterState) -> bool {
        s1 < self.matcher1.fst_spec().states@.len() && s2 < self.matcher2.fst_spec().states@.len()
    }

    open spec fn filter_tr_ok(&self, arc1: Tr<W>, arc2: Tr<W>) -> bool {
        true
    }

    open spec fn filter_final_ok(&self, w1: W, w2: W) -> bool {
        true
    }

    open spec fn filter_inv(&self) -> bool {
        true
    }

    open spec fn matcher1_spec(&self) -> M1 {
        *self.matcher1
    }

    open spec fn matcher2_spec(&self) -> M2 {
        *self.matcher2
    }

    open spec fn start_spec(&self) -> IntegerFilterState {
        IntegerFilterState { state: 0 }
    }

    fn start(&self) -> (r: IntegerFilterState) {
        IntegerFilterState::new(0)
    }

    fn set_state(&mut self, s1: StateId, s2: StateId, filter_state: &IntegerFilterState) -> (r: Result<(), FstError>)
        ensures
            r is Ok ==> final(self).s1 == s1 && final(self).s2 == s2 && final(self).fs == *filter_state,
            r is Err ==> s1 >= old(self).matcher1.fst_spec().states@.len() || s2 >= old(self).matcher2.fst_spec().states@.len(),
    {
        if !(self.s1 == s1 && self.s2 == s2 && self.fs == *filter_state) {
            let fst1 = self.matcher1.fst();
            let fst2 = self.matcher2.fst();
            let na1 = fst1.num_trs(s1)?;
            let na2 = fst2.num_trs(s2)?;
            let ne1 = fst1.num_output_epsilons(s1)?;
            let ne2 = fst2.num_input_epsilons(s2)?;
            let f1 = fst1.is_final(s1)?;
            let f2 = fst2.is_final(s2)?;
            self.s1 = s1;
            self.s2 = s2;
            self.fs = *filter_state;
            self.alleps1 = na1 == ne1 && !f1;
            self.alleps2 = na2 == ne2 && !f2;
            self.noeps1 = ne1 == 0;
            self.noeps2 = ne2 == 0;
        }
        Ok(())
    }

    fn filter_tr(&mut self, arc1: &mut Tr<W>, arc2: &mut Tr<W>) -> (r: Result<IntegerFilterState, FstError>)
        ensures
            r == Ok::<IntegerFilterState, FstError>(match_filter_spec(
                *old(arc1),
                *old(arc2),
                old(self).fs,
                old(self).alleps1,
                old(self).alleps2,
                old(self).noeps1,
                old(self).noeps2,
            )),
            *final(self) == *old(self),
            *final(arc1) == *old(arc1),
            *final(arc2) == *old(arc2),
    {
        let res = if arc2.ilabel == NO_LABEL {
            // EPSILON in FST1
            if self.fs.state == 0 {
                if self.noeps2 {
                    IntegerFilterState::new(0)
                } else if self.alleps2 {
                    IntegerFilterState::new_no_state()
                } else {
                    IntegerFilterState::new(1)
                }
            } else if self.fs.state == 1 {
                IntegerFilterState::new(1)
            } else {
                IntegerFilterState::new_no_state()
            }
        } else if arc1.olabel == NO_LABEL {
            // Epsilon in FST2
            if self.fs.state == 0 {
                if self.noeps1 {
                    IntegerFilterState::new(0)
                } else if self.alleps1 {
                    IntegerFilterState::new_no_state()
                } else {
                    IntegerFilterState::new(2)
                }
            } else if self.fs.state == 2 {
                IntegerFilterState::new(2)
            } else {
                IntegerFilterState::new_no_state()
            }
        } else if arc1.olabel == EPS_LABEL {
            // Epsilon in both
            if self.fs.state == 0 {
                IntegerFilterState::new(0)
            } else {
                IntegerFilterState::new_no_state()
            }
        } else {
            // Both are non-epsilons
            IntegerFilterState::new(0)
        };
        Ok(res)
    }

    fn filter_final(&self, w1: &mut W, w2: &mut W) -> (r: Result<(), FstError>)
        ensures
            r is Ok && *final(w1) == *old(w1) && *final(w2) == *old(w2),
    {
        Ok(())
    }

    fn matcher1(&self) -> (r: &M1) {
        &self.matcher1
    }

    fn matcher2(&self) -> (r: &M2) {
        &self.matcher2
    }

    fn matcher1_shared(&self) -> (r: Option<Arc<M1>>) {
        Some(arc_clone(&self.matcher1))
    }

    fn matcher2_shared(&self) -> (r: Option<Arc<M2>>) {
        Some(arc_clone(&self.matcher2))
    }

    open spec fn matchers_fixed_spec() -> bool {
        true
    }

    fn matchers_fixed() -> (b: bool) {
        true
    }

    open spec fn keeps_arcs_spec() -> bool {
        true
    }

    open spec fn passes_labels() -> bool {
        true
    }
}

/// This filter disallows matching epsilons on FST1 with epsilons on FST2.
#[derive(Debug)]
pub struct NoMatchComposeFilter<M1, M2> {
    pub matcher1: Arc<M1>,
    pub matcher2: Arc<M2>,
}

/// Builds no-match filters.
#[derive(Debug)]
pub struct NoMatchComposeFilterBuilder<M1, M2> {
    pub matcher1: Arc<M1>,
    pub matcher2: Arc<M2>,
}

impl<W: Semiring, M1: Matcher<W>, M2: Matcher<W>> ComposeFilterBuilder<W, M1, M2> for NoMatchComposeFilterBuilder<M1, M2> {
    type CF = NoMatchComposeFilter<M1, M2>;

    open spec fn builder_inv(&self) -> bool {
        true
    }

    open spec fn keeps_matchers_spec() -> bool {
        true
    }

    fn keeps_matchers() -> (b: bool) {
        true
    }

    open spec fn new_ok(fst1: VectorFst<W>, fst2: VectorFst<W>, matcher1: Option<M1>, matcher2: Option<M2>) -> bool {
        default_ok::<W, M1, M2>(fst1, fst2, matcher1, matcher2)
    }

    open spec fn build_ok(&self) -> bool {
        true
    }

    open spec fn matcher1_spec(&self) -> M1 {
        *self.matcher1
    }

    open spec fn matcher2_spec(&self) -> M2 {
        *self.matcher2
    }

    fn new(
        fst1: Arc<VectorFst<W>>,
        fst2: Arc<VectorFst<W>>,
        matcher1: Option<M1>,
        matcher2: Option<M2>,
    ) -> (r: Result<Self, FstError>) {
        let (m1, m2) = default_matchers(fst1, fst2, matcher1, matcher2)?;
        Ok(NoMatchComposeFilterBuilder { matcher1: m1, matcher2: m2 })
    }

    fn build(&self) -> (r: Result<Self::CF, FstError>) {
        Ok(NoMatchComposeFilter { matcher1: arc_clone(&self.matcher1), matcher2: arc_clone(&self.matcher2) })
    }
}

impl<W: Semiring, M1: Matcher<W>, M2: Matcher<W>> ComposeFilter<W, M1, M2> for NoMatchComposeFilter<M1, M2> {
    type FS = TrivialFilterState;

    open spec fn set_state_ok(&self, s1: StateId, s2: StateId, filter_state: TrivialFilterState) -> bool {
        true
    }

    open spec fn filter_tr_ok(&self, arc1: Tr<W>, arc2: Tr<W>) -> bool {
        true
    }

    open spec fn filter_final_ok(&self, w1: W, w2: W) -> bool {
        true
    }

    open spec fn filter_inv(&self) -> bool {
        true
    }

    open spec fn matcher1_spec(&self) -> M1 {
        *self.matcher1
    }

    open spec fn matcher2_spec(&self) -> M2 {
        *self.matcher2
    }

    open spec fn start_spec(&self) -> TrivialFilterState {
        TrivialFilterState { state: true }
    }

    fn start(&self) -> (r: TrivialFilterState) {
        TrivialFilterState::new(true)
    }

    fn set_state(&mut self, s1: StateId, s2: StateId, filter_state: &TrivialFilterState) -> (r: Result<(), FstError>)
        ensures
            r is Ok && *final(self) == *old(self),
    {
        Ok(())
    }

    fn filter_tr(&mut self, arc1: &mut Tr<W>, arc2: &mut Tr<W>) -> (r: Result<TrivialFilterState, FstError>)
        ensures
            r == Ok::<TrivialFilterState, FstError>(TrivialFilterState { state: old(arc1).olabel != EPS_LABEL || old(arc2).ilabel != EPS_LABEL }),
            *final(self) == *old(self),
            *final(arc1) == *old(arc1),
            *final(arc2) == *old(arc2),
    {
        Ok(TrivialFilterState::new(arc1.olabel != EPS_LABEL || arc2.ilabel != EPS_LABEL))
    }

    fn filter_final(&self, w1: &mut W, w2: &mut W) -> (r: Result<(), FstError>)
        ensures
            r is Ok && *final(w1) == *old(w1) && *final(w2) == *old(w2),
    {
        Ok(())
    }

    fn matcher1(&self) -> (r: &M1) {
        &self.matcher1
    }

    fn matcher2(&self) -> (r: &M2) {
        &self.matcher2
    }

    fn matcher1_shared(&self) -> (r: Option<Arc<M1>>) {
        Some(arc_clone(&self.matcher1))
    }

    fn matcher2_shared(&self) -> (r: Option<Arc<M2>>) {
        Some(arc_clone(&self.matcher2))
    }

    open spec fn matchers_fixed_spec() -> bool {
        true
    }

    fn matchers_fixed() -> (b: bool) {
        true
    }

    open spec fn keeps_arcs_spec() -> bool {
        true
    }

    open spec fn passes_labels() -> bool {
        true
    }
}

/// This filter blocks every epsilon move that is not matched on the other side.
#[derive(Debug)]
pub struct NullComposeFilter<M1, M2> {
    pub matcher1: Arc<M1>,
    pub matcher2: Arc<M2>,
}

/// Builds null filters.
#[derive(Debug)]
pub struct NullComposeFilterBuilder<M1, M2> {
    pub matcher1: Arc<M1>,
    pub matcher2: Arc<M2>,
}

impl<W: Semiring, M1: Matcher<W>, M2: Matcher<W>> ComposeFilterBuilder<W, M1, M2> for NullComposeFilterBuilder<M1, M2> {
    type CF = NullComposeFilter<M1, M2>;

    open spec fn builder_inv(&self) -> bool {
        true
    }

    open spec fn keeps_matchers_spec() -> bool {
        true
    }

    fn keeps_matchers() -> (b: bool) {
        true
    }

    open spec fn new_ok(fst1: VectorFst<W>, fst2: VectorFst<W>, matcher1: Option<M1>, matcher2: Option<M2>) -> bool {
        default_ok::<W, M1, M2>(fst1, fst2, matcher1, matcher2)
    }

    open spec fn build_ok(&self) -> bool {
        true
    }

    open spec fn matcher1_spec(&self) -> M1 {
        *self.matcher1
    }

    open spec fn matcher2_spec(&self) -> M2 {
        *self.matcher2
    }

    fn new(
        fst1: Arc<VectorFst<W>>,
        fst2: Arc<VectorFst<W>>,
        matcher1: Option<M1>,
        matcher2: Option<M2>,
    ) -> (r: Result<Self, FstError>) {
        let (m1, m2) = default_matchers(fst1, fst2, matcher1, matcher2)?;
        Ok(NullComposeFilterBuilder { matcher1: m1, matcher2: m2 })
    }

    fn build(&self) -> (r: Result<Self::CF, FstError>) {
        Ok(NullComposeFilter { matcher1: arc_clone(&self.matcher1), matcher2: arc_clone(&self.matcher2) })
    }
}

impl<W: Semiring, M1: Matcher<W>, M2: Matcher<W>> ComposeFilter<W, M1, M2> for NullComposeFilter<M1, M2> {
    type FS = TrivialFilterState;

    open spec fn set_state_ok(&self, s1: StateId, s2: StateId, filter_state: TrivialFilterState) -> bool {
        true
    }

    open spec fn filter_tr_ok(&self, arc1: Tr<W>, arc2: Tr<W>) -> bool {
        true
    }

    open spec fn filter_final_ok(&self, w1: W, w2: W) -> bool {
        true
    }

    open spec fn filter_inv(&self) -> bool {
        true
    }

    open spec fn matcher1_spec(&self) -> M1 {
        *self.matcher1
    }

    open spec fn matcher2_spec(&self) -> M2 {
        *self.matcher2
    }

    open spec fn start_spec(&self) -> TrivialFilterState {
        TrivialFilterState { state: true }
    }

    fn start(&self) -> (r: TrivialFilterState) {
        TrivialFilterState::new(true)
    }

    fn set_state(&mut self, s1: StateId, s2: StateId, filter_state: &TrivialFilterState) -> (r: Result<(), FstError>)
        ensures
            r is Ok && *final(self) == *old(self),
    {
        Ok(())
    }

    fn filter_tr(&mut self, arc1: &mut Tr<W>, arc2: &mut Tr<W>) -> (r: Result<TrivialFilterState, FstError>)
        ensures
            r == Ok::<TrivialFilterState, FstError>(TrivialFilterState { state: !(old(arc1).olabel == NO_LABEL || old(arc2).ilabel == NO_LABEL) }),
            *final(self) == *old(self),
            *final(arc1) == *old(arc1),
            *final(arc2) == *old(arc2),
    {
        if arc1.olabel == NO_LABEL || arc2.ilabel == NO_LABEL {
            Ok(TrivialFilterState::new_no_state())
        } else {
            Ok(TrivialFilterState::new(true))
        }
    }

    fn filter_final(&self, w1: &mut W, w2: &mut W) -> (r: Result<(), FstError>)
        ensures
            r is Ok && *final(w1) == *old(w1) && *final(w2) == *old(w2),
    {
        Ok(())
    }

    fn matcher1(&self) -> (r: &M1) {
        &self.matcher1
    }

    fn matcher2(&self) -> (r: &M2) {
        &self.matcher2
    }

    fn matcher1_shared(&self) -> (r: Option<Arc<M1>>) {
        Some(arc_clone(&self.matcher1))
    }

    fn matcher2_shared(&self) -> (r: Option<Arc<M2>>) {
        Some(arc_clone(&self.matcher2))
    }

    open spec fn matchers_fixed_spec() -> bool {
        true
    }

    fn matchers_fixed() -> (b: bool) {
        true
    }

    open spec fn keeps_arcs_spec() -> bool {
        true
    }

    open spec fn passes_labels() -> bool {
        true
    }
}

/// This filter lets every match proceed.
#[derive(Debug)]
pub struct TrivialComposeFilter<M1, M2> {
    pub matcher1: Arc<M1>,
    pub matcher2: Arc<M2>,
}

/// Builds trivial filters.
#[derive(Debug)]
pub struct TrivialComposeFilterBuilder<M1, M2> {
    pub matcher1: Arc<M1>,
    pub matcher2: Arc<M2>,
}

impl<W: Semiring, M1: Matcher<W>, M2: Matcher<W>> ComposeFilterBuilder<W, M1, M2> for TrivialComposeFilterBuilder<M1, M2> {
    type CF = TrivialComposeFilter<M1, M2>;

    open spec fn builder_inv(&self) -> bool {
        true
    }

    open spec fn keeps_matchers_spec() -> bool {
        true
    }

    fn keeps_matchers() -> (b: bool) {
        true
    }

    open spec fn new_ok(fst1: VectorFst<W>, fst2: VectorFst<W>, matcher1: Option<M1>, matcher2: Option<M2>) -> bool {
        default_ok::<W, M1, M2>(fst1, fst2, matcher1, matcher2)
    }

    open spec fn build_ok(&self) -> bool {
        true
    }

    open spec fn matcher1_spec(&self) -> M1 {
        *self.matcher1
    }

    open spec fn matcher2_spec(&self) -> M2 {
        *self.matcher2
    }

    fn new(
        fst1: Arc<VectorFst<W>>,
        fst2: Arc<VectorFst<W>>,
        matcher1: Option<M1>,
        matcher2: Option<M2>,
    ) -> (r: Result<Self, FstError>) {
        let (m1, m2) = default_matchers(fst1, fst2, matcher1, matcher2)?;
        Ok(TrivialComposeFilterBuilder { matcher1: m1, matcher2: m2 })
    }

    fn build(&self) -> (r: Result<Self::CF, FstError>) {
        Ok(TrivialComposeFilter { matcher1: arc_clone(&self.matcher1), matcher2: arc_clone(&self.matcher2) })
    }
}

impl<W: Semiring, M1: Matcher<W>, M2: Matcher<W>> ComposeFilter<W, M1, M2> for TrivialComposeFilter<M1, M2> {
    type FS = TrivialFilterState;

    open spec fn set_state_ok(&self, s1: StateId, s2: StateId, filter_state: TrivialFilterState) -> bool {
        true
    }

    open spec fn filter_tr_ok(&self, arc1: Tr<W>, arc2: Tr<W>) -> bool {
        true
    }

    open spec fn filter_final_ok(&self, w1: W, w2: W) -> bool {
        true
    }

    open spec fn filter_inv(&self) -> bool {
        true
    }

    open spec fn matcher1_spec(&self) -> M1 {
        *self.matcher1
    }

    open spec fn matcher2_spec(&self) -> M2 {
        *self.matcher2
    }

    open spec fn start_spec(&self) -> TrivialFilterState {
        TrivialFilterState { state: true }
    }

    fn start(&self) -> (r: TrivialFilterState) {
        TrivialFilterState::new(true)
    }

    fn set_state(&mut self, s1: StateId, s2: StateId, filter_state: &TrivialFilterState) -> (r: Result<(), FstError>)
        ensures
            r is Ok && *final(self) == *old(self),
    {
        Ok(())
    }

    fn filter_tr(&mut self, arc1: &mut Tr<W>, arc2: &mut Tr<W>) -> (r: Result<TrivialFilterState, FstError>)
        ensures
            r == Ok::<TrivialFilterState, FstError>(TrivialFilterState { state: true }),
            *final(self) == *old(self),
            *final(arc1) == *old(arc1),
            *final(arc2) == *old(arc2),
    {
        Ok(TrivialFilterState::new(true))
    }

    fn filter_final(&self, w1: &mut W, w2: &mut W) -> (r: Result<(), FstError>)
        ensures
            r is Ok && *final(w1) == *old(w1) && *final(w2) == *old(w2),
    {
        Ok(())
    }

    fn matcher1(&self) -> (r: &M1) {
        &self.matcher1
    }

    fn matcher2(&self) -> (r: &M2) {
        &self.matcher2
    }

    fn matcher1_shared(&self) -> (r: Option<Arc<M1>>) {
        Some(arc_clone(&self.matcher1))
    }

    fn matcher2_shared(&self) -> (r: Option<Arc<M2>>) {
        Some(arc_clone(&self.matcher2))
    }

    open spec fn matchers_fixed_spec() -> bool {
        true
    }

    fn matchers_fixed() -> (b: bool) {
        true
    }

    open spec fn keeps_arcs_spec() -> bool {
        true
    }

    open spec fn passes_labels() -> bool {
        true
    }
}

/// A filter that, after the filter it wraps, can keep the multi-epsilon
/// labels: a no-label move on one side takes the label of the other side.
pub struct MultiEpsFilter<W, M1, M2, CF> {
    pub filter: CF,
    pub keep_multi_eps: bool,
    pub phantom: std::marker::PhantomData<(W, M1, M2)>,
}

impl<W: Semiring, M1: Matcher<W>, M2: Matcher<W>, CF: ComposeFilter<W, M1, M2>> ComposeFilter<W, M1, M2> for MultiEpsFilter<
    W,
    M1,
    M2,
    CF,
> {
    type FS = CF::FS;

    open spec fn set_state_ok(&self, s1: StateId, s2: StateId, filter_state: CF::FS) -> bool {
        self.filter.set_state_ok(s1, s2, filter_state)
    }

    open spec fn filter_tr_ok(&self, arc1: Tr<W>, arc2: Tr<W>) -> bool {
        self.filter.filter_tr_ok(arc1, arc2)
    }

    open spec fn filter_final_ok(&self, w1: W, w2: W) -> bool {
        self.filter.filter_final_ok(w1, w2)
    }

    open spec fn matcher1_spec(&self) -> M1 {
        self.filter.matcher1_spec()
    }

    open spec fn matcher2_spec(&self) -> M2 {
        self.filter.matcher2_spec()
    }

    open spec fn start_spec(&self) -> CF::FS {
        self.filter.start_spec()
    }

    open spec fn filter_inv(&self) -> bool {
        self.filter.filter_inv()
    }

    open spec fn matchers_fixed_spec() -> bool {
        CF::matchers_fixed_spec()
    }

    fn matchers_fixed() -> (b: bool) {
        CF::matchers_fixed()
    }

    /// Keeping the multi-epsilon labels changes labels.
    open spec fn keeps_arcs_spec() -> bool {
        false
    }

    open spec fn passes_labels() -> bool {
        false
    }

    fn start(&self) -> (r: CF::FS) {
        self.filter.start()
    }

    fn set_state(&mut self, s1: StateId, s2: StateId, filter_state: &CF::FS) -> (r: Result<(), FstError>)
        ensures
            final(self).keep_multi_eps == old(self).keep_multi_eps,
    {
        self.filter.set_state(s1, s2, filter_state)
    }

    /// The wrapped filter's state; keeping the multi-epsilon labels, a
    /// no-label output of `arc1` takes the input label of `arc2`, and a
    /// no-label input of `arc2` the output label of `arc1`.
    fn filter_tr(&mut self, arc1: &mut Tr<W>, arc2: &mut Tr<W>) -> (r: Result<CF::FS, FstError>)
        ensures
            final(self).keep_multi_eps == old(self).keep_multi_eps,
            r is Ok && old(self).keep_multi_eps && final(arc1).olabel == NO_LABEL ==> final(arc1).ilabel == final(arc2).ilabel,
            r is Ok && old(self).keep_multi_eps && final(arc2).ilabel == NO_LABEL ==> final(arc2).olabel == final(arc1).olabel,
    {
        let fs = self.filter.filter_tr(arc1, arc2)?;
        if self.keep_multi_eps {
            if arc1.olabel == NO_LABEL {
                arc1.ilabel = arc2.ilabel;
            }
            if arc2.ilabel == NO_LABEL {
                arc2.olabel = arc1.olabel;
            }
        }
        Ok(fs)
    }

    fn filter_final(&self, w1: &mut W, w2: &mut W) -> (r: Result<(), FstError>) {
        self.filter.filter_final(w1, w2)
    }

    fn matcher1(&self) -> (r: &M1) {
        self.filter.matcher1()
    }

    fn matcher2(&self) -> (r: &M2) {
        self.filter.matcher2()
    }

    fn matcher1_shared(&self) -> (r: Option<Arc<M1>>) {
        self.filter.matcher1_shared()
    }

    fn matcher2_shared(&self) -> (r: Option<Arc<M2>>) {
        self.filter.matcher2_shared()
    }
}

} // verus!
