use vstd::prelude::*;

use std::marker::PhantomData;
use std::sync::Arc;

use crate::compose_filters::{ComposeFilter, ComposeFilterBuilder};
use crate::filter_states::{FilterState, PairFilterState, WeightFilterState};
use crate::fst::{FstError, Tr, VectorFst};
use crate::lookahead_matchers::{LookAheadMatcherData, LookaheadMatcher};
use crate::lookahead_selector::{selector, selector_spec, MatchTypeTrait, Selector};
use crate::matchers::{flags_contain, MatchType, Matcher, MatcherFlags};
use crate::semirings::Semiring;
use crate::shared::arc_clone;
use crate::{Label, StateId, EPS_LABEL};

verus! {

/// The side on which two matchers can look ahead: the output side of the
/// first or the input side of the second, preferring the sides they match.
pub open spec fn lookahead_match_type_spec<W: Semiring, M1: Matcher<W>, M2: Matcher<W>>(m1: M1, m2: M2) -> MatchType {
    let out_la = flags_contain(m1.flags_spec(), MatcherFlags { bits: 32 });
    let in_la = flags_contain(m2.flags_spec(), MatcherFlags { bits: 16 });
    if m1.match_type_spec(false) == MatchType::MatchOutput && out_la {
        MatchType::MatchOutput
    } else if m2.match_type_spec(false) == MatchType::MatchInput && in_la {
        MatchType::MatchInput
    } else if out_la && m1.match_type_spec(true) == MatchType::MatchOutput {
        MatchType::MatchOutput
    } else if in_la && m2.match_type_spec(true) == MatchType::MatchInput {
        MatchType::MatchInput
    } else {
        MatchType::MatchNone
    }
}

/// The side on which two matchers can look ahead.
pub fn lookahead_match_type<W: Semiring, M1: Matcher<W>, M2: Matcher<W>>(m1: &M1, m2: &M2) -> (r: Result<MatchType, FstError>)
    ensures
        r == Ok::<MatchType, FstError>(lookahead_match_type_spec::<W, M1, M2>(*m1, *m2)),
{
    let type1 = m1.match_type(false)?;
    let type2 = m2.match_type(false)?;
    if type1 == MatchType::MatchOutput && m1.flags().contains(MatcherFlags::output_lookahead_matcher()) {
        Ok(MatchType::MatchOutput)
    } else if type2 == MatchType::MatchInput && m2.flags().contains(MatcherFlags::input_lookahead_matcher()) {
        Ok(MatchType::MatchInput)
    } else if m1.flags().contains(MatcherFlags::output_lookahead_matcher()) && m1.match_type(true)? == MatchType::MatchOutput {
        Ok(MatchType::MatchOutput)
    } else if m2.flags().contains(MatcherFlags::input_lookahead_matcher()) && m2.match_type(true)? == MatchType::MatchInput {
        Ok(MatchType::MatchInput)
    } else {
        Ok(MatchType::MatchNone)
    }
}

/// The matcher that looks ahead is usable on the other FST.
pub open spec fn la_matchers_ok<W: Semiring, M1: LookaheadMatcher<W>, M2: LookaheadMatcher<W>>(m1: M1, m2: M2, sel: Selector) -> bool {
    match sel {
        Selector::Fst1Matcher2 => m2.wf() && m2.can_iter() && m1.fst_spec().wf() && m2.la_ready(m1.fst_spec()),
        Selector::Fst2Matcher1 => m1.wf() && m1.can_iter() && m2.fst_spec().wf() && m1.la_ready(m2.fst_spec()),
    }
}

/// A composition filter that looks ahead.
pub trait LookAheadComposeFilterTrait<W: Semiring, M1: LookaheadMatcher<W>, M2: LookaheadMatcher<W>>: ComposeFilter<W, M1, M2> {
    spec fn lookahead_flags_spec(&self) -> MatcherFlags;

    spec fn lookahead_tr_spec(&self) -> bool;

    spec fn lookahead_type_spec(&self) -> MatchType;

    spec fn lookahead_output_spec(&self) -> bool;

    spec fn selector_of(&self) -> Selector;

    spec fn la_data_spec(&self) -> Option<LookAheadMatcherData<W>>;

    fn lookahead_flags(&self) -> (r: MatcherFlags)
        ensures
            r == self.lookahead_flags_spec(),
    ;

    fn lookahead_tr(&self) -> (r: bool)
        ensures
            r == self.lookahead_tr_spec(),
    ;

    fn lookahead_type(&self) -> (r: MatchType)
        ensures
            r == self.lookahead_type_spec(),
    ;

    fn lookahead_output(&self) -> (r: bool)
        ensures
            r == self.lookahead_output_spec(),
    ;

    fn selector(&self) -> (r: &Selector)
        ensures
            *r == self.selector_of(),
    ;

    fn lookahead_matcher_data(&self) -> (r: Option<&LookAheadMatcherData<W>>)
        ensures
            r matches Some(d) ==> self.la_data_spec() == Some(*d),
            r is None ==> self.la_data_spec() is None,
    ;

    /// In a usable filter, the matcher that looks ahead is ready to do so on
    /// the other FST.
    proof fn lemma_la_matchers(&self)
        requires
            self.filter_inv(),
        ensures
            la_matchers_ok(self.matcher1_spec(), self.matcher2_spec(), self.selector_of()),
    ;
}

/// A filter that looks ahead one transition, on the side given by the
/// lookahead type, after the filter it wraps.
pub struct LookAheadComposeFilter<W, M1, M2, CF, SMT> {
    pub filter: CF,
    pub lookahead_type: MatchType,
    pub flags: MatcherFlags,
    pub lookahead_tr: bool,
    pub selector: Selector,
    pub la_matcher_data: Option<LookAheadMatcherData<W>>,
    pub phantom: PhantomData<(M1, M2, SMT)>,
}

/// Builds lookahead filters.
pub struct LookAheadComposeFilterBuilder<W, M1, M2, CFB, SMT> {
    pub filter_builder: CFB,
    pub lookahead_type: MatchType,
    pub flags: MatcherFlags,
    pub selector: Selector,
    pub phantom: PhantomData<(W, M1, M2, SMT)>,
}

/// The lookahead from the destinations of `arca` and `arcb` surely succeeds,
/// on the matcher the selector picks.
pub open spec fn la_succeeds<W: Semiring, M1: LookaheadMatcher<W>, M2: LookaheadMatcher<W>>(
    m1: M1,
    m2: M2,
    selector: Selector,
    arca: Tr<W>,
    arcb: Tr<W>,
) -> bool {
    match selector {
        Selector::Fst1Matcher2 => m2.la_fst_succeeds(arca.nextstate, m1.fst_spec(), arcb.nextstate),
        Selector::Fst2Matcher1 => m1.la_fst_succeeds(arca.nextstate, m2.fst_spec(), arcb.nextstate),
    }
}

/// Whether the lookahead reads output labels: fixed by the filter's match
/// type, or else by the lookahead type.
pub open spec fn lookahead_output_of(smt: MatchType, lookahead_type: MatchType) -> bool {
    if smt == MatchType::MatchOutput {
        true
    } else if smt == MatchType::MatchInput {
        false
    } else {
        lookahead_type == MatchType::MatchOutput
    }
}

impl<W: Semiring, M1: LookaheadMatcher<W>, M2: LookaheadMatcher<W>, CFB: ComposeFilterBuilder<W, M1, M2>, SMT: MatchTypeTrait>
    ComposeFilterBuilder<W, M1, M2> for LookAheadComposeFilterBuilder<W, M1, M2, CFB, SMT> {
    type CF = LookAheadComposeFilter<W, M1, M2, CFB::CF, SMT>;

    open spec fn matcher1_spec(&self) -> M1 {
        self.filter_builder.matcher1_spec()
    }

    open spec fn matcher2_spec(&self) -> M2 {
        self.filter_builder.matcher2_spec()
    }

    open spec fn builder_inv(&self) -> bool {
        &&& self.filter_builder.builder_inv()
        &&& CFB::CF::matchers_fixed_spec()
        &&& la_matchers_ok(self.filter_builder.matcher1_spec(), self.filter_builder.matcher2_spec(), self.selector)
    }

    open spec fn keeps_matchers_spec() -> bool {
        false
    }

    fn keeps_matchers() -> (b: bool) {
        false
    }

    open spec fn new_ok(fst1: VectorFst<W>, fst2: VectorFst<W>, matcher1: Option<M1>, matcher2: Option<M2>) -> bool {
        false
    }

    open spec fn build_ok(&self) -> bool {
        self.filter_builder.build_ok()
    }

    /// The lookahead type is that of `SMT`, or, for `MatchBoth`, the side the
    /// matchers can look ahead on; fails when neither can. The matcher that
    /// looks ahead is set up on the other FST, and must be able to match.
    fn new(
        fst1: Arc<VectorFst<W>>,
        fst2: Arc<VectorFst<W>>,
        matcher1: Option<M1>,
        matcher2: Option<M2>,
    ) -> (r: Result<Self, FstError>)
        ensures
            !CFB::keeps_matchers_spec() || !CFB::CF::matchers_fixed_spec() ==> r == Err::<Self, FstError>(FstError::UnsupportedConfig),
            r matches Ok(b) ==> b.lookahead_type != MatchType::MatchNone
                && b.selector == selector_spec(SMT::match_type_spec(), b.lookahead_type),
            SMT::match_type_spec() != MatchType::MatchBoth ==> (r matches Ok(b) ==> b.lookahead_type == SMT::match_type_spec()),
            matcher1 is Some && matcher2 is Some ==> (r matches Ok(b) ==> {
                &&& SMT::match_type_spec() == MatchType::MatchBoth ==> b.lookahead_type == lookahead_match_type_spec::<W, M1, M2>(
                    matcher1->0,
                    matcher2->0,
                )
                &&& b.flags == if b.lookahead_type == MatchType::MatchOutput { matcher1->0.flags_spec() } else { matcher2->0.flags_spec() }
            }),
    {
        if !CFB::keeps_matchers() || !CFB::CF::matchers_fixed() {
            return Err(FstError::UnsupportedConfig);
        }
        if !fst1.check_wf() || !fst2.check_wf() {
            return Err(FstError::StateOutOfRange);
        }
        let mut matcher1 = match matcher1 {
            Some(m) => m,
            None => M1::new(arc_clone(&fst1), MatchType::MatchOutput)?,
        };
        let mut matcher2 = match matcher2 {
            Some(m) => m,
            None => M2::new(arc_clone(&fst2), MatchType::MatchInput)?,
        };
        let ghost m1_fst = matcher1.fst_spec();
        let ghost m2_fst = matcher2.fst_spec();
        let smt = SMT::match_type();
        let lookahead_type = if smt == MatchType::MatchBoth {
            lookahead_match_type(&matcher1, &matcher2)?
        } else {
            smt
        };
        let flags = if lookahead_type == MatchType::MatchOutput {
            matcher1.flags()
        } else {
            matcher2.flags()
        };
        if lookahead_type == MatchType::MatchNone {
            return Err(FstError::CannotMatch);
        }
        let sel = selector(smt, lookahead_type);
        match sel {
            Selector::Fst1Matcher2 => {
                let fst = matcher1.fst();
                if !fst.check_wf() {
                    return Err(FstError::StateOutOfRange);
                }
                let mt = matcher2.match_type(true)?;
                if mt != MatchType::MatchInput && mt != MatchType::MatchOutput {
                    return Err(FstError::CannotMatch);
                }
                proof {
                    matcher2.lemma_match_type_can_iter(true);
                }
                matcher2.init_lookahead_fst(fst)?;
            },
            Selector::Fst2Matcher1 => {
                let fst = matcher2.fst();
                if !fst.check_wf() {
                    return Err(FstError::StateOutOfRange);
                }
                let mt = matcher1.match_type(true)?;
                if mt != MatchType::MatchInput && mt != MatchType::MatchOutput {
                    return Err(FstError::CannotMatch);
                }
                proof {
                    matcher1.lemma_match_type_can_iter(true);
                }
                matcher1.init_lookahead_fst(fst)?;
            },
        }
        let filter_builder = CFB::new(fst1, fst2, Some(matcher1), Some(matcher2))?;
        Ok(LookAheadComposeFilterBuilder { filter_builder, lookahead_type, flags, selector: sel, phantom: PhantomData })
    }

    fn build(&self) -> (r: Result<Self::CF, FstError>) {
        let filter = self.filter_builder.build()?;
        Ok(LookAheadComposeFilter {
            filter,
            lookahead_type: self.lookahead_type,
            flags: self.flags,
            lookahead_tr: false,
            selector: self.selector,
            la_matcher_data: None,
            phantom: PhantomData,
        })
    }
}

/// Whether the filter looks ahead past a transition whose lookahead label is
/// `label`: the flags must allow epsilon or non-epsilon labels accordingly.
pub open spec fn looks_ahead(flags: MatcherFlags, label: Label) -> bool {
    if label == EPS_LABEL {
        flags_contain(flags, MatcherFlags { bits: 512 })
    } else {
        flags_contain(flags, MatcherFlags { bits: 256 })
    }
}

impl<W: Semiring, M1: LookaheadMatcher<W>, M2: LookaheadMatcher<W>, CF: ComposeFilter<W, M1, M2>, SMT: MatchTypeTrait>
    LookAheadComposeFilter<W, M1, M2, CF, SMT> {
    /// Looks ahead from the destinations of the two transitions, unless the
    /// flags leave out transitions with this label; the filter state stays,
    /// or blocks when nothing can be read ahead.
    fn lookahead_filter_tr(&mut self, arca: &Tr<W>, arcb: &Tr<W>, fs: &CF::FS) -> (r: Result<CF::FS, FstError>)
        requires
            old(self).filter_inv(),
            !old(self).lookahead_tr,
        ensures
            final(self).filter == old(self).filter,
            final(self).lookahead_type == old(self).lookahead_type,
            final(self).flags == old(self).flags,
            final(self).selector == old(self).selector,
            final(self).filter_inv(),
            r is Ok ==> (final(self).lookahead_tr <==> looks_ahead(old(self).flags,
                if lookahead_output_of(SMT::match_type_spec(), old(self).lookahead_type) { arca.olabel } else { arca.ilabel })),
            !final(self).lookahead_tr ==> final(self).la_matcher_data == old(self).la_matcher_data && final(self).lookahead_tr
                == old(self).lookahead_tr && r == Ok::<CF::FS, FstError>(*fs),
            r is Ok && final(self).lookahead_tr ==> match final(self).la_matcher_data {
                Some(_) => r == Ok::<CF::FS, FstError>(*fs),
                None => r == Ok::<CF::FS, FstError>(CF::FS::no_state_spec()),
            },
            r is Ok && final(self).lookahead_tr ==> match old(self).selector {
                Selector::Fst1Matcher2 => old(self).filter.matcher2_spec().la_fst_ok(arca.nextstate, old(self).filter.matcher1_spec().fst_spec(),
                    arcb.nextstate, final(self).la_matcher_data),
                Selector::Fst2Matcher1 => old(self).filter.matcher1_spec().la_fst_ok(arca.nextstate, old(self).filter.matcher2_spec().fst_spec(),
                    arcb.nextstate, final(self).la_matcher_data),
            },
            la_succeeds(old(self).filter.matcher1_spec(), old(self).filter.matcher2_spec(), old(self).selector, *arca, *arcb) ==> r is Ok,
    {
        let labela = if self.lookahead_output() { arca.olabel } else { arca.ilabel };
        if labela != EPS_LABEL && !self.flags.contains(MatcherFlags::lookahead_non_epsilons()) {
            return Ok(fs.fs_clone());
        }
        if labela == EPS_LABEL && !self.flags.contains(MatcherFlags::lookahead_epsilons()) {
            return Ok(fs.fs_clone());
        }
        self.lookahead_tr = true;
        let la = match self.selector {
            Selector::Fst1Matcher2 => {
                let fst = self.filter.matcher1().fst();
                let matcher = self.filter.matcher2();
                matcher.lookahead_fst(arca.nextstate, fst, arcb.nextstate)?
            },
            Selector::Fst2Matcher1 => {
                let fst = self.filter.matcher2().fst();
                let matcher = self.filter.matcher1();
                matcher.lookahead_fst(arca.nextstate, fst, arcb.nextstate)?
            },
        };
        let found = la.is_some();
        self.la_matcher_data = la;
        if found {
            Ok(fs.fs_clone())
        } else {
            Ok(CF::FS::new_no_state())
        }
    }
}

impl<W: Semiring, M1: LookaheadMatcher<W>, M2: LookaheadMatcher<W>, CF: ComposeFilter<W, M1, M2>, SMT: MatchTypeTrait>
    ComposeFilter<W, M1, M2> for LookAheadComposeFilter<W, M1, M2, CF, SMT> {
    type FS = CF::FS;

    open spec fn set_state_ok(&self, s1: StateId, s2: StateId, filter_state: CF::FS) -> bool {
        self.filter.set_state_ok(s1, s2, filter_state)
    }

    /// The wrapped filter surely succeeds and keeps the transitions, and the
    /// lookahead from their destinations surely succeeds.
    open spec fn filter_tr_ok(&self, arc1: Tr<W>, arc2: Tr<W>) -> bool {
        let out = lookahead_output_of(SMT::match_type_spec(), self.lookahead_type);
        let arca = if out { arc1 } else { arc2 };
        let arcb = if out { arc2 } else { arc1 };
        &&& CF::keeps_arcs_spec()
        &&& self.filter.filter_tr_ok(arc1, arc2)
        &&& la_succeeds(self.filter.matcher1_spec(), self.filter.matcher2_spec(), self.selector, arca, arcb)
    }

    open spec fn filter_final_ok(&self, w1: W, w2: W) -> bool {
        self.filter.filter_final_ok(w1, w2)
    }

    open spec fn matcher1_spec(&self) -> M1 {
        self.filter.matcher1_spec()
    }

    open spec fn matcher2_spec(&self) -> M2 {
        self.filter.matcher2_spec()
    }

    open spec fn start_spec(&self) -> CF::FS {
        self.filter.start_spec()
    }

    open spec fn filter_inv(&self) -> bool {
        &&& self.filter.filter_inv()
        &&& CF::matchers_fixed_spec()
        &&& la_matchers_ok(self.filter.matcher1_spec(), self.filter.matcher2_spec(), self.selector)
    }

    fn start(&self) -> (r: CF::FS) {
        self.filter.start()
    }

    fn set_state(&mut self, s1: StateId, s2: StateId, filter_state: &CF::FS) -> (r: Result<(), FstError>) {
        self.filter.set_state(s1, s2, filter_state)
    }

    /// The filter state of the wrapped filter, blocked when looking ahead from
    /// the destinations finds nothing.
    fn filter_tr(&mut self, arc1: &mut Tr<W>, arc2: &mut Tr<W>) -> (r: Result<CF::FS, FstError>)
        ensures
            r is Ok && final(self).lookahead_tr ==> match old(self).selector {
                Selector::Fst1Matcher2 => old(self).filter.matcher2_spec().la_fst_ok(
                    (if lookahead_output_of(SMT::match_type_spec(), old(self).lookahead_type) { final(arc1).nextstate } else { final(arc2).nextstate }),
                    old(self).filter.matcher1_spec().fst_spec(),
                    (if lookahead_output_of(SMT::match_type_spec(), old(self).lookahead_type) { final(arc2).nextstate } else { final(arc1).nextstate }),
                    final(self).la_matcher_data),
                Selector::Fst2Matcher1 => old(self).filter.matcher1_spec().la_fst_ok(
                    (if lookahead_output_of(SMT::match_type_spec(), old(self).lookahead_type) { final(arc1).nextstate } else { final(arc2).nextstate }),
                    old(self).filter.matcher2_spec().fst_spec(),
                    (if lookahead_output_of(SMT::match_type_spec(), old(self).lookahead_type) { final(arc2).nextstate } else { final(arc1).nextstate }),
                    final(self).la_matcher_data),
            },
            r is Ok && final(self).lookahead_tr ==> (r matches Ok(fs) && (final(self).la_matcher_data is None <==> fs == CF::FS::no_state_spec())),
            r is Ok && final(self).lookahead_tr ==> looks_ahead(old(self).flags,
                if lookahead_output_of(SMT::match_type_spec(), old(self).lookahead_type) { final(arc1).olabel } else { final(arc2).ilabel }),
            r matches Ok(fs) && fs != CF::FS::no_state_spec() ==> (final(self).lookahead_tr <==> looks_ahead(old(self).flags,
                if lookahead_output_of(SMT::match_type_spec(), old(self).lookahead_type) { final(arc1).olabel } else { final(arc2).ilabel })),
    {
        self.lookahead_tr = false;
        let fs = self.filter.filter_tr(arc1, arc2)?;
        if fs.fs_eq(&CF::FS::new_no_state()) {
            return Ok(CF::FS::new_no_state());
        }
        if self.lookahead_output() {
            self.lookahead_filter_tr(arc1, arc2, &fs)
        } else {
            self.lookahead_filter_tr(arc2, arc1, &fs)
        }
    }

    fn filter_final(&self, w1: &mut W, w2: &mut W) -> (r: Result<(), FstError>) {
        self.filter.filter_final(w1, w2)
    }

    fn matcher1(&self) -> (r: &M1) {
        self.filter.matcher1()
    }

    fn matcher2(&self) -> (r: &M2) {
        self.filter.matcher2()
    }

    fn matcher1_shared(&self) -> (r: Option<Arc<M1>>) {
        self.filter.matcher1_shared()
    }

    fn matcher2_shared(&self) -> (r: Option<Arc<M2>>) {
        self.filter.matcher2_shared()
    }

    open spec fn matchers_fixed_spec() -> bool {
        CF::matchers_fixed_spec()
    }

    fn matchers_fixed() -> (b: bool) {
        CF::matchers_fixed()
    }

    open spec fn keeps_arcs_spec() -> bool {
        CF::keeps_arcs_spec()
    }

    open spec fn passes_labels() -> bool {
        false
    }
}

impl<W: Semiring, M1: LookaheadMatcher<W>, M2: LookaheadMatcher<W>, CF: ComposeFilter<W, M1, M2>, SMT: MatchTypeTrait>
    LookAheadComposeFilterTrait<W, M1, M2> for LookAheadComposeFilter<W, M1, M2, CF, SMT> {
    open spec fn lookahead_flags_spec(&self) -> MatcherFlags {
        self.flags
    }

    open spec fn lookahead_tr_spec(&self) -> bool {
        self.lookahead_tr
    }

    open spec fn lookahead_type_spec(&self) -> MatchType {
        self.lookahead_type
    }

    open spec fn lookahead_output_spec(&self) -> bool {
        lookahead_output_of(SMT::match_type_spec(), self.lookahead_type)
    }

    open spec fn selector_of(&self) -> Selector {
        self.selector
    }

    open spec fn la_data_spec(&self) -> Option<LookAheadMatcherData<W>> {
        self.la_matcher_data
    }

    fn lookahead_flags(&self) -> (r: MatcherFlags) {
        self.flags
    }

    fn lookahead_tr(&self) -> (r: bool) {
        self.lookahead_tr
    }

    fn lookahead_type(&self) -> (r: MatchType) {
        self.lookahead_type
    }

    fn lookahead_output(&self) -> (r: bool) {
        let smt = SMT::match_type();
        if smt == MatchType::MatchOutput {
            true
        } else if smt == MatchType::MatchInput {
            false
        } else {
            self.lookahead_type == MatchType::MatchOutput
        }
    }

    fn selector(&self) -> (r: &Selector) {
        &self.selector
    }

    fn lookahead_matcher_data(&self) -> (r: Option<&LookAheadMatcherData<W>>) {
        self.la_matcher_data.as_ref()
    }

    proof fn lemma_la_matchers(&self) {
    }
}

/// A filter that pushes the lookahead weight forward: each transition takes
/// the weight found ahead, divided by the weight already pushed.
pub struct PushWeightsComposeFilter<W, M1, M2, CF: ComposeFilter<W, M1, M2>, SMT> where W: Semiring, M1: Matcher<W>, M2: Matcher<W> {
    pub filter: CF,
    pub fs: PairFilterState<CF::FS, WeightFilterState<W>>,
    pub phantom: PhantomData<(M1, M2, SMT)>,
}

/// Builds weight-pushing filters.
pub struct PushWeightsComposeFilterBuilder<W, M1, M2, CFB, SMT> {
    pub filter_builder: CFB,
    pub phantom: PhantomData<(W, M1, M2, SMT)>,
}

/// The weight found ahead: that of the lookahead data when the filter looked ahead, else one.
pub open spec fn pushed_weight<W: Semiring>(looked: bool, la: Option<LookAheadMatcherData<W>>) -> W {
    if looked {
        la->0.lookahead_weight
    } else {
        W::one_spec()
    }
}

impl<W: Semiring, M1: LookaheadMatcher<W>, M2: LookaheadMatcher<W>, CFB: ComposeFilterBuilder<W, M1, M2>, SMT: MatchTypeTrait>
    ComposeFilterBuilder<W, M1, M2> for PushWeightsComposeFilterBuilder<W, M1, M2, CFB, SMT> where
    CFB::CF: LookAheadComposeFilterTrait<W, M1, M2> {
    type CF = PushWeightsComposeFilter<W, M1, M2, CFB::CF, SMT>;

    open spec fn matcher1_spec(&self) -> M1 {
        self.filter_builder.matcher1_spec()
    }

    open spec fn matcher2_spec(&self) -> M2 {
        self.filter_builder.matcher2_spec()
    }

    open spec fn builder_inv(&self) -> bool {
        self.filter_builder.builder_inv()
    }

    open spec fn keeps_matchers_spec() -> bool {
        CFB::keeps_matchers_spec()
    }

    fn keeps_matchers() -> (b: bool) {
        CFB::keeps_matchers()
    }

    open spec fn new_ok(fst1: VectorFst<W>, fst2: VectorFst<W>, matcher1: Option<M1>, matcher2: Option<M2>) -> bool {
        CFB::new_ok(fst1, fst2, matcher1, matcher2)
    }

    open spec fn build_ok(&self) -> bool {
        self.filter_builder.build_ok()
    }

    fn new(
        fst1: Arc<VectorFst<W>>,
        fst2: Arc<VectorFst<W>>,
        matcher1: Option<M1>,
        matcher2: Option<M2>,
    ) -> (r: Result<Self, FstError>) {
        Ok(PushWeightsComposeFilterBuilder { filter_builder: CFB::new(fst1, fst2, matcher1, matcher2)?, phantom: PhantomData })
    }

    fn build(&self) -> (r: Result<Self::CF, FstError>) {
        Ok(PushWeightsComposeFilter { filter: self.filter_builder.build()?, fs: PairFilterState::new_no_state(), phantom: PhantomData })
    }
}

impl<W: Semiring, M1: LookaheadMatcher<W>, M2: LookaheadMatcher<W>, CF: LookAheadComposeFilterTrait<W, M1, M2>, SMT: MatchTypeTrait>
    ComposeFilter<W, M1, M2> for PushWeightsComposeFilter<W, M1, M2, CF, SMT> {
    type FS = PairFilterState<CF::FS, WeightFilterState<W>>;

    open spec fn set_state_ok(&self, s1: StateId, s2: StateId, filter_state: PairFilterState<CF::FS, WeightFilterState<W>>) -> bool {
        self.filter.set_state_ok(s1, s2, filter_state.state.0)
    }

    open spec fn filter_tr_ok(&self, arc1: Tr<W>, arc2: Tr<W>) -> bool {
        false
    }

    /// The wrapped filter surely succeeds, keeps the weights, and, with weight
    /// lookahead, a non-zero first weight can be divided by the pushed weight.
    open spec fn filter_final_ok(&self, w1: W, w2: W) -> bool {
        &&& CF::keeps_arcs_spec()
        &&& self.filter.filter_final_ok(w1, w2)
        &&& (flags_contain(self.filter.lookahead_flags_spec(), MatcherFlags { bits: 64 }) && w1 != W::zero_spec()
            ==> W::divide_spec(w1, self.fs.state.1.state) is Some)
    }

    open spec fn matcher1_spec(&self) -> M1 {
        self.filter.matcher1_spec()
    }

    open spec fn matcher2_spec(&self) -> M2 {
        self.filter.matcher2_spec()
    }

    open spec fn start_spec(&self) -> PairFilterState<CF::FS, WeightFilterState<W>> {
        PairFilterState { state: (self.filter.start_spec(), WeightFilterState { state: W::one_spec() }) }
    }

    open spec fn filter_inv(&self) -> bool {
        self.filter.filter_inv()
    }

    fn start(&self) -> (r: PairFilterState<CF::FS, WeightFilterState<W>>) {
        PairFilterState::new((self.filter.start(), WeightFilterState::new(W::one())))
    }

    fn set_state(&mut self, s1: StateId, s2: StateId, filter_state: &PairFilterState<CF::FS, WeightFilterState<W>>) -> (r: Result<(), FstError>)
        ensures
            final(self).fs == *filter_state,
    {
        self.fs = filter_state.fs_clone();
        self.filter.set_state(s1, s2, filter_state.state1())
    }

    /// The wrapped filter's state, paired with the weight found ahead; the
    /// second transition's weight is multiplied by that weight and divided by
    /// the weight pushed so far. A zero weight ahead blocks.
    fn filter_tr(&mut self, arc1: &mut Tr<W>, arc2: &mut Tr<W>) -> (r: Result<PairFilterState<CF::FS, WeightFilterState<W>>, FstError>)
        ensures
            final(self).fs == old(self).fs,
            r matches Ok(fs) ==> (fs != PairFilterState::<CF::FS, WeightFilterState<W>>::no_state_spec()
                && flags_contain(final(self).filter.lookahead_flags_spec(), MatcherFlags { bits: 64 }) ==> ({
                let lweight = pushed_weight(final(self).filter.lookahead_tr_spec(), final(self).filter.la_data_spec());
                &&& fs.state.1.state == lweight
                &&& lweight != W::zero_spec()
            })),
            r matches Ok(fs) ==> (fs != PairFilterState::<CF::FS, WeightFilterState<W>>::no_state_spec()
                && !flags_contain(final(self).filter.lookahead_flags_spec(), MatcherFlags { bits: 64 }) ==> fs.state.1.state == W::one_spec()),
            CF::keeps_arcs_spec() ==> *final(arc1) == *old(arc1),
            CF::keeps_arcs_spec() ==> (r matches Ok(fs) ==> (fs != PairFilterState::<CF::FS, WeightFilterState<W>>::no_state_spec()
                && flags_contain(final(self).filter.lookahead_flags_spec(), MatcherFlags { bits: 64 }) ==> ({
                let lweight = pushed_weight(final(self).filter.lookahead_tr_spec(), final(self).filter.la_data_spec());
                &&& W::divide_spec(W::times_spec(old(arc2).weight, lweight), old(self).fs.state.1.state) == Some(final(arc2).weight)
                &&& final(arc2).ilabel == old(arc2).ilabel
                &&& final(arc2).olabel == old(arc2).olabel
                &&& final(arc2).nextstate == old(arc2).nextstate
            }))),
            CF::keeps_arcs_spec() ==> (r matches Ok(fs) ==> (fs != PairFilterState::<CF::FS, WeightFilterState<W>>::no_state_spec()
                && !flags_contain(final(self).filter.lookahead_flags_spec(), MatcherFlags { bits: 64 }) ==> *final(arc2) == *old(arc2))),
    {
        let fs1 = self.filter.filter_tr(arc1, arc2)?;
        if fs1.fs_eq(&CF::FS::new_no_state()) {
            return Ok(PairFilterState::new_no_state());
        }
        if !self.filter.lookahead_flags().contains(MatcherFlags::lookahead_weight()) {
            return Ok(PairFilterState::new((fs1, WeightFilterState::new(W::one()))));
        }
        let lweight = if self.filter.lookahead_tr() {
            match self.filter.lookahead_matcher_data() {
                Some(la_matcher_data) => la_matcher_data.lookahead_weight.weight_clone(),
                None => {
                    return Err(FstError::MissingConfig);
                },
            }
        } else {
            W::one()
        };
        let fweight = self.fs.state2().state();
        // Disallows zero weight futures.
        if lweight.is_zero() {
            return Ok(PairFilterState::new_no_state());
        }
        let times = arc2.weight.times(&lweight);
        match times.divide(fweight) {
            Some(w) => {
                arc2.weight = w;
            },
            None => {
                return Err(FstError::WeightNotDivisible);
            },
        }
        Ok(PairFilterState::new((fs1, WeightFilterState::new(lweight))))
    }

    /// The wrapped filter's final weights; with weight lookahead, a non-zero
    /// first weight is divided by the weight pushed so far.
    fn filter_final(&self, w1: &mut W, w2: &mut W) -> (r: Result<(), FstError>)
        ensures
            CF::keeps_arcs_spec() ==> *final(w2) == *old(w2),
            CF::keeps_arcs_spec() ==> (r is Ok ==> (flags_contain(self.filter.lookahead_flags_spec(), MatcherFlags { bits: 64 })
                && *old(w1) != W::zero_spec() ==> W::divide_spec(*old(w1), self.fs.state.1.state) == Some(*final(w1)))),
            CF::keeps_arcs_spec() ==> (!flags_contain(self.filter.lookahead_flags_spec(), MatcherFlags { bits: 64 })
                || *old(w1) == W::zero_spec() ==> (r is Ok ==> *final(w1) == *old(w1))),
    {
        self.filter.filter_final(w1, w2)?;
        if !self.filter.lookahead_flags().contains(MatcherFlags::lookahead_weight()) || w1.is_zero() {
            return Ok(());
        }
        let fweight = self.fs.state2().state();
        match w1.divide(fweight) {
            Some(w) => {
                *w1 = w;
                Ok(())
            },
            None => Err(FstError::WeightNotDivisible),
        }
    }

    fn matcher1(&self) -> (r: &M1) {
        self.filter.matcher1()
    }

    fn matcher2(&self) -> (r: &M2) {
        self.filter.matcher2()
    }

    fn matcher1_shared(&self) -> (r: Option<Arc<M1>>) {
        self.filter.matcher1_shared()
    }

    fn matcher2_shared(&self) -> (r: Option<Arc<M2>>) {
        self.filter.matcher2_shared()
    }

    open spec fn matchers_fixed_spec() -> bool {
        CF::matchers_fixed_spec()
    }

    fn matchers_fixed() -> (b: bool) {
        CF::matchers_fixed()
    }

    /// The pushed weight changes the transitions' weights.
    open spec fn keeps_arcs_spec() -> bool {
        false
    }

    open spec fn passes_labels() -> bool {
        false
    }
}

impl<W: Semiring, M1: LookaheadMatcher<W>, M2: LookaheadMatcher<W>, CF: LookAheadComposeFilterTrait<W, M1, M2>, SMT: MatchTypeTrait>
    LookAheadComposeFilterTrait<W, M1, M2> for PushWeightsComposeFilter<W, M1, M2, CF, SMT> {
    open spec fn lookahead_flags_spec(&self) -> MatcherFlags {
        self.filter.lookahead_flags_spec()
    }

    open spec fn lookahead_tr_spec(&self) -> bool {
        self.filter.lookahead_tr_spec()
    }

    open spec fn lookahead_type_spec(&self) -> MatchType {
        self.filter.lookahead_type_spec()
    }

    open spec fn lookahead_output_spec(&self) -> bool {
        self.filter.lookahead_output_spec()
    }

    open spec fn selector_of(&self) -> Selector {
        self.filter.selector_of()
    }

    open spec fn la_data_spec(&self) -> Option<LookAheadMatcherData<W>> {
        self.filter.la_data_spec()
    }

    fn lookahead_flags(&self) -> (r: MatcherFlags) {
        self.filter.lookahead_flags()
    }

    fn lookahead_tr(&self) -> (r: bool) {
        self.filter.lookahead_tr()
    }

    fn lookahead_type(&self) -> (r: MatchType) {
        self.filter.lookahead_type()
    }

    fn lookahead_output(&self) -> (r: bool) {
        self.filter.lookahead_output()
    }

    fn selector(&self) -> (r: &Selector) {
        self.filter.selector()
    }

    fn lookahead_matcher_data(&self) -> (r: Option<&LookAheadMatcherData<W>>) {
        self.filter.lookahead_matcher_data()
    }

    proof fn lemma_la_matchers(&self) {
        self.filter.lemma_la_matchers();
    }
}

} // verus!
