use vstd::prelude::*;

use std::marker::PhantomData;
use std::sync::Arc;

use crate::compose_filters::{ComposeFilter, ComposeFilterBuilder};
use crate::filter_states::{FilterState, IntegerFilterState, PairFilterState};
use crate::fst::{FstError, Tr, VectorFst};
use crate::lookahead_filters::{la_matchers_ok, LookAheadComposeFilterTrait};
use crate::lookahead_matchers::{LookAheadMatcherData, LookaheadMatcher};
use crate::lookahead_selector::{MatchTypeTrait, Selector};
use crate::matchers::{flags_contain, MatchType, Matcher, MatcherFlags};
use crate::multi_eps_matcher::{CompactSet, MultiEpsMatcher, MultiEpsMatcherFlags};
use crate::semirings::Semiring;
use crate::shared::{arc_clone, arc_try_unwrap};
use crate::{Label, StateId, EPS_LABEL, NO_LABEL, NO_STATE_ID};

verus! {

/// The label of a transition on one side: the output side when `output`.
pub open spec fn side_label<W>(tr: Tr<W>, output: bool) -> Label {
    if output {
        tr.olabel
    } else {
        tr.ilabel
    }
}

/// The transition with its label on one side replaced.
pub open spec fn with_side_label<W>(tr: Tr<W>, output: bool, label: Label) -> Tr<W> {
    if output {
        Tr { ilabel: tr.ilabel, olabel: label, weight: tr.weight, nextstate: tr.nextstate }
    } else {
        Tr { ilabel: label, olabel: tr.olabel, weight: tr.weight, nextstate: tr.nextstate }
    }
}

/// Whether the matcher that looks ahead answers about a label at a state.
pub open spec fn sel_label_ok<W: Semiring, M1: LookaheadMatcher<W>, M2: LookaheadMatcher<W>>(
    m1: M1,
    m2: M2,
    sel: Selector,
    state: StateId,
    label: Label,
) -> bool {
    match sel {
        Selector::Fst1Matcher2 => m2.la_label_ok(state, label),
        Selector::Fst2Matcher1 => m1.la_label_ok(state, label),
    }
}

/// What the matcher that looks ahead answers about a label at a state.
pub open spec fn sel_label<W: Semiring, M1: LookaheadMatcher<W>, M2: LookaheadMatcher<W>>(
    m1: M1,
    m2: M2,
    sel: Selector,
    state: StateId,
    label: Label,
) -> bool {
    match sel {
        Selector::Fst1Matcher2 => m2.la_label_spec(state, label),
        Selector::Fst2Matcher1 => m1.la_label_spec(state, label),
    }
}

/// Whether the matcher that looks ahead reports a prefix in the data.
pub open spec fn sel_prefix<W: Semiring, M1: LookaheadMatcher<W>, M2: LookaheadMatcher<W>>(
    m1: M1,
    m2: M2,
    sel: Selector,
    la: LookAheadMatcherData<W>,
) -> bool {
    match sel {
        Selector::Fst1Matcher2 => m2.la_prefix_spec(la),
        Selector::Fst2Matcher1 => m1.la_prefix_spec(la),
    }
}

/// A filter that pushes a label forward: when the lookahead finds a single
/// label on all paths ahead, it is output at once and consumed later by an
/// epsilon transition. The pending label is the second part of the state.
pub struct PushLabelsComposeFilter<W, M1, M2, CF: ComposeFilter<W, M1, M2>, SMT> where
    W: Semiring,
    M1: Matcher<W>,
    M2: Matcher<W>,
 {
    pub matcher1: Arc<MultiEpsMatcher<W, M1>>,
    pub matcher2: Arc<MultiEpsMatcher<W, M2>>,
    pub filter: CF,
    pub fs: PairFilterState<CF::FS, IntegerFilterState>,
    pub ntrsa: usize,
    pub phantom: PhantomData<SMT>,
}

/// Builds label-pushing filters.
pub struct PushLabelsComposeFilterBuilder<W, M1, M2, CFB, SMT> {
    pub filter_builder: CFB,
    pub matcher1: Arc<MultiEpsMatcher<W, M1>>,
    pub matcher2: Arc<MultiEpsMatcher<W, M2>>,
    pub lookahead_output: bool,
    pub phantom: PhantomData<SMT>,
}

/// A multi-epsilon matcher on the same matcher and flags, with the given
/// label as its only multi-epsilon label, or none for the no-label.
fn with_pending_label<W: Semiring, M: Matcher<W>>(m: &MultiEpsMatcher<W, M>, label: Label) -> (r: Result<MultiEpsMatcher<W, M>, FstError>)
    ensures
        r matches Ok(n) ==> n.matcher == m.matcher && n.flags == m.flags && n.multi_eps_labels.set@ == (if label == NO_LABEL {
            Set::<usize>::empty()
        } else {
            Set::<usize>::empty().insert(label)
        }),
        r is Err <==> label == EPS_LABEL,
{
    let mut n = MultiEpsMatcher {
        matcher: arc_clone(&m.matcher),
        flags: m.flags,
        multi_eps_labels: CompactSet::new(NO_LABEL),
        phantom: PhantomData,
    };
    if label != NO_LABEL {
        n.add_multi_eps_label(label)?;
    }
    Ok(n)
}

impl<W: Semiring, M1: LookaheadMatcher<W>, M2: LookaheadMatcher<W>, CF: LookAheadComposeFilterTrait<W, M1, M2>, SMT: MatchTypeTrait>
    PushLabelsComposeFilter<W, M1, M2, CF, SMT> {
    /// The state that blocks a match.
    pub open spec fn no_state(&self) -> PairFilterState<CF::FS, IntegerFilterState> {
        PairFilterState { state: (CF::FS::no_state_spec(), IntegerFilterState { state: NO_STATE_ID }) }
    }

    /// The start state: the wrapped filter's start, with no pending label.
    pub open spec fn start_state(&self) -> PairFilterState<CF::FS, IntegerFilterState> {
        PairFilterState { state: (self.filter.start_spec(), IntegerFilterState { state: NO_LABEL }) }
    }

    /// What consuming the pending label `flabel` answers: `arcb` must not
    /// move on its matched side; a transition reading the pending label
    /// consumes it (back to the start state); an epsilon transition keeps it
    /// when the state has a single transition or the label can be read ahead.
    pub open spec fn pushed_outcome(&self, arca: Tr<W>, arcb: Tr<W>, flabel: Label) -> Result<PairFilterState<CF::FS, IntegerFilterState>, FstError> {
        let lo = self.filter.lookahead_output_spec();
        let labela = side_label(arca, lo);
        let labelb = side_label(arcb, !lo);
        if labelb != NO_LABEL {
            Ok(self.no_state())
        } else if labela == flabel {
            Ok(self.start_state())
        } else if labela == EPS_LABEL {
            if self.ntrsa == 1 {
                Ok(self.fs)
            } else if !sel_label_ok(self.filter.matcher1_spec(), self.filter.matcher2_spec(), self.filter.selector_of(), arca.nextstate, flabel) {
                Err(FstError::BadMatcherFlags)
            } else if sel_label(self.filter.matcher1_spec(), self.filter.matcher2_spec(), self.filter.selector_of(), arca.nextstate, flabel) {
                Ok(self.fs)
            } else {
                Ok(self.no_state())
            }
        } else {
            Ok(self.no_state())
        }
    }

    /// `arca` after consuming the pending label: its label becomes epsilon
    /// when it read the pending label.
    pub open spec fn pushed_arca(&self, arca: Tr<W>, arcb: Tr<W>, flabel: Label) -> Tr<W> {
        let lo = self.filter.lookahead_output_spec();
        if side_label(arcb, !lo) == NO_LABEL && side_label(arca, lo) == flabel {
            with_side_label(arca, lo, EPS_LABEL)
        } else {
            arca
        }
    }

    /// Whether a label is pushed: `arcb` stays on its matched side, `arca`
    /// reads epsilon (or anything, unless only epsilon prefixes are pushed),
    /// and the lookahead found a prefix.
    pub open spec fn pushes(&self, arca: Tr<W>, arcb: Tr<W>) -> bool {
        let lo = self.filter.lookahead_output_spec();
        &&& side_label(arcb, lo) == EPS_LABEL
        &&& (side_label(arca, lo) == EPS_LABEL || !flags_contain(self.filter.lookahead_flags_spec(), MatcherFlags { bits: 1024 }))
        &&& self.filter.la_data_spec() matches Some(d)
        &&& sel_prefix(self.filter.matcher1_spec(), self.filter.matcher2_spec(), self.filter.selector_of(), d)
    }

    /// The prefix found ahead, when a label is pushed.
    pub open spec fn prefix(&self) -> Tr<W> {
        self.filter.la_data_spec()->0.prefix_tr
    }

    /// What pushing answers: the wrapped filter's state, with the pushed
    /// label pending, or none.
    pub open spec fn push_outcome(&self, arca: Tr<W>, arcb: Tr<W>, fs1: CF::FS) -> Result<PairFilterState<CF::FS, IntegerFilterState>, FstError> {
        let lo = self.filter.lookahead_output_spec();
        if side_label(arcb, lo) != EPS_LABEL || (side_label(arca, lo) != EPS_LABEL && flags_contain(
            self.filter.lookahead_flags_spec(),
            MatcherFlags { bits: 1024 },
        )) {
            Ok(PairFilterState { state: (fs1, IntegerFilterState { state: NO_LABEL }) })
        } else if self.filter.la_data_spec() is None {
            Err(FstError::InvalidData)
        } else if self.pushes(arca, arcb) {
            Ok(PairFilterState { state: (fs1, IntegerFilterState { state: side_label(self.prefix(), !lo) }) })
        } else {
            Ok(PairFilterState { state: (fs1, IntegerFilterState { state: NO_LABEL }) })
        }
    }

    /// `arca` after pushing: it outputs the label of the prefix.
    pub open spec fn push_arca(&self, arca: Tr<W>, arcb: Tr<W>) -> Tr<W> {
        let lo = self.filter.lookahead_output_spec();
        if self.pushes(arca, arcb) {
            with_side_label(arca, lo, side_label(self.prefix(), !lo))
        } else {
            arca
        }
    }

    /// `arcb` after pushing: it follows the prefix, times its own weight.
    pub open spec fn push_arcb(&self, arca: Tr<W>, arcb: Tr<W>) -> Tr<W> {
        if self.pushes(arca, arcb) {
            Tr {
                ilabel: self.prefix().ilabel,
                olabel: self.prefix().olabel,
                weight: W::times_spec(arcb.weight, self.prefix().weight),
                nextstate: self.prefix().nextstate,
            }
        } else {
            arcb
        }
    }

    pub fn lookahead_output(&self) -> (b: bool)
        ensures
            b == self.filter.lookahead_output_spec(),
    {
        self.filter.lookahead_output()
    }

    pub fn lookahead_tr(&self) -> (b: bool)
        ensures
            b == self.filter.lookahead_tr_spec(),
    {
        self.filter.lookahead_tr()
    }

    pub fn lookahead_flags(&self) -> (f: MatcherFlags)
        ensures
            f == self.filter.lookahead_flags_spec(),
    {
        self.filter.lookahead_flags()
    }

    pub fn selector(&self) -> (s: &Selector)
        ensures
            *s == self.filter.selector_of(),
    {
        self.filter.selector()
    }

    /// Consumes an already pushed label.
    fn pushed_label_filter_tr(&self, arca: &mut Tr<W>, arcb: &mut Tr<W>, flabel: Label) -> (r: Result<
        PairFilterState<CF::FS, IntegerFilterState>,
        FstError,
    >)
        requires
            self.filter.filter_inv(),
        ensures
            r == self.pushed_outcome(*old(arca), *old(arcb), flabel),
            *final(arca) == self.pushed_arca(*old(arca), *old(arcb), flabel),
            *final(arcb) == *old(arcb),
    {
        let lo = self.lookahead_output();
        let labela = if lo { arca.olabel } else { arca.ilabel };
        let labelb = if lo { arcb.ilabel } else { arcb.olabel };
        if labelb != NO_LABEL {
            Ok(PairFilterState::new_no_state())
        } else if labela == flabel {
            if lo {
                arca.olabel = EPS_LABEL;
            } else {
                arca.ilabel = EPS_LABEL;
            }
            Ok(self.start())
        } else if labela == EPS_LABEL {
            if self.ntrsa == 1 {
                return Ok(self.fs.fs_clone());
            }
            proof {
                self.filter.lemma_la_matchers();
            }
            let found = match self.selector() {
                Selector::Fst1Matcher2 => {
                    let matcher = self.filter.matcher2();
                    match matcher.lookahead_label(arca.nextstate, flabel) {
                        Ok(b) => b,
                        Err(_) => return Err(FstError::BadMatcherFlags),
                    }
                },
                Selector::Fst2Matcher1 => {
                    let matcher = self.filter.matcher1();
                    match matcher.lookahead_label(arca.nextstate, flabel) {
                        Ok(b) => b,
                        Err(_) => return Err(FstError::BadMatcherFlags),
                    }
                },
            };
            if found {
                Ok(self.fs.fs_clone())
            } else {
                Ok(PairFilterState::new_no_state())
            }
        } else {
            Ok(PairFilterState::new_no_state())
        }
    }

    /// Pushes a label forward when possible.
    fn push_label_filter_tr(&self, arca: &mut Tr<W>, arcb: &mut Tr<W>, fs1: &CF::FS) -> (r: Result<
        PairFilterState<CF::FS, IntegerFilterState>,
        FstError,
    >)
        ensures
            r == self.push_outcome(*old(arca), *old(arcb), *fs1),
            *final(arca) == self.push_arca(*old(arca), *old(arcb)),
            *final(arcb) == self.push_arcb(*old(arca), *old(arcb)),
    {
        let lo = self.lookahead_output();
        let labela = if lo { arca.olabel } else { arca.ilabel };
        let labelb = if lo { arcb.olabel } else { arcb.ilabel };
        if labelb != EPS_LABEL {
            return Ok(PairFilterState::new((fs1.fs_clone(), IntegerFilterState::new(NO_LABEL))));
        }
        if labela != EPS_LABEL && self.lookahead_flags().contains(MatcherFlags::lookahead_non_epsilon_prefix()) {
            return Ok(PairFilterState::new((fs1.fs_clone(), IntegerFilterState::new(NO_LABEL))));
        }
        let mut larc = Tr::new(NO_LABEL, NO_LABEL, W::zero(), NO_STATE_ID);
        let la_matcher_data = match self.filter.lookahead_matcher_data() {
            Some(d) => d,
            None => return Err(FstError::InvalidData),
        };
        let b = match self.selector() {
            Selector::Fst1Matcher2 => {
                let matcher = self.filter.matcher2();
                matcher.lookahead_prefix(&mut larc, la_matcher_data)
            },
            Selector::Fst2Matcher1 => {
                let matcher = self.filter.matcher1();
                matcher.lookahead_prefix(&mut larc, la_matcher_data)
            },
        };
        if b {
            let pushed = if lo { larc.ilabel } else { larc.olabel };
            if lo {
                arca.olabel = pushed;
            } else {
                arca.ilabel = pushed;
            }
            arcb.ilabel = larc.ilabel;
            arcb.olabel = larc.olabel;
            arcb.weight = arcb.weight.times(&larc.weight);
            arcb.nextstate = larc.nextstate;
            Ok(PairFilterState::new((fs1.fs_clone(), IntegerFilterState::new(pushed))))
        } else {
            Ok(PairFilterState::new((fs1.fs_clone(), IntegerFilterState::new(NO_LABEL))))
        }
    }
}

impl<W: Semiring, M1: LookaheadMatcher<W>, M2: LookaheadMatcher<W>, CF: LookAheadComposeFilterTrait<W, M1, M2>, SMT: MatchTypeTrait>
    ComposeFilter<W, MultiEpsMatcher<W, M1>, MultiEpsMatcher<W, M2>> for PushLabelsComposeFilter<W, M1, M2, CF, SMT> {
    type FS = PairFilterState<CF::FS, IntegerFilterState>;

    open spec fn set_state_ok(&self, s1: StateId, s2: StateId, filter_state: PairFilterState<CF::FS, IntegerFilterState>) -> bool {
        false
    }

    open spec fn filter_tr_ok(&self, arc1: Tr<W>, arc2: Tr<W>) -> bool {
        false
    }

    open spec fn filter_final_ok(&self, w1: W, w2: W) -> bool {
        self.filter.filter_final_ok(w1, w2)
    }

    open spec fn matcher1_spec(&self) -> MultiEpsMatcher<W, M1> {
        *self.matcher1
    }

    open spec fn matcher2_spec(&self) -> MultiEpsMatcher<W, M2> {
        *self.matcher2
    }

    open spec fn start_spec(&self) -> PairFilterState<CF::FS, IntegerFilterState> {
        self.start_state()
    }

    open spec fn filter_inv(&self) -> bool {
        self.filter.filter_inv()
    }

    /// The multi-epsilon labels change with the pending label.
    open spec fn matchers_fixed_spec() -> bool {
        false
    }

    fn matchers_fixed() -> (b: bool) {
        false
    }

    /// Pushed labels change the transitions.
    open spec fn keeps_arcs_spec() -> bool {
        false
    }

    open spec fn passes_labels() -> bool {
        false
    }

    fn start(&self) -> (r: PairFilterState<CF::FS, IntegerFilterState>) {
        PairFilterState::new((self.filter.start(), IntegerFilterState::new(NO_LABEL)))
    }

    /// Sets the wrapped filter's state; when prefixes are pushed, records
    /// how many transitions leave the state on the lookahead side and makes
    /// the pending label the only multi-epsilon label of both matchers.
    fn set_state(&mut self, s1: StateId, s2: StateId, filter_state: &PairFilterState<CF::FS, IntegerFilterState>) -> (r: Result<
        (),
        FstError,
    >)
        ensures
            final(self).fs == *filter_state,
            r is Ok && flags_contain(final(self).filter.lookahead_flags_spec(), MatcherFlags { bits: 128 }) ==> {
                &&& final(self).matcher1.multi_eps_labels.set@ == (if filter_state.state.1.state == NO_LABEL {
                    Set::<usize>::empty()
                } else {
                    Set::<usize>::empty().insert(filter_state.state.1.state)
                })
                &&& final(self).matcher2.multi_eps_labels.set@ == final(self).matcher1.multi_eps_labels.set@
                &&& final(self).ntrsa == (if final(self).filter.lookahead_output_spec() {
                    final(self).filter.matcher1_spec().fst_spec().states@[s1 as int].trs@.len()
                } else {
                    final(self).filter.matcher2_spec().fst_spec().states@[s2 as int].trs@.len()
                })
            },
    {
        self.fs = filter_state.fs_clone();
        self.filter.set_state(s1, s2, filter_state.state1())?;
        if !self.filter.lookahead_flags().contains(MatcherFlags::lookahead_prefix()) {
            return Ok(());
        }
        self.ntrsa = if self.lookahead_output() {
            self.filter.matcher1().fst().num_trs(s1)?
        } else {
            self.filter.matcher2().fst().num_trs(s2)?
        };
        let flabel = *filter_state.state2().state();
        let m1 = with_pending_label(&self.matcher1, flabel)?;
        let m2 = with_pending_label(&self.matcher2, flabel)?;
        self.matcher1 = Arc::new(m1);
        self.matcher2 = Arc::new(m2);
        Ok(())
    }

    /// Without prefix pushing, the wrapped filter decides. A pending label
    /// must be consumed; otherwise the wrapped filter decides, and a label is
    /// pushed when the lookahead allows it.
    fn filter_tr(&mut self, arc1: &mut Tr<W>, arc2: &mut Tr<W>) -> (r: Result<PairFilterState<CF::FS, IntegerFilterState>, FstError>)
        ensures
            !flags_contain(old(self).filter.lookahead_flags_spec(), MatcherFlags { bits: 128 }) ==> (r matches Ok(p) ==> p.state.1.state == NO_LABEL),
            flags_contain(old(self).filter.lookahead_flags_spec(), MatcherFlags { bits: 128 }) && old(self).fs.state.1.state != NO_LABEL ==> {
                &&& *final(self) == *old(self)
                &&& old(self).filter.lookahead_output_spec() ==> r == old(self).pushed_outcome(*old(arc1), *old(arc2), old(self).fs.state.1.state)
                    && *final(arc1) == old(self).pushed_arca(*old(arc1), *old(arc2), old(self).fs.state.1.state)
                    && *final(arc2) == *old(arc2)
                &&& !old(self).filter.lookahead_output_spec() ==> r == old(self).pushed_outcome(*old(arc2), *old(arc1), old(self).fs.state.1.state)
                    && *final(arc2) == old(self).pushed_arca(*old(arc2), *old(arc1), old(self).fs.state.1.state)
                    && *final(arc1) == *old(arc1)
            },
    {
        if !self.lookahead_flags().contains(MatcherFlags::lookahead_prefix()) {
            let fs1 = self.filter.filter_tr(arc1, arc2)?;
            return Ok(PairFilterState::new((fs1, IntegerFilterState::new(NO_LABEL))));
        }
        let flabel = *self.fs.state2().state();
        if flabel != NO_LABEL {
            if self.lookahead_output() {
                return self.pushed_label_filter_tr(arc1, arc2, flabel);
            } else {
                return self.pushed_label_filter_tr(arc2, arc1, flabel);
            }
        }
        let fs1 = self.filter.filter_tr(arc1, arc2)?;
        if fs1.fs_eq(&CF::FS::new_no_state()) {
            return Ok(PairFilterState::new_no_state());
        }
        if !self.lookahead_tr() {
            return Ok(PairFilterState::new((fs1, IntegerFilterState::new(NO_LABEL))));
        }
        if self.lookahead_output() {
            self.push_label_filter_tr(arc1, arc2, &fs1)
        } else {
            self.push_label_filter_tr(arc2, arc1, &fs1)
        }
    }

    /// The wrapped filter's final weights; with a label still pending, the
    /// state cannot end (its first weight becomes zero).
    fn filter_final(&self, w1: &mut W, w2: &mut W) -> (r: Result<(), FstError>)
        ensures
            r is Ok && flags_contain(self.filter.lookahead_flags_spec(), MatcherFlags { bits: 128 }) && self.fs.state.1.state != NO_LABEL
                ==> *final(w1) == W::zero_spec(),
    {
        self.filter.filter_final(w1, w2)?;
        if !self.lookahead_flags().contains(MatcherFlags::lookahead_prefix()) || w1.is_zero() {
            return Ok(());
        }
        let flabel = *self.fs.state2().state();
        if flabel != NO_LABEL {
            *w1 = W::zero();
        }
        Ok(())
    }

    fn matcher1(&self) -> (r: &MultiEpsMatcher<W, M1>) {
        &self.matcher1
    }

    fn matcher2(&self) -> (r: &MultiEpsMatcher<W, M2>) {
        &self.matcher2
    }

    fn matcher1_shared(&self) -> (r: Option<Arc<MultiEpsMatcher<W, M1>>>) {
        Some(arc_clone(&self.matcher1))
    }

    fn matcher2_shared(&self) -> (r: Option<Arc<MultiEpsMatcher<W, M2>>>) {
        Some(arc_clone(&self.matcher2))
    }
}

/// The wrapped matcher of a multi-epsilon matcher given to a builder; fails
/// when it is shared.
fn unwrap_matcher<W: Semiring, M: Matcher<W>>(m: Option<MultiEpsMatcher<W, M>>) -> (r: Result<Option<M>, FstError>)
    ensures
        m is None ==> r == Ok::<Option<M>, FstError>(None),
        r matches Ok(Some(v)) ==> m matches Some(mm) && v == *mm.matcher,
        r matches Ok(None) ==> m is None,
{
    match m {
        None => Ok(None),
        Some(mm) => match arc_try_unwrap(mm.matcher) {
            Ok(v) => Ok(Some(v)),
            Err(_) => Err(FstError::UnsupportedConfig),
        },
    }
}

impl<W: Semiring, M1: LookaheadMatcher<W>, M2: LookaheadMatcher<W>, CFB: ComposeFilterBuilder<W, M1, M2>, SMT: MatchTypeTrait>
    ComposeFilterBuilder<W, MultiEpsMatcher<W, M1>, MultiEpsMatcher<W, M2>> for PushLabelsComposeFilterBuilder<W, M1, M2, CFB, SMT> where
    CFB::CF: LookAheadComposeFilterTrait<W, M1, M2> {
    type CF = PushLabelsComposeFilter<W, M1, M2, CFB::CF, SMT>;

    open spec fn matcher1_spec(&self) -> MultiEpsMatcher<W, M1> {
        *self.matcher1
    }

    open spec fn matcher2_spec(&self) -> MultiEpsMatcher<W, M2> {
        *self.matcher2
    }

    open spec fn builder_inv(&self) -> bool {
        self.filter_builder.builder_inv()
    }

    open spec fn keeps_matchers_spec() -> bool {
        false
    }

    fn keeps_matchers() -> (b: bool) {
        false
    }

    open spec fn new_ok(
        fst1: VectorFst<W>,
        fst2: VectorFst<W>,
        matcher1: Option<MultiEpsMatcher<W, M1>>,
        matcher2: Option<MultiEpsMatcher<W, M2>>,
    ) -> bool {
        false
    }

    open spec fn build_ok(&self) -> bool {
        false
    }

    /// Builds the wrapped filter once to learn its matchers and lookahead
    /// side: the first matcher matches outputs and the second inputs, the
    /// one on the lookahead side with the multi-epsilon labels as a list,
    /// the other as loops. A matcher given here must not be shared.
    fn new(
        fst1: Arc<VectorFst<W>>,
        fst2: Arc<VectorFst<W>>,
        matcher1: Option<MultiEpsMatcher<W, M1>>,
        matcher2: Option<MultiEpsMatcher<W, M2>>,
    ) -> (r: Result<Self, FstError>) {
        let m1 = unwrap_matcher(matcher1)?;
        let m2 = unwrap_matcher(matcher2)?;
        let f1 = arc_clone(&fst1);
        let f2 = arc_clone(&fst2);
        let filter_builder = CFB::new(fst1, fst2, m1, m2)?;
        let filter = filter_builder.build()?;
        let a1 = match filter.matcher1_shared() {
            Some(a) => a,
            None => return Err(FstError::UnsupportedConfig),
        };
        let a2 = match filter.matcher2_shared() {
            Some(a) => a,
            None => return Err(FstError::UnsupportedConfig),
        };
        let lookahead_output = filter.lookahead_output();
        let flags1 = if lookahead_output {
            MultiEpsMatcherFlags::multi_eps_list()
        } else {
            MultiEpsMatcherFlags::multi_eps_loop()
        };
        let flags2 = if lookahead_output {
            MultiEpsMatcherFlags::multi_eps_loop()
        } else {
            MultiEpsMatcherFlags::multi_eps_list()
        };
        let matcher1 = MultiEpsMatcher::new_with_opts(f1, MatchType::MatchOutput, flags1, Some(a1))?;
        let matcher2 = MultiEpsMatcher::new_with_opts(f2, MatchType::MatchInput, flags2, Some(a2))?;
        Ok(PushLabelsComposeFilterBuilder {
            filter_builder,
            matcher1: Arc::new(matcher1),
            matcher2: Arc::new(matcher2),
            lookahead_output,
            phantom: PhantomData,
        })
    }

    /// A filter over a new wrapped filter, sharing the builder's matchers,
    /// with no state set yet.
    fn build(&self) -> (r: Result<Self::CF, FstError>) {
        let filter = self.filter_builder.build()?;
        if filter.lookahead_output() != self.lookahead_output {
            return Err(FstError::UnsupportedConfig);
        }
        Ok(PushLabelsComposeFilter {
            matcher1: arc_clone(&self.matcher1),
            matcher2: arc_clone(&self.matcher2),
            filter,
            fs: PairFilterState::new_no_state(),
            ntrsa: 0,
            phantom: PhantomData,
        })
    }
}

} // verus!
