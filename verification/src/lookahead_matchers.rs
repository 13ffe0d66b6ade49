use vstd::prelude::*;

use std::marker::PhantomData;
use std::sync::Arc;

use crate::fst::{tr_label, FstError, Tr, VectorFst};
use crate::label_reachable::{finals_nonzero, label_data_of, reached, reached_sum, trs_upto, LabelReachable, LabelReachableData};
use crate::matchers::{flags_contain, IterItemMatcher, MatchType, Matcher, MatcherFlags};
use crate::semirings::Semiring;
use crate::shared::arc_clone;
use crate::{Label, StateId, EPS_LABEL, NO_LABEL, NO_STATE_ID};

verus! {

/// Flags a lookahead matcher is configured with, given by its type.
pub trait MatcherFlagsTrait {
    spec fn flags_spec() -> MatcherFlags;

    fn flags() -> (r: MatcherFlags)
        ensures
            r == Self::flags_spec(),
    ;
}

/// The flags of an input-label lookahead matcher: lookahead on input labels,
/// with weight, prefix, epsilons and non-epsilon prefix.
pub struct ILabelLookAheadFlags;

/// The flags of an output-label lookahead matcher: lookahead on output labels,
/// with weight, prefix, epsilons and non-epsilon prefix.
pub struct OLabelLookAheadFlags;

impl MatcherFlagsTrait for ILabelLookAheadFlags {
    open spec fn flags_spec() -> MatcherFlags {
        MatcherFlags { bits: 1744u32 }
    }

    fn flags() -> (r: MatcherFlags) {
        MatcherFlags { bits: 1744u32 }
    }
}

impl MatcherFlagsTrait for OLabelLookAheadFlags {
    open spec fn flags_spec() -> MatcherFlags {
        MatcherFlags { bits: 1760u32 }
    }

    fn flags() -> (r: MatcherFlags) {
        MatcherFlags { bits: 1760u32 }
    }
}

/// What a lookahead found: a weight, and a prefix transition (unset when its
/// destination is `NO_STATE_ID`).
#[derive(Debug, PartialEq, Eq)]
pub struct LookAheadMatcherData<W> {
    pub lookahead_weight: W,
    pub prefix_tr: Tr<W>,
}

/// The data with weight one and no prefix.
pub open spec fn default_la_data<W: Semiring>() -> LookAheadMatcherData<W> {
    LookAheadMatcherData {
        lookahead_weight: W::one_spec(),
        prefix_tr: Tr { ilabel: 0, olabel: 0, weight: W::one_spec(), nextstate: NO_STATE_ID },
    }
}

impl<W: Semiring> Default for LookAheadMatcherData<W> {
    fn default() -> (r: Self)
        ensures
            r == default_la_data::<W>(),
    {
        LookAheadMatcherData::new(W::one(), Tr::new(0, 0, W::one(), NO_STATE_ID))
    }
}

impl<W: Semiring> LookAheadMatcherData<W> {
    pub fn new(lookahead_weight: W, prefix_tr: Tr<W>) -> (r: Self)
        ensures
            r.lookahead_weight == lookahead_weight,
            r.prefix_tr == prefix_tr,
    {
        LookAheadMatcherData { lookahead_weight, prefix_tr }
    }

    pub fn clear_lookahead_weight(&mut self)
        ensures
            final(self).lookahead_weight == W::one_spec(),
            final(self).prefix_tr == old(self).prefix_tr,
    {
        self.lookahead_weight = W::one();
    }

    pub fn set_lookahead_weight(&mut self, weight: W)
        ensures
            final(self).lookahead_weight == weight,
            final(self).prefix_tr == old(self).prefix_tr,
    {
        self.lookahead_weight = weight;
    }

    pub fn clear_lookahead_prefix(&mut self)
        ensures
            final(self).lookahead_weight == old(self).lookahead_weight,
            final(self).prefix_tr == (Tr { nextstate: NO_STATE_ID, ..old(self).prefix_tr }),
    {
        self.prefix_tr.nextstate = NO_STATE_ID;
    }

    pub fn set_lookahead_prefix(&mut self, tr: Tr<W>)
        ensures
            final(self).lookahead_weight == old(self).lookahead_weight,
            final(self).prefix_tr == tr,
    {
        self.prefix_tr = tr;
    }

    /// Copies the prefix transition into `tr` when one is set.
    pub fn default_lookahead_prefix(&self, tr: &mut Tr<W>) -> (b: bool)
        ensures
            b == (self.prefix_tr.nextstate != NO_STATE_ID),
            b ==> *final(tr) == self.prefix_tr,
            !b ==> *final(tr) == *old(tr),
    {
        if self.prefix_tr.nextstate != NO_STATE_ID {
            *tr = self.prefix_tr.tr_clone();
            true
        } else {
            false
        }
    }

    pub fn data_clone(&self) -> (r: Self)
        ensures
            r == *self,
    {
        LookAheadMatcherData { lookahead_weight: self.lookahead_weight.weight_clone(), prefix_tr: self.prefix_tr.tr_clone() }
    }
}

/// A matcher that can also look ahead: tell whether paths of another FST can
/// be read from a state.
pub trait LookaheadMatcher<W: Semiring>: Matcher<W> {
    type MatcherData;

    /// The lookahead FST may be given to `lookahead_fst`.
    spec fn la_ready(&self, lfst: VectorFst<W>) -> bool;

    /// What `lookahead_fst` may answer.
    spec fn la_fst_ok(&self, matcher_state: StateId, lfst: VectorFst<W>, lfst_state: StateId, r: Option<LookAheadMatcherData<W>>) -> bool;

    /// Whether `lookahead_label` succeeds.
    spec fn la_label_ok(&self, state: StateId, label: Label) -> bool;

    /// What `lookahead_label` answers when it succeeds.
    spec fn la_label_spec(&self, state: StateId, label: Label) -> bool;

    /// Whether `lookahead_prefix` reports a prefix.
    spec fn la_prefix_spec(&self, la: LookAheadMatcherData<W>) -> bool;

    fn data(&self) -> (r: Option<&Arc<Self::MatcherData>>);

    /// The inputs on which `new_with_data` is sure to succeed.
    spec fn new_with_data_ok(fst: VectorFst<W>, match_type: MatchType, data: Option<Arc<Self::MatcherData>>) -> bool;

    /// The inputs on which `create_data` is sure to succeed.
    spec fn create_data_ok(fst: VectorFst<W>, match_type: MatchType) -> bool;

    /// The lookahead FSTs on which `init_lookahead_fst` is sure to succeed.
    spec fn la_init_ok(&self, lfst: VectorFst<W>) -> bool;

    /// The arguments on which `lookahead_fst` is sure to succeed.
    spec fn la_fst_succeeds(&self, matcher_state: StateId, lfst: VectorFst<W>, lfst_state: StateId) -> bool;

    fn new_with_data(fst: Arc<VectorFst<W>>, match_type: MatchType, data: Option<Arc<Self::MatcherData>>) -> (r: Result<Self, FstError>)
        requires
            fst.wf(),
        ensures
            r matches Ok(m) ==> m.wf() && m.fst_spec() == *fst,
            Self::new_with_data_ok(*fst, match_type, data) ==> r is Ok,
    ;

    /// Whether `create_data` gives data for the side `match_type`.
    spec fn creates_data(match_type: MatchType) -> bool;

    /// `data` is data for `fst` on the side `match_type`.
    spec fn data_for(fst: VectorFst<W>, match_type: MatchType, data: Self::MatcherData) -> bool;

    fn create_data(fst: &VectorFst<W>, match_type: MatchType) -> (r: Result<Option<Self::MatcherData>, FstError>)
        requires
            fst.wf(),
        ensures
            Self::create_data_ok(*fst, match_type) ==> r is Ok,
            r matches Ok(d) ==> (d is Some <==> Self::creates_data(match_type)),
            r matches Ok(Some(d)) ==> Self::data_for(*fst, match_type, d),
    ;

    fn init_lookahead_fst(&mut self, lfst: &VectorFst<W>) -> (r: Result<(), FstError>)
        ensures
            old(self).la_init_ok(*lfst) ==> r is Ok,
            final(self).fst_spec() == old(self).fst_spec(),
            final(self).wf() == old(self).wf(),
            final(self).can_iter() == old(self).can_iter(),
            forall|test: bool| #[trigger] final(self).match_type_spec(test) == old(self).match_type_spec(test),
            final(self).flags_spec() == old(self).flags_spec(),
            r is Ok ==> final(self).la_ready(*lfst),
    ;

    fn lookahead_fst(&self, matcher_state: StateId, lfst: &VectorFst<W>, lfst_state: StateId)
        -> (r: Result<Option<LookAheadMatcherData<W>>, FstError>)
        requires
            self.wf(),
            self.can_iter(),
            lfst.wf(),
            self.la_ready(*lfst),
        ensures
            r matches Ok(o) ==> self.la_fst_ok(matcher_state, *lfst, lfst_state, o),
            self.la_fst_succeeds(matcher_state, *lfst, lfst_state) ==> r is Ok,
    ;

    fn lookahead_label(&self, state: StateId, label: Label) -> (r: Result<bool, FstError>)
        requires
            self.wf(),
            self.can_iter(),
        ensures
            (r is Ok) == self.la_label_ok(state, label),
            r matches Ok(b) ==> b == self.la_label_spec(state, label),
    ;

    fn lookahead_prefix(&self, tr: &mut Tr<W>, la_matcher_data: &LookAheadMatcherData<W>) -> (b: bool)
        ensures
            b == self.la_prefix_spec(*la_matcher_data),
            b ==> *final(tr) == la_matcher_data.prefix_tr && la_matcher_data.prefix_tr.nextstate != NO_STATE_ID,
            !b ==> *final(tr) == *old(tr),
    ;
}

/// A lookahead matcher that always answers that lookahead succeeds.
pub struct TrivialLookAheadMatcher<W, M> {
    pub matcher: M,
    pub w: PhantomData<W>,
}

impl<W: Semiring, M: Matcher<W>> Matcher<W> for TrivialLookAheadMatcher<W, M> {
    open spec fn fst_spec(&self) -> VectorFst<W> {
        self.matcher.fst_spec()
    }

    open spec fn wf(&self) -> bool {
        self.matcher.wf()
    }

    open spec fn can_iter(&self) -> bool {
        self.matcher.can_iter()
    }

    open spec fn accepts_label(&self, label: Label) -> bool {
        self.matcher.accepts_label(label)
    }

    open spec fn iter_spec(&self, state: StateId, label: Label) -> Seq<IterItemMatcher<W>> {
        self.matcher.iter_spec(state, label)
    }

    open spec fn match_type_spec(&self, test: bool) -> MatchType {
        self.matcher.match_type_spec(test)
    }

    open spec fn flags_spec(&self) -> MatcherFlags {
        MatcherFlags { bits: self.matcher.flags_spec().bits | 16u32 | 32u32 }
    }

    open spec fn priority_spec(&self, state: StateId) -> usize {
        self.matcher.priority_spec(state)
    }

    open spec fn new_ok(fst: VectorFst<W>, match_type: MatchType) -> bool {
        M::new_ok(fst, match_type)
    }

    fn new(fst: Arc<VectorFst<W>>, match_type: MatchType) -> (r: Result<Self, FstError>) {
        Ok(TrivialLookAheadMatcher { matcher: M::new(fst, match_type)?, w: PhantomData })
    }

    fn iter(&self, state: StateId, label: Label) -> (r: Result<Vec<IterItemMatcher<W>>, FstError>) {
        self.matcher.iter(state, label)
    }

    proof fn lemma_iter_within(&self, state: StateId, label: Label) {
        self.matcher.lemma_iter_within(state, label);
    }

    fn final_weight(&self, state: StateId) -> (r: Result<Option<W>, FstError>) {
        self.matcher.final_weight(state)
    }

    fn match_type(&self, test: bool) -> (r: Result<MatchType, FstError>) {
        self.matcher.match_type(test)
    }

    fn flags(&self) -> (r: MatcherFlags) {
        self.matcher.flags().union(MatcherFlags::input_lookahead_matcher()).union(MatcherFlags::output_lookahead_matcher())
    }

    fn priority(&self, state: StateId) -> (r: Result<usize, FstError>) {
        self.matcher.priority(state)
    }

    fn fst(&self) -> (r: &VectorFst<W>) {
        self.matcher.fst()
    }

    proof fn lemma_match_type_can_iter(&self, test: bool) {
        self.matcher.lemma_match_type_can_iter(test);
    }
}

impl<W: Semiring, M: Matcher<W>> LookaheadMatcher<W> for TrivialLookAheadMatcher<W, M> {
    type MatcherData = ();

    open spec fn la_ready(&self, lfst: VectorFst<W>) -> bool {
        true
    }

    open spec fn la_fst_ok(&self, matcher_state: StateId, lfst: VectorFst<W>, lfst_state: StateId, r: Option<LookAheadMatcherData<W>>) -> bool {
        r == Some(default_la_data::<W>())
    }

    open spec fn la_label_ok(&self, state: StateId, label: Label) -> bool {
        true
    }

    open spec fn la_label_spec(&self, state: StateId, label: Label) -> bool {
        true
    }

    open spec fn la_prefix_spec(&self, la: LookAheadMatcherData<W>) -> bool {
        false
    }

    open spec fn new_with_data_ok(fst: VectorFst<W>, match_type: MatchType, data: Option<Arc<()>>) -> bool {
        M::new_ok(fst, match_type)
    }

    open spec fn create_data_ok(fst: VectorFst<W>, match_type: MatchType) -> bool {
        true
    }

    open spec fn creates_data(match_type: MatchType) -> bool {
        false
    }

    open spec fn data_for(fst: VectorFst<W>, match_type: MatchType, data: ()) -> bool {
        true
    }

    open spec fn la_init_ok(&self, lfst: VectorFst<W>) -> bool {
        true
    }

    open spec fn la_fst_succeeds(&self, matcher_state: StateId, lfst: VectorFst<W>, lfst_state: StateId) -> bool {
        true
    }

    fn data(&self) -> (r: Option<&Arc<Self::MatcherData>>)
        ensures
            r is None,
    {
        None
    }

    fn new_with_data(fst: Arc<VectorFst<W>>, match_type: MatchType, data: Option<Arc<Self::MatcherData>>) -> (r: Result<Self, FstError>) {
        Self::new(fst, match_type)
    }

    fn create_data(fst: &VectorFst<W>, match_type: MatchType) -> (r: Result<Option<Self::MatcherData>, FstError>)
        ensures
            r == Ok::<Option<()>, FstError>(None),
    {
        Ok(None)
    }

    fn init_lookahead_fst(&mut self, lfst: &VectorFst<W>) -> (r: Result<(), FstError>)
        ensures
            r is Ok,
            *final(self) == *old(self),
    {
        Ok(())
    }

    fn lookahead_fst(&self, matcher_state: StateId, lfst: &VectorFst<W>, lfst_state: StateId)
        -> (r: Result<Option<LookAheadMatcherData<W>>, FstError>)
        ensures
            r == Ok::<Option<LookAheadMatcherData<W>>, FstError>(Some(default_la_data::<W>())),
    {
        Ok(Some(LookAheadMatcherData::default()))
    }

    fn lookahead_label(&self, state: StateId, label: Label) -> (r: Result<bool, FstError>) {
        Ok(true)
    }

    fn lookahead_prefix(&self, tr: &mut Tr<W>, la_matcher_data: &LookAheadMatcherData<W>) -> (b: bool) {
        false
    }
}

/// Whether a label lookahead matcher computes label reachability for the side
/// it matches.
pub open spec fn label_data_wanted<MFT: MatcherFlagsTrait>(match_type: MatchType) -> bool {
    ||| match_type == MatchType::MatchInput && flags_contain(MFT::flags_spec(), MatcherFlags { bits: 16 })
    ||| match_type != MatchType::MatchInput && flags_contain(MFT::flags_spec(), MatcherFlags { bits: 32 })
}

/// The inputs on which a label lookahead matcher is sure to be built: its
/// flags allow lookahead, given data for the matched side is well formed, no
/// data has to be computed, and the inner matcher can be built.
pub open spec fn label_build_ok<W: Semiring, M: Matcher<W>, MFT: MatcherFlagsTrait>(
    fst: VectorFst<W>,
    match_type: MatchType,
    data: Option<Arc<LabelReachableData>>,
) -> bool {
    &&& (flags_contain(MFT::flags_spec(), MatcherFlags { bits: 16 }) || flags_contain(MFT::flags_spec(), MatcherFlags { bits: 32 }))
    &&& match data {
        Some(d) => d.reach_input == (match_type == MatchType::MatchInput) ==> d.wf(),
        None => !label_data_wanted::<MFT>(match_type),
    }
    &&& M::new_ok(fst, match_type)
}

/// A lookahead matcher that tells from label reachability whether the labels
/// leaving a state of the other FST can be read from a state of its FST.
pub struct LabelLookAheadMatcher<W, M, MFT> {
    pub matcher: M,
    pub reachable: Option<LabelReachable>,
    pub phantom: PhantomData<(W, MFT)>,
}

/// Some transition of `trs` carries a label reachable in `iset`.
pub open spec fn some_reached<W>(iset: crate::interval_set::IntervalSet, trs: Seq<Tr<W>>, input: bool) -> bool {
    exists|p: int| 0 <= p < trs.len() && #[trigger] reached(iset, trs, input, p)
}

/// Exactly one transition of `trs` carries a label reachable in `iset`.
#[verifier::opaque]
pub open spec fn single_reached<W>(iset: crate::interval_set::IntervalSet, trs: Seq<Tr<W>>, input: bool) -> bool {
    exists|p: int| 0 <= p < trs.len() && #[trigger] reached(iset, trs, input, p)
        && forall|q: int| 0 <= q < trs.len() && #[trigger] reached(iset, trs, input, q) ==> q == p
}

/// The transition that carries a reachable label, when it is the only one.
#[verifier::opaque]
pub open spec fn the_reached<W>(iset: crate::interval_set::IntervalSet, trs: Seq<Tr<W>>, input: bool) -> Tr<W> {
    trs[choose|p: int| 0 <= p < trs.len() && #[trigger] reached(iset, trs, input, p)]
}

/// What label lookahead reports from a state of the matcher's FST over a
/// state of the other FST: when a single transition carries a reachable
/// label (and prefixes are computed, and the final weight is not reached),
/// that transition as prefix and weight one; otherwise the sum of the
/// reached transitions' weights, plus the final weight when it is reached
/// (both only when weights are computed).
pub open spec fn label_la_data<W: Semiring>(
    iset: crate::interval_set::IntervalSet,
    trs: Seq<Tr<W>>,
    input: bool,
    fin: bool,
    fw: Option<W>,
    cw: bool,
    cp: bool,
) -> LookAheadMatcherData<W> {
    let some = some_reached(iset, trs, input);
    let pushed = some && cp && single_reached(iset, trs, input) && !fin;
    let prefix = if pushed { the_reached(iset, trs, input) } else { default_la_data::<W>().prefix_tr };
    let w_tr = if cw { reached_sum(iset, trs, input, 0, trs.len() as int) } else { W::zero_spec() };
    let w_a = if some && !pushed { w_tr } else { W::one_spec() };
    let w = if fin && cw && !pushed {
        if some { W::plus_spec(w_a, fw->0) } else { fw->0 }
    } else {
        w_a
    };
    LookAheadMatcherData { lookahead_weight: w, prefix_tr: prefix }
}

/// What the answer of `reach` over all the transitions tells of them.
proof fn lemma_reach_result<W>(iset: crate::interval_set::IntervalSet, trs: Seq<Tr<W>>, input: bool, res: Option<(usize, usize, W)>)
    requires
        match res {
            None => forall|p: int| 0 <= p < trs.len() ==> !#[trigger] reached(iset, trs, input, p),
            Some((rb, re, _)) => {
                &&& 0 <= rb < re <= trs.len()
                &&& reached(iset, trs, input, rb as int)
                &&& reached(iset, trs, input, re - 1)
                &&& forall|p: int| 0 <= p < rb ==> !#[trigger] reached(iset, trs, input, p)
                &&& forall|p: int| re <= p < trs.len() ==> !#[trigger] reached(iset, trs, input, p)
            },
        },
    ensures
        (res is Some) == some_reached(iset, trs, input),
        res matches Some((rb, re, _)) ==> (re - rb == 1) == single_reached(iset, trs, input)
            && (re - rb == 1 ==> the_reached(iset, trs, input) == trs[rb as int]),
{
    reveal(single_reached);
    reveal(the_reached);
    match res {
        Some((rb, re, _)) => {
            assert(reached(iset, trs, input, rb as int));
            if re - rb == 1 {
                assert forall|q: int| 0 <= q < trs.len() && #[trigger] reached(iset, trs, input, q) implies q == rb by {}
                let c = choose|p: int| 0 <= p < trs.len() && #[trigger] reached(iset, trs, input, p);
                assert(c == rb);
            } else {
                if single_reached(iset, trs, input) {
                    let p = choose|p: int| 0 <= p < trs.len() && #[trigger] reached(iset, trs, input, p)
                        && forall|q: int| 0 <= q < trs.len() && #[trigger] reached(iset, trs, input, q) ==> q == p;
                    assert(reached(iset, trs, input, rb as int));
                    assert(reached(iset, trs, input, re - 1));
                }
            }
        },
        None => {},
    }
}

impl<W: Semiring, M: Matcher<W>, MFT: MatcherFlagsTrait> LabelLookAheadMatcher<W, M, MFT> {
    /// A matcher on an FST, with label reachability from `data` when it is for
    /// the matched side, or computed when no data is given.
    fn build(fst: Arc<VectorFst<W>>, match_type: MatchType, data: Option<Arc<LabelReachableData>>) -> (r: Result<Self, FstError>)
        requires
            fst.wf(),
        ensures
            r matches Ok(m) ==> m.wf() && m.fst_spec() == *fst,
            !flags_contain(MFT::flags_spec(), MatcherFlags { bits: 16 }) && !flags_contain(MFT::flags_spec(), MatcherFlags { bits: 32 })
                ==> r == Err::<Self, FstError>(FstError::BadMatcherFlags),
            label_build_ok::<W, M, MFT>(*fst, match_type, data) ==> r is Ok,
    {
        let flags = MFT::flags();
        if !(flags.contains(MatcherFlags::input_lookahead_matcher()) || flags.contains(MatcherFlags::output_lookahead_matcher())) {
            return Err(FstError::BadMatcherFlags);
        }
        let reach_input = match_type == MatchType::MatchInput;
        let mut reachable: Option<LabelReachable> = None;
        match data {
            Some(d) => {
                if reach_input == d.reach_input() {
                    if !d.wf_check() {
                        return Err(FstError::InvalidData);
                    }
                    reachable = Some(LabelReachable::new_from_data(d));
                }
            },
            None => {
                match Self::create_data(&fst, match_type)? {
                    Some(d) => {
                        reachable = Some(LabelReachable::new_from_data(Arc::new(d)));
                    },
                    None => {},
                }
            },
        }
        let matcher = M::new(fst, match_type)?;
        Ok(LabelLookAheadMatcher { matcher, reachable, phantom: PhantomData })
    }
}

impl<W: Semiring, M: Matcher<W>, MFT: MatcherFlagsTrait> Matcher<W> for LabelLookAheadMatcher<W, M, MFT> {
    open spec fn fst_spec(&self) -> VectorFst<W> {
        self.matcher.fst_spec()
    }

    open spec fn wf(&self) -> bool {
        &&& self.matcher.wf()
        &&& (self.reachable matches Some(r) ==> r.wf())
    }

    open spec fn can_iter(&self) -> bool {
        self.matcher.can_iter()
    }

    open spec fn accepts_label(&self, label: Label) -> bool {
        self.matcher.accepts_label(label)
    }

    open spec fn iter_spec(&self, state: StateId, label: Label) -> Seq<IterItemMatcher<W>> {
        self.matcher.iter_spec(state, label)
    }

    open spec fn match_type_spec(&self, test: bool) -> MatchType {
        self.matcher.match_type_spec(test)
    }

    open spec fn flags_spec(&self) -> MatcherFlags {
        match self.reachable {
            Some(r) => if r.data.reach_input {
                MatcherFlags { bits: self.matcher.flags_spec().bits | MFT::flags_spec().bits | 16u32 }
            } else {
                MatcherFlags { bits: self.matcher.flags_spec().bits | MFT::flags_spec().bits | 32u32 }
            },
            None => self.matcher.flags_spec(),
        }
    }

    open spec fn priority_spec(&self, state: StateId) -> usize {
        self.matcher.priority_spec(state)
    }

    open spec fn new_ok(fst: VectorFst<W>, match_type: MatchType) -> bool {
        fst.wf() && label_build_ok::<W, M, MFT>(fst, match_type, None)
    }

    /// A matcher on a well-formed FST, computing its label reachability; fails on
    /// an FST with a transition to a missing state.
    fn new(fst: Arc<VectorFst<W>>, match_type: MatchType) -> (r: Result<Self, FstError>) {
        if !fst.check_wf() {
            return Err(FstError::StateOutOfRange);
        }
        Self::build(fst, match_type, None)
    }

    fn iter(&self, state: StateId, label: Label) -> (r: Result<Vec<IterItemMatcher<W>>, FstError>) {
        self.matcher.iter(state, label)
    }

    proof fn lemma_iter_within(&self, state: StateId, label: Label) {
        self.matcher.lemma_iter_within(state, label);
    }

    fn final_weight(&self, state: StateId) -> (r: Result<Option<W>, FstError>) {
        self.matcher.final_weight(state)
    }

    fn match_type(&self, test: bool) -> (r: Result<MatchType, FstError>) {
        self.matcher.match_type(test)
    }

    fn flags(&self) -> (r: MatcherFlags) {
        match &self.reachable {
            Some(reachable) => {
                if reachable.reach_input() {
                    self.matcher.flags().union(MFT::flags()).union(MatcherFlags::input_lookahead_matcher())
                } else {
                    self.matcher.flags().union(MFT::flags()).union(MatcherFlags::output_lookahead_matcher())
                }
            },
            None => self.matcher.flags(),
        }
    }

    fn priority(&self, state: StateId) -> (r: Result<usize, FstError>) {
        self.matcher.priority(state)
    }

    fn fst(&self) -> (r: &VectorFst<W>) {
        self.matcher.fst()
    }

    proof fn lemma_match_type_can_iter(&self, test: bool) {
        self.matcher.lemma_match_type_can_iter(test);
    }
}

impl<W: Semiring, M: Matcher<W>, MFT: MatcherFlagsTrait> LookaheadMatcher<W> for LabelLookAheadMatcher<W, M, MFT> {
    type MatcherData = LabelReachableData;

    open spec fn la_ready(&self, lfst: VectorFst<W>) -> bool {
        self.reachable matches Some(r) ==> lfst.sorted_spec(r.reach_fst_input)
    }

    open spec fn la_fst_ok(&self, matcher_state: StateId, lfst: VectorFst<W>, lfst_state: StateId, r: Option<LookAheadMatcherData<W>>) -> bool {
        match self.reachable {
            None => r == Some(default_la_data::<W>()),
            Some(reachable) => {
                let iset = reachable.data.interval_sets@[matcher_state as int];
                let trs = lfst.states@[lfst_state as int].trs@;
                let fw = lfst.states@[lfst_state as int].final_weight;
                let fin = crate::label_reachable::nonzero_final(fw) && iset.contains_point(reachable.data.final_label as int);
                &&& (r is Some <==> (some_reached(iset, trs, reachable.reach_fst_input) || fin))
                &&& (r is Some ==> r == Some(label_la_data(iset, trs, reachable.reach_fst_input, fin, fw,
                    flags_contain(MFT::flags_spec(), MatcherFlags { bits: 64 }), flags_contain(MFT::flags_spec(), MatcherFlags { bits: 128 }))))
            },
        }
    }

    open spec fn la_label_ok(&self, state: StateId, label: Label) -> bool {
        label == EPS_LABEL || (self.reachable matches Some(r) ==> state < r.data.interval_sets@.len())
    }

    open spec fn la_label_spec(&self, state: StateId, label: Label) -> bool {
        label == EPS_LABEL || (self.reachable matches Some(r) ==> r.data.interval_sets@[state as int].contains_point(label as int))
    }

    open spec fn la_prefix_spec(&self, la: LookAheadMatcherData<W>) -> bool {
        la.prefix_tr.nextstate != NO_STATE_ID
    }

    open spec fn new_with_data_ok(fst: VectorFst<W>, match_type: MatchType, data: Option<Arc<LabelReachableData>>) -> bool {
        label_build_ok::<W, M, MFT>(fst, match_type, data)
    }

    open spec fn create_data_ok(fst: VectorFst<W>, match_type: MatchType) -> bool {
        label_data_wanted::<MFT>(match_type) ==> finals_nonzero(fst)
            && 2 * fst.states@.len() + trs_upto(fst, fst.states@.len() as int) + 3 < usize::MAX
    }

    open spec fn creates_data(match_type: MatchType) -> bool {
        label_data_wanted::<MFT>(match_type)
    }

    open spec fn data_for(fst: VectorFst<W>, match_type: MatchType, data: LabelReachableData) -> bool {
        label_data_of(fst, match_type == MatchType::MatchInput, data)
    }

    open spec fn la_init_ok(&self, lfst: VectorFst<W>) -> bool {
        self.reachable matches Some(r) ==> lfst.sorted_spec(self.matcher.match_type_spec(false) == MatchType::MatchOutput)
    }

    open spec fn la_fst_succeeds(&self, matcher_state: StateId, lfst: VectorFst<W>, lfst_state: StateId) -> bool {
        match self.reachable {
            None => true,
            Some(r) => lfst_state < lfst.states@.len() && matcher_state < r.data.interval_sets@.len(),
        }
    }

    fn data(&self) -> (r: Option<&Arc<Self::MatcherData>>)
        ensures
            self.reachable is None ==> r is None,
            self.reachable matches Some(reachable) ==> (r matches Some(d) && **d == *reachable.data),
    {
        match &self.reachable {
            Some(reachable) => Some(reachable.data()),
            None => None,
        }
    }

    fn new_with_data(fst: Arc<VectorFst<W>>, match_type: MatchType, data: Option<Arc<Self::MatcherData>>) -> (r: Result<Self, FstError>) {
        Self::build(fst, match_type, data)
    }

    fn create_data(fst: &VectorFst<W>, match_type: MatchType) -> (r: Result<Option<Self::MatcherData>, FstError>)
        ensures
            r matches Ok(Some(d)) ==> d.wf() && d.reach_input == (match_type == MatchType::MatchInput),
            r matches Ok(Some(_)) <==> (match_type == MatchType::MatchInput && flags_contain(MFT::flags_spec(), MatcherFlags { bits: 16 })
                || match_type != MatchType::MatchInput && flags_contain(MFT::flags_spec(), MatcherFlags { bits: 32 })) && r is Ok,
            !label_data_wanted::<MFT>(match_type) ==> r == Ok::<Option<LabelReachableData>, FstError>(None),
    {
        let reach_input = match_type == MatchType::MatchInput;
        let flags = MFT::flags();
        if (reach_input && flags.contains(MatcherFlags::input_lookahead_matcher()))
            || (!reach_input && flags.contains(MatcherFlags::output_lookahead_matcher())) {
            Ok(Some(LabelReachable::compute_data(fst, reach_input)?))
        } else {
            Ok(None)
        }
    }

    fn init_lookahead_fst(&mut self, lfst: &VectorFst<W>) -> (r: Result<(), FstError>) {
        let reach_input = self.matcher.match_type(false)? == MatchType::MatchOutput;
        match &mut self.reachable {
            Some(reachable) => {
                reachable.reach_init(lfst, reach_input)?;
            },
            None => {},
        }
        Ok(())
    }

    fn lookahead_fst(&self, matcher_state: StateId, lfst: &VectorFst<W>, lfst_state: StateId)
        -> (r: Result<Option<LookAheadMatcherData<W>>, FstError>)
    {
        let mut la_matcher_data: LookAheadMatcherData<W> = LookAheadMatcherData::default();
        la_matcher_data.clear_lookahead_weight();
        la_matcher_data.clear_lookahead_prefix();
        assert(la_matcher_data == default_la_data::<W>());
        match &self.reachable {
            Some(reachable) => {
                let flags = MFT::flags();
                let mut compute_weight = flags.contains(MatcherFlags::lookahead_weight());
                let compute_prefix = flags.contains(MatcherFlags::lookahead_prefix());
                let trs = lfst.get_trs(lfst_state)?;
                let ntrs = trs.len();
                proof {
                    assert(crate::fst::trs_sorted(lfst.states@[lfst_state as int].trs@, reachable.reach_fst_input));
                }
                let reach_tr = reachable.reach(matcher_state, trs.as_slice(), 0, ntrs, compute_weight)?;
                let reach_tr_bool = reach_tr.is_some();
                let ghost iset = reachable.data.interval_sets@[matcher_state as int];
                let ghost input = reachable.reach_fst_input;
                proof {
                    lemma_reach_result(iset, trs@, input, reach_tr);
                }
                let lfinal = lfst.final_weight(lfst_state)?;
                let reach_final = match &lfinal {
                    Some(w) => !w.is_zero() && reachable.reach_final(matcher_state)?,
                    None => false,
                };
                match reach_tr {
                    Some((reach_begin, reach_end, reach_weight)) => {
                        if compute_prefix && reach_end - reach_begin == 1 && !reach_final {
                            la_matcher_data.set_lookahead_prefix(trs[reach_begin].tr_clone());
                            compute_weight = false;
                        } else {
                            la_matcher_data.set_lookahead_weight(reach_weight);
                        }
                    },
                    None => {},
                }
                if reach_final && compute_weight {
                    match lfinal {
                        Some(fw) => {
                            if reach_tr_bool {
                                let w = la_matcher_data.lookahead_weight.plus(&fw);
                                la_matcher_data.set_lookahead_weight(w);
                            } else {
                                la_matcher_data.set_lookahead_weight(fw);
                            }
                        },
                        None => {},
                    }
                }
                if reach_tr_bool || reach_final {
                    Ok(Some(la_matcher_data))
                } else {
                    Ok(None)
                }
            },
            None => Ok(Some(la_matcher_data)),
        }
    }

    fn lookahead_label(&self, state: StateId, label: Label) -> (r: Result<bool, FstError>) {
        if label == EPS_LABEL {
            return Ok(true);
        }
        match &self.reachable {
            Some(reachable) => reachable.reach_label(state, label),
            None => Ok(true),
        }
    }

    fn lookahead_prefix(&self, tr: &mut Tr<W>, la_matcher_data: &LookAheadMatcherData<W>) -> (b: bool) {
        la_matcher_data.default_lookahead_prefix(tr)
    }
}

/// A lookahead matcher that looks ahead one transition: it tells whether a
/// transition (or final weight) of the other FST can be matched from a state.
pub struct TrLookAheadMatcher<W, M, MFT> {
    pub fst: Arc<VectorFst<W>>,
    pub matcher: M,
    pub phantom: PhantomData<(W, MFT)>,
}

/// The label of a lookahead transition on the side the matcher reads.
pub open spec fn la_label<W>(tr: Tr<W>, match_type: MatchType) -> Label {
    if match_type == MatchType::MatchInput {
        tr.olabel
    } else {
        tr.ilabel
    }
}

/// Both the weight and the prefix flags are set.
pub open spec fn weight_and_prefix(flags: MatcherFlags) -> bool {
    flags_contain(flags, MatcherFlags { bits: 192 })
}

/// Transition `k` of the lookahead state can be followed: epsilon on the
/// matched side, or matched from the matcher state.
pub open spec fn tr_la_step<W: Semiring, M: Matcher<W>>(m: M, matcher_state: StateId, trs: Seq<Tr<W>>, k: int) -> bool {
    let label = la_label(trs[k], m.match_type_spec(false));
    label == EPS_LABEL || m.iter_spec(matcher_state, label).len() > 0
}

/// The weight of a matched item: that of its transition, one for an epsilon loop.
pub open spec fn item_weight<W: Semiring>(it: IterItemMatcher<W>) -> W {
    match it {
        IterItemMatcher::Tr(a) => a.weight,
        IterItemMatcher::EpsLoop => W::one_spec(),
    }
}

/// `w` plus the weight of each item in order, each times `tw` when given.
pub open spec fn sum_items<W: Semiring>(w: W, tw: Option<W>, items: Seq<IterItemMatcher<W>>) -> W
    decreases items.len(),
{
    if items.len() == 0 {
        w
    } else {
        W::plus_spec(
            sum_items(w, tw, items.drop_last()),
            match tw {
                Some(t) => W::times_spec(t, item_weight(items.last())),
                None => item_weight(items.last()),
            },
        )
    }
}

/// How many continuations a lookahead transition gives: one for an epsilon
/// (none when only non-epsilon prefixes count), else one per match.
pub open spec fn tr_la_count<W: Semiring, M: Matcher<W>>(m: M, ms: StateId, tr: Tr<W>, mt: MatchType, nep: bool) -> int {
    let l = la_label(tr, mt);
    if l == EPS_LABEL {
        if nep {
            0
        } else {
            1
        }
    } else {
        m.iter_spec(ms, l).len() as int
    }
}

/// The continuations the transitions give, in total.
pub open spec fn trs_la_count<W: Semiring, M: Matcher<W>>(m: M, ms: StateId, trs: Seq<Tr<W>>, mt: MatchType, nep: bool) -> int
    decreases trs.len(),
{
    if trs.len() == 0 {
        0
    } else {
        trs_la_count(m, ms, trs.drop_last(), mt, nep) + tr_la_count(m, ms, trs.last(), mt, nep)
    }
}

/// `w` plus the weight of each continuation the transitions give, in order:
/// an epsilon transition's weight, or a transition's weight times its match's.
pub open spec fn trs_la_weight<W: Semiring, M: Matcher<W>>(m: M, ms: StateId, trs: Seq<Tr<W>>, mt: MatchType, w: W) -> W
    decreases trs.len(),
{
    if trs.len() == 0 {
        w
    } else {
        let w1 = trs_la_weight(m, ms, trs.drop_last(), mt, w);
        let tr = trs.last();
        let l = la_label(tr, mt);
        if l == EPS_LABEL {
            W::plus_spec(w1, tr.weight)
        } else {
            sum_items(w1, Some(tr.weight), m.iter_spec(ms, l))
        }
    }
}

/// The first transition that gives a continuation, when it is not an epsilon one.
pub open spec fn trs_first_prefix<W: Semiring, M: Matcher<W>>(m: M, ms: StateId, trs: Seq<Tr<W>>, mt: MatchType, nep: bool) -> Option<Tr<W>>
    decreases trs.len(),
{
    if trs.len() == 0 {
        None
    } else if trs_la_count(m, ms, trs.drop_last(), mt, nep) > 0 {
        trs_first_prefix(m, ms, trs.drop_last(), mt, nep)
    } else if la_label(trs.last(), mt) != EPS_LABEL && m.iter_spec(ms, la_label(trs.last(), mt)).len() > 0 {
        Some(trs.last())
    } else {
        None
    }
}

proof fn lemma_trs_la_count_nonneg<W: Semiring, M: Matcher<W>>(m: M, ms: StateId, trs: Seq<Tr<W>>, mt: MatchType, nep: bool)
    ensures
        trs_la_count(m, ms, trs, mt, nep) >= 0,
    decreases trs.len(),
{
    if trs.len() > 0 {
        lemma_trs_la_count_nonneg(m, ms, trs.drop_last(), mt, nep);
    }
}

/// Transitions that give no continuation have no first prefix.
proof fn lemma_no_count_no_prefix<W: Semiring, M: Matcher<W>>(m: M, ms: StateId, trs: Seq<Tr<W>>, mt: MatchType, nep: bool)
    requires
        trs_la_count(m, ms, trs, mt, nep) == 0,
    ensures
        trs_first_prefix(m, ms, trs, mt, nep) is None,
    decreases trs.len(),
{
    if trs.len() > 0 {
        lemma_trs_la_count_nonneg(m, ms, trs.drop_last(), mt, nep);
        lemma_no_count_no_prefix(m, ms, trs.drop_last(), mt, nep);
    }
}

/// The prefix transition to report: the first one found, else none.
pub open spec fn prefix_or_default<W: Semiring>(p: Option<Tr<W>>) -> Tr<W> {
    match p {
        Some(t) => t,
        None => default_la_data::<W>().prefix_tr,
    }
}

impl<W: Semiring, M: Matcher<W>, MFT: MatcherFlagsTrait> TrLookAheadMatcher<W, M, MFT> {
    /// Lookahead can proceed: both states are final, or the matcher state has a
    /// non-consuming move, or some transition of the lookahead state can be followed.
    pub open spec fn la_possible(&self, matcher_state: StateId, lfst: VectorFst<W>, lfst_state: StateId) -> bool {
        let trs = lfst.states@[lfst_state as int].trs@;
        ||| (self.fst.states@[matcher_state as int].final_weight is Some && lfst.states@[lfst_state as int].final_weight is Some)
        ||| self.matcher.iter_spec(matcher_state, NO_LABEL).len() > 0
        ||| exists|k: int| 0 <= k < trs.len() && #[trigger] tr_la_step(self.matcher, matcher_state, trs, k)
    }

    /// Both states are final.
    pub open spec fn la_finals(&self, matcher_state: StateId, lfst: VectorFst<W>, lfst_state: StateId) -> bool {
        self.fst.states@[matcher_state as int].final_weight is Some && lfst.states@[lfst_state as int].final_weight is Some
    }

    /// Only non-epsilon transitions count towards a prefix.
    pub open spec fn non_eps_prefix(&self) -> bool {
        flags_contain(MFT::flags_spec(), MatcherFlags { bits: 1024 })
    }

    /// How many continuations lookahead finds: the final pair, the
    /// non-consuming moves of the matcher, and those the transitions give.
    pub open spec fn la_count(&self, matcher_state: StateId, lfst: VectorFst<W>, lfst_state: StateId) -> int {
        (if self.la_finals(matcher_state, lfst, lfst_state) { 1int } else { 0int })
            + (if self.matcher.iter_spec(matcher_state, NO_LABEL).len() > 0 { 1int } else { 0int })
            + trs_la_count(self.matcher, matcher_state, lfst.states@[lfst_state as int].trs@, self.matcher.match_type_spec(false), self.non_eps_prefix())
    }

    /// The weight of what lookahead finds: one, plus the product of the final
    /// weights, plus the non-consuming moves, plus the continuations.
    pub open spec fn la_weight(&self, matcher_state: StateId, lfst: VectorFst<W>, lfst_state: StateId) -> W {
        let w1 = if self.la_finals(matcher_state, lfst, lfst_state) {
            W::plus_spec(W::one_spec(), W::times_spec(
                self.fst.states@[matcher_state as int].final_weight->0,
                lfst.states@[lfst_state as int].final_weight->0,
            ))
        } else {
            W::one_spec()
        };
        let eps = self.matcher.iter_spec(matcher_state, NO_LABEL);
        let w2 = if eps.len() > 0 { sum_items(w1, None, eps) } else { w1 };
        trs_la_weight(self.matcher, matcher_state, lfst.states@[lfst_state as int].trs@, self.matcher.match_type_spec(false), w2)
    }

    /// The transition that starts the only continuation, when it is one.
    pub open spec fn la_prefix(&self, matcher_state: StateId, lfst: VectorFst<W>, lfst_state: StateId) -> Option<Tr<W>> {
        if self.la_finals(matcher_state, lfst, lfst_state) || self.matcher.iter_spec(matcher_state, NO_LABEL).len() > 0 {
            None
        } else {
            trs_first_prefix(self.matcher, matcher_state, lfst.states@[lfst_state as int].trs@, self.matcher.match_type_spec(false), self.non_eps_prefix())
        }
    }

    /// What lookahead reports with both weight and prefix: with a single
    /// continuation, weight one and its transition as prefix; otherwise the
    /// summed weight and no prefix.
    pub open spec fn la_data_both(&self, matcher_state: StateId, lfst: VectorFst<W>, lfst_state: StateId) -> LookAheadMatcherData<W> {
        let p = prefix_or_default(self.la_prefix(matcher_state, lfst, lfst_state));
        if self.la_count(matcher_state, lfst, lfst_state) == 1 {
            LookAheadMatcherData { lookahead_weight: W::one_spec(), prefix_tr: p }
        } else {
            LookAheadMatcherData {
                lookahead_weight: self.la_weight(matcher_state, lfst, lfst_state),
                prefix_tr: Tr { ilabel: p.ilabel, olabel: p.olabel, weight: p.weight, nextstate: NO_STATE_ID },
            }
        }
    }
}

impl<W: Semiring, M: Matcher<W>, MFT: MatcherFlagsTrait> Matcher<W> for TrLookAheadMatcher<W, M, MFT> {
    open spec fn fst_spec(&self) -> VectorFst<W> {
        self.matcher.fst_spec()
    }

    open spec fn wf(&self) -> bool {
        &&& self.matcher.wf()
        &&& self.matcher.fst_spec() == *self.fst
    }

    open spec fn can_iter(&self) -> bool {
        self.matcher.can_iter()
    }

    open spec fn accepts_label(&self, label: Label) -> bool {
        self.matcher.accepts_label(label)
    }

    open spec fn iter_spec(&self, state: StateId, label: Label) -> Seq<IterItemMatcher<W>> {
        self.matcher.iter_spec(state, label)
    }

    open spec fn match_type_spec(&self, test: bool) -> MatchType {
        self.matcher.match_type_spec(test)
    }

    open spec fn flags_spec(&self) -> MatcherFlags {
        MatcherFlags { bits: self.matcher.flags_spec().bits | 16u32 | 32u32 | MFT::flags_spec().bits }
    }

    open spec fn priority_spec(&self, state: StateId) -> usize {
        self.matcher.priority_spec(state)
    }

    open spec fn new_ok(fst: VectorFst<W>, match_type: MatchType) -> bool {
        M::new_ok(fst, match_type)
    }

    fn new(fst: Arc<VectorFst<W>>, match_type: MatchType) -> (r: Result<Self, FstError>) {
        let matcher = M::new(arc_clone(&fst), match_type)?;
        Ok(TrLookAheadMatcher { fst, matcher, phantom: PhantomData })
    }

    fn iter(&self, state: StateId, label: Label) -> (r: Result<Vec<IterItemMatcher<W>>, FstError>) {
        self.matcher.iter(state, label)
    }

    proof fn lemma_iter_within(&self, state: StateId, label: Label) {
        self.matcher.lemma_iter_within(state, label);
    }

    fn final_weight(&self, state: StateId) -> (r: Result<Option<W>, FstError>) {
        self.matcher.final_weight(state)
    }

    fn match_type(&self, test: bool) -> (r: Result<MatchType, FstError>) {
        self.matcher.match_type(test)
    }

    fn flags(&self) -> (r: MatcherFlags) {
        self.matcher.flags().union(MatcherFlags::input_lookahead_matcher()).union(MatcherFlags::output_lookahead_matcher()).union(
            MFT::flags(),
        )
    }

    fn priority(&self, state: StateId) -> (r: Result<usize, FstError>) {
        self.matcher.priority(state)
    }

    fn fst(&self) -> (r: &VectorFst<W>) {
        self.matcher.fst()
    }

    proof fn lemma_match_type_can_iter(&self, test: bool) {
        self.matcher.lemma_match_type_can_iter(test);
    }
}

impl<W: Semiring, M: Matcher<W>, MFT: MatcherFlagsTrait> LookaheadMatcher<W> for TrLookAheadMatcher<W, M, MFT> {
    type MatcherData = ();

    open spec fn la_ready(&self, lfst: VectorFst<W>) -> bool {
        true
    }

    open spec fn la_fst_ok(&self, matcher_state: StateId, lfst: VectorFst<W>, lfst_state: StateId, r: Option<LookAheadMatcherData<W>>) -> bool {
        &&& (r is Some <==> self.la_possible(matcher_state, lfst, lfst_state))
        &&& (!weight_and_prefix(MFT::flags_spec()) && r is Some ==> r == Some(default_la_data::<W>()))
        &&& (weight_and_prefix(MFT::flags_spec()) && r is Some ==> r == Some(self.la_data_both(matcher_state, lfst, lfst_state)))
    }

    open spec fn la_label_ok(&self, state: StateId, label: Label) -> bool {
        state < self.matcher.fst_spec().states@.len() && self.matcher.accepts_label(label)
    }

    open spec fn la_label_spec(&self, state: StateId, label: Label) -> bool {
        self.matcher.iter_spec(state, label).len() > 0
    }

    open spec fn la_prefix_spec(&self, la: LookAheadMatcherData<W>) -> bool {
        la.prefix_tr.nextstate != NO_STATE_ID
    }

    open spec fn new_with_data_ok(fst: VectorFst<W>, match_type: MatchType, data: Option<Arc<()>>) -> bool {
        M::new_ok(fst, match_type)
    }

    open spec fn create_data_ok(fst: VectorFst<W>, match_type: MatchType) -> bool {
        true
    }

    open spec fn creates_data(match_type: MatchType) -> bool {
        false
    }

    open spec fn data_for(fst: VectorFst<W>, match_type: MatchType, data: ()) -> bool {
        true
    }

    open spec fn la_init_ok(&self, lfst: VectorFst<W>) -> bool {
        true
    }

    open spec fn la_fst_succeeds(&self, matcher_state: StateId, lfst: VectorFst<W>, lfst_state: StateId) -> bool {
        matcher_state < self.fst.states@.len() && lfst_state < lfst.states@.len()
            && self.matcher.accepts_label(NO_LABEL)
            && (forall|k: int| 0 <= k < lfst.states@[lfst_state as int].trs@.len()
                ==> self.matcher.accepts_label(#[trigger] la_label(lfst.states@[lfst_state as int].trs@[k], self.matcher.match_type_spec(false))))
            && (lfst.states@[lfst_state as int].trs@.len() > 0 ==> (self.matcher.match_type_spec(false) == MatchType::MatchInput
                || self.matcher.match_type_spec(false) == MatchType::MatchOutput))
    }

    fn data(&self) -> (r: Option<&Arc<Self::MatcherData>>)
        ensures
            r is None,
    {
        None
    }

    fn new_with_data(fst: Arc<VectorFst<W>>, match_type: MatchType, data: Option<Arc<Self::MatcherData>>) -> (r: Result<Self, FstError>) {
        Self::new(fst, match_type)
    }

    fn create_data(fst: &VectorFst<W>, match_type: MatchType) -> (r: Result<Option<Self::MatcherData>, FstError>)
        ensures
            r == Ok::<Option<()>, FstError>(None),
    {
        Ok(None)
    }

    fn init_lookahead_fst(&mut self, lfst: &VectorFst<W>) -> (r: Result<(), FstError>)
        ensures
            r is Ok,
            *final(self) == *old(self),
    {
        Ok(())
    }

    /// Whether paths of `lfst` from `lfst_state` can be read from `matcher_state`:
    /// both states final, a non-consuming move of the matcher, an epsilon
    /// transition of `lfst`, or a transition of `lfst` whose label the matcher
    /// matches. With the weight and prefix flags, the weight sums what can be
    /// followed and the prefix is the only transition that can be, if there is one.
    fn lookahead_fst(&self, matcher_state: StateId, lfst: &VectorFst<W>, lfst_state: StateId)
        -> (r: Result<Option<LookAheadMatcherData<W>>, FstError>)
        ensures
            matcher_state >= self.fst.states@.len() ==> r is Err,
            matcher_state < self.fst.states@.len() && lfst_state < lfst.states@.len()
                && self.matcher.accepts_label(NO_LABEL)
                && (forall|k: int| 0 <= k < lfst.states@[lfst_state as int].trs@.len()
                    ==> self.matcher.accepts_label(#[trigger] la_label(lfst.states@[lfst_state as int].trs@[k], self.matcher.match_type_spec(false))))
                && (lfst.states@[lfst_state as int].trs@.len() > 0 ==> (self.matcher.match_type_spec(false) == MatchType::MatchInput
                    || self.matcher.match_type_spec(false) == MatchType::MatchOutput))
                ==> r is Ok,
    {
        let flags = MFT::flags();
        let both = flags.contains(MatcherFlags::lookahead_weight().union(MatcherFlags::lookahead_prefix()));
        assert(both == weight_and_prefix(MFT::flags_spec())) by {
            assert((64u32 | 128u32) == 192u32) by (bit_vector);
        }
        let compute_weight = flags.contains(MatcherFlags::lookahead_weight());
        let compute_prefix = flags.contains(MatcherFlags::lookahead_prefix());
        let non_eps_prefix = flags.contains(MatcherFlags::lookahead_non_epsilon_prefix());
        proof {
            let b = flags.bits;
            assert((b & 192u32) == 192u32 ==> (b & 64u32) == 64u32 && (b & 128u32) == 128u32) by (bit_vector);
        }
        let ghost mt = self.matcher.match_type_spec(false);
        let ghost m = self.matcher;
        let mut result = false;
        let mut nprefix: usize = 0;
        let mut la_matcher_data: LookAheadMatcherData<W> = LookAheadMatcherData::default();
        if compute_weight {
            la_matcher_data.clear_lookahead_weight();
        }
        if compute_prefix {
            la_matcher_data.clear_lookahead_prefix();
        }
        assert(la_matcher_data == default_la_data::<W>());
        let ghost trs_spec = lfst.states@[lfst_state as int].trs@;
        let finals = self.fst.is_final(matcher_state)? && lfst.is_final(lfst_state)?;
        let ghost w1 = if finals {
            W::plus_spec(W::one_spec(), W::times_spec(
                self.fst.states@[matcher_state as int].final_weight->0,
                lfst.states@[lfst_state as int].final_weight->0,
            ))
        } else {
            W::one_spec()
        };
        if finals {
            if !both {
                return Ok(Some(la_matcher_data));
            }
            nprefix = 1;
            if compute_weight {
                match (&self.fst.states[matcher_state].final_weight, &lfst.states[lfst_state].final_weight) {
                    (Some(fw1), Some(fw2)) => {
                        let w = la_matcher_data.lookahead_weight.plus(&fw1.times(fw2));
                        la_matcher_data.set_lookahead_weight(w);
                    },
                    _ => {},
                }
            }
            result = true;
        }
        let eps_items = self.matcher.iter(matcher_state, NO_LABEL)?;
        let ghost w2 = if eps_items@.len() > 0 { sum_items(w1, None, eps_items@) } else { w1 };
        if eps_items.len() > 0 {
            if !both {
                return Ok(Some(la_matcher_data));
            }
            if nprefix < usize::MAX {
                nprefix = nprefix + 1;
            }
            if compute_weight {
                let mut i: usize = 0;
                while i < eps_items.len()
                    invariant
                        i <= eps_items@.len(),
                        both,
                        la_matcher_data.lookahead_weight == sum_items(w1, None, eps_items@.take(i as int)),
                        la_matcher_data.prefix_tr == default_la_data::<W>().prefix_tr,
                    decreases eps_items@.len() - i,
                {
                    let w = match &eps_items[i] {
                        IterItemMatcher::Tr(a) => la_matcher_data.lookahead_weight.plus(&a.weight),
                        IterItemMatcher::EpsLoop => la_matcher_data.lookahead_weight.plus(&W::one()),
                    };
                    la_matcher_data.set_lookahead_weight(w);
                    proof {
                        assert(eps_items@.take(i + 1).drop_last() =~= eps_items@.take(i as int));
                    }
                    i += 1;
                }
                proof {
                    assert(eps_items@.take(eps_items@.len() as int) =~= eps_items@);
                }
            }
            result = true;
        }
        let ghost early = result;
        let ghost n0: int = (if finals { 1int } else { 0int }) + (if eps_items@.len() > 0 { 1int } else { 0int });
        let match_type = self.matcher.match_type(false)?;
        let trs = lfst.get_trs(lfst_state)?;
        let mut k: usize = 0;
        while k < trs.len()
            invariant
                k <= trs@.len(),
                trs@ == trs_spec,
                trs_spec == lfst.states@[lfst_state as int].trs@,
                lfst_state < lfst.states@.len(),
                matcher_state < self.fst.states@.len(),
                self.wf(),
                self.can_iter(),
                m == self.matcher,
                mt == self.matcher.match_type_spec(false),
                match_type == mt,
                both == weight_and_prefix(MFT::flags_spec()),
                both ==> compute_weight && compute_prefix,
                n0 == (if finals { 1int } else { 0int }) + (if eps_items@.len() > 0 { 1int } else { 0int }),
                finals == (self.fst.states@[matcher_state as int].final_weight is Some && lfst.states@[lfst_state as int].final_weight is Some),
                eps_items@ == self.matcher.iter_spec(matcher_state, NO_LABEL),
                non_eps_prefix == flags_contain(MFT::flags_spec(), MatcherFlags { bits: 1024 }),
                !both ==> !result && la_matcher_data == default_la_data::<W>(),
                early == ((self.fst.states@[matcher_state as int].final_weight is Some && lfst.states@[lfst_state as int].final_weight is Some)
                    || self.matcher.iter_spec(matcher_state, NO_LABEL).len() > 0),
                result == (early || exists|q: int| 0 <= q < k && #[trigger] tr_la_step(self.matcher, matcher_state, trs_spec, q)),
                both ==> la_matcher_data.lookahead_weight == trs_la_weight(m, matcher_state, trs_spec.take(k as int), mt, w2),
                both ==> nprefix as int == (if n0 + trs_la_count(m, matcher_state, trs_spec.take(k as int), mt, non_eps_prefix) < usize::MAX {
                    n0 + trs_la_count(m, matcher_state, trs_spec.take(k as int), mt, non_eps_prefix)
                } else {
                    usize::MAX as int
                }),
                both ==> la_matcher_data.prefix_tr == prefix_or_default(if n0 > 0 {
                    None
                } else {
                    trs_first_prefix(m, matcher_state, trs_spec.take(k as int), mt, non_eps_prefix)
                }),
            decreases trs@.len() - k,
        {
            let tr = &trs[k];
            let ghost pre = trs_spec.take(k as int);
            let ghost cnt0 = trs_la_count(m, matcher_state, pre, mt, non_eps_prefix);
            proof {
                assert(trs_spec.take(k + 1).drop_last() =~= pre);
                assert(trs_spec.take(k + 1).last() == trs_spec[k as int]);
                lemma_trs_la_count_nonneg(m, matcher_state, pre, mt, non_eps_prefix);
                if cnt0 == 0 {
                    lemma_no_count_no_prefix(m, matcher_state, pre, mt, non_eps_prefix);
                }
            }
            let label = match match_type {
                MatchType::MatchInput => tr.olabel,
                MatchType::MatchOutput => tr.ilabel,
                _ => {
                    return Err(FstError::UnsupportedMatchType);
                },
            };
            assert(label == la_label(trs_spec[k as int], self.matcher.match_type_spec(false)));
            if label == EPS_LABEL {
                if !both {
                    assert(tr_la_step(self.matcher, matcher_state, trs_spec, k as int));
                    return Ok(Some(la_matcher_data));
                }
                if !non_eps_prefix && nprefix < usize::MAX {
                    nprefix = nprefix + 1;
                }
                if compute_weight {
                    let w = la_matcher_data.lookahead_weight.plus(&tr.weight);
                    la_matcher_data.set_lookahead_weight(w);
                }
                result = true;
            } else {
                let items = self.matcher.iter(matcher_state, label)?;
                if items.len() > 0 {
                    if !both {
                        assert(tr_la_step(self.matcher, matcher_state, trs_spec, k as int));
                        return Ok(Some(la_matcher_data));
                    }
                    let ghost wk = la_matcher_data.lookahead_weight;
                    let ghost pk = la_matcher_data.prefix_tr;
                    let ghost nk = nprefix as int;
                    let mut i: usize = 0;
                    while i < items.len()
                        invariant
                            i <= items@.len(),
                            both,
                            compute_weight && compute_prefix,
                            la_matcher_data.lookahead_weight == sum_items(wk, Some(tr.weight), items@.take(i as int)),
                            nprefix as int == (if nk + i < usize::MAX { nk + i } else { usize::MAX as int }),
                            0 <= nk,
                            la_matcher_data.prefix_tr == (if nk == 0 && i > 0 { *tr } else { pk }),
                        decreases items@.len() - i,
                    {
                        if nprefix < usize::MAX {
                            nprefix = nprefix + 1;
                        }
                        if compute_weight {
                            let w = match &items[i] {
                                IterItemMatcher::Tr(a) => la_matcher_data.lookahead_weight.plus(&tr.weight.times(&a.weight)),
                                IterItemMatcher::EpsLoop => la_matcher_data.lookahead_weight.plus(&tr.weight.times(&W::one())),
                            };
                            la_matcher_data.set_lookahead_weight(w);
                        }
                        if compute_prefix && nprefix == 1 {
                            la_matcher_data.set_lookahead_prefix(tr.tr_clone());
                        }
                        proof {
                            assert(items@.take(i + 1).drop_last() =~= items@.take(i as int));
                        }
                        i += 1;
                    }
                    proof {
                        assert(items@.take(items@.len() as int) =~= items@);
                    }
                    result = true;
                }
            }
            proof {
                if result && !early && !exists|q: int| 0 <= q < k && #[trigger] tr_la_step(self.matcher, matcher_state, trs_spec, q) {
                    assert(tr_la_step(self.matcher, matcher_state, trs_spec, k as int));
                }
                if exists|q: int| 0 <= q < k && #[trigger] tr_la_step(self.matcher, matcher_state, trs_spec, q) {
                    let q = choose|q: int| 0 <= q < k && #[trigger] tr_la_step(self.matcher, matcher_state, trs_spec, q);
                    assert(0 <= q < k + 1 && tr_la_step(self.matcher, matcher_state, trs_spec, q));
                }
                if tr_la_step(self.matcher, matcher_state, trs_spec, k as int) {
                    assert(result);
                }
            }
            k += 1;
        }
        proof {
            assert(trs_spec.take(trs_spec.len() as int) =~= trs_spec);
            lemma_trs_la_count_nonneg(m, matcher_state, trs_spec, mt, non_eps_prefix);
        }
        if compute_prefix {
            if nprefix == 1 {
                la_matcher_data.clear_lookahead_weight();
            } else {
                la_matcher_data.clear_lookahead_prefix();
            }
        }
        if result {
            Ok(Some(la_matcher_data))
        } else {
            Ok(None)
        }
    }

    fn lookahead_label(&self, state: StateId, label: Label) -> (r: Result<bool, FstError>) {
        let items = self.matcher.iter(state, label)?;
        Ok(items.len() > 0)
    }

    fn lookahead_prefix(&self, tr: &mut Tr<W>, la_matcher_data: &LookAheadMatcherData<W>) -> (b: bool) {
        la_matcher_data.default_lookahead_prefix(tr)
    }
}

} // verus!
