use vstd::prelude::*;

use std::sync::Arc;

use crate::compose::{
    arcs_of, compose_match_ok, composition_by, composition_full, composition_of, filter_total, joins, no_both_require, pair_covered,
    regular_pair, side_covered, state_full, ComposeFstOp, ComposeFstOpOptions,
};
use crate::compose_filters::{
    AltSequenceComposeFilter, AltSequenceComposeFilterBuilder, ComposeFilter, ComposeFilterBuilder, MatchComposeFilter,
    MatchComposeFilterBuilder, NoMatchComposeFilter, NoMatchComposeFilterBuilder, NullComposeFilter, NullComposeFilterBuilder,
    SequenceComposeFilter, SequenceComposeFilterBuilder, TrivialComposeFilter, TrivialComposeFilterBuilder,
};
use crate::connect::{connect, coreachable, reachable};
use crate::fst::{FstError, VectorFst};
use crate::matchers::{
    items_within, opt_labels, IterItemMatcher, MatchType, Matcher, MatcherFlags, MatcherRewriteMode, SigmaMatcher, SortedMatcher,
    REQUIRE_PRIORITY, flags_contain, lemma_sorted_matches_complete,
};
use crate::semirings::Semiring;
use crate::{Label, StateId};

verus! {

/// The composition filters.
#[derive(PartialEq, Eq, Structural, Debug, Clone, Copy)]
pub enum ComposeFilterEnum {
    AutoFilter,
    NullFilter,
    TrivialFilter,
    SequenceFilter,
    AltSequenceFilter,
    MatchFilter,
    NoMatchFilter,
}

/// Configuration of a sigma matcher.
#[derive(PartialEq, Eq, Debug, Clone)]
pub struct SigmaMatcherConfig {
    pub sigma_label: Label,
    pub rewrite_mode: MatcherRewriteMode,
    pub sigma_allowed_matches: Option<Vec<Label>>,
}

/// Configuration of the matcher of one side of a composition.
#[derive(PartialEq, Eq, Debug, Clone)]
pub struct MatcherConfig {
    pub sigma_matcher_config: Option<SigmaMatcherConfig>,
}

/// Configuration of a composition.
#[derive(PartialEq, Eq, Debug, Clone)]
pub struct ComposeConfig {
    pub compose_filter: ComposeFilterEnum,
    pub matcher1_config: MatcherConfig,
    pub matcher2_config: MatcherConfig,
    pub connect: bool,
}

impl Default for ComposeConfig {
    fn default() -> (r: Self)
        ensures
            r.compose_filter == ComposeFilterEnum::AutoFilter,
            r.matcher1_config.sigma_matcher_config is None,
            r.matcher2_config.sigma_matcher_config is None,
            r.connect,
    {
        ComposeConfig {
            compose_filter: ComposeFilterEnum::AutoFilter,
            matcher1_config: MatcherConfig { sigma_matcher_config: None },
            matcher2_config: MatcherConfig { sigma_matcher_config: None },
            connect: true,
        }
    }
}

/// A sorted matcher, or a sigma matcher over a sorted matcher.
pub enum MatcherEnum<W> {
    SortedMatcher(SortedMatcher<W>),
    SigmaMatcher(SigmaMatcher<W, SortedMatcher<W>>),
}

fn clone_labels(v: &Vec<Label>) -> (r: Vec<Label>)
    ensures
        r@ == v@,
{
    let mut r: Vec<Label> = Vec::new();
    let mut i: usize = 0;
    while i < v.len()
        invariant
            i <= v@.len(),
            r@ == v@.subrange(0, i as int),
        decreases v@.len() - i,
    {
        r.push(v[i]);
        i += 1;
        assert(r@ =~= v@.subrange(0, i as int));
    }
    assert(v@.subrange(0, i as int) =~= v@);
    r
}

/// `m` is the matcher that the configuration `c` describes on `fst`, matching
/// on the side `mt`.
pub open spec fn matcher_of_config<W: Semiring>(c: MatcherConfig, fst: VectorFst<W>, mt: MatchType, m: MatcherEnum<W>) -> bool {
    match c.sigma_matcher_config {
        None => m matches MatcherEnum::SortedMatcher(sm) && *sm.fst == fst && sm.match_type == mt,
        Some(sc) => m matches MatcherEnum::SigmaMatcher(sm) && sm.match_type == mt && sm.sigma_label == sc.sigma_label
            && *sm.matcher.fst == fst && sm.matcher.match_type == mt
            && opt_labels(sm.sigma_allowed_matches) == opt_labels(sc.sigma_allowed_matches)
            && sm.rewrite_both == match sc.rewrite_mode {
                MatcherRewriteMode::MatcherRewriteAuto => fst.acceptor_spec(),
                MatcherRewriteMode::MatcherRewriteAlways => true,
                MatcherRewriteMode::MatcherRewriteNever => false,
            },
    }
}

/// `f` is `g` with exactly the states kept, renumbered in order, that can be
/// reached from the start state of `g` and from which a final state can be
/// reached.
pub open spec fn trimmed_to<W: Semiring>(g: VectorFst<W>, f: VectorFst<W>) -> bool {
    exists|keep: Seq<bool>| #![trigger g.keep_states_spec(keep, &f)] keep.len() == g.states@.len() && g.keep_states_spec(keep, &f)
        && forall|s: int| 0 <= s < keep.len() ==> (#[trigger] keep[s] <==> (g.start_state matches Some(st)
            && reachable(g, st, s as StateId)) && coreachable(g, s as StateId))
}

impl MatcherConfig {
    /// Whether no sigma matcher is configured.
    pub fn empty(&self) -> (b: bool)
        ensures
            b == self.sigma_matcher_config is None,
    {
        self.sigma_matcher_config.is_none()
    }

    /// The matcher the configuration describes on an FST.
    pub fn create_matcher<W: Semiring>(&self, fst: Arc<VectorFst<W>>, match_type: MatchType) -> (r: Result<MatcherEnum<W>, FstError>)
        requires
            match_type == MatchType::MatchInput || match_type == MatchType::MatchOutput,
        ensures
            self.sigma_matcher_config is None ==> (r matches Ok(MatcherEnum::SortedMatcher(m)) && *m.fst == *fst && m.match_type == match_type),
            self.sigma_matcher_config matches Some(c) ==> (c.sigma_label == crate::EPS_LABEL ==> r == Err::<MatcherEnum<W>, FstError>(FstError::BadSigmaLabel))
                && (c.sigma_label != crate::EPS_LABEL ==> (r matches Ok(MatcherEnum::SigmaMatcher(m)) && m.sigma_label == c.sigma_label
                && m.match_type == match_type && *m.matcher.fst == *fst && m.matcher.match_type == match_type
                && opt_labels(m.sigma_allowed_matches) == opt_labels(c.sigma_allowed_matches))),
            r matches Ok(m) ==> m.wf() && m.fst_spec() == *fst && matcher_of_config(*self, *fst, match_type, m),
    {
        match &self.sigma_matcher_config {
            None => {
                let matcher = SortedMatcher::new(fst, match_type)?;
                Ok(MatcherEnum::SortedMatcher(matcher))
            },
            Some(sigma_config) => {
                let matcher = SortedMatcher::new(fst, match_type)?;
                let allowed = match &sigma_config.sigma_allowed_matches {
                    Some(v) => Some(clone_labels(v)),
                    None => None,
                };
                let matcher = SigmaMatcher::new_sigma(
                    match_type,
                    sigma_config.sigma_label,
                    sigma_config.rewrite_mode,
                    Arc::new(matcher),
                    allowed,
                )?;
                Ok(MatcherEnum::SigmaMatcher(matcher))
            },
        }
    }
}

impl<W: Semiring> Matcher<W> for MatcherEnum<W> {
    open spec fn fst_spec(&self) -> VectorFst<W> {
        match self {
            MatcherEnum::SortedMatcher(m) => m.fst_spec(),
            MatcherEnum::SigmaMatcher(m) => m.fst_spec(),
        }
    }

    open spec fn wf(&self) -> bool {
        match self {
            MatcherEnum::SortedMatcher(m) => m.wf(),
            MatcherEnum::SigmaMatcher(m) => m.wf(),
        }
    }

    open spec fn can_iter(&self) -> bool {
        match self {
            MatcherEnum::SortedMatcher(m) => m.can_iter(),
            MatcherEnum::SigmaMatcher(m) => m.can_iter(),
        }
    }

    open spec fn accepts_label(&self, label: Label) -> bool {
        match self {
            MatcherEnum::SortedMatcher(m) => m.accepts_label(label),
            MatcherEnum::SigmaMatcher(m) => m.accepts_label(label),
        }
    }

    open spec fn iter_spec(&self, state: StateId, label: Label) -> Seq<IterItemMatcher<W>> {
        match self {
            MatcherEnum::SortedMatcher(m) => m.iter_spec(state, label),
            MatcherEnum::SigmaMatcher(m) => m.iter_spec(state, label),
        }
    }

    open spec fn match_type_spec(&self, test: bool) -> MatchType {
        match self {
            MatcherEnum::SortedMatcher(m) => m.match_type_spec(test),
            MatcherEnum::SigmaMatcher(m) => m.match_type_spec(test),
        }
    }

    open spec fn flags_spec(&self) -> MatcherFlags {
        match self {
            MatcherEnum::SortedMatcher(m) => m.flags_spec(),
            MatcherEnum::SigmaMatcher(m) => m.flags_spec(),
        }
    }

    open spec fn priority_spec(&self, state: StateId) -> usize {
        match self {
            MatcherEnum::SortedMatcher(m) => m.priority_spec(state),
            MatcherEnum::SigmaMatcher(m) => m.priority_spec(state),
        }
    }

    open spec fn new_ok(fst: VectorFst<W>, match_type: MatchType) -> bool {
        true
    }

    fn new(fst: Arc<VectorFst<W>>, match_type: MatchType) -> (r: Result<Self, FstError>) {
        let m = SortedMatcher::new(fst, match_type)?;
        Ok(MatcherEnum::SortedMatcher(m))
    }

    fn iter(&self, state: StateId, label: Label) -> (r: Result<Vec<IterItemMatcher<W>>, FstError>) {
        match self {
            MatcherEnum::SortedMatcher(m) => m.iter(state, label),
            MatcherEnum::SigmaMatcher(m) => m.iter(state, label),
        }
    }

    proof fn lemma_iter_within(&self, state: StateId, label: Label) {
        match self {
            MatcherEnum::SortedMatcher(m) => m.lemma_iter_within(state, label),
            MatcherEnum::SigmaMatcher(m) => m.lemma_iter_within(state, label),
        }
    }

    fn final_weight(&self, state: StateId) -> (r: Result<Option<W>, FstError>) {
        match self {
            MatcherEnum::SortedMatcher(m) => m.final_weight(state),
            MatcherEnum::SigmaMatcher(m) => m.final_weight(state),
        }
    }

    fn match_type(&self, test: bool) -> (r: Result<MatchType, FstError>) {
        match self {
            MatcherEnum::SortedMatcher(m) => m.match_type(test),
            MatcherEnum::SigmaMatcher(m) => m.match_type(test),
        }
    }

    fn flags(&self) -> (r: MatcherFlags) {
        match self {
            MatcherEnum::SortedMatcher(m) => m.flags(),
            MatcherEnum::SigmaMatcher(m) => m.flags(),
        }
    }

    fn priority(&self, state: StateId) -> (r: Result<usize, FstError>) {
        match self {
            MatcherEnum::SortedMatcher(m) => m.priority(state),
            MatcherEnum::SigmaMatcher(m) => m.priority(state),
        }
    }

    fn fst(&self) -> (r: &VectorFst<W>) {
        match self {
            MatcherEnum::SortedMatcher(m) => m.fst(),
            MatcherEnum::SigmaMatcher(m) => m.fst(),
        }
    }

    proof fn lemma_match_type_can_iter(&self, test: bool) {
        match self {
            MatcherEnum::SortedMatcher(m) => m.lemma_match_type_can_iter(test),
            MatcherEnum::SigmaMatcher(m) => m.lemma_match_type_can_iter(test),
        }
    }
}

/// In a composition through sorted matchers over FSTs sorted on the matched
/// sides, at every state, a transition of the first FST and one of the
/// second, from the states the pair stands for, that share a label other
/// than epsilon and `NO_LABEL` are joined by a transition of that state.
pub proof fn lemma_sorted_composition_joins<W: Semiring>(
    f: VectorFst<W>,
    fst1: VectorFst<W>,
    fst2: VectorFst<W>,
    m1: MatcherEnum<W>,
    m2: MatcherEnum<W>,
    pairs: Seq<(StateId, StateId)>,
    q: int,
    k1: int,
    k2: int,
)
    requires
        m1 matches MatcherEnum::SortedMatcher(sm) && *sm.fst == fst1 && sm.match_type == MatchType::MatchOutput,
        m2 matches MatcherEnum::SortedMatcher(sm) && *sm.fst == fst2 && sm.match_type == MatchType::MatchInput,
        fst1.sorted_spec(false),
        fst2.sorted_spec(true),
        composition_by(f, fst1, fst2, m1, m2, pairs),
        forall|p: int| 0 <= p < pairs.len() ==> #[trigger] state_full(f.states@[p], fst1, fst2, m1, m2, pairs, pairs[p]),
        0 <= q < pairs.len(),
        pairs[q].0 < fst1.states@.len(),
        pairs[q].1 < fst2.states@.len(),
        0 <= k1 < fst1.states@[pairs[q].0 as int].trs@.len(),
        0 <= k2 < fst2.states@[pairs[q].1 as int].trs@.len(),
        regular_pair(fst1.states@[pairs[q].0 as int].trs@[k1], fst2.states@[pairs[q].1 as int].trs@[k2]),
    ensures
        exists|k: int| 0 <= k < f.states@[q].trs@.len() && #[trigger] joins(pairs, f.states@[q].trs@[k],
            fst1.states@[pairs[q].0 as int].trs@[k1], fst2.states@[pairs[q].1 as int].trs@[k2]),
{
    let s1 = pairs[q].0;
    let s2 = pairs[q].1;
    let t1 = fst1.states@[s1 as int].trs@[k1];
    let t2 = fst2.states@[s2 as int].trs@[k2];
    let trs = f.states@[q].trs@;
    assert(state_full(f.states@[q], fst1, fst2, m1, m2, pairs, pairs[q]));
    assert(crate::fst::trs_sorted(fst1.states@[s1 as int].trs@, false));
    assert(crate::fst::trs_sorted(fst2.states@[s2 as int].trs@, true));
    if side_covered(pairs, fst1, fst2, m1, m2, s1, s2, true, trs) {
        lemma_sorted_matches_complete(fst2.states@[s2 as int].trs@, t1.olabel, true, k2);
        assert(m2.iter_spec(s2, t1.olabel).contains(IterItemMatcher::Tr(t2)));
        assert(pair_covered(pairs, trs, t1, IterItemMatcher::Tr(t2), s2, true));
        assert(arcs_of(t1, IterItemMatcher::Tr(t2), s2, true) == (t1, t2));
    } else {
        assert(side_covered(pairs, fst1, fst2, m1, m2, s1, s2, false, trs));
        lemma_sorted_matches_complete(fst1.states@[s1 as int].trs@, t2.ilabel, false, k1);
        assert(m1.iter_spec(s1, t2.ilabel).contains(IterItemMatcher::Tr(t1)));
        assert(pair_covered(pairs, trs, t2, IterItemMatcher::Tr(t1), s1, false));
        assert(arcs_of(t2, IterItemMatcher::Tr(t1), s1, false) == (t1, t2));
    }
}

/// Composes with a given filter builder and the given matchers.
fn run_compose<W: Semiring, CFB: ComposeFilterBuilder<W, MatcherEnum<W>, MatcherEnum<W>>>(
    fst1: Arc<VectorFst<W>>,
    fst2: Arc<VectorFst<W>>,
    matcher1: MatcherEnum<W>,
    matcher2: MatcherEnum<W>,
) -> (r: Result<VectorFst<W>, FstError>)
    requires
        matcher1.wf(),
        matcher2.wf(),
        matcher1.fst_spec() == *fst1,
        matcher2.fst_spec() == *fst2,
        CFB::keeps_matchers_spec(),
        <CFB::CF as ComposeFilter<W, MatcherEnum<W>, MatcherEnum<W>>>::keeps_arcs_spec(),
        <CFB::CF as ComposeFilter<W, MatcherEnum<W>, MatcherEnum<W>>>::matchers_fixed_spec(),
    ensures
        r matches Ok(f) ==> f.wf() && composition_of(f, *fst1, *fst2, matcher1, matcher2),
        <CFB::CF as ComposeFilter<W, MatcherEnum<W>, MatcherEnum<W>>>::passes_labels()
            ==> (r matches Ok(f) ==> composition_full(f, *fst1, *fst2, matcher1, matcher2)),
        CFB::new_ok(*fst1, *fst2, Some(matcher1), Some(matcher2)) && compose_match_ok(matcher1, matcher2)
            && filter_total::<W, MatcherEnum<W>, MatcherEnum<W>, CFB::CF>() && fst1.wf() && fst2.wf()
            && (forall|l: Label| #[trigger] matcher1.accepts_label(l)) && (forall|l: Label| #[trigger] matcher2.accepts_label(l))
            && no_both_require(matcher1, matcher2) ==> r is Ok,
{
    let ghost g1 = matcher1;
    let ghost g2 = matcher2;
    let opts = ComposeFstOpOptions::new(Some(matcher1), Some(matcher2), None, None);
    let mut op = ComposeFstOp::<W, MatcherEnum<W>, MatcherEnum<W>, CFB, _>::new(fst1, fst2, opts)?;
    op.compute()
}

/// Composes two FSTs with the given filter and matchers; removes the states
/// that are not on successful paths when `config.connect` is set.
pub fn compose_with_config<W: Semiring>(
    fst1: Arc<VectorFst<W>>,
    fst2: Arc<VectorFst<W>>,
    config: ComposeConfig,
) -> (r: Result<VectorFst<W>, FstError>)
    ensures
        r matches Ok(f) ==> f.wf(),
        config.compose_filter == ComposeFilterEnum::AutoFilter && !(config.matcher1_config.sigma_matcher_config is None
            && config.matcher2_config.sigma_matcher_config is None) && !(config.matcher1_config.sigma_matcher_config matches Some(c) && c.sigma_label == crate::EPS_LABEL)
            && !(config.matcher2_config.sigma_matcher_config matches Some(c) && c.sigma_label == crate::EPS_LABEL)
            ==> r == Err::<VectorFst<W>, FstError>(FstError::UnsupportedConfig),
        config.matcher1_config.sigma_matcher_config matches Some(c) && c.sigma_label == crate::EPS_LABEL
            ==> r == Err::<VectorFst<W>, FstError>(FstError::BadSigmaLabel),
        config.matcher2_config.sigma_matcher_config matches Some(c) && c.sigma_label == crate::EPS_LABEL
            ==> r == Err::<VectorFst<W>, FstError>(FstError::BadSigmaLabel),
        r matches Ok(f) ==> exists|g: VectorFst<W>, m1: MatcherEnum<W>, m2: MatcherEnum<W>|
            #![trigger composition_full(g, *fst1, *fst2, m1, m2)]
            matcher_of_config(config.matcher1_config, *fst1, MatchType::MatchOutput, m1)
                && matcher_of_config(config.matcher2_config, *fst2, MatchType::MatchInput, m2)
                && composition_full(g, *fst1, *fst2, m1, m2)
                && (if config.connect { trimmed_to(g, f) } else { f == g }),
        config.matcher1_config.sigma_matcher_config is None && config.matcher2_config.sigma_matcher_config is None
            && fst1.wf() && fst2.wf() && (fst1.sorted_spec(false) || fst2.sorted_spec(true))
            && (forall|s: int| 0 <= s < fst1.states@.len() ==> #[trigger] fst1.states@[s].trs@.len() < usize::MAX) ==> r is Ok,
{
    let matcher1 = config.matcher1_config.create_matcher(crate::shared::arc_clone(&fst1), MatchType::MatchOutput)?;
    let matcher2 = config.matcher2_config.create_matcher(crate::shared::arc_clone(&fst2), MatchType::MatchInput)?;
    let ghost gm1 = matcher1;
    let ghost gm2 = matcher2;
    proof {
        if config.matcher1_config.sigma_matcher_config is None && config.matcher2_config.sigma_matcher_config is None
            && fst1.wf() && fst2.wf() && (fst1.sorted_spec(false) || fst2.sorted_spec(true))
            && (forall|s: int| 0 <= s < fst1.states@.len() ==> #[trigger] fst1.states@[s].trs@.len() < usize::MAX) {
            assert((0u32 & 1u32) != 1u32) by (bit_vector);
            assert(!flags_contain(matcher1.flags_spec(), MatcherFlags { bits: 1 }));
            assert(!flags_contain(matcher2.flags_spec(), MatcherFlags { bits: 1 }));
            assert(matcher1.match_type_spec(false) == crate::matchers::sorted_match_type(*fst1, MatchType::MatchOutput));
            assert(matcher2.match_type_spec(false) == crate::matchers::sorted_match_type(*fst2, MatchType::MatchInput));
            assert(compose_match_ok(matcher1, matcher2));
            assert forall|s1: StateId, s2: StateId| s1 < matcher1.fst_spec().states@.len() && s2 < matcher2.fst_spec().states@.len()
                implies !(#[trigger] matcher1.priority_spec(s1) == REQUIRE_PRIORITY && #[trigger] matcher2.priority_spec(s2) == REQUIRE_PRIORITY) by {
                assert(fst1.states@[s1 as int].trs@.len() < usize::MAX);
            }
            assert(no_both_require(matcher1, matcher2));
            assert(filter_total::<W, MatcherEnum<W>, MatcherEnum<W>, SequenceComposeFilter<MatcherEnum<W>, MatcherEnum<W>>>());
            assert(filter_total::<W, MatcherEnum<W>, MatcherEnum<W>, AltSequenceComposeFilter<MatcherEnum<W>, MatcherEnum<W>>>());
            assert(filter_total::<W, MatcherEnum<W>, MatcherEnum<W>, MatchComposeFilter<MatcherEnum<W>, MatcherEnum<W>>>());
            assert(filter_total::<W, MatcherEnum<W>, MatcherEnum<W>, NoMatchComposeFilter<MatcherEnum<W>, MatcherEnum<W>>>());
            assert(filter_total::<W, MatcherEnum<W>, MatcherEnum<W>, NullComposeFilter<MatcherEnum<W>, MatcherEnum<W>>>());
            assert(filter_total::<W, MatcherEnum<W>, MatcherEnum<W>, TrivialComposeFilter<MatcherEnum<W>, MatcherEnum<W>>>());
        }
    }
    let mut ofst = match config.compose_filter {
        ComposeFilterEnum::AutoFilter => {
            if config.matcher1_config.empty() && config.matcher2_config.empty() {
                run_compose::<W, SequenceComposeFilterBuilder<MatcherEnum<W>, MatcherEnum<W>>>(fst1, fst2, matcher1, matcher2)?
            } else {
                return Err(FstError::UnsupportedConfig);
            }
        },
        ComposeFilterEnum::NullFilter => run_compose::<W, NullComposeFilterBuilder<MatcherEnum<W>, MatcherEnum<W>>>(
            fst1,
            fst2,
            matcher1,
            matcher2,
        )?,
        ComposeFilterEnum::SequenceFilter => run_compose::<W, SequenceComposeFilterBuilder<MatcherEnum<W>, MatcherEnum<W>>>(
            fst1,
            fst2,
            matcher1,
            matcher2,
        )?,
        ComposeFilterEnum::AltSequenceFilter => run_compose::<
            W,
            AltSequenceComposeFilterBuilder<MatcherEnum<W>, MatcherEnum<W>>,
        >(fst1, fst2, matcher1, matcher2)?,
        ComposeFilterEnum::MatchFilter => run_compose::<W, MatchComposeFilterBuilder<MatcherEnum<W>, MatcherEnum<W>>>(
            fst1,
            fst2,
            matcher1,
            matcher2,
        )?,
        ComposeFilterEnum::NoMatchFilter => run_compose::<W, NoMatchComposeFilterBuilder<MatcherEnum<W>, MatcherEnum<W>>>(
            fst1,
            fst2,
            matcher1,
            matcher2,
        )?,
        ComposeFilterEnum::TrivialFilter => run_compose::<W, TrivialComposeFilterBuilder<MatcherEnum<W>, MatcherEnum<W>>>(
            fst1,
            fst2,
            matcher1,
            matcher2,
        )?,
    };
    let ghost g = ofst;
    if config.connect {
        connect(&mut ofst)?;
    }
    proof {
        assert(composition_full(g, *fst1, *fst2, gm1, gm2));
    }
    Ok(ofst)
}

/// This operation computes the composition of two transducers.
/// If `A` transduces string `x` to `y` with weight `a` and `B` transduces `y` to `z`
/// with weight `b`, then their composition transduces string `x` to `z` with weight `a ⊗ b`.
pub fn compose<W: Semiring>(fst1: Arc<VectorFst<W>>, fst2: Arc<VectorFst<W>>) -> (r: Result<VectorFst<W>, FstError>)
    ensures
        r matches Ok(f) ==> f.wf(),
        r matches Ok(f) ==> exists|g: VectorFst<W>, m1: MatcherEnum<W>, m2: MatcherEnum<W>|
            #![trigger composition_full(g, *fst1, *fst2, m1, m2)]
            (m1 matches MatcherEnum::SortedMatcher(sm) && *sm.fst == *fst1 && sm.match_type == MatchType::MatchOutput)
                && (m2 matches MatcherEnum::SortedMatcher(sm) && *sm.fst == *fst2 && sm.match_type == MatchType::MatchInput)
                && composition_full(g, *fst1, *fst2, m1, m2) && trimmed_to(g, f),
        fst1.wf() && fst2.wf() && (fst1.sorted_spec(false) || fst2.sorted_spec(true))
            && (forall|s: int| 0 <= s < fst1.states@.len() ==> #[trigger] fst1.states@[s].trs@.len() < usize::MAX) ==> r is Ok,
{
    let config = ComposeConfig::default();
    compose_with_config(fst1, fst2, config)
}

} // verus!
