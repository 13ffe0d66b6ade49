use vstd::prelude::*;

use std::sync::Arc;

use crate::fst::{tr_label, trs_sorted, FstError, Tr, VectorFst};
use crate::semirings::Semiring;
use crate::shared::arc_clone;
use crate::{Label, StateId, EPS_LABEL, NO_LABEL};

verus! {

/// Priority value meaning that a matcher must be used for matching.
pub const REQUIRE_PRIORITY: usize = usize::MAX;

/// Specifies matcher action.
#[derive(Copy, Debug, PartialEq, Eq, Structural, Clone)]
pub enum MatchType {
    /// Match input label
    MatchInput,
    /// Match output label
    MatchOutput,
    /// Match input or output label
    MatchBoth,
    /// Match anything
    MatchNone,
    /// Otherwise, match unknown
    MatchUnknown,
}

/// Specifies whether we rewrite both the input and output sides during matching.
#[derive(Copy, Debug, PartialEq, Eq, Structural, Clone)]
pub enum MatcherRewriteMode {
    /// Rewrites both sides iff acceptor.
    MatcherRewriteAuto,
    MatcherRewriteAlways,
    MatcherRewriteNever,
}

/// Set of matcher flags, one bit per flag.
#[derive(Copy, Debug, PartialEq, Eq, Structural, Clone)]
pub struct MatcherFlags {
    pub bits: u32,
}

pub open spec fn flags_contain(a: MatcherFlags, b: MatcherFlags) -> bool {
    (a.bits & b.bits) == b.bits
}

impl MatcherFlags {
    pub fn empty() -> (r: Self)
        ensures
            r.bits == 0,
    {
        MatcherFlags { bits: 0 }
    }

    pub fn from_bits(bits: u32) -> (r: Self)
        ensures
            r.bits == bits,
    {
        MatcherFlags { bits }
    }

    pub fn require_match() -> (r: Self)
        ensures
            r.bits == 1,
    {
        MatcherFlags { bits: 1 }
    }

    pub fn input_lookahead_matcher() -> (r: Self)
        ensures
            r.bits == 16,
    {
        MatcherFlags { bits: 16 }
    }

    pub fn output_lookahead_matcher() -> (r: Self)
        ensures
            r.bits == 32,
    {
        MatcherFlags { bits: 32 }
    }

    pub fn lookahead_weight() -> (r: Self)
        ensures
            r.bits == 64,
    {
        MatcherFlags { bits: 64 }
    }

    pub fn lookahead_prefix() -> (r: Self)
        ensures
            r.bits == 128,
    {
        MatcherFlags { bits: 128 }
    }

    pub fn lookahead_non_epsilons() -> (r: Self)
        ensures
            r.bits == 256,
    {
        MatcherFlags { bits: 256 }
    }

    pub fn lookahead_epsilons() -> (r: Self)
        ensures
            r.bits == 512,
    {
        MatcherFlags { bits: 512 }
    }

    pub fn lookahead_non_epsilon_prefix() -> (r: Self)
        ensures
            r.bits == 1024,
    {
        MatcherFlags { bits: 1024 }
    }

    /// Whether every flag of `other` is set in `self`.
    pub fn contains(&self, other: MatcherFlags) -> (b: bool)
        ensures
            b == flags_contain(*self, other),
    {
        (self.bits & other.bits) == other.bits
    }

    /// The flags set in `self` or in `other`.
    pub fn union(&self, other: MatcherFlags) -> (r: MatcherFlags)
        ensures
            r.bits == (self.bits | other.bits),
    {
        MatcherFlags { bits: self.bits | other.bits }
    }
}

/// An item produced when iterating over the matches of a label.
#[derive(Debug, PartialEq, Eq)]
pub enum IterItemMatcher<W> {
    Tr(Tr<W>),
    EpsLoop,
}

impl<W: Semiring> IterItemMatcher<W> {
    pub fn item_clone(&self) -> (r: Self)
        ensures
            r == *self,
    {
        match self {
            IterItemMatcher::Tr(tr) => IterItemMatcher::Tr(tr.tr_clone()),
            IterItemMatcher::EpsLoop => IterItemMatcher::EpsLoop,
        }
    }

    /// The transition the item stands for; an epsilon loop becomes a self-loop on `state`.
    pub fn into_tr(self, state: StateId, match_type: MatchType) -> (r: Result<Tr<W>, FstError>)
        ensures
            self matches IterItemMatcher::Tr(t) ==> r == Ok::<Tr<W>, FstError>(t),
            self is EpsLoop ==> r == eps_loop_spec::<W>(state, match_type),
    {
        match self {
            IterItemMatcher::Tr(tr) => Ok(tr),
            IterItemMatcher::EpsLoop => eps_loop(state, match_type),
        }
    }
}

pub open spec fn eps_loop_spec<W: Semiring>(state: StateId, match_type: MatchType) -> Result<Tr<W>, FstError> {
    match match_type {
        MatchType::MatchInput => Ok(Tr { ilabel: NO_LABEL, olabel: EPS_LABEL, weight: W::one_spec(), nextstate: state }),
        MatchType::MatchOutput => Ok(Tr { ilabel: EPS_LABEL, olabel: NO_LABEL, weight: W::one_spec(), nextstate: state }),
        _ => Err(FstError::UnsupportedMatchType),
    }
}

/// The self-loop that stands for an epsilon move on the side not being matched.
pub fn eps_loop<W: Semiring>(state: StateId, match_type: MatchType) -> (r: Result<Tr<W>, FstError>)
    ensures
        r == eps_loop_spec::<W>(state, match_type),
{
    match match_type {
        MatchType::MatchInput => Ok(Tr::new(NO_LABEL, EPS_LABEL, W::one(), state)),
        MatchType::MatchOutput => Ok(Tr::new(EPS_LABEL, NO_LABEL, W::one(), state)),
        _ => Err(FstError::UnsupportedMatchType),
    }
}

/// Matchers find and iterate through requested labels at FST states.
pub trait Matcher<W: Semiring>: Sized {
    /// The FST the matcher works on.
    spec fn fst_spec(&self) -> VectorFst<W>;

    /// Internal consistency of the matcher.
    spec fn wf(&self) -> bool;

    /// Whether `iter` may be called (the side to match is set and the FST is sorted on it).
    spec fn can_iter(&self) -> bool;

    /// Whether `iter` accepts this label.
    spec fn accepts_label(&self, label: Label) -> bool;

    /// The items `iter` yields.
    spec fn iter_spec(&self, state: StateId, label: Label) -> Seq<IterItemMatcher<W>>;

    /// What `match_type` answers.
    spec fn match_type_spec(&self, test: bool) -> MatchType;

    /// What `flags` answers.
    spec fn flags_spec(&self) -> MatcherFlags;

    /// What `priority` answers.
    spec fn priority_spec(&self, state: StateId) -> usize;

    /// The inputs on which `new` is sure to succeed.
    spec fn new_ok(fst: VectorFst<W>, match_type: MatchType) -> bool;

    /// A matcher of the given side on an FST.
    fn new(fst: Arc<VectorFst<W>>, match_type: MatchType) -> (r: Result<Self, FstError>)
        ensures
            r matches Ok(m) ==> m.wf() && m.fst_spec() == *fst,
            Self::new_ok(*fst, match_type) ==> r is Ok,
    ;

    fn iter(&self, state: StateId, label: Label) -> (r: Result<Vec<IterItemMatcher<W>>, FstError>)
        requires
            self.wf(),
            self.can_iter(),
        ensures
            state < self.fst_spec().states@.len() && self.accepts_label(label) ==> (r matches Ok(v) && v@ == self.iter_spec(state, label)),
            !(state < self.fst_spec().states@.len() && self.accepts_label(label)) ==> r is Err,
    ;

    /// The transitions a matcher yields lead to states of its FST.
    proof fn lemma_iter_within(&self, state: StateId, label: Label)
        requires
            self.wf(),
            self.fst_spec().wf(),
            state < self.fst_spec().states@.len(),
        ensures
            items_within(self.iter_spec(state, label), self.fst_spec().states@.len()),
    ;

    fn final_weight(&self, state: StateId) -> (r: Result<Option<W>, FstError>)
        ensures
            state < self.fst_spec().states@.len() ==> r == Ok::<Option<W>, FstError>(self.fst_spec().states@[state as int].final_weight),
            state >= self.fst_spec().states@.len() ==> r is Err,
    ;

    fn match_type(&self, test: bool) -> (r: Result<MatchType, FstError>)
        ensures
            r == Ok::<MatchType, FstError>(self.match_type_spec(test)),
    ;

    fn flags(&self) -> (r: MatcherFlags)
        ensures
            r == self.flags_spec(),
    ;

    fn priority(&self, state: StateId) -> (r: Result<usize, FstError>)
        requires
            self.wf(),
            self.can_iter(),
        ensures
            state < self.fst_spec().states@.len() ==> r == Ok::<usize, FstError>(self.priority_spec(state)),
            state >= self.fst_spec().states@.len() ==> r is Err,
    ;

    fn fst(&self) -> (r: &VectorFst<W>)
        ensures
            *r == self.fst_spec(),
    ;

    /// A matcher that reports a side can iterate on it.
    proof fn lemma_match_type_can_iter(&self, test: bool)
        requires
            self.wf(),
            self.match_type_spec(test) == MatchType::MatchInput || self.match_type_spec(test) == MatchType::MatchOutput,
        ensures
            self.can_iter(),
    ;
}

/// The transitions among the items lead to states below `n`.
pub open spec fn items_within<W>(items: Seq<IterItemMatcher<W>>, n: nat) -> bool {
    forall|i: int| 0 <= i < items.len() ==> (#[trigger] items[i] matches IterItemMatcher::Tr(t) ==> t.nextstate < n)
}

proof fn lemma_run_from_within<W>(trs: Seq<Tr<W>>, k: int, label: Label, input: bool, n: nat)
    requires
        forall|i: int| 0 <= i < trs.len() ==> #[trigger] trs[i].nextstate < n,
    ensures
        items_within(run_from(trs, k, label, input), n),
    decreases trs.len() - k,
{
    if 0 <= k < trs.len() && tr_label(trs[k], input) == label {
        lemma_run_from_within(trs, k + 1, label, input, n);
        let rest = run_from(trs, k + 1, label, input);
        let all = seq![IterItemMatcher::Tr(trs[k])] + rest;
        assert forall|i: int| 0 <= i < all.len() implies (#[trigger] all[i] matches IterItemMatcher::Tr(t) ==> t.nextstate < n) by {
            if i > 0 {
                assert(all[i] == rest[i - 1]);
            }
        }
    }
}

/// Index of the first transition whose matched label is at least `label`, from `k` on.
pub open spec fn first_at_least<W>(trs: Seq<Tr<W>>, k: int, label: Label, input: bool) -> int
    decreases trs.len() - k,
{
    if k < 0 || k >= trs.len() || tr_label(trs[k], input) >= label {
        k
    } else {
        first_at_least(trs, k + 1, label, input)
    }
}

/// The transitions from index `k` on whose matched label is `label`, up to the first that is not.
pub open spec fn run_from<W>(trs: Seq<Tr<W>>, k: int, label: Label, input: bool) -> Seq<IterItemMatcher<W>>
    decreases trs.len() - k,
{
    if 0 <= k < trs.len() && tr_label(trs[k], input) == label {
        seq![IterItemMatcher::Tr(trs[k])] + run_from(trs, k + 1, label, input)
    } else {
        seq![]
    }
}

/// The items a sorted matcher yields for `label` over sorted transitions.
pub open spec fn sorted_matches<W>(trs: Seq<Tr<W>>, label: Label, input: bool) -> Seq<IterItemMatcher<W>> {
    let l = if label == NO_LABEL { EPS_LABEL } else { label };
    let run = run_from(trs, first_at_least(trs, 0, l, input), l, input);
    if label == EPS_LABEL {
        seq![IterItemMatcher::EpsLoop] + run
    } else {
        run
    }
}

/// The first index from `k` whose label is at least `label` is not past an
/// index `m` whose label is.
proof fn lemma_first_at_least_bound<W>(trs: Seq<Tr<W>>, k: int, label: Label, input: bool, m: int)
    requires
        0 <= k <= m < trs.len(),
        tr_label(trs[m], input) >= label,
    ensures
        k <= first_at_least(trs, k, label, input) <= m,
        tr_label(trs[first_at_least(trs, k, label, input)], input) >= label,
    decreases m - k,
{
    if tr_label(trs[k], input) < label {
        lemma_first_at_least_bound(trs, k + 1, label, input, m);
    }
}

/// A run of transitions labeled `label` from `k` to `m` holds the one at `m`.
proof fn lemma_run_from_contains<W>(trs: Seq<Tr<W>>, k: int, label: Label, input: bool, m: int)
    requires
        0 <= k <= m < trs.len(),
        forall|i: int| k <= i <= m ==> tr_label(#[trigger] trs[i], input) == label,
    ensures
        run_from(trs, k, label, input).contains(IterItemMatcher::Tr(trs[m])),
    decreases m - k,
{
    let r = run_from(trs, k, label, input);
    assert(tr_label(trs[k], input) == label);
    if k == m {
        assert(r[0] == IterItemMatcher::Tr(trs[m]));
    } else {
        lemma_run_from_contains(trs, k + 1, label, input, m);
        let rest = run_from(trs, k + 1, label, input);
        let j = choose|j: int| 0 <= j < rest.len() && rest[j] == IterItemMatcher::Tr(trs[m]);
        assert(r == seq![IterItemMatcher::Tr(trs[k])] + rest);
        assert(r[j + 1] == rest[j]);
    }
}

/// Over transitions sorted by the matched label, the matches of a label
/// other than `NO_LABEL` hold every transition that bears it.
pub proof fn lemma_sorted_matches_complete<W>(trs: Seq<Tr<W>>, label: Label, input: bool, m: int)
    requires
        trs_sorted(trs, input),
        0 <= m < trs.len(),
        tr_label(trs[m], input) == label,
        label != NO_LABEL,
    ensures
        sorted_matches(trs, label, input).contains(IterItemMatcher::Tr(trs[m])),
{
    let f = first_at_least(trs, 0, label, input);
    lemma_first_at_least_bound(trs, 0, label, input, m);
    assert forall|i: int| f <= i <= m implies tr_label(#[trigger] trs[i], input) == label by {
        assert(tr_label(trs[f], input) <= tr_label(trs[i], input));
        assert(tr_label(trs[i], input) <= tr_label(trs[m], input));
    }
    lemma_run_from_contains(trs, f, label, input, m);
    let run = run_from(trs, f, label, input);
    if label == EPS_LABEL {
        let j = choose|j: int| 0 <= j < run.len() && run[j] == IterItemMatcher::Tr(trs[m]);
        assert((seq![IterItemMatcher::EpsLoop] + run)[j + 1] == run[j]);
    }
}

proof fn lemma_first_at_least<W>(trs: Seq<Tr<W>>, k: int, label: Label, input: bool, b: int)
    requires
        0 <= k <= b <= trs.len(),
        forall|i: int| k <= i < b ==> tr_label(#[trigger] trs[i], input) < label,
        b < trs.len() ==> tr_label(trs[b], input) >= label,
    ensures
        first_at_least(trs, k, label, input) == b,
    decreases b - k,
{
    if k < b {
        lemma_first_at_least(trs, k + 1, label, input, b);
    }
}

/// Iterator over the transitions that match a label in sorted transitions.
pub struct IteratorSortedMatcher<W> {
    pub trs: Vec<Tr<W>>,
    pub match_label: Label,
    pub pos: usize,
    pub current_loop: bool,
    pub match_type: MatchType,
}

impl<W: Semiring> IteratorSortedMatcher<W> {
    /// The items left to yield.
    pub open spec fn remaining(&self) -> Seq<IterItemMatcher<W>> {
        let run = run_from(self.trs@, self.pos as int, self.match_label, self.match_type == MatchType::MatchInput);
        if self.current_loop {
            seq![IterItemMatcher::EpsLoop] + run
        } else {
            run
        }
    }

    pub fn new(trs: Vec<Tr<W>>, match_label: Label, match_type: MatchType) -> (r: Self)
        requires
            match_type == MatchType::MatchInput || match_type == MatchType::MatchOutput,
            trs_sorted(trs@, match_type == MatchType::MatchInput),
        ensures
            r.remaining() == sorted_matches(trs@, match_label, match_type == MatchType::MatchInput),
            r.match_type == match_type,
    {
        // If we have to match epsilon, an epsilon loop is added
        let current_loop = match_label == EPS_LABEL;
        // NoLabel matches any non-consuming transitions, e.g., epsilon
        // transitions, which do not require a matching symbol.
        let match_label = if match_label == NO_LABEL { EPS_LABEL } else { match_label };
        let input = match_type == MatchType::MatchInput;
        // When matching epsilon, the first transition is supposed to be labeled as such
        let pos = if current_loop { 0 } else { lower_bound_trs(&trs, match_label, input) };
        proof {
            if current_loop {
                assert(trs_sorted(trs@, input));
                lemma_first_at_least(trs@, 0, match_label, input, 0);
            }
        }
        IteratorSortedMatcher { trs, match_label, pos, current_loop, match_type }
    }

    fn get_label(&self, tr: &Tr<W>) -> (l: Label)
        requires
            self.match_type == MatchType::MatchInput || self.match_type == MatchType::MatchOutput,
        ensures
            l == tr_label(*tr, self.match_type == MatchType::MatchInput),
    {
        match self.match_type {
            MatchType::MatchInput => tr.ilabel,
            _ => tr.olabel,
        }
    }

    /// Yields the next item, if any.
    pub fn next(&mut self) -> (r: Option<IterItemMatcher<W>>)
        requires
            old(self).match_type == MatchType::MatchInput || old(self).match_type == MatchType::MatchOutput,
        ensures
            final(self).match_type == old(self).match_type,
            old(self).remaining().len() == 0 ==> r is None && final(self).remaining().len() == 0,
            old(self).remaining().len() > 0 ==> r == Some(old(self).remaining()[0])
                && final(self).remaining() == old(self).remaining().drop_first(),
    {
        if self.current_loop {
            self.current_loop = false;
            return Some(IterItemMatcher::EpsLoop);
        }
        if self.pos < self.trs.len() {
            let l = self.get_label(&self.trs[self.pos]);
            if l == self.match_label {
                let tr = self.trs[self.pos].tr_clone();
                self.pos += 1;
                proof {
                    assert(old(self).remaining().drop_first() =~= self.remaining());
                }
                Some(IterItemMatcher::Tr(tr))
            } else {
                None
            }
        } else {
            None
        }
    }

    /// All the items left, in order.
    pub fn collect(&mut self) -> (r: Vec<IterItemMatcher<W>>)
        requires
            old(self).match_type == MatchType::MatchInput || old(self).match_type == MatchType::MatchOutput,
        ensures
            r@ == old(self).remaining(),
    {
        let mut r: Vec<IterItemMatcher<W>> = Vec::new();
        let ghost all = self.remaining();
        loop
            invariant
                self.match_type == MatchType::MatchInput || self.match_type == MatchType::MatchOutput,
                all == r@ + self.remaining(),
            ensures
                all == r@,
            decreases self.remaining().len(),
        {
            let ghost before = self.remaining();
            match self.next() {
                Some(item) => {
                    r.push(item);
                    proof {
                        assert(all =~= r@ + self.remaining());
                    }
                },
                None => {
                    assert(all =~= r@);
                    break;
                },
            }
        }
        r
    }
}

/// Index of the first transition whose matched label is at least `label` (binary search).
pub fn lower_bound_trs<W>(trs: &Vec<Tr<W>>, label: Label, input: bool) -> (k: usize)
    requires
        trs_sorted(trs@, input),
    ensures
        k == first_at_least(trs@, 0, label, input),
        k <= trs@.len(),
        forall|i: int| 0 <= i < k ==> tr_label(#[trigger] trs@[i], input) < label,
        forall|i: int| k <= i < trs@.len() ==> tr_label(#[trigger] trs@[i], input) >= label,
{
    let mut low: usize = 0;
    let mut high: usize = trs.len();
    while low < high
        invariant
            low <= high <= trs@.len(),
            trs_sorted(trs@, input),
            forall|i: int| 0 <= i < low ==> tr_label(#[trigger] trs@[i], input) < label,
            forall|i: int| high <= i < trs@.len() ==> tr_label(#[trigger] trs@[i], input) >= label,
        decreases high - low,
    {
        let mid = low + (high - low) / 2;
        let l = if input { trs[mid].ilabel } else { trs[mid].olabel };
        if l < label {
            proof {
                assert forall|i: int| 0 <= i < mid + 1 implies tr_label(#[trigger] trs@[i], input) < label by {
                    assert(tr_label(trs@[i], input) <= tr_label(trs@[mid as int], input));
                }
            }
            low = mid + 1;
        } else {
            proof {
                assert forall|i: int| mid <= i < trs@.len() implies tr_label(#[trigger] trs@[i], input) >= label by {
                    assert(tr_label(trs@[mid as int], input) <= tr_label(trs@[i], input));
                }
            }
            high = mid;
        }
    }
    proof {
        lemma_first_at_least(trs@, 0, label, input, low as int);
    }
    low
}

/// A matcher that finds labels by binary search in sorted transitions.
#[derive(Debug)]
pub struct SortedMatcher<W> {
    pub fst: Arc<VectorFst<W>>,
    pub match_type: MatchType,
}


/// What a sorted matcher answers to `match_type`.
pub open spec fn sorted_match_type<W: Semiring>(fst: VectorFst<W>, match_type: MatchType) -> MatchType {
    if match_type == MatchType::MatchNone {
        match_type
    } else if fst.sorted_spec(match_type == MatchType::MatchInput) {
        match_type
    } else {
        MatchType::MatchNone
    }
}

impl<W: Semiring> Matcher<W> for SortedMatcher<W> {
    open spec fn fst_spec(&self) -> VectorFst<W> {
        *self.fst
    }

    open spec fn wf(&self) -> bool {
        true
    }

    open spec fn can_iter(&self) -> bool {
        &&& (self.match_type == MatchType::MatchInput || self.match_type == MatchType::MatchOutput)
        &&& self.fst.sorted_spec(self.match_type == MatchType::MatchInput)
    }

    open spec fn accepts_label(&self, label: Label) -> bool {
        true
    }

    open spec fn iter_spec(&self, state: StateId, label: Label) -> Seq<IterItemMatcher<W>> {
        sorted_matches(self.fst.states@[state as int].trs@, label, self.match_type == MatchType::MatchInput)
    }

    open spec fn match_type_spec(&self, test: bool) -> MatchType {
        sorted_match_type(*self.fst, self.match_type)
    }

    open spec fn flags_spec(&self) -> MatcherFlags {
        MatcherFlags { bits: 0 }
    }

    open spec fn priority_spec(&self, state: StateId) -> usize {
        self.fst.states@[state as int].trs@.len() as usize
    }

    open spec fn new_ok(fst: VectorFst<W>, match_type: MatchType) -> bool {
        true
    }


    fn new(fst: Arc<VectorFst<W>>, match_type: MatchType) -> (r: Result<Self, FstError>)
        ensures
            r matches Ok(m) && *m.fst == *fst && m.match_type == match_type,
    {
        Ok(SortedMatcher { fst, match_type })
    }

    fn iter(&self, state: StateId, label: Label) -> (r: Result<Vec<IterItemMatcher<W>>, FstError>) {
        let trs = self.fst.get_trs(state)?;
        let trs = crate::fst::clone_trs(trs);
        proof {
            assert(trs_sorted(self.fst.states@[state as int].trs@, self.match_type == MatchType::MatchInput));
        }
        let mut it = IteratorSortedMatcher::new(trs, label, self.match_type);
        Ok(it.collect())
    }

    fn final_weight(&self, state: StateId) -> (r: Result<Option<W>, FstError>) {
        self.fst.final_weight(state)
    }

    fn match_type(&self, test: bool) -> (r: Result<MatchType, FstError>) {
        if self.match_type == MatchType::MatchNone {
            return Ok(self.match_type);
        }
        if self.fst.is_sorted(self.match_type == MatchType::MatchInput) {
            Ok(self.match_type)
        } else {
            Ok(MatchType::MatchNone)
        }
    }

    fn flags(&self) -> (r: MatcherFlags) {
        MatcherFlags::empty()
    }

    fn priority(&self, state: StateId) -> (r: Result<usize, FstError>) {
        self.fst.num_trs(state)
    }

    fn fst(&self) -> (r: &VectorFst<W>) {
        &self.fst
    }

    proof fn lemma_match_type_can_iter(&self, test: bool) {
    }

    proof fn lemma_iter_within(&self, state: StateId, label: Label) {
        let trs = self.fst.states@[state as int].trs@;
        let input = self.match_type == MatchType::MatchInput;
        let l = if label == NO_LABEL { EPS_LABEL } else { label };
        assert forall|i: int| 0 <= i < trs.len() implies #[trigger] trs[i].nextstate < self.fst.states@.len() by {
            assert(self.fst.states@[state as int].trs@[i] == trs[i]);
        }
        lemma_run_from_within(trs, first_at_least(trs, 0, l, input), l, input, self.fst.states@.len());
        let run = run_from(trs, first_at_least(trs, 0, l, input), l, input);
        if label == EPS_LABEL {
            let all = seq![IterItemMatcher::<W>::EpsLoop] + run;
            assert forall|i: int| 0 <= i < all.len() implies (#[trigger] all[i] matches IterItemMatcher::Tr(t) ==> t.nextstate < self.fst.states@.len()) by {
                if i > 0 {
                    assert(all[i] == run[i - 1]);
                }
            }
        }
    }
}

/// The labels of an optional list, as a sequence.
pub open spec fn opt_labels(allowed: Option<Vec<Label>>) -> Option<Seq<Label>> {
    match allowed {
        Some(v) => Some(v@),
        None => None,
    }
}

/// Whether a label is allowed to be matched by sigma.
pub open spec fn label_allowed(allowed: Option<Vec<Label>>, label: Label) -> bool {
    match allowed {
        Some(v) => v@.contains(label),
        None => true,
    }
}

fn is_match_label_allowed(sigma_allowed_matches: &Option<Vec<Label>>, match_label: Label) -> (b: bool)
    ensures
        b == label_allowed(*sigma_allowed_matches, match_label),
{
    if sigma_allowed_matches.is_none() {
        return true;
    }
    let allowed = sigma_allowed_matches.as_ref().unwrap();
    let mut i: usize = 0;
    while i < allowed.len()
        invariant
            i <= allowed@.len(),
            *sigma_allowed_matches == Some(*allowed),
            forall|j: int| 0 <= j < i ==> allowed@[j] != match_label,
        decreases allowed.len() - i,
    {
        if allowed[i] == match_label {
            assert(allowed@[i as int] == match_label);
            return true;
        }
        i += 1;
    }
    false
}

/// A matcher where a designated label (sigma) matches any label not otherwise matched.
pub struct SigmaMatcher<W, M> {
    pub match_type: MatchType,
    pub sigma_label: Label,
    pub matcher: Arc<M>,
    pub rewrite_both: bool,
    pub sigma_allowed_matches: Option<Vec<Label>>,
    pub w: std::marker::PhantomData<W>,
}

/// Whether the sigma label can be matched at a state.
pub open spec fn has_sigma_spec<W: Semiring, M: Matcher<W>>(m: M, state: StateId, sigma_label: Label) -> bool {
    sigma_label != NO_LABEL && m.iter_spec(state, sigma_label).len() > 0
}

fn has_sigma<W: Semiring, M: Matcher<W>>(state: StateId, matcher: &Arc<M>, sigma_label: Label) -> (r: Result<bool, FstError>)
    requires
        matcher.wf(),
        matcher.can_iter(),
        matcher.accepts_label(sigma_label),
    ensures
        state < matcher.fst_spec().states@.len() ==> r == Ok::<bool, FstError>(has_sigma_spec(**matcher, state, sigma_label)),
        state >= matcher.fst_spec().states@.len() && sigma_label != NO_LABEL ==> r is Err,
        sigma_label == NO_LABEL ==> r == Ok::<bool, FstError>(false),
{
    if sigma_label != NO_LABEL {
        let v = matcher.iter(state, sigma_label)?;
        Ok(v.len() > 0)
    } else {
        Ok(false)
    }
}

/// The items of a sigma matcher for a label, when the label is not sigma.
pub open spec fn sigma_items<W: Semiring>(
    direct: Seq<IterItemMatcher<W>>,
    via_sigma: Seq<IterItemMatcher<W>>,
    has_sigma: bool,
    state: StateId,
    match_label: Label,
    sigma_label: Label,
    match_type: MatchType,
    rewrite_both: bool,
    allowed: bool,
) -> Seq<IterItemMatcher<W>> {
    if direct.len() > 0 {
        direct
    } else if has_sigma && match_label != EPS_LABEL && match_label != NO_LABEL && allowed && via_sigma.len() > 0 {
        via_sigma.map_values(|item: IterItemMatcher<W>| IterItemMatcher::Tr(sigma_rewrite(item, state, match_label, sigma_label, match_type, rewrite_both)))
    } else {
        seq![]
    }
}

/// A transition matched through sigma, relabeled with the label it stands for.
pub open spec fn sigma_rewrite<W: Semiring>(
    item: IterItemMatcher<W>,
    state: StateId,
    sigma_match: Label,
    sigma_label: Label,
    match_type: MatchType,
    rewrite_both: bool,
) -> Tr<W> {
    let t = match item {
        IterItemMatcher::Tr(t) => t,
        IterItemMatcher::EpsLoop => eps_loop_spec::<W>(state, match_type)->Ok_0,
    };
    if rewrite_both {
        Tr {
            ilabel: if t.ilabel == sigma_label { sigma_match } else { t.ilabel },
            olabel: if t.olabel == sigma_label { sigma_match } else { t.olabel },
            weight: t.weight,
            nextstate: t.nextstate,
        }
    } else if match_type == MatchType::MatchInput {
        Tr { ilabel: sigma_match, olabel: t.olabel, weight: t.weight, nextstate: t.nextstate }
    } else {
        Tr { ilabel: t.ilabel, olabel: sigma_match, weight: t.weight, nextstate: t.nextstate }
    }
}

/// Iteration state of a sigma matcher.
pub struct IteratorSigmaMatcher<W> {
    pub state: StateId,
    pub match_label: Label,
    pub sigma_label: Label,
    pub match_type: MatchType,
    /// Iterator should be done when set to true
    pub find_empty: bool,
    pub sigma_match: Option<Label>,
    pub items: Vec<IterItemMatcher<W>>,
    pub pos: usize,
    pub has_sigma: bool,
    pub rewrite_both: bool,
}

impl<W: Semiring> IteratorSigmaMatcher<W> {
    /// Internal consistency of the iteration state.
    pub open spec fn inv(&self) -> bool {
        &&& self.pos <= self.items@.len()
        &&& !self.find_empty ==> self.sigma_match is Some
        &&& (self.sigma_match matches Some(l) && l != NO_LABEL) ==> (self.match_type == MatchType::MatchInput
            || self.match_type == MatchType::MatchOutput || forall|i: int| 0 <= i < self.items@.len() ==> self.items@[i] is Tr)
    }

    /// The items left to yield.
    pub open spec fn remaining(&self) -> Seq<IterItemMatcher<W>> {
        if self.find_empty {
            seq![]
        } else if self.sigma_match == Some(NO_LABEL) {
            self.items@.skip(self.pos as int)
        } else {
            self.items@.skip(self.pos as int).map_values(|item: IterItemMatcher<W>|
                IterItemMatcher::Tr(sigma_rewrite(item, self.state, self.sigma_match->Some_0, self.sigma_label, self.match_type, self.rewrite_both)))
        }
    }

    pub fn new<M: Matcher<W>>(
        state: StateId,
        match_label: Label,
        sigma_label: Label,
        match_type: MatchType,
        matcher: Arc<M>,
        rewrite_both: bool,
        sigma_allowed_matches: &Option<Vec<Label>>,
    ) -> (r: Result<Self, FstError>)
        requires
            matcher.wf(),
            matcher.can_iter(),
            matcher.accepts_label(sigma_label),
            match_type == MatchType::MatchInput || match_type == MatchType::MatchOutput,
        ensures
            match_label == sigma_label && sigma_label != NO_LABEL ==> r == Err::<Self, FstError>(FstError::BadSigmaLabel),
            !(match_label == sigma_label && sigma_label != NO_LABEL) && state < matcher.fst_spec().states@.len() && matcher.accepts_label(match_label)
                ==> (r matches Ok(it) && it.inv() && it.remaining() == sigma_items(
                matcher.iter_spec(state, match_label),
                matcher.iter_spec(state, sigma_label),
                has_sigma_spec(*matcher, state, sigma_label),
                state,
                match_label,
                sigma_label,
                match_type,
                rewrite_both,
                label_allowed(*sigma_allowed_matches, match_label),
            ) && it.match_type == match_type && it.state == state && it.rewrite_both == rewrite_both && it.sigma_label == sigma_label),
            state >= matcher.fst_spec().states@.len() || !matcher.accepts_label(match_label) ==> r is Err,
    {
        if match_label == sigma_label && sigma_label != NO_LABEL {
            return Err(FstError::BadSigmaLabel);
        }
        let mut find_empty = false;
        let has_sigma = has_sigma(state, &matcher, sigma_label)?;
        let direct = matcher.iter(state, match_label)?;
        let ghost dspec = matcher.iter_spec(state, match_label);
        let ghost sspec = matcher.iter_spec(state, sigma_label);
        let (sigma_match, items) = if direct.len() > 0 {
            (Some(NO_LABEL), direct)
        } else {
            let via_sigma = matcher.iter(state, sigma_label)?;
            if has_sigma && match_label != EPS_LABEL && match_label != NO_LABEL && is_match_label_allowed(
                sigma_allowed_matches,
                match_label,
            ) && via_sigma.len() > 0 {
                (Some(match_label), via_sigma)
            } else {
                find_empty = true;
                (None, via_sigma)
            }
        };
        let it = IteratorSigmaMatcher {
            state,
            match_label,
            sigma_label,
            match_type,
            find_empty,
            sigma_match,
            items,
            pos: 0,
            has_sigma,
            rewrite_both,
        };
        proof {
            assert(it.items@.skip(0) =~= it.items@);
        }
        Ok(it)
    }

    /// The current item, rewritten when matched through sigma. Assumes the iterator is not done.
    pub fn value_openfst(&self) -> (r: IterItemMatcher<W>)
        requires
            self.inv(),
            !self.find_empty,
            self.pos < self.items@.len(),
        ensures
            r == self.remaining()[0],
    {
        let item = self.items[self.pos].item_clone();
        if self.sigma_match == Some(NO_LABEL) {
            item
        } else {
            let sigma_match = match self.sigma_match {
                Some(l) => l,
                None => NO_LABEL,
            };
            let mut sigma_arc = match item {
                IterItemMatcher::Tr(t) => t,
                IterItemMatcher::EpsLoop => match eps_loop::<W>(self.state, self.match_type) {
                    Ok(t) => t,
                    Err(_) => Tr::new(EPS_LABEL, EPS_LABEL, W::one(), self.state),
                },
            };
            if self.rewrite_both {
                if sigma_arc.ilabel == self.sigma_label {
                    sigma_arc.ilabel = sigma_match;
                }
                if sigma_arc.olabel == self.sigma_label {
                    sigma_arc.olabel = sigma_match;
                }
            } else if self.match_type == MatchType::MatchInput {
                sigma_arc.ilabel = sigma_match;
            } else {
                sigma_arc.olabel = sigma_match;
            }
            IterItemMatcher::Tr(sigma_arc)
        }
    }

    /// Moves to the next item; at the end of the direct matches, continues with
    /// the sigma matches when the label may be matched through sigma.
    pub fn next_openfst<M: Matcher<W>>(&mut self, matcher: &Arc<M>) -> (r: Result<(), FstError>)
        requires
            old(self).inv(),
            matcher.wf(),
            matcher.can_iter(),
            matcher.accepts_label(old(self).sigma_label),
        ensures
            old(self).pos < old(self).items@.len() ==> r is Ok && *final(self) == (IteratorSigmaMatcher { pos: (old(self).pos + 1) as usize, ..*old(self) }),
            final(self).state == old(self).state,
            final(self).match_type == old(self).match_type,
            final(self).find_empty == old(self).find_empty,
            final(self).sigma_label == old(self).sigma_label,
    {
        if self.pos < self.items.len() {
            self.pos += 1;
            return Ok(());
        }
        if self.has_sigma && self.sigma_match == Some(NO_LABEL) && self.match_label > 0 {
            let v = matcher.iter(self.state, self.sigma_label)?;
            self.items = v;
            self.pos = 0;
            self.sigma_match = Some(self.match_label);
        }
        Ok(())
    }
}


impl<W: Semiring> IteratorSigmaMatcher<W> {
    /// Yields the next item, if any.
    pub fn next_item<M: Matcher<W>>(&mut self, matcher: &Arc<M>) -> (r: Result<Option<IterItemMatcher<W>>, FstError>)
        requires
            old(self).inv(),
            matcher.wf(),
            matcher.can_iter(),
            matcher.accepts_label(old(self).sigma_label),
        ensures
            final(self).inv(),
            final(self).sigma_label == old(self).sigma_label,
            old(self).remaining().len() == 0 ==> r == Ok::<Option<IterItemMatcher<W>>, FstError>(None) && *final(self) == *old(self),
            old(self).remaining().len() > 0 ==> r == Ok::<Option<IterItemMatcher<W>>, FstError>(Some(old(self).remaining()[0]))
                && final(self).remaining() == old(self).remaining().drop_first(),
    {
        if self.find_empty {
            return Ok(None);
        }
        if self.pos >= self.items.len() {
            return Ok(None);
        }
        let v = self.value_openfst();
        let ghost before = *self;
        self.next_openfst(matcher)?;
        proof {
            assert(before.items@.skip(before.pos as int).drop_first() =~= self.items@.skip(self.pos as int));
        }
        Ok(Some(v))
    }

    /// All the items left, in order.
    pub fn collect<M: Matcher<W>>(&mut self, matcher: &Arc<M>) -> (r: Result<Vec<IterItemMatcher<W>>, FstError>)
        requires
            old(self).inv(),
            matcher.wf(),
            matcher.can_iter(),
            matcher.accepts_label(old(self).sigma_label),
        ensures
            r matches Ok(v) && v@ == old(self).remaining(),
    {
        let mut r: Vec<IterItemMatcher<W>> = Vec::new();
        let ghost all = self.remaining();
        loop
            invariant
                self.inv(),
                matcher.wf(),
                matcher.can_iter(),
                matcher.accepts_label(self.sigma_label),
                all == r@ + self.remaining(),
            ensures
                all == r@,
            decreases self.remaining().len(),
        {
            match self.next_item(matcher)? {
                Some(item) => {
                    r.push(item);
                    proof {
                        assert(all =~= r@ + self.remaining());
                    }
                },
                None => {
                    assert(all =~= r@);
                    break;
                },
            }
        }
        Ok(r)
    }
}

impl<W: Semiring, M: Matcher<W>> SigmaMatcher<W, M> {
    pub fn new_sigma(
        match_type: MatchType,
        sigma_label: Label,
        rewrite_mode: MatcherRewriteMode,
        matcher: Arc<M>,
        sigma_allowed_matches: Option<Vec<Label>>,
    ) -> (r: Result<Self, FstError>)
        ensures
            match_type == MatchType::MatchBoth ==> r == Err::<Self, FstError>(FstError::UnsupportedMatchType),
            match_type != MatchType::MatchBoth && sigma_label == EPS_LABEL ==> r == Err::<Self, FstError>(FstError::BadSigmaLabel),
            match_type != MatchType::MatchBoth && sigma_label != EPS_LABEL ==> (r matches Ok(m)
                && m.match_type == match_type && m.sigma_label == sigma_label && *m.matcher == *matcher
                && m.sigma_allowed_matches == sigma_allowed_matches
                && m.rewrite_both == match rewrite_mode {
                    MatcherRewriteMode::MatcherRewriteAuto => matcher.fst_spec().acceptor_spec(),
                    MatcherRewriteMode::MatcherRewriteAlways => true,
                    MatcherRewriteMode::MatcherRewriteNever => false,
                }),
    {
        if match_type == MatchType::MatchBoth {
            return Err(FstError::UnsupportedMatchType);
        }
        if sigma_label == EPS_LABEL {
            return Err(FstError::BadSigmaLabel);
        }
        let rewrite_both = match rewrite_mode {
            MatcherRewriteMode::MatcherRewriteAuto => matcher.fst().is_acceptor(),
            MatcherRewriteMode::MatcherRewriteAlways => true,
            MatcherRewriteMode::MatcherRewriteNever => false,
        };
        Ok(SigmaMatcher {
            match_type,
            sigma_label,
            matcher,
            rewrite_both,
            sigma_allowed_matches,
            w: std::marker::PhantomData,
        })
    }

    pub fn sigma_label(&self) -> (l: Label)
        ensures
            l == self.sigma_label,
    {
        self.sigma_label
    }
}

impl<W: Semiring, M: Matcher<W>> Matcher<W> for SigmaMatcher<W, M> {
    open spec fn fst_spec(&self) -> VectorFst<W> {
        self.matcher.fst_spec()
    }

    open spec fn wf(&self) -> bool {
        &&& self.matcher.wf()
        &&& self.matcher.accepts_label(self.sigma_label)
        &&& (self.match_type == MatchType::MatchInput || self.match_type == MatchType::MatchOutput)
    }

    open spec fn can_iter(&self) -> bool {
        self.matcher.can_iter()
    }

    open spec fn accepts_label(&self, label: Label) -> bool {
        &&& self.matcher.accepts_label(label)
        &&& (label != self.sigma_label || self.sigma_label == NO_LABEL)
    }

    open spec fn iter_spec(&self, state: StateId, label: Label) -> Seq<IterItemMatcher<W>> {
        sigma_items(
            self.matcher.iter_spec(state, label),
            self.matcher.iter_spec(state, self.sigma_label),
            has_sigma_spec(*self.matcher, state, self.sigma_label),
            state,
            label,
            self.sigma_label,
            self.match_type,
            self.rewrite_both,
            label_allowed(self.sigma_allowed_matches, label),
        )
    }

    open spec fn match_type_spec(&self, test: bool) -> MatchType {
        self.matcher.match_type_spec(test)
    }

    open spec fn flags_spec(&self) -> MatcherFlags {
        if self.sigma_label == NO_LABEL || self.match_type == MatchType::MatchNone {
            self.matcher.flags_spec()
        } else {
            MatcherFlags { bits: self.matcher.flags_spec().bits | 1 }
        }
    }

    open spec fn priority_spec(&self, state: StateId) -> usize {
        if self.sigma_label != NO_LABEL && has_sigma_spec(*self.matcher, state, self.sigma_label) {
            REQUIRE_PRIORITY
        } else {
            self.matcher.priority_spec(state)
        }
    }

    open spec fn new_ok(fst: VectorFst<W>, match_type: MatchType) -> bool {
        false
    }

    /// A sigma matcher is built from another matcher; this constructor always fails.
    fn new(fst: Arc<VectorFst<W>>, match_type: MatchType) -> (r: Result<Self, FstError>)
        ensures
            r == Err::<Self, FstError>(FstError::MissingConfig),
    {
        Err(FstError::MissingConfig)
    }

    fn iter(&self, state: StateId, label: Label) -> (r: Result<Vec<IterItemMatcher<W>>, FstError>) {
        let mut it = IteratorSigmaMatcher::new(
            state,
            label,
            self.sigma_label,
            self.match_type,
            arc_clone(&self.matcher),
            self.rewrite_both,
            &self.sigma_allowed_matches,
        )?;
        it.collect(&self.matcher)
    }

    fn final_weight(&self, state: StateId) -> (r: Result<Option<W>, FstError>) {
        self.matcher.final_weight(state)
    }

    fn match_type(&self, test: bool) -> (r: Result<MatchType, FstError>) {
        self.matcher.match_type(test)
    }

    fn flags(&self) -> (r: MatcherFlags) {
        if self.sigma_label == NO_LABEL || self.match_type == MatchType::MatchNone {
            self.matcher.flags()
        } else {
            self.matcher.flags().union(MatcherFlags::require_match())
        }
    }

    fn priority(&self, state: StateId) -> (r: Result<usize, FstError>) {
        if self.sigma_label != NO_LABEL {
            if has_sigma(state, &self.matcher, self.sigma_label)? {
                Ok(REQUIRE_PRIORITY)
            } else {
                self.matcher.priority(state)
            }
        } else {
            self.matcher.priority(state)
        }
    }

    fn fst(&self) -> (r: &VectorFst<W>) {
        self.matcher.fst()
    }

    proof fn lemma_match_type_can_iter(&self, test: bool) {
        self.matcher.lemma_match_type_can_iter(test);
    }

    proof fn lemma_iter_within(&self, state: StateId, label: Label) {
        let n = self.fst_spec().states@.len();
        self.matcher.lemma_iter_within(state, label);
        self.matcher.lemma_iter_within(state, self.sigma_label);
        let items = self.iter_spec(state, label);
        let via = self.matcher.iter_spec(state, self.sigma_label);
        assert forall|i: int| 0 <= i < items.len() implies (#[trigger] items[i] matches IterItemMatcher::Tr(t) ==> t.nextstate < n) by {
            if self.matcher.iter_spec(state, label).len() == 0 && items.len() > 0 {
                let it = via[i];
                if it is EpsLoop {
                    assert(eps_loop_spec::<W>(state, self.match_type) is Ok);
                }
            }
        }
    }
}

} // verus!
