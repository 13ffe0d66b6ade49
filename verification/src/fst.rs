use vstd::prelude::*;

use crate::semirings::Semiring;
use crate::{Label, StateId, EPS_LABEL};

verus! {

/// Errors reported by the operations of this library.
#[derive(Debug, Clone, Copy, PartialEq, Eq)]
pub enum FstError {
    /// A state identifier does not designate a state of the FST.
    StateOutOfRange,
    /// The operation expects an acceptor (input label == output label on every transition).
    NotAnAcceptor,
    /// The matcher type is not supported by this operation.
    UnsupportedMatchType,
    /// The sigma label is not allowed (epsilon), or a bad label was requested.
    BadSigmaLabel,
    /// Both matchers require matching.
    BothRequireMatch,
    /// Neither matcher can match.
    CannotMatch,
    /// The FST is not sorted on the required side.
    NotSorted,
    /// A final state belongs to a cycle.
    FinalStateInCycle,
    /// The requested state is not final.
    NonFinalState,
    /// A required configuration element is missing.
    MissingConfig,
    /// The input is cyclic where an acyclic one is expected.
    CyclicInput,
    /// A binary buffer ended early or held a bad value.
    ParseError,
    /// The configuration asks for something this operation does not support.
    UnsupportedConfig,
    /// A weight has no quotient by another one.
    WeightNotDivisible,
    /// The weight type lacks a property the operation needs.
    UnsupportedSemiring,
    /// No more states can be numbered.
    TooManyStates,
    /// The matcher flags do not allow the requested lookahead.
    BadMatcherFlags,
    /// Given data does not hold the invariant of its type.
    InvalidData,
    /// A label has no index.
    UnknownLabel,
    /// Epsilon cannot be a multi-epsilon label.
    BadMultiEpsLabel,
}

/// A transition: input label, output label, weight and destination state.
#[derive(Debug, PartialEq, Eq)]
pub struct Tr<W> {
    pub ilabel: Label,
    pub olabel: Label,
    pub weight: W,
    pub nextstate: StateId,
}

impl<W: Semiring> Tr<W> {
    pub fn new(ilabel: Label, olabel: Label, weight: W, nextstate: StateId) -> (r: Self)
        ensures
            r == (Tr { ilabel, olabel, weight, nextstate }),
    {
        Tr { ilabel, olabel, weight, nextstate }
    }

    /// A copy of the transition.
    pub fn tr_clone(&self) -> (r: Self)
        ensures
            r == *self,
    {
        Tr {
            ilabel: self.ilabel,
            olabel: self.olabel,
            weight: self.weight.weight_clone(),
            nextstate: self.nextstate,
        }
    }
}

/// Copies a sequence of transitions.
pub fn clone_trs<W: Semiring>(trs: &Vec<Tr<W>>) -> (r: Vec<Tr<W>>)
    ensures
        r@ == trs@,
{
    let mut r: Vec<Tr<W>> = Vec::new();
    let mut i: usize = 0;
    while i < trs.len()
        invariant
            i <= trs.len(),
            r@ == trs@.subrange(0, i as int),
        decreases trs.len() - i,
    {
        r.push(trs[i].tr_clone());
        i += 1;
        assert(r@ =~= trs@.subrange(0, i as int));
    }
    assert(r@ =~= trs@);
    r
}

/// A state of a `VectorFst`: its optional final weight and its outgoing transitions.
#[derive(Debug, PartialEq, Eq)]
pub struct FstState<W> {
    pub final_weight: Option<W>,
    pub trs: Vec<Tr<W>>,
}

/// A mutable FST that stores its states in a vector.
#[derive(Debug, PartialEq, Eq)]
pub struct VectorFst<W> {
    pub states: Vec<FstState<W>>,
    pub start_state: Option<StateId>,
}

/// The label a transition is matched on: input label or output label.
pub open spec fn tr_label<W>(tr: Tr<W>, input: bool) -> Label {
    if input { tr.ilabel } else { tr.olabel }
}

/// The label a transition is matched on, input or output.
pub fn label_of<W>(tr: &Tr<W>, input: bool) -> (l: Label)
    ensures
        l == tr_label(*tr, input),
{
    if input {
        tr.ilabel
    } else {
        tr.olabel
    }
}

/// The transitions of a sequence are sorted by the chosen label.
pub open spec fn trs_sorted<W>(trs: Seq<Tr<W>>, input: bool) -> bool {
    forall|i: int, j: int| 0 <= i <= j < trs.len() ==> tr_label(trs[i], input) <= tr_label(trs[j], input)
}

/// Number of transitions of a sequence whose chosen label is epsilon.
pub open spec fn count_eps<W>(trs: Seq<Tr<W>>, input: bool) -> nat
    decreases trs.len(),
{
    if trs.len() == 0 {
        0
    } else {
        count_eps(trs.drop_last(), input) + if tr_label(trs.last(), input) == EPS_LABEL { 1nat } else { 0nat }
    }
}

impl<W: Semiring> VectorFst<W> {
    /// Every destination state and the start state exist.
    pub open spec fn wf(&self) -> bool {
        &&& (self.start_state matches Some(s) ==> s < self.states@.len())
        &&& forall|s: int, k: int|
            0 <= s < self.states@.len() && 0 <= k < self.states@[s].trs@.len()
                ==> #[trigger] self.states@[s].trs@[k].nextstate < self.states@.len()
    }

    /// Each state's transitions are sorted on the chosen side.
    pub open spec fn sorted_spec(&self, input: bool) -> bool {
        forall|s: int| 0 <= s < self.states@.len() ==> trs_sorted(#[trigger] self.states@[s].trs@, input)
    }

    /// Every transition has equal input and output labels.
    pub open spec fn acceptor_spec(&self) -> bool {
        forall|s: int, k: int|
            0 <= s < self.states@.len() && 0 <= k < self.states@[s].trs@.len()
                ==> #[trigger] self.states@[s].trs@[k].ilabel == self.states@[s].trs@[k].olabel
    }

    /// Every state has at most one transition per input label.
    pub open spec fn deterministic_spec(&self) -> bool {
        forall|s: int, k1: int, k2: int|
            0 <= s < self.states@.len() && 0 <= k1 < k2 < self.states@[s].trs@.len()
                ==> #[trigger] self.states@[s].trs@[k1].ilabel != #[trigger] self.states@[s].trs@[k2].ilabel
    }

    pub fn new() -> (r: Self)
        ensures
            r.states@.len() == 0,
            r.start_state is None,
            r.wf(),
    {
        VectorFst { states: Vec::new(), start_state: None }
    }

    /// Whether every destination state and the start state exist.
    pub fn check_wf(&self) -> (b: bool)
        ensures
            b == self.wf(),
    {
        let n = self.states.len();
        match self.start_state {
            Some(s) => {
                if s >= n {
                    return false;
                }
            },
            None => {},
        }
        let mut s: usize = 0;
        while s < n
            invariant
                s <= n,
                n == self.states@.len(),
                self.start_state matches Some(st) ==> st < n,
                forall|q: int, k: int| 0 <= q < s && 0 <= k < self.states@[q].trs@.len()
                    ==> #[trigger] self.states@[q].trs@[k].nextstate < n,
            decreases n - s,
        {
            let trs = &self.states[s].trs;
            let mut k: usize = 0;
            while k < trs.len()
                invariant
                    k <= trs@.len(),
                    s < n,
                    n == self.states@.len(),
                    trs@ == self.states@[s as int].trs@,
                    forall|q: int, kk: int| 0 <= q < s && 0 <= kk < self.states@[q].trs@.len()
                        ==> #[trigger] self.states@[q].trs@[kk].nextstate < n,
                    forall|kk: int| 0 <= kk < k ==> #[trigger] trs@[kk].nextstate < n,
                decreases trs@.len() - k,
            {
                if trs[k].nextstate >= n {
                    assert(self.states@[s as int].trs@[k as int].nextstate >= n);
                    return false;
                }
                k += 1;
            }
            s += 1;
        }
        true
    }

    /// A copy of the FST.
    pub fn fst_clone(&self) -> (r: Self)
        ensures
            r.states@.len() == self.states@.len(),
            r.start_state == self.start_state,
            forall|s: int| 0 <= s < self.states@.len() ==> (#[trigger] r.states@[s]).final_weight == self.states@[s].final_weight
                && r.states@[s].trs@ == self.states@[s].trs@,
            self.wf() ==> r.wf(),
    {
        let mut states: Vec<FstState<W>> = Vec::new();
        let mut i: usize = 0;
        while i < self.states.len()
            invariant
                i <= self.states@.len(),
                states@.len() == i,
                forall|s: int| 0 <= s < i ==> (#[trigger] states@[s]).final_weight == self.states@[s].final_weight
                    && states@[s].trs@ == self.states@[s].trs@,
            decreases self.states@.len() - i,
        {
            let fw = match &self.states[i].final_weight {
                Some(w) => Some(w.weight_clone()),
                None => None,
            };
            states.push(FstState { final_weight: fw, trs: clone_trs(&self.states[i].trs) });
            i += 1;
        }
        let r = VectorFst { states, start_state: self.start_state };
        proof {
            if self.wf() {
                assert forall|q: int, k: int|
                    0 <= q < r.states@.len() && 0 <= k < r.states@[q].trs@.len()
                        implies #[trigger] r.states@[q].trs@[k].nextstate < r.states@.len() by {
                    assert(r.states@[q].trs@[k] == self.states@[q].trs@[k]);
                }
            }
        }
        r
    }

    pub fn num_states(&self) -> (n: usize)
        ensures
            n == self.states@.len(),
    {
        self.states.len()
    }

    pub fn start(&self) -> (r: Option<StateId>)
        ensures
            r == self.start_state,
    {
        self.start_state
    }

    /// Adds a state with no transition and no final weight; returns its identifier.
    pub fn add_state(&mut self) -> (s: StateId)
        requires
            old(self).states@.len() < usize::MAX,
        ensures
            s == old(self).states@.len(),
            final(self).states@.len() == old(self).states@.len() + 1,
            forall|q: int| 0 <= q < s ==> final(self).states@[q] == old(self).states@[q],
            final(self).states@[s as int].trs@.len() == 0,
            final(self).states@[s as int].final_weight is None,
            final(self).start_state == old(self).start_state,
            old(self).wf() ==> final(self).wf(),
    {
        let s = self.states.len();
        self.states.push(FstState { final_weight: None, trs: Vec::new() });
        proof {
            assert forall|q: int, k: int|
                0 <= q < self.states@.len() && 0 <= k < self.states@[q].trs@.len() && old(self).wf()
                    implies #[trigger] self.states@[q].trs@[k].nextstate < self.states@.len() by {
                if q < s {
                    assert(self.states@[q] == old(self).states@[q]);
                }
            }
        }
        s
    }

    /// Sets the start state; fails when the state does not exist.
    pub fn set_start(&mut self, s: StateId) -> (r: Result<(), FstError>)
        ensures
            s < old(self).states@.len() ==> r is Ok && final(self).start_state == Some(s),
            s >= old(self).states@.len() ==> r == Err::<(), FstError>(FstError::StateOutOfRange) && *final(self) == *old(self),
            final(self).states@ == old(self).states@,
            old(self).wf() ==> final(self).wf(),
    {
        if s < self.states.len() {
            self.start_state = Some(s);
            Ok(())
        } else {
            Err(FstError::StateOutOfRange)
        }
    }

    /// Sets the final weight of a state; fails when the state does not exist.
    pub fn set_final(&mut self, s: StateId, w: W) -> (r: Result<(), FstError>)
        ensures
            s < old(self).states@.len() ==> r is Ok && final(self).states@ == old(self).states@.update(
                s as int,
                FstState { final_weight: Some(w), trs: old(self).states@[s as int].trs },
            ),
            s >= old(self).states@.len() ==> r == Err::<(), FstError>(FstError::StateOutOfRange) && final(self).states@ == old(self).states@,
            final(self).start_state == old(self).start_state,
            old(self).wf() ==> final(self).wf(),
    {
        if s < self.states.len() {
            self.states[s].final_weight = Some(w);
            proof {
                assert forall|q: int, k: int|
                    0 <= q < self.states@.len() && 0 <= k < self.states@[q].trs@.len() && old(self).wf()
                        implies #[trigger] self.states@[q].trs@[k].nextstate < self.states@.len() by {
                    assert(self.states@[q].trs@ == old(self).states@[q].trs@);
                }
            }
            Ok(())
        } else {
            Err(FstError::StateOutOfRange)
        }
    }

    /// Removes the final weight of a state.
    pub fn delete_final_weight(&mut self, s: StateId)
        requires
            s < old(self).states@.len(),
        ensures
            final(self).states@ == old(self).states@.update(
                s as int,
                FstState { final_weight: None, trs: old(self).states@[s as int].trs },
            ),
            final(self).start_state == old(self).start_state,
            old(self).wf() ==> final(self).wf(),
    {
        self.states[s].final_weight = None;
        proof {
            assert forall|q: int, k: int|
                0 <= q < self.states@.len() && 0 <= k < self.states@[q].trs@.len() && old(self).wf()
                    implies #[trigger] self.states@[q].trs@[k].nextstate < self.states@.len() by {
                assert(self.states@[q].trs@ == old(self).states@[q].trs@);
            }
        }
    }

    /// Appends a transition to the transitions leaving a state; fails when the state does not exist.
    pub fn add_tr(&mut self, s: StateId, tr: Tr<W>) -> (r: Result<(), FstError>)
        ensures
            s < old(self).states@.len() ==> r is Ok && final(self).states@ == old(self).states@.update(
                s as int,
                FstState { final_weight: old(self).states@[s as int].final_weight, trs: final(self).states@[s as int].trs },
            ) && final(self).states@[s as int].trs@ == old(self).states@[s as int].trs@.push(tr),
            s >= old(self).states@.len() ==> r == Err::<(), FstError>(FstError::StateOutOfRange) && final(self).states@ == old(self).states@,
            final(self).start_state == old(self).start_state,
            old(self).wf() && tr.nextstate < old(self).states@.len() ==> final(self).wf(),
    {
        if s < self.states.len() {
            let ghost nt = tr.nextstate;
            self.states[s].trs.push(tr);
            proof {
                assert forall|q: int, k: int|
                    0 <= q < self.states@.len() && 0 <= k < self.states@[q].trs@.len() && old(self).wf() && nt < old(self).states@.len()
                        implies #[trigger] self.states@[q].trs@[k].nextstate < self.states@.len() by {
                    if q != s {
                        assert(self.states@[q].trs@ == old(self).states@[q].trs@);
                    } else if k < old(self).states@[q].trs@.len() {
                        assert(self.states@[q].trs@[k] == old(self).states@[q].trs@[k]);
                    }
                }
            }
            Ok(())
        } else {
            Err(FstError::StateOutOfRange)
        }
    }

    /// The final weight of a state, or `None` when the state is not final.
    pub fn final_weight(&self, s: StateId) -> (r: Result<Option<W>, FstError>)
        ensures
            s < self.states@.len() ==> r == Ok::<Option<W>, FstError>(self.states@[s as int].final_weight),
            s >= self.states@.len() ==> r == Err::<Option<W>, FstError>(FstError::StateOutOfRange),
    {
        if s < self.states.len() {
            match &self.states[s].final_weight {
                Some(w) => Ok(Some(w.weight_clone())),
                None => Ok(None),
            }
        } else {
            Err(FstError::StateOutOfRange)
        }
    }

    /// Whether a state has a final weight.
    pub fn is_final(&self, s: StateId) -> (r: Result<bool, FstError>)
        ensures
            s < self.states@.len() ==> r == Ok::<bool, FstError>(self.states@[s as int].final_weight is Some),
            s >= self.states@.len() ==> r == Err::<bool, FstError>(FstError::StateOutOfRange),
    {
        if s < self.states.len() {
            Ok(self.states[s].final_weight.is_some())
        } else {
            Err(FstError::StateOutOfRange)
        }
    }

    /// Number of transitions leaving a state.
    pub fn num_trs(&self, s: StateId) -> (r: Result<usize, FstError>)
        ensures
            s < self.states@.len() ==> (r matches Ok(n) && n == self.states@[s as int].trs@.len()),
            s >= self.states@.len() ==> r == Err::<usize, FstError>(FstError::StateOutOfRange),
    {
        if s < self.states.len() {
            Ok(self.states[s].trs.len())
        } else {
            Err(FstError::StateOutOfRange)
        }
    }

    /// The transitions leaving a state.
    pub fn get_trs(&self, s: StateId) -> (r: Result<&Vec<Tr<W>>, FstError>)
        ensures
            s < self.states@.len() ==> (r matches Ok(v) && v@ == self.states@[s as int].trs@),
            s >= self.states@.len() ==> r == Err::<&Vec<Tr<W>>, FstError>(FstError::StateOutOfRange),
    {
        if s < self.states.len() {
            Ok(&self.states[s].trs)
        } else {
            Err(FstError::StateOutOfRange)
        }
    }

    fn count_epsilons(&self, s: StateId, input: bool) -> (n: usize)
        requires
            s < self.states@.len(),
        ensures
            n == count_eps(self.states@[s as int].trs@, input),
    {
        let trs = &self.states[s].trs;
        let mut n: usize = 0;
        let mut i: usize = 0;
        while i < trs.len()
            invariant
                i <= trs.len(),
                n <= i,
                n == count_eps(trs@.subrange(0, i as int), input),
            decreases trs.len() - i,
        {
            let l = if input { trs[i].ilabel } else { trs[i].olabel };
            assert(trs@.subrange(0, i + 1 as int).drop_last() =~= trs@.subrange(0, i as int));
            if l == EPS_LABEL {
                n += 1;
            }
            i += 1;
        }
        assert(trs@.subrange(0, i as int) =~= trs@);
        n
    }

    /// Number of transitions leaving a state with an epsilon input label.
    pub fn num_input_epsilons(&self, s: StateId) -> (r: Result<usize, FstError>)
        ensures
            s < self.states@.len() ==> (r matches Ok(n) && n == count_eps(self.states@[s as int].trs@, true)),
            s >= self.states@.len() ==> r == Err::<usize, FstError>(FstError::StateOutOfRange),
    {
        if s < self.states.len() {
            Ok(self.count_epsilons(s, true))
        } else {
            Err(FstError::StateOutOfRange)
        }
    }

    /// Number of transitions leaving a state with an epsilon output label.
    pub fn num_output_epsilons(&self, s: StateId) -> (r: Result<usize, FstError>)
        ensures
            s < self.states@.len() ==> (r matches Ok(n) && n == count_eps(self.states@[s as int].trs@, false)),
            s >= self.states@.len() ==> r == Err::<usize, FstError>(FstError::StateOutOfRange),
    {
        if s < self.states.len() {
            Ok(self.count_epsilons(s, false))
        } else {
            Err(FstError::StateOutOfRange)
        }
    }

    /// Whether every transition has equal input and output labels.
    pub fn is_acceptor(&self) -> (b: bool)
        ensures
            b == self.acceptor_spec(),
    {
        let mut s: usize = 0;
        while s < self.states.len()
            invariant
                s <= self.states@.len(),
                forall|q: int, k: int|
                    0 <= q < s && 0 <= k < self.states@[q].trs@.len()
                        ==> #[trigger] self.states@[q].trs@[k].ilabel == self.states@[q].trs@[k].olabel,
            decreases self.states@.len() - s,
        {
            let trs = &self.states[s].trs;
            let mut k: usize = 0;
            while k < trs.len()
                invariant
                    s < self.states@.len(),
                    trs@ == self.states@[s as int].trs@,
                    k <= trs.len(),
                    forall|j: int| 0 <= j < k ==> #[trigger] trs@[j].ilabel == trs@[j].olabel,
                decreases trs.len() - k,
            {
                if trs[k].ilabel != trs[k].olabel {
                    return false;
                }
                k += 1;
            }
            s += 1;
        }
        true
    }

    /// Whether the transitions of every state are sorted on the chosen side.
    pub fn is_sorted(&self, input: bool) -> (b: bool)
        ensures
            b == self.sorted_spec(input),
    {
        let mut s: usize = 0;
        while s < self.states.len()
            invariant
                s <= self.states@.len(),
                forall|q: int| 0 <= q < s ==> trs_sorted(#[trigger] self.states@[q].trs@, input),
            decreases self.states@.len() - s,
        {
            let trs = &self.states[s].trs;
            let mut k: usize = 1;
            if trs.len() > 0 {
                while k < trs.len()
                    invariant
                        s < self.states@.len(),
                        trs@ == self.states@[s as int].trs@,
                        1 <= k <= trs.len(),
                        forall|i: int, j: int| 0 <= i <= j < k ==> tr_label(trs@[i], input) <= tr_label(trs@[j], input),
                    decreases trs.len() - k,
                {
                    let a = if input { trs[k - 1].ilabel } else { trs[k - 1].olabel };
                    let b = if input { trs[k].ilabel } else { trs[k].olabel };
                    if a > b {
                        assert(!trs_sorted(self.states@[s as int].trs@, input));
                        return false;
                    }
                    k += 1;
                }
            }
            s += 1;
        }
        true
    }
}

} // verus!

verus! {

/// Number of kept states below `s`.
#[verifier::opaque]
pub open spec fn keep_rank(keep: Seq<bool>, s: int) -> int
    decreases s,
{
    if s <= 0 || keep.len() == 0 {
        0
    } else if s > keep.len() {
        keep_rank(keep, keep.len() as int)
    } else {
        keep_rank(keep, s - 1) + if keep[s - 1] { 1int } else { 0int }
    }
}

/// The transitions to kept states, renumbered.
#[verifier::opaque]
pub open spec fn trim_trs<W>(trs: Seq<Tr<W>>, keep: Seq<bool>) -> Seq<Tr<W>>
    decreases trs.len(),
{
    if trs.len() == 0 {
        seq![]
    } else {
        let t = trs.last();
        let rest = trim_trs(trs.drop_last(), keep);
        if 0 <= t.nextstate < keep.len() && keep[t.nextstate as int] {
            rest.push(Tr { ilabel: t.ilabel, olabel: t.olabel, weight: t.weight, nextstate: keep_rank(keep, t.nextstate as int) as usize })
        } else {
            rest
        }
    }
}

pub proof fn lemma_keep_rank_mono(keep: Seq<bool>, a: int, b: int)
    requires
        0 <= a <= b <= keep.len(),
    ensures
        keep_rank(keep, a) <= keep_rank(keep, b),
        keep_rank(keep, b) - keep_rank(keep, a) <= b - a,
        a < b && keep[a] ==> keep_rank(keep, a) < keep_rank(keep, b),
    decreases b - a,
{
    reveal(keep_rank);
    if a < b {
        lemma_keep_rank_mono(keep, a, b - 1);
    }
}

proof fn lemma_keep_rank_step(keep: Seq<bool>, s: int)
    requires
        0 <= s < keep.len(),
    ensures
        keep_rank(keep, s + 1) == keep_rank(keep, s) + if keep[s] { 1int } else { 0int },
        keep_rank(keep, 0) == 0,
{
    reveal(keep_rank);
}

proof fn lemma_trim_trs_step<W>(trs: Seq<Tr<W>>, keep: Seq<bool>, k: int)
    requires
        0 <= k < trs.len(),
    ensures
        ({
            let t = trs[k];
            let rest = trim_trs(trs.subrange(0, k), keep);
            trim_trs(trs.subrange(0, k + 1), keep) == if 0 <= t.nextstate < keep.len() && keep[t.nextstate as int] {
                rest.push(Tr { ilabel: t.ilabel, olabel: t.olabel, weight: t.weight, nextstate: keep_rank(keep, t.nextstate as int) as usize })
            } else {
                rest
            }
        }),
        trim_trs(trs.subrange(0, 0), keep) == Seq::<Tr<W>>::empty(),
{
    reveal(trim_trs);
    assert(trs.subrange(0, k + 1).drop_last() =~= trs.subrange(0, k));
    assert(trs.subrange(0, k + 1).last() == trs[k]);
}

/// The transitions to kept states, renumbered with `new_id`.
fn trim_state_trs<W: Semiring>(trs_in: &Vec<Tr<W>>, keep: &Vec<bool>, new_id: &Vec<usize>) -> (trs: Vec<Tr<W>>)
    requires
        new_id@.len() == keep@.len(),
        forall|j: int| 0 <= j < keep@.len() ==> #[trigger] new_id@[j] == keep_rank(keep@, j),
    ensures
        trs@ == trim_trs(trs_in@, keep@),
        forall|m: int| 0 <= m < trs@.len() ==> #[trigger] trs@[m].nextstate < keep_rank(keep@, keep@.len() as int),
{
    let n = keep.len();
    let mut trs: Vec<Tr<W>> = Vec::new();
    let mut k: usize = 0;
    proof {
        reveal(trim_trs);
        assert(trs_in@.subrange(0, 0) =~= Seq::<Tr<W>>::empty());
    }
    while k < trs_in.len()
        invariant
            n == keep@.len(),
            new_id@.len() == n,
            forall|j: int| 0 <= j < n ==> #[trigger] new_id@[j] == keep_rank(keep@, j),
            k <= trs_in@.len(),
            trs@ == trim_trs(trs_in@.subrange(0, k as int), keep@),
            forall|m: int| 0 <= m < trs@.len() ==> #[trigger] trs@[m].nextstate < keep_rank(keep@, n as int),
        decreases trs_in@.len() - k,
    {
        let t = &trs_in[k];
        proof {
            lemma_trim_trs_step(trs_in@, keep@, k as int);
        }
        if t.nextstate < n && keep[t.nextstate] {
            proof {
                lemma_keep_rank_mono(keep@, t.nextstate as int, n as int);
            }
            trs.push(Tr { ilabel: t.ilabel, olabel: t.olabel, weight: t.weight.weight_clone(), nextstate: new_id[t.nextstate] });
        }
        k += 1;
    }
    proof {
        assert(trs_in@.subrange(0, k as int) =~= trs_in@);
    }
    trs
}

/// The kept states among the first `s` are in `states`, renumbered.
pub open spec fn kept_prefix<W>(states: Seq<FstState<W>>, old_states: Seq<FstState<W>>, keep: Seq<bool>, s: int) -> bool {
    &&& states.len() == keep_rank(keep, s)
    &&& forall|q: int|
        0 <= q < s && #[trigger] keep[q] ==> states[keep_rank(keep, q)].final_weight == old_states[q].final_weight
            && states[keep_rank(keep, q)].trs@ == trim_trs(old_states[q].trs@, keep)
    &&& forall|q: int, k: int|
        0 <= q < states.len() && 0 <= k < states[q].trs@.len() ==> #[trigger] states[q].trs@[k].nextstate < keep_rank(keep, keep.len() as int)
}

proof fn lemma_kept_prefix_push<W>(prev: Seq<FstState<W>>, states: Seq<FstState<W>>, old_states: Seq<FstState<W>>, keep: Seq<bool>, s: int)
    requires
        0 <= s < keep.len(),
        keep.len() == old_states.len(),
        keep[s],
        kept_prefix(prev, old_states, keep, s),
        states.len() == prev.len() + 1,
        forall|q: int| 0 <= q < prev.len() ==> states[q] == prev[q],
        states[prev.len() as int].final_weight == old_states[s].final_weight,
        states[prev.len() as int].trs@ == trim_trs(old_states[s].trs@, keep),
        forall|m: int| 0 <= m < states[prev.len() as int].trs@.len() ==> #[trigger] states[prev.len() as int].trs@[m].nextstate < keep_rank(keep, keep.len() as int),
    ensures
        kept_prefix(states, old_states, keep, s + 1),
{
    lemma_keep_rank_step(keep, s);
    assert forall|q: int, k: int|
        0 <= q < states.len() && 0 <= k < states[q].trs@.len() implies #[trigger] states[q].trs@[k].nextstate < keep_rank(keep, keep.len() as int) by {
        if q < prev.len() {
            assert(states[q] == prev[q]);
        }
    }
    assert forall|q: int|
        0 <= q < s + 1 && #[trigger] keep[q] implies states[keep_rank(keep, q)].final_weight == old_states[q].final_weight
            && states[keep_rank(keep, q)].trs@ == trim_trs(old_states[q].trs@, keep) by {
        if q < s {
            lemma_keep_rank_mono(keep, q, s);
            lemma_keep_rank_mono(keep, 0, q);
            lemma_keep_rank_step(keep, 0);
            assert(0 <= keep_rank(keep, q) < prev.len());
            assert(states[keep_rank(keep, q)] == prev[keep_rank(keep, q)]);
        }
    }
}

#[verifier::rlimit(30)]
fn push_kept_state<W: Semiring>(
    states: &mut Vec<FstState<W>>,
    old_states: &Vec<FstState<W>>,
    keep: &Vec<bool>,
    new_id: &Vec<usize>,
    s: usize,
)
    requires
        keep@.len() == old_states@.len(),
        s < keep@.len(),
        new_id@.len() == keep@.len(),
        forall|j: int| 0 <= j < keep@.len() ==> #[trigger] new_id@[j] == keep_rank(keep@, j),
        kept_prefix(old(states)@, old_states@, keep@, s as int),
    ensures
        kept_prefix(final(states)@, old_states@, keep@, s + 1),
{
    let n = keep.len();
    if keep[s] {
        let st = &old_states[s];
        let trs = trim_state_trs(&st.trs, keep, new_id);
        let fw = match &st.final_weight {
            Some(w) => Some(w.weight_clone()),
            None => None,
        };
        let ghost prev = states@;
        states.push(FstState { final_weight: fw, trs });
        proof {
            lemma_kept_prefix_push(prev, states@, old_states@, keep@, s as int);
        }
    } else {
        proof {
            lemma_keep_rank_step(keep@, s as int);
        }
    }
}

impl<W: Semiring> VectorFst<W> {
    /// The FST with only the states marked in `keep`, renumbered in order.
    pub open spec fn keep_states_spec(&self, keep: Seq<bool>, other: &VectorFst<W>) -> bool {
        &&& other.states@.len() == keep_rank(keep, self.states@.len() as int)
        &&& forall|s: int|
            0 <= s < self.states@.len() && #[trigger] keep[s] ==> other.states@[keep_rank(keep, s)].final_weight
                == self.states@[s].final_weight && other.states@[keep_rank(keep, s)].trs@ == trim_trs(self.states@[s].trs@, keep)
        &&& other.start_state == match self.start_state {
            Some(s) => if s < self.states@.len() && keep[s as int] { Some(keep_rank(keep, s as int) as usize) } else { None },
            None => None,
        }
    }

    /// Keeps the states marked in `keep` (one flag per state), renumbering them in order;
    /// transitions to removed states are dropped.
    pub fn keep_states(&mut self, keep: &Vec<bool>)
        requires
            keep@.len() == old(self).states@.len(),
        ensures
            old(self).keep_states_spec(keep@, final(self)),
            final(self).wf(),
    {
        let n = self.states.len();
        let mut new_id: Vec<usize> = Vec::new();
        let mut count: usize = 0;
        let mut i: usize = 0;
        proof {
            reveal(keep_rank);
        }
        while i < n
            invariant
                n == keep@.len(),
                i <= n,
                new_id@.len() == i,
                count == keep_rank(keep@, i as int),
                count <= i,
                forall|j: int| 0 <= j < i ==> #[trigger] new_id@[j] == keep_rank(keep@, j),
            decreases n - i,
        {
            new_id.push(count);
            proof {
                lemma_keep_rank_step(keep@, i as int);
            }
            if keep[i] {
                count += 1;
            }
            i += 1;
        }
        let ghost old_self = *self;
        let mut old_states: Vec<FstState<W>> = Vec::new();
        std::mem::swap(&mut old_states, &mut self.states);
        let mut states: Vec<FstState<W>> = Vec::new();
        let mut s: usize = 0;
        let mut old_states = old_states;
        while s < n
            invariant
                n == keep@.len(),
                n == old_states@.len(),
                old_states@ == old_self.states@,
                s <= n,
                new_id@.len() == n,
                forall|j: int| 0 <= j < n ==> #[trigger] new_id@[j] == keep_rank(keep@, j),
                kept_prefix(states@, old_states@, keep@, s as int),
            decreases n - s,
        {
            push_kept_state(&mut states, &old_states, keep, &new_id, s);
            s += 1;
        }
        let start = match self.start_state {
            Some(st) => if st < n && keep[st] { Some(new_id[st]) } else { None },
            None => None,
        };
        proof {
            match self.start_state {
                Some(st) => if st < n && keep@[st as int] {
                    lemma_keep_rank_mono(keep@, st as int, n as int);
                },
                None => {},
            }
        }
        self.states = states;
        self.start_state = start;
    }
}

} // verus!
