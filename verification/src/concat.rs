use vstd::prelude::*;

use std::sync::Arc;

use crate::fst::{FstError, FstState, Tr, VectorFst};
use crate::semirings::Semiring;
use crate::{StateId, EPS_LABEL};

verus! {

/// The transition moved by `n` states.
pub open spec fn shift_tr<W>(tr: Tr<W>, n: nat) -> Tr<W> {
    Tr { ilabel: tr.ilabel, olabel: tr.olabel, weight: tr.weight, nextstate: (tr.nextstate + n) as StateId }
}

/// The transitions moved by `n` states.
pub open spec fn shift_trs<W>(trs: Seq<Tr<W>>, n: nat) -> Seq<Tr<W>> {
    trs.map_values(|t: Tr<W>| shift_tr(t, n))
}

/// What a final state of the first FST gains: an epsilon transition, with
/// its final weight, to the start of the second FST (moved by `n`).
pub open spec fn link_trs<W>(final_weight: Option<W>, start2: Option<StateId>, n: nat) -> Seq<Tr<W>> {
    match (final_weight, start2) {
        (Some(w), Some(s2)) => seq![Tr { ilabel: EPS_LABEL, olabel: EPS_LABEL, weight: w, nextstate: (s2 + n) as StateId }],
        _ => Seq::empty(),
    }
}

/// The states of the concatenation of two FSTs: those of the first, no
/// longer final and linked to the start of the second, then those of the
/// second, moved past the first.
pub open spec fn concat_states<W>(f1: VectorFst<W>, f2: VectorFst<W>) -> Seq<FstState<W>> {
    let n1 = f1.states@.len();
    Seq::new(
        n1 + f2.states@.len(),
        |s: int|
            if s < n1 {
                FstState { final_weight: None, trs: f1.states@[s].trs }
            } else {
                f2.states@[s - n1]
            },
    )
}

/// The concatenation has the states of `concat_states`, with these transitions.
pub open spec fn is_concat_of<W>(r: VectorFst<W>, f1: VectorFst<W>, f2: VectorFst<W>) -> bool {
    let n1 = f1.states@.len();
    &&& r.start_state == f1.start_state
    &&& r.states@.len() == n1 + f2.states@.len()
    &&& forall|s: int|
        0 <= s < n1 ==> (#[trigger] r.states@[s]).final_weight is None && r.states@[s].trs@ == f1.states@[s].trs@ + link_trs(
            f1.states@[s].final_weight,
            f2.start_state,
            n1,
        )
    &&& forall|s: int|
        n1 <= s < r.states@.len() ==> (#[trigger] r.states@[s]).final_weight == f2.states@[s - n1].final_weight
            && r.states@[s].trs@ == shift_trs(f2.states@[s - n1].trs@, n1)
}

/// Copies the transitions, each moved by `n` states.
fn shifted_trs<W: Semiring>(trs: &Vec<Tr<W>>, n: usize) -> (r: Vec<Tr<W>>)
    requires
        forall|k: int| 0 <= k < trs@.len() ==> trs@[k].nextstate + n <= usize::MAX,
    ensures
        r@ == shift_trs(trs@, n as nat),
{
    let mut r: Vec<Tr<W>> = Vec::new();
    let mut k: usize = 0;
    while k < trs.len()
        invariant
            k <= trs@.len(),
            forall|j: int| 0 <= j < trs@.len() ==> trs@[j].nextstate + n <= usize::MAX,
            r@ == shift_trs(trs@.take(k as int), n as nat),
        decreases trs@.len() - k,
    {
        let mut t = trs[k].tr_clone();
        t.nextstate = t.nextstate + n;
        r.push(t);
        proof {
            assert(shift_trs(trs@.take(k + 1), n as nat) =~= shift_trs(trs@.take(k as int), n as nat).push(shift_tr(trs@[k as int], n as nat)));
        }
        k += 1;
    }
    proof {
        assert(trs@.take(trs@.len() as int) =~= trs@);
    }
    r
}

/// Concatenates `fst_2` after `fst_1`, in place: a path of the result reads
/// a path of `fst_1` then one of `fst_2`, with the product of their weights.
/// An FST with no start state stays as it is.
pub fn concat<W: Semiring>(fst_1: &mut VectorFst<W>, fst_2: &VectorFst<W>) -> (r: Result<(), FstError>)
    requires
        fst_2.wf(),
        old(fst_1).states@.len() + fst_2.states@.len() <= usize::MAX,
    ensures
        r is Ok,
        old(fst_1).start_state is None ==> *final(fst_1) == *old(fst_1),
        old(fst_1).start_state is Some ==> is_concat_of(*final(fst_1), *old(fst_1), *fst_2),
        old(fst_1).wf() ==> final(fst_1).wf(),
{
    if fst_1.start().is_none() {
        return Ok(());
    }
    let ghost f1 = *fst_1;
    let numstates1 = fst_1.num_states();
    let n2 = fst_2.num_states();
    let mut s2: usize = 0;
    while s2 < n2
        invariant
            fst_2.wf(),
            n2 == fst_2.states@.len(),
            numstates1 == f1.states@.len(),
            numstates1 + n2 <= usize::MAX,
            s2 <= n2,
            fst_1.start_state == f1.start_state,
            fst_1.states@.len() == numstates1 + s2,
            forall|s: int| 0 <= s < numstates1 ==> #[trigger] fst_1.states@[s] == f1.states@[s],
            forall|s: int|
                numstates1 <= s < numstates1 + s2 ==> (#[trigger] fst_1.states@[s]).final_weight == fst_2.states@[s - numstates1].final_weight
                    && fst_1.states@[s].trs@ == shift_trs(fst_2.states@[s - numstates1].trs@, numstates1 as nat),
        decreases n2 - s2,
    {
        let fw = match fst_2.final_weight(s2) {
            Ok(w) => w,
            Err(_) => None,
        };
        proof {
            assert forall|k: int| 0 <= k < fst_2.states@[s2 as int].trs@.len() implies fst_2.states@[s2 as int].trs@[k].nextstate + numstates1
                <= usize::MAX by {
                assert(fst_2.states@[s2 as int].trs@[k].nextstate < n2);
            }
        }
        let trs = shifted_trs(&fst_2.states[s2].trs, numstates1);
        fst_1.states.push(FstState { final_weight: fw, trs });
        s2 += 1;
    }
    proof {
        if f1.wf() {
            assert forall|s: int, k: int|
                0 <= s < fst_1.states@.len() && 0 <= k < fst_1.states@[s].trs@.len() implies #[trigger] fst_1.states@[s].trs@[k].nextstate
                < fst_1.states@.len() by {
                if s >= numstates1 {
                    let t = fst_2.states@[s - numstates1].trs@[k];
                    assert(t.nextstate < n2);
                } else {
                    assert(fst_1.states@[s] == f1.states@[s]);
                }
            }
        }
    }
    let start2 = fst_2.start();
    let ghost mid = *fst_1;
    let mut s1: usize = 0;
    while s1 < numstates1
        invariant
            fst_2.wf(),
            numstates1 == f1.states@.len(),
            numstates1 + fst_2.states@.len() <= usize::MAX,
            start2 == fst_2.start_state,
            s1 <= numstates1,
            fst_1.start_state == f1.start_state,
            fst_1.states@.len() == mid.states@.len(),
            mid.states@.len() == numstates1 + fst_2.states@.len(),
            forall|s: int| 0 <= s < numstates1 ==> #[trigger] mid.states@[s] == f1.states@[s],
            forall|s: int| numstates1 <= s < fst_1.states@.len() ==> #[trigger] fst_1.states@[s] == mid.states@[s],
            forall|s: int| s1 <= s < numstates1 ==> #[trigger] fst_1.states@[s] == f1.states@[s],
            forall|s: int|
                0 <= s < s1 ==> (#[trigger] fst_1.states@[s]).final_weight is None && fst_1.states@[s].trs@ == f1.states@[s].trs@ + link_trs(
                    f1.states@[s].final_weight,
                    fst_2.start_state,
                    numstates1 as nat,
                ),
            f1.wf() ==> mid.wf(),
            f1.wf() ==> fst_1.wf(),
        decreases numstates1 - s1,
    {
        let ghost before = *fst_1;
        match fst_1.final_weight(s1) {
            Ok(Some(weight)) => {
                match start2 {
                    Some(st2) => {
                        let _ = fst_1.add_tr(s1, Tr::new(EPS_LABEL, EPS_LABEL, weight, st2 + numstates1));
                    },
                    None => {},
                }
                fst_1.delete_final_weight(s1);
            },
            _ => {},
        }
        proof {
            let fw = f1.states@[s1 as int].final_weight;
            assert(fst_1.states@[s1 as int].trs@ =~= f1.states@[s1 as int].trs@ + link_trs(fw, fst_2.start_state, numstates1 as nat));
            assert forall|s: int| 0 <= s < fst_1.states@.len() && s != s1 implies #[trigger] fst_1.states@[s] == before.states@[s] by {}
        }
        s1 += 1;
    }
    Ok(())
}

/// The concatenation of two FSTs, computed a state at a time: the states of
/// the first come first, then those of the second.
pub struct ConcatFst<W> {
    pub fst1: Arc<VectorFst<W>>,
    pub fst2: Arc<VectorFst<W>>,
}

impl<W: Semiring> ConcatFst<W> {
    /// Both FSTs hold their invariant, and their states can be numbered together.
    pub open spec fn wf(&self) -> bool {
        &&& self.fst1.wf()
        &&& self.fst2.wf()
        &&& self.fst1.states@.len() + self.fst2.states@.len() <= usize::MAX
    }

    /// The concatenation of `fst1` and `fst2`.
    pub fn new(fst1: Arc<VectorFst<W>>, fst2: Arc<VectorFst<W>>) -> (r: Result<Self, FstError>)
        ensures
            r matches Ok(c) ==> c.wf() && *c.fst1 == *fst1 && *c.fst2 == *fst2,
            r is Err <==> !(fst1.wf() && fst2.wf() && fst1.states@.len() + fst2.states@.len() <= usize::MAX),
    {
        if !fst1.check_wf() || !fst2.check_wf() || fst1.num_states() > usize::MAX - fst2.num_states() {
            return Err(FstError::StateOutOfRange);
        }
        Ok(ConcatFst { fst1, fst2 })
    }

    /// The start state: that of the first FST, when it has one and the
    /// second has states to read.
    pub fn start(&self) -> (r: Option<StateId>)
        ensures
            r == self.fst1.start_state,
    {
        self.fst1.start()
    }

    /// The final weight of a state: none for a state of the first FST.
    pub fn final_weight(&self, s: StateId) -> (r: Result<Option<W>, FstError>)
        requires
            self.wf(),
        ensures
            s < concat_states(*self.fst1, *self.fst2).len() ==> r == Ok::<Option<W>, FstError>(
                concat_states(*self.fst1, *self.fst2)[s as int].final_weight,
            ),
            s >= concat_states(*self.fst1, *self.fst2).len() ==> r == Err::<Option<W>, FstError>(FstError::StateOutOfRange),
    {
        let n1 = self.fst1.num_states();
        if s < n1 {
            Ok(None)
        } else {
            self.fst2.final_weight(s - n1)
        }
    }

    /// The transitions leaving a state.
    pub fn get_trs(&self, s: StateId) -> (r: Result<Vec<Tr<W>>, FstError>)
        requires
            self.wf(),
        ensures
            s < concat_states(*self.fst1, *self.fst2).len() ==> (r matches Ok(v) && v@ == (if s < self.fst1.states@.len() {
                self.fst1.states@[s as int].trs@ + link_trs(self.fst1.states@[s as int].final_weight, self.fst2.start_state, self.fst1.states@.len())
            } else {
                shift_trs(self.fst2.states@[s - self.fst1.states@.len()].trs@, self.fst1.states@.len())
            })),
            s >= concat_states(*self.fst1, *self.fst2).len() ==> r == Err::<Vec<Tr<W>>, FstError>(FstError::StateOutOfRange),
    {
        let n1 = self.fst1.num_states();
        if s < n1 {
            let mut trs = crate::fst::clone_trs(&self.fst1.states[s].trs);
            let fw = match self.fst1.final_weight(s) {
                Ok(w) => w,
                Err(_) => None,
            };
            match (fw, self.fst2.start()) {
                (Some(w), Some(s2)) => {
                    proof {
                        assert(s2 < self.fst2.states@.len());
                    }
                    trs.push(Tr::new(EPS_LABEL, EPS_LABEL, w, s2 + n1));
                },
                _ => {},
            }
            proof {
                let fw = self.fst1.states@[s as int].final_weight;
                assert(trs@ =~= self.fst1.states@[s as int].trs@ + link_trs(fw, self.fst2.start_state, n1 as nat));
            }
            Ok(trs)
        } else if s - n1 < self.fst2.num_states() {
            let s2 = s - n1;
            proof {
                assert forall|k: int| 0 <= k < self.fst2.states@[s2 as int].trs@.len() implies self.fst2.states@[s2 as int].trs@[k].nextstate + n1
                    <= usize::MAX by {
                    assert(self.fst2.states@[s2 as int].trs@[k].nextstate < self.fst2.states@.len());
                }
            }
            Ok(shifted_trs(&self.fst2.states[s2].trs, n1))
        } else {
            Err(FstError::StateOutOfRange)
        }
    }

    /// The number of transitions leaving a state.
    pub fn num_trs(&self, s: StateId) -> (r: Result<usize, FstError>)
        requires
            self.wf(),
        ensures
            s < concat_states(*self.fst1, *self.fst2).len() ==> (r matches Ok(n) && n == (if s < self.fst1.states@.len() {
                (self.fst1.states@[s as int].trs@.len() + link_trs(
                    self.fst1.states@[s as int].final_weight,
                    self.fst2.start_state,
                    self.fst1.states@.len(),
                ).len()) as int
            } else {
                self.fst2.states@[s - self.fst1.states@.len()].trs@.len() as int
            })),
            s >= concat_states(*self.fst1, *self.fst2).len() ==> r == Err::<usize, FstError>(FstError::StateOutOfRange),
    {
        let trs = self.get_trs(s)?;
        Ok(trs.len())
    }

    /// Turns the delayed FST into a static one.
    pub fn compute(&self) -> (r: Result<VectorFst<W>, FstError>)
        requires
            self.wf(),
        ensures
            r matches Ok(f) ==> f.wf() && (self.fst1.start_state is Some ==> is_concat_of(f, *self.fst1, *self.fst2)),
            r is Ok,
            self.fst1.start_state is None ==> (r matches Ok(f) && f.start_state is None && f.states@.len() == self.fst1.states@.len()
                && forall|s: int| 0 <= s < f.states@.len() ==> (#[trigger] f.states@[s]).final_weight == self.fst1.states@[s].final_weight
                    && f.states@[s].trs@ == self.fst1.states@[s].trs@),
    {
        let mut fst = self.fst1.fst_clone();
        let ghost c = fst;
        concat(&mut fst, &self.fst2)?;
        proof {
            if self.fst1.start_state is Some {
                let f1 = *self.fst1;
                let n1 = f1.states@.len();
                assert forall|s: int| 0 <= s < n1 implies (#[trigger] fst.states@[s]).final_weight is None && fst.states@[s].trs@
                    == f1.states@[s].trs@ + link_trs(f1.states@[s].final_weight, self.fst2.start_state, n1) by {
                    assert(c.states@[s].final_weight == f1.states@[s].final_weight);
                }
            }
        }
        Ok(fst)
    }
}

} // verus!
