use vstd::prelude::*;

use std::sync::Arc;

use crate::fst::{count_eps, FstError, Tr, VectorFst};
use crate::label_reachable::{relabel_tr, LabelReachableData};
use crate::lookahead_matchers::LookaheadMatcher;
use crate::matchers::MatchType;
use crate::semirings::Semiring;
use crate::tr_sort::{sort_trs, sort_trs_by_label};
use crate::{Label, StateId, EPS_LABEL};

verus! {

/// An FST with an object of type `T` added to it.
#[derive(Debug)]
pub struct FstAddOn<W, T> {
    pub fst: VectorFst<W>,
    pub add_on: T,
    pub fst_type: String,
}

impl<W: Semiring, T> FstAddOn<W, T> {
    pub fn new(fst: VectorFst<W>, add_on: T, fst_type: String) -> (r: Self)
        ensures
            r.fst == fst,
            r.add_on == add_on,
            r.fst_type@ == fst_type@,
    {
        FstAddOn { fst, add_on, fst_type }
    }

    pub fn fst(&self) -> (r: &VectorFst<W>)
        ensures
            *r == self.fst,
    {
        &self.fst
    }

    pub fn fst_mut(&mut self) -> (r: &mut VectorFst<W>)
        ensures
            *r == old(self).fst,
            final(self).fst == *final(r),
            final(self).add_on == old(self).add_on,
            final(self).fst_type == old(self).fst_type,
    {
        &mut self.fst
    }

    pub fn add_on(&self) -> (r: &T)
        ensures
            *r == self.add_on,
    {
        &self.add_on
    }

    pub fn start(&self) -> (r: Option<StateId>)
        ensures
            r == self.fst.start_state,
    {
        self.fst.start()
    }

    pub fn final_weight(&self, state_id: StateId) -> (r: Result<Option<W>, FstError>)
        ensures
            state_id < self.fst.states@.len() ==> r == Ok::<Option<W>, FstError>(self.fst.states@[state_id as int].final_weight),
            state_id >= self.fst.states@.len() ==> r == Err::<Option<W>, FstError>(FstError::StateOutOfRange),
    {
        self.fst.final_weight(state_id)
    }

    pub fn num_trs(&self, s: StateId) -> (r: Result<usize, FstError>)
        ensures
            s < self.fst.states@.len() ==> r == Ok::<usize, FstError>(self.fst.states@[s as int].trs@.len() as usize),
            s >= self.fst.states@.len() ==> r == Err::<usize, FstError>(FstError::StateOutOfRange),
    {
        self.fst.num_trs(s)
    }

    pub fn get_trs(&self, state_id: StateId) -> (r: Result<&Vec<Tr<W>>, FstError>)
        ensures
            state_id < self.fst.states@.len() ==> (r matches Ok(v) && v@ == self.fst.states@[state_id as int].trs@),
            state_id >= self.fst.states@.len() ==> r == Err::<&Vec<Tr<W>>, FstError>(FstError::StateOutOfRange),
    {
        self.fst.get_trs(state_id)
    }

    pub fn num_input_epsilons(&self, state: StateId) -> (r: Result<usize, FstError>)
        ensures
            state < self.fst.states@.len() ==> (r matches Ok(n) && n == count_eps(self.fst.states@[state as int].trs@, true)),
            state >= self.fst.states@.len() ==> r is Err,
    {
        self.fst.num_input_epsilons(state)
    }

    pub fn num_output_epsilons(&self, state: StateId) -> (r: Result<usize, FstError>)
        ensures
            state < self.fst.states@.len() ==> (r matches Ok(n) && n == count_eps(self.fst.states@[state as int].trs@, false)),
            state >= self.fst.states@.len() ==> r is Err,
    {
        self.fst.num_output_epsilons(state)
    }

    pub fn num_states(&self) -> (n: usize)
        ensures
            n == self.fst.states@.len(),
    {
        self.fst.num_states()
    }
}

} // verus!
