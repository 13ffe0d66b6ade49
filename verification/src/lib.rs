use vstd::prelude::*;

pub mod filter_states;
pub mod add_on;
pub mod compose;
pub mod compose_filters;
pub mod compose_static;
pub mod concat;
pub mod condense;
pub mod connect;
pub mod determinize;
pub mod fst;
pub mod interval_set;
pub mod label_reachable;
pub mod lookahead_filters;
pub mod lookahead_matchers;
pub mod lookahead_selector;
pub mod matcher_fst;
pub mod matchers;
pub mod multi_eps_matcher;
pub mod push_labels_filter;
pub mod semirings;
pub mod shared;
pub mod tr_sort;
pub mod state_reachable;
pub mod tarjan;

verus! {

/// Label of a transition.
pub type Label = usize;

/// Identifier of a state.
pub type StateId = usize;

/// The epsilon label.
pub const EPS_LABEL: usize = 0;

/// A label that matches no transition but stands for any non-consuming move.
pub const NO_LABEL: usize = usize::MAX;

/// A state identifier that designates no state.
pub const NO_STATE_ID: usize = usize::MAX;

} // verus!
