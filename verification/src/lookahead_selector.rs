use vstd::prelude::*;

use crate::matchers::MatchType;

verus! {

#[derive(Clone, Debug)]
pub struct SMatchInput {}

#[derive(Clone, Debug)]
pub struct SMatchOutput {}

#[derive(Clone, Debug)]
pub struct SMatchBoth {}

#[derive(Clone, Debug)]
pub struct SMatchNone {}

#[derive(Clone, Debug)]
pub struct SMatchUnknown {}

/// A type that stands for a match type.
pub trait MatchTypeTrait {
    spec fn match_type_spec() -> MatchType;

    fn match_type() -> (r: MatchType)
        ensures
            r == Self::match_type_spec(),
    ;
}

impl MatchTypeTrait for SMatchInput {
    open spec fn match_type_spec() -> MatchType {
        MatchType::MatchInput
    }

    fn match_type() -> (r: MatchType) {
        MatchType::MatchInput
    }
}

impl MatchTypeTrait for SMatchOutput {
    open spec fn match_type_spec() -> MatchType {
        MatchType::MatchOutput
    }

    fn match_type() -> (r: MatchType) {
        MatchType::MatchOutput
    }
}

impl MatchTypeTrait for SMatchBoth {
    open spec fn match_type_spec() -> MatchType {
        MatchType::MatchBoth
    }

    fn match_type() -> (r: MatchType) {
        MatchType::MatchBoth
    }
}

impl MatchTypeTrait for SMatchNone {
    open spec fn match_type_spec() -> MatchType {
        MatchType::MatchNone
    }

    fn match_type() -> (r: MatchType) {
        MatchType::MatchNone
    }
}

impl MatchTypeTrait for SMatchUnknown {
    open spec fn match_type_spec() -> MatchType {
        MatchType::MatchUnknown
    }

    fn match_type() -> (r: MatchType) {
        MatchType::MatchUnknown
    }
}

/// Which FST is walked and which matcher looks up its labels.
#[derive(Clone, Debug, Copy, PartialEq, Eq, Structural)]
pub enum Selector {
    Fst1Matcher2,
    Fst2Matcher1,
}

pub open spec fn selector_spec(match_type: MatchType, lookahead_type: MatchType) -> Selector {
    match match_type {
        MatchType::MatchInput => Selector::Fst1Matcher2,
        MatchType::MatchOutput => Selector::Fst2Matcher1,
        _ => if lookahead_type == MatchType::MatchOutput {
            Selector::Fst2Matcher1
        } else {
            Selector::Fst1Matcher2
        },
    }
}

/// The selector for a filter's match type and look-ahead type.
pub fn selector(match_type: MatchType, lookahead_type: MatchType) -> (r: Selector)
    ensures
        r == selector_spec(match_type, lookahead_type),
{
    match match_type {
        MatchType::MatchInput => Selector::Fst1Matcher2,
        MatchType::MatchOutput => Selector::Fst2Matcher1,
        _ => {
            if lookahead_type == MatchType::MatchOutput {
                Selector::Fst2Matcher1
            } else {
                Selector::Fst1Matcher2
            }
        },
    }
}

} // verus!
