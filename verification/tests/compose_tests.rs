use std::sync::Arc;

use rustfst::compose::{ComposeFstOp, ComposeFstOpOptions};
use rustfst::compose_filters::SequenceComposeFilterBuilder;
use rustfst::compose_static::compose;
use rustfst::concat::ConcatFst;
use rustfst::filter_states::IntegerFilterState;
use rustfst::fst::{FstError, Tr, VectorFst};
use rustfst::matchers::{MatchType, Matcher, MatcherRewriteMode, SigmaMatcher, SortedMatcher};
use rustfst::semirings::{Semiring, TropicalWeight};

type W = TropicalWeight;

// Labels of the symbol table the grammar tests use.
const SIGMA: usize = 1;
const PLAY: usize = 2;
const BOWIE: usize = 3;
const QUEEN: usize = 4;
const PLEASE: usize = 5;
const RADIOHEAD: usize = 6;

fn acceptor(labels: &[usize]) -> VectorFst<W> {
    let mut fst = VectorFst::new();
    let mut prev = fst.add_state();
    fst.set_start(prev).unwrap();
    for &l in labels {
        let next = fst.add_state();
        fst.add_tr(prev, Tr::new(l, l, W::one(), next)).unwrap();
        prev = next;
    }
    fst.set_final(prev, W::one()).unwrap();
    fst
}

fn query_fst(artist: usize) -> VectorFst<W> {
    acceptor(&[PLAY, artist, PLEASE])
}

fn grammar_fst_loop() -> VectorFst<W> {
    let mut fst = VectorFst::new();
    for _ in 0..4 {
        fst.add_state();
    }
    fst.add_tr(0, Tr::new(PLAY, PLAY, W::one(), 1)).unwrap();
    fst.add_tr(1, Tr::new(BOWIE, BOWIE, W::one(), 2)).unwrap();
    fst.add_tr(1, Tr::new(QUEEN, QUEEN, W::one(), 2)).unwrap();
    fst.add_tr(1, Tr::new(RADIOHEAD, RADIOHEAD, W::one(), 2)).unwrap();
    fst.add_tr(2, Tr::new(PLEASE, PLEASE, W::one(), 3)).unwrap();
    fst.set_start(0).unwrap();
    fst.set_final(3, W::one()).unwrap();
    fst
}

fn grammar_fst_sigma() -> VectorFst<W> {
    let mut fst = VectorFst::new();
    for _ in 0..4 {
        fst.add_state();
    }
    fst.add_tr(0, Tr::new(PLAY, PLAY, W::one(), 1)).unwrap();
    fst.add_tr(1, Tr::new(SIGMA, SIGMA, W::one(), 2)).unwrap();
    fst.add_tr(2, Tr::new(PLEASE, PLEASE, W::one(), 3)).unwrap();
    fst.set_start(0).unwrap();
    fst.set_final(3, W::one()).unwrap();
    fst
}

fn xp_loop(q_fst: VectorFst<W>) -> VectorFst<W> {
    let mut g_fst = grammar_fst_loop();
    g_fst.tr_sort(true);
    let opts = ComposeFstOpOptions::new(None, None, None, None);
    let mut op = ComposeFstOp::<
        W,
        SortedMatcher<W>,
        SortedMatcher<W>,
        SequenceComposeFilterBuilder<SortedMatcher<W>, SortedMatcher<W>>,
        IntegerFilterState,
    >::new(Arc::new(q_fst), Arc::new(g_fst), opts)
    .unwrap();
    op.compute().unwrap()
}

fn xp_sigma(q_fst: VectorFst<W>, sigma_allowed_matches: Option<Vec<usize>>) -> VectorFst<W> {
    let mut g_fst = grammar_fst_sigma();
    g_fst.tr_sort(true);
    let g_fst = Arc::new(g_fst);
    let inner = SortedMatcher::new(Arc::clone(&g_fst), MatchType::MatchInput).unwrap();
    let sigma = SigmaMatcher::new_sigma(
        MatchType::MatchInput,
        SIGMA,
        MatcherRewriteMode::MatcherRewriteAuto,
        Arc::new(inner),
        sigma_allowed_matches,
    )
    .unwrap();
    let opts = ComposeFstOpOptions::new(None, Some(sigma), None, None);
    let mut op = ComposeFstOp::<
        W,
        SortedMatcher<W>,
        SigmaMatcher<W, SortedMatcher<W>>,
        SequenceComposeFilterBuilder<SortedMatcher<W>, SigmaMatcher<W, SortedMatcher<W>>>,
        IntegerFilterState,
    >::new(Arc::new(q_fst), g_fst, opts)
    .unwrap();
    op.compute().unwrap()
}

#[test]
fn test_sigma_matcher() {
    let mut q_fst = query_fst(BOWIE);
    q_fst.tr_sort(false);

    let composed_fst_loop = xp_loop(q_fst.fst_clone());
    let composed_fst_sigma = xp_sigma(q_fst, None);

    assert_eq!(composed_fst_loop, composed_fst_sigma);
}

#[test]
fn test_sigma_matcher_with_limited_allowed_values() {
    let allowed_sigma_match = Some(vec![RADIOHEAD, QUEEN]);

    // Radiohead should work
    {
        let mut q_fst = query_fst(RADIOHEAD);
        q_fst.tr_sort(false);
        let composed_fst_loop = xp_loop(q_fst.fst_clone());
        let composed_fst_sigma = xp_sigma(q_fst, allowed_sigma_match.clone());
        assert_eq!(composed_fst_loop, composed_fst_sigma, "Radiohead should match");
    }

    // Queen should work
    {
        let mut q_fst = query_fst(QUEEN);
        q_fst.tr_sort(false);
        let composed_fst_loop = xp_loop(q_fst.fst_clone());
        let composed_fst_sigma = xp_sigma(q_fst, allowed_sigma_match.clone());
        assert_eq!(composed_fst_loop, composed_fst_sigma, "Queen should match");
    }

    // Bowie should not work
    {
        let mut q_fst = query_fst(BOWIE);
        q_fst.tr_sort(false);
        let composed_fst_loop = xp_loop(q_fst.fst_clone());
        let composed_fst_sigma = xp_sigma(q_fst, allowed_sigma_match.clone());
        assert_ne!(composed_fst_loop, composed_fst_sigma, "Bowie should NOT match");
    }
}

#[test]
fn test_sigma_matcher_rejects_epsilon_and_both() {
    let g_fst = Arc::new(grammar_fst_sigma());
    let inner = SortedMatcher::new(Arc::clone(&g_fst), MatchType::MatchInput).unwrap();
    let r = SigmaMatcher::new_sigma(MatchType::MatchInput, 0, MatcherRewriteMode::MatcherRewriteAuto, Arc::new(inner), None);
    assert!(matches!(r, Err(FstError::BadSigmaLabel)));
    let inner = SortedMatcher::new(Arc::clone(&g_fst), MatchType::MatchInput).unwrap();
    let r = SigmaMatcher::new_sigma(MatchType::MatchBoth, SIGMA, MatcherRewriteMode::MatcherRewriteAuto, Arc::new(inner), None);
    assert!(matches!(r, Err(FstError::UnsupportedMatchType)));
}

#[test]
fn test_compose_transducers() {
    // A maps 1 to 2 with cost 3; B maps 2 to 7 with cost 4.
    let mut a = VectorFst::<W>::new();
    let a0 = a.add_state();
    let a1 = a.add_state();
    a.set_start(a0).unwrap();
    a.set_final(a1, W::one()).unwrap();
    a.add_tr(a0, Tr::new(1, 2, TropicalWeight::new(3), a1)).unwrap();

    let mut b = VectorFst::<W>::new();
    let b0 = b.add_state();
    let b1 = b.add_state();
    b.set_start(b0).unwrap();
    b.set_final(b1, TropicalWeight::new(1)).unwrap();
    b.add_tr(b0, Tr::new(2, 7, TropicalWeight::new(4), b1)).unwrap();

    let c = compose(Arc::new(a), Arc::new(b)).unwrap();

    let mut expected = VectorFst::<W>::new();
    let c0 = expected.add_state();
    let c1 = expected.add_state();
    expected.set_start(c0).unwrap();
    expected.set_final(c1, TropicalWeight::new(1)).unwrap();
    expected.add_tr(c0, Tr::new(1, 7, TropicalWeight::new(7), c1)).unwrap();
    assert_eq!(c, expected);
}

#[test]
fn test_compose_no_common_label() {
    let a = acceptor(&[1]);
    let b = acceptor(&[2]);
    let c = compose(Arc::new(a), Arc::new(b)).unwrap();
    // No successful path: the default composition is trimmed to nothing.
    assert_eq!(c.num_states(), 0);
    assert_eq!(c.start(), None);
}

#[test]
fn test_concat_two_transducers() {
    let mut a = VectorFst::<W>::new();
    let a0 = a.add_state();
    let a1 = a.add_state();
    a.set_start(a0).unwrap();
    a.set_final(a1, TropicalWeight::new(5)).unwrap();
    a.add_tr(a0, Tr::new(2, 3, W::one(), a1)).unwrap();

    let mut b = VectorFst::<W>::new();
    let b0 = b.add_state();
    let b1 = b.add_state();
    b.set_start(b0).unwrap();
    b.set_final(b1, W::one()).unwrap();
    b.add_tr(b0, Tr::new(6, 5, W::one(), b1)).unwrap();

    let lazy = ConcatFst::new(Arc::new(a.fst_clone()), Arc::new(b.fst_clone())).unwrap();
    rustfst::concat::concat(&mut a, &b).unwrap();

    let mut expected = VectorFst::<W>::new();
    for _ in 0..4 {
        expected.add_state();
    }
    expected.set_start(0).unwrap();
    expected.add_tr(0, Tr::new(2, 3, W::one(), 1)).unwrap();
    expected.add_tr(1, Tr::new(0, 0, TropicalWeight::new(5), 2)).unwrap();
    expected.add_tr(2, Tr::new(6, 5, W::one(), 3)).unwrap();
    expected.set_final(3, W::one()).unwrap();
    assert_eq!(a, expected);

    assert_eq!(lazy.compute().unwrap(), expected);
    assert_eq!(lazy.start(), Some(0));
    assert_eq!(lazy.final_weight(1).unwrap(), None);
    assert_eq!(lazy.final_weight(3).unwrap(), Some(W::one()));
    assert_eq!(lazy.num_trs(1).unwrap(), 1);
    assert_eq!(lazy.get_trs(2).unwrap(), vec![Tr::new(6, 5, W::one(), 3)]);
    assert!(matches!(lazy.get_trs(4), Err(FstError::StateOutOfRange)));
}

#[test]
fn test_concat_without_start_is_unchanged() {
    let mut a = VectorFst::<W>::new();
    a.add_state();
    let b = acceptor(&[1]);
    rustfst::concat::concat(&mut a, &b).unwrap();
    assert_eq!(a.num_states(), 1);
    assert_eq!(a.start(), None);
}

#[test]
fn test_tr_sort_of_sorted_is_unchanged() {
    let mut f = grammar_fst_loop();
    f.tr_sort(true);
    let sorted = f.fst_clone();
    f.tr_sort(true);
    assert_eq!(f, sorted);
    // Sorting on outputs keeps equal labels in their order.
    let mut g = VectorFst::<W>::new();
    g.add_state();
    g.add_state();
    g.add_tr(0, Tr::new(5, 2, W::one(), 1)).unwrap();
    g.add_tr(0, Tr::new(1, 2, W::one(), 0)).unwrap();
    g.add_tr(0, Tr::new(3, 1, W::one(), 1)).unwrap();
    g.tr_sort(false);
    assert_eq!(
        *g.get_trs(0).unwrap(),
        vec![Tr::new(3, 1, W::one(), 1), Tr::new(5, 2, W::one(), 1), Tr::new(1, 2, W::one(), 0)]
    );
}
