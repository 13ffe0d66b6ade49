use std::collections::BTreeSet;
use std::sync::Arc;

use rustfst::compose::{ComposeFstOp, ComposeFstOpOptions};
use rustfst::compose_filters::SequenceComposeFilterBuilder;
use rustfst::compose_static::compose;
use rustfst::filter_states::{IntegerFilterState, PairFilterState};
use rustfst::fst::{Tr, VectorFst};
use rustfst::lookahead_filters::LookAheadComposeFilterBuilder;
use rustfst::lookahead_matchers::{ILabelLookAheadFlags, OLabelLookAheadFlags, TrLookAheadMatcher};
use rustfst::lookahead_selector::SMatchOutput;
use rustfst::matchers::SortedMatcher;
use rustfst::multi_eps_matcher::MultiEpsMatcher;
use rustfst::push_labels_filter::PushLabelsComposeFilterBuilder;
use rustfst::semirings::{Semiring, TropicalWeight};

type W = TropicalWeight;
type LM1 = TrLookAheadMatcher<W, SortedMatcher<W>, OLabelLookAheadFlags>;
type LM2 = TrLookAheadMatcher<W, SortedMatcher<W>, ILabelLookAheadFlags>;
type Inner = LookAheadComposeFilterBuilder<W, LM1, LM2, SequenceComposeFilterBuilder<LM1, LM2>, SMatchOutput>;
type Push = PushLabelsComposeFilterBuilder<W, LM1, LM2, Inner, SMatchOutput>;

/// The successful paths of an acyclic FST: input labels, output labels
/// (epsilons left out) and total cost.
fn paths(fst: &VectorFst<W>) -> BTreeSet<(Vec<usize>, Vec<usize>, Option<u32>)> {
    let mut out = BTreeSet::new();
    if let Some(s) = fst.start() {
        walk(fst, s, Vec::new(), Vec::new(), Some(0), &mut out);
    }
    out
}

fn walk(
    fst: &VectorFst<W>,
    s: usize,
    ins: Vec<usize>,
    outs: Vec<usize>,
    cost: Option<u32>,
    out: &mut BTreeSet<(Vec<usize>, Vec<usize>, Option<u32>)>,
) {
    if let Some(w) = fst.final_weight(s).unwrap() {
        let total = match (cost, w.value) {
            (Some(a), Some(b)) => Some(a + b),
            _ => None,
        };
        out.insert((ins.clone(), outs.clone(), total));
    }
    for tr in fst.get_trs(s).unwrap().iter() {
        let mut i2 = ins.clone();
        let mut o2 = outs.clone();
        if tr.ilabel != 0 {
            i2.push(tr.ilabel);
        }
        if tr.olabel != 0 {
            o2.push(tr.olabel);
        }
        let c2 = match (cost, tr.weight.value) {
            (Some(a), Some(b)) => Some(a + b),
            _ => None,
        };
        walk(fst, tr.nextstate, i2, o2, c2, out);
    }
}

fn first_fst() -> VectorFst<W> {
    let mut f = VectorFst::<W>::new();
    for _ in 0..4 {
        f.add_state();
    }
    f.set_start(0).unwrap();
    f.add_tr(0, Tr::new(1, 10, TropicalWeight::new(1), 1)).unwrap();
    f.add_tr(0, Tr::new(3, 12, TropicalWeight::new(2), 3)).unwrap();
    f.add_tr(1, Tr::new(2, 11, TropicalWeight::new(3), 2)).unwrap();
    f.set_final(2, W::one()).unwrap();
    f.set_final(3, TropicalWeight::new(4)).unwrap();
    f.tr_sort(false);
    f
}

fn second_fst() -> VectorFst<W> {
    let mut f = VectorFst::<W>::new();
    for _ in 0..4 {
        f.add_state();
    }
    f.set_start(0).unwrap();
    f.add_tr(0, Tr::new(10, 20, TropicalWeight::new(5), 1)).unwrap();
    f.add_tr(0, Tr::new(12, 22, TropicalWeight::new(6), 3)).unwrap();
    f.add_tr(1, Tr::new(11, 21, TropicalWeight::new(7), 2)).unwrap();
    f.set_final(2, W::one()).unwrap();
    f.set_final(3, W::one()).unwrap();
    f.tr_sort(true);
    f
}

#[test]
fn test_push_labels_compose_keeps_paths() {
    let fst1 = Arc::new(first_fst());
    let fst2 = Arc::new(second_fst());
    let plain = compose(Arc::clone(&fst1), Arc::clone(&fst2)).unwrap();

    let opts = ComposeFstOpOptions::new(None, None, None, None);
    let mut op = ComposeFstOp::<
        W,
        MultiEpsMatcher<W, LM1>,
        MultiEpsMatcher<W, LM2>,
        Push,
        PairFilterState<IntegerFilterState, IntegerFilterState>,
    >::new(Arc::clone(&fst1), Arc::clone(&fst2), opts)
    .unwrap();
    let pushed = op.compute().unwrap();

    let expected: BTreeSet<_> = vec![(vec![1, 2], vec![20, 21], Some(16)), (vec![3], vec![22], Some(12))]
        .into_iter()
        .collect();
    assert_eq!(paths(&plain), expected);
    assert_eq!(paths(&pushed), expected);
}

#[test]
fn test_lookahead_compose_keeps_paths() {
    let fst1 = Arc::new(first_fst());
    let fst2 = Arc::new(second_fst());
    let opts = ComposeFstOpOptions::new(None, None, None, None);
    let mut op = ComposeFstOp::<W, LM1, LM2, Inner, IntegerFilterState>::new(Arc::clone(&fst1), Arc::clone(&fst2), opts).unwrap();
    let la = op.compute().unwrap();
    let expected: BTreeSet<_> = vec![(vec![1, 2], vec![20, 21], Some(16)), (vec![3], vec![22], Some(12))]
        .into_iter()
        .collect();
    assert_eq!(paths(&la), expected);
}

type LLM = rustfst::lookahead_matchers::LabelLookAheadMatcher<W, SortedMatcher<W>, ILabelLookAheadFlags>;

#[test]
fn matcher_fst_relabels_with_input_data_only() {
    // 0 -5:7-> 1 (final).
    let mut fst = VectorFst::<W>::new();
    fst.add_state();
    fst.add_state();
    fst.set_start(0).unwrap();
    fst.set_final(1, W::one()).unwrap();
    fst.add_tr(0, Tr::new(5, 7, W::one(), 1)).unwrap();
    let mut fst2 = VectorFst::<W>::new();
    fst2.add_state();
    fst2.add_state();
    fst2.set_start(0).unwrap();
    fst2.set_final(1, W::one()).unwrap();
    fst2.add_tr(0, Tr::new(9, 5, W::one(), 1)).unwrap();
    let mf = rustfst::matcher_fst::MatcherFst::<W, LLM>::new_with_relabeling(fst, &mut fst2, false).unwrap();
    let addon = mf.addon();
    assert!(addon.0.is_some());
    assert!(addon.1.is_none());
    let data = addon.0.as_ref().unwrap();
    let index = data.relabel_unmut(5).unwrap();
    let tr = &mf.get_trs(0).unwrap()[0];
    assert_eq!(tr.ilabel, index);
    assert_eq!(tr.olabel, 7);
    // The second FST's output label 5 gets the same index.
    assert_eq!(fst2.get_trs(0).unwrap()[0].olabel, index);
    assert_eq!(fst2.get_trs(0).unwrap()[0].ilabel, 9);
}
