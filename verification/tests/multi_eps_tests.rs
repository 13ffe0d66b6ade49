use std::sync::Arc;

use rustfst::fst::{FstError, Tr, VectorFst};
use rustfst::matchers::{IterItemMatcher, MatchType, Matcher, SortedMatcher};
use rustfst::multi_eps_matcher::{CompactSet, MultiEpsMatcher, MultiEpsMatcherFlags};
use rustfst::semirings::{Semiring, TropicalWeight};
use rustfst::NO_LABEL;

type W = TropicalWeight;

/// State 0 has transitions on input labels 0, 3, 3 and 5, sorted.
fn fst_with_labels() -> Arc<VectorFst<W>> {
    let mut fst = VectorFst::<W>::new();
    for _ in 0..5 {
        fst.add_state();
    }
    fst.set_start(0).unwrap();
    fst.add_tr(0, Tr::new(0, 0, W::one(), 1)).unwrap();
    fst.add_tr(0, Tr::new(3, 3, W::one(), 2)).unwrap();
    fst.add_tr(0, Tr::new(3, 4, W::one(), 3)).unwrap();
    fst.add_tr(0, Tr::new(5, 5, W::one(), 4)).unwrap();
    Arc::new(fst)
}

fn matcher(flags: MultiEpsMatcherFlags) -> MultiEpsMatcher<W, SortedMatcher<W>> {
    MultiEpsMatcher::new_with_opts(fst_with_labels(), MatchType::MatchInput, flags, None).unwrap()
}

fn trs_of(items: Vec<IterItemMatcher<W>>) -> Vec<Tr<W>> {
    items
        .into_iter()
        .map(|it| match it {
            IterItemMatcher::Tr(t) => t,
            IterItemMatcher::EpsLoop => panic!("unexpected epsilon loop"),
        })
        .collect()
}

#[test]
fn test_compact_set_bounds() {
    let mut set = CompactSet::new(NO_LABEL);
    assert!(!set.contains(4));
    set.insert(4);
    assert!(set.contains(4));
    assert!(!set.contains(5));
    assert_eq!(set.lower_bound(), 4);
    assert_eq!(set.upper_bound(), 4);
    // The upper bound follows the smaller key.
    set.insert(9);
    assert_eq!(set.lower_bound(), 4);
    assert_eq!(set.upper_bound(), 4);
    assert!(!set.contains(9));
    set.insert(2);
    assert_eq!(set.lower_bound(), 2);
    assert_eq!(set.upper_bound(), 2);
    assert_eq!(set.iter(), vec![2, 4, 9]);
    set.erase(2);
    assert_eq!(set.iter(), vec![4, 9]);
    assert_eq!(set.lower_bound(), 3);
    set.clear();
    assert_eq!(set.iter(), Vec::<usize>::new());
    assert_eq!(set.lower_bound(), NO_LABEL);
    assert_eq!(set.upper_bound(), NO_LABEL);
}

#[test]
fn test_multi_eps_label_must_not_be_epsilon() {
    let mut m = matcher(MultiEpsMatcherFlags::multi_eps_loop());
    assert!(matches!(m.add_multi_eps_label(0), Err(FstError::BadMultiEpsLabel)));
    assert!(matches!(m.remove_multi_eps_label(0), Err(FstError::BadMultiEpsLabel)));
    assert!(m.add_multi_eps_label(3).is_ok());
    assert!(m.remove_multi_eps_label(3).is_ok());
    assert!(m.multi_eps_labels.iter().is_empty());
}

#[test]
fn test_multi_eps_loop_answers_epsilon_loop() {
    let mut m = matcher(MultiEpsMatcherFlags::multi_eps_loop());
    m.add_multi_eps_label(3).unwrap();
    let items = m.iter(0, 3).unwrap();
    assert_eq!(items, vec![IterItemMatcher::EpsLoop]);
    // Other labels are matched as by the wrapped matcher.
    let items = trs_of(m.iter(0, 5).unwrap());
    assert_eq!(items, vec![Tr::new(5, 5, W::one(), 4)]);
    // Without the flag, the label is matched normally.
    let mut m = matcher(MultiEpsMatcherFlags::multi_eps_list());
    m.add_multi_eps_label(3).unwrap();
    let items = trs_of(m.iter(0, 3).unwrap());
    assert_eq!(items, vec![Tr::new(3, 3, W::one(), 2), Tr::new(3, 4, W::one(), 3)]);
}

#[test]
fn test_multi_eps_list_first_label_then_no_label() {
    // Only label 3 has matches: its matches, then those of the no-label
    // (the epsilon transition).
    let mut m = matcher(MultiEpsMatcherFlags::multi_eps_list());
    m.add_multi_eps_label(3).unwrap();
    m.add_multi_eps_label(7).unwrap();
    let items = trs_of(m.iter(0, NO_LABEL).unwrap());
    assert_eq!(
        items,
        vec![Tr::new(3, 3, W::one(), 2), Tr::new(3, 4, W::one(), 3), Tr::new(0, 0, W::one(), 1)]
    );
}

#[test]
fn test_multi_eps_list_stops_at_next_label() {
    // Labels 3 and 5 both have matches: the iteration stops after those of 3.
    let mut m = matcher(MultiEpsMatcherFlags::multi_eps_list());
    m.add_multi_eps_label(5).unwrap();
    m.add_multi_eps_label(3).unwrap();
    let items = trs_of(m.iter(0, NO_LABEL).unwrap());
    assert_eq!(items, vec![Tr::new(3, 3, W::one(), 2), Tr::new(3, 4, W::one(), 3)]);
}

#[test]
fn test_multi_eps_list_without_matching_label() {
    let mut m = matcher(MultiEpsMatcherFlags::multi_eps_list());
    m.add_multi_eps_label(8).unwrap();
    let items = trs_of(m.iter(0, NO_LABEL).unwrap());
    assert_eq!(items, vec![Tr::new(0, 0, W::one(), 1)]);
    // Epsilon keeps its loop.
    let items = m.iter(0, 0).unwrap();
    assert_eq!(items[0], IterItemMatcher::EpsLoop);
    assert_eq!(items.len(), 2);
}

#[test]
fn test_multi_eps_bad_state() {
    let m = matcher(MultiEpsMatcherFlags::multi_eps_list());
    assert!(matches!(m.iter(9, 3), Err(FstError::StateOutOfRange)));
}
