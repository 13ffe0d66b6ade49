use std::sync::Arc;

use rustfst::compose_static::{compose_with_config, ComposeConfig, ComposeFilterEnum, MatcherConfig, SigmaMatcherConfig};
use rustfst::condense::condense;
use rustfst::connect::connect;
use rustfst::determinize::determinize_with_distance;
use rustfst::fst::{FstError, Tr, VectorFst};
use rustfst::label_reachable::LabelReachable;
use rustfst::matchers::MatcherRewriteMode;
use rustfst::semirings::{Semiring, TropicalWeight};
use rustfst::state_reachable::StateReachable;

type W = TropicalWeight;

fn w(v: u32) -> W {
    TropicalWeight::new(v)
}

#[test]
fn connect_removes_dead_and_unreachable_states() {
    // 0 -> 1 -> 2 (final); 0 -> 3 leads nowhere; 4 cannot be reached.
    let mut fst = VectorFst::<W>::new();
    for _ in 0..5 {
        fst.add_state();
    }
    fst.set_start(0).unwrap();
    fst.set_final(2, W::one()).unwrap();
    fst.add_tr(0, Tr::new(1, 1, w(1), 1)).unwrap();
    fst.add_tr(1, Tr::new(2, 2, w(2), 2)).unwrap();
    fst.add_tr(0, Tr::new(3, 3, w(3), 3)).unwrap();
    fst.add_tr(4, Tr::new(4, 4, w(4), 2)).unwrap();
    connect(&mut fst).unwrap();

    let mut expected = VectorFst::<W>::new();
    for _ in 0..3 {
        expected.add_state();
    }
    expected.set_start(0).unwrap();
    expected.set_final(2, W::one()).unwrap();
    expected.add_tr(0, Tr::new(1, 1, w(1), 1)).unwrap();
    expected.add_tr(1, Tr::new(2, 2, w(2), 2)).unwrap();
    assert_eq!(fst, expected);
}

#[test]
fn connect_without_final_state_empties() {
    let mut fst = VectorFst::<W>::new();
    fst.add_state();
    fst.add_state();
    fst.set_start(0).unwrap();
    fst.add_tr(0, Tr::new(1, 1, w(1), 1)).unwrap();
    connect(&mut fst).unwrap();
    assert_eq!(fst.num_states(), 0);
    assert_eq!(fst.start(), None);
}

#[test]
fn condense_merges_a_cycle() {
    // 0 <-> 1 form a cycle, 1 -> 2 (final).
    let mut fst = VectorFst::<W>::new();
    for _ in 0..3 {
        fst.add_state();
    }
    fst.set_start(0).unwrap();
    fst.set_final(2, w(5)).unwrap();
    fst.add_tr(0, Tr::new(1, 1, w(1), 1)).unwrap();
    fst.add_tr(1, Tr::new(2, 2, w(2), 0)).unwrap();
    fst.add_tr(1, Tr::new(3, 3, w(3), 2)).unwrap();
    let (scc, cfst) = condense(&fst).unwrap();
    assert_eq!(scc[0], scc[1]);
    assert_ne!(scc[0], scc[2]);
    assert_eq!(cfst.num_states(), 2);
    assert_eq!(cfst.start(), Some(scc[0]));
    assert_eq!(cfst.final_weight(scc[2]).unwrap(), Some(w(5)));
    assert_eq!(cfst.final_weight(scc[0]).unwrap(), None);
    // Only the transition that leaves the cycle remains.
    let trs = cfst.get_trs(scc[0]).unwrap();
    assert_eq!(trs.len(), 1);
    assert_eq!(trs[0], Tr::new(3, 3, w(3), scc[2]));
    assert_eq!(cfst.num_trs(scc[2]).unwrap(), 0);
}

#[test]
fn condense_groups_mutually_reachable_states_and_is_acyclic() {
    // Two cycles {0, 1} and {2, 3, 4}, joined by 1 -> 2, and a lone state 5 reached from 4.
    let mut fst = VectorFst::<W>::new();
    for _ in 0..6 {
        fst.add_state();
    }
    fst.set_start(0).unwrap();
    fst.set_final(5, w(1)).unwrap();
    fst.add_tr(0, Tr::new(1, 1, w(1), 1)).unwrap();
    fst.add_tr(1, Tr::new(1, 1, w(1), 0)).unwrap();
    fst.add_tr(1, Tr::new(2, 2, w(2), 2)).unwrap();
    fst.add_tr(2, Tr::new(3, 3, w(3), 3)).unwrap();
    fst.add_tr(3, Tr::new(4, 4, w(4), 4)).unwrap();
    fst.add_tr(4, Tr::new(5, 5, w(5), 2)).unwrap();
    fst.add_tr(4, Tr::new(6, 6, w(6), 5)).unwrap();
    let (scc, cfst) = condense(&fst).unwrap();
    assert_eq!(scc[0], scc[1]);
    assert_eq!(scc[2], scc[3]);
    assert_eq!(scc[3], scc[4]);
    assert_ne!(scc[0], scc[2]);
    assert_ne!(scc[2], scc[5]);
    assert_ne!(scc[0], scc[5]);
    assert_eq!(cfst.num_states(), 3);
    // Every condensed transition leads to a lower-numbered state.
    for c in 0..cfst.num_states() {
        for tr in cfst.get_trs(c).unwrap().iter() {
            assert!(tr.nextstate < c);
        }
    }
    assert_eq!(cfst.num_trs(scc[0]).unwrap(), 1);
    assert_eq!(cfst.num_trs(scc[2]).unwrap(), 1);
    assert_eq!(cfst.num_trs(scc[5]).unwrap(), 0);
}

#[test]
fn state_reachable_answers_final_states() {
    // 0 -> 1 (final), 0 -> 2 (final), 2 -> 3 (final).
    let mut fst = VectorFst::<W>::new();
    for _ in 0..4 {
        fst.add_state();
    }
    fst.set_start(0).unwrap();
    fst.set_final(1, W::one()).unwrap();
    fst.set_final(2, W::one()).unwrap();
    fst.set_final(3, W::one()).unwrap();
    fst.add_tr(0, Tr::new(1, 1, w(1), 1)).unwrap();
    fst.add_tr(0, Tr::new(2, 2, w(1), 2)).unwrap();
    fst.add_tr(2, Tr::new(3, 3, w(1), 3)).unwrap();
    let sr = StateReachable::new(&fst).unwrap();
    assert_eq!(sr.reach(0, 1), Ok(true));
    assert_eq!(sr.reach(0, 3), Ok(true));
    assert_eq!(sr.reach(2, 3), Ok(true));
    assert_eq!(sr.reach(2, 1), Ok(false));
    assert_eq!(sr.reach(1, 3), Ok(false));
    assert_eq!(sr.reach(0, 7), Err(FstError::NonFinalState));
}

#[test]
fn state_reachable_refuses_final_state_in_cycle() {
    let mut fst = VectorFst::<W>::new();
    fst.add_state();
    fst.add_state();
    fst.set_start(0).unwrap();
    fst.set_final(1, W::one()).unwrap();
    fst.add_tr(0, Tr::new(1, 1, w(1), 1)).unwrap();
    fst.add_tr(1, Tr::new(1, 1, w(1), 0)).unwrap();
    assert!(matches!(StateReachable::new(&fst), Err(FstError::FinalStateInCycle)));
}

#[test]
fn label_reachable_first_labels() {
    // 0 -a-> 1 -b-> 2 (final), and 0 -eps-> 3 -b-> 2.
    let mut fst = VectorFst::<W>::new();
    for _ in 0..4 {
        fst.add_state();
    }
    fst.set_start(0).unwrap();
    fst.set_final(2, W::one()).unwrap();
    fst.add_tr(0, Tr::new(1, 1, w(1), 1)).unwrap();
    fst.add_tr(1, Tr::new(2, 2, w(1), 2)).unwrap();
    fst.add_tr(0, Tr::new(0, 0, w(1), 3)).unwrap();
    fst.add_tr(3, Tr::new(2, 2, w(1), 2)).unwrap();
    let lr = LabelReachable::new(&fst, true).unwrap();
    let a = lr.data().relabel_unmut(1).unwrap();
    let b = lr.data().relabel_unmut(2).unwrap();
    assert_eq!(lr.reach_label(0, a), Ok(true));
    assert_eq!(lr.reach_label(0, b), Ok(true));
    assert_eq!(lr.reach_label(1, a), Ok(false));
    assert_eq!(lr.reach_label(1, b), Ok(true));
    assert_eq!(lr.reach_label(3, a), Ok(false));
    assert_eq!(lr.reach_label(0, 0), Ok(false));
    assert_eq!(lr.reach_final(2), Ok(true));
    assert_eq!(lr.reach_final(0), Ok(false));
    assert_eq!(lr.reach_label(9, a), Err(FstError::StateOutOfRange));
    assert_eq!(lr.data().relabel_unmut(7), Err(FstError::UnknownLabel));
}

#[test]
fn determinize_with_distance_weights_and_distances() {
    // Two paths on label 1 with costs 2 and 3, then label 2 with costs 4 and 3.
    let mut fst = VectorFst::<W>::new();
    for _ in 0..4 {
        fst.add_state();
    }
    fst.set_start(0).unwrap();
    fst.set_final(3, W::one()).unwrap();
    fst.add_tr(0, Tr::new(1, 1, w(2), 1)).unwrap();
    fst.add_tr(0, Tr::new(1, 1, w(3), 2)).unwrap();
    fst.add_tr(1, Tr::new(2, 2, w(4), 3)).unwrap();
    fst.add_tr(2, Tr::new(2, 2, w(3), 3)).unwrap();
    let in_dist = vec![w(0), w(2), w(3), w(6)];
    let (dfst, out_dist) = determinize_with_distance(&fst, &in_dist).unwrap();
    assert_eq!(dfst.num_states(), 3);
    assert_eq!(dfst.start(), Some(0));
    // The transition on label 1 costs the cheaper of the two, 2; the
    // residual of state 2 is 1.
    assert_eq!(dfst.get_trs(0).unwrap()[0], Tr::new(1, 1, w(2), 1));
    // From the subset {(1, 0), (2, 1)} label 2 costs min(0 + 4, 1 + 3) = 4.
    assert_eq!(dfst.get_trs(1).unwrap()[0], Tr::new(2, 2, w(4), 2));
    assert_eq!(dfst.final_weight(2).unwrap(), Some(W::one()));
    // Distances: min over the subset of residual plus input distance.
    assert_eq!(out_dist, vec![w(0), w(2), w(6)]);
}

#[test]
fn determinize_with_distance_refuses_transducer() {
    let mut fst = VectorFst::<W>::new();
    fst.add_state();
    fst.add_state();
    fst.set_start(0).unwrap();
    fst.add_tr(0, Tr::new(1, 2, w(1), 1)).unwrap();
    let in_dist = vec![w(0), w(0)];
    assert!(matches!(determinize_with_distance(&fst, &in_dist), Err(FstError::NotAnAcceptor)));
}

fn simple_acceptor(labels: &[usize]) -> VectorFst<W> {
    let mut fst = VectorFst::<W>::new();
    let mut s = fst.add_state();
    fst.set_start(s).unwrap();
    for &l in labels {
        let n = fst.add_state();
        fst.add_tr(s, Tr::new(l, l, w(1), n)).unwrap();
        s = n;
    }
    fst.set_final(s, W::one()).unwrap();
    fst
}

#[test]
fn compose_with_config_refuses_epsilon_sigma() {
    let f1 = Arc::new(simple_acceptor(&[1]));
    let f2 = Arc::new(simple_acceptor(&[1]));
    let config = ComposeConfig {
        compose_filter: ComposeFilterEnum::SequenceFilter,
        matcher1_config: MatcherConfig {
            sigma_matcher_config: Some(SigmaMatcherConfig {
                sigma_label: 0,
                rewrite_mode: MatcherRewriteMode::MatcherRewriteAuto,
                sigma_allowed_matches: None,
            }),
        },
        matcher2_config: MatcherConfig { sigma_matcher_config: None },
        connect: true,
    };
    assert!(matches!(compose_with_config(f1, f2, config), Err(FstError::BadSigmaLabel)));
}

#[test]
fn compose_with_config_auto_filter_refuses_sigma() {
    let f1 = Arc::new(simple_acceptor(&[1]));
    let f2 = Arc::new(simple_acceptor(&[1]));
    let config = ComposeConfig {
        compose_filter: ComposeFilterEnum::AutoFilter,
        matcher1_config: MatcherConfig { sigma_matcher_config: None },
        matcher2_config: MatcherConfig {
            sigma_matcher_config: Some(SigmaMatcherConfig {
                sigma_label: 9,
                rewrite_mode: MatcherRewriteMode::MatcherRewriteAuto,
                sigma_allowed_matches: None,
            }),
        },
        connect: true,
    };
    assert!(matches!(compose_with_config(f1, f2, config), Err(FstError::UnsupportedConfig)));
}

#[test]
fn compose_with_config_without_connect_keeps_dead_states() {
    // The first FST reads 1 then 2; the second only 1: the composition
    // stops after 1, and without trimming its two states stay.
    let f1 = Arc::new(simple_acceptor(&[1, 2]));
    let f2 = Arc::new(simple_acceptor(&[1]));
    let mut config = ComposeConfig::default();
    config.compose_filter = ComposeFilterEnum::SequenceFilter;
    config.connect = false;
    let out = compose_with_config(Arc::clone(&f1), Arc::clone(&f2), config).unwrap();
    assert_eq!(out.num_states(), 2);
    assert_eq!(out.get_trs(0).unwrap()[0], Tr::new(1, 1, w(2), 1));
    assert_eq!(out.final_weight(1).unwrap(), None);
    let mut trimmed = ComposeConfig::default();
    trimmed.compose_filter = ComposeFilterEnum::SequenceFilter;
    let out = compose_with_config(f1, f2, trimmed).unwrap();
    assert_eq!(out.num_states(), 0);
}

#[test]
fn state_reachable_accepts_a_cycle_without_final_state() {
    // 0 <-> 1 form a cycle, 1 -> 2 (final).
    let mut fst = VectorFst::<W>::new();
    for _ in 0..3 {
        fst.add_state();
    }
    fst.set_start(0).unwrap();
    fst.set_final(2, W::one()).unwrap();
    fst.add_tr(0, Tr::new(1, 1, w(1), 1)).unwrap();
    fst.add_tr(1, Tr::new(2, 2, w(1), 0)).unwrap();
    fst.add_tr(1, Tr::new(3, 3, w(1), 2)).unwrap();
    let sr = StateReachable::new(&fst).unwrap();
    assert_eq!(sr.reach(0, 2), Ok(true));
    assert_eq!(sr.reach(1, 2), Ok(true));
    assert_eq!(sr.reach(2, 2), Ok(true));
}

#[test]
fn label_reachable_accepts_a_final_state_on_a_cycle() {
    // 0 -a-> 1 -b-> 0 with 1 final: once transformed, no final state lies on a cycle.
    let mut fst = VectorFst::<W>::new();
    fst.add_state();
    fst.add_state();
    fst.set_start(0).unwrap();
    fst.set_final(1, W::one()).unwrap();
    fst.add_tr(0, Tr::new(1, 1, w(1), 1)).unwrap();
    fst.add_tr(1, Tr::new(2, 2, w(1), 0)).unwrap();
    let lr = LabelReachable::new(&fst, true).unwrap();
    let a = lr.data().relabel_unmut(1).unwrap();
    let b = lr.data().relabel_unmut(2).unwrap();
    assert_eq!(lr.reach_label(0, a), Ok(true));
    assert_eq!(lr.reach_label(0, b), Ok(false));
    assert_eq!(lr.reach_label(1, b), Ok(true));
    assert_eq!(lr.reach_final(1), Ok(true));
    assert_eq!(lr.reach_final(0), Ok(false));
}

#[test]
fn compose_without_connect_starts_at_the_pair_of_start_states() {
    // No label in common: the composition keeps only the pair of start states.
    let f1 = Arc::new(simple_acceptor(&[1]));
    let f2 = Arc::new(simple_acceptor(&[2]));
    let mut config = ComposeConfig::default();
    config.connect = false;
    let out = compose_with_config(f1, f2, config).unwrap();
    assert_eq!(out.num_states(), 1);
    assert_eq!(out.start(), Some(0));
    assert_eq!(out.num_trs(0).unwrap(), 0);
}

#[test]
fn connect_keeps_a_cycle_on_a_successful_path() {
    // 0 -> 1 <-> 2 (final); 1 -> 3 leads nowhere; 4 -> 2 cannot be reached.
    let mut fst = VectorFst::<W>::new();
    for _ in 0..5 {
        fst.add_state();
    }
    fst.set_start(0).unwrap();
    fst.set_final(2, W::one()).unwrap();
    fst.add_tr(0, Tr::new(1, 1, w(1), 1)).unwrap();
    fst.add_tr(1, Tr::new(2, 2, w(2), 2)).unwrap();
    fst.add_tr(2, Tr::new(3, 3, w(3), 1)).unwrap();
    fst.add_tr(1, Tr::new(4, 4, w(4), 3)).unwrap();
    fst.add_tr(4, Tr::new(5, 5, w(5), 2)).unwrap();
    connect(&mut fst).unwrap();
    assert_eq!(fst.num_states(), 3);
    assert_eq!(fst.start(), Some(0));
    assert_eq!(fst.num_trs(0).unwrap(), 1);
    assert_eq!(fst.num_trs(1).unwrap(), 1);
    assert_eq!(fst.num_trs(2).unwrap(), 1);
    assert_eq!(fst.final_weight(2).unwrap(), Some(W::one()));
}
