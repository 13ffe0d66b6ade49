use rustfst::determinize::{determinize, DeterminizeType};
use rustfst::fst::{Tr, VectorFst};
use rustfst::semirings::{Semiring, TropicalWeight};

#[test]
fn test_determinize() {
    let mut input_fst = VectorFst::<TropicalWeight>::new();
    let s0 = input_fst.add_state();
    let s1 = input_fst.add_state();

    input_fst.set_start(s0).unwrap();
    input_fst.set_final(s1, TropicalWeight::one()).unwrap();

    input_fst.add_tr(s0, Tr::new(1, 1, TropicalWeight::new(2), s1)).unwrap();
    input_fst.add_tr(s0, Tr::new(1, 1, TropicalWeight::new(2), s1)).unwrap();
    input_fst.add_tr(s0, Tr::new(1, 1, TropicalWeight::new(2), s1)).unwrap();

    let mut ref_fst = VectorFst::new();
    let s0 = ref_fst.add_state();
    let s1 = ref_fst.add_state();

    ref_fst.set_start(s0).unwrap();
    ref_fst.set_final(s1, TropicalWeight::one()).unwrap();

    ref_fst.add_tr(s0, Tr::new(1, 1, TropicalWeight::new(2), s1)).unwrap();

    let determinized_fst: VectorFst<TropicalWeight> =
        determinize(&ref_fst, DeterminizeType::DeterminizeFunctional).unwrap();

    assert_eq!(determinized_fst, ref_fst);
}

#[test]
fn test_determinize_2() {
    let mut input_fst = VectorFst::<TropicalWeight>::new();
    let s0 = input_fst.add_state();
    let s1 = input_fst.add_state();
    let s2 = input_fst.add_state();
    let s3 = input_fst.add_state();

    input_fst.set_start(s0).unwrap();
    input_fst.set_final(s3, TropicalWeight::one()).unwrap();

    input_fst.add_tr(s0, Tr::new(1, 1, TropicalWeight::new(2), s1)).unwrap();
    input_fst.add_tr(s0, Tr::new(1, 1, TropicalWeight::new(3), s2)).unwrap();

    input_fst.add_tr(s1, Tr::new(2, 2, TropicalWeight::new(4), s3)).unwrap();
    input_fst.add_tr(s2, Tr::new(2, 2, TropicalWeight::new(3), s3)).unwrap();

    let mut ref_fst = VectorFst::new();
    let s0 = ref_fst.add_state();
    let s1 = ref_fst.add_state();
    let s2 = ref_fst.add_state();

    ref_fst.set_start(s0).unwrap();
    ref_fst.set_final(s2, TropicalWeight::one()).unwrap();

    ref_fst.add_tr(s0, Tr::new(1, 1, TropicalWeight::new(2), s1)).unwrap();
    ref_fst.add_tr(s1, Tr::new(2, 2, TropicalWeight::new(4), s2)).unwrap();

    let determinized_fst: VectorFst<TropicalWeight> =
        determinize(&ref_fst, DeterminizeType::DeterminizeFunctional).unwrap();

    assert_eq!(determinized_fst, ref_fst);
}

#[test]
fn determinize_merges_equal_labels() {
    // Two transitions on label 1 to different states: one state of the result
    // holds both, with the residual weight of the more expensive one.
    let mut fst = VectorFst::<TropicalWeight>::new();
    let s0 = fst.add_state();
    let s1 = fst.add_state();
    let s2 = fst.add_state();
    fst.set_start(s0).unwrap();
    fst.set_final(s1, TropicalWeight::one()).unwrap();
    fst.set_final(s2, TropicalWeight::one()).unwrap();
    fst.add_tr(s0, Tr::new(1, 1, TropicalWeight::new(2), s1)).unwrap();
    fst.add_tr(s0, Tr::new(1, 1, TropicalWeight::new(5), s2)).unwrap();

    let det = determinize(&fst, DeterminizeType::DeterminizeFunctional).unwrap();
    assert_eq!(det.num_states(), 2);
    assert_eq!(det.start(), Some(0));
    let trs = det.get_trs(0).unwrap();
    assert_eq!(trs.len(), 1);
    assert_eq!(trs[0].weight, TropicalWeight::new(2));
    assert_eq!(det.final_weight(1).unwrap(), Some(TropicalWeight::one()));
}

#[test]
fn determinize_refuses_transducers() {
    let mut fst = VectorFst::<TropicalWeight>::new();
    let s0 = fst.add_state();
    fst.set_start(s0).unwrap();
    fst.add_tr(s0, Tr::new(1, 2, TropicalWeight::one(), s0)).unwrap();
    assert!(determinize(&fst, DeterminizeType::DeterminizeFunctional).is_err());
}

#[test]
fn determinize_empty_fst() {
    let fst = VectorFst::<TropicalWeight>::new();
    let det = determinize(&fst, DeterminizeType::DeterminizeFunctional).unwrap();
    assert_eq!(det.num_states(), 0);
    assert_eq!(det.start(), None);
}
