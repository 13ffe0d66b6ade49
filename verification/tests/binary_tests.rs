use rustfst::compose::{ComposeFstOpState, ComposeStateTuple};
use rustfst::filter_states::{
    parse_bin_u64, write_bin_u64, IntegerFilterState, ListFilterState, SerializeBinary, TrivialFilterState,
};
use rustfst::fst::FstError;

#[test]
fn test_u64_little_endian() {
    let mut out = Vec::new();
    write_bin_u64(&mut out, 0x0102_0304_0506_0708);
    assert_eq!(out, vec![8, 7, 6, 5, 4, 3, 2, 1]);
    out.push(42);
    let (rest, x) = parse_bin_u64(&out).unwrap();
    assert_eq!(x, 0x0102_0304_0506_0708);
    assert_eq!(rest, &[42]);
    assert!(matches!(parse_bin_u64(&out[..7]), Err(FstError::ParseError)));
}

#[test]
fn test_integer_filter_state_roundtrip() {
    let fs = IntegerFilterState { state: 300 };
    let mut out = Vec::new();
    fs.write_binary(&mut out);
    assert_eq!(out, vec![44, 1, 0, 0, 0, 0, 0, 0]);
    out.extend_from_slice(&[9, 9]);
    let (rest, back) = IntegerFilterState::parse_binary(&out).unwrap();
    assert_eq!(back, fs);
    assert_eq!(rest, &[9, 9]);
}

#[test]
fn test_trivial_filter_state_bytes() {
    let mut out = Vec::new();
    TrivialFilterState { state: true }.write_binary(&mut out);
    TrivialFilterState { state: false }.write_binary(&mut out);
    assert_eq!(out, vec![1, 0]);
    let (rest, a) = TrivialFilterState::parse_binary(&out).unwrap();
    assert!(a.state);
    let (rest, b) = TrivialFilterState::parse_binary(rest).unwrap();
    assert!(!b.state);
    assert!(rest.is_empty());
    // Any byte but 1 reads as false.
    let (_, c) = TrivialFilterState::parse_binary(&[5]).unwrap();
    assert!(!c.state);
    assert!(matches!(TrivialFilterState::parse_binary(&[]), Err(FstError::ParseError)));
}

#[test]
fn test_list_filter_state_roundtrip() {
    let fs = ListFilterState { state: vec![3, 1, 4] };
    let mut out = Vec::new();
    fs.write_binary(&mut out);
    assert_eq!(out.len(), 8 + 3 * 8);
    assert_eq!(&out[..8], &[3, 0, 0, 0, 0, 0, 0, 0]);
    let (rest, back) = ListFilterState::parse_binary(&out).unwrap();
    assert_eq!(back.state, vec![3, 1, 4]);
    assert!(rest.is_empty());
    // A count larger than the bytes that follow is refused.
    assert!(matches!(ListFilterState::parse_binary(&out[..20]), Err(FstError::ParseError)));
}

#[test]
fn test_compose_state_tuple_roundtrip() {
    let t = ComposeStateTuple { fs: TrivialFilterState { state: true }, s1: 7, s2: 2 };
    let mut out = Vec::new();
    t.write_binary(&mut out);
    assert_eq!(out, vec![1, 7, 0, 0, 0, 0, 0, 0, 0, 2, 0, 0, 0, 0, 0, 0, 0]);
    let (rest, back) = ComposeStateTuple::<TrivialFilterState>::parse_binary(&out).unwrap();
    assert_eq!(back, t);
    assert!(rest.is_empty());
    assert!(matches!(
        ComposeStateTuple::<TrivialFilterState>::parse_binary(&out[..16]),
        Err(FstError::ParseError)
    ));
}

#[test]
fn test_op_state_roundtrip() {
    let mut state = ComposeFstOpState::<IntegerFilterState>::new();
    let a = state.find_id(ComposeStateTuple { fs: IntegerFilterState { state: 0 }, s1: 1, s2: 2 });
    let b = state.find_id(ComposeStateTuple { fs: IntegerFilterState { state: 1 }, s1: 3, s2: 4 });
    let again = state.find_id(ComposeStateTuple { fs: IntegerFilterState { state: 0 }, s1: 1, s2: 2 });
    assert_eq!((a, b, again), (0, 1, 0));
    let mut out = Vec::new();
    state.write_binary(&mut out);
    assert_eq!(out.len(), 8 + 2 * 24);
    assert_eq!(&out[..8], &[2, 0, 0, 0, 0, 0, 0, 0]);
    let (rest, back) = ComposeFstOpState::<IntegerFilterState>::parse_binary(&out).unwrap();
    assert!(rest.is_empty());
    assert_eq!(back.state_table, state.state_table);
    assert!(matches!(
        ComposeFstOpState::<IntegerFilterState>::parse_binary(&out[..40]),
        Err(FstError::ParseError)
    ));
}
