use vstd::prelude::*;

use vstd::bytes::{spec_u64_from_le_bytes, spec_u64_to_le_bytes, u64_from_le_bytes, u64_to_le_bytes};
use vstd::slice::slice_subrange;

use crate::fst::FstError;
use crate::semirings::Semiring;
use crate::{StateId, NO_STATE_ID};

verus! {

/// The state of a composition filter.
pub trait FilterState: Sized {
    type Type;

    /// The value the state holds.
    spec fn value_spec(&self) -> Self::Type;

    /// The state that blocks a match.
    spec fn no_state_spec() -> Self;

    fn new(value: Self::Type) -> (r: Self)
        ensures
            r.value_spec() == value,
    ;

    fn new_no_state() -> (r: Self)
        ensures
            r == Self::no_state_spec(),
    ;

    fn state(&self) -> (r: &Self::Type)
        ensures
            *r == self.value_spec(),
    ;

    fn fs_eq(&self, other: &Self) -> (b: bool)
        ensures
            b == (*self == *other),
    ;

    fn fs_clone(&self) -> (r: Self)
        ensures
            r == *self,
    ;
}

/// Filter state that is an integer.
#[derive(Debug, PartialEq, Eq, Structural, Clone, Copy, Hash)]
pub struct IntegerFilterState {
    pub state: StateId,
}

impl FilterState for IntegerFilterState {
    type Type = StateId;

    open spec fn value_spec(&self) -> StateId {
        self.state
    }

    open spec fn no_state_spec() -> Self {
        IntegerFilterState { state: NO_STATE_ID }
    }

    fn new(value: StateId) -> (r: Self) {
        IntegerFilterState { state: value }
    }

    fn new_no_state() -> (r: Self) {
        IntegerFilterState { state: NO_STATE_ID }
    }

    fn state(&self) -> (r: &StateId) {
        &self.state
    }

    fn fs_eq(&self, other: &Self) -> (b: bool) {
        self.state == other.state
    }

    fn fs_clone(&self) -> (r: Self) {
        *self
    }
}

/// Single non-blocking filter state.
#[derive(Debug, PartialEq, Eq, Structural, Clone, Copy, Hash)]
pub struct TrivialFilterState {
    pub state: bool,
}

impl FilterState for TrivialFilterState {
    type Type = bool;

    open spec fn value_spec(&self) -> bool {
        self.state
    }

    open spec fn no_state_spec() -> Self {
        TrivialFilterState { state: false }
    }

    fn new(value: bool) -> (r: Self) {
        TrivialFilterState { state: value }
    }

    fn new_no_state() -> (r: Self) {
        TrivialFilterState { state: false }
    }

    fn state(&self) -> (r: &bool) {
        &self.state
    }

    fn fs_eq(&self, other: &Self) -> (b: bool) {
        self.state == other.state
    }

    fn fs_clone(&self) -> (r: Self) {
        *self
    }
}

/// Filter state that is a weight.
#[derive(Debug, PartialEq, Eq, Hash)]
pub struct WeightFilterState<W> {
    pub state: W,
}

impl<W: Semiring> FilterState for WeightFilterState<W> {
    type Type = W;

    open spec fn value_spec(&self) -> W {
        self.state
    }

    open spec fn no_state_spec() -> Self {
        WeightFilterState { state: W::zero_spec() }
    }

    fn new(value: W) -> (r: Self) {
        WeightFilterState { state: value }
    }

    fn new_no_state() -> (r: Self) {
        WeightFilterState { state: W::zero() }
    }

    fn state(&self) -> (r: &W) {
        &self.state
    }

    fn fs_eq(&self, other: &Self) -> (b: bool) {
        self.state.weight_eq(&other.state)
    }

    fn fs_clone(&self) -> (r: Self) {
        WeightFilterState { state: self.state.weight_clone() }
    }
}

/// Filter state that is the combination of two filter states.
#[derive(Debug, PartialEq, Eq, Hash)]
pub struct PairFilterState<FS1, FS2> {
    pub state: (FS1, FS2),
}

impl<FS1: FilterState, FS2: FilterState> FilterState for PairFilterState<FS1, FS2> {
    type Type = (FS1, FS2);

    open spec fn value_spec(&self) -> (FS1, FS2) {
        self.state
    }

    open spec fn no_state_spec() -> Self {
        PairFilterState { state: (FS1::no_state_spec(), FS2::no_state_spec()) }
    }

    fn new(value: (FS1, FS2)) -> (r: Self) {
        PairFilterState { state: value }
    }

    fn new_no_state() -> (r: Self) {
        PairFilterState { state: (FS1::new_no_state(), FS2::new_no_state()) }
    }

    fn state(&self) -> (r: &(FS1, FS2)) {
        &self.state
    }

    fn fs_eq(&self, other: &Self) -> (b: bool) {
        self.state.0.fs_eq(&other.state.0) && self.state.1.fs_eq(&other.state.1)
    }

    fn fs_clone(&self) -> (r: Self) {
        PairFilterState { state: (self.state.0.fs_clone(), self.state.1.fs_clone()) }
    }
}

impl<FS1, FS2> PairFilterState<FS1, FS2> {
    pub fn state1(&self) -> (r: &FS1)
        ensures
            *r == self.state.0,
    {
        &self.state.0
    }

    pub fn state2(&self) -> (r: &FS2)
        ensures
            *r == self.state.1,
    {
        &self.state.1
    }
}

/// Filter state that is a list of integers. Order matters for equality.
#[derive(Debug, PartialEq, Eq, Hash)]
pub struct ListFilterState {
    pub state: Vec<usize>,
}

/// A value with a binary form. `Bin` is what the form keeps of the value.
pub trait SerializeBinary: Sized {
    type Bin;

    /// What the binary form keeps of the value.
    spec fn bin_view(&self) -> Self::Bin;

    /// The binary form.
    spec fn encode(b: Self::Bin) -> Seq<u8>;

    /// The value the bytes begin with and how many bytes it takes, when
    /// they begin with one.
    spec fn decode(bytes: Seq<u8>) -> Option<(Self::Bin, nat)>;

    fn parse_binary<'a>(i: &'a [u8]) -> (r: Result<(&'a [u8], Self), FstError>)
        ensures
            Self::decode(i@) matches Some((b, n)) ==> (r matches Ok((rest, v)) && v.bin_view() == b && n <= i@.len() && rest@ == i@.skip(
                n as int,
            )),
            Self::decode(i@) is None ==> r == Err::<(&'a [u8], Self), FstError>(FstError::ParseError),
    ;

    fn write_binary(&self, out: &mut Vec<u8>)
        ensures
            final(out)@ == old(out)@ + Self::encode(self.bin_view()),
    ;

    /// Reading the bytes written for a value gives the value back, and
    /// consumes exactly them.
    proof fn lemma_decode_encode(&self, rest: Seq<u8>)
        ensures
            Self::decode(Self::encode(self.bin_view()) + rest) == Some((self.bin_view(), Self::encode(self.bin_view()).len())),
    ;
}

/// Reads a `u64` written least significant byte first.
pub fn parse_bin_u64<'a>(i: &'a [u8]) -> (r: Result<(&'a [u8], u64), FstError>)
    ensures
        i@.len() >= 8 ==> (r matches Ok((rest, x)) && x == spec_u64_from_le_bytes(i@.take(8)) && rest@ == i@.skip(8)),
        i@.len() < 8 ==> r == Err::<(&'a [u8], u64), FstError>(FstError::ParseError),
{
    if i.len() < 8 {
        return Err(FstError::ParseError);
    }
    let head = slice_subrange(i, 0, 8);
    let x = u64_from_le_bytes(head);
    let rest = slice_subrange(i, 8, i.len());
    proof {
        assert(head@ =~= i@.take(8));
        assert(rest@ =~= i@.skip(8));
    }
    Ok((rest, x))
}

/// Writes a `u64`, least significant byte first.
pub fn write_bin_u64(out: &mut Vec<u8>, x: u64)
    ensures
        final(out)@ == old(out)@ + spec_u64_to_le_bytes(x),
{
    let bytes = u64_to_le_bytes(x);
    let mut k: usize = 0;
    while k < 8
        invariant
            bytes@ == spec_u64_to_le_bytes(x),
            bytes@.len() == 8,
            k <= 8,
            out@ == old(out)@ + bytes@.take(k as int),
        decreases 8 - k,
    {
        out.push(bytes[k]);
        proof {
            assert(old(out)@ + bytes@.take(k + 1) =~= old(out)@ + bytes@.take(k as int) + seq![bytes@[k as int]]);
        }
        k += 1;
    }
    proof {
        assert(bytes@.take(8) =~= bytes@);
    }
}

/// Reads one byte.
pub fn parse_bin_u8<'a>(i: &'a [u8]) -> (r: Result<(&'a [u8], u8), FstError>)
    ensures
        i@.len() >= 1 ==> (r matches Ok((rest, x)) && x == i@[0] && rest@ == i@.skip(1)),
        i@.len() < 1 ==> r == Err::<(&'a [u8], u8), FstError>(FstError::ParseError),
{
    if i.len() < 1 {
        return Err(FstError::ParseError);
    }
    let x = i[0];
    let rest = slice_subrange(i, 1, i.len());
    proof {
        assert(rest@ =~= i@.skip(1));
    }
    Ok((rest, x))
}

/// Writes one byte.
pub fn write_bin_u8(out: &mut Vec<u8>, x: u8)
    ensures
        final(out)@ == old(out)@ + seq![x],
{
    out.push(x);
}

proof fn lemma_u64_roundtrip(x: u64, rest: Seq<u8>)
    ensures
        (spec_u64_to_le_bytes(x) + rest).len() >= 8,
        spec_u64_from_le_bytes((spec_u64_to_le_bytes(x) + rest).take(8)) == x,
        (spec_u64_to_le_bytes(x) + rest).skip(8) == rest,
{
    vstd::bytes::lemma_auto_spec_u64_to_from_le_bytes();
    let all = spec_u64_to_le_bytes(x) + rest;
    assert(all.take(8) =~= spec_u64_to_le_bytes(x));
    assert(all.skip(8) =~= rest);
}

impl SerializeBinary for IntegerFilterState {
    type Bin = StateId;

    open spec fn bin_view(&self) -> StateId {
        self.state
    }

    /// Eight bytes: the state as a `u64`, least significant byte first.
    open spec fn encode(b: StateId) -> Seq<u8> {
        spec_u64_to_le_bytes(b as u64)
    }

    open spec fn decode(bytes: Seq<u8>) -> Option<(StateId, nat)> {
        if bytes.len() >= 8 {
            Some((spec_u64_from_le_bytes(bytes.take(8)) as StateId, 8))
        } else {
            None
        }
    }

    fn parse_binary<'a>(i: &'a [u8]) -> (r: Result<(&'a [u8], Self), FstError>) {
        let (i, state) = parse_bin_u64(i)?;
        Ok((i, IntegerFilterState { state: state as StateId }))
    }

    fn write_binary(&self, out: &mut Vec<u8>) {
        write_bin_u64(out, self.state as u64);
    }

    proof fn lemma_decode_encode(&self, rest: Seq<u8>) {
        lemma_u64_roundtrip(self.state as u64, rest);
        vstd::bytes::lemma_auto_spec_u64_to_from_le_bytes();
    }
}

impl SerializeBinary for TrivialFilterState {
    type Bin = bool;

    open spec fn bin_view(&self) -> bool {
        self.state
    }

    /// One byte: 1 for true, 0 for false.
    open spec fn encode(b: bool) -> Seq<u8> {
        if b {
            seq![1u8]
        } else {
            seq![0u8]
        }
    }

    /// Any byte other than 1 reads as false.
    open spec fn decode(bytes: Seq<u8>) -> Option<(bool, nat)> {
        if bytes.len() >= 1 {
            Some((bytes[0] == 1, 1))
        } else {
            None
        }
    }

    fn parse_binary<'a>(i: &'a [u8]) -> (r: Result<(&'a [u8], Self), FstError>) {
        let (i, state) = parse_bin_u8(i)?;
        if state == 1 {
            Ok((i, TrivialFilterState { state: true }))
        } else {
            Ok((i, TrivialFilterState { state: false }))
        }
    }

    fn write_binary(&self, out: &mut Vec<u8>) {
        if self.state {
            write_bin_u8(out, 1);
        } else {
            write_bin_u8(out, 0);
        }
    }

    proof fn lemma_decode_encode(&self, rest: Seq<u8>) {
        let all = Self::encode(self.state) + rest;
        assert(all[0] == (if self.state { 1u8 } else { 0u8 }));
    }
}

/// The values as `u64`s, one after the other, each least significant byte first.
pub open spec fn u64s_bytes(b: Seq<usize>) -> Seq<u8>
    decreases b.len(),
{
    if b.len() == 0 {
        Seq::empty()
    } else {
        u64s_bytes(b.drop_last()) + spec_u64_to_le_bytes(b.last() as u64)
    }
}

/// The `u64` at the `j`-th group of eight bytes.
pub open spec fn u64_at(bytes: Seq<u8>, j: int) -> u64 {
    spec_u64_from_le_bytes(bytes.subrange(8 * j, 8 * j + 8))
}

proof fn lemma_u64s_bytes(b: Seq<usize>)
    ensures
        u64s_bytes(b).len() == 8 * b.len(),
        forall|j: int| 0 <= j < b.len() ==> #[trigger] u64s_bytes(b).subrange(8 * j, 8 * j + 8) == spec_u64_to_le_bytes(b[j] as u64),
    decreases b.len(),
{
    vstd::bytes::lemma_auto_spec_u64_to_from_le_bytes();
    if b.len() > 0 {
        let init = b.drop_last();
        lemma_u64s_bytes(init);
        let all = u64s_bytes(b);
        let last = spec_u64_to_le_bytes(b.last() as u64);
        assert(all == u64s_bytes(init) + last);
        assert forall|j: int| 0 <= j < b.len() implies #[trigger] all.subrange(8 * j, 8 * j + 8) == spec_u64_to_le_bytes(b[j] as u64) by {
            if j < b.len() - 1 {
                assert(all.subrange(8 * j, 8 * j + 8) =~= u64s_bytes(init).subrange(8 * j, 8 * j + 8));
                assert(init[j] == b[j]);
            } else {
                assert(all.subrange(8 * j, 8 * j + 8) =~= last);
            }
        }
    }
}

impl SerializeBinary for ListFilterState {
    type Bin = Seq<usize>;

    open spec fn bin_view(&self) -> Seq<usize> {
        self.state@
    }

    /// The number of values as a `u64`, then each value as a `u64`.
    open spec fn encode(b: Seq<usize>) -> Seq<u8> {
        spec_u64_to_le_bytes(b.len() as u64) + u64s_bytes(b)
    }

    open spec fn decode(bytes: Seq<u8>) -> Option<(Seq<usize>, nat)> {
        if bytes.len() >= 8 {
            let n = spec_u64_from_le_bytes(bytes.take(8)) as usize;
            if bytes.len() >= 8 + 8 * n {
                Some((Seq::new(n as nat, |j: int| u64_at(bytes.skip(8), j) as usize), (8 + 8 * n) as nat))
            } else {
                None
            }
        } else {
            None
        }
    }

    fn parse_binary<'a>(i: &'a [u8]) -> (r: Result<(&'a [u8], Self), FstError>) {
        let ghost bytes = i@;
        let (rest, num_states) = parse_bin_u64(i)?;
        let n = num_states as usize;
        let ghost body = bytes.skip(8);
        let mut state: Vec<usize> = Vec::new();
        let mut rest = rest;
        let mut k: usize = 0;
        while k < n
            invariant
                bytes == i@,
                bytes.len() >= 8,
                body == bytes.skip(8),
                n == spec_u64_from_le_bytes(bytes.take(8)) as usize,
                k <= n,
                8 * k <= body.len(),
                rest@ == body.skip(8 * k),
                state@ == Seq::new(k as nat, |j: int| u64_at(body, j) as usize),
            decreases n - k,
        {
            let (r2, x) = match parse_bin_u64(rest) {
                Ok(p) => p,
                Err(e) => {
                    proof {
                        assert(bytes.len() < 8 + 8 * n);
                        assert(Self::decode(bytes) is None);
                    }
                    return Err(e);
                },
            };
            proof {
                assert(rest@.take(8) =~= body.subrange(8 * k, 8 * k + 8));
                assert(r2@ =~= body.skip(8 * (k + 1)));
            }
            state.push(x as usize);
            rest = r2;
            proof {
                assert(state@ =~= Seq::new((k + 1) as nat, |j: int| u64_at(body, j) as usize));
            }
            k += 1;
        }
        proof {
            assert(rest@ =~= bytes.skip(8 + 8 * n));
        }
        Ok((rest, ListFilterState { state }))
    }

    fn write_binary(&self, out: &mut Vec<u8>) {
        let ghost start = out@;
        write_bin_u64(out, self.state.len() as u64);
        let mut k: usize = 0;
        while k < self.state.len()
            invariant
                k <= self.state@.len(),
                out@ == start + spec_u64_to_le_bytes(self.state@.len() as u64) + u64s_bytes(self.state@.take(k as int)),
            decreases self.state@.len() - k,
        {
            write_bin_u64(out, self.state[k] as u64);
            proof {
                let t = self.state@.take(k + 1);
                assert(t.drop_last() =~= self.state@.take(k as int));
                assert(t.last() == self.state@[k as int]);
            }
            k += 1;
        }
        proof {
            assert(self.state@.take(self.state@.len() as int) =~= self.state@);
        }
    }

    proof fn lemma_decode_encode(&self, rest: Seq<u8>) {
        let b = self.state@;
        assert(b.len() == self.state.len());
        let all = Self::encode(b) + rest;
        lemma_u64_roundtrip(b.len() as u64, u64s_bytes(b) + rest);
        assert(all == spec_u64_to_le_bytes(b.len() as u64) + (u64s_bytes(b) + rest));
        lemma_u64s_bytes(b);
        let body = all.skip(8);
        assert(body == u64s_bytes(b) + rest);
        let n = spec_u64_from_le_bytes(all.take(8)) as usize;
        assert(n == b.len());
        let got = Seq::new(n as nat, |j: int| u64_at(body, j) as usize);
        assert forall|j: int| 0 <= j < b.len() implies got[j] == b[j] by {
            vstd::bytes::lemma_auto_spec_u64_to_from_le_bytes();
            assert(body.subrange(8 * j, 8 * j + 8) =~= u64s_bytes(b).subrange(8 * j, 8 * j + 8));
            assert(u64s_bytes(b).subrange(8 * j, 8 * j + 8) == spec_u64_to_le_bytes(b[j] as u64));
        }
        assert(got =~= b);
    }
}

} // verus!
