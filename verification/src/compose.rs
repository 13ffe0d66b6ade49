use vstd::prelude::*;

use std::sync::Arc;

use crate::compose_filters::{usable_kept, ComposeFilter, ComposeFilterBuilder};
use crate::filter_states::{parse_bin_u64, write_bin_u64, FilterState, SerializeBinary};
use vstd::bytes::{spec_u64_from_le_bytes, spec_u64_to_le_bytes};
use crate::fst::{FstError, FstState, Tr, VectorFst};
use crate::lookahead_selector::Selector;
use crate::matchers::{flags_contain, IterItemMatcher, MatchType, Matcher, MatcherFlags, REQUIRE_PRIORITY};
use crate::semirings::Semiring;
use crate::shared::arc_clone;
use crate::{StateId, EPS_LABEL, NO_LABEL};

verus! {

/// A state of a composition: a state of each FST and a filter state.
#[derive(Debug, PartialEq, Eq, Hash)]
pub struct ComposeStateTuple<FS> {
    pub fs: FS,
    pub s1: StateId,
    pub s2: StateId,
}

impl<FS: SerializeBinary> SerializeBinary for ComposeStateTuple<FS> {
    type Bin = (FS::Bin, StateId, StateId);

    open spec fn bin_view(&self) -> (FS::Bin, StateId, StateId) {
        (self.fs.bin_view(), self.s1, self.s2)
    }

    /// The filter state, then both states as `u64`s.
    open spec fn encode(b: (FS::Bin, StateId, StateId)) -> Seq<u8> {
        FS::encode(b.0) + spec_u64_to_le_bytes(b.1 as u64) + spec_u64_to_le_bytes(b.2 as u64)
    }

    open spec fn decode(bytes: Seq<u8>) -> Option<((FS::Bin, StateId, StateId), nat)> {
        match FS::decode(bytes) {
            Some((f, n)) => {
                let rest = bytes.skip(n as int);
                if n <= bytes.len() && rest.len() >= 16 {
                    Some(
                        (
                            (
                                f,
                                spec_u64_from_le_bytes(rest.take(8)) as StateId,
                                spec_u64_from_le_bytes(rest.skip(8).take(8)) as StateId,
                            ),
                            n + 16,
                        ),
                    )
                } else {
                    None
                }
            },
            None => None,
        }
    }

    fn parse_binary<'a>(i: &'a [u8]) -> (r: Result<(&'a [u8], Self), FstError>) {
        let (i2, fs) = FS::parse_binary(i)?;
        let (i3, s1) = parse_bin_u64(i2)?;
        let (i4, s2) = parse_bin_u64(i3)?;
        proof {
            assert(i3@ =~= i2@.skip(8));
            assert(i4@ =~= i@.skip(i@.len() - i2@.len() + 16));
        }
        Ok((i4, ComposeStateTuple { fs, s1: s1 as StateId, s2: s2 as StateId }))
    }

    fn write_binary(&self, out: &mut Vec<u8>) {
        let ghost start = out@;
        self.fs.write_binary(out);
        write_bin_u64(out, self.s1 as u64);
        write_bin_u64(out, self.s2 as u64);
        proof {
            assert(out@ =~= start + Self::encode(self.bin_view()));
        }
    }

    proof fn lemma_decode_encode(&self, rest: Seq<u8>) {
        vstd::bytes::lemma_auto_spec_u64_to_from_le_bytes();
        let a = spec_u64_to_le_bytes(self.s1 as u64);
        let b = spec_u64_to_le_bytes(self.s2 as u64);
        let tail = a + b + rest;
        self.fs.lemma_decode_encode(tail);
        let e = FS::encode(self.fs.bin_view());
        assert(Self::encode(self.bin_view()) + rest =~= e + tail);
        let all = e + tail;
        assert(all.skip(e.len() as int) =~= tail);
        assert(tail.take(8) =~= a);
        assert(tail.skip(8).take(8) =~= b);
    }
}

/// Maps composition tuples to state identifiers, in order of discovery.
#[derive(Debug)]
pub struct ComposeFstOpState<FS> {
    pub state_table: Vec<ComposeStateTuple<FS>>,
}

impl<FS: FilterState> ComposeFstOpState<FS> {
    pub fn new() -> (r: Self)
        ensures
            r.state_table@.len() == 0,
    {
        ComposeFstOpState { state_table: Vec::new() }
    }

    /// The identifier of a tuple; a tuple seen for the first time gets the next identifier.
    pub fn find_id(&mut self, tuple: ComposeStateTuple<FS>) -> (id: StateId)
        ensures
            id < final(self).state_table@.len(),
            final(self).state_table@[id as int] == tuple,
            (exists|k: int| 0 <= k < old(self).state_table@.len() && old(self).state_table@[k] == tuple)
                ==> final(self).state_table@ == old(self).state_table@,
            !(exists|k: int| 0 <= k < old(self).state_table@.len() && old(self).state_table@[k] == tuple)
                ==> final(self).state_table@ == old(self).state_table@.push(tuple),
    {
        let mut i: usize = 0;
        while i < self.state_table.len()
            invariant
                i <= self.state_table@.len(),
                self.state_table@ == old(self).state_table@,
                forall|k: int| 0 <= k < i ==> self.state_table@[k] != tuple,
            decreases self.state_table@.len() - i,
        {
            let t = &self.state_table[i];
            if t.s1 == tuple.s1 && t.s2 == tuple.s2 && t.fs.fs_eq(&tuple.fs) {
                return i;
            }
            i += 1;
        }
        let id = self.state_table.len();
        self.state_table.push(tuple);
        id
    }
}

/// The binary forms of the tuples, one after the other.
pub open spec fn tuples_encode<FS: SerializeBinary>(b: Seq<(FS::Bin, StateId, StateId)>) -> Seq<u8>
    decreases b.len(),
{
    if b.len() == 0 {
        Seq::empty()
    } else {
        tuples_encode::<FS>(b.drop_last()) + ComposeStateTuple::<FS>::encode(b.last())
    }
}

/// The first `k` tuples the bytes begin with, and how many bytes they take.
pub open spec fn tuples_decode<FS: SerializeBinary>(bytes: Seq<u8>, k: nat) -> Option<(Seq<(FS::Bin, StateId, StateId)>, nat)>
    decreases k,
{
    if k == 0 {
        Some((Seq::empty(), 0))
    } else {
        match tuples_decode::<FS>(bytes, (k - 1) as nat) {
            Some((v, n)) => match ComposeStateTuple::<FS>::decode(bytes.skip(n as int)) {
                Some((b, m)) => if n + m <= bytes.len() {
                    Some((v.push(b), n + m))
                } else {
                    None
                },
                None => None,
            },
            None => None,
        }
    }
}

impl<FS: FilterState + SerializeBinary> ComposeFstOpState<FS> {
    /// What the binary form keeps of the table.
    pub open spec fn bin_view(&self) -> Seq<(FS::Bin, StateId, StateId)> {
        self.state_table@.map_values(|t: ComposeStateTuple<FS>| t.bin_view())
    }

    /// The binary form: the number of tuples as a `u64`, then each tuple.
    pub open spec fn encode(b: Seq<(FS::Bin, StateId, StateId)>) -> Seq<u8> {
        spec_u64_to_le_bytes(b.len() as u64) + tuples_encode::<FS>(b)
    }

    /// The table the bytes begin with, and how many bytes it takes.
    pub open spec fn decode(bytes: Seq<u8>) -> Option<(Seq<(FS::Bin, StateId, StateId)>, nat)> {
        if bytes.len() >= 8 {
            let k = spec_u64_from_le_bytes(bytes.take(8)) as usize;
            match tuples_decode::<FS>(bytes.skip(8), k as nat) {
                Some((v, n)) => Some((v, n + 8)),
                None => None,
            }
        } else {
            None
        }
    }

    /// Reads a table from its binary form.
    pub fn parse_binary<'a>(i: &'a [u8]) -> (r: Result<(&'a [u8], Self), FstError>)
        ensures
            Self::decode(i@) matches Some((b, n)) ==> (r matches Ok((rest, v)) && v.bin_view() == b && n <= i@.len() && rest@
                == i@.skip(n as int)),
            Self::decode(i@) is None ==> r == Err::<(&'a [u8], Self), FstError>(FstError::ParseError),
    {
        let ghost bytes = i@;
        let (rest, k) = parse_bin_u64(i)?;
        let k = k as usize;
        let ghost body = bytes.skip(8);
        let mut table: Vec<ComposeStateTuple<FS>> = Vec::new();
        let mut rest = rest;
        let mut j: usize = 0;
        let ghost mut used: nat = 0;
        while j < k
            invariant
                bytes == i@,
                bytes.len() >= 8,
                body == bytes.skip(8),
                k == spec_u64_from_le_bytes(bytes.take(8)) as usize,
                j <= k,
                tuples_decode::<FS>(body, j as nat) == Some((table@.map_values(|t: ComposeStateTuple<FS>| t.bin_view()), used)),
                used <= body.len(),
                rest@ == body.skip(used as int),
            decreases k - j,
        {
            let ghost before = table@;
            match ComposeStateTuple::<FS>::parse_binary(rest) {
                Ok((r2, t)) => {
                    proof {
                        let m = (rest@.len() - r2@.len()) as nat;
                        assert(body.skip(used as int) == rest@);
                        assert(r2@ =~= body.skip((used + m) as int));
                        assert(table@.push(t).map_values(|x: ComposeStateTuple<FS>| x.bin_view()) =~= before.map_values(
                            |x: ComposeStateTuple<FS>| x.bin_view(),
                        ).push(t.bin_view()));
                        used = used + m;
                    }
                    table.push(t);
                    rest = r2;
                },
                Err(e) => {
                    proof {
                        assert(tuples_decode::<FS>(body, (j + 1) as nat) is None);
                        lemma_tuples_decode_none::<FS>(body, (j + 1) as nat, k as nat);
                    }
                    return Err(e);
                },
            }
            j += 1;
        }
        proof {
            assert(rest@ =~= bytes.skip((used + 8) as int));
        }
        Ok((rest, ComposeFstOpState { state_table: table }))
    }

    /// Writes a table in binary form.
    pub fn write_binary(&self, out: &mut Vec<u8>)
        ensures
            final(out)@ == old(out)@ + Self::encode(self.bin_view()),
    {
        let ghost start = out@;
        write_bin_u64(out, self.state_table.len() as u64);
        let mut j: usize = 0;
        while j < self.state_table.len()
            invariant
                j <= self.state_table@.len(),
                out@ == start + spec_u64_to_le_bytes(self.state_table@.len() as u64) + tuples_encode::<FS>(
                    self.bin_view().take(j as int),
                ),
            decreases self.state_table@.len() - j,
        {
            self.state_table[j].write_binary(out);
            proof {
                let t = self.bin_view().take(j + 1);
                assert(t.drop_last() =~= self.bin_view().take(j as int));
            }
            j += 1;
        }
        proof {
            assert(self.bin_view().take(self.state_table@.len() as int) =~= self.bin_view());
        }
    }

    /// Reading the bytes written for a table gives the table back, and
    /// consumes exactly them.
    pub proof fn lemma_decode_encode(&self, rest: Seq<u8>)
        ensures
            Self::decode(Self::encode(self.bin_view()) + rest) == Some((self.bin_view(), Self::encode(self.bin_view()).len())),
    {
        let b = self.bin_view();
        assert(b.len() == self.state_table.len());
        vstd::bytes::lemma_auto_spec_u64_to_from_le_bytes();
        let all = Self::encode(b) + rest;
        assert(all.take(8) =~= spec_u64_to_le_bytes(b.len() as u64));
        assert(all.skip(8) =~= tuples_encode::<FS>(b) + rest);
        self.lemma_tuples_roundtrip(b.len(), rest);
        assert(b.take(b.len() as int) =~= b);
    }

    proof fn lemma_tuples_roundtrip(&self, k: nat, rest: Seq<u8>)
        requires
            k <= self.state_table@.len(),
        ensures
            tuples_decode::<FS>(tuples_encode::<FS>(self.bin_view().take(k as int)) + rest, k) == Some((
                self.bin_view().take(k as int),
                tuples_encode::<FS>(self.bin_view().take(k as int)).len(),
            )),
        decreases k,
    {
        let b = self.bin_view();
        if k > 0 {
            let pre = b.take(k - 1);
            let t = self.state_table@[k - 1];
            let e = ComposeStateTuple::<FS>::encode(t.bin_view());
            assert(b.take(k as int).drop_last() =~= pre);
            assert(b.take(k as int).last() == t.bin_view());
            let all = tuples_encode::<FS>(b.take(k as int)) + rest;
            assert(all =~= tuples_encode::<FS>(pre) + (e + rest));
            self.lemma_tuples_roundtrip((k - 1) as nat, e + rest);
            t.lemma_decode_encode(rest);
            let n = tuples_encode::<FS>(pre).len();
            assert(all.skip(n as int) =~= e + rest);
            assert(pre.push(t.bin_view()) =~= b.take(k as int));
        } else {
            assert(b.take(0) =~= Seq::<(FS::Bin, StateId, StateId)>::empty());
        }
    }
}

/// Once the first tuples cannot be read, no more of them can.
proof fn lemma_tuples_decode_none<FS: SerializeBinary>(bytes: Seq<u8>, j: nat, k: nat)
    requires
        j <= k,
        tuples_decode::<FS>(bytes, j) is None,
    ensures
        tuples_decode::<FS>(bytes, k) is None,
    decreases k - j,
{
    if j < k {
        lemma_tuples_decode_none::<FS>(bytes, j, (k - 1) as nat);
    }
}

/// Options of a composition: matchers, filter builder and state table to start from.
pub struct ComposeFstOpOptions<M1, M2, CFB, OS> {
    pub matcher1: Option<M1>,
    pub matcher2: Option<M2>,
    pub filter_builder: Option<CFB>,
    pub op_state: Option<OS>,
}

impl<M1, M2, CFB, OS> ComposeFstOpOptions<M1, M2, CFB, OS> {
    pub fn new(matcher1: Option<M1>, matcher2: Option<M2>, filter: Option<CFB>, op_state: Option<OS>) -> (r: Self)
        ensures
            r.matcher1 == matcher1 && r.matcher2 == matcher2 && r.filter_builder == filter && r.op_state == op_state,
    {
        ComposeFstOpOptions { matcher1, matcher2, filter_builder: filter, op_state }
    }
}

/// Options of a composition: its two matchers, its filter and its state
/// table, each to be created when absent.
pub struct ComposeFstImplOptions<M1, M2, CF, ST> {
    pub matcher1: Option<Arc<M1>>,
    pub matcher2: Option<Arc<M2>>,
    pub filter: Option<CF>,
    pub state_table: Option<ST>,
}

impl<M1, M2, CF, ST> Default for ComposeFstImplOptions<M1, M2, CF, ST> {
    fn default() -> (r: Self)
        ensures
            r.matcher1 is None && r.matcher2 is None && r.filter is None && r.state_table is None,
    {
        ComposeFstImplOptions { matcher1: None, matcher2: None, filter: None, state_table: None }
    }
}

impl<M1, M2, CF, ST> ComposeFstImplOptions<M1, M2, CF, ST> {
    pub fn new(matcher1: Option<Arc<M1>>, matcher2: Option<Arc<M2>>, filter: Option<CF>, state_table: Option<ST>) -> (r: Self)
        ensures
            r.matcher1 == matcher1 && r.matcher2 == matcher2 && r.filter == filter && r.state_table == state_table,
    {
        ComposeFstImplOptions { matcher1, matcher2, filter, state_table }
    }
}

/// What `ComposeFstOp::match_type` answers, when it succeeds.
pub open spec fn compose_match_type_spec(t1: MatchType, t2: MatchType, test1: MatchType, test2: MatchType) -> Option<MatchType> {
    if t1 == MatchType::MatchOutput && t2 == MatchType::MatchInput {
        Some(MatchType::MatchBoth)
    } else if t1 == MatchType::MatchOutput {
        Some(MatchType::MatchOutput)
    } else if t2 == MatchType::MatchInput {
        Some(MatchType::MatchInput)
    } else if test1 == MatchType::MatchOutput {
        Some(MatchType::MatchOutput)
    } else if test2 == MatchType::MatchInput {
        Some(MatchType::MatchInput)
    } else {
        None
    }
}

/// The computation of the composition of two FSTs.
pub struct ComposeFstOp<W, M1, M2, CFB, FS> {
    pub compose_filter_builder: CFB,
    pub compose_state: ComposeFstOpState<FS>,
    pub match_type: MatchType,
    pub fst1: Arc<VectorFst<W>>,
    pub fst2: Arc<VectorFst<W>>,
    pub matchers: std::marker::PhantomData<(M1, M2)>,
}

impl<W: Semiring, M1: Matcher<W>, M2: Matcher<W>, CFB: ComposeFilterBuilder<W, M1, M2>> ComposeFstOp<
    W,
    M1,
    M2,
    CFB,
    <<CFB as ComposeFilterBuilder<W, M1, M2>>::CF as ComposeFilter<W, M1, M2>>::FS,
> {
    /// The matchers can serve the chosen match type.
    pub open spec fn inv(&self) -> bool {
        let m1 = self.compose_filter_builder.matcher1_spec();
        let m2 = self.compose_filter_builder.matcher2_spec();
        &&& m1.wf()
        &&& m2.wf()
        &&& self.compose_filter_builder.builder_inv()
        &&& (self.match_type == MatchType::MatchInput || self.match_type == MatchType::MatchOutput
            || self.match_type == MatchType::MatchBoth)
        &&& (self.match_type == MatchType::MatchInput || self.match_type == MatchType::MatchBoth) ==> m2.can_iter()
        &&& (self.match_type == MatchType::MatchOutput || self.match_type == MatchType::MatchBoth) ==> m1.can_iter()
    }

    pub fn new(
        fst1: Arc<VectorFst<W>>,
        fst2: Arc<VectorFst<W>>,
        opts: ComposeFstOptionsOf<W, M1, M2, CFB>,
    ) -> (r: Result<Self, FstError>)
        requires
            opts.matcher1 matches Some(m) ==> m.wf(),
            opts.matcher2 matches Some(m) ==> m.wf(),
            opts.filter_builder matches Some(b) ==> b.matcher1_spec().wf() && b.matcher2_spec().wf() && b.builder_inv(),
        ensures
            r matches Ok(op) ==> op.inv() && op.compose_state.state_table@.len() == 0 && *op.fst1 == *fst1 && *op.fst2 == *fst2,
            opts.filter_builder is None && CFB::keeps_matchers_spec() ==> (r matches Ok(op) ==> (opts.matcher1 matches Some(m)
                ==> op.compose_filter_builder.matcher1_spec() == m) && (opts.matcher2 matches Some(m) ==> op.compose_filter_builder.matcher2_spec() == m)),
            opts.filter_builder matches Some(b) && b.build_ok() && compose_match_ok(b.matcher1_spec(), b.matcher2_spec()) ==> r is Ok,
            opts.filter_builder is None && CFB::new_ok(*fst1, *fst2, opts.matcher1, opts.matcher2)
                ==> (r matches Ok(op) ==> op.compose_filter_builder.build_ok()),
            opts.filter_builder is None && CFB::keeps_matchers_spec() && opts.matcher1 is Some && opts.matcher2 is Some
                && CFB::new_ok(*fst1, *fst2, opts.matcher1, opts.matcher2)
                && compose_match_ok(opts.matcher1->0, opts.matcher2->0) ==> r is Ok,
    {
        let compose_filter_builder = match opts.filter_builder {
            Some(b) => b,
            None => CFB::new(arc_clone(&fst1), arc_clone(&fst2), opts.matcher1, opts.matcher2)?,
        };
        let compose_filter = compose_filter_builder.build()?;
        let match_type = Self::compose_match_type(compose_filter.matcher1(), compose_filter.matcher2())?;
        let op = ComposeFstOp {
            compose_filter_builder,
            compose_state: ComposeFstOpState::new(),
            match_type,
            fst1,
            fst2,
            matchers: std::marker::PhantomData,
        };
        Ok(op)
    }

    /// Chooses which side of the composition is matched.
    pub fn compose_match_type(matcher1: &M1, matcher2: &M2) -> (r: Result<MatchType, FstError>)
        requires
            matcher1.wf(),
            matcher2.wf(),
        ensures
            r matches Ok(mt) ==> (mt == MatchType::MatchInput || mt == MatchType::MatchOutput || mt == MatchType::MatchBoth)
                && ((mt == MatchType::MatchInput || mt == MatchType::MatchBoth) ==> matcher2.can_iter())
                && ((mt == MatchType::MatchOutput || mt == MatchType::MatchBoth) ==> matcher1.can_iter()),
            flags_contain(matcher1.flags_spec(), MatcherFlags { bits: 1 }) && matcher1.match_type_spec(true) != MatchType::MatchOutput
                ==> r == Err::<MatchType, FstError>(FstError::CannotMatch),
            !(flags_contain(matcher1.flags_spec(), MatcherFlags { bits: 1 }) && matcher1.match_type_spec(true) != MatchType::MatchOutput)
                && flags_contain(matcher2.flags_spec(), MatcherFlags { bits: 1 }) && matcher2.match_type_spec(true) != MatchType::MatchInput
                ==> r == Err::<MatchType, FstError>(FstError::CannotMatch),
            !(flags_contain(matcher1.flags_spec(), MatcherFlags { bits: 1 }) && matcher1.match_type_spec(true) != MatchType::MatchOutput)
                && !(flags_contain(matcher2.flags_spec(), MatcherFlags { bits: 1 }) && matcher2.match_type_spec(true) != MatchType::MatchInput)
                ==> match compose_match_type_spec(
                matcher1.match_type_spec(false),
                matcher2.match_type_spec(false),
                matcher1.match_type_spec(true),
                matcher2.match_type_spec(true),
            ) {
                Some(mt) => r == Ok::<MatchType, FstError>(mt),
                None => r == Err::<MatchType, FstError>(FstError::CannotMatch),
            },
    {
        if matcher1.flags().contains(MatcherFlags::require_match()) && matcher1.match_type(true)? != MatchType::MatchOutput {
            return Err(FstError::CannotMatch);
        }
        if matcher2.flags().contains(MatcherFlags::require_match()) && matcher2.match_type(true)? != MatchType::MatchInput {
            return Err(FstError::CannotMatch);
        }
        let type1 = matcher1.match_type(false)?;
        let type2 = matcher2.match_type(false)?;
        let mt = if type1 == MatchType::MatchOutput && type2 == MatchType::MatchInput {
            proof {
                matcher1.lemma_match_type_can_iter(false);
                matcher2.lemma_match_type_can_iter(false);
            }
            MatchType::MatchBoth
        } else if type1 == MatchType::MatchOutput {
            proof {
                matcher1.lemma_match_type_can_iter(false);
            }
            MatchType::MatchOutput
        } else if type2 == MatchType::MatchInput {
            proof {
                matcher2.lemma_match_type_can_iter(false);
            }
            MatchType::MatchInput
        } else if matcher1.match_type(true)? == MatchType::MatchOutput {
            proof {
                matcher1.lemma_match_type_can_iter(true);
            }
            MatchType::MatchOutput
        } else if matcher2.match_type(true)? == MatchType::MatchInput {
            proof {
                matcher2.lemma_match_type_can_iter(true);
            }
            MatchType::MatchInput
        } else {
            return Err(FstError::CannotMatch);
        };
        Ok(mt)
    }

    /// Whether the input side of FST2 is matched (rather than the output side of FST1).
    fn match_input(&self, s1: StateId, s2: StateId, compose_filter: &CFB::CF) -> (r: Result<bool, FstError>)
        requires
            self.inv(),
            matchers_usable(compose_filter.matcher1_spec(), compose_filter.matcher2_spec(), self.match_type),
        ensures
            r matches Ok(b) ==> (b ==> (self.match_type == MatchType::MatchInput || self.match_type == MatchType::MatchBoth))
                && (!b ==> (self.match_type == MatchType::MatchOutput || self.match_type == MatchType::MatchBoth)),
            self.match_type == MatchType::MatchInput ==> r == Ok::<bool, FstError>(true),
            self.match_type == MatchType::MatchOutput ==> r == Ok::<bool, FstError>(false),
            s1 < compose_filter.matcher1_spec().fst_spec().states@.len() && s2 < compose_filter.matcher2_spec().fst_spec().states@.len()
                && !(compose_filter.matcher1_spec().priority_spec(s1) == REQUIRE_PRIORITY
                && compose_filter.matcher2_spec().priority_spec(s2) == REQUIRE_PRIORITY) ==> r is Ok,
    {
        match self.match_type {
            MatchType::MatchInput => Ok(true),
            MatchType::MatchOutput => Ok(false),
            _ => {
                // Match both
                let priority1 = compose_filter.matcher1().priority(s1)?;
                let priority2 = compose_filter.matcher2().priority(s2)?;
                if priority1 == REQUIRE_PRIORITY && priority2 == REQUIRE_PRIORITY {
                    return Err(FstError::BothRequireMatch);
                }
                if priority1 == REQUIRE_PRIORITY {
                    return Ok(false);
                }
                if priority2 == REQUIRE_PRIORITY {
                    return Ok(true);
                }
                Ok(priority1 <= priority2)
            },
        }
    }

    /// The transition of the composition for two matched transitions.
    fn add_tr(
        &mut self,
        arc1: Tr<W>,
        arc2: Tr<W>,
        fs: <<CFB as ComposeFilterBuilder<W, M1, M2>>::CF as ComposeFilter<W, M1, M2>>::FS,
    ) -> (r: Tr<W>)
        ensures
            r.ilabel == arc1.ilabel && r.olabel == arc2.olabel,
            r.weight == W::times_spec(arc1.weight, arc2.weight),
            r.nextstate < final(self).compose_state.state_table@.len(),
            final(self).compose_state.state_table@[r.nextstate as int] == (ComposeStateTuple { fs, s1: arc1.nextstate, s2: arc2.nextstate }),
            final(self).compose_state.state_table@.len() >= old(self).compose_state.state_table@.len(),
            forall|k: int| 0 <= k < old(self).compose_state.state_table@.len() ==> final(self).compose_state.state_table@[k] == old(self).compose_state.state_table@[k],
            forall|k: int| old(self).compose_state.state_table@.len() <= k < final(self).compose_state.state_table@.len()
                ==> final(self).compose_state.state_table@[k] == (ComposeStateTuple { fs, s1: arc1.nextstate, s2: arc2.nextstate }),
            final(self).compose_filter_builder == old(self).compose_filter_builder,
            final(self).match_type == old(self).match_type,
            *final(self).fst1 == *old(self).fst1,
            *final(self).fst2 == *old(self).fst2,
    {
        let tuple = ComposeStateTuple { fs, s1: arc1.nextstate, s2: arc2.nextstate };
        let weight = arc1.weight.times(&arc2.weight);
        let id = self.compose_state.find_id(tuple);
        Tr::new(arc1.ilabel, arc2.olabel, weight, id)
    }
}

/// The matcher on the selected side can iterate.
pub open spec fn selected_usable<W: Semiring, M1: Matcher<W>, M2: Matcher<W>>(m1: M1, m2: M2, selector: Selector) -> bool {
    match selector {
        Selector::Fst2Matcher1 => m1.wf() && m1.can_iter(),
        Selector::Fst1Matcher2 => m2.wf() && m2.can_iter(),
    }
}

/// `compose_match_type` succeeds on these matchers: neither requires a match
/// on a side it cannot match, and some side can be matched.
pub open spec fn compose_match_ok<W: Semiring, M1: Matcher<W>, M2: Matcher<W>>(m1: M1, m2: M2) -> bool {
    &&& !(flags_contain(m1.flags_spec(), MatcherFlags { bits: 1 }) && m1.match_type_spec(true) != MatchType::MatchOutput)
    &&& !(flags_contain(m2.flags_spec(), MatcherFlags { bits: 1 }) && m2.match_type_spec(true) != MatchType::MatchInput)
    &&& compose_match_type_spec(m1.match_type_spec(false), m2.match_type_spec(false), m1.match_type_spec(true), m2.match_type_spec(true)) is Some
}

/// No state of the first matcher's FST and state of the second's both require
/// a match.
pub open spec fn no_both_require<W: Semiring, M1: Matcher<W>, M2: Matcher<W>>(m1: M1, m2: M2) -> bool {
    forall|s1: StateId, s2: StateId| s1 < m1.fst_spec().states@.len() && s2 < m2.fst_spec().states@.len()
        ==> !(#[trigger] m1.priority_spec(s1) == REQUIRE_PRIORITY && #[trigger] m2.priority_spec(s2) == REQUIRE_PRIORITY)
}

/// Filters of this type never fail: `set_state` on states of their matchers'
/// FSTs, `filter_tr` and `filter_final` surely succeed.
pub open spec fn filter_total<W: Semiring, M1: Matcher<W>, M2: Matcher<W>, CF: ComposeFilter<W, M1, M2>>() -> bool {
    &&& forall|f: CF, s1: StateId, s2: StateId, fs: CF::FS| #![trigger f.set_state_ok(s1, s2, fs)]
        s1 < f.matcher1_spec().fst_spec().states@.len() && s2 < f.matcher2_spec().fst_spec().states@.len() ==> f.set_state_ok(s1, s2, fs)
    &&& forall|f: CF, a1: Tr<W>, a2: Tr<W>| #[trigger] f.filter_tr_ok(a1, a2)
    &&& forall|f: CF, w1: W, w2: W| #[trigger] f.filter_final_ok(w1, w2)
}

/// The matcher the selector picks surely iterates from `sa`, on any label.
pub open spec fn selected_iterates<W: Semiring, M1: Matcher<W>, M2: Matcher<W>>(m1: M1, m2: M2, selector: Selector, sa: StateId) -> bool {
    match selector {
        Selector::Fst2Matcher1 => sa < m1.fst_spec().states@.len() && forall|l: crate::Label| #[trigger] m1.accepts_label(l),
        Selector::Fst1Matcher2 => sa < m2.fst_spec().states@.len() && forall|l: crate::Label| #[trigger] m2.accepts_label(l),
    }
}

/// Both matchers are consistent and can iterate on the sides the match type needs.
pub open spec fn matchers_usable<W: Semiring, M1: Matcher<W>, M2: Matcher<W>>(m1: M1, m2: M2, match_type: MatchType) -> bool {
    &&& m1.wf()
    &&& m2.wf()
    &&& (match_type == MatchType::MatchInput || match_type == MatchType::MatchBoth) ==> m2.can_iter()
    &&& (match_type == MatchType::MatchOutput || match_type == MatchType::MatchBoth) ==> m1.can_iter()
}

/// The transitions lead to states below `n`.
pub open spec fn trs_within<W>(trs: Seq<Tr<W>>, n: nat) -> bool {
    forall|i: int| 0 <= i < trs.len() ==> #[trigger] trs[i].nextstate < n
}

/// `new` keeps the identifiers of `old` and may add some.
pub open spec fn table_extends<FS>(old: Seq<ComposeStateTuple<FS>>, new: Seq<ComposeStateTuple<FS>>) -> bool {
    &&& new.len() >= old.len()
    &&& forall|k: int| 0 <= k < old.len() ==> new[k] == old[k]
}

/// `t` joins two transitions: the input label of the first, the output
/// label of the second, the product of their weights, and towards the pair
/// of their destinations.
pub open spec fn joins<W: Semiring>(pairs: Seq<(StateId, StateId)>, t: Tr<W>, arc1: Tr<W>, arc2: Tr<W>) -> bool {
    &&& t.ilabel == arc1.ilabel
    &&& t.olabel == arc2.olabel
    &&& t.weight == W::times_spec(arc1.weight, arc2.weight)
    &&& t.nextstate < pairs.len()
    &&& pairs[t.nextstate as int] == (arc1.nextstate, arc2.nextstate)
}

/// The two transitions share a label other than epsilon and `NO_LABEL`.
pub open spec fn regular_pair<W>(arc1: Tr<W>, arc2: Tr<W>) -> bool {
    arc1.olabel == arc2.ilabel && arc1.olabel != EPS_LABEL && arc1.olabel != NO_LABEL
}

/// The transition `b` of the side gone through and the match `a`, found at
/// `sa` on the other side, give the pair of transitions of the first and
/// second FST.
pub open spec fn arcs_of<W: Semiring>(b: Tr<W>, a: IterItemMatcher<W>, sa: StateId, match_input: bool) -> (Tr<W>, Tr<W>) {
    if match_input {
        (b, match_tr_of(a, sa, true))
    } else {
        (match_tr_of(a, sa, false), b)
    }
}

/// When the pair of transitions that `b` and `a` give share a label other
/// than epsilon and `NO_LABEL`, some transition of `trs` joins them.
pub open spec fn pair_covered<W: Semiring>(pairs: Seq<(StateId, StateId)>, trs: Seq<Tr<W>>, b: Tr<W>, a: IterItemMatcher<W>,
    sa: StateId, match_input: bool) -> bool {
    let arcs = arcs_of(b, a, sa, match_input);
    regular_pair(arcs.0, arcs.1) ==> exists|k: int| 0 <= k < trs.len() && #[trigger] joins(pairs, trs[k], arcs.0, arcs.1)
}

/// Covered pairs stay so as the table and the transitions grow.
proof fn lemma_covered_grow<W: Semiring>(p1: Seq<(StateId, StateId)>, p2: Seq<(StateId, StateId)>, t1: Seq<Tr<W>>, t2: Seq<Tr<W>>,
    b: Tr<W>, a: IterItemMatcher<W>, sa: StateId, match_input: bool)
    requires
        pair_covered(p1, t1, b, a, sa, match_input),
        pairs_extend(p1, p2),
        t2.len() >= t1.len(),
        forall|k: int| 0 <= k < t1.len() ==> t2[k] == t1[k],
    ensures
        pair_covered(p2, t2, b, a, sa, match_input),
{
    let arcs = arcs_of(b, a, sa, match_input);
    if regular_pair(arcs.0, arcs.1) {
        let k = choose|k: int| 0 <= k < t1.len() && #[trigger] joins(p1, t1[k], arcs.0, arcs.1);
        assert(t2[k] == t1[k]);
        assert(joins(p2, t2[k], arcs.0, arcs.1));
    }
}

/// The pair of states each identifier of the table stands for.
pub open spec fn pairs_of<FS>(table: Seq<ComposeStateTuple<FS>>) -> Seq<(StateId, StateId)> {
    Seq::new(table.len(), |i: int| (table[i].s1, table[i].s2))
}

/// `new` keeps the pairs of `old` and may add some.
pub open spec fn pairs_extend(old: Seq<(StateId, StateId)>, new: Seq<(StateId, StateId)>) -> bool {
    &&& new.len() >= old.len()
    &&& forall|k: int| 0 <= k < old.len() ==> new[k] == old[k]
}

proof fn lemma_pairs_extend<FS>(old: Seq<ComposeStateTuple<FS>>, new: Seq<ComposeStateTuple<FS>>)
    requires
        table_extends(old, new),
    ensures
        pairs_extend(pairs_of(old), pairs_of(new)),
{
}

/// The epsilon self-loop of the side whose transitions are gone through.
pub open spec fn side_loop<W: Semiring>(s: StateId, match_input: bool) -> Tr<W> {
    if match_input {
        Tr { ilabel: EPS_LABEL, olabel: NO_LABEL, weight: W::one_spec(), nextstate: s }
    } else {
        Tr { ilabel: NO_LABEL, olabel: EPS_LABEL, weight: W::one_spec(), nextstate: s }
    }
}

/// The transition a match stands for; an epsilon loop stays on `s`.
pub open spec fn match_tr_of<W: Semiring>(item: IterItemMatcher<W>, s: StateId, match_input: bool) -> Tr<W> {
    match item {
        IterItemMatcher::Tr(t) => t,
        IterItemMatcher::EpsLoop => if match_input {
            Tr { ilabel: NO_LABEL, olabel: EPS_LABEL, weight: W::one_spec(), nextstate: s }
        } else {
            Tr { ilabel: EPS_LABEL, olabel: NO_LABEL, weight: W::one_spec(), nextstate: s }
        },
    }
}

/// `t` is a transition of the composition at the pair `(s1, s2)`. Matching
/// the inputs of the second FST, it joins a transition of the first FST (or
/// its epsilon loop) with a match, by the second matcher, of its output
/// label; matching the outputs of the first FST, it joins a match, by the
/// first matcher, of the input label of a transition of the second FST (or
/// of its epsilon loop) with that transition.
pub open spec fn composed<W: Semiring, M1: Matcher<W>, M2: Matcher<W>>(
    pairs: Seq<(StateId, StateId)>,
    fst1: VectorFst<W>,
    fst2: VectorFst<W>,
    m1: M1,
    m2: M2,
    s1: StateId,
    s2: StateId,
    match_input: bool,
    t: Tr<W>,
) -> bool {
    if match_input {
        exists|b: Tr<W>, a: IterItemMatcher<W>|
            #![trigger joins(pairs, t, b, match_tr_of(a, s2, true))]
            (b == side_loop::<W>(s1, true) || fst1.states@[s1 as int].trs@.contains(b)) && m2.iter_spec(s2, b.olabel).contains(a)
                && joins(pairs, t, b, match_tr_of(a, s2, true))
    } else {
        exists|b: Tr<W>, a: IterItemMatcher<W>|
            #![trigger joins(pairs, t, match_tr_of(a, s1, false), b)]
            (b == side_loop::<W>(s2, false) || fst2.states@[s2 as int].trs@.contains(b)) && m1.iter_spec(s1, b.ilabel).contains(a)
                && joins(pairs, t, match_tr_of(a, s1, false), b)
    }
}

/// A composed transition stays composed as the table grows.
proof fn lemma_composed_extend<W: Semiring, M1: Matcher<W>, M2: Matcher<W>>(
    old_table: Seq<(StateId, StateId)>,
    new_table: Seq<(StateId, StateId)>,
    fst1: VectorFst<W>,
    fst2: VectorFst<W>,
    m1: M1,
    m2: M2,
    s1: StateId,
    s2: StateId,
    match_input: bool,
    trs: Seq<Tr<W>>,
)
    requires
        pairs_extend(old_table, new_table),
        forall|k: int| 0 <= k < trs.len() ==> #[trigger] composed(old_table, fst1, fst2, m1, m2, s1, s2, match_input, trs[k]),
    ensures
        forall|k: int| 0 <= k < trs.len() ==> #[trigger] composed(new_table, fst1, fst2, m1, m2, s1, s2, match_input, trs[k]),
{
    assert forall|k: int| 0 <= k < trs.len() implies #[trigger] composed(new_table, fst1, fst2, m1, m2, s1, s2, match_input, trs[k]) by {
        let t = trs[k];
        assert(composed(old_table, fst1, fst2, m1, m2, s1, s2, match_input, t));
        if match_input {
            let (b, a) = choose|b: Tr<W>, a: IterItemMatcher<W>|
                #![trigger joins(old_table, t, b, match_tr_of(a, s2, true))]
                (b == side_loop::<W>(s1, true) || fst1.states@[s1 as int].trs@.contains(b)) && m2.iter_spec(s2, b.olabel).contains(a)
                    && joins(old_table, t, b, match_tr_of(a, s2, true));
            assert(joins(new_table, t, b, match_tr_of(a, s2, true)));
        } else {
            let (b, a) = choose|b: Tr<W>, a: IterItemMatcher<W>|
                #![trigger joins(old_table, t, match_tr_of(a, s1, false), b)]
                (b == side_loop::<W>(s2, false) || fst2.states@[s2 as int].trs@.contains(b)) && m1.iter_spec(s1, b.ilabel).contains(a)
                    && joins(old_table, t, match_tr_of(a, s1, false), b);
            assert(joins(new_table, t, match_tr_of(a, s1, false), b));
        }
    }
}

/// The final weight of a pair of states: the product of their final
/// weights, when both are final and the product is not zero.
pub open spec fn final_product<W: Semiring>(f1: Option<W>, f2: Option<W>) -> Option<W> {
    match (f1, f2) {
        (Some(a), Some(b)) => if W::times_spec(a, b) == W::zero_spec() {
            None
        } else {
            Some(W::times_spec(a, b))
        },
        _ => None,
    }
}

/// `st` is the state of a composition that stands for the pair `pair`, the
/// pairs of all its states being `pairs`: its transitions are composed at the
/// pair, all through one side, and its final weight is the product of the
/// final weights of the pair.
pub open spec fn state_composed<W: Semiring, M1: Matcher<W>, M2: Matcher<W>>(
    st: FstState<W>,
    fst1: VectorFst<W>,
    fst2: VectorFst<W>,
    m1: M1,
    m2: M2,
    pairs: Seq<(StateId, StateId)>,
    pair: (StateId, StateId),
) -> bool {
    &&& {
        ||| forall|k: int| 0 <= k < st.trs@.len() ==> #[trigger] composed(pairs, fst1, fst2, m1, m2, pair.0, pair.1, true, st.trs@[k])
        ||| forall|k: int| 0 <= k < st.trs@.len() ==> #[trigger] composed(pairs, fst1, fst2, m1, m2, pair.0, pair.1, false, st.trs@[k])
    }
    &&& st.final_weight == final_product(fst1.states@[pair.0 as int].final_weight, fst2.states@[pair.1 as int].final_weight)
}

/// `f` is a composition of `fst1` and `fst2`, as matched by `m1` and `m2`,
/// whose states stand for the pairs `pairs`; state 0 is the pair of start states.
pub open spec fn composition_by<W: Semiring, M1: Matcher<W>, M2: Matcher<W>>(
    f: VectorFst<W>,
    fst1: VectorFst<W>,
    fst2: VectorFst<W>,
    m1: M1,
    m2: M2,
    pairs: Seq<(StateId, StateId)>,
) -> bool {
    &&& pairs.len() == f.states@.len()
    &&& f.start_state matches Some(st) ==> st == 0 && fst1.start_state == Some(pairs[0].0) && fst2.start_state == Some(pairs[0].1)
    &&& (fst1.start_state is None || fst2.start_state is None) ==> f.states@.len() == 0 && f.start_state is None
    &&& (fst1.start_state is Some && fst2.start_state is Some) ==> f.start_state == Some(0usize)
    &&& forall|q: int| 0 <= q < pairs.len() ==> #[trigger] state_composed(f.states@[q], fst1, fst2, m1, m2, pairs, pairs[q])
}

/// `f` is a composition of `fst1` and `fst2` as matched by `m1` and `m2`.
pub open spec fn composition_of<W: Semiring, M1: Matcher<W>, M2: Matcher<W>>(
    f: VectorFst<W>,
    fst1: VectorFst<W>,
    fst2: VectorFst<W>,
    m1: M1,
    m2: M2,
) -> bool {
    exists|pairs: Seq<(StateId, StateId)>| #[trigger] composition_by(f, fst1, fst2, m1, m2, pairs)
}

/// On the side whose transitions are gone through (those of the first FST
/// at `s1` when matching the inputs of the second, else those of the second
/// at `s2`), every transition paired with each of its matches is covered by `trs`.
pub open spec fn side_covered<W: Semiring, M1: Matcher<W>, M2: Matcher<W>>(
    pairs: Seq<(StateId, StateId)>,
    fst1: VectorFst<W>,
    fst2: VectorFst<W>,
    m1: M1,
    m2: M2,
    s1: StateId,
    s2: StateId,
    match_input: bool,
    trs: Seq<Tr<W>>,
) -> bool {
    if match_input {
        forall|j: int, a: IterItemMatcher<W>| 0 <= j < fst1.states@[s1 as int].trs@.len()
            && m2.iter_spec(s2, fst1.states@[s1 as int].trs@[j].olabel).contains(a)
            ==> #[trigger] pair_covered(pairs, trs, fst1.states@[s1 as int].trs@[j], a, s2, true)
    } else {
        forall|j: int, a: IterItemMatcher<W>| 0 <= j < fst2.states@[s2 as int].trs@.len()
            && m1.iter_spec(s1, fst2.states@[s2 as int].trs@[j].ilabel).contains(a)
            ==> #[trigger] pair_covered(pairs, trs, fst2.states@[s2 as int].trs@[j], a, s1, false)
    }
}

/// The transitions of `st` are composed at `pair` through one side, and on
/// that side they cover every transition paired with each of its matches.
pub open spec fn state_full<W: Semiring, M1: Matcher<W>, M2: Matcher<W>>(
    st: FstState<W>,
    fst1: VectorFst<W>,
    fst2: VectorFst<W>,
    m1: M1,
    m2: M2,
    pairs: Seq<(StateId, StateId)>,
    pair: (StateId, StateId),
) -> bool {
    ||| (forall|k: int| 0 <= k < st.trs@.len() ==> #[trigger] composed(pairs, fst1, fst2, m1, m2, pair.0, pair.1, true, st.trs@[k]))
        && side_covered(pairs, fst1, fst2, m1, m2, pair.0, pair.1, true, st.trs@)
    ||| (forall|k: int| 0 <= k < st.trs@.len() ==> #[trigger] composed(pairs, fst1, fst2, m1, m2, pair.0, pair.1, false, st.trs@[k]))
        && side_covered(pairs, fst1, fst2, m1, m2, pair.0, pair.1, false, st.trs@)
}

/// `f` is a composition of `fst1` and `fst2` as matched by `m1` and `m2`
/// (`composition_by`) in which, at every state, each transition of the side
/// gone through and each of its matches that share a label other than
/// epsilon and `NO_LABEL` are joined by a transition.
pub open spec fn composition_full<W: Semiring, M1: Matcher<W>, M2: Matcher<W>>(
    f: VectorFst<W>,
    fst1: VectorFst<W>,
    fst2: VectorFst<W>,
    m1: M1,
    m2: M2,
) -> bool {
    exists|pairs: Seq<(StateId, StateId)>| #[trigger] composition_by(f, fst1, fst2, m1, m2, pairs)
        && forall|q: int| 0 <= q < pairs.len() ==> #[trigger] state_full(f.states@[q], fst1, fst2, m1, m2, pairs, pairs[q])
}

impl<W: Semiring, M1: Matcher<W>, M2: Matcher<W>, CFB: ComposeFilterBuilder<W, M1, M2>> ComposeFstOp<
    W,
    M1,
    M2,
    CFB,
    <<CFB as ComposeFilterBuilder<W, M1, M2>>::CF as ComposeFilter<W, M1, M2>>::FS,
> {
    /// Full expansions stay so as the table grows.
    proof fn lemma_expanded_full_extend(
        &self,
        old_table: Seq<ComposeStateTuple<<<CFB as ComposeFilterBuilder<W, M1, M2>>::CF as ComposeFilter<W, M1, M2>>::FS>>,
        new_table: Seq<ComposeStateTuple<<<CFB as ComposeFilterBuilder<W, M1, M2>>::CF as ComposeFilter<W, M1, M2>>::FS>>,
        state: StateId,
        trs: Seq<Tr<W>>,
    )
        requires
            table_extends(old_table, new_table),
            state < old_table.len(),
            self.expanded_full(old_table, state, trs),
        ensures
            self.expanded_full(new_table, state, trs),
    {
        let m1 = self.compose_filter_builder.matcher1_spec();
        let m2 = self.compose_filter_builder.matcher2_spec();
        let f1: VectorFst<W> = *self.fst1;
        let f2: VectorFst<W> = *self.fst2;
        let s1 = old_table[state as int].s1;
        let s2 = old_table[state as int].s2;
        assert(new_table[state as int] == old_table[state as int]);
        lemma_pairs_extend(old_table, new_table);
        let p0 = pairs_of(old_table);
        let p1 = pairs_of(new_table);
        if self.match_type != MatchType::MatchOutput && (forall|k: int| 0 <= k < trs.len() ==> #[trigger] composed(p0, f1, f2, m1, m2, s1, s2, true, trs[k]))
            && self.side_complete(old_table, s2, s1, true, trs) {
            lemma_composed_extend(p0, p1, f1, f2, m1, m2, s1, s2, true, trs);
            let side = f1.states@[s1 as int].trs@;
            assert forall|j: int, a: IterItemMatcher<W>| 0 <= j < side.len() && self.matches_of(s2, true, side[j]).contains(a)
                implies #[trigger] pair_covered(p1, trs, side[j], a, s2, true) by {
                assert(pair_covered(p0, trs, side[j], a, s2, true));
                lemma_covered_grow(p0, p1, trs, trs, side[j], a, s2, true);
            }
        } else {
            assert(self.side_complete(old_table, s1, s2, false, trs));
            lemma_composed_extend(p0, p1, f1, f2, m1, m2, s1, s2, false, trs);
            let side = f2.states@[s2 as int].trs@;
            assert forall|j: int, a: IterItemMatcher<W>| 0 <= j < side.len() && self.matches_of(s1, false, side[j]).contains(a)
                implies #[trigger] pair_covered(p1, trs, side[j], a, s1, false) by {
                assert(pair_covered(p0, trs, side[j], a, s1, false));
                lemma_covered_grow(p0, p1, trs, trs, side[j], a, s1, false);
            }
        }
    }

    /// The fields that expansion does not change.
    pub open spec fn same_config(&self, other: &Self) -> bool {
        &&& self.compose_filter_builder == other.compose_filter_builder
        &&& self.match_type == other.match_type
        &&& *self.fst1 == *other.fst1
        &&& *self.fst2 == *other.fst2
        &&& table_extends(other.compose_state.state_table@, self.compose_state.state_table@)
    }

    /// Expanding a state of the composition never fails: filters surely build
    /// and never fail, keeping their matchers, on the FSTs composed; the
    /// matchers accept every label; and, matching both sides, no two states
    /// both require a match.
    pub open spec fn never_fails(&self) -> bool {
        let m1 = self.compose_filter_builder.matcher1_spec();
        let m2 = self.compose_filter_builder.matcher2_spec();
        &&& self.compose_filter_builder.build_ok()
        &&& filter_total::<W, M1, M2, CFB::CF>()
        &&& <CFB::CF as ComposeFilter<W, M1, M2>>::matchers_fixed_spec()
        &&& m1.fst_spec() == *self.fst1
        &&& m2.fst_spec() == *self.fst2
        &&& forall|l: crate::Label| #[trigger] m1.accepts_label(l)
        &&& forall|l: crate::Label| #[trigger] m2.accepts_label(l)
        &&& self.match_type == MatchType::MatchBoth ==> no_both_require(m1, m2)
    }

    /// Every tuple of the table holds states of the two FSTs.
    pub open spec fn table_in_range(&self) -> bool {
        forall|t: int| 0 <= t < self.compose_state.state_table@.len() ==> self.tuple_in_range(#[trigger] self.compose_state.state_table@[t])
    }

    /// The number of states of the first FST, or else of the second.
    pub open spec fn side_len(&self, first: bool) -> nat {
        if first {
            self.fst1.states@.len()
        } else {
            self.fst2.states@.len()
        }
    }

    /// Expanding keeps the tuples in range: the filter keeps transitions and
    /// matchers, the FSTs are well formed and are those of the matchers.
    pub open spec fn keeps_range(&self) -> bool {
        &&& self.plain()
        &&& self.fst1.wf()
        &&& self.fst2.wf()
        &&& self.compose_filter_builder.matcher1_spec().fst_spec() == *self.fst1
        &&& self.compose_filter_builder.matcher2_spec().fst_spec() == *self.fst2
    }

    /// A tuple of states of the two FSTs.
    pub open spec fn tuple_in_range(&self, t: ComposeStateTuple<<<CFB as ComposeFilterBuilder<W, M1, M2>>::CF as ComposeFilter<W, M1, M2>>::FS>) -> bool {
        &&& t.s1 < self.fst1.states@.len()
        &&& t.s2 < self.fst2.states@.len()
    }

    /// The filter leaves transitions, final weights and matchers as they are.
    pub open spec fn plain(&self) -> bool {
        &&& <CFB::CF as ComposeFilter<W, M1, M2>>::keeps_arcs_spec()
        &&& <CFB::CF as ComposeFilter<W, M1, M2>>::matchers_fixed_spec()
    }

    /// `t` is a transition of the composition where `sa` is the state of the
    /// matched side and `sb` that of the side whose transitions are gone through.
    pub open spec fn composed_at(
        &self,
        table: Seq<ComposeStateTuple<<<CFB as ComposeFilterBuilder<W, M1, M2>>::CF as ComposeFilter<W, M1, M2>>::FS>>,
        sa: StateId,
        sb: StateId,
        match_input: bool,
        t: Tr<W>,
    ) -> bool {
        let m1 = self.compose_filter_builder.matcher1_spec();
        let m2 = self.compose_filter_builder.matcher2_spec();
        if match_input {
            composed(pairs_of(table), *self.fst1, *self.fst2, m1, m2, sb, sa, true, t)
        } else {
            composed(pairs_of(table), *self.fst1, *self.fst2, m1, m2, sa, sb, false, t)
        }
    }

    /// `tr` is a transition of the side gone through at `sb`, or its epsilon loop.
    pub open spec fn side_member(&self, sb: StateId, match_input: bool, tr: Tr<W>) -> bool {
        ||| tr == side_loop::<W>(sb, match_input)
        ||| (match_input && self.fst1.states@[sb as int].trs@.contains(tr))
        ||| (!match_input && self.fst2.states@[sb as int].trs@.contains(tr))
    }

    /// The matches of `tr`'s label by the matcher of the matched side.
    pub open spec fn matches_of(&self, sa: StateId, match_input: bool, tr: Tr<W>) -> Seq<IterItemMatcher<W>> {
        if match_input {
            self.compose_filter_builder.matcher2_spec().iter_spec(sa, tr.olabel)
        } else {
            self.compose_filter_builder.matcher1_spec().iter_spec(sa, tr.ilabel)
        }
    }

    /// Every transition of the side gone through at `sb`, paired with each of
    /// its matches at `sa`, is covered by `trs`.
    pub open spec fn side_complete(
        &self,
        table: Seq<ComposeStateTuple<<<CFB as ComposeFilterBuilder<W, M1, M2>>::CF as ComposeFilter<W, M1, M2>>::FS>>,
        sa: StateId,
        sb: StateId,
        match_input: bool,
        trs: Seq<Tr<W>>,
    ) -> bool {
        if match_input {
            forall|j: int, a: IterItemMatcher<W>| 0 <= j < self.fst1.states@[sb as int].trs@.len()
                && self.matches_of(sa, true, self.fst1.states@[sb as int].trs@[j]).contains(a)
                ==> #[trigger] pair_covered(pairs_of(table), trs, self.fst1.states@[sb as int].trs@[j], a, sa, true)
        } else {
            forall|j: int, a: IterItemMatcher<W>| 0 <= j < self.fst2.states@[sb as int].trs@.len()
                && self.matches_of(sa, false, self.fst2.states@[sb as int].trs@[j]).contains(a)
                ==> #[trigger] pair_covered(pairs_of(table), trs, self.fst2.states@[sb as int].trs@[j], a, sa, false)
        }
    }

    /// Each of `trs` is a transition of the composition at the pair of states
    /// that `state` stands for in `table`, all found by going through the side
    /// that the match type allows.
    pub open spec fn expanded_from(
        &self,
        table: Seq<ComposeStateTuple<<<CFB as ComposeFilterBuilder<W, M1, M2>>::CF as ComposeFilter<W, M1, M2>>::FS>>,
        state: StateId,
        trs: Seq<Tr<W>>,
    ) -> bool {
        let m1 = self.compose_filter_builder.matcher1_spec();
        let m2 = self.compose_filter_builder.matcher2_spec();
        let s1 = table[state as int].s1;
        let s2 = table[state as int].s2;
        ||| (self.match_type != MatchType::MatchOutput && forall|k: int| 0 <= k < trs.len() ==> #[trigger] composed(pairs_of(table), *self.fst1, *self.fst2, m1, m2, s1, s2, true, trs[k]))
        ||| (self.match_type != MatchType::MatchInput && forall|k: int| 0 <= k < trs.len() ==> #[trigger] composed(pairs_of(table), *self.fst1, *self.fst2, m1, m2, s1, s2, false, trs[k]))
    }

    /// As `expanded_from`, and on the side gone through, every transition
    /// paired with each of its matches is covered by `trs`.
    pub open spec fn expanded_full(
        &self,
        table: Seq<ComposeStateTuple<<<CFB as ComposeFilterBuilder<W, M1, M2>>::CF as ComposeFilter<W, M1, M2>>::FS>>,
        state: StateId,
        trs: Seq<Tr<W>>,
    ) -> bool {
        let m1 = self.compose_filter_builder.matcher1_spec();
        let m2 = self.compose_filter_builder.matcher2_spec();
        let s1 = table[state as int].s1;
        let s2 = table[state as int].s2;
        ||| (self.match_type != MatchType::MatchOutput && (forall|k: int| 0 <= k < trs.len() ==> #[trigger] composed(pairs_of(table), *self.fst1, *self.fst2, m1, m2, s1, s2, true, trs[k]))
            && self.side_complete(table, s2, s1, true, trs))
        ||| (self.match_type != MatchType::MatchInput && (forall|k: int| 0 <= k < trs.len() ==> #[trigger] composed(pairs_of(table), *self.fst1, *self.fst2, m1, m2, s1, s2, false, trs[k]))
            && self.side_complete(table, s1, s2, false, trs))
    }

    /// `st` is the state of the composition that `q` stands for in `table`:
    /// its transitions are expanded from it and its final weight is the
    /// product of the final weights of the pair.
    pub open spec fn state_built(
        &self,
        table: Seq<ComposeStateTuple<<<CFB as ComposeFilterBuilder<W, M1, M2>>::CF as ComposeFilter<W, M1, M2>>::FS>>,
        q: StateId,
        st: FstState<W>,
    ) -> bool {
        &&& self.expanded_from(table, q, st.trs@)
        &&& st.final_weight == final_product(
            self.compose_filter_builder.matcher1_spec().fst_spec().states@[table[q as int].s1 as int].final_weight,
            self.compose_filter_builder.matcher2_spec().fst_spec().states@[table[q as int].s2 as int].final_weight,
        )
    }

    /// Transitions expanded from a state stay so as the table grows.
    proof fn lemma_expanded_extend(
        &self,
        old_table: Seq<ComposeStateTuple<<<CFB as ComposeFilterBuilder<W, M1, M2>>::CF as ComposeFilter<W, M1, M2>>::FS>>,
        new_table: Seq<ComposeStateTuple<<<CFB as ComposeFilterBuilder<W, M1, M2>>::CF as ComposeFilter<W, M1, M2>>::FS>>,
        state: StateId,
        trs: Seq<Tr<W>>,
    )
        requires
            table_extends(old_table, new_table),
            state < old_table.len(),
            self.expanded_from(old_table, state, trs),
        ensures
            self.expanded_from(new_table, state, trs),
    {
        let m1 = self.compose_filter_builder.matcher1_spec();
        let m2 = self.compose_filter_builder.matcher2_spec();
        let f1: VectorFst<W> = *self.fst1;
        let f2: VectorFst<W> = *self.fst2;
        let s1 = old_table[state as int].s1;
        let s2 = old_table[state as int].s2;
        assert(new_table[state as int] == old_table[state as int]);
        lemma_pairs_extend(old_table, new_table);
        if self.match_type != MatchType::MatchOutput && forall|k: int| 0 <= k < trs.len() ==> #[trigger] composed(pairs_of(old_table), f1, f2, m1, m2, s1, s2, true, trs[k]) {
            lemma_composed_extend(pairs_of(old_table), pairs_of(new_table), f1, f2, m1, m2, s1, s2, true, trs);
        } else {
            lemma_composed_extend(pairs_of(old_table), pairs_of(new_table), f1, f2, m1, m2, s1, s2, false, trs);
        }
    }

    fn match_tr_selected(
        &mut self,
        sa: StateId,
        Ghost(sb): Ghost<StateId>,
        tr: &Tr<W>,
        match_input: bool,
        compose_filter: &mut CFB::CF,
        items: Vec<IterItemMatcher<W>>,
        trs: &mut Vec<Tr<W>>,
    ) -> (r: Result<(), FstError>)
        requires
            trs_within(old(trs)@, old(self).compose_state.state_table@.len()),
            old(compose_filter).filter_inv(),
            old(self).plain() ==> {
                &&& old(compose_filter).matcher1_spec() == old(self).compose_filter_builder.matcher1_spec()
                &&& old(compose_filter).matcher2_spec() == old(self).compose_filter_builder.matcher2_spec()
                &&& old(self).side_member(sb, match_input, *tr)
                &&& items@ == old(self).matches_of(sa, match_input, *tr)
                &&& forall|k: int| 0 <= k < old(trs)@.len() ==> #[trigger] old(self).composed_at(old(self).compose_state.state_table@, sa, sb, match_input, old(trs)@[k])
            },
        ensures
            final(self).same_config(old(self)),
            trs_within(final(trs)@, final(self).compose_state.state_table@.len()),
            usable_kept(old(compose_filter).matcher1_spec(), final(compose_filter).matcher1_spec()),
            usable_kept(old(compose_filter).matcher2_spec(), final(compose_filter).matcher2_spec()),
            final(compose_filter).filter_inv(),
            old(self).plain() ==> {
                &&& final(compose_filter).matcher1_spec() == old(compose_filter).matcher1_spec()
                &&& final(compose_filter).matcher2_spec() == old(compose_filter).matcher2_spec()
                &&& forall|k: int| 0 <= k < final(trs)@.len() ==> #[trigger] final(self).composed_at(final(self).compose_state.state_table@, sa, sb, match_input, final(trs)@[k])
            },
            filter_total::<W, M1, M2, CFB::CF>() ==> r is Ok,
            <CFB::CF as ComposeFilter<W, M1, M2>>::matchers_fixed_spec() ==> final(compose_filter).matcher1_spec() == old(compose_filter).matcher1_spec()
                && final(compose_filter).matcher2_spec() == old(compose_filter).matcher2_spec(),
            old(self).keeps_range() && old(self).table_in_range() && sa < old(self).side_len(!match_input)
                && tr.nextstate < old(self).side_len(match_input) && crate::matchers::items_within(items@, old(self).side_len(!match_input))
                ==> final(self).table_in_range(),
            final(trs)@.len() >= old(trs)@.len(),
            forall|k: int| 0 <= k < old(trs)@.len() ==> final(trs)@[k] == old(trs)@[k],
            r is Ok && old(self).plain() && <CFB::CF as ComposeFilter<W, M1, M2>>::passes_labels() ==> forall|j: int| 0 <= j < items@.len()
                ==> #[trigger] pair_covered(pairs_of(final(self).compose_state.state_table@), final(trs)@, *tr, items@[j], sa, match_input),
    {
        let match_type = if match_input { MatchType::MatchInput } else { MatchType::MatchOutput };
        let ghost start_self = *self;
        let ghost trs_in = trs@;

        let mut i: usize = 0;
        let n = items.len();
        while i < n
            invariant
                n == items@.len(),
                start_self == *old(self),
                self.same_config(&start_self),
                trs_within(trs@, self.compose_state.state_table@.len()),
                usable_kept(old(compose_filter).matcher1_spec(), compose_filter.matcher1_spec()),
                usable_kept(old(compose_filter).matcher2_spec(), compose_filter.matcher2_spec()),
                compose_filter.filter_inv(),
                match_type == MatchType::MatchInput || match_type == MatchType::MatchOutput,
                match_type == MatchType::MatchInput <==> match_input,
                <CFB::CF as ComposeFilter<W, M1, M2>>::matchers_fixed_spec() ==> compose_filter.matcher1_spec() == old(compose_filter).matcher1_spec()
                    && compose_filter.matcher2_spec() == old(compose_filter).matcher2_spec(),
                start_self.keeps_range() && start_self.table_in_range() && sa < start_self.side_len(!match_input)
                    && tr.nextstate < start_self.side_len(match_input) && crate::matchers::items_within(items@, start_self.side_len(!match_input))
                    ==> self.table_in_range(),
                start_self.plain() ==> {
                    &&& compose_filter.matcher1_spec() == old(compose_filter).matcher1_spec()
                    &&& compose_filter.matcher2_spec() == old(compose_filter).matcher2_spec()
                    &&& items@ == start_self.matches_of(sa, match_input, *tr)
                    &&& start_self.side_member(sb, match_input, *tr)
                    &&& forall|k: int| 0 <= k < trs@.len() ==> #[trigger] self.composed_at(self.compose_state.state_table@, sa, sb, match_input, trs@[k])
                },
                trs_in == old(trs)@,
                trs@.len() >= trs_in.len(),
                forall|k: int| 0 <= k < trs_in.len() ==> trs@[k] == trs_in[k],
                i <= n,
                start_self.plain() && <CFB::CF as ComposeFilter<W, M1, M2>>::passes_labels() ==> forall|j: int| 0 <= j < i
                    ==> #[trigger] pair_covered(pairs_of(self.compose_state.state_table@), trs@, *tr, items@[j], sa, match_input),
            decreases n - i,
        {
            let item = items[i].item_clone();
            let mut arca = item.into_tr(sa, match_type)?;
            let mut arcb = tr.tr_clone();
            let ghost table0 = self.compose_state.state_table@;
            let ghost trs0 = trs@;
            let ghost self0 = *self;
            let no_state = <<CFB::CF as ComposeFilter<W, M1, M2>>::FS as FilterState>::new_no_state();
            proof {
                if start_self.keeps_range() && start_self.table_in_range() && sa < start_self.side_len(!match_input)
                    && tr.nextstate < start_self.side_len(match_input) && crate::matchers::items_within(items@, start_self.side_len(!match_input)) {
                    assert(items@[i as int] == item);
                    assert(arca.nextstate < start_self.side_len(!match_input));
                }
            }
            if match_input {
                let fs = compose_filter.filter_tr(&mut arcb, &mut arca)?;
                proof {
                    if start_self.plain() && <CFB::CF as ComposeFilter<W, M1, M2>>::passes_labels() {
                        assert(arcb == *tr);
                        if regular_pair(arcb, arca) {
                            assert(fs != <<CFB::CF as ComposeFilter<W, M1, M2>>::FS as FilterState>::no_state_spec());
                        }
                    }
                }
                if !fs.fs_eq(&no_state) {
                    let t = self.add_tr(arcb, arca, fs);
                    trs.push(t);
                    proof {
                        if start_self.plain() && <CFB::CF as ComposeFilter<W, M1, M2>>::passes_labels() {
                            assert(items@[i as int] == item);
                            assert(arca == match_tr_of(item, sa, true));
                            let arcs = arcs_of(*tr, items@[i as int], sa, true);
                            assert(trs@[trs@.len() - 1] == t);
                            assert(joins(pairs_of(self.compose_state.state_table@), trs@[trs@.len() - 1], arcs.0, arcs.1));
                            assert(pair_covered(pairs_of(self.compose_state.state_table@), trs@, *tr, items@[i as int], sa, match_input));
                        }
                    }
                    proof {
                        if start_self.keeps_range() && start_self.table_in_range() && sa < start_self.side_len(!match_input)
                    && tr.nextstate < start_self.side_len(match_input) && crate::matchers::items_within(items@, start_self.side_len(!match_input)) {
                            assert forall|k: int| 0 <= k < self.compose_state.state_table@.len()
                                implies self.tuple_in_range(#[trigger] self.compose_state.state_table@[k]) by {
                                if k < table0.len() {
                                    assert(self.compose_state.state_table@[k] == table0[k]);
                                }
                            }
                        }
                        if start_self.plain() {
                            self.lemma_composed_grow(self0, table0, sa, sb, match_input, trs0);
                            assert(items@.contains(item));
                            assert(arca == match_tr_of(item, sa, true));
                            assert(joins(pairs_of(self.compose_state.state_table@), t, *tr, match_tr_of(item, sa, true)));
                            assert(self.composed_at(self.compose_state.state_table@, sa, sb, match_input, t));
                            assert forall|k: int| 0 <= k < trs@.len() implies #[trigger] self.composed_at(self.compose_state.state_table@, sa, sb, match_input, trs@[k]) by {
                                if k < trs0.len() {
                                    assert(trs@[k] == trs0[k]);
                                }
                            }
                        }
                    }
                }
            } else {
                let fs = compose_filter.filter_tr(&mut arca, &mut arcb)?;
                proof {
                    if start_self.plain() && <CFB::CF as ComposeFilter<W, M1, M2>>::passes_labels() {
                        assert(arcb == *tr);
                        if regular_pair(arca, arcb) {
                            assert(fs != <<CFB::CF as ComposeFilter<W, M1, M2>>::FS as FilterState>::no_state_spec());
                        }
                    }
                }
                if !fs.fs_eq(&no_state) {
                    let t = self.add_tr(arca, arcb, fs);
                    trs.push(t);
                    proof {
                        if start_self.plain() && <CFB::CF as ComposeFilter<W, M1, M2>>::passes_labels() {
                            assert(items@[i as int] == item);
                            assert(arca == match_tr_of(item, sa, false));
                            let arcs = arcs_of(*tr, items@[i as int], sa, false);
                            assert(trs@[trs@.len() - 1] == t);
                            assert(joins(pairs_of(self.compose_state.state_table@), trs@[trs@.len() - 1], arcs.0, arcs.1));
                            assert(pair_covered(pairs_of(self.compose_state.state_table@), trs@, *tr, items@[i as int], sa, match_input));
                        }
                    }
                    proof {
                        if start_self.keeps_range() && start_self.table_in_range() && sa < start_self.side_len(!match_input)
                    && tr.nextstate < start_self.side_len(match_input) && crate::matchers::items_within(items@, start_self.side_len(!match_input)) {
                            assert forall|k: int| 0 <= k < self.compose_state.state_table@.len()
                                implies self.tuple_in_range(#[trigger] self.compose_state.state_table@[k]) by {
                                if k < table0.len() {
                                    assert(self.compose_state.state_table@[k] == table0[k]);
                                }
                            }
                        }
                        if start_self.plain() {
                            self.lemma_composed_grow(self0, table0, sa, sb, match_input, trs0);
                            assert(items@.contains(item));
                            assert(arca == match_tr_of(item, sa, false));
                            assert(joins(pairs_of(self.compose_state.state_table@), t, match_tr_of(item, sa, false), *tr));
                            assert(self.composed_at(self.compose_state.state_table@, sa, sb, match_input, t));
                            assert forall|k: int| 0 <= k < trs@.len() implies #[trigger] self.composed_at(self.compose_state.state_table@, sa, sb, match_input, trs@[k]) by {
                                if k < trs0.len() {
                                    assert(trs@[k] == trs0[k]);
                                }
                            }
                        }
                    }
                }
            }
            proof {
                if start_self.plain() && <CFB::CF as ComposeFilter<W, M1, M2>>::passes_labels() {
                    let table = self.compose_state.state_table@;
                    lemma_pairs_extend(table0, table);
                    assert(items@[i as int] == item);
                    if trs@.len() == trs0.len() {
                        assert(trs@ == trs0);
                        assert(table == table0);
                        let arcs = arcs_of(*tr, items@[i as int], sa, match_input);
                        assert(arcb == *tr);
                        assert(arca == match_tr_of(item, sa, match_input));
                        assert(!regular_pair(arcs.0, arcs.1));
                    }
                    assert forall|j: int| 0 <= j < i + 1
                        implies #[trigger] pair_covered(pairs_of(table), trs@, *tr, items@[j], sa, match_input) by {
                        if j < i {
                            assert(pair_covered(pairs_of(table0), trs0, *tr, items@[j], sa, match_input));
                            lemma_covered_grow(pairs_of(table0), pairs_of(table), trs0, trs@, *tr, items@[j], sa, match_input);
                        }
                    }
                }
            }
            i += 1;
        }
        Ok(())
    }

    /// Transitions composed at some point stay composed as the table grows.
    proof fn lemma_composed_grow(
        &self,
        prev: Self,
        old_table: Seq<ComposeStateTuple<<<CFB as ComposeFilterBuilder<W, M1, M2>>::CF as ComposeFilter<W, M1, M2>>::FS>>,
        sa: StateId,
        sb: StateId,
        match_input: bool,
        trs: Seq<Tr<W>>,
    )
        requires
            self.compose_filter_builder == prev.compose_filter_builder,
            *self.fst1 == *prev.fst1,
            *self.fst2 == *prev.fst2,
            table_extends(old_table, self.compose_state.state_table@),
            forall|k: int| 0 <= k < trs.len() ==> #[trigger] prev.composed_at(old_table, sa, sb, match_input, trs[k]),
        ensures
            forall|k: int| 0 <= k < trs.len() ==> #[trigger] self.composed_at(self.compose_state.state_table@, sa, sb, match_input, trs[k]),
    {
        let m1 = self.compose_filter_builder.matcher1_spec();
        let m2 = self.compose_filter_builder.matcher2_spec();
        let f1: VectorFst<W> = *self.fst1;
        let f2: VectorFst<W> = *self.fst2;
        lemma_pairs_extend(old_table, self.compose_state.state_table@);
        if match_input {
            assert forall|k: int| 0 <= k < trs.len() implies #[trigger] composed(pairs_of(old_table), f1, f2, m1, m2, sb, sa, true, trs[k]) by {
                assert(prev.composed_at(old_table, sa, sb, match_input, trs[k]));
            }
            lemma_composed_extend(pairs_of(old_table), pairs_of(self.compose_state.state_table@), f1, f2, m1, m2, sb, sa, true, trs);
            assert forall|k: int| 0 <= k < trs.len() implies #[trigger] self.composed_at(self.compose_state.state_table@, sa, sb, match_input, trs[k]) by {
                assert(composed(pairs_of(self.compose_state.state_table@), f1, f2, m1, m2, sb, sa, true, trs[k]));
            }
        } else {
            assert forall|k: int| 0 <= k < trs.len() implies #[trigger] composed(pairs_of(old_table), f1, f2, m1, m2, sa, sb, false, trs[k]) by {
                assert(prev.composed_at(old_table, sa, sb, match_input, trs[k]));
            }
            lemma_composed_extend(pairs_of(old_table), pairs_of(self.compose_state.state_table@), f1, f2, m1, m2, sa, sb, false, trs);
            assert forall|k: int| 0 <= k < trs.len() implies #[trigger] self.composed_at(self.compose_state.state_table@, sa, sb, match_input, trs[k]) by {
                assert(composed(pairs_of(self.compose_state.state_table@), f1, f2, m1, m2, sa, sb, false, trs[k]));
            }
        }
    }

    fn match_tr(
        &mut self,
        sa: StateId,
        Ghost(sb): Ghost<StateId>,
        tr: &Tr<W>,
        match_input: bool,
        compose_filter: &mut CFB::CF,
        selector: Selector,
        trs: &mut Vec<Tr<W>>,
    ) -> (r: Result<(), FstError>)
        requires
            old(self).inv(),
            selected_usable(old(compose_filter).matcher1_spec(), old(compose_filter).matcher2_spec(), selector),
            trs_within(old(trs)@, old(self).compose_state.state_table@.len()),
            old(compose_filter).filter_inv(),
            (selector == Selector::Fst1Matcher2) == match_input,
            old(self).plain() ==> {
                &&& old(compose_filter).matcher1_spec() == old(self).compose_filter_builder.matcher1_spec()
                &&& old(compose_filter).matcher2_spec() == old(self).compose_filter_builder.matcher2_spec()
                &&& old(self).side_member(sb, match_input, *tr)
                &&& forall|k: int| 0 <= k < old(trs)@.len() ==> #[trigger] old(self).composed_at(old(self).compose_state.state_table@, sa, sb, match_input, old(trs)@[k])
            },
        ensures
            final(self).same_config(old(self)),
            final(self).inv(),
            trs_within(final(trs)@, final(self).compose_state.state_table@.len()),
            usable_kept(old(compose_filter).matcher1_spec(), final(compose_filter).matcher1_spec()),
            usable_kept(old(compose_filter).matcher2_spec(), final(compose_filter).matcher2_spec()),
            final(compose_filter).filter_inv(),
            old(self).plain() ==> {
                &&& final(compose_filter).matcher1_spec() == old(compose_filter).matcher1_spec()
                &&& final(compose_filter).matcher2_spec() == old(compose_filter).matcher2_spec()
                &&& forall|k: int| 0 <= k < final(trs)@.len() ==> #[trigger] final(self).composed_at(final(self).compose_state.state_table@, sa, sb, match_input, final(trs)@[k])
            },
            filter_total::<W, M1, M2, CFB::CF>() && selected_iterates(old(compose_filter).matcher1_spec(), old(compose_filter).matcher2_spec(), selector, sa)
                ==> r is Ok,
            old(self).keeps_range() && old(self).table_in_range() && sa < old(self).side_len(!match_input)
                && tr.nextstate < old(self).side_len(match_input) ==> final(self).table_in_range(),
            <CFB::CF as ComposeFilter<W, M1, M2>>::matchers_fixed_spec() ==> final(compose_filter).matcher1_spec() == old(compose_filter).matcher1_spec()
                && final(compose_filter).matcher2_spec() == old(compose_filter).matcher2_spec(),
            final(trs)@.len() >= old(trs)@.len(),
            forall|k: int| 0 <= k < old(trs)@.len() ==> final(trs)@[k] == old(trs)@[k],
            r is Ok && old(self).plain() && <CFB::CF as ComposeFilter<W, M1, M2>>::passes_labels() ==> forall|a: IterItemMatcher<W>|
                old(self).matches_of(sa, match_input, *tr).contains(a)
                ==> #[trigger] pair_covered(pairs_of(final(self).compose_state.state_table@), final(trs)@, *tr, a, sa, match_input),
    {
        let label = if match_input { tr.olabel } else { tr.ilabel };
        let items = match selector {
            Selector::Fst2Matcher1 => compose_filter.matcher1().iter(sa, label)?,
            Selector::Fst1Matcher2 => compose_filter.matcher2().iter(sa, label)?,
        };
        proof {
            if self.keeps_range() && sa < self.side_len(!match_input) {
                match selector {
                    Selector::Fst2Matcher1 => {
                        compose_filter.matcher1_spec().lemma_iter_within(sa, label);
                    },
                    Selector::Fst1Matcher2 => {
                        compose_filter.matcher2_spec().lemma_iter_within(sa, label);
                    },
                }
            }
        }
        let ghost its = items@;
        let ghost pre = *self;
        let r = self.match_tr_selected(sa, Ghost(sb), tr, match_input, compose_filter, items, trs);
        proof {
            if r is Ok && pre.plain() && <CFB::CF as ComposeFilter<W, M1, M2>>::passes_labels() {
                assert(its == pre.matches_of(sa, match_input, *tr));
                assert forall|a: IterItemMatcher<W>| pre.matches_of(sa, match_input, *tr).contains(a)
                    implies #[trigger] pair_covered(pairs_of(self.compose_state.state_table@), trs@, *tr, a, sa, match_input) by {
                    let j = choose|j: int| 0 <= j < its.len() && its[j] == a;
                    assert(pair_covered(pairs_of(self.compose_state.state_table@), trs@, *tr, its[j], sa, match_input));
                }
            }
        }
        r
    }

    fn ordered_expand(
        &mut self,
        sa: StateId,
        sb: StateId,
        match_input: bool,
        compose_filter: CFB::CF,
        selector: Selector,
    ) -> (r: Result<Vec<Tr<W>>, FstError>)
        requires
            old(self).inv(),
            compose_filter.filter_inv(),
            selected_usable(compose_filter.matcher1_spec(), compose_filter.matcher2_spec(), selector),
            (selector == Selector::Fst1Matcher2) == match_input,
            old(self).plain() ==> compose_filter.matcher1_spec() == old(self).compose_filter_builder.matcher1_spec()
                && compose_filter.matcher2_spec() == old(self).compose_filter_builder.matcher2_spec(),
        ensures
            final(self).same_config(old(self)),
            final(self).inv(),
            r matches Ok(v) ==> trs_within(v@, final(self).compose_state.state_table@.len()),
            old(self).plain() ==> (r matches Ok(v) ==> forall|k: int| 0 <= k < v@.len() ==> #[trigger] final(self).composed_at(
                final(self).compose_state.state_table@,
                sa,
                sb,
                match_input,
                v@[k],
            )),
            filter_total::<W, M1, M2, CFB::CF>() && <CFB::CF as ComposeFilter<W, M1, M2>>::matchers_fixed_spec()
                && selected_iterates(compose_filter.matcher1_spec(), compose_filter.matcher2_spec(), selector, sa)
                && sb < (if match_input { old(self).fst1.states@.len() } else { old(self).fst2.states@.len() }) ==> r is Ok,
            old(self).keeps_range() && old(self).table_in_range() && sa < old(self).side_len(!match_input)
                && sb < old(self).side_len(match_input) ==> final(self).table_in_range(),
            old(self).plain() && <CFB::CF as ComposeFilter<W, M1, M2>>::passes_labels() ==> (r matches Ok(v) ==> final(self).side_complete(
                final(self).compose_state.state_table@, sa, sb, match_input, v@)),
    {
        let mut cf = compose_filter;
        let tr_loop = if match_input {
            Tr::new(EPS_LABEL, NO_LABEL, W::one(), sb)
        } else {
            Tr::new(NO_LABEL, EPS_LABEL, W::one(), sb)
        };
        let mut trs: Vec<Tr<W>> = Vec::new();
        let ghost start_self = *self;
        self.match_tr(sa, Ghost(sb), &tr_loop, match_input, &mut cf, selector, &mut trs)?;
        let fst = match selector {
            Selector::Fst1Matcher2 => arc_clone(&self.fst1),
            Selector::Fst2Matcher1 => arc_clone(&self.fst2),
        };
        let fst_trs = fst.get_trs(sb)?;
        let mut i: usize = 0;
        while i < fst_trs.len()
            invariant
                start_self == *old(self),
                self.same_config(&start_self),
                self.inv(),
                trs_within(trs@, self.compose_state.state_table@.len()),
                cf.filter_inv(),
                selected_usable(cf.matcher1_spec(), cf.matcher2_spec(), selector),
                (selector == Selector::Fst1Matcher2) == match_input,
                match_input ==> *fst == *self.fst1,
                !match_input ==> *fst == *self.fst2,
                sb < fst.states@.len(),
                filter_total::<W, M1, M2, CFB::CF>() && <CFB::CF as ComposeFilter<W, M1, M2>>::matchers_fixed_spec()
                    && selected_iterates(compose_filter.matcher1_spec(), compose_filter.matcher2_spec(), selector, sa)
                    ==> selected_iterates(cf.matcher1_spec(), cf.matcher2_spec(), selector, sa),
                start_self.keeps_range() && start_self.table_in_range() && sa < start_self.side_len(!match_input)
                    && sb < start_self.side_len(match_input) ==> self.table_in_range(),
                fst_trs@ == fst.states@[sb as int].trs@,
                start_self.plain() ==> {
                    &&& cf.matcher1_spec() == self.compose_filter_builder.matcher1_spec()
                    &&& cf.matcher2_spec() == self.compose_filter_builder.matcher2_spec()
                    &&& forall|k: int| 0 <= k < trs@.len() ==> #[trigger] self.composed_at(self.compose_state.state_table@, sa, sb, match_input, trs@[k])
                },
                i <= fst_trs@.len(),
                start_self.plain() && <CFB::CF as ComposeFilter<W, M1, M2>>::passes_labels() ==> forall|j: int, a: IterItemMatcher<W>|
                    0 <= j < i && self.matches_of(sa, match_input, fst_trs@[j]).contains(a)
                    ==> #[trigger] pair_covered(pairs_of(self.compose_state.state_table@), trs@, fst_trs@[j], a, sa, match_input),
            decreases fst_trs@.len() - i,
        {
            proof {
                assert(fst_trs@.contains(fst_trs@[i as int]));
                if start_self.keeps_range() {
                    assert(fst_trs@[i as int].nextstate < fst.states@.len());
                }
            }
            let ghost table0 = self.compose_state.state_table@;
            let ghost trs0 = trs@;
            let ghost self0 = *self;
            self.match_tr(sa, Ghost(sb), &fst_trs[i], match_input, &mut cf, selector, &mut trs)?;
            proof {
                if start_self.plain() && <CFB::CF as ComposeFilter<W, M1, M2>>::passes_labels() {
                    let table = self.compose_state.state_table@;
                    lemma_pairs_extend(table0, table);
                    assert forall|j: int, a: IterItemMatcher<W>|
                        0 <= j < i + 1 && self.matches_of(sa, match_input, fst_trs@[j]).contains(a)
                        implies #[trigger] pair_covered(pairs_of(table), trs@, fst_trs@[j], a, sa, match_input) by {
                        if j < i {
                            assert(self0.matches_of(sa, match_input, fst_trs@[j]).contains(a));
                            assert(pair_covered(pairs_of(table0), trs0, fst_trs@[j], a, sa, match_input));
                            lemma_covered_grow(pairs_of(table0), pairs_of(table), trs0, trs@, fst_trs@[j], a, sa, match_input);
                        } else {
                            assert(self0.matches_of(sa, match_input, fst_trs@[i as int]).contains(a));
                        }
                    }
                }
            }
            i += 1;
        }
        proof {
            if start_self.plain() && <CFB::CF as ComposeFilter<W, M1, M2>>::passes_labels() {
                let table = self.compose_state.state_table@;
                assert forall|j: int, a: IterItemMatcher<W>|
                    0 <= j < fst_trs@.len() && self.matches_of(sa, match_input, fst_trs@[j]).contains(a)
                    implies #[trigger] pair_covered(pairs_of(table), trs@, fst_trs@[j], a, sa, match_input) by {
                }
                if match_input {
                    assert(fst_trs@ == self.fst1.states@[sb as int].trs@);
                } else {
                    assert(fst_trs@ == self.fst2.states@[sb as int].trs@);
                }
            }
        }
        Ok(trs)
    }

    /// The start state of the composition: the tuple of both start states.
    pub fn compute_start(&mut self) -> (r: Result<Option<StateId>, FstError>)
        requires
            old(self).inv(),
        ensures
            final(self).same_config(old(self)),
            final(self).inv(),
            r matches Ok(Some(s)) ==> (s < final(self).compose_state.state_table@.len()
                && old(self).fst1.start_state == Some(final(self).compose_state.state_table@[s as int].s1)
                && old(self).fst2.start_state == Some(final(self).compose_state.state_table@[s as int].s2)),
            (old(self).fst1.start_state is None || old(self).fst2.start_state is None) ==> !(r matches Ok(Some(_))),
            (old(self).fst1.start_state is Some && old(self).fst2.start_state is Some) ==> !(r matches Ok(None)),
            r matches Ok(None) ==> final(self).compose_state.state_table@ == old(self).compose_state.state_table@,
            old(self).compose_state.state_table@.len() == 0 ==> (r matches Ok(Some(s)) ==> s == 0),
            old(self).compose_filter_builder.build_ok() ==> r is Ok,
            old(self).keeps_range() && old(self).table_in_range() ==> final(self).table_in_range(),
    {
        let compose_filter = self.compose_filter_builder.build()?;
        let s1 = match self.fst1.start() {
            Some(s) => s,
            None => return Ok(None),
        };
        let s2 = match self.fst2.start() {
            Some(s) => s,
            None => return Ok(None),
        };
        let fs = compose_filter.start();
        let tuple = ComposeStateTuple { fs, s1, s2 };
        let ghost table0 = self.compose_state.state_table@;
        let id = self.compose_state.find_id(tuple);
        proof {
            if self.keeps_range() && old(self).table_in_range() {
                assert(self.tuple_in_range(tuple));
                assert forall|t: int| 0 <= t < self.compose_state.state_table@.len()
                    implies self.tuple_in_range(#[trigger] self.compose_state.state_table@[t]) by {
                    if t < table0.len() {
                        assert(self.compose_state.state_table@[t] == table0[t]);
                    }
                }
            }
        }
        Ok(Some(id))
    }

    /// The transitions leaving a state of the composition.
    pub fn compute_trs(&mut self, state: StateId) -> (r: Result<Vec<Tr<W>>, FstError>)
        requires
            old(self).inv(),
            state < old(self).compose_state.state_table@.len(),
        ensures
            final(self).same_config(old(self)),
            final(self).inv(),
            r matches Ok(v) ==> trs_within(v@, final(self).compose_state.state_table@.len()),
            old(self).plain() ==> (r matches Ok(v) ==> final(self).expanded_from(final(self).compose_state.state_table@, state, v@)),
            old(self).plain() && <CFB::CF as ComposeFilter<W, M1, M2>>::passes_labels() ==> (r matches Ok(v) ==> final(self).expanded_full(final(self).compose_state.state_table@, state, v@)),
            old(self).never_fails() && old(self).tuple_in_range(old(self).compose_state.state_table@[state as int]) ==> r is Ok,
            old(self).keeps_range() && old(self).table_in_range() ==> final(self).table_in_range(),
    {
        let ghost start_self = *self;
        let tuple = &self.compose_state.state_table[state];
        proof {
            if self.table_in_range() {
                assert(self.tuple_in_range(self.compose_state.state_table@[state as int]));
            }
        }
        let s1 = tuple.s1;
        let s2 = tuple.s2;
        let fs = tuple.fs.fs_clone();
        let mut compose_filter = self.compose_filter_builder.build()?;
        compose_filter.set_state(s1, s2, &fs)?;
        if self.match_input(s1, s2, &compose_filter)? {
            let r = self.ordered_expand(s2, s1, true, compose_filter, Selector::Fst1Matcher2);
            proof {
                if start_self.plain() && r is Ok {
                    let v = r->Ok_0;
                    let table = self.compose_state.state_table@;
                    assert(table[state as int] == start_self.compose_state.state_table@[state as int]);
                    assert forall|k: int| 0 <= k < v@.len() implies #[trigger] composed(pairs_of(table), *self.fst1, *self.fst2, self.compose_filter_builder.matcher1_spec(), self.compose_filter_builder.matcher2_spec(), s1, s2, true, v@[k]) by {
                        assert(self.composed_at(table, s2, s1, true, v@[k]));
                    }
                }
            }
            r
        } else {
            let r = self.ordered_expand(s1, s2, false, compose_filter, Selector::Fst2Matcher1);
            proof {
                if start_self.plain() && r is Ok {
                    let v = r->Ok_0;
                    let table = self.compose_state.state_table@;
                    assert(table[state as int] == start_self.compose_state.state_table@[state as int]);
                    assert forall|k: int| 0 <= k < v@.len() implies #[trigger] composed(pairs_of(table), *self.fst1, *self.fst2, self.compose_filter_builder.matcher1_spec(), self.compose_filter_builder.matcher2_spec(), s1, s2, false, v@[k]) by {
                        assert(self.composed_at(table, s1, s2, false, v@[k]));
                    }
                }
            }
            r
        }
    }

    /// The final weight of a state of the composition.
    pub fn compute_final_weight(&self, state: StateId) -> (r: Result<Option<W>, FstError>)
        requires
            state < self.compose_state.state_table@.len(),
            self.compose_filter_builder.builder_inv(),
        ensures
            r matches Ok(Some(w)) ==> w != W::zero_spec(),
            self.plain() ==> (r matches Ok(o) ==> o == final_product(
                self.compose_filter_builder.matcher1_spec().fst_spec().states@[self.compose_state.state_table@[state as int].s1 as int].final_weight,
                self.compose_filter_builder.matcher2_spec().fst_spec().states@[self.compose_state.state_table@[state as int].s2 as int].final_weight,
            )),
            self.never_fails() && self.tuple_in_range(self.compose_state.state_table@[state as int]) ==> r is Ok,
    {
        let tuple = &self.compose_state.state_table[state];
        let mut compose_filter = self.compose_filter_builder.build()?;
        let s1 = tuple.s1;
        let final1 = compose_filter.matcher1().final_weight(s1)?;
        let mut final1 = match final1 {
            None => return Ok(None),
            Some(w) => w,
        };
        let s2 = tuple.s2;
        let final2 = compose_filter.matcher2().final_weight(s2)?;
        let mut final2 = match final2 {
            None => return Ok(None),
            Some(w) => w,
        };
        let fs = tuple.fs.fs_clone();
        compose_filter.set_state(s1, s2, &fs)?;
        compose_filter.filter_final(&mut final1, &mut final2)?;
        let w = final1.times(&final2);
        if w.is_zero() {
            Ok(None)
        } else {
            Ok(Some(w))
        }
    }

    /// Expands every state of the composition that is reachable from its start.
    pub fn compute(&mut self) -> (r: Result<VectorFst<W>, FstError>)
        requires
            old(self).inv(),
            old(self).compose_state.state_table@.len() == 0,
        ensures
            r matches Ok(f) ==> f.wf() && f.states@.len() == final(self).compose_state.state_table@.len()
                && (f.start_state is Some ==> (f.start_state == Some(0usize)
                && old(self).fst1.start_state == Some(final(self).compose_state.state_table@[0].s1)
                && old(self).fst2.start_state == Some(final(self).compose_state.state_table@[0].s2)))
                && ((old(self).fst1.start_state is None || old(self).fst2.start_state is None) ==> f.states@.len() == 0 && f.start_state is None)
                && ((old(self).fst1.start_state is Some && old(self).fst2.start_state is Some) ==> f.start_state == Some(0usize)),
            old(self).plain() ==> (r matches Ok(f) ==> forall|q: int| 0 <= q < f.states@.len() ==>
                final(self).state_built(final(self).compose_state.state_table@, q as StateId, #[trigger] f.states@[q])),
            old(self).plain() && old(self).compose_filter_builder.matcher1_spec().fst_spec() == *old(self).fst1
                && old(self).compose_filter_builder.matcher2_spec().fst_spec() == *old(self).fst2
                ==> (r matches Ok(f) ==> composition_of(f, *old(self).fst1, *old(self).fst2,
                old(self).compose_filter_builder.matcher1_spec(), old(self).compose_filter_builder.matcher2_spec())),
            old(self).plain() && <CFB::CF as ComposeFilter<W, M1, M2>>::passes_labels() && old(self).compose_filter_builder.matcher1_spec().fst_spec() == *old(self).fst1
                && old(self).compose_filter_builder.matcher2_spec().fst_spec() == *old(self).fst2
                ==> (r matches Ok(f) ==> composition_full(f, *old(self).fst1, *old(self).fst2,
                old(self).compose_filter_builder.matcher1_spec(), old(self).compose_filter_builder.matcher2_spec())),
            old(self).never_fails() && (forall|t: int| 0 <= t < final(self).compose_state.state_table@.len()
                ==> old(self).tuple_in_range(#[trigger] final(self).compose_state.state_table@[t])) ==> r is Ok,
            old(self).never_fails() && old(self).keeps_range() ==> r is Ok,
    {
        let ghost start_self = *self;
        proof {
            assert(self.compose_state.state_table@.len() == 0);
        }
        let start = self.compute_start()?;
        let ghost after_start = *self;
        let mut states: Vec<FstState<W>> = Vec::new();
        let mut s: usize = 0;
        while s < self.compose_state.state_table.len()
            invariant
                self.inv(),
                self.same_config(&start_self),
                self.same_config(&after_start),
                start_self == *old(self),
                start matches Some(st) ==> (st == 0 && after_start.compose_state.state_table@.len() > 0
                    && old(self).fst1.start_state == Some(after_start.compose_state.state_table@[0].s1)
                    && old(self).fst2.start_state == Some(after_start.compose_state.state_table@[0].s2)),
                states@.len() == s,
                s <= self.compose_state.state_table@.len(),
                forall|q: int| 0 <= q < s ==> trs_within(#[trigger] states@[q].trs@, self.compose_state.state_table@.len()),
                start is None ==> self.compose_state.state_table@.len() == 0,
                start_self.keeps_range() ==> self.table_in_range(),
                start_self.plain() ==> forall|q: int| 0 <= q < s ==>
                    self.state_built(self.compose_state.state_table@, q as StateId, #[trigger] states@[q]),
                start_self.plain() && <CFB::CF as ComposeFilter<W, M1, M2>>::passes_labels() ==> forall|q: int| 0 <= q < s ==>
                    self.expanded_full(self.compose_state.state_table@, q as StateId, (#[trigger] states@[q]).trs@),
            decreases usize::MAX - s,
        {
            let ghost table0 = self.compose_state.state_table@;
            let ghost states0 = states@;
            let ghost self0 = *self;
            let trs = self.compute_trs(s)?;
            let final_weight = self.compute_final_weight(s)?;
            states.push(FstState { final_weight, trs });
            proof {
                if start_self.plain() {
                    let table = self.compose_state.state_table@;
                    assert forall|q: int| 0 <= q < s + 1 implies self.state_built(table, q as StateId, #[trigger] states@[q]) by {
                        if q < s {
                            assert(states@[q] == states0[q]);
                            assert(self0.state_built(table0, q as StateId, states0[q]));
                            self.lemma_expanded_extend(table0, table, q as StateId, states0[q].trs@);
                            assert(table[q] == table0[q]);
                        } else {
                            assert(states@[q].trs@ == trs@);
                            assert(self.expanded_from(table, s, trs@));
                            assert(states@[q].final_weight == final_weight);
                        }
                    }
                }
                if start_self.plain() && <CFB::CF as ComposeFilter<W, M1, M2>>::passes_labels() {
                    let table = self.compose_state.state_table@;
                    assert forall|q: int| 0 <= q < s + 1 implies self.expanded_full(table, q as StateId, (#[trigger] states@[q]).trs@) by {
                        if q < s {
                            assert(states@[q] == states0[q]);
                            assert(self0.expanded_full(table0, q as StateId, states0[q].trs@));
                            self.lemma_expanded_full_extend(table0, table, q as StateId, states0[q].trs@);
                        } else {
                            assert(states@[q].trs@ == trs@);
                        }
                    }
                }
            }
            s += 1;
        }
        let f = VectorFst { states, start_state: start };
        proof {
            assert forall|q: int, k: int|
                0 <= q < f.states@.len() && 0 <= k < f.states@[q].trs@.len()
                    implies #[trigger] f.states@[q].trs@[k].nextstate < f.states@.len() by {
                assert(trs_within(f.states@[q].trs@, self.compose_state.state_table@.len()));
            }
            let f1: VectorFst<W> = *self.fst1;
            let f2: VectorFst<W> = *self.fst2;
            if start_self.plain() && self.compose_filter_builder.matcher1_spec().fst_spec() == f1
                && self.compose_filter_builder.matcher2_spec().fst_spec() == f2 {
                let table = self.compose_state.state_table@;
                let pairs = pairs_of(table);
                let m1 = self.compose_filter_builder.matcher1_spec();
                let m2 = self.compose_filter_builder.matcher2_spec();
                assert forall|q: int| 0 <= q < pairs.len() implies #[trigger] state_composed(f.states@[q], f1, f2, m1, m2, pairs, pairs[q]) by {
                    assert(self.state_built(table, q as StateId, f.states@[q]));
                }
                assert(composition_by(f, f1, f2, m1, m2, pairs));
                if <CFB::CF as ComposeFilter<W, M1, M2>>::passes_labels() {
                    assert forall|q: int| 0 <= q < pairs.len() implies #[trigger] state_full(f.states@[q], f1, f2, m1, m2, pairs, pairs[q]) by {
                        assert(self.expanded_full(table, q as StateId, f.states@[q].trs@));
                        assert(pairs[q] == (table[q].s1, table[q].s2));
                    }
                    assert(composition_full(f, f1, f2, m1, m2));
                }
            }
        }
        Ok(f)
    }
}

/// The options type of a composition.
pub type ComposeFstOptionsOf<W, M1, M2, CFB> = ComposeFstOpOptions<
    M1,
    M2,
    CFB,
    ComposeFstOpState<<<CFB as ComposeFilterBuilder<W, M1, M2>>::CF as ComposeFilter<W, M1, M2>>::FS>,
>;

} // verus!
