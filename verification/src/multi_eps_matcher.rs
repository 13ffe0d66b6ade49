use vstd::prelude::*;

use std::collections::BTreeSet;
use std::marker::PhantomData;
use std::sync::Arc;

use crate::fst::{FstError, VectorFst};
use crate::matchers::{items_within, IterItemMatcher, MatchType, Matcher, MatcherFlags};
use crate::semirings::Semiring;
use crate::shared::arc_clone;
use crate::{Label, StateId, EPS_LABEL, NO_LABEL};
use vstd::std_specs::btree::increasing_seq;
use vstd::std_specs::iter::IteratorSpec;
use vstd::std_specs::cmp::OrdSpec;

verus! {

broadcast use vstd::std_specs::btree::group_btree_axioms, vstd::laws_cmp::group_laws_cmp;

/// A set of keys that remembers bounds on them, so that membership in a
/// dense range is answered without a lookup. `no_key` marks unset bounds.
pub struct CompactSet {
    pub set: BTreeSet<usize>,
    pub min_key: usize,
    pub max_key: usize,
    pub no_key: usize,
}

/// What `contains` answers: out of the bounds nothing is in; when the bounds
/// span exactly as many keys as the set holds, everything between them is.
pub open spec fn compact_contains_spec(set: Set<usize>, min_key: usize, max_key: usize, no_key: usize, key: usize) -> bool {
    if min_key == no_key || key < min_key || key > max_key {
        false
    } else if max_key + 1 == min_key + set.len() {
        true
    } else {
        set.contains(key)
    }
}

/// The keys listed in increasing order, each once.
pub open spec fn increasing_keys(keys: Seq<usize>) -> bool {
    forall|i: int, j: int| 0 <= i < j < keys.len() ==> keys[i] < keys[j]
}

/// A set's keys come out of its iterator in increasing order, each once.
proof fn lemma_keys_in_order(set: &BTreeSet<usize>)
    ensures
        vstd::std_specs::btree::spec_btree_keys_iter(set).remaining().unref().to_set() == set@,
        forall|i: int, j: int| 0 <= i < j < vstd::std_specs::btree::spec_btree_keys_iter(set).remaining().len()
            ==> *vstd::std_specs::btree::spec_btree_keys_iter(set).remaining()[i]
                < *vstd::std_specs::btree::spec_btree_keys_iter(set).remaining()[j],
{
    let ks = vstd::std_specs::btree::spec_btree_keys_iter(set).remaining();
    assert(vstd::laws_cmp::obeys_cmp::<usize>());
    assert(vstd::laws_cmp::obeys_cmp::<&usize>());
    assert(increasing_seq(ks));
    assert forall|i: int, j: int| 0 <= i < j < ks.len() implies *ks[i] < *ks[j] by {
        assert(OrdSpec::cmp_spec(&ks[i], &ks[j]) is Less);
    }
}

impl CompactSet {
    pub open spec fn view(&self) -> Set<usize> {
        self.set@
    }

    pub fn new(no_key: usize) -> (r: Self)
        ensures
            r.set@ == Set::<usize>::empty(),
            r.min_key == no_key,
            r.max_key == no_key,
            r.no_key == no_key,
    {
        CompactSet { set: BTreeSet::new(), min_key: no_key, max_key: no_key, no_key }
    }

    /// Adds a key; the lower bound drops to it when it is below, and the
    /// upper bound is moved to the key when it is below the bound.
    pub fn insert(&mut self, key: usize)
        ensures
            final(self).set@ == old(self).set@.insert(key),
            final(self).no_key == old(self).no_key,
            final(self).min_key == (if old(self).min_key == old(self).no_key || key < old(self).min_key { key } else { old(self).min_key }),
            final(self).max_key == (if old(self).max_key == old(self).no_key || old(self).max_key > key { key } else { old(self).max_key }),
    {
        self.set.insert(key);
        if self.min_key == self.no_key || key < self.min_key {
            self.min_key = key;
        }
        if self.max_key == self.no_key || self.max_key > key {
            self.max_key = key;
        }
    }

    pub fn clear(&mut self)
        ensures
            final(self).set@ == Set::<usize>::empty(),
            final(self).no_key == old(self).no_key,
            final(self).min_key == old(self).no_key,
            final(self).max_key == old(self).no_key,
    {
        self.set.clear();
        self.min_key = self.no_key;
        self.max_key = self.no_key;
    }

    /// The keys in increasing order.
    pub fn iter(&self) -> (r: Vec<usize>)
        ensures
            r@.to_set() == self.set@,
            increasing_keys(r@),
    {
        let mut r: Vec<usize> = Vec::new();
        let ghost keys = vstd::std_specs::btree::spec_btree_keys_iter(&self.set).remaining();
        proof {
            lemma_keys_in_order(&self.set);
        }
        for k in it: self.set.iter()
            invariant
                it.seq() == keys,
                r@ == keys.unref().take(it.index() as int),
        {
            r.push(*k);
            assert(r@ =~= keys.unref().take(it.index() + 1));
        }
        assert(r@ =~= keys.unref());
        r
    }

    pub fn lower_bound(&self) -> (k: usize)
        ensures
            k == self.min_key,
    {
        self.min_key
    }

    pub fn upper_bound(&self) -> (k: usize)
        ensures
            k == self.max_key,
    {
        self.max_key
    }

    /// Removes a key; the bounds are reset when the set becomes empty, else the
    /// bound the key sat on moves inward by one.
    pub fn erase(&mut self, key: usize)
        requires
            old(self).set@.remove(key) != Set::<usize>::empty() && key == old(self).min_key ==> key < usize::MAX,
            old(self).set@.remove(key) != Set::<usize>::empty() && key != old(self).min_key && key == old(self).max_key ==> key > 0,
        ensures
            final(self).set@ == old(self).set@.remove(key),
            final(self).no_key == old(self).no_key,
            old(self).set@.remove(key) == Set::<usize>::empty() ==> final(self).min_key == old(self).no_key && final(self).max_key
                == old(self).no_key,
            old(self).set@.remove(key) != Set::<usize>::empty() ==> final(self).min_key == (if key == old(self).min_key { (key + 1) as usize } else { old(self).min_key })
                && final(self).max_key == (if key != old(self).min_key && key == old(self).max_key { (key - 1) as usize } else { old(self).max_key }),
    {
        self.set.remove(&key);
        if self.set.is_empty() {
            self.min_key = self.no_key;
            self.max_key = self.no_key;
        } else if key == self.min_key {
            self.min_key = self.min_key + 1;
        } else if key == self.max_key {
            self.max_key = self.max_key - 1;
        }
    }

    pub fn contains(&self, key: usize) -> (b: bool)
        ensures
            b == compact_contains_spec(self.set@, self.min_key, self.max_key, self.no_key, key),
    {
        if self.min_key == self.no_key || key < self.min_key || key > self.max_key {
            false
        } else if (self.max_key as u128) + 1 == (self.min_key as u128) + (self.set.len() as u128) {
            true
        } else {
            self.set.contains(&key)
        }
    }
}

/// Flags of a multi-epsilon matcher, one bit per flag.
#[derive(Copy, Debug, PartialEq, Eq, Structural, Clone)]
pub struct MultiEpsMatcherFlags {
    pub bits: u32,
}

pub open spec fn multi_eps_flags_contain(a: MultiEpsMatcherFlags, b: MultiEpsMatcherFlags) -> bool {
    (a.bits & b.bits) == b.bits
}

/// The multi-epsilon labels count as epsilon when matching them: the
/// matcher answers them with an epsilon self-loop.
pub open spec fn loop_flag(f: MultiEpsMatcherFlags) -> bool {
    multi_eps_flags_contain(f, MultiEpsMatcherFlags { bits: 1u32 })
}

/// Matching the no-label also matches the multi-epsilon labels.
pub open spec fn list_flag(f: MultiEpsMatcherFlags) -> bool {
    multi_eps_flags_contain(f, MultiEpsMatcherFlags { bits: 2u32 })
}

impl MultiEpsMatcherFlags {
    pub fn multi_eps_loop() -> (r: Self)
        ensures
            r.bits == 1,
    {
        MultiEpsMatcherFlags { bits: 1 }
    }

    pub fn multi_eps_list() -> (r: Self)
        ensures
            r.bits == 2,
    {
        MultiEpsMatcherFlags { bits: 2 }
    }

    /// Whether every flag of `other` is set in `self`.
    pub fn contains(&self, other: MultiEpsMatcherFlags) -> (b: bool)
        ensures
            b == multi_eps_flags_contain(*self, other),
    {
        (self.bits & other.bits) == other.bits
    }

    /// The flags set in `self` or in `other`.
    pub fn union(&self, other: MultiEpsMatcherFlags) -> (r: MultiEpsMatcherFlags)
        ensures
            r.bits == (self.bits | other.bits),
    {
        MultiEpsMatcherFlags { bits: self.bits | other.bits }
    }
}

/// A matcher that treats a set of labels (the multi-epsilon labels) like
/// epsilon, on top of another matcher.
pub struct MultiEpsMatcher<W, M> {
    pub matcher: Arc<M>,
    pub flags: MultiEpsMatcherFlags,
    pub multi_eps_labels: CompactSet,
    pub phantom: PhantomData<W>,
}

/// `l` is a multi-epsilon label that has matches at the state.
pub open spec fn matched_label<W: Semiring, M: Matcher<W>>(m: M, state: StateId, labels: Set<usize>, l: usize) -> bool {
    labels.contains(l) && m.iter_spec(state, l).len() > 0
}

/// Some multi-epsilon label has matches at the state.
pub open spec fn some_matched<W: Semiring, M: Matcher<W>>(m: M, state: StateId, labels: Set<usize>) -> bool {
    exists|l: usize| #[trigger] matched_label(m, state, labels, l)
}

/// Some multi-epsilon label above `p` has matches at the state.
pub open spec fn some_matched_above<W: Semiring, M: Matcher<W>>(m: M, state: StateId, labels: Set<usize>, p: usize) -> bool {
    exists|l: usize| #[trigger] matched_label(m, state, labels, l) && l > p
}

/// The smallest multi-epsilon label that has matches at the state.
pub open spec fn least_matched_label<W: Semiring, M: Matcher<W>>(m: M, state: StateId, labels: Set<usize>) -> usize {
    choose|p: usize| matched_label(m, state, labels, p) && forall|l: usize| #[trigger] matched_label(m, state, labels, l) ==> p <= l
}

/// What matching the no-label yields over a list of multi-epsilon labels:
/// the matches of the smallest label that has some, followed by those of
/// the no-label when no larger label has matches; the matches of the
/// no-label alone when no label has any.
#[verifier::opaque]
pub open spec fn multi_eps_list_items<W: Semiring, M: Matcher<W>>(m: M, state: StateId, labels: Set<usize>) -> Seq<IterItemMatcher<W>> {
    if some_matched(m, state, labels) {
        let p = least_matched_label(m, state, labels);
        if some_matched_above(m, state, labels, p) {
            m.iter_spec(state, p)
        } else {
            m.iter_spec(state, p) + m.iter_spec(state, NO_LABEL)
        }
    } else {
        m.iter_spec(state, NO_LABEL)
    }
}

/// Index of the first label, from `k` on, that has matches at the state.
pub open spec fn first_matched<W: Semiring, M: Matcher<W>>(m: M, state: StateId, labels: Seq<usize>, k: int) -> int
    decreases labels.len() - k,
{
    if k < 0 || k >= labels.len() {
        labels.len() as int
    } else if m.iter_spec(state, labels[k]).len() > 0 {
        k
    } else {
        first_matched(m, state, labels, k + 1)
    }
}

proof fn lemma_first_matched<W: Semiring, M: Matcher<W>>(m: M, state: StateId, labels: Seq<usize>, k: int)
    requires
        0 <= k <= labels.len(),
    ensures
        k <= first_matched(m, state, labels, k) <= labels.len(),
        first_matched(m, state, labels, k) < labels.len() ==> m.iter_spec(state, labels[first_matched(m, state, labels, k)]).len() > 0,
        forall|j: int| k <= j < first_matched(m, state, labels, k) ==> m.iter_spec(state, #[trigger] labels[j]).len() == 0,
    decreases labels.len() - k,
{
    if k < labels.len() && m.iter_spec(state, labels[k]).len() == 0 {
        lemma_first_matched(m, state, labels, k + 1);
    }
}

/// Over labels listed in increasing order, the first with matches is the
/// smallest matched label, and a later one has matches exactly when a larger
/// label does.
proof fn lemma_least_matched<W: Semiring, M: Matcher<W>>(m: M, state: StateId, labels: Seq<usize>, pos: int)
    requires
        increasing_keys(labels),
        0 <= pos < labels.len(),
        m.iter_spec(state, labels[pos]).len() > 0,
        forall|j: int| 0 <= j < pos ==> m.iter_spec(state, #[trigger] labels[j]).len() == 0,
    ensures
        some_matched(m, state, labels.to_set()),
        least_matched_label(m, state, labels.to_set()) == labels[pos],
        some_matched_above(m, state, labels.to_set(), labels[pos]) == (first_matched(m, state, labels, pos + 1) < labels.len()),
{
    let set = labels.to_set();
    assert(labels.contains(labels[pos]));
    assert(matched_label(m, state, set, labels[pos]));
    assert forall|l: usize| #[trigger] matched_label(m, state, set, l) implies labels[pos] <= l by {
        assert(labels.contains(l));
        let j = choose|j: int| 0 <= j < labels.len() && labels[j] == l;
        if j < pos {
            assert(m.iter_spec(state, labels[j]).len() == 0);
        }
    }
    let p = least_matched_label(m, state, set);
    assert(matched_label(m, state, set, p) && p <= labels[pos]);
    lemma_first_matched(m, state, labels, pos + 1);
    let q = first_matched(m, state, labels, pos + 1);
    if q < labels.len() {
        assert(labels.contains(labels[q]));
        assert(matched_label(m, state, set, labels[q]) && labels[q] > labels[pos]);
    }
    if some_matched_above(m, state, set, labels[pos]) {
        let l = choose|l: usize| #[trigger] matched_label(m, state, set, l) && l > labels[pos];
        assert(labels.contains(l));
        let j = choose|j: int| 0 <= j < labels.len() && labels[j] == l;
        if j <= pos {
            assert(j < pos || j == pos);
        }
        assert(j > pos);
        if q > j {
            assert(m.iter_spec(state, labels[j]).len() == 0);
        }
    }
}

/// When no label has matches, no multi-epsilon label is matched.
proof fn lemma_none_matched<W: Semiring, M: Matcher<W>>(m: M, state: StateId, labels: Seq<usize>)
    requires
        forall|j: int| 0 <= j < labels.len() ==> m.iter_spec(state, #[trigger] labels[j]).len() == 0,
    ensures
        !some_matched(m, state, labels.to_set()),
{
    assert forall|l: usize| !#[trigger] matched_label(m, state, labels.to_set(), l) by {
        if labels.to_set().contains(l) {
            assert(labels.contains(l));
            let j = choose|j: int| 0 <= j < labels.len() && labels[j] == l;
            assert(m.iter_spec(state, labels[j]).len() == 0);
        }
    }
}

/// Over labels in increasing order, matching the no-label yields the
/// matches of the first label that has some, then those of the no-label
/// when no later label has matches.
proof fn lemma_list_start<W: Semiring, M: Matcher<W>>(m: M, state: StateId, labels: Seq<usize>, pos: int)
    requires
        increasing_keys(labels),
        0 <= pos < labels.len(),
        m.iter_spec(state, labels[pos]).len() > 0,
        forall|j: int| 0 <= j < pos ==> m.iter_spec(state, #[trigger] labels[j]).len() == 0,
    ensures
        multi_eps_list_items(m, state, labels.to_set()) == m.iter_spec(state, labels[pos]) + (if first_matched(m, state, labels, pos + 1)
            < labels.len() {
            Seq::<IterItemMatcher<W>>::empty()
        } else {
            m.iter_spec(state, NO_LABEL)
        }),
{
    reveal(multi_eps_list_items);
    lemma_least_matched(m, state, labels, pos);
    if first_matched(m, state, labels, pos + 1) < labels.len() {
        assert(m.iter_spec(state, labels[pos]) + Seq::<IterItemMatcher<W>>::empty() =~= m.iter_spec(state, labels[pos]));
    }
}

/// When no label has matches, matching the no-label yields its own matches.
proof fn lemma_list_none<W: Semiring, M: Matcher<W>>(m: M, state: StateId, labels: Seq<usize>)
    requires
        forall|j: int| 0 <= j < labels.len() ==> m.iter_spec(state, #[trigger] labels[j]).len() == 0,
    ensures
        multi_eps_list_items(m, state, labels.to_set()) == m.iter_spec(state, NO_LABEL),
{
    reveal(multi_eps_list_items);
    lemma_none_matched(m, state, labels);
}

/// Every label of the set is accepted exactly when every label of a list of
/// it is.
proof fn lemma_listed_accepted<W: Semiring, M: Matcher<W>>(m: M, labels: Seq<usize>, set: Set<usize>)
    requires
        labels.to_set() == set,
    ensures
        (forall|l: usize| set.contains(l) ==> #[trigger] m.accepts_label(l))
            == (forall|i: int| 0 <= i < labels.len() ==> m.accepts_label(#[trigger] labels[i])),
{
    if forall|i: int| 0 <= i < labels.len() ==> m.accepts_label(#[trigger] labels[i]) {
        assert forall|l: usize| set.contains(l) implies #[trigger] m.accepts_label(l) by {
            assert(labels.contains(l));
            let j = choose|j: int| 0 <= j < labels.len() && labels[j] == l;
            assert(m.accepts_label(labels[j]));
        }
    }
    if forall|l: usize| set.contains(l) ==> #[trigger] m.accepts_label(l) {
        assert forall|i: int| 0 <= i < labels.len() implies m.accepts_label(#[trigger] labels[i]) by {
            assert(labels.contains(labels[i]));
        }
    }
}

/// Iterator over the matches of a multi-epsilon matcher at a state.
pub struct IteratorMultiEpsMatcher<W, M> {
    pub iter_matcher: Option<Vec<IterItemMatcher<W>>>,
    pub pos_matcher: usize,
    pub iter_labels: Option<Vec<Label>>,
    pub pos_labels: usize,
    pub matcher: Arc<M>,
    pub matcher_state: StateId,
    pub done: bool,
}

impl<W: Semiring, M: Matcher<W>> IteratorMultiEpsMatcher<W, M> {
    /// The wrapped matcher can answer every label the iterator may ask of it.
    pub open spec fn inv(&self) -> bool {
        &&& self.matcher.wf()
        &&& self.matcher.can_iter()
        &&& self.matcher_state < self.matcher.fst_spec().states@.len()
        &&& (self.iter_matcher matches Some(items) ==> self.pos_matcher <= items@.len())
        &&& (self.iter_labels matches Some(labels) ==> {
            &&& self.pos_labels <= labels@.len()
            &&& forall|i: int| 0 <= i < labels@.len() ==> self.matcher.accepts_label(#[trigger] labels@[i])
            &&& self.matcher.accepts_label(NO_LABEL)
        })
    }

    /// What the iterator yields until it first answers nothing.
    pub open spec fn remaining(&self) -> Seq<IterItemMatcher<W>> {
        match self.iter_matcher {
            Some(items) => {
                let rest = items@.skip(self.pos_matcher as int);
                match self.iter_labels {
                    None => rest,
                    Some(labels) => if self.pos_labels >= labels@.len()
                        || first_matched(*self.matcher, self.matcher_state, labels@, self.pos_labels + 1) < labels@.len() {
                        rest
                    } else {
                        rest + self.matcher.iter_spec(self.matcher_state, NO_LABEL)
                    },
                }
            },
            None => if self.done {
                seq![]
            } else {
                seq![IterItemMatcher::EpsLoop]
            },
        }
    }

    /// The matches of a label the wrapped matcher accepts.
    fn items_for(&self, label: Label) -> (r: Vec<IterItemMatcher<W>>)
        requires
            self.inv(),
            self.matcher.accepts_label(label),
        ensures
            r@ == self.matcher.iter_spec(self.matcher_state, label),
    {
        match self.matcher.iter(self.matcher_state, label) {
            Ok(v) => v,
            Err(_) => {
                proof {
                    assert(false);
                }
                Vec::new()
            },
        }
    }

    /// The next match. When the matches of a multi-epsilon label run out,
    /// the iterator moves to the next label that has matches and answers
    /// nothing this time; after the last label it goes on with the matches
    /// of the no-label.
    pub fn next(&mut self) -> (r: Option<IterItemMatcher<W>>)
        requires
            old(self).inv(),
        ensures
            final(self).inv(),
            final(self).matcher == old(self).matcher,
            final(self).matcher_state == old(self).matcher_state,
            r matches Some(x) ==> old(self).remaining() == seq![x] + final(self).remaining(),
            r is None ==> old(self).remaining() == Seq::<IterItemMatcher<W>>::empty(),
    {
        if self.iter_matcher.is_none() {
            if self.done {
                return None;
            }
            self.done = true;
            return Some(IterItemMatcher::EpsLoop);
        }
        let ghost old_self = *self;
        let items_len = self.iter_matcher.as_ref().unwrap().len();
        if self.pos_matcher < items_len {
            let x = self.iter_matcher.as_ref().unwrap()[self.pos_matcher].item_clone();
            self.pos_matcher = self.pos_matcher + 1;
            proof {
                let items = old_self.iter_matcher->0@;
                assert(items.skip(old_self.pos_matcher as int) =~= seq![x] + items.skip(self.pos_matcher as int));
            }
            return Some(x);
        }
        if self.iter_labels.is_none() {
            return None;
        }
        let labels = self.iter_labels.take().unwrap();
        let n = labels.len();
        if self.pos_labels >= n {
            self.iter_labels = Some(labels);
            return None;
        }
        let start = self.pos_labels + 1;
        let mut pos = start;
        let mut found: Option<Vec<IterItemMatcher<W>>> = None;
        while pos < n
            invariant_except_break
                found is None,
            invariant
                self.inv(),
                self.matcher == old_self.matcher,
                self.matcher_state == old_self.matcher_state,
                labels@ == old_self.iter_labels->0@,
                n == labels@.len(),
                start <= pos <= n,
                forall|i: int| 0 <= i < labels@.len() ==> self.matcher.accepts_label(#[trigger] labels@[i]),
                self.matcher.accepts_label(NO_LABEL),
                forall|j: int| start <= j < pos ==> self.matcher.iter_spec(self.matcher_state, #[trigger] labels@[j]).len() == 0,
            ensures
                (found is Some) == (pos < n),
                found matches Some(it) ==> it@ == self.matcher.iter_spec(self.matcher_state, labels@[pos as int]) && it@.len() > 0,
            decreases n - pos,
        {
            let it = self.items_for(labels[pos]);
            if it.len() > 0 {
                found = Some(it);
                break;
            }
            pos = pos + 1;
        }
        proof {
            let m: M = *self.matcher;
            lemma_first_matched(m, self.matcher_state, labels@, start as int);
        }
        self.pos_labels = pos;
        self.iter_labels = Some(labels);
        match found {
            Some(it) => {
                self.iter_matcher = Some(it);
                self.pos_matcher = 0;
                self.done = false;
                None
            },
            None => {
                let it = self.items_for(NO_LABEL);
                if it.len() > 0 {
                    let x = it[0].item_clone();
                    self.iter_matcher = Some(it);
                    self.pos_matcher = 1;
                    proof {
                        let all = self.iter_matcher->0@;
                        assert(all =~= seq![x] + all.skip(1));
                        assert(old_self.iter_matcher->0@.skip(old_self.pos_matcher as int) =~= Seq::<IterItemMatcher<W>>::empty());
                    }
                    Some(x)
                } else {
                    self.iter_matcher = Some(it);
                    self.pos_matcher = 0;
                    proof {
                        assert(old_self.iter_matcher->0@.skip(old_self.pos_matcher as int) =~= Seq::<IterItemMatcher<W>>::empty());
                    }
                    None
                }
            },
        }
    }

    /// Every match, until the iterator first answers nothing.
    pub fn collect(&mut self) -> (r: Vec<IterItemMatcher<W>>)
        requires
            old(self).inv(),
        ensures
            r@ == old(self).remaining(),
    {
        let ghost total = self.remaining();
        let mut r: Vec<IterItemMatcher<W>> = Vec::new();
        loop
            invariant_except_break
                total == r@ + self.remaining(),
            invariant
                self.inv(),
            ensures
                r@ == total,
            decreases self.remaining().len(),
        {
            let ghost before = self.remaining();
            match self.next() {
                Some(x) => {
                    r.push(x);
                    assert(r@ + self.remaining() =~= total);
                },
                None => {
                    assert(r@ =~= total);
                    break;
                },
            }
        }
        r
    }
}

/// The items lead to states below `n`, when both parts do.
proof fn lemma_concat_within<W>(a: Seq<IterItemMatcher<W>>, b: Seq<IterItemMatcher<W>>, n: nat)
    requires
        items_within(a, n),
        items_within(b, n),
    ensures
        items_within(a + b, n),
{
    let ab = a + b;
    assert forall|i: int| 0 <= i < ab.len() implies (#[trigger] ab[i] matches IterItemMatcher::Tr(t) ==> t.nextstate < n) by {
        if i >= a.len() {
            assert(ab[i] == b[i - a.len()]);
        }
    }
}

impl<W: Semiring, M: Matcher<W>> MultiEpsMatcher<W, M> {
    /// A multi-epsilon matcher with the given flags and no multi-epsilon
    /// label, over `matcher`, or else over a new matcher of `match_type` on `fst`.
    pub fn new_with_opts(fst: Arc<VectorFst<W>>, match_type: MatchType, flags: MultiEpsMatcherFlags, matcher: Option<Arc<M>>) -> (r: Result<
        Self,
        FstError,
    >)
        ensures
            matcher is Some ==> r is Ok,
            matcher is None && M::new_ok(*fst, match_type) ==> r is Ok,
            r matches Ok(m) ==> {
                &&& m.flags == flags
                &&& m.multi_eps_labels.set@ == Set::<usize>::empty()
                &&& m.multi_eps_labels.min_key == NO_LABEL
                &&& m.multi_eps_labels.max_key == NO_LABEL
                &&& m.multi_eps_labels.no_key == NO_LABEL
                &&& (matcher matches Some(a) ==> m.matcher == a)
                &&& (matcher is None ==> m.matcher.wf() && m.matcher.fst_spec() == *fst)
            },
    {
        let matcher = match matcher {
            Some(m) => m,
            None => Arc::new(M::new(fst, match_type)?),
        };
        Ok(MultiEpsMatcher { matcher, flags, multi_eps_labels: CompactSet::new(NO_LABEL), phantom: PhantomData })
    }

    pub fn matcher(&self) -> (r: &Arc<M>)
        ensures
            *r == self.matcher,
    {
        &self.matcher
    }

    pub fn clear_multi_eps_labels(&mut self)
        ensures
            final(self).matcher == old(self).matcher,
            final(self).flags == old(self).flags,
            final(self).multi_eps_labels.set@ == Set::<usize>::empty(),
            final(self).multi_eps_labels.no_key == old(self).multi_eps_labels.no_key,
            final(self).multi_eps_labels.min_key == old(self).multi_eps_labels.no_key,
            final(self).multi_eps_labels.max_key == old(self).multi_eps_labels.no_key,
    {
        self.multi_eps_labels.clear()
    }

    /// Adds a multi-epsilon label; epsilon itself is refused.
    pub fn add_multi_eps_label(&mut self, label: Label) -> (r: Result<(), FstError>)
        ensures
            label == EPS_LABEL ==> r == Err::<(), FstError>(FstError::BadMultiEpsLabel) && *final(self) == *old(self),
            label != EPS_LABEL ==> r is Ok && final(self).matcher == old(self).matcher && final(self).flags == old(self).flags
                && final(self).multi_eps_labels.set@ == old(self).multi_eps_labels.set@.insert(label)
                && final(self).multi_eps_labels.no_key == old(self).multi_eps_labels.no_key
                && final(self).multi_eps_labels.min_key == (if old(self).multi_eps_labels.min_key == old(self).multi_eps_labels.no_key
                    || label < old(self).multi_eps_labels.min_key { label } else { old(self).multi_eps_labels.min_key })
                && final(self).multi_eps_labels.max_key == (if old(self).multi_eps_labels.max_key == old(self).multi_eps_labels.no_key
                    || old(self).multi_eps_labels.max_key > label { label } else { old(self).multi_eps_labels.max_key }),
    {
        if label == EPS_LABEL {
            return Err(FstError::BadMultiEpsLabel);
        }
        self.multi_eps_labels.insert(label);
        Ok(())
    }

    /// Removes a multi-epsilon label; epsilon itself is refused.
    pub fn remove_multi_eps_label(&mut self, label: Label) -> (r: Result<(), FstError>)
        requires
            label != EPS_LABEL ==> (old(self).multi_eps_labels.set@.remove(label) != Set::<usize>::empty() && label
                == old(self).multi_eps_labels.min_key ==> label < usize::MAX),
        ensures
            label == EPS_LABEL ==> r == Err::<(), FstError>(FstError::BadMultiEpsLabel) && *final(self) == *old(self),
            label != EPS_LABEL ==> r is Ok && final(self).matcher == old(self).matcher && final(self).flags == old(self).flags
                && final(self).multi_eps_labels.set@ == old(self).multi_eps_labels.set@.remove(label),
    {
        if label == EPS_LABEL {
            return Err(FstError::BadMultiEpsLabel);
        }
        self.multi_eps_labels.erase(label);
        Ok(())
    }

    /// Every label the list holds is accepted by the wrapped matcher, and so
    /// is the no-label; fails otherwise.
    fn check_labels(&self, state: StateId, labels: &Vec<Label>) -> (r: Result<(), FstError>)
        requires
            self.matcher.wf(),
            self.matcher.can_iter(),
            state < self.matcher.fst_spec().states@.len(),
        ensures
            r is Ok == ((forall|i: int| 0 <= i < labels@.len() ==> self.matcher.accepts_label(#[trigger] labels@[i]))
                && self.matcher.accepts_label(NO_LABEL)),
    {
        let mut i: usize = 0;
        while i < labels.len()
            invariant
                self.matcher.wf(),
                self.matcher.can_iter(),
                state < self.matcher.fst_spec().states@.len(),
                i <= labels@.len(),
                forall|j: int| 0 <= j < i ==> self.matcher.accepts_label(#[trigger] labels@[j]),
            decreases labels@.len() - i,
        {
            self.matcher.iter(state, labels[i])?;
            i += 1;
        }
        self.matcher.iter(state, NO_LABEL)?;
        Ok(())
    }

    /// The iterator over the matches of the no-label at `state`, going
    /// through the multi-epsilon labels in increasing order.
    #[verifier::rlimit(60)]
    fn iter_list(&self, state: StateId) -> (r: Result<IteratorMultiEpsMatcher<W, M>, FstError>)
        requires
            self.wf(),
            self.can_iter(),
            state < self.fst_spec().states@.len(),
        ensures
            self.accepts_label_list() ==> (r matches Ok(it) && it.inv()
                && it.remaining() == multi_eps_list_items(*self.matcher, state, self.multi_eps_labels.set@)),
            !self.accepts_label_list() ==> r is Err,
    {
        let mut it = IteratorMultiEpsMatcher {
            iter_matcher: None,
            pos_matcher: 0,
            iter_labels: None,
            pos_labels: 0,
            matcher: arc_clone(&self.matcher),
            matcher_state: state,
            done: false,
        };
        let labels = self.multi_eps_labels.iter();
        proof {
            let m: M = *self.matcher;
            lemma_listed_accepted(m, labels@, self.multi_eps_labels.set@);
        }
        self.check_labels(state, &labels)?;
        let n = labels.len();
        let mut pos: usize = 0;
        let mut found: Option<Vec<IterItemMatcher<W>>> = None;
        while pos < n
            invariant_except_break
                found is None,
            invariant
                self.wf(),
                self.can_iter(),
                state < self.matcher.fst_spec().states@.len(),
                n == labels@.len(),
                pos <= n,
                forall|i: int| 0 <= i < labels@.len() ==> self.matcher.accepts_label(#[trigger] labels@[i]),
                forall|j: int| 0 <= j < pos ==> self.matcher.iter_spec(state, #[trigger] labels@[j]).len() == 0,
            ensures
                (found is Some) == (pos < n),
                found matches Some(v) ==> v@ == self.matcher.iter_spec(state, labels@[pos as int]) && v@.len() > 0,
            decreases n - pos,
        {
            let v = self.matcher.iter(state, labels[pos])?;
            if v.len() > 0 {
                found = Some(v);
                break;
            }
            pos += 1;
        }
        match found {
            Some(v) => {
                proof {
                    let m: M = *self.matcher;
                    lemma_list_start(m, state, labels@, pos as int);
                    assert(v@.skip(0) =~= v@);
                }
                it.iter_matcher = Some(v);
                it.iter_labels = Some(labels);
                it.pos_labels = pos;
            },
            None => {
                proof {
                    let m: M = *self.matcher;
                    lemma_list_none(m, state, labels@);
                }
                let v = self.matcher.iter(state, NO_LABEL)?;
                proof {
                    assert(v@.skip(0) =~= v@);
                }
                it.iter_matcher = Some(v);
            },
        }
        Ok(it)
    }

    /// The wrapped matcher accepts each multi-epsilon label and the no-label.
    pub open spec fn accepts_label_list(&self) -> bool {
        &&& forall|l: usize| self.multi_eps_labels.set@.contains(l) ==> #[trigger] self.matcher.accepts_label(l)
        &&& self.matcher.accepts_label(NO_LABEL)
    }

    /// The iterator over the matches of `label` at `state`.
    pub fn iter_matches(&self, state: StateId, label: Label) -> (r: Result<IteratorMultiEpsMatcher<W, M>, FstError>)
        requires
            self.wf(),
            self.can_iter(),
        ensures
            state < self.fst_spec().states@.len() && self.accepts_label(label) ==> (r matches Ok(it) && it.inv()
                && it.remaining() == self.iter_spec(state, label)),
            !(state < self.fst_spec().states@.len() && self.accepts_label(label)) ==> r is Err,
    {
        if state >= self.matcher.fst().num_states() {
            return Err(FstError::StateOutOfRange);
        }
        let mut it = IteratorMultiEpsMatcher {
            iter_matcher: None,
            pos_matcher: 0,
            iter_labels: None,
            pos_labels: 0,
            matcher: arc_clone(&self.matcher),
            matcher_state: state,
            done: false,
        };
        if label == EPS_LABEL {
            it.iter_matcher = Some(self.matcher.iter(state, EPS_LABEL)?);
            proof {
                assert(it.iter_matcher->0@.skip(0) =~= it.iter_matcher->0@);
            }
        } else if label == NO_LABEL {
            if self.flags.contains(MultiEpsMatcherFlags::multi_eps_list()) {
                return self.iter_list(state);
            } else {
                it.iter_matcher = Some(self.matcher.iter(state, NO_LABEL)?);
                proof {
                    assert(it.iter_matcher->0@.skip(0) =~= it.iter_matcher->0@);
                }
            }
        } else if self.flags.contains(MultiEpsMatcherFlags::multi_eps_loop()) && self.multi_eps_labels.contains(label) {
        } else {
            it.iter_matcher = Some(self.matcher.iter(state, label)?);
            proof {
                assert(it.iter_matcher->0@.skip(0) =~= it.iter_matcher->0@);
            }
        }
        Ok(it)
    }
}

/// With the loop flag and a single multi-epsilon label (as adding it to a
/// cleared matcher leaves them), matching that label answers with an epsilon
/// loop, whatever the wrapped matcher holds.
pub proof fn lemma_single_label_loops<W: Semiring, M: Matcher<W>>(m: MultiEpsMatcher<W, M>, state: StateId, label: Label)
    requires
        loop_flag(m.flags),
        label != EPS_LABEL,
        label != NO_LABEL,
        m.multi_eps_labels.no_key == NO_LABEL,
        m.multi_eps_labels.set@ == Set::<usize>::empty().insert(label),
        m.multi_eps_labels.min_key == label,
        m.multi_eps_labels.max_key == label,
    ensures
        m.accepts_label(label),
        m.iter_spec(state, label) == seq![IterItemMatcher::<W>::EpsLoop],
{
    assert(m.multi_eps_labels.set@.len() == 1);
}

impl<W: Semiring, M: Matcher<W>> Matcher<W> for MultiEpsMatcher<W, M> {
    open spec fn fst_spec(&self) -> VectorFst<W> {
        self.matcher.fst_spec()
    }

    open spec fn wf(&self) -> bool {
        self.matcher.wf()
    }

    open spec fn can_iter(&self) -> bool {
        self.matcher.can_iter()
    }

    /// The wrapped matcher accepts what is asked of it: for the no-label
    /// over a list, each multi-epsilon label and the no-label; nothing is
    /// asked for a label answered by an epsilon loop.
    open spec fn accepts_label(&self, label: Label) -> bool {
        if label == EPS_LABEL {
            self.matcher.accepts_label(EPS_LABEL)
        } else if label == NO_LABEL {
            if list_flag(self.flags) {
                self.accepts_label_list()
            } else {
                self.matcher.accepts_label(NO_LABEL)
            }
        } else if loop_flag(self.flags) && compact_contains_spec(
            self.multi_eps_labels.set@,
            self.multi_eps_labels.min_key,
            self.multi_eps_labels.max_key,
            self.multi_eps_labels.no_key,
            label,
        ) {
            true
        } else {
            self.matcher.accepts_label(label)
        }
    }

    /// Epsilon and other labels are matched as by the wrapped matcher; a
    /// multi-epsilon label (with the loop flag) by an epsilon loop; the
    /// no-label (with the list flag) as `multi_eps_list_items` says.
    open spec fn iter_spec(&self, state: StateId, label: Label) -> Seq<IterItemMatcher<W>> {
        if label == EPS_LABEL {
            self.matcher.iter_spec(state, EPS_LABEL)
        } else if label == NO_LABEL {
            if list_flag(self.flags) {
                multi_eps_list_items(*self.matcher, state, self.multi_eps_labels.set@)
            } else {
                self.matcher.iter_spec(state, NO_LABEL)
            }
        } else if loop_flag(self.flags) && compact_contains_spec(
            self.multi_eps_labels.set@,
            self.multi_eps_labels.min_key,
            self.multi_eps_labels.max_key,
            self.multi_eps_labels.no_key,
            label,
        ) {
            seq![IterItemMatcher::EpsLoop]
        } else {
            self.matcher.iter_spec(state, label)
        }
    }

    open spec fn match_type_spec(&self, test: bool) -> MatchType {
        self.matcher.match_type_spec(test)
    }

    open spec fn flags_spec(&self) -> MatcherFlags {
        self.matcher.flags_spec()
    }

    open spec fn priority_spec(&self, state: StateId) -> usize {
        self.matcher.priority_spec(state)
    }

    open spec fn new_ok(fst: VectorFst<W>, match_type: MatchType) -> bool {
        M::new_ok(fst, match_type)
    }

    /// A matcher with both flags over a new matcher of `match_type` on `fst`.
    fn new(fst: Arc<VectorFst<W>>, match_type: MatchType) -> (r: Result<Self, FstError>) {
        Self::new_with_opts(
            fst,
            match_type,
            MultiEpsMatcherFlags::multi_eps_loop().union(MultiEpsMatcherFlags::multi_eps_list()),
            None,
        )
    }

    fn iter(&self, state: StateId, label: Label) -> (r: Result<Vec<IterItemMatcher<W>>, FstError>) {
        let mut it = self.iter_matches(state, label)?;
        Ok(it.collect())
    }

    fn final_weight(&self, state: StateId) -> (r: Result<Option<W>, FstError>) {
        self.matcher.final_weight(state)
    }

    fn match_type(&self, test: bool) -> (r: Result<MatchType, FstError>) {
        self.matcher.match_type(test)
    }

    fn flags(&self) -> (r: MatcherFlags) {
        self.matcher.flags()
    }

    fn priority(&self, state: StateId) -> (r: Result<usize, FstError>) {
        self.matcher.priority(state)
    }

    fn fst(&self) -> (r: &VectorFst<W>) {
        self.matcher.fst()
    }

    proof fn lemma_match_type_can_iter(&self, test: bool) {
        self.matcher.lemma_match_type_can_iter(test);
    }

    proof fn lemma_iter_within(&self, state: StateId, label: Label) {
        let n = self.fst_spec().states@.len();
        self.matcher.lemma_iter_within(state, label);
        self.matcher.lemma_iter_within(state, NO_LABEL);
        self.matcher.lemma_iter_within(state, EPS_LABEL);
        if label == NO_LABEL && list_flag(self.flags) {
            let labels = self.multi_eps_labels.set@;
            let m: M = *self.matcher;
            reveal(multi_eps_list_items);
            if some_matched(m, state, labels) {
                let p = least_matched_label(m, state, labels);
                self.matcher.lemma_iter_within(state, p);
                lemma_concat_within(self.matcher.iter_spec(state, p), self.matcher.iter_spec(state, NO_LABEL), n);
            }
        }
        if label != EPS_LABEL && label != NO_LABEL && loop_flag(self.flags) {
            let one = seq![IterItemMatcher::<W>::EpsLoop];
            assert forall|i: int| 0 <= i < one.len() implies (#[trigger] one[i] matches IterItemMatcher::Tr(t) ==> t.nextstate < n) by {}
        }
    }
}

} // verus!
