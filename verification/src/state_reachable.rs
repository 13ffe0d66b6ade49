use vstd::prelude::*;

use crate::condense::condense;
use crate::condense::{component_final, component_trs, count_comp, lemma_component_final_some, lemma_condense_final_one, lemma_condensed_reach_lifts, lemma_condensed_reach_projects, lemma_count_other, lemma_count_two};
use crate::connect::{dfs_visit, edge, is_path, reachable, Visitor};
use crate::fst::{FstError, Tr, VectorFst};
use crate::interval_set::{IntInterval, IntervalSet};
use crate::semirings::Semiring;
use crate::tarjan::dn;
use crate::StateId;

verus! {

/// A final state lies on a cycle with another state.
pub open spec fn final_on_cycle<W>(fst: VectorFst<W>) -> bool {
    exists|f: StateId, g: StateId| #![trigger reachable(fst, f, g), reachable(fst, g, f)]
        f < fst.states@.len() && g < fst.states@.len() && f != g
        && fst.states@[f as int].final_weight is Some && reachable(fst, f, g) && reachable(fst, g, f)
}

/// The index of a state that has none.
pub const UNASSIGNED: usize = usize::MAX;

/// Every interval is non-empty and starts at 1 or later.
pub open spec fn ivs_positive(s: Seq<IntInterval>) -> bool {
    forall|i: int| 0 <= i < s.len() ==> 1 <= #[trigger] s[i].begin && s[i].begin < s[i].end
}

/// Every interval set of the vector has positive, non-empty intervals.
pub open spec fn isets_positive(isets: Seq<IntervalSet>) -> bool {
    forall|s: int| 0 <= s < isets.len() ==> ivs_positive(#[trigger] isets[s].ivs())
}

/// Every interval set of the vector is normalized.
pub open spec fn isets_normalized(isets: Seq<IntervalSet>) -> bool {
    forall|s: int| 0 <= s < isets.len() ==> (#[trigger] isets[s]).is_normalized()
}

/// Normalized positive intervals cover no point below 1.
pub proof fn lemma_positive_covers(iset: IntervalSet, v: int)
    requires
        ivs_positive(iset.ivs()),
        v < 1,
    ensures
        !iset.contains_point(v),
{
    if iset.contains_point(v) {
        let i = choose|i: int| 0 <= i < iset.ivs().len() && #[trigger] iset.ivs()[i].begin <= v < iset.ivs()[i].end;
        assert(1 <= iset.ivs()[i].begin);
    }
}

/// Normalizing positive intervals keeps them positive.
proof fn lemma_normalize_positive(before: IntervalSet, after: IntervalSet)
    requires
        ivs_positive(before.ivs()),
        after.is_normalized(),
        forall|x: int| after.contains_point(x) == before.contains_point(x),
    ensures
        ivs_positive(after.ivs()),
{
    assert forall|i: int| 0 <= i < after.ivs().len() implies 1 <= #[trigger] after.ivs()[i].begin && after.ivs()[i].begin < after.ivs()[i].end by {
        let b = after.ivs()[i].begin as int;
        assert(after.contains_point(b));
        if b < 1 {
            lemma_positive_covers(before, b);
        }
    }
}

/// Adds (unnormalized) the intervals of set `j` to set `i`.
pub fn union_vec_isets_unordered(isets: &mut Vec<IntervalSet>, i: usize, j: usize)
    requires
        i < old(isets)@.len(),
        j < old(isets)@.len(),
        i != j,
    ensures
        final(isets)@.len() == old(isets)@.len(),
        final(isets)@[i as int].ivs() == old(isets)@[i as int].ivs() + old(isets)@[j as int].ivs(),
        final(isets)@[i as int].intervals.count == old(isets)@[i as int].intervals.count,
        forall|q: int| 0 <= q < final(isets)@.len() && q != i ==> #[trigger] final(isets)@[q] == old(isets)@[q],
{
    let other = isets[j].clone_set();
    isets[i].union(other);
}

/// Every transition leads to a state of a lower number.
pub open spec fn edges_descend<W>(fst: VectorFst<W>, num: Map<StateId, nat>) -> bool {
    forall|u: StateId, e: int| num.contains_key(u) && 0 <= e < fst.states@[u as int].trs@.len()
        ==> num.contains_key(#[trigger] fst.states@[u as int].trs@[e].nextstate)
        && num[fst.states@[u as int].trs@[e].nextstate] < num[u]
}

/// Along a path from a numbered state, the numbers decrease.
proof fn lemma_path_descends<W>(fst: VectorFst<W>, num: Map<StateId, nat>, path: Seq<StateId>)
    requires
        edges_descend(fst, num),
        is_path(fst, path),
        num.contains_key(path[0]),
    ensures
        num.contains_key(path.last()),
        path.len() > 1 ==> num[path.last()] < num[path[0]],
    decreases path.len(),
{
    if path.len() > 1 {
        let rest = path.drop_last();
        assert(is_path(fst, rest)) by {
            assert forall|i: int| 0 <= i < rest.len() - 1 implies edge(fst, #[trigger] rest[i], rest[i + 1]) by {
                assert(edge(fst, path[i], path[i + 1]));
            }
        }
        lemma_path_descends(fst, num, rest);
        let m = path[path.len() - 2];
        assert(edge(fst, path[path.len() - 2], path[path.len() - 1]));
        let e = choose|e: int| 0 <= e < fst.states@[m as int].trs@.len() && #[trigger] fst.states@[m as int].trs@[e].nextstate == path.last();
        assert(rest.last() == m);
    }
}

/// With every state numbered so that transitions lead to lower numbers, no
/// two states reach each other.
proof fn lemma_descend_no_cycle<W>(fst: VectorFst<W>, num: Map<StateId, nat>)
    requires
        edges_descend(fst, num),
        forall|v: StateId| v < fst.states@.len() ==> #[trigger] num.contains_key(v),
    ensures
        !final_on_cycle(fst),
{
    if final_on_cycle(fst) {
        let (f, g) = choose|f: StateId, g: StateId| #![trigger reachable(fst, f, g), reachable(fst, g, f)]
            f < fst.states@.len() && g < fst.states@.len() && f != g
            && fst.states@[f as int].final_weight is Some && reachable(fst, f, g) && reachable(fst, g, f);
        let p1 = choose|p: Seq<StateId>| #[trigger] is_path(fst, p) && p[0] == f && p.last() == g;
        let p2 = choose|p: Seq<StateId>| #[trigger] is_path(fst, p) && p[0] == g && p.last() == f;
        assert(num.contains_key(f) && num.contains_key(g));
        lemma_path_descends(fst, num, p1);
        lemma_path_descends(fst, num, p2);
        assert(p1.len() > 1);
        assert(p2.len() > 1);
    }
}

/// Some transition lies on a cycle.
pub open spec fn has_cycle<W>(fst: VectorFst<W>) -> bool {
    exists|a: StateId, b: StateId| #[trigger] edge(fst, a, b) && reachable(fst, b, a)
}

/// Along a path whose transitions all lead to lower states, the states descend.
proof fn lemma_descending_path<W>(fst: VectorFst<W>, p: Seq<StateId>)
    requires
        forall|c: int, k: int| 0 <= c < fst.states@.len() && 0 <= k < fst.states@[c].trs@.len()
            ==> #[trigger] fst.states@[c].trs@[k].nextstate < c,
        is_path(fst, p),
    ensures
        p.last() <= p[0],
    decreases p.len(),
{
    if p.len() > 1 {
        assert(edge(fst, p[0], p[1]));
        let rest = p.drop_first();
        assert(is_path(fst, rest)) by {
            assert forall|i: int| 0 <= i < rest.len() - 1 implies edge(fst, #[trigger] rest[i], rest[i + 1]) by {
                assert(rest[i] == p[i + 1] && rest[i + 1] == p[i + 2]);
            }
        }
        lemma_descending_path(fst, rest);
    }
}

/// An FST whose transitions all lead to lower states has no cycle.
proof fn lemma_descending_acyclic<W>(fst: VectorFst<W>)
    requires
        forall|c: int, k: int| 0 <= c < fst.states@.len() && 0 <= k < fst.states@[c].trs@.len()
            ==> #[trigger] fst.states@[c].trs@[k].nextstate < c,
    ensures
        !has_cycle(fst),
{
    if has_cycle(fst) {
        let (a, b) = choose|a: StateId, b: StateId| #[trigger] edge(fst, a, b) && reachable(fst, b, a);
        let p = choose|p: Seq<StateId>| #[trigger] is_path(fst, p) && p[0] == b && p.last() == a;
        lemma_descending_path(fst, p);
    }
}

/// A final state whose final weight is not zero: one that gets an index.
pub open spec fn weighted_final<W: Semiring>(fst: VectorFst<W>, s: StateId) -> bool {
    fst.states@[s as int].final_weight matches Some(w) && w != W::zero_spec()
}

/// From `u` some state can be reached whose index is `x`.
pub open spec fn reaches_index<W>(fst: VectorFst<W>, s2i: Seq<usize>, u: StateId, x: int) -> bool {
    exists|g: StateId| g < s2i.len() && #[trigger] s2i[g as int] == x && x != UNASSIGNED && reachable(fst, u, g)
}

/// Some state has index `y`.
pub open spec fn index_used(s2i: Seq<usize>, y: int) -> bool {
    exists|g: StateId| g < s2i.len() && #[trigger] s2i[g as int] == y
}

/// Assigns each final state an index and computes, for each state, the set of
/// indices of the final states it reaches, as intervals, by depth-first search.
pub struct IntervalReachVisitor<'a, W> {
    pub fst: &'a VectorFst<W>,
    pub isets: Vec<IntervalSet>,
    pub state2index: Vec<usize>,
    pub index: usize,
    /// A back transition was found: the FST has a cycle.
    pub cyclic: bool,
    /// The indices ran out.
    pub exhausted: bool,
    pub discovered: Ghost<nat>,
    /// The states discovered and not finished.
    pub dfs_path: Ghost<Seq<StateId>>,
    /// The states discovered so far.
    pub seen_states: Ghost<Set<StateId>>,
    /// The number of transitions of each state examined so far.
    pub done_map: Ghost<Map<StateId, nat>>,
    /// The finishing number of each finished state.
    pub fin: Ghost<Map<StateId, nat>>,
    /// The number of states finished.
    pub nfin: Ghost<nat>,
    /// The next index at the discovery of each discovered state.
    pub dix: Ghost<Map<StateId, nat>>,
}

impl<'a, W: Semiring> IntervalReachVisitor<'a, W> {
    pub fn new(fst: &'a VectorFst<W>) -> (r: Self)
        ensures
            r.fst == fst,
            r.isets@.len() == 0,
            r.state2index@.len() == 0,
            r.index == 1,
            !r.cyclic,
            !r.exhausted,
    {
        IntervalReachVisitor {
            fst,
            isets: Vec::new(),
            state2index: Vec::new(),
            index: 1,
            cyclic: false,
            exhausted: false,
            discovered: Ghost(0),
            dfs_path: Ghost(Seq::empty()),
            seen_states: Ghost(Set::empty()),
            done_map: Ghost(Map::empty()),
            fin: Ghost(Map::empty()),
            nfin: Ghost(0),
            dix: Ghost(Map::empty()),
        }
    }

    /// While the search goes on: the path holds discovered states, each
    /// once; the finished states are the discovered ones off the path; every
    /// transition of a finished state, and every examined transition of a
    /// state on the path, leads to a finished state, of a lower finishing
    /// number in the first case.
    pub open spec fn order_ok(&self) -> bool {
        let f = *self.fst;
        let seen = self.seen_states@;
        let path = self.dfs_path@;
        let fin = self.fin@;
        !self.cyclic && !self.exhausted ==> {
            &&& path.no_duplicates()
            &&& forall|i: int| 0 <= i < path.len() ==> seen.contains(#[trigger] path[i])
            &&& forall|v: StateId| #[trigger] seen.contains(v) ==> v < f.states@.len()
            &&& forall|v: StateId| #[trigger] fin.contains_key(v) ==> seen.contains(v) && !path.contains(v) && fin[v] < self.nfin@
            &&& forall|v: StateId| #[trigger] seen.contains(v) && !path.contains(v) ==> fin.contains_key(v)
            &&& forall|v: StateId| !seen.contains(v) ==> #[trigger] dn(self.done_map@, v) == 0
            &&& forall|u: StateId, e: int| fin.contains_key(u) && 0 <= e < f.states@[u as int].trs@.len()
                ==> fin.contains_key(#[trigger] f.states@[u as int].trs@[e].nextstate)
                && fin[f.states@[u as int].trs@[e].nextstate] < fin[u]
            &&& forall|i: int, e: int| 0 <= i < path.len() && 0 <= e < dn(self.done_map@, path[i]) && e < f.states@[path[i] as int].trs@.len()
                ==> fin.contains_key(#[trigger] f.states@[path[i] as int].trs@[e].nextstate)
        }
    }
}

impl<'a, W: Semiring> IntervalReachVisitor<'a, W> {
    /// A back transition was found only on a cycle.
    pub open spec fn cycle_ok(&self) -> bool {
        self.cyclic ==> has_cycle(*self.fst)
    }

    /// While the search goes on: the set of a finished state holds the index
    /// of every final state it reaches; the set of a state on the path holds
    /// the index of every final state reached through one of its examined
    /// transitions, and its own where it is final.
    pub open spec fn complete_ok(&self) -> bool {
        let f = *self.fst;
        let n = f.states@.len();
        let s2i = self.state2index@;
        let isets = self.isets@;
        let path = self.dfs_path@;
        let fin = self.fin@;
        !self.cyclic && !self.exhausted ==> {
            &&& forall|v: StateId, g: StateId| fin.contains_key(v) && g < n && weighted_final(f, g) && #[trigger] reachable(f, v, g)
                ==> isets[v as int].contains_point(s2i[g as int] as int)
            &&& forall|i: int, e: int, g: StateId| 0 <= i < path.len() && 0 <= e < dn(self.done_map@, path[i])
                && e < f.states@[path[i] as int].trs@.len() && g < n && weighted_final(f, g)
                && #[trigger] reachable(f, f.states@[path[i] as int].trs@[e].nextstate, g)
                ==> isets[path[i] as int].contains_point(s2i[g as int] as int)
            &&& forall|i: int| 0 <= i < path.len() && weighted_final(f, #[trigger] path[i])
                ==> isets[path[i] as int].contains_point(s2i[path[i] as int] as int)
        }
    }

    /// Whatever happens to the search: the states of the path reach the
    /// states after them; each was discovered with the index then next, and
    /// reaches every state that got an index since; a final state of the path
    /// that got an index starts its set with it; undiscovered states have no
    /// index and an empty set; the indices given are distinct, below the next
    /// one, and each below it is given; every point of a set is the index of
    /// a state that its state reaches.
    pub open spec fn reach_ok(&self) -> bool {
        let f = *self.fst;
        let n = f.states@.len();
        let s2i = self.state2index@;
        let isets = self.isets@;
        let path = self.dfs_path@;
        let dix = self.dix@;
        &&& path.no_duplicates()
        &&& forall|i: int| 0 <= i < path.len() ==> self.seen_states@.contains(#[trigger] path[i]) && path[i] < n
        &&& forall|i: int, j: int| 0 <= i <= j < path.len() ==> reachable(f, #[trigger] path[i], #[trigger] path[j])
        &&& forall|i: int| 0 <= i < path.len() ==> #[trigger] dix.contains_key(path[i]) && 1 <= dix[path[i]] <= self.index
        &&& forall|i: int, g: StateId| 0 <= i < path.len() && g < n && s2i[g as int] != UNASSIGNED
            && dix[path[i]] <= #[trigger] s2i[g as int] ==> reachable(f, #[trigger] path[i], g)
        &&& forall|i: int| 0 <= i < path.len() && weighted_final(f, #[trigger] path[i]) && dix[path[i]] != UNASSIGNED
            ==> isets[path[i] as int].ivs().len() > 0 && isets[path[i] as int].ivs()[0].begin == dix[path[i]]
                && isets[path[i] as int].ivs()[0].end == dix[path[i]] + 1
        &&& forall|g: StateId| g < n && !self.seen_states@.contains(g) ==> #[trigger] s2i[g as int] == UNASSIGNED
        &&& forall|g: StateId| g < n && !self.seen_states@.contains(g) ==> #[trigger] isets[g as int].ivs().len() == 0
        &&& forall|g: int| 0 <= g < n && #[trigger] s2i[g] != UNASSIGNED ==> s2i[g] < self.index
        &&& forall|g1: int, g2: int| 0 <= g1 < n && 0 <= g2 < n && #[trigger] s2i[g1] == #[trigger] s2i[g2]
            && s2i[g1] != UNASSIGNED ==> g1 == g2
        &&& forall|y: int| 1 <= y < self.index ==> #[trigger] index_used(s2i, y)
        &&& forall|u: StateId, x: int| u < n && #[trigger] isets[u as int].contains_point(x) ==> reaches_index(f, s2i, u, x)
    }
}

/// The facts of `reach_ok` on the path and the discovery indices, once `s`
/// is discovered.
proof fn lemma_init_path_reach<'a, W: Semiring>(v: IntervalReachVisitor<'a, W>, v0: IntervalReachVisitor<'a, W>, s: StateId)
    requires
        v0.reach_ok(),
        v0.order_ok(),
        !v0.cyclic && !v0.exhausted,
        s < v0.fst.states@.len(),
        !v0.seen_states@.contains(s),
        (v0.dfs_path@.len() == 0) || edge(*v0.fst, v0.dfs_path@.last(), s),
        v.fst == v0.fst,
        v.dfs_path@ == v0.dfs_path@.push(s),
        v.seen_states@ == v0.seen_states@.insert(s),
        v.dix@ == v0.dix@.insert(s, v0.index as nat),
        v.index == v0.index,
        v0.index >= 1,
    ensures
        v.dfs_path@.no_duplicates(),
        forall|i: int| 0 <= i < v.dfs_path@.len() ==> v.seen_states@.contains(#[trigger] v.dfs_path@[i])
            && v.dfs_path@[i] < v.fst.states@.len(),
        forall|i: int, j: int| 0 <= i <= j < v.dfs_path@.len() ==> reachable(*v.fst, #[trigger] v.dfs_path@[i], #[trigger] v.dfs_path@[j]),
        forall|i: int| 0 <= i < v.dfs_path@.len() ==> #[trigger] v.dix@.contains_key(v.dfs_path@[i])
            && 1 <= v.dix@[v.dfs_path@[i]] <= v.index,
        forall|i: int| 0 <= i < v0.dfs_path@.len() ==> v.dfs_path@[i] == v0.dfs_path@[i] && #[trigger] v0.dfs_path@[i] != s
            && v.dix@[v0.dfs_path@[i]] == v0.dix@[v0.dfs_path@[i]],
        v.dfs_path@[v0.dfs_path@.len() as int] == s,
        forall|i: int| 0 <= i < v0.dfs_path@.len() ==> reachable(*v.fst, #[trigger] v0.dfs_path@[i], s),
{
    let f = *v.fst;
    let path0 = v0.dfs_path@;
    let path = v.dfs_path@;
    assert forall|i: int| 0 <= i < path0.len() implies path[i] == path0[i] && #[trigger] path0[i] != s
        && v.dix@[path0[i]] == v0.dix@[path0[i]] by {
        assert(path[i] == path0[i]);
        assert(v0.seen_states@.contains(path0[i]));
    }
    assert forall|i: int| 0 <= i < path0.len() implies reachable(f, #[trigger] path0[i], s) by {
        let l = path0.len() - 1;
        assert(reachable(f, path0[i], path0[l]));
        crate::connect::lemma_edge_reachable(f, path0[l], s);
        crate::connect::lemma_reachable_trans(f, path0[i], path0[l], s);
    }
    assert forall|i: int, j: int| 0 <= i <= j < path.len() implies reachable(f, #[trigger] path[i], #[trigger] path[j]) by {
        if j < path0.len() {
            assert(path[i] == path0[i] && path[j] == path0[j]);
        } else if i < path0.len() {
            assert(path[i] == path0[i]);
            assert(reachable(f, path0[i], s));
        } else {
            crate::connect::lemma_reachable_refl(f, s);
        }
    }
    assert forall|i: int| 0 <= i < path.len() implies #[trigger] v.dix@.contains_key(path[i]) && 1 <= v.dix@[path[i]] <= v.index by {
        if i < path0.len() {
            assert(path[i] == path0[i]);
            assert(v0.dix@.contains_key(path0[i]));
        }
    }
    assert forall|i: int| 0 <= i < path.len() implies v.seen_states@.contains(#[trigger] path[i]) && path[i] < f.states@.len() by {
        if i < path0.len() {
            assert(path[i] == path0[i]);
        }
    }
    assert(path.no_duplicates()) by {
        assert forall|i: int, j: int| 0 <= i < path.len() && 0 <= j < path.len() && i != j implies path[i] != path[j] by {
            if i < path0.len() && j < path0.len() {
                assert(path[i] == path0[i] && path[j] == path0[j]);
            } else if i < path0.len() {
                assert(path[i] == path0[i]);
            } else if j < path0.len() {
                assert(path[j] == path0[j]);
            }
        }
    }
}

/// `reach_ok` holds after `s` is discovered without getting an index.
proof fn lemma_init_reach_unchanged<'a, W: Semiring>(v: IntervalReachVisitor<'a, W>, v0: IntervalReachVisitor<'a, W>, s: StateId)
    requires
        v0.reach_ok(),
        v0.order_ok(),
        !v0.cyclic && !v0.exhausted,
        s < v0.fst.states@.len(),
        !v0.seen_states@.contains(s),
        v0.isets@.len() == v0.fst.states@.len(),
        v0.state2index@.len() == v0.fst.states@.len(),
        (v0.dfs_path@.len() == 0) || edge(*v0.fst, v0.dfs_path@.last(), s),
        v.fst == v0.fst,
        v.dfs_path@ == v0.dfs_path@.push(s),
        v.seen_states@ == v0.seen_states@.insert(s),
        v.dix@ == v0.dix@.insert(s, v0.index as nat),
        v.index == v0.index,
        v0.index >= 1,
        v.isets@ == v0.isets@,
        v.state2index@ == v0.state2index@,
        weighted_final(*v.fst, s) ==> v.index == UNASSIGNED,
    ensures
        v.reach_ok(),
{
    lemma_init_path_reach(v, v0, s);
    let f = *v.fst;
    let n = f.states@.len();
    let s2i = v.state2index@;
    let path0 = v0.dfs_path@;
    let path = v.dfs_path@;
    assert forall|i: int, g: StateId| 0 <= i < path.len() && g < n && s2i[g as int] != UNASSIGNED
        && v.dix@[path[i]] <= #[trigger] s2i[g as int] implies reachable(f, #[trigger] path[i], g) by {
        if i < path0.len() {
            assert(path[i] == path0[i]);
        } else {
            assert(s2i[g as int] < v.index);
        }
    }
    assert forall|i: int| 0 <= i < path.len() && weighted_final(f, #[trigger] path[i]) && v.dix@[path[i]] != UNASSIGNED
        implies v.isets@[path[i] as int].ivs().len() > 0 && v.isets@[path[i] as int].ivs()[0].begin == v.dix@[path[i]]
            && v.isets@[path[i] as int].ivs()[0].end == v.dix@[path[i]] + 1 by {
        if i < path0.len() {
            assert(path[i] == path0[i]);
        }
    }
}

/// `reach_ok` holds after `s` is discovered and gets the next index.
proof fn lemma_init_reach_assigned<'a, W: Semiring>(v: IntervalReachVisitor<'a, W>, v0: IntervalReachVisitor<'a, W>, s: StateId)
    requires
        v0.reach_ok(),
        v0.order_ok(),
        !v0.cyclic && !v0.exhausted,
        s < v0.fst.states@.len(),
        !v0.seen_states@.contains(s),
        v0.isets@.len() == v0.fst.states@.len(),
        v0.state2index@.len() == v0.fst.states@.len(),
        (v0.dfs_path@.len() == 0) || edge(*v0.fst, v0.dfs_path@.last(), s),
        v.fst == v0.fst,
        v.dfs_path@ == v0.dfs_path@.push(s),
        v.seen_states@ == v0.seen_states@.insert(s),
        v.dix@ == v0.dix@.insert(s, v0.index as nat),
        v0.index >= 1,
        v0.index != UNASSIGNED,
        v.index == v0.index + 1,
        v.isets@.len() == v0.isets@.len(),
        forall|q: int| 0 <= q < v.isets@.len() && q != s ==> #[trigger] v.isets@[q] == v0.isets@[q],
        v.isets@[s as int].ivs() == v0.isets@[s as int].ivs().push(IntInterval { begin: v0.index, end: (v0.index + 1) as usize }),
        v.state2index@ == v0.state2index@.update(s as int, v0.index),
    ensures
        v.reach_ok(),
{
    let f = *v.fst;
    let n = f.states@.len();
    let s2i0 = v0.state2index@;
    let s2i = v.state2index@;
    let oi = v0.index;
    let path0 = v0.dfs_path@;
    let path = v.dfs_path@;
    let mut vv = v;
    vv.index = oi;
    lemma_init_path_reach(vv, v0, s);
    assert(s2i0[s as int] == UNASSIGNED);
    assert(v0.isets@[s as int].ivs().len() == 0);
    assert forall|i: int| 0 <= i < path.len() implies #[trigger] v.dix@.contains_key(path[i]) && 1 <= v.dix@[path[i]] <= v.index by {
        assert(vv.dfs_path@[i] == path[i]);
        assert(vv.dix@.contains_key(vv.dfs_path@[i]));
    }
    assert forall|i: int| 0 <= i < path.len() implies v.seen_states@.contains(#[trigger] path[i]) && path[i] < n by {
        assert(vv.dfs_path@[i] == path[i]);
        assert(vv.seen_states@.contains(vv.dfs_path@[i]));
    }
    assert forall|i: int, j: int| 0 <= i <= j < path.len() implies reachable(f, #[trigger] path[i], #[trigger] path[j]) by {
        assert(vv.dfs_path@[i] == path[i] && vv.dfs_path@[j] == path[j]);
    }
    assert forall|i: int, g: StateId| 0 <= i < path.len() && g < n && s2i[g as int] != UNASSIGNED
        && v.dix@[path[i]] <= #[trigger] s2i[g as int] implies reachable(f, #[trigger] path[i], g) by {
        if g == s {
            if i < path0.len() {
                assert(path[i] == path0[i]);
                assert(reachable(f, path0[i], s));
            } else {
                crate::connect::lemma_reachable_refl(f, s);
            }
        } else {
            assert(s2i[g as int] == s2i0[g as int]);
            if i < path0.len() {
                assert(path[i] == path0[i]);
            } else {
                assert(s2i0[g as int] < oi);
            }
        }
    }
    assert forall|i: int| 0 <= i < path.len() && weighted_final(f, #[trigger] path[i]) && v.dix@[path[i]] != UNASSIGNED
        implies v.isets@[path[i] as int].ivs().len() > 0 && v.isets@[path[i] as int].ivs()[0].begin == v.dix@[path[i]]
            && v.isets@[path[i] as int].ivs()[0].end == v.dix@[path[i]] + 1 by {
        if i < path0.len() {
            assert(path[i] == path0[i]);
            assert(path0[i] != s);
        }
    }
    assert forall|g: StateId| g < n && !v.seen_states@.contains(g) implies #[trigger] s2i[g as int] == UNASSIGNED by {
        assert(g != s);
    }
    assert forall|g: StateId| g < n && !v.seen_states@.contains(g) implies #[trigger] v.isets@[g as int].ivs().len() == 0 by {
        assert(g != s);
    }
    assert forall|g: int| 0 <= g < n && #[trigger] s2i[g] != UNASSIGNED implies s2i[g] < v.index by {
        if g != s {
            assert(s2i[g] == s2i0[g]);
        }
    }
    assert forall|g1: int, g2: int| 0 <= g1 < n && 0 <= g2 < n && #[trigger] s2i[g1] == #[trigger] s2i[g2]
        && s2i[g1] != UNASSIGNED implies g1 == g2 by {
        if g1 != s && g2 != s {
            assert(s2i[g1] == s2i0[g1] && s2i[g2] == s2i0[g2]);
        } else if g1 != s {
            assert(s2i[g1] == s2i0[g1]);
        } else if g2 != s {
            assert(s2i[g2] == s2i0[g2]);
        }
    }
    assert forall|y: int| 1 <= y < v.index implies #[trigger] index_used(s2i, y) by {
        if y == oi {
            assert(s2i[s as int] == y);
        } else {
            assert(index_used(s2i0, y));
            let g = choose|g: StateId| g < s2i0.len() && #[trigger] s2i0[g as int] == y;
            assert(g != s);
            assert(s2i[g as int] == y);
        }
    }
    assert forall|u: StateId, x: int| u < n && #[trigger] v.isets@[u as int].contains_point(x)
        implies reaches_index(f, s2i, u, x) by {
        if u == s {
            let ivs = v.isets@[s as int].ivs();
            let k = choose|k: int| 0 <= k < ivs.len() && #[trigger] ivs[k].begin <= x < ivs[k].end;
            assert(ivs[k] == IntInterval { begin: oi, end: (oi + 1) as usize });
            assert(x == oi);
            crate::connect::lemma_reachable_refl(f, s);
            assert(s2i[s as int] == x);
        } else {
            assert(v.isets@[u as int] == v0.isets@[u as int]);
            assert(reaches_index(f, s2i0, u, x));
            let g = choose|g: StateId| g < s2i0.len() && #[trigger] s2i0[g as int] == x && x != UNASSIGNED && reachable(f, u, g);
            assert(g != s);
            assert(s2i[g as int] == x);
        }
    }
}

/// `reach_ok` holds after the set of `a` takes in the intervals of `b`,
/// a state that `a` has a transition to.
proof fn lemma_union_reach<'a, W: Semiring>(v: IntervalReachVisitor<'a, W>, v0: IntervalReachVisitor<'a, W>, a: StateId, b: StateId)
    requires
        v0.reach_ok(),
        v0.isets@.len() == v0.fst.states@.len(),
        v0.state2index@.len() == v0.fst.states@.len(),
        a < v0.fst.states@.len(),
        b < v0.fst.states@.len(),
        a != b,
        edge(*v0.fst, a, b),
        v0.seen_states@.contains(a),
        v.fst == v0.fst,
        v.dfs_path@ == v0.dfs_path@,
        v.seen_states@ == v0.seen_states@,
        v.dix@ == v0.dix@,
        v.index == v0.index,
        v.state2index@ == v0.state2index@,
        v.isets@.len() == v0.isets@.len(),
        forall|q: int| 0 <= q < v.isets@.len() && q != a ==> #[trigger] v.isets@[q] == v0.isets@[q],
        v.isets@[a as int].ivs() == v0.isets@[a as int].ivs() + v0.isets@[b as int].ivs(),
    ensures
        v.reach_ok(),
{
    let f = *v.fst;
    let n = f.states@.len();
    let s2i = v.state2index@;
    let path = v.dfs_path@;
    let ia = v0.isets@[a as int].ivs();
    let ib = v0.isets@[b as int].ivs();
    assert forall|i: int| 0 <= i < path.len() && weighted_final(f, #[trigger] path[i]) && v.dix@[path[i]] != UNASSIGNED
        implies v.isets@[path[i] as int].ivs().len() > 0 && v.isets@[path[i] as int].ivs()[0].begin == v.dix@[path[i]]
            && v.isets@[path[i] as int].ivs()[0].end == v.dix@[path[i]] + 1 by {
        assert(v0.dfs_path@[i] == path[i]);
        if path[i] == a {
            assert((ia + ib)[0] == ia[0]);
        } else {
            assert(v.isets@[path[i] as int] == v0.isets@[path[i] as int]);
        }
    }
    assert forall|g: StateId| g < n && !v.seen_states@.contains(g) implies #[trigger] v.isets@[g as int].ivs().len() == 0 by {
        assert(g != a);
    }
    assert forall|u: StateId, x: int| u < n && #[trigger] v.isets@[u as int].contains_point(x)
        implies reaches_index(f, s2i, u, x) by {
        if u == a {
            let k = choose|k: int| 0 <= k < (ia + ib).len() && #[trigger] (ia + ib)[k].begin <= x < (ia + ib)[k].end;
            if k < ia.len() {
                assert((ia + ib)[k] == ia[k]);
                assert(v0.isets@[a as int].contains_point(x));
            } else {
                assert((ia + ib)[k] == ib[k - ia.len()]);
                assert(v0.isets@[b as int].contains_point(x));
                assert(reaches_index(f, s2i, b, x));
                let g = choose|g: StateId| g < s2i.len() && #[trigger] s2i[g as int] == x && x != UNASSIGNED && reachable(f, b, g);
                crate::connect::lemma_edge_reachable(f, a, b);
                crate::connect::lemma_reachable_trans(f, a, b, g);
            }
        } else {
            assert(v.isets@[u as int] == v0.isets@[u as int]);
        }
    }
}

/// `reach_ok` holds once the last state of the path leaves it.
proof fn lemma_pop_reach<'a, W: Semiring>(v: IntervalReachVisitor<'a, W>, v0: IntervalReachVisitor<'a, W>)
    requires
        v0.reach_ok(),
        v0.dfs_path@.len() > 0,
        v.fst == v0.fst,
        v.dfs_path@ == v0.dfs_path@.drop_last(),
        v.seen_states@ == v0.seen_states@,
        v.dix@ == v0.dix@,
        v.index == v0.index,
        v.state2index@ == v0.state2index@,
        v.isets@ == v0.isets@,
    ensures
        v.reach_ok(),
{
    let f = *v.fst;
    let n = f.states@.len();
    let path0 = v0.dfs_path@;
    let path = v.dfs_path@;
    assert forall|i: int| 0 <= i < path.len() implies #[trigger] path[i] == path0[i] by {}
    assert(path.no_duplicates()) by {
        assert forall|i: int, j: int| 0 <= i < path.len() && 0 <= j < path.len() && i != j implies path[i] != path[j] by {
            assert(path[i] == path0[i] && path[j] == path0[j]);
        }
    }
    assert forall|i: int, j: int| 0 <= i <= j < path.len() implies reachable(f, #[trigger] path[i], #[trigger] path[j]) by {
        assert(path[i] == path0[i] && path[j] == path0[j]);
    }
    assert forall|i: int, g: StateId| 0 <= i < path.len() && g < n && v.state2index@[g as int] != UNASSIGNED
        && v.dix@[path[i]] <= #[trigger] v.state2index@[g as int] implies reachable(f, #[trigger] path[i], g) by {
        assert(path[i] == path0[i]);
    }
}

/// `reach_ok` holds after the first interval of `a`, a state off the path,
/// is stretched up to the next index, where every state with an index from
/// its start on is reached from `a`.
proof fn lemma_extend_reach<'a, W: Semiring>(v: IntervalReachVisitor<'a, W>, v0: IntervalReachVisitor<'a, W>, a: StateId)
    requires
        v0.reach_ok(),
        v0.isets@.len() == v0.fst.states@.len(),
        v0.state2index@.len() == v0.fst.states@.len(),
        a < v0.fst.states@.len(),
        !v0.dfs_path@.contains(a),
        v0.seen_states@.contains(a),
        v0.isets@[a as int].ivs().len() > 0,
        1 <= v0.isets@[a as int].ivs()[0].begin,
        v0.index <= UNASSIGNED,
        forall|g: StateId| g < v0.fst.states@.len() && v0.state2index@[g as int] != UNASSIGNED
            && v0.isets@[a as int].ivs()[0].begin <= #[trigger] v0.state2index@[g as int] ==> reachable(*v0.fst, a, g),
        v.fst == v0.fst,
        v.dfs_path@ == v0.dfs_path@,
        v.seen_states@ == v0.seen_states@,
        v.dix@ == v0.dix@,
        v.index == v0.index,
        v.state2index@ == v0.state2index@,
        v.isets@.len() == v0.isets@.len(),
        forall|q: int| 0 <= q < v.isets@.len() && q != a ==> #[trigger] v.isets@[q] == v0.isets@[q],
        v.isets@[a as int].ivs() == v0.isets@[a as int].ivs().update(0,
            IntInterval { begin: v0.isets@[a as int].ivs()[0].begin, end: v0.index }),
    ensures
        v.reach_ok(),
{
    let f = *v.fst;
    let n = f.states@.len();
    let s2i = v.state2index@;
    let path = v.dfs_path@;
    let i0 = v0.isets@[a as int].ivs();
    let i1 = v.isets@[a as int].ivs();
    assert forall|i: int| 0 <= i < path.len() && weighted_final(f, #[trigger] path[i]) && v.dix@[path[i]] != UNASSIGNED
        implies v.isets@[path[i] as int].ivs().len() > 0 && v.isets@[path[i] as int].ivs()[0].begin == v.dix@[path[i]]
            && v.isets@[path[i] as int].ivs()[0].end == v.dix@[path[i]] + 1 by {
        if path[i] == a {
            assert(v0.dfs_path@.contains(a));
        }
        assert(v.isets@[path[i] as int] == v0.isets@[path[i] as int]);
        assert(v0.dfs_path@[i] == path[i]);
    }
    assert forall|g: StateId| g < n && !v.seen_states@.contains(g) implies #[trigger] v.isets@[g as int].ivs().len() == 0 by {
        assert(g != a);
    }
    assert forall|u: StateId, x: int| u < n && #[trigger] v.isets@[u as int].contains_point(x)
        implies reaches_index(f, s2i, u, x) by {
        if u == a {
            let k = choose|k: int| 0 <= k < i1.len() && #[trigger] i1[k].begin <= x < i1[k].end;
            if k == 0 {
                assert(index_used(s2i, x));
                let g = choose|g: StateId| g < s2i.len() && #[trigger] s2i[g as int] == x;
                assert(v0.state2index@[g as int] == x);
                assert(reachable(f, a, g));
            } else {
                assert(i1[k] == i0[k]);
                assert(v0.isets@[a as int].contains_point(x));
            }
        } else {
            assert(v.isets@[u as int] == v0.isets@[u as int]);
        }
    }
}

/// `reach_ok` holds after the set of `a`, a discovered state off the path,
/// is replaced by one with the same points.
proof fn lemma_same_points_reach<'a, W: Semiring>(v: IntervalReachVisitor<'a, W>, v0: IntervalReachVisitor<'a, W>, a: StateId)
    requires
        v0.reach_ok(),
        v0.isets@.len() == v0.fst.states@.len(),
        a < v0.fst.states@.len(),
        !v0.dfs_path@.contains(a),
        v0.seen_states@.contains(a),
        v.fst == v0.fst,
        v.dfs_path@ == v0.dfs_path@,
        v.seen_states@ == v0.seen_states@,
        v.dix@ == v0.dix@,
        v.index == v0.index,
        v.state2index@ == v0.state2index@,
        v.isets@.len() == v0.isets@.len(),
        forall|q: int| 0 <= q < v.isets@.len() && q != a ==> #[trigger] v.isets@[q] == v0.isets@[q],
        forall|x: int| v.isets@[a as int].contains_point(x) == v0.isets@[a as int].contains_point(x),
    ensures
        v.reach_ok(),
{
    let f = *v.fst;
    let n = f.states@.len();
    let path = v.dfs_path@;
    assert forall|i: int| 0 <= i < path.len() && weighted_final(f, #[trigger] path[i]) && v.dix@[path[i]] != UNASSIGNED
        implies v.isets@[path[i] as int].ivs().len() > 0 && v.isets@[path[i] as int].ivs()[0].begin == v.dix@[path[i]]
            && v.isets@[path[i] as int].ivs()[0].end == v.dix@[path[i]] + 1 by {
        if path[i] == a {
            assert(v0.dfs_path@.contains(a));
        }
        assert(v.isets@[path[i] as int] == v0.isets@[path[i] as int]);
        assert(v0.dfs_path@[i] == path[i]);
    }
    assert forall|g: StateId| g < n && !v.seen_states@.contains(g) implies #[trigger] v.isets@[g as int].ivs().len() == 0 by {
        assert(g != a);
    }
    assert forall|u: StateId, x: int| u < n && #[trigger] v.isets@[u as int].contains_point(x)
        implies reaches_index(f, v.state2index@, u, x) by {
        if u != a {
            assert(v.isets@[u as int] == v0.isets@[u as int]);
        }
    }
}

/// What a finished state reaches is finished.
proof fn lemma_fin_closed<W>(f: VectorFst<W>, fin: Map<StateId, nat>, p: Seq<StateId>)
    requires
        forall|u: StateId, e: int| fin.contains_key(u) && 0 <= e < f.states@[u as int].trs@.len()
            ==> fin.contains_key(#[trigger] f.states@[u as int].trs@[e].nextstate)
            && fin[f.states@[u as int].trs@[e].nextstate] < fin[u],
        is_path(f, p),
        fin.contains_key(p[0]),
    ensures
        fin.contains_key(p.last()),
    decreases p.len(),
{
    if p.len() > 1 {
        assert(edge(f, p[0], p[1]));
        let e = choose|e: int| 0 <= e < f.states@[p[0] as int].trs@.len() && #[trigger] f.states@[p[0] as int].trs@[e].nextstate == p[1];
        let rest = p.drop_first();
        assert(is_path(f, rest)) by {
            assert forall|i: int| 0 <= i < rest.len() - 1 implies edge(f, #[trigger] rest[i], rest[i + 1]) by {
                assert(rest[i] == p[i + 1] && rest[i + 1] == p[i + 2]);
            }
        }
        lemma_fin_closed(f, fin, rest);
    }
}

/// A state reached from a finished state is finished.
proof fn lemma_fin_reach<W>(f: VectorFst<W>, fin: Map<StateId, nat>, v: StateId, g: StateId)
    requires
        forall|u: StateId, e: int| fin.contains_key(u) && 0 <= e < f.states@[u as int].trs@.len()
            ==> fin.contains_key(#[trigger] f.states@[u as int].trs@[e].nextstate)
            && fin[f.states@[u as int].trs@[e].nextstate] < fin[u],
        fin.contains_key(v),
        reachable(f, v, g),
    ensures
        fin.contains_key(g),
{
    let p = choose|p: Seq<StateId>| #[trigger] is_path(f, p) && p[0] == v && p.last() == g;
    lemma_fin_closed(f, fin, p);
}

/// A state that reaches another one does so through one of its transitions.
proof fn lemma_reach_first_step<W>(f: VectorFst<W>, a: StateId, g: StateId) -> (e: int)
    requires
        reachable(f, a, g),
        a != g,
    ensures
        0 <= e < f.states@[a as int].trs@.len(),
        reachable(f, f.states@[a as int].trs@[e].nextstate, g),
{
    let p = choose|p: Seq<StateId>| #[trigger] is_path(f, p) && p[0] == a && p.last() == g;
    assert(p.len() > 1);
    assert(edge(f, p[0], p[1]));
    let e = choose|e: int| 0 <= e < f.states@[a as int].trs@.len() && #[trigger] f.states@[a as int].trs@[e].nextstate == p[1];
    let rest = p.drop_first();
    assert(is_path(f, rest)) by {
        assert forall|i: int| 0 <= i < rest.len() - 1 implies edge(f, #[trigger] rest[i], rest[i + 1]) by {
            assert(rest[i] == p[i + 1] && rest[i + 1] == p[i + 2]);
        }
    }
    assert(rest[0] == p[1] && rest.last() == g);
    e
}

/// `complete_ok` holds after `s` is discovered, whether it gets an index or not.
proof fn lemma_init_complete<'a, W: Semiring>(v: IntervalReachVisitor<'a, W>, v0: IntervalReachVisitor<'a, W>, s: StateId)
    requires
        v0.complete_ok(),
        v0.order_ok(),
        v0.reach_ok(),
        !v0.cyclic && !v0.exhausted,
        v0.isets@.len() == v0.fst.states@.len(),
        v0.state2index@.len() == v0.fst.states@.len(),
        s < v0.fst.states@.len(),
        !v0.seen_states@.contains(s),
        v.fst == v0.fst,
        v.dfs_path@ == v0.dfs_path@.push(s),
        v.seen_states@ == v0.seen_states@.insert(s),
        v.fin@ == v0.fin@,
        v.done_map@ == v0.done_map@,
        v.cyclic == v0.cyclic,
        v.isets@.len() == v0.isets@.len(),
        v.state2index@.len() == v0.state2index@.len(),
        forall|q: int| 0 <= q < v.isets@.len() && q != s ==> #[trigger] v.isets@[q] == v0.isets@[q],
        forall|q: int| 0 <= q < v.state2index@.len() && q != s ==> #[trigger] v.state2index@[q] == v0.state2index@[q],
        !v.exhausted && weighted_final(*v.fst, s) ==> v.isets@[s as int].contains_point(v.state2index@[s as int] as int),
    ensures
        v.complete_ok(),
{
    if !v.cyclic && !v.exhausted {
        let f = *v.fst;
        let n = f.states@.len();
        let fin = v.fin@;
        let path0 = v0.dfs_path@;
        let path = v.dfs_path@;
        assert(!fin.contains_key(s));
        assert forall|w: StateId, g: StateId| fin.contains_key(w) && g < n && weighted_final(f, g) && #[trigger] reachable(f, w, g)
            implies v.isets@[w as int].contains_point(v.state2index@[g as int] as int) by {
            lemma_fin_reach(f, fin, w, g);
            assert(w != s && g != s);
            assert(v0.seen_states@.contains(w));
            assert(v.isets@[w as int] == v0.isets@[w as int]);
            assert(v.state2index@[g as int] == v0.state2index@[g as int]);
        }
        assert forall|i: int, e: int, g: StateId| 0 <= i < path.len() && 0 <= e < dn(v.done_map@, path[i])
            && e < f.states@[path[i] as int].trs@.len() && g < n && weighted_final(f, g)
            && #[trigger] reachable(f, f.states@[path[i] as int].trs@[e].nextstate, g)
            implies v.isets@[path[i] as int].contains_point(v.state2index@[g as int] as int) by {
            if i < path0.len() {
                assert(path[i] == path0[i]);
                assert(v0.seen_states@.contains(path0[i]));
                let w = f.states@[path[i] as int].trs@[e].nextstate;
                assert(fin.contains_key(w));
                lemma_fin_reach(f, fin, w, g);
                assert(g != s);
                assert(v.isets@[path[i] as int] == v0.isets@[path0[i] as int]);
                assert(v.state2index@[g as int] == v0.state2index@[g as int]);
            } else {
                assert(path[i] == s);
                assert(dn(v0.done_map@, s) == 0);
            }
        }
        assert forall|i: int| 0 <= i < path.len() && weighted_final(f, #[trigger] path[i])
            implies v.isets@[path[i] as int].contains_point(v.state2index@[path[i] as int] as int) by {
            if i < path0.len() {
                assert(path[i] == path0[i]);
                assert(v0.seen_states@.contains(path0[i]));
                assert(v.isets@[path[i] as int] == v0.isets@[path0[i] as int]);
                assert(v.state2index@[path[i] as int] == v0.state2index@[path0[i] as int]);
            } else {
                assert(path[i] == s);
            }
        }
    }
}

/// `complete_ok` holds after the set of the state `s` being explored takes
/// in that of the finished destination of its next transition.
proof fn lemma_forward_complete<'a, W: Semiring>(v: IntervalReachVisitor<'a, W>, v0: IntervalReachVisitor<'a, W>, s: StateId)
    requires
        v0.complete_ok(),
        v0.order_ok(),
        v0.reach_ok(),
        !v0.cyclic && !v0.exhausted,
        v0.isets@.len() == v0.fst.states@.len(),
        v0.state2index@.len() == v0.fst.states@.len(),
        s < v0.fst.states@.len(),
        v0.dfs_path@.len() > 0,
        v0.dfs_path@.last() == s,
        dn(v0.done_map@, s) < v0.fst.states@[s as int].trs@.len(),
        v0.fin@.contains_key(v0.fst.states@[s as int].trs@[dn(v0.done_map@, s) as int].nextstate),
        v.fst == v0.fst,
        v.dfs_path@ == v0.dfs_path@,
        v.fin@ == v0.fin@,
        v.cyclic == v0.cyclic,
        v.exhausted == v0.exhausted,
        v.done_map@ == v0.done_map@.insert(s, dn(v0.done_map@, s) + 1),
        v.state2index@ == v0.state2index@,
        v.isets@.len() == v0.isets@.len(),
        forall|q: int| 0 <= q < v.isets@.len() && q != s ==> #[trigger] v.isets@[q] == v0.isets@[q],
        forall|x: int| v0.isets@[s as int].contains_point(x) ==> v.isets@[s as int].contains_point(x),
        forall|x: int| v0.isets@[v0.fst.states@[s as int].trs@[dn(v0.done_map@, s) as int].nextstate as int].contains_point(x)
            ==> v.isets@[s as int].contains_point(x),
    ensures
        v.complete_ok(),
{
    let f = *v.fst;
    let n = f.states@.len();
    let fin = v.fin@;
    let path = v.dfs_path@;
    let s2i = v.state2index@;
    let e0 = dn(v0.done_map@, s);
    let w = f.states@[s as int].trs@[e0 as int].nextstate;
    assert(v0.dfs_path@.contains(s)) by {
        assert(path[path.len() - 1] == s);
    }
    assert forall|u: StateId, g: StateId| fin.contains_key(u) && g < n && weighted_final(f, g) && #[trigger] reachable(f, u, g)
        implies v.isets@[u as int].contains_point(s2i[g as int] as int) by {
        assert(u != s);
        assert(v0.seen_states@.contains(u));
        assert(v.isets@[u as int] == v0.isets@[u as int]);
    }
    assert forall|i: int, e: int, g: StateId| 0 <= i < path.len() && 0 <= e < dn(v.done_map@, path[i])
        && e < f.states@[path[i] as int].trs@.len() && g < n && weighted_final(f, g)
        && #[trigger] reachable(f, f.states@[path[i] as int].trs@[e].nextstate, g)
        implies v.isets@[path[i] as int].contains_point(s2i[g as int] as int) by {
        if path[i] == s {
            if e < e0 {
                assert(v0.isets@[s as int].contains_point(s2i[g as int] as int));
            } else {
                assert(e == e0);
                assert(reachable(f, w, g));
                assert(v0.isets@[w as int].contains_point(s2i[g as int] as int));
            }
        } else {
            assert(dn(v.done_map@, path[i]) == dn(v0.done_map@, path[i]));
            assert(v0.seen_states@.contains(path[i]));
            assert(v.isets@[path[i] as int] == v0.isets@[path[i] as int]);
        }
    }
    assert forall|i: int| 0 <= i < path.len() && weighted_final(f, #[trigger] path[i])
        implies v.isets@[path[i] as int].contains_point(s2i[path[i] as int] as int) by {
        assert(v0.seen_states@.contains(path[i]));
        if path[i] == s {
            assert(v0.isets@[s as int].contains_point(s2i[s as int] as int));
        } else {
            assert(v.isets@[path[i] as int] == v0.isets@[path[i] as int]);
        }
    }
}

/// `complete_ok` holds once `s` is finished: its set kept its points and
/// its parent's set took them in.
proof fn lemma_finish_complete<'a, W: Semiring>(
    v: IntervalReachVisitor<'a, W>,
    v0: IntervalReachVisitor<'a, W>,
    s: StateId,
    parent: Option<StateId>,
)
    requires
        v0.complete_ok(),
        v0.order_ok(),
        v0.reach_ok(),
        !v0.cyclic && !v0.exhausted,
        v0.isets@.len() == v0.fst.states@.len(),
        v0.state2index@.len() == v0.fst.states@.len(),
        s < v0.fst.states@.len(),
        v0.dfs_path@.len() > 0,
        v0.dfs_path@.last() == s,
        dn(v0.done_map@, s) == v0.fst.states@[s as int].trs@.len(),
        parent == if v0.dfs_path@.len() > 1 { Some(v0.dfs_path@[v0.dfs_path@.len() - 2]) } else { None::<StateId> },
        parent matches Some(p) ==> dn(v0.done_map@, p) < v0.fst.states@[p as int].trs@.len()
            && v0.fst.states@[p as int].trs@[dn(v0.done_map@, p) as int].nextstate == s,
        v.fst == v0.fst,
        v.dfs_path@ == v0.dfs_path@.drop_last(),
        v.fin@ == v0.fin@.insert(s, v0.nfin@),
        v.cyclic == v0.cyclic,
        v.exhausted == v0.exhausted,
        v.done_map@ == (match parent {
            Some(p) => v0.done_map@.insert(p, dn(v0.done_map@, p) + 1),
            None => v0.done_map@,
        }),
        v.state2index@ == v0.state2index@,
        v.isets@.len() == v0.isets@.len(),
        forall|x: int| v0.isets@[s as int].contains_point(x) ==> v.isets@[s as int].contains_point(x),
        parent matches Some(p) ==> forall|x: int| v0.isets@[p as int].contains_point(x) || v.isets@[s as int].contains_point(x)
            ==> v.isets@[p as int].contains_point(x),
        forall|q: int| 0 <= q < v.isets@.len() && q != s && (parent matches Some(p) ==> q != p) ==> #[trigger] v.isets@[q] == v0.isets@[q],
    ensures
        v.complete_ok(),
{
    let f = *v.fst;
    let n = f.states@.len();
    let fin0 = v0.fin@;
    let fin = v.fin@;
    let path0 = v0.dfs_path@;
    let path = v.dfs_path@;
    let s2i = v.state2index@;
    let l0 = path0.len() - 1;
    assert(path0[l0] == s);
    assert(!fin0.contains_key(s)) by {
        assert(path0.contains(path0[l0]));
    }
    assert forall|g: StateId| g < n && weighted_final(f, g) && #[trigger] reachable(f, s, g)
        implies v.isets@[s as int].contains_point(s2i[g as int] as int) by {
        if g == s {
            assert(weighted_final(f, path0[l0]));
        } else {
            let e = lemma_reach_first_step(f, s, g);
            assert(reachable(f, f.states@[path0[l0] as int].trs@[e].nextstate, g));
        }
    }
    assert forall|u: StateId, g: StateId| fin.contains_key(u) && g < n && weighted_final(f, g) && #[trigger] reachable(f, u, g)
        implies v.isets@[u as int].contains_point(s2i[g as int] as int) by {
        if u != s {
            assert(fin0.contains_key(u));
            assert(!path0.contains(u));
            if let Some(p) = parent {
                assert(path0[l0 - 1] == p);
                assert(u != p);
            }
            assert(v.isets@[u as int] == v0.isets@[u as int]);
        }
    }
    assert forall|i: int, e: int, g: StateId| 0 <= i < path.len() && 0 <= e < dn(v.done_map@, path[i])
        && e < f.states@[path[i] as int].trs@.len() && g < n && weighted_final(f, g)
        && #[trigger] reachable(f, f.states@[path[i] as int].trs@[e].nextstate, g)
        implies v.isets@[path[i] as int].contains_point(s2i[g as int] as int) by {
        assert(path[i] == path0[i]);
        assert(path0[i] != s);
        match parent {
            Some(p) => {
                if path[i] == p {
                    if e < dn(v0.done_map@, p) {
                        assert(v0.isets@[p as int].contains_point(s2i[g as int] as int));
                    } else {
                        assert(f.states@[p as int].trs@[e].nextstate == s);
                        assert(v.isets@[s as int].contains_point(s2i[g as int] as int));
                    }
                } else {
                    assert(dn(v.done_map@, path[i]) == dn(v0.done_map@, path[i]));
                    assert(v.isets@[path[i] as int] == v0.isets@[path[i] as int]);
                }
            },
            None => {
                assert(v.isets@[path[i] as int] == v0.isets@[path[i] as int]);
            },
        }
    }
    assert forall|i: int| 0 <= i < path.len() && weighted_final(f, #[trigger] path[i])
        implies v.isets@[path[i] as int].contains_point(s2i[path[i] as int] as int) by {
        assert(path[i] == path0[i]);
        assert(path0[i] != s);
        assert(v0.isets@[path0[i] as int].contains_point(s2i[path0[i] as int] as int));
        match parent {
            Some(p) => {
                if path[i] != p {
                    assert(v.isets@[path[i] as int] == v0.isets@[path[i] as int]);
                }
            },
            None => {
                assert(v.isets@[path[i] as int] == v0.isets@[path[i] as int]);
            },
        }
    }
}

fn default_isets(n: usize) -> (v: Vec<IntervalSet>)
    ensures
        v@.len() == n,
        forall|i: int| 0 <= i < n ==> (#[trigger] v@[i]).ivs().len() == 0,
{
    let mut v: Vec<IntervalSet> = Vec::new();
    let mut i: usize = 0;
    while i < n
        invariant
            i <= n,
            v@.len() == i,
            forall|q: int| 0 <= q < i ==> (#[trigger] v@[q]).ivs().len() == 0,
        decreases n - i,
    {
        v.push(IntervalSet::new());
        i += 1;
    }
    v
}

fn unassigned_vec(n: usize) -> (v: Vec<usize>)
    ensures
        v@.len() == n,
        forall|i: int| 0 <= i < n ==> #[trigger] v@[i] == UNASSIGNED,
{
    let mut v: Vec<usize> = Vec::new();
    let mut i: usize = 0;
    while i < n
        invariant
            i <= n,
            v@.len() == i,
            forall|q: int| 0 <= q < i ==> #[trigger] v@[q] == UNASSIGNED,
        decreases n - i,
    {
        v.push(UNASSIGNED);
        i += 1;
    }
    v
}

impl<'a, W: Semiring> Visitor<'a, W> for IntervalReachVisitor<'a, W> {
    open spec fn fst_spec(&self) -> VectorFst<W> {
        *self.fst
    }

    open spec fn ready(&self) -> bool {
        &&& self.isets@.len() == self.fst.states@.len()
        &&& self.state2index@.len() == self.fst.states@.len()
        &&& isets_positive(self.isets@)
        &&& self.index >= 1
        &&& forall|s: int| 0 <= s < self.state2index@.len() ==> #[trigger] self.state2index@[s] >= 1
        &&& self.discovered@ <= self.fst.states@.len()
        &&& self.index <= self.discovered@ + 1
        &&& self.exhausted ==> self.index == UNASSIGNED
        &&& self.order_ok()
        &&& self.reach_ok()
        &&& self.cycle_ok()
        &&& self.complete_ok()
    }

    open spec fn inits(&self) -> nat {
        self.discovered@
    }

    open spec fn path(&self) -> Seq<StateId> {
        self.dfs_path@
    }

    open spec fn seen(&self) -> Set<StateId> {
        self.seen_states@
    }

    open spec fn done(&self, s: StateId) -> nat {
        dn(self.done_map@, s)
    }

    open spec fn stopped(&self) -> bool {
        self.cyclic || self.exhausted
    }

    fn init_visit(&mut self, fst: &'a VectorFst<W>) {
        let n = fst.num_states();
        self.fst = fst;
        self.isets = default_isets(n);
        self.state2index = unassigned_vec(n);
        self.index = 1;
        self.cyclic = false;
        self.exhausted = false;
        self.discovered = Ghost(0);
        self.dfs_path = Ghost(Seq::empty());
        self.seen_states = Ghost(Set::empty());
        self.done_map = Ghost(Map::empty());
        self.fin = Ghost(Map::empty());
        self.nfin = Ghost(0);
        self.dix = Ghost(Map::empty());
        proof {
            assert forall|u: StateId, x: int| u < n && #[trigger] self.isets@[u as int].contains_point(x)
                implies reaches_index(*self.fst, self.state2index@, u, x) by {
                assert(self.isets@[u as int].ivs().len() == 0);
            }
        }
    }

    fn init_state(&mut self, s: StateId, root: StateId) -> (b: bool) {
        self.discovered = Ghost(self.discovered@ + 1);
        self.dfs_path = Ghost(self.dfs_path@.push(s));
        self.seen_states = Ghost(self.seen_states@.insert(s));
        self.dix = Ghost(self.dix@.insert(s, self.index as nat));
        proof {
            let f = *self.fst;
            let path0 = old(self).dfs_path@;
            let path = self.dfs_path@;
            let seen = self.seen_states@;
            let fin = self.fin@;
            assert(!path0.contains(s)) by {
                if path0.contains(s) {
                    let i = choose|i: int| 0 <= i < path0.len() && path0[i] == s;
                    assert(old(self).seen_states@.contains(path0[i]));
                }
            }
            assert forall|v: StateId| path.contains(v) implies v == s || path0.contains(v) by {
                let i = choose|i: int| 0 <= i < path.len() && path[i] == v;
                if i < path0.len() {
                    assert(path0[i] == v);
                }
            }
            assert forall|v: StateId| path0.contains(v) implies path.contains(v) by {
                let i = choose|i: int| 0 <= i < path0.len() && path0[i] == v;
                assert(path[i] == v);
            }
            assert(path.no_duplicates()) by {
                assert forall|i: int, j: int| 0 <= i < path.len() && 0 <= j < path.len() && i != j implies path[i] != path[j] by {
                    if i < path0.len() && j < path0.len() {
                        assert(path[i] == path0[i] && path[j] == path0[j]);
                    } else if i < path0.len() {
                        assert(path[i] == path0[i]);
                        assert(path0.contains(path0[i]));
                    } else if j < path0.len() {
                        assert(path[j] == path0[j]);
                        assert(path0.contains(path0[j]));
                    }
                }
            }
            assert forall|i: int| 0 <= i < path.len() implies seen.contains(#[trigger] path[i]) by {
                if i < path0.len() {
                    assert(path[i] == path0[i]);
                }
            }
            assert forall|i: int, e: int| 0 <= i < path.len() && 0 <= e < dn(self.done_map@, path[i]) && e < f.states@[path[i] as int].trs@.len()
                implies fin.contains_key(#[trigger] f.states@[path[i] as int].trs@[e].nextstate) by {
                if i < path0.len() {
                    assert(path[i] == path0[i]);
                } else {
                    assert(path[i] == s);
                }
            }
            assert(path.contains(s)) by {
                assert(path[path0.len() as int] == s);
            }
            assert forall|v: StateId| #[trigger] seen.contains(v) && !path.contains(v) implies fin.contains_key(v) by {
                assert(v != s);
                assert(old(self).seen_states@.contains(v));
                assert(!path0.contains(v));
            }
            assert(self.order_ok());
            lemma_init_path_reach(*self, *old(self), s);
        }
        let is_final = match &self.fst.states[s].final_weight {
            Some(w) => !w.is_zero(),
            None => false,
        };
        assert(is_final == weighted_final(*self.fst, s));
        if is_final {
            if self.index == UNASSIGNED {
                let index = self.state2index[s];
                if self.fst.states[s].trs.len() > 0 || index == UNASSIGNED {
                    self.exhausted = true;
                    proof {
                        lemma_init_reach_unchanged(*self, *old(self), s);
                        lemma_init_complete(*self, *old(self), s);
                    }
                    return false;
                }
                let ghost before = self.isets@;
                self.isets[s].push(IntInterval::new(index, index + 1));
                proof {
                    assert forall|q: int| 0 <= q < self.isets@.len() implies ivs_positive(#[trigger] self.isets@[q].ivs()) by {
                        if q != s {
                            assert(self.isets@[q] == before[q]);
                        } else {
                            assert(ivs_positive(before[q].ivs()));
                        }
                    }
                }
            } else {
                let index = self.index;
                let ghost before = self.isets@;
                self.isets[s].push(IntInterval::new(index, index + 1));
                self.state2index.set(s, index);
                self.index = index + 1;
                proof {
                    assert forall|q: int| 0 <= q < self.isets@.len() implies ivs_positive(#[trigger] self.isets@[q].ivs()) by {
                        if q != s {
                            assert(self.isets@[q] == before[q]);
                        } else {
                            assert(ivs_positive(before[q].ivs()));
                        }
                    }
                    lemma_init_reach_assigned(*self, *old(self), s);
                    let iv = self.isets@[s as int].ivs();
                    assert(iv[iv.len() - 1].begin <= index < iv[iv.len() - 1].end);
                    lemma_init_complete(*self, *old(self), s);
                }
                return true;
            }
        }
        proof {
            lemma_init_reach_unchanged(*self, *old(self), s);
            lemma_init_complete(*self, *old(self), s);
        }
        true
    }

    fn tree_tr(&mut self, s: StateId, tr: &Tr<W>) -> (b: bool) {
        true
    }

    fn back_tr(&mut self, s: StateId, tr: &Tr<W>) -> (b: bool) {
        self.done_map = Ghost(self.done_map@.insert(s, self.done(s) + 1));
        self.cyclic = true;
        proof {
            let path = self.dfs_path@;
            let i = choose|i: int| 0 <= i < path.len() && path[i] == tr.nextstate;
            assert(reachable(*self.fst, path[i], path[path.len() - 1]));
            assert(edge(*self.fst, s, tr.nextstate));
        }
        false
    }

    fn forward_or_cross_tr(&mut self, s: StateId, tr: &Tr<W>) -> (b: bool) {
        self.done_map = Ghost(self.done_map@.insert(s, self.done(s) + 1));
        proof {
            let f = *self.fst;
            let path = self.dfs_path@;
            let fin = self.fin@;
            assert(fin.contains_key(tr.nextstate));
            assert forall|i: int, e: int| 0 <= i < path.len() && 0 <= e < dn(self.done_map@, path[i]) && e < f.states@[path[i] as int].trs@.len()
                implies fin.contains_key(#[trigger] f.states@[path[i] as int].trs@[e].nextstate) by {
                if path[i] == s && e == dn(old(self).done_map@, s) {
                    assert(f.states@[s as int].trs@[e] == *tr);
                } else if path[i] == s {
                    assert(e < dn(old(self).done_map@, path[i]));
                } else {
                    assert(dn(self.done_map@, path[i]) == dn(old(self).done_map@, path[i]));
                }
            }
            assert(path[path.len() - 1] == s);
            assert(self.seen_states@.contains(s));
            assert forall|v: StateId| !self.seen_states@.contains(v) implies #[trigger] dn(self.done_map@, v) == 0 by {
                assert(v != s);
                assert(dn(old(self).done_map@, v) == 0);
            }
            assert(self.order_ok());
        }
        let ghost v0 = *self;
        proof {
            assert(self.dfs_path@[self.dfs_path@.len() - 1] == s);
            assert(old(self).dfs_path@.contains(s));
        }
        if s != tr.nextstate {
            let ghost before = self.isets@;
            union_vec_isets_unordered(&mut self.isets, s, tr.nextstate);
            proof {
                lemma_union_reach(*self, v0, s, tr.nextstate);
                let a = before[s as int].ivs();
                let b = before[tr.nextstate as int].ivs();
                assert forall|x: int| before[s as int].contains_point(x) implies self.isets@[s as int].contains_point(x) by {
                    let k = choose|k: int| 0 <= k < a.len() && #[trigger] a[k].begin <= x < a[k].end;
                    assert((a + b)[k] == a[k]);
                }
                assert forall|x: int| before[tr.nextstate as int].contains_point(x) implies self.isets@[s as int].contains_point(x) by {
                    let k = choose|k: int| 0 <= k < b.len() && #[trigger] b[k].begin <= x < b[k].end;
                    assert((a + b)[k + a.len()] == b[k]);
                }
                assert(old(self).fst.states@[s as int].trs@[dn(old(self).done_map@, s) as int] == *tr);
                lemma_forward_complete(*self, *old(self), s);
                assert forall|q: int| 0 <= q < self.isets@.len() implies ivs_positive(#[trigger] self.isets@[q].ivs()) by {
                    if q != s {
                        assert(self.isets@[q] == before[q]);
                    } else {
                        assert(ivs_positive(before[s as int].ivs()));
                        assert(ivs_positive(before[tr.nextstate as int].ivs()));
                        let a = before[s as int].ivs();
                        let b = before[tr.nextstate as int].ivs();
                        assert forall|i: int| 0 <= i < (a + b).len() implies 1 <= #[trigger] (a + b)[i].begin && (a + b)[i].begin < (a + b)[i].end by {
                            if i < a.len() {
                                assert((a + b)[i] == a[i]);
                            } else {
                                assert((a + b)[i] == b[i - a.len()]);
                            }
                        }
                    }
                }
            }
        }
        true
    }

    fn finish_state(&mut self, s: StateId, parent: Option<StateId>) {
        match parent {
            Some(p) => {
                self.done_map = Ghost(self.done_map@.insert(p, self.done(p) + 1));
            },
            None => {},
        }
        self.dfs_path = Ghost(self.dfs_path@.drop_last());
        self.fin = Ghost(self.fin@.insert(s, self.nfin@));
        self.nfin = Ghost(self.nfin@ + 1);
        proof {
            if !self.cyclic && !self.exhausted {
                let f = *self.fst;
                let path0 = old(self).dfs_path@;
                let path = self.dfs_path@;
                let fin0 = old(self).fin@;
                let fin = self.fin@;
                let d0 = old(self).done_map@;
                let d = self.done_map@;
                assert(path0.last() == s);
                assert(path0 == path.push(s));
                assert(old(self).seen_states@.contains(path0[path0.len() - 1]));
                assert(!fin0.contains_key(s)) by {
                    assert(path0.contains(path0[path0.len() - 1]));
                }
                assert(!path.contains(s)) by {
                    if path.contains(s) {
                        let i = choose|i: int| 0 <= i < path.len() && path[i] == s;
                        assert(path0[i] == s);
                        assert(path0[path0.len() - 1] == s);
                    }
                }
                assert forall|v: StateId| path.contains(v) implies path0.contains(v) by {
                    let i = choose|i: int| 0 <= i < path.len() && path[i] == v;
                    assert(path0[i] == v);
                }
                assert forall|v: StateId| path0.contains(v) && v != s implies path.contains(v) by {
                    let i = choose|i: int| 0 <= i < path0.len() && path0[i] == v;
                    if i < path.len() {
                        assert(path[i] == v);
                    }
                }
                assert(path.no_duplicates()) by {
                    assert forall|i: int, j: int| 0 <= i < path.len() && 0 <= j < path.len() && i != j implies path[i] != path[j] by {
                        assert(path[i] == path0[i] && path[j] == path0[j]);
                    }
                }
                assert forall|i: int| 0 <= i < path.len() implies old(self).seen_states@.contains(#[trigger] path[i]) by {
                    assert(path[i] == path0[i]);
                }
                assert forall|e: int| 0 <= e < f.states@[s as int].trs@.len()
                    implies fin0.contains_key(#[trigger] f.states@[s as int].trs@[e].nextstate) by {
                    assert(path0[path0.len() - 1] == s);
                }
                assert forall|u: StateId, e: int| fin.contains_key(u) && 0 <= e < f.states@[u as int].trs@.len()
                    implies fin.contains_key(#[trigger] f.states@[u as int].trs@[e].nextstate)
                    && fin[f.states@[u as int].trs@[e].nextstate] < fin[u] by {
                    let w = f.states@[u as int].trs@[e].nextstate;
                    if u == s {
                        assert(fin0.contains_key(w));
                        assert(w != s);
                    } else {
                        assert(fin0.contains_key(u));
                        assert(fin0.contains_key(w));
                        assert(w != s);
                    }
                }
                assert forall|i: int, e: int| 0 <= i < path.len() && 0 <= e < dn(d, path[i]) && e < f.states@[path[i] as int].trs@.len()
                    implies fin.contains_key(#[trigger] f.states@[path[i] as int].trs@[e].nextstate) by {
                    assert(path[i] == path0[i]);
                    if parent == Some(path[i]) && e == dn(d0, path[i]) {
                        assert(path0.len() > 1);
                        assert(f.states@[path[i] as int].trs@[e].nextstate == s);
                    } else if parent == Some(path[i]) {
                        assert(e < dn(d0, path0[i]));
                    } else {
                        assert(dn(d, path[i]) == dn(d0, path[i]));
                    }
                }
                let seen = self.seen_states@;
                assert forall|v: StateId| #[trigger] fin.contains_key(v) implies seen.contains(v) && !path.contains(v) && fin[v] < self.nfin@ by {
                    if v != s {
                        assert(fin0.contains_key(v));
                        assert(!path0.contains(v));
                    }
                }
                assert forall|v: StateId| #[trigger] seen.contains(v) && !path.contains(v) implies fin.contains_key(v) by {
                    if v != s {
                        assert(!path0.contains(v));
                    }
                }
                if parent is Some {
                    assert(path0[path0.len() - 2] == parent->0);
                    assert(seen.contains(path0[path0.len() - 2]));
                }
                assert forall|v: StateId| !seen.contains(v) implies #[trigger] dn(d, v) == 0 by {
                    assert(dn(d0, v) == 0);
                }
                assert(self.order_ok());
            }
        }
        proof {
            lemma_pop_reach(*self, *old(self));
        }
        let ghost l0 = (old(self).dfs_path@.len() - 1) as int;
        proof {
            let path0 = old(self).dfs_path@;
            assert(path0[l0] == s);
            assert(!self.dfs_path@.contains(s)) by {
                if self.dfs_path@.contains(s) {
                    let i = choose|i: int| 0 <= i < self.dfs_path@.len() && self.dfs_path@[i] == s;
                    assert(path0[i] == s);
                }
            }
            assert(old(self).seen_states@.contains(path0[l0]));
        }
        let is_final = match &self.fst.states[s].final_weight {
            Some(w) => !w.is_zero(),
            None => false,
        };
        assert(is_final == weighted_final(*self.fst, s));
        if self.index != UNASSIGNED && is_final && self.isets[s].intervals.intervals.len() > 0
            && self.isets[s].intervals.intervals[0].begin < self.index {
            let ghost before = self.isets@;
            let ghost v1 = *self;
            proof {
                let path0 = old(self).dfs_path@;
                let d = old(self).dix@[path0[l0]];
                assert(old(self).dix@.contains_key(path0[l0]));
                assert(d <= self.index);
                assert(weighted_final(*self.fst, path0[l0]));
                assert(self.isets@[s as int].ivs()[0].begin == d);
                assert(self.isets@[s as int].ivs()[0].end == d + 1);
                assert forall|g: StateId| g < self.fst.states@.len() && self.state2index@[g as int] != UNASSIGNED
                    && d <= #[trigger] self.state2index@[g as int] implies reachable(*self.fst, s, g) by {
                    assert(reachable(*self.fst, path0[l0], g));
                }
            }
            let mut first = self.isets[s].intervals.intervals[0];
            first.end = self.index;
            self.isets[s].intervals.intervals.set(0, first);
            proof {
                assert(self.isets@[s as int].ivs() == before[s as int].ivs().update(0,
                    IntInterval { begin: before[s as int].ivs()[0].begin, end: self.index }));
                lemma_extend_reach(*self, v1, s);
                let a0 = before[s as int].ivs();
                let a1 = self.isets@[s as int].ivs();
                assert forall|x: int| old(self).isets@[s as int].contains_point(x) implies self.isets@[s as int].contains_point(x) by {
                    let k = choose|k: int| 0 <= k < a0.len() && #[trigger] a0[k].begin <= x < a0[k].end;
                    if k == 0 {
                        assert(a1[0].begin <= x < a1[0].end);
                    } else {
                        assert(a1[k] == a0[k]);
                    }
                }
                assert forall|q: int| 0 <= q < self.isets@.len() implies ivs_positive(#[trigger] self.isets@[q].ivs()) by {
                    if q != s {
                        assert(self.isets@[q] == before[q]);
                    } else {
                        assert(ivs_positive(before[q].ivs()));
                        assert forall|i: int| 0 <= i < self.isets@[q].ivs().len() implies 1 <= #[trigger] self.isets@[q].ivs()[i].begin
                            && self.isets@[q].ivs()[i].begin < self.isets@[q].ivs()[i].end by {
                            if i != 0 {
                                assert(self.isets@[q].ivs()[i] == before[q].ivs()[i]);
                            }
                        }
                    }
                }
            }
        }
        let ghost before = self.isets@;
        let ghost before_s = self.isets@[s as int];
        let ghost v2 = *self;
        self.isets[s].normalize();
        proof {
            assert forall|x: int| old(self).isets@[s as int].contains_point(x) implies before_s.contains_point(x) by {}
            assert forall|q: int| 0 <= q < self.isets@.len() && q != s implies #[trigger] self.isets@[q] == old(self).isets@[q] by {
                assert(self.isets@[q] == before[q]);
            }
            lemma_same_points_reach(*self, v2, s);
            lemma_normalize_positive(before_s, self.isets@[s as int]);
            assert forall|q: int| 0 <= q < self.isets@.len() implies ivs_positive(#[trigger] self.isets@[q].ivs()) by {
                if q != s {
                    assert(self.isets@[q] == before[q]);
                }
            }
        }
        match parent {
            Some(p) => {
                if p != s {
                    let ghost before = self.isets@;
                    let ghost v3 = *self;
                    proof {
                        let path0 = old(self).dfs_path@;
                        assert(path0[l0 - 1] == p);
                        assert(self.dfs_path@[l0 - 1] == p);
                        assert(self.seen_states@.contains(self.dfs_path@[l0 - 1]));
                        let e = dn(old(self).done_map@, p) as int;
                        assert(self.fst.states@[p as int].trs@[e].nextstate == s);
                        assert(edge(*self.fst, p, s));
                    }
                    union_vec_isets_unordered(&mut self.isets, p, s);
                    proof {
                        lemma_union_reach(*self, v3, p, s);
                        let a = before[p as int].ivs();
                        let b = before[s as int].ivs();
                        assert(before[p as int] == old(self).isets@[p as int]);
                        assert forall|x: int| old(self).isets@[p as int].contains_point(x) || self.isets@[s as int].contains_point(x)
                            implies self.isets@[p as int].contains_point(x) by {
                            if old(self).isets@[p as int].contains_point(x) {
                                let k = choose|k: int| 0 <= k < a.len() && #[trigger] a[k].begin <= x < a[k].end;
                                assert((a + b)[k] == a[k]);
                            } else {
                                let k = choose|k: int| 0 <= k < b.len() && #[trigger] b[k].begin <= x < b[k].end;
                                assert((a + b)[k + a.len()] == b[k]);
                            }
                        }
                        assert forall|q: int| 0 <= q < self.isets@.len() implies ivs_positive(#[trigger] self.isets@[q].ivs()) by {
                            if q != p {
                                assert(self.isets@[q] == before[q]);
                            } else {
                                assert(ivs_positive(before[p as int].ivs()));
                                assert(ivs_positive(before[s as int].ivs()));
                                let a = before[p as int].ivs();
                                let b = before[s as int].ivs();
                                assert forall|i: int| 0 <= i < (a + b).len() implies 1 <= #[trigger] (a + b)[i].begin && (a + b)[i].begin < (a + b)[i].end by {
                                    if i < a.len() {
                                        assert((a + b)[i] == a[i]);
                                    } else {
                                        assert((a + b)[i] == b[i - a.len()]);
                                    }
                                }
                            }
                        }
                    }
                }
            },
            None => {},
        }
        proof {
            if !self.cyclic && !self.exhausted {
                let path0 = old(self).dfs_path@;
                if let Some(p) = parent {
                    assert(path0[l0 - 1] == p);
                    assert(p != s);
                }
                assert forall|q: int| 0 <= q < self.isets@.len() && q != s && (parent matches Some(p) ==> q != p)
                    implies #[trigger] self.isets@[q] == old(self).isets@[q] by {}
                lemma_finish_complete(*self, *old(self), s, parent);
            }
        }
    }

    fn finish_visit(&mut self) {
    }
}

/// Tests reachability of final states from a given state: a final state `f`
/// can be reached from `s` iff the index of `f` lies in the interval set of `s`.
/// The input can be cyclic, but no cycle may contain a final state.
pub struct StateReachable {
    pub isets: Vec<IntervalSet>,
    pub state2index: Vec<usize>,
}

impl StateReachable {
    /// One interval set and one index per state; the sets are normalized, of
    /// positive non-empty intervals; every index is positive.
    pub open spec fn wf(&self) -> bool {
        &&& self.isets@.len() == self.state2index@.len()
        &&& isets_normalized(self.isets@)
        &&& isets_positive(self.isets@)
        &&& forall|s: int| 0 <= s < self.state2index@.len() ==> #[trigger] self.state2index@[s] >= 1
    }

    /// Each state reaches every state whose index lies in its interval set.
    pub open spec fn sound_for<W>(&self, fst: VectorFst<W>) -> bool {
        forall|u: StateId, f: StateId| u < self.isets@.len() && f < self.state2index@.len()
            && #[trigger] self.isets@[u as int].contains_point(#[trigger] self.state2index@[f as int] as int)
            ==> reachable(fst, u, f)
    }

    /// Each state's interval set holds the index of every final state, of a
    /// final weight that is not zero, that it reaches.
    pub open spec fn complete_for<W: Semiring>(&self, fst: VectorFst<W>) -> bool {
        forall|u: StateId, f: StateId| u < self.isets@.len() && f < self.state2index@.len() && weighted_final(fst, f)
            && #[trigger] reachable(fst, u, f) ==> self.isets@[u as int].contains_point(self.state2index@[f as int] as int)
    }

    /// Runs the interval search; the sets of the states are normalized at the end.
    fn visit<W: Semiring>(fst: &VectorFst<W>) -> (r: (Self, bool, bool))
        requires
            fst.wf(),
        ensures
            r.0.wf(),
            r.0.isets@.len() == fst.states@.len(),
            r.0.sound_for(*fst),
            r.1 ==> has_cycle(*fst),
            !r.1 && !r.2 && (fst.start_state is Some || fst.states@.len() == 0) ==> r.0.complete_for(*fst),
            r.2 ==> fst.states@.len() + 1 >= usize::MAX,
            !r.1 && !r.2 && (fst.start_state is Some || fst.states@.len() == 0) ==> !final_on_cycle(*fst),
    {
        let mut reach_visitor = IntervalReachVisitor::new(fst);
        dfs_visit(fst, &mut reach_visitor, false);
        proof {
            if !reach_visitor.cyclic && !reach_visitor.exhausted {
                if fst.start_state is Some {
                    let num = reach_visitor.fin@;
                    assert forall|v: StateId| v < fst.states@.len() implies #[trigger] num.contains_key(v) by {
                        assert(reach_visitor.seen().contains(v));
                        assert(reach_visitor.path().len() == 0);
                        assert(!reach_visitor.dfs_path@.contains(v));
                    }
                    lemma_descend_no_cycle(*fst, num);
                } else if fst.states@.len() == 0 {
                    assert(!final_on_cycle(*fst));
                }
            }
        }
        let ghost rv = reach_visitor;
        let cyclic = reach_visitor.cyclic;
        let exhausted = reach_visitor.exhausted;
        let mut isets = reach_visitor.isets;
        let state2index = reach_visitor.state2index;
        let n = isets.len();
        let mut i: usize = 0;
        while i < n
            invariant
                i <= n,
                isets@.len() == n,
                isets_positive(isets@),
                forall|q: int| 0 <= q < i ==> (#[trigger] isets@[q]).is_normalized(),
                forall|q: int, x: int| 0 <= q < n ==> #[trigger] isets@[q].contains_point(x) == rv.isets@[q].contains_point(x),
            decreases n - i,
        {
            let ghost before = isets@;
            let ghost before_i = isets@[i as int];
            isets[i].normalize();
            proof {
                lemma_normalize_positive(before_i, isets@[i as int]);
                assert forall|q: int| 0 <= q < isets@.len() implies ivs_positive(#[trigger] isets@[q].ivs()) by {
                    if q != i {
                        assert(isets@[q] == before[q]);
                    }
                }
                assert forall|q: int| 0 <= q < i + 1 implies (#[trigger] isets@[q]).is_normalized() by {
                    if q != i {
                        assert(isets@[q] == before[q]);
                    }
                }
                assert forall|q: int, x: int| 0 <= q < n implies #[trigger] isets@[q].contains_point(x) == rv.isets@[q].contains_point(x) by {
                    if q != i {
                        assert(isets@[q] == before[q]);
                    }
                }
            }
            i += 1;
        }
        let r = StateReachable { isets, state2index };
        proof {
            let f = *fst;
            let s2i = r.state2index@;
            assert(rv.reach_ok());
            assert forall|u: StateId, g: StateId| u < r.isets@.len() && g < r.state2index@.len()
                && #[trigger] r.isets@[u as int].contains_point(#[trigger] r.state2index@[g as int] as int)
                implies reachable(f, u, g) by {
                let x = s2i[g as int] as int;
                assert(rv.isets@[u as int].contains_point(x));
                assert(reaches_index(f, s2i, u, x));
                let h = choose|h: StateId| h < s2i.len() && #[trigger] s2i[h as int] == x && x != UNASSIGNED && reachable(f, u, h);
                assert(s2i[h as int] == s2i[g as int]);
            }
            if !cyclic && !exhausted && fst.start_state is Some {
                assert forall|u: StateId, g: StateId| u < r.isets@.len() && g < r.state2index@.len() && weighted_final(f, g)
                    && #[trigger] reachable(f, u, g) implies r.isets@[u as int].contains_point(r.state2index@[g as int] as int) by {
                    assert(rv.seen().contains(u));
                    assert(rv.path().len() == 0);
                    assert(!rv.dfs_path@.contains(u));
                    assert(rv.fin@.contains_key(u));
                    assert(rv.isets@[u as int].contains_point(s2i[g as int] as int));
                }
            }
        }
        (r, cyclic, exhausted)
    }

    /// The interval sets of an acyclic FST.
    pub fn new_acyclic<W: Semiring>(fst: &VectorFst<W>) -> (r: Self)
        requires
            fst.wf(),
        ensures
            r.wf(),
            r.isets@.len() == fst.states@.len(),
            r.sound_for(*fst),
            !has_cycle(*fst) && fst.states@.len() + 1 < usize::MAX && (fst.start_state is Some || fst.states@.len() == 0)
                ==> r.complete_for(*fst),
    {
        let (r, _, _) = Self::visit(fst);
        r
    }

    /// The interval sets of a cyclic FST, through its condensation; fails when
    /// a final state lies on a cycle.
    pub fn new_cyclic<W: Semiring>(fst: &VectorFst<W>) -> (r: Result<Self, FstError>)
        requires
            fst.wf(),
            fst.states@.len() > 0 ==> fst.start_state is Some,
        ensures
            r matches Ok(sr) ==> sr.wf() && sr.isets@.len() == fst.states@.len() && sr.sound_for(*fst),
            fst.states@.len() + 1 < usize::MAX ==> (r matches Ok(sr) ==> sr.complete_for(*fst)),
            r is Err ==> r == Err::<Self, FstError>(FstError::FinalStateInCycle),
            (r is Err) == final_on_cycle(*fst),
    {
        let (scc, cfst) = match condense(fst) {
            Ok(p) => p,
            Err(e) => {
                return Err(FstError::FinalStateInCycle);
            },
        };
        let creach = Self::new_acyclic(&cfst);
        proof {
            lemma_descending_acyclic(cfst);
            if fst.states@.len() > 0 {
                assert(fst.start_state is Some);
            } else {
                assert(cfst.states@.len() == 0);
            }
        }
        let n = scc.len();
        // Gets the number of states per component.
        let mut nscc: Vec<usize> = Vec::new();
        let mut i: usize = 0;
        while i < n
            invariant
                i <= n,
                n == scc@.len(),
                forall|c: int| 0 <= c < nscc@.len() ==> #[trigger] nscc@[c] <= i,
                forall|c: int| 0 <= c < nscc@.len() ==> #[trigger] nscc@[c] == count_comp(scc@, c as usize, i as int),
                forall|c: usize| c >= nscc@.len() ==> #[trigger] count_comp(scc@, c, i as int) == 0,
            decreases n - i,
        {
            let c = scc[i];
            while c >= nscc.len()
                invariant
                    forall|q: int| 0 <= q < nscc@.len() ==> #[trigger] nscc@[q] <= i,
                    forall|q: int| 0 <= q < nscc@.len() ==> #[trigger] nscc@[q] == count_comp(scc@, q as usize, i as int),
                    forall|q: usize| q >= nscc@.len() ==> #[trigger] count_comp(scc@, q, i as int) == 0,
                decreases c + 1 - nscc@.len(),
            {
                let ghost len0 = nscc@.len();
                nscc.push(0);
                proof {
                    assert(count_comp(scc@, len0 as usize, i as int) == 0);
                }
            }
            let v = nscc[c] + 1;
            nscc.set(c, v);
            proof {
                assert forall|q: int| 0 <= q < nscc@.len() implies #[trigger] nscc@[q] == count_comp(scc@, q as usize, i + 1) by {
                    assert(count_comp(scc@, q as usize, i + 1) == count_comp(scc@, q as usize, i as int)
                        + if scc@[i as int] == q as usize { 1int } else { 0int });
                }
                assert forall|q: usize| q >= nscc@.len() implies #[trigger] count_comp(scc@, q, i + 1) == 0 by {
                    assert(count_comp(scc@, q, i + 1) == count_comp(scc@, q, i as int)
                        + if scc@[i as int] == q { 1int } else { 0int });
                }
            }
            i += 1;
        }
        let mut state2index: Vec<usize> = Vec::new();
        let mut isets: Vec<IntervalSet> = Vec::new();
        let mut s: usize = 0;
        while s < n
            invariant
                s <= n,
                n == scc@.len(),
                creach.wf(),
                creach.isets@.len() == cfst.states@.len(),
                forall|q: int| 0 <= q < n ==> #[trigger] scc@[q] < cfst.states@.len(),
                isets@.len() == s,
                state2index@.len() == s,
                isets_normalized(isets@),
                isets_positive(isets@),
                forall|q: int| 0 <= q < s ==> #[trigger] state2index@[q] >= 1,
                forall|c: int| 0 <= c < nscc@.len() ==> #[trigger] nscc@[c] == count_comp(scc@, c as usize, n as int),
                forall|c: usize| c >= nscc@.len() ==> #[trigger] count_comp(scc@, c, n as int) == 0,
                fst.wf(),
                n == fst.states@.len(),
                forall|q: int| 0 <= q < cfst.states@.len() ==> #[trigger] cfst.states@[q].final_weight
                    == component_final(*fst, scc@, q as usize, n as int),
                forall|u: StateId, v: StateId| #![trigger scc@[u as int], scc@[v as int]] u < n && v < n
                    ==> (scc@[u as int] == scc@[v as int] <==> reachable(*fst, u, v) && reachable(*fst, v, u)),
                forall|q: int| 0 <= q < s ==> !(cfst.states@[scc@[q] as int].final_weight is Some && count_comp(scc@, scc@[q], n as int) > 1),
                creach.sound_for(cfst),
                forall|c: int| 0 <= c < cfst.states@.len() ==> #[trigger] cfst.states@[c].trs@
                    == component_trs(*fst, scc@, c as usize, n as int),
                forall|q: int| 0 <= q < s ==> #[trigger] isets@[q].ivs() == creach.isets@[scc@[q] as int].ivs()
                    && state2index@[q] == creach.state2index@[scc@[q] as int],
            decreases n - s,
        {
            let c = scc[s];
            let set = creach.isets[c].clone_set();
            assert(creach.isets@[c as int].is_normalized());
            assert(ivs_positive(creach.isets@[c as int].ivs()));
            isets.push(set);
            state2index.push(creach.state2index[c]);
            proof {
                assert forall|q: int| 0 <= q < isets@.len() implies (#[trigger] isets@[q]).is_normalized() && ivs_positive(isets@[q].ivs()) by {}
                assert forall|q: int| 0 <= q < s + 1 implies #[trigger] isets@[q].ivs() == creach.isets@[scc@[q] as int].ivs()
                    && state2index@[q] == creach.state2index@[scc@[q] as int] by {}
            }
            // A final state must not lie in a non-trivial component.
            if cfst.states[c].final_weight.is_some() && c < nscc.len() && nscc[c] > 1 {
                proof {
                    lemma_component_final_some(*fst, scc@, c, n as int);
                    let f = choose|f: int| 0 <= f < n && scc@[f] == c && #[trigger] fst.states@[f].final_weight is Some;
                    lemma_count_other(scc@, c, n as int, f);
                    let g = choose|g: int| 0 <= g < n && g != f && #[trigger] scc@[g] == c;
                    assert(scc@[f as StateId as int] == scc@[g as StateId as int]);
                    assert(reachable(*fst, f as StateId, g as StateId) && reachable(*fst, g as StateId, f as StateId));
                    assert(final_on_cycle(*fst));
                }
                return Err(FstError::FinalStateInCycle);
            }
            proof {
                if c >= nscc@.len() {
                    lemma_count_two(scc@, c, n as int, s as int, s as int);
                }
            }
            s += 1;
        }
        assert(n == fst.states@.len());
        proof {
            if final_on_cycle(*fst) {
                let (f, g) = choose|f: StateId, g: StateId| #![trigger reachable(*fst, f, g), reachable(*fst, g, f)]
                    f < fst.states@.len() && g < fst.states@.len() && f != g
                    && fst.states@[f as int].final_weight is Some && reachable(*fst, f, g) && reachable(*fst, g, f);
                assert(scc@[f as int] == scc@[g as int]);
                lemma_count_two(scc@, scc@[f as int], n as int, f as int, g as int);
                lemma_component_final_some(*fst, scc@, scc@[f as int], n as int);
                assert(!(cfst.states@[scc@[f as int] as int].final_weight is Some && count_comp(scc@, scc@[f as int], n as int) > 1));
            }
        }
        let r = StateReachable { isets, state2index };
        proof {
            assert forall|u: StateId, f: StateId| u < r.isets@.len() && f < r.state2index@.len()
                && #[trigger] r.isets@[u as int].contains_point(#[trigger] r.state2index@[f as int] as int)
                implies reachable(*fst, u, f) by {
                let cu = scc@[u as int];
                let cf = scc@[f as int];
                assert(r.isets@[u as int].ivs() == creach.isets@[cu as int].ivs());
                assert(r.isets@[f as int].ivs() == creach.isets@[cf as int].ivs());
                assert(r.state2index@[f as int] == creach.state2index@[cf as int]);
                assert(creach.isets@[cu as int].contains_point(creach.state2index@[cf as int] as int));
                assert(reachable(cfst, cu as StateId, cf as StateId));
                lemma_condensed_reach_lifts(*fst, scc@, cfst, u, f);
            }
            if n + 1 < usize::MAX {
                assert(creach.complete_for(cfst));
                assert forall|u: StateId, f: StateId| u < r.isets@.len() && f < r.state2index@.len() && weighted_final(*fst, f)
                    && #[trigger] reachable(*fst, u, f) implies r.isets@[u as int].contains_point(r.state2index@[f as int] as int) by {
                    let cu = scc@[u as int];
                    let cf = scc@[f as int];
                    lemma_condensed_reach_projects(*fst, scc@, cfst, u, f);
                    lemma_component_final_some(*fst, scc@, cf, n as int);
                    assert(cfst.states@[cf as int].final_weight is Some);
                    assert(!(cfst.states@[scc@[f as int] as int].final_weight is Some && count_comp(scc@, scc@[f as int], n as int) > 1));
                    assert forall|g: int| 0 <= g < fst.states@.len() && g != f && scc@[g] == cf
                        implies (#[trigger] fst.states@[g]).final_weight is None by {
                        lemma_count_two(scc@, cf, n as int, f as int, g);
                    }
                    lemma_condense_final_one(*fst, scc@, cf, f as int);
                    assert(weighted_final(cfst, cf));
                    assert(r.isets@[u as int].ivs() == creach.isets@[cu as int].ivs());
                    assert(r.isets@[f as int].ivs() == creach.isets@[cf as int].ivs());
                    assert(r.state2index@[f as int] == creach.state2index@[cf as int]);
                }
            }
        }
        Ok(r)
    }

    /// The interval sets of an FST, cyclic or not; fails when a final state lies on a cycle.
    pub fn new<W: Semiring>(fst: &VectorFst<W>) -> (r: Result<Self, FstError>)
        requires
            fst.wf(),
            fst.states@.len() > 0 ==> fst.start_state is Some,
        ensures
            r matches Ok(sr) ==> sr.wf() && sr.isets@.len() == fst.states@.len() && sr.sound_for(*fst),
            fst.states@.len() + 1 < usize::MAX ==> (r matches Ok(sr) ==> sr.complete_for(*fst)),
            r is Err ==> r == Err::<Self, FstError>(FstError::FinalStateInCycle)
                || r == Err::<Self, FstError>(FstError::TooManyStates),
            r == Err::<Self, FstError>(FstError::FinalStateInCycle) ==> final_on_cycle(*fst),
            !final_on_cycle(*fst) && fst.states@.len() + 1 < usize::MAX ==> r is Ok,
            final_on_cycle(*fst) && fst.states@.len() + 1 < usize::MAX ==> r == Err::<Self, FstError>(FstError::FinalStateInCycle),
    {
        let (r, cyclic, exhausted) = Self::visit(fst);
        if cyclic {
            Self::new_cyclic(fst)
        } else if exhausted {
            Err(FstError::TooManyStates)
        } else {
            Ok(r)
        }
    }

    /// Whether final state `s` can be reached from `current_state`; fails when
    /// `s` has no index.
    pub fn reach(&self, current_state: StateId, s: StateId) -> (r: Result<bool, FstError>)
        requires
            self.wf(),
            current_state < self.isets@.len(),
        ensures
            s < self.state2index@.len() ==> r == Ok::<bool, FstError>(
                self.isets@[current_state as int].contains_point(self.state2index@[s as int] as int)),
            s >= self.state2index@.len() ==> r == Err::<bool, FstError>(FstError::NonFinalState),
    {
        if s < self.state2index.len() {
            assert(self.isets@[current_state as int].is_normalized());
            Ok(self.isets[current_state].member(self.state2index[s]))
        } else {
            Err(FstError::NonFinalState)
        }
    }
}

} // verus!
