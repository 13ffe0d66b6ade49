use vstd::prelude::*;

use crate::fst::{FstError, Tr, VectorFst};
use crate::tarjan::{
    coaccess_ok, dn, lemma_coaccess_parent, lemma_scc_discover, lemma_scc_edge, lemma_scc_leave, lemma_scc_lower,
    lemma_scc_parent, lemma_scc_pop, lemma_scc_start, lemma_tarjan_discover, lemma_tarjan_edge, lemma_tarjan_final,
    lemma_stack_reaches_top, lemma_tarjan_keep, lemma_tarjan_members, lemma_tarjan_pop, lemma_tarjan_start, lemma_tarjan_unfold, low_after,
    lemma_scc_complete, path_ok, scc_inv, seen_numbered, stack_ordered, tarjan_inv,
};
use crate::semirings::Semiring;
use crate::StateId;

verus! {

/// A transition leads from `m` to `b`.
pub open spec fn edge<W>(fst: VectorFst<W>, m: StateId, b: StateId) -> bool {
    m < fst.states@.len() && exists|i: int| 0 <= i < fst.states@[m as int].trs@.len() && #[trigger] fst.states@[m as int].trs@[i].nextstate == b
}

/// The states of `path` follow transitions of the FST.
pub open spec fn is_path<W>(fst: VectorFst<W>, path: Seq<StateId>) -> bool {
    &&& path.len() > 0
    &&& forall|i: int| 0 <= i < path.len() - 1 ==> edge(fst, #[trigger] path[i], path[i + 1])
}

/// Some path leads from `a` to `b`.
pub open spec fn reachable<W>(fst: VectorFst<W>, a: StateId, b: StateId) -> bool {
    exists|path: Seq<StateId>| #[trigger] is_path(fst, path) && path[0] == a && path.last() == b
}

pub proof fn lemma_reachable_step<W>(fst: VectorFst<W>, a: StateId, m: StateId, i: int)
    requires
        reachable(fst, a, m),
        m < fst.states@.len(),
        0 <= i < fst.states@[m as int].trs@.len(),
    ensures
        reachable(fst, a, fst.states@[m as int].trs@[i].nextstate),
{
    let path = choose|path: Seq<StateId>| #[trigger] is_path(fst, path) && path[0] == a && path.last() == m;
    let b = fst.states@[m as int].trs@[i].nextstate;
    assert(edge(fst, m, b));
    let p2 = path.push(b);
    assert forall|j: int| 0 <= j < p2.len() - 1 implies edge(fst, #[trigger] p2[j], p2[j + 1]) by {
        if j < path.len() - 1 {
            assert(p2[j] == path[j] && p2[j + 1] == path[j + 1]);
        } else {
            assert(p2[j] == m);
        }
    }
    assert(is_path(fst, p2));
}

pub proof fn lemma_reachable_refl<W>(fst: VectorFst<W>, a: StateId)
    ensures
        reachable(fst, a, a),
{
    let p = seq![a];
    assert(is_path(fst, p));
}

/// Some state with a final weight can be reached from `s`.
pub open spec fn coreachable<W>(fst: VectorFst<W>, s: StateId) -> bool {
    exists|f: StateId| #[trigger] reachable(fst, s, f) && f < fst.states@.len() && fst.states@[f as int].final_weight is Some
}

pub proof fn lemma_reachable_trans<W>(fst: VectorFst<W>, a: StateId, b: StateId, c: StateId)
    requires
        reachable(fst, a, b),
        reachable(fst, b, c),
    ensures
        reachable(fst, a, c),
{
    let p1 = choose|path: Seq<StateId>| #[trigger] is_path(fst, path) && path[0] == a && path.last() == b;
    let p2 = choose|path: Seq<StateId>| #[trigger] is_path(fst, path) && path[0] == b && path.last() == c;
    let p = p1 + p2.drop_first();
    assert forall|i: int| 0 <= i < p.len() - 1 implies edge(fst, #[trigger] p[i], p[i + 1]) by {
        if i < p1.len() - 1 {
            assert(p[i] == p1[i] && p[i + 1] == p1[i + 1]);
        } else if i == p1.len() - 1 {
            assert(p[i] == p2[0]);
            assert(p[i + 1] == p2[1]);
        } else {
            let j = i - p1.len() + 1;
            assert(p[i] == p2[j] && p[i + 1] == p2[j + 1]);
        }
    }
    if p2.len() == 1 {
        assert(p.last() == p1.last());
    } else {
        assert(p.last() == p2.last());
    }
    assert(is_path(fst, p));
}

/// A state that reaches another one has a transition.
pub proof fn lemma_reach_leaves<W>(fst: VectorFst<W>, a: StateId, b: StateId)
    requires
        reachable(fst, a, b),
        a != b,
    ensures
        a < fst.states@.len() && fst.states@[a as int].trs@.len() > 0,
{
    let path = choose|path: Seq<StateId>| #[trigger] is_path(fst, path) && path[0] == a && path.last() == b;
    assert(path.len() > 1);
    assert(edge(fst, path[0], path[1]));
}

pub proof fn lemma_edge_reachable<W>(fst: VectorFst<W>, a: StateId, b: StateId)
    requires
        edge(fst, a, b),
    ensures
        reachable(fst, a, b),
{
    let p = seq![a, b];
    assert(is_path(fst, p));
}

pub proof fn lemma_coreachable_back<W>(fst: VectorFst<W>, a: StateId, b: StateId)
    requires
        reachable(fst, a, b),
        coreachable(fst, b),
    ensures
        coreachable(fst, a),
{
    let f = choose|f: StateId| #[trigger] reachable(fst, b, f) && f < fst.states@.len() && fst.states@[f as int].final_weight is Some;
    lemma_reachable_trans(fst, a, b, f);
}

/// Colors of states during a depth-first search.
#[derive(PartialEq, Eq, Structural, Copy, Clone, Debug)]
pub enum DfsStateColor {
    /// Undiscovered.
    White,
    /// Discovered but unfinished.
    Grey,
    /// Finished.
    Black,
}

/// Number of states of a color.
pub open spec fn count_color(colors: Seq<DfsStateColor>, c: DfsStateColor) -> nat
    decreases colors.len(),
{
    if colors.len() == 0 {
        0
    } else {
        count_color(colors.drop_last(), c) + if colors.last() == c { 1nat } else { 0nat }
    }
}

/// Fewer entries of a color than entries: some entry has another color.
proof fn lemma_count_color_some(colors: Seq<DfsStateColor>, c: DfsStateColor)
    requires
        count_color(colors, c) < colors.len(),
    ensures
        exists|i: int| 0 <= i < colors.len() && colors[i] != c,
    decreases colors.len(),
{
    if colors.last() == c {
        lemma_count_color_some(colors.drop_last(), c);
        let i = choose|i: int| 0 <= i < colors.drop_last().len() && colors.drop_last()[i] != c;
        assert(colors[i] == colors.drop_last()[i]);
    } else {
        assert(colors[colors.len() - 1] != c);
    }
}

proof fn lemma_count_color_bound(colors: Seq<DfsStateColor>, c: DfsStateColor)
    ensures
        count_color(colors, c) <= colors.len(),
    decreases colors.len(),
{
    if colors.len() > 0 {
        lemma_count_color_bound(colors.drop_last(), c);
    }
}

proof fn lemma_count_color_update(colors: Seq<DfsStateColor>, i: int, c: DfsStateColor, d: DfsStateColor)
    requires
        0 <= i < colors.len(),
    ensures
        count_color(colors.update(i, d), c) == count_color(colors, c) - (if colors[i] == c { 1int } else { 0int })
            + (if d == c { 1int } else { 0int }),
    decreases colors.len(),
{
    let u = colors.update(i, d);
    if i == colors.len() - 1 {
        assert(u.drop_last() =~= colors.drop_last());
    } else {
        lemma_count_color_update(colors.drop_last(), i, c, d);
        assert(u.drop_last() =~= colors.drop_last().update(i, d));
    }
}

/// Callbacks of a depth-first search over an FST.
pub trait Visitor<'a, W: Semiring> {
    /// The FST the visitor is set up for.
    spec fn fst_spec(&self) -> VectorFst<W>;

    /// The visitor is set up for its FST.
    spec fn ready(&self) -> bool;

    /// Number of states discovered so far.
    spec fn inits(&self) -> nat;

    /// The states discovered and not finished, from the root of the search
    /// tree to the state being explored.
    spec fn path(&self) -> Seq<StateId>;

    /// The states discovered so far.
    spec fn seen(&self) -> Set<StateId>;

    /// The number of transitions of `s` examined so far.
    spec fn done(&self, s: StateId) -> nat;

    /// A callback asked the search to stop.
    spec fn stopped(&self) -> bool;

    /// Invoked before DFS visit.
    fn init_visit(&mut self, fst: &'a VectorFst<W>)
        ensures
            final(self).ready(),
            final(self).fst_spec() == *fst,
            final(self).inits() == 0,
            final(self).path() == Seq::<StateId>::empty(),
            final(self).seen() == Set::<StateId>::empty(),
            forall|v: StateId| #[trigger] final(self).done(v) == 0,
            !final(self).stopped(),
    ;

    /// Invoked when state discovered (2nd arg is DFS tree root). The first
    /// state discovered is a root, the start state, and the path of a tree
    /// begins at its root.
    fn init_state(&mut self, s: StateId, root: StateId) -> (b: bool)
        requires
            old(self).ready(),
            !old(self).stopped(),
            s < old(self).fst_spec().states@.len(),
            root < old(self).fst_spec().states@.len(),
            old(self).inits() < old(self).fst_spec().states@.len(),
            reachable(old(self).fst_spec(), root, s),
            !old(self).seen().contains(s),
            (old(self).path().len() == 0 && s == root) || (old(self).path().len() > 0 && edge(old(self).fst_spec(), old(self).path().last(), s)),
            old(self).path().len() == 0 && (forall|v: StateId| !#[trigger] old(self).seen().contains(v))
                ==> old(self).fst_spec().start_state == Some(root),
            old(self).path().len() > 0 ==> old(self).path()[0] == root,
        ensures
            final(self).ready(),
            final(self).fst_spec() == old(self).fst_spec(),
            final(self).inits() == old(self).inits() + 1,
            final(self).path() == old(self).path().push(s),
            final(self).seen() == old(self).seen().insert(s),
            forall|v: StateId| #[trigger] final(self).done(v) == old(self).done(v),
            b == !final(self).stopped(),
    ;

    /// Invoked when tree transition to white/undiscovered state examined.
    fn tree_tr(&mut self, s: StateId, tr: &Tr<W>) -> (b: bool)
        requires
            old(self).ready(),
            !old(self).stopped(),
            s < old(self).fst_spec().states@.len(),
            tr.nextstate < old(self).fst_spec().states@.len(),
            old(self).path().len() > 0 && old(self).path().last() == s,
            old(self).done(s) < old(self).fst_spec().states@[s as int].trs@.len(),
            old(self).fst_spec().states@[s as int].trs@[old(self).done(s) as int] == *tr,
        ensures
            final(self).ready(),
            final(self).fst_spec() == old(self).fst_spec(),
            final(self).inits() == old(self).inits(),
            final(self).path() == old(self).path(),
            final(self).seen() == old(self).seen(),
            forall|v: StateId| #[trigger] final(self).done(v) == old(self).done(v),
            b == !final(self).stopped(),
    ;

    /// Invoked when back transition to grey/unfinished state examined.
    fn back_tr(&mut self, s: StateId, tr: &Tr<W>) -> (b: bool)
        requires
            old(self).ready(),
            !old(self).stopped(),
            s < old(self).fst_spec().states@.len(),
            tr.nextstate < old(self).fst_spec().states@.len(),
            old(self).path().len() > 0 && old(self).path().last() == s,
            edge(old(self).fst_spec(), s, tr.nextstate),
            old(self).done(s) < old(self).fst_spec().states@[s as int].trs@.len(),
            old(self).fst_spec().states@[s as int].trs@[old(self).done(s) as int] == *tr,
            old(self).path().contains(tr.nextstate),
        ensures
            final(self).ready(),
            final(self).fst_spec() == old(self).fst_spec(),
            final(self).inits() == old(self).inits(),
            final(self).path() == old(self).path(),
            final(self).seen() == old(self).seen(),
            final(self).done(s) == old(self).done(s) + 1,
            forall|v: StateId| v != s ==> #[trigger] final(self).done(v) == old(self).done(v),
            b == !final(self).stopped(),
    ;

    /// Invoked when forward or cross transition to black/finished state examined.
    fn forward_or_cross_tr(&mut self, s: StateId, tr: &Tr<W>) -> (b: bool)
        requires
            old(self).ready(),
            !old(self).stopped(),
            s < old(self).fst_spec().states@.len(),
            tr.nextstate < old(self).fst_spec().states@.len(),
            old(self).path().len() > 0 && old(self).path().last() == s,
            edge(old(self).fst_spec(), s, tr.nextstate),
            old(self).done(s) < old(self).fst_spec().states@[s as int].trs@.len(),
            old(self).fst_spec().states@[s as int].trs@[old(self).done(s) as int] == *tr,
            old(self).seen().contains(tr.nextstate),
            !old(self).path().contains(tr.nextstate),
        ensures
            final(self).ready(),
            final(self).fst_spec() == old(self).fst_spec(),
            final(self).inits() == old(self).inits(),
            final(self).path() == old(self).path(),
            final(self).seen() == old(self).seen(),
            final(self).done(s) == old(self).done(s) + 1,
            forall|v: StateId| v != s ==> #[trigger] final(self).done(v) == old(self).done(v),
            b == !final(self).stopped(),
    ;

    /// Invoked when state finished ('s' is tree root, 'parent' is None).
    fn finish_state(&mut self, s: StateId, parent: Option<StateId>)
        requires
            old(self).ready(),
            s < old(self).fst_spec().states@.len(),
            parent matches Some(p) ==> p < old(self).fst_spec().states@.len(),
            old(self).path().len() > 0 && old(self).path().last() == s,
            parent == if old(self).path().len() > 1 { Some(old(self).path()[old(self).path().len() - 2]) } else { None::<StateId> },
            !old(self).stopped() ==> old(self).done(s) == old(self).fst_spec().states@[s as int].trs@.len(),
            parent matches Some(p) ==> old(self).done(p) < old(self).fst_spec().states@[p as int].trs@.len()
                && old(self).fst_spec().states@[p as int].trs@[old(self).done(p) as int].nextstate == s,
        ensures
            final(self).ready(),
            final(self).fst_spec() == old(self).fst_spec(),
            final(self).inits() == old(self).inits(),
            final(self).path() == old(self).path().drop_last(),
            final(self).seen() == old(self).seen(),
            parent matches Some(p) ==> final(self).done(p) == old(self).done(p) + 1,
            forall|v: StateId| parent != Some(v) ==> #[trigger] final(self).done(v) == old(self).done(v),
            final(self).stopped() == old(self).stopped(),
    ;

    /// Invoked after DFS visit.
    fn finish_visit(&mut self)
        ensures
            final(self).fst_spec() == old(self).fst_spec(),
            old(self).ready() ==> final(self).ready(),
            final(self).path() == old(self).path(),
            final(self).seen() == old(self).seen(),
            final(self).stopped() == old(self).stopped(),
    ;
}

/// The states of the search stack.
pub open spec fn stack_states(stack: Seq<(StateId, usize)>) -> Seq<StateId> {
    Seq::new(stack.len(), |i: int| stack[i].0)
}

/// The search stack follows transitions, and the visitor knows it: its path
/// is the stack's states, its discovered states are the non-white ones, and
/// every grey state is on the stack.
pub open spec fn visit_ok<W>(
    fst: VectorFst<W>,
    path: Seq<StateId>,
    seen: Set<StateId>,
    colors: Seq<DfsStateColor>,
    stack: Seq<(StateId, usize)>,
) -> bool {
    &&& path == stack_states(stack)
    &&& forall|v: StateId| #![trigger seen.contains(v)] v < colors.len() ==> (seen.contains(v) <==> colors[v as int] != DfsStateColor::White)
    &&& forall|v: StateId| #![trigger seen.contains(v)] seen.contains(v) ==> v < colors.len()
    &&& forall|v: int| 0 <= v < colors.len() && #[trigger] colors[v] == DfsStateColor::Grey ==> stack_states(stack).contains(v as StateId)
    &&& forall|i: int| 0 <= i < stack.len() - 1 ==> fst.states@[(#[trigger] stack[i]).0 as int].trs@[stack[i].1 as int].nextstate == stack[i + 1].0
}

/// Discovering `t` through the current transition of the top of the stack.
proof fn lemma_visit_push<W>(
    fst: VectorFst<W>,
    path: Seq<StateId>,
    seen: Set<StateId>,
    colors: Seq<DfsStateColor>,
    stack: Seq<(StateId, usize)>,
    t: StateId,
)
    requires
        visit_ok(fst, path, seen, colors, stack),
        stack.len() > 0,
        t < colors.len(),
        colors[t as int] == DfsStateColor::White,
        fst.states@[stack.last().0 as int].trs@[stack.last().1 as int].nextstate == t,
    ensures
        visit_ok(fst, path.push(t), seen.insert(t), colors.update(t as int, DfsStateColor::Grey), stack.push((t, 0))),
{
    let nstack = stack.push((t, 0usize));
    let ncolors = colors.update(t as int, DfsStateColor::Grey);
    assert(stack_states(nstack) =~= stack_states(stack).push(t));
    assert forall|v: int| 0 <= v < ncolors.len() && #[trigger] ncolors[v] == DfsStateColor::Grey
        implies stack_states(nstack).contains(v as StateId) by {
        if v == t {
            assert(stack_states(nstack)[stack.len() as int] == t);
        } else {
            assert(colors[v] == DfsStateColor::Grey);
            let k = choose|k: int| 0 <= k < stack_states(stack).len() && stack_states(stack)[k] == v as StateId;
            assert(stack_states(nstack)[k] == v as StateId);
        }
    }
    assert forall|i: int| 0 <= i < nstack.len() - 1 implies fst.states@[(#[trigger] nstack[i]).0 as int].trs@[nstack[i].1 as int].nextstate == nstack[i + 1].0 by {
        assert(nstack[i] == stack[i]);
        if i < stack.len() - 1 {
            assert(nstack[i + 1] == stack[i + 1]);
        }
    }
}

/// Moving the top of the stack to its next transition.
proof fn lemma_visit_advance<W>(
    fst: VectorFst<W>,
    path: Seq<StateId>,
    seen: Set<StateId>,
    colors: Seq<DfsStateColor>,
    stack: Seq<(StateId, usize)>,
    pos: usize,
)
    requires
        visit_ok(fst, path, seen, colors, stack),
        stack.len() > 0,
    ensures
        visit_ok(fst, path, seen, colors, stack.update(stack.len() - 1, (stack.last().0, pos))),
{
    let nstack = stack.update(stack.len() - 1, (stack.last().0, pos));
    assert(stack_states(nstack) =~= stack_states(stack));
    assert forall|i: int| 0 <= i < nstack.len() - 1 implies fst.states@[(#[trigger] nstack[i]).0 as int].trs@[nstack[i].1 as int].nextstate == nstack[i + 1].0 by {
        assert(nstack[i] == stack[i]);
        if i + 1 < stack.len() - 1 {
            assert(nstack[i + 1] == stack[i + 1]);
        } else {
            assert(nstack[i + 1].0 == stack[i + 1].0);
        }
    }
}

/// Finishing the top of the stack, whose state is on the stack only once.
proof fn lemma_visit_pop<W>(
    fst: VectorFst<W>,
    path: Seq<StateId>,
    seen: Set<StateId>,
    colors: Seq<DfsStateColor>,
    stack: Seq<(StateId, usize)>,
)
    requires
        visit_ok(fst, path, seen, colors, stack),
        stack.len() > 0,
        stack.last().0 < colors.len(),
        colors.len() <= usize::MAX,
        colors[stack.last().0 as int] == DfsStateColor::Grey,
        forall|i: int| 0 <= i < stack.len() - 1 ==> (#[trigger] stack[i]).0 != stack.last().0,
    ensures
        visit_ok(fst, path.drop_last(), seen, colors.update(stack.last().0 as int, DfsStateColor::Black), stack.drop_last()),
{
    let s = stack.last().0;
    let nstack = stack.drop_last();
    let ncolors = colors.update(s as int, DfsStateColor::Black);
    assert(stack_states(nstack) =~= stack_states(stack).drop_last());
    assert forall|v: int| 0 <= v < ncolors.len() && #[trigger] ncolors[v] == DfsStateColor::Grey
        implies stack_states(nstack).contains(v as StateId) by {
        assert(v != s);
        assert(colors[v] == DfsStateColor::Grey);
        let k = choose|k: int| 0 <= k < stack_states(stack).len() && stack_states(stack)[k] == v as StateId;
        assert(stack_states(stack)[stack.len() - 1] == s);
        assert(k != stack.len() - 1);
        assert(stack_states(nstack)[k] == v as StateId);
    }
    assert forall|i: int| 0 <= i < nstack.len() - 1 implies fst.states@[(#[trigger] nstack[i]).0 as int].trs@[nstack[i].1 as int].nextstate == nstack[i + 1].0 by {
        assert(nstack[i] == stack[i]);
        assert(nstack[i + 1] == stack[i + 1]);
    }
    assert forall|v: StateId| #![trigger seen.contains(v)] v < ncolors.len() implies (seen.contains(v) <==> ncolors[v as int] != DfsStateColor::White) by {
        if v != s {
            assert(ncolors[v as int] == colors[v as int]);
        }
    }
}

/// Invariant of the search stack.
pub open spec fn stack_ok<W>(fst: VectorFst<W>, colors: Seq<DfsStateColor>, stack: Seq<(StateId, usize)>, root: StateId) -> bool {
    &&& forall|i: int| 0 <= i < stack.len() ==> (#[trigger] stack[i]).0 < fst.states@.len()
    &&& forall|i: int| 0 <= i < stack.len() ==> (#[trigger] stack[i]).1 <= fst.states@[stack[i].0 as int].trs@.len()
    &&& forall|i: int| 0 <= i < stack.len() - 1 ==> (#[trigger] stack[i]).1 < fst.states@[stack[i].0 as int].trs@.len()
    &&& forall|i: int| 0 <= i < stack.len() ==> colors[(#[trigger] stack[i]).0 as int] == DfsStateColor::Grey
    &&& forall|i: int, j: int| 0 <= i < j < stack.len() ==> (#[trigger] stack[i]).0 != (#[trigger] stack[j]).0
    &&& forall|i: int| 0 <= i < stack.len() ==> reachable(fst, root, (#[trigger] stack[i]).0)
}

pub open spec fn top_rem<W>(fst: VectorFst<W>, stack: Seq<(StateId, usize)>) -> int {
    if stack.len() > 0 {
        fst.states@[stack.last().0 as int].trs@.len() - stack.last().1
    } else {
        0
    }
}

/// Depth-first search from the start state (then from the other undiscovered
/// states, unless `access_only`), calling the visitor.
#[verifier::spinoff_prover]
#[verifier::rlimit(100)]
pub fn dfs_visit<'a, W: Semiring, V: Visitor<'a, W>>(fst: &'a VectorFst<W>, visitor: &mut V, access_only: bool)
    requires
        fst.wf(),
    ensures
        final(visitor).ready(),
        final(visitor).fst_spec() == *fst,
        !final(visitor).stopped() && !access_only && fst.start_state is Some ==> final(visitor).path().len() == 0
            && forall|v: StateId| v < fst.states@.len() ==> #[trigger] final(visitor).seen().contains(v),
{
    visitor.init_visit(fst);
    let start = match fst.start() {
        None => {
            visitor.finish_visit();
            return ;
        },
        Some(s) => s,
    };
    let nstates = fst.num_states();
    let mut state_color: Vec<DfsStateColor> = Vec::new();
    let mut k: usize = 0;
    while k < nstates
        invariant
            k <= nstates,
            state_color@.len() == k,
            forall|j: int| 0 <= j < k ==> state_color@[j] == DfsStateColor::White,
        decreases nstates - k,
    {
        state_color.push(DfsStateColor::White);
        k += 1;
    }
    proof {
        assert(state_color@ =~= Seq::new(nstates as nat, |j: int| DfsStateColor::White));
        lemma_all_white_count(nstates as nat);
    }
    let mut state_stack: Vec<(StateId, usize)> = Vec::new();
    proof {
        assert(stack_states(state_stack@) =~= Seq::<StateId>::empty());
        assert forall|v: StateId| #![trigger visitor.seen().contains(v)] v < state_color@.len()
            implies (visitor.seen().contains(v) <==> state_color@[v as int] != DfsStateColor::White) by {
            assert(state_color@[v as int] == DfsStateColor::White);
        }
        assert(visit_ok(*fst, visitor.path(), visitor.seen(), state_color@, state_stack@));
    }
    // Continue dfs while true.
    let mut dfs = true;
    let mut root = start;
    let ghost mut first = true;
    loop
        invariant_except_break
            root < nstates ==> state_color@[root as int] == DfsStateColor::White,
            first ==> root == start,
            first ==> forall|v: int| 0 <= v < nstates ==> #[trigger] state_color@[v] == DfsStateColor::White,
            !first ==> forall|v: int| 0 <= v < root && v < nstates ==> #[trigger] state_color@[v] != DfsStateColor::White,
        invariant
            start < nstates,
            fst.wf(),
            nstates == fst.states@.len(),
            state_color@.len() == nstates,
            visitor.ready(),
            visitor.fst_spec() == *fst,
            visitor.inits() + count_color(state_color@, DfsStateColor::White) == nstates,
            dfs ==> state_stack@.len() == 0,
            visit_ok(*fst, visitor.path(), visitor.seen(), state_color@, state_stack@),
            forall|v: StateId| v < nstates && state_color@[v as int] == DfsStateColor::White ==> #[trigger] visitor.done(v) == 0,
            dfs == !visitor.stopped(),
            !first ==> count_color(state_color@, DfsStateColor::White) < nstates,
            fst.start_state == Some(start),
        ensures
            !visitor.stopped() && !access_only ==> state_stack@.len() == 0
                && forall|v: int| 0 <= v < nstates ==> #[trigger] state_color@[v] != DfsStateColor::White,
        decreases count_color(state_color@, DfsStateColor::White),
    {
        if !dfs || root >= nstates {
            proof {
                if !visitor.stopped() && !access_only {
                    assert(!first);
                }
            }
            break;
        }
        proof {
            lemma_count_color_update(state_color@, root as int, DfsStateColor::White, DfsStateColor::Grey);
            lemma_count_color_update(state_color@, root as int, DfsStateColor::Black, DfsStateColor::Grey);
            lemma_reachable_refl(*fst, root);
        }
        let ghost white0 = count_color(state_color@, DfsStateColor::White);
        let ghost colors0 = state_color@;
        proof {
            assert(stack_states(state_stack@) =~= Seq::<StateId>::empty());
        }
        proof {
            if first {
                assert forall|v: StateId| !#[trigger] visitor.seen().contains(v) by {
                    if visitor.seen().contains(v) {
                        assert(state_color@[v as int] != DfsStateColor::White);
                    }
                }
            } else {
                lemma_count_color_some(state_color@, DfsStateColor::White);
                let v = choose|v: int| 0 <= v < state_color@.len() && state_color@[v] != DfsStateColor::White;
                assert(visitor.seen().contains(v as StateId));
            }
        }
        state_color.set(root, DfsStateColor::Grey);
        state_stack.push((root, 0));
        dfs = visitor.init_state(root, root);
        proof {
            assert(stack_states(state_stack@) =~= seq![root]);
            assert forall|v: int| 0 <= v < state_color@.len() && #[trigger] state_color@[v] == DfsStateColor::Grey
                implies stack_states(state_stack@).contains(v as StateId) by {
                if v != root {
                    assert(colors0[v] == DfsStateColor::Grey);
                    assert(!Seq::<StateId>::empty().contains(v as StateId));
                }
                assert(stack_states(state_stack@)[0] == root);
            }
            assert forall|v: StateId| #![trigger visitor.seen().contains(v)] v < state_color@.len()
                implies (visitor.seen().contains(v) <==> state_color@[v as int] != DfsStateColor::White) by {
                if v != root {
                    assert(state_color@[v as int] == colors0[v as int]);
                }
            }
        }
        while state_stack.len() > 0
            invariant
                fst.wf(),
                nstates == fst.states@.len(),
                state_color@.len() == nstates,
                root < nstates,
                visitor.ready(),
                visitor.fst_spec() == *fst,
                visitor.inits() + count_color(state_color@, DfsStateColor::White) == nstates,
                stack_ok(*fst, state_color@, state_stack@, root),
                count_color(state_color@, DfsStateColor::White) < white0,
                visit_ok(*fst, visitor.path(), visitor.seen(), state_color@, state_stack@),
                forall|v: StateId| v < nstates && state_color@[v as int] == DfsStateColor::White ==> #[trigger] visitor.done(v) == 0,
                forall|i: int| 0 <= i < state_stack@.len() ==> #[trigger] visitor.done(state_stack@[i].0) == state_stack@[i].1,
                dfs == !visitor.stopped(),
                state_color@[root as int] != DfsStateColor::White,
                !first ==> forall|v: int| 0 <= v < root && v < nstates ==> #[trigger] state_color@[v] != DfsStateColor::White,
                visitor.path().len() > 0 ==> visitor.path()[0] == root,
            ensures
                state_color@[root as int] != DfsStateColor::White,
                !first ==> forall|v: int| 0 <= v < root && v < nstates ==> #[trigger] state_color@[v] != DfsStateColor::White,
                visit_ok(*fst, visitor.path(), visitor.seen(), state_color@, state_stack@),
                forall|v: StateId| v < nstates && state_color@[v as int] == DfsStateColor::White ==> #[trigger] visitor.done(v) == 0,
                dfs == !visitor.stopped(),
                count_color(state_color@, DfsStateColor::White) < white0,
                fst.wf(),
                nstates == fst.states@.len(),
                state_color@.len() == nstates,
                visitor.ready(),
                visitor.fst_spec() == *fst,
                visitor.inits() + count_color(state_color@, DfsStateColor::White) == nstates,
                dfs ==> state_stack@.len() == 0,
            decreases count_color(state_color@, DfsStateColor::White), nstates - count_color(state_color@, DfsStateColor::Black), top_rem(*fst, state_stack@),
        {
            proof {
                lemma_count_color_bound(state_color@, DfsStateColor::Black);
            }
            let top = state_stack.len() - 1;
            let (s, pos) = state_stack[top];
            let trs = &fst.states[s].trs;
            proof {
                assert(state_stack@[top as int].0 == s);
                assert(state_color@[s as int] == DfsStateColor::Grey);
            }
            if !dfs || pos >= trs.len() {
                proof {
                    lemma_count_color_update(state_color@, s as int, DfsStateColor::White, DfsStateColor::Black);
                    lemma_count_color_update(state_color@, s as int, DfsStateColor::Black, DfsStateColor::Black);
                }
                let ghost old_stack = state_stack@;
                let ghost old_colors = state_color@;
                let ghost old_path = visitor.path();
                proof {
                    assert forall|i: int| 0 <= i < old_stack.len() - 1 implies (#[trigger] old_stack[i]).0 != old_stack.last().0 by {
                        assert(old_stack[i].0 != old_stack[top as int].0);
                    }
                    lemma_visit_pop(*fst, old_path, visitor.seen(), old_colors, old_stack);
                }
                state_color.set(s, DfsStateColor::Black);
                state_stack.pop();
                proof {
                    lemma_count_color_bound(state_color@, DfsStateColor::Black);
                    assert forall|i: int| 0 <= i < state_stack@.len() implies state_color@[(#[trigger] state_stack@[i]).0 as int] == DfsStateColor::Grey by {
                        assert(state_stack@[i] == old_stack[i]);
                        assert(old_stack[i].0 != old_stack[top as int].0);
                    }
                    assert forall|i: int, j: int| 0 <= i < j < state_stack@.len() implies (#[trigger] state_stack@[i]).0 != (#[trigger] state_stack@[j]).0 by {
                        assert(state_stack@[i] == old_stack[i] && state_stack@[j] == old_stack[j]);
                    }
                }
                if state_stack.len() > 0 {
                    let ptop = state_stack.len() - 1;
                    let (p, ppos) = state_stack[ptop];
                    proof {
                        assert(old_path == stack_states(old_stack));
                        assert(old_path[old_path.len() - 2] == p);
                        assert(old_path.last() == s);
                    }
                    visitor.finish_state(s, Some(p));
                    let plen = fst.states[p].trs.len();
                    proof {
                        assert(old_stack[ptop as int] == state_stack@[ptop as int]);
                        assert(ppos < plen);
                    }
                    let ghost mid_stack = state_stack@;
                    state_stack.set(ptop, (p, ppos + 1));
                    proof {
                        lemma_visit_advance(*fst, visitor.path(), visitor.seen(), state_color@, mid_stack, (ppos + 1) as usize);
                        assert(state_stack@ == mid_stack.update(mid_stack.len() - 1, (mid_stack.last().0, (ppos + 1) as usize)));
                        assert forall|i: int| 0 <= i < state_stack@.len() implies state_color@[(#[trigger] state_stack@[i]).0 as int] == DfsStateColor::Grey by {
                            assert(state_stack@[i].0 == old_stack[i].0);
                        }
                        assert forall|i: int, j: int| 0 <= i < j < state_stack@.len() implies (#[trigger] state_stack@[i]).0 != (#[trigger] state_stack@[j]).0 by {
                            assert(state_stack@[i].0 == old_stack[i].0 && state_stack@[j].0 == old_stack[j].0);
                        }
                        assert forall|i: int| 0 <= i < state_stack@.len() implies reachable(*fst, root, (#[trigger] state_stack@[i]).0) by {
                            assert(state_stack@[i].0 == old_stack[i].0);
                        }
                    }
                } else {
                    proof {
                        assert(old_path == stack_states(old_stack));
                        assert(old_path.len() == 1);
                        assert(old_path.last() == s);
                    }
                    visitor.finish_state(s, None);
                }
                continue;
            }
            let tr = &trs[pos];
            let t = tr.nextstate;
            proof {
                assert(fst.states@[s as int].trs@[pos as int] == *tr);
                assert(t < nstates);
            }
            let next_color = state_color[t];
            proof {
                assert(fst.states@[s as int].trs@[pos as int].nextstate == t);
                assert(edge(*fst, s, t));
                assert(visitor.path() == stack_states(state_stack@));
                assert(visitor.path().last() == state_stack@[top as int].0);
            }
            match next_color {
                DfsStateColor::White => {
                    dfs = visitor.tree_tr(s, tr);
                    if !dfs {
                        break;
                    }
                    proof {
                        lemma_count_color_update(state_color@, t as int, DfsStateColor::White, DfsStateColor::Grey);
                        lemma_count_color_update(state_color@, t as int, DfsStateColor::Black, DfsStateColor::Grey);
                        lemma_reachable_step(*fst, root, s, pos as int);
                    }
                    let ghost old_stack = state_stack@;
                    proof {
                        lemma_visit_push(*fst, visitor.path(), visitor.seen(), state_color@, old_stack, t);
                    }
                    state_color.set(t, DfsStateColor::Grey);
                    state_stack.push((t, 0));
                    proof {
                        assert forall|i: int| 0 <= i < state_stack@.len() implies state_color@[(#[trigger] state_stack@[i]).0 as int] == DfsStateColor::Grey by {
                            if i < old_stack.len() {
                                assert(state_stack@[i] == old_stack[i]);
                            }
                        }
                        assert forall|i: int, j: int| 0 <= i < j < state_stack@.len() implies (#[trigger] state_stack@[i]).0 != (#[trigger] state_stack@[j]).0 by {
                            if j < old_stack.len() {
                                assert(state_stack@[i] == old_stack[i] && state_stack@[j] == old_stack[j]);
                            } else {
                                assert(state_stack@[i] == old_stack[i]);
                                assert(state_color@[old_stack[i].0 as int] == DfsStateColor::Grey);
                            }
                        }
                        assert forall|i: int| 0 <= i < state_stack@.len() implies reachable(*fst, root, (#[trigger] state_stack@[i]).0) by {
                            if i < old_stack.len() {
                                assert(state_stack@[i] == old_stack[i]);
                            }
                        }
                        lemma_count_color_bound(state_color@, DfsStateColor::White);

                        assert(visitor.seen().contains(old_stack[0].0));
                    }
                    dfs = visitor.init_state(t, root);
                },
                DfsStateColor::Grey => {
                    proof {
                        assert(stack_states(state_stack@).contains(t));
                    }
                    dfs = visitor.back_tr(s, tr);
                    proof {
                        lemma_visit_advance(*fst, visitor.path(), visitor.seen(), state_color@, state_stack@, (pos + 1) as usize);
                    }
                    state_stack.set(top, (s, pos + 1));
                },
                DfsStateColor::Black => {
                    proof {
                        assert(visitor.seen().contains(t));
                        if stack_states(state_stack@).contains(t) {
                            let k = choose|k: int| 0 <= k < stack_states(state_stack@).len() && stack_states(state_stack@)[k] == t;
                            assert(state_stack@[k].0 == t);
                            assert(state_color@[state_stack@[k].0 as int] == DfsStateColor::Grey);
                        }
                    }
                    dfs = visitor.forward_or_cross_tr(s, tr);
                    proof {
                        lemma_visit_advance(*fst, visitor.path(), visitor.seen(), state_color@, state_stack@, (pos + 1) as usize);
                    }
                    state_stack.set(top, (s, pos + 1));
                },
            }
        }
        if access_only {
            break;
        }
        let ghost colors1 = state_color@;
        proof {
            assert(state_color@[root as int] != DfsStateColor::White) by {
                if !visitor.stopped() {
                    assert(state_stack@.len() == 0);
                }
            }
            if first {
                assert(root == start);
            }
        }
        root = if root == start { 0 } else { root + 1 };
        proof {
            first = false;
        }
        while root < nstates && state_color[root] != DfsStateColor::White
            invariant
                state_color@.len() == nstates,
                state_color@ == colors1,
                forall|v: int| 0 <= v < root && v < nstates ==> #[trigger] state_color@[v] != DfsStateColor::White,
            decreases nstates - root,
        {
            root += 1;
        }
    }
    proof {
        if !visitor.stopped() && !access_only {
            assert(stack_states(state_stack@) =~= Seq::<StateId>::empty());
            assert forall|v: StateId| v < fst.states@.len() implies #[trigger] visitor.seen().contains(v) by {
                assert(state_color@[v as int] != DfsStateColor::White);
            }
        }
    }
    visitor.finish_visit();
}

proof fn lemma_all_white_count(n: nat)
    ensures
        count_color(Seq::new(n, |j: int| DfsStateColor::White), DfsStateColor::White) == n,
    decreases n,
{
    if n > 0 {
        assert(Seq::new(n, |j: int| DfsStateColor::White).drop_last() =~= Seq::new((n - 1) as nat, |j: int| DfsStateColor::White));
        lemma_all_white_count((n - 1) as nat);
    }
}


/// Computes, during a depth-first search, the states reachable from the start
/// (`access`) and the states from which a final state can be reached
/// (`coaccess`), using Tarjan's strongly connected components.
pub struct SccVisitor<'a, W> {
    pub access: Vec<bool>,
    pub coaccess: Vec<bool>,
    pub start: Option<StateId>,
    pub fst: &'a VectorFst<W>,
    pub nstates: usize,
    pub dfnumber: Vec<usize>,
    pub lowlink: Vec<usize>,
    pub onstack: Vec<bool>,
    pub scc_stack: Vec<StateId>,
    /// Component of each state, numbered in the order the components complete.
    pub scc: Vec<usize>,
    /// Number of completed components.
    pub nscc: usize,
    /// The states discovered and not finished.
    pub dfs_path: Ghost<Seq<StateId>>,
    /// The states discovered so far.
    pub seen_states: Ghost<Set<StateId>>,
    /// For each state on the stack, a state on the stack that it reaches and
    /// whose number is its low link.
    pub low_witness: Ghost<Seq<StateId>>,
    /// The number of transitions of each state examined so far.
    pub done_map: Ghost<Map<StateId, nat>>,
}

fn zero_vec(n: usize) -> (v: Vec<usize>)
    ensures
        v@.len() == n,
        forall|i: int| 0 <= i < n ==> #[trigger] v@[i] == 0,
{
    let mut v: Vec<usize> = Vec::new();
    let mut i: usize = 0;
    while i < n
        invariant
            i <= n,
            v@.len() == i,
            forall|j: int| 0 <= j < i ==> #[trigger] v@[j] == 0,
        decreases n - i,
    {
        v.push(0);
        i += 1;
    }
    v
}

fn bool_vec(n: usize) -> (v: Vec<bool>)
    ensures
        v@.len() == n,
        forall|i: int| 0 <= i < n ==> !#[trigger] v@[i],
{
    let mut v: Vec<bool> = Vec::new();
    let mut i: usize = 0;
    while i < n
        invariant
            i <= n,
            v@.len() == i,
            forall|j: int| 0 <= j < i ==> !#[trigger] v@[j],
        decreases n - i,
    {
        v.push(false);
        i += 1;
    }
    v
}

impl<'a, W: Semiring> SccVisitor<'a, W> {
    pub fn new(fst: &'a VectorFst<W>) -> (r: Self)
        ensures
            r.fst == fst,
            r.start == fst.start_state,
    {
        SccVisitor {
            access: Vec::new(),
            coaccess: Vec::new(),
            start: fst.start(),
            fst,
            nstates: 0,
            dfnumber: Vec::new(),
            lowlink: Vec::new(),
            onstack: Vec::new(),
            scc_stack: Vec::new(),
            scc: Vec::new(),
            nscc: 0,
            dfs_path: Ghost(Seq::empty()),
            seen_states: Ghost(Set::empty()),
            low_witness: Ghost(Seq::empty()),
            done_map: Ghost(Map::empty()),
        }
    }

    /// The tables have one entry per state, the components and the stack are
    /// within bounds, and the accessible states are reachable from the start.
    pub open spec fn basic_ready(&self) -> bool {
        let n = self.fst.states@.len();
        &&& n <= usize::MAX
        &&& self.access@.len() == n
        &&& self.coaccess@.len() == n
        &&& self.dfnumber@.len() == n
        &&& self.lowlink@.len() == n
        &&& self.onstack@.len() == n
        &&& self.start == self.fst.start_state
        &&& self.scc@.len() == n
        &&& self.nstates <= n
        &&& self.nscc + self.scc_stack@.len() <= self.nstates
        &&& forall|s: int| 0 <= s < n ==> #[trigger] self.scc@[s] < n
        &&& forall|i: int| 0 <= i < self.scc_stack@.len() ==> #[trigger] self.scc_stack@[i] < n
        &&& forall|s: int| 0 <= s < n && #[trigger] self.access@[s] ==> (self.start matches Some(st) && reachable(*self.fst, st, s as StateId))
    }

    /// Whether some state of the component of `s`, above `s` on the stack, is
    /// co-accessible.
    fn component_coaccess(&self, s: StateId, Ghost(ks): Ghost<int>) -> (b: bool)
        requires
            self.basic_ready() && self.tarjan_ok(),
            0 <= ks < self.scc_stack@.len(),
            self.scc_stack@[ks] == s,
            forall|k: int| ks <= k < self.scc_stack@.len() ==> reachable(*self.fst, s, #[trigger] self.scc_stack@[k]),
        ensures
            b ==> coreachable(*self.fst, s),
            b == exists|k: int| ks <= k < self.scc_stack@.len() && #[trigger] self.coaccess@[self.scc_stack@[k] as int],
    {
        let ghost pre = *self;
        proof {
            self.lemma_unfold();
        }
        let mut scc_coaccess = false;
        let mut i = self.scc_stack.len();
        while i > 0
            invariant_except_break
                ks < i,
            invariant
                *self == pre,
                i <= self.scc_stack@.len(),
                0 <= ks < self.scc_stack@.len(),
                self.scc_stack@[ks] == s,
                pre.basic_ready() && pre.tarjan_ok(),
                forall|k: int| ks <= k < pre.scc_stack@.len() ==> reachable(*pre.fst, s, #[trigger] pre.scc_stack@[k]),
                scc_coaccess ==> coreachable(*self.fst, s),
                scc_coaccess == exists|k: int| i <= k < self.scc_stack@.len() && #[trigger] self.coaccess@[self.scc_stack@[k] as int],
            ensures
                scc_coaccess ==> coreachable(*self.fst, s),
                scc_coaccess == exists|k: int| ks <= k < self.scc_stack@.len() && #[trigger] self.coaccess@[self.scc_stack@[k] as int],
            decreases i,
        {
            i -= 1;
            let t = self.scc_stack[i];
            if self.coaccess[t] {
                proof {
                    pre.lemma_unfold();
                    assert(t < self.fst.states@.len());
                    assert(coreachable(*self.fst, t));
                    assert(reachable(*self.fst, s, pre.scc_stack@[i as int]));
                    lemma_coreachable_back(*self.fst, s, t);
                }
                scc_coaccess = true;
            }
            proof {
                if scc_coaccess {
                    if self.coaccess[t as int] {
                        assert(self.coaccess@[self.scc_stack@[i as int] as int]);
                    }
                } else {
                    assert forall|k: int| i <= k < self.scc_stack@.len() implies !#[trigger] self.coaccess@[self.scc_stack@[k] as int] by {
                        if k > i {
                            assert(!(exists|k2: int| i + 1 <= k2 < self.scc_stack@.len() && #[trigger] self.coaccess@[self.scc_stack@[k2] as int]));
                        }
                    }
                }
            }
            if s == t {
                proof {
                    pre.lemma_unfold();
                    if i != ks {
                        if i < ks {
                            assert(self.dfnumber@[self.scc_stack@[i as int] as int] < self.dfnumber@[self.scc_stack@[ks] as int]);
                        } else {
                            assert(self.dfnumber@[self.scc_stack@[ks] as int] < self.dfnumber@[self.scc_stack@[i as int] as int]);
                        }
                    }
                }
                break;
            }
        }
        scc_coaccess
    }

    /// Pops the component of `s`: the states above `s` on the stack and `s`
    /// itself, co-accessible when `scc_coaccess`, all numbered with the next
    /// component.
    fn pop_component(&mut self, s: StateId, Ghost(ks): Ghost<int>, scc_coaccess: bool)
        requires
            old(self).basic_ready() && old(self).tarjan_ok(),
            0 <= ks < old(self).scc_stack@.len(),
            old(self).scc_stack@[ks] == s,
            forall|k: int| ks <= k < old(self).scc_stack@.len() ==> reachable(*old(self).fst, #[trigger] old(self).scc_stack@[k], s),
            scc_coaccess ==> coreachable(*old(self).fst, s),
        ensures
            final(self).basic_ready(),
            final(self).fst == old(self).fst,
            final(self).start == old(self).start,
            final(self).nstates == old(self).nstates,
            final(self).dfs_path@ == old(self).dfs_path@,
            final(self).seen_states@ == old(self).seen_states@,
            final(self).dfnumber@ == old(self).dfnumber@,
            final(self).lowlink@ == old(self).lowlink@,
            final(self).low_witness@ == old(self).low_witness@,
            final(self).access@ == old(self).access@,
            final(self).done_map@ == old(self).done_map@,
            final(self).scc_stack@ == old(self).scc_stack@.take(ks),
            forall|v: int| 0 <= v < final(self).fst.states@.len() ==> (#[trigger] final(self).onstack@[v] <==> final(self).scc_stack@.contains(v as StateId)),
            coaccess_ok(*final(self).fst, final(self).coaccess@),
            final(self).nscc == old(self).nscc + 1,
            forall|v: int| 0 <= v < final(self).fst.states@.len() ==> #[trigger] final(self).scc@[v]
                == if old(self).onstack@[v] && !final(self).onstack@[v] { old(self).nscc } else { old(self).scc@[v] },
            forall|v: int| 0 <= v < final(self).fst.states@.len() ==> #[trigger] final(self).coaccess@[v]
                == if old(self).onstack@[v] && !final(self).onstack@[v] { old(self).coaccess@[v] || scc_coaccess } else { old(self).coaccess@[v] },
    {
        let ghost pre = *self;
        proof {
            self.lemma_unfold();
        }
        let mut popped = false;
        while self.scc_stack.len() > 0
            invariant_except_break
                ks < self.scc_stack@.len(),
            invariant
                self.basic_ready(),
                self.fst == pre.fst,
                self.start == pre.start,
                self.nstates == pre.nstates,
                self.dfs_path@ == pre.dfs_path@,
                self.seen_states@ == pre.seen_states@,
                self.dfnumber@ == pre.dfnumber@,
                self.lowlink@ == pre.lowlink@,
                self.low_witness@ == pre.low_witness@,
                self.access@ == pre.access@,
                self.done_map@ == pre.done_map@,
                pre.basic_ready() && pre.tarjan_ok(),
                0 <= ks < pre.scc_stack@.len(),
                pre.scc_stack@[ks] == s,
                self.scc_stack@ == pre.scc_stack@.take(self.scc_stack@.len() as int),
                self.scc_stack@.len() <= pre.scc_stack@.len(),
                forall|v: int| 0 <= v < self.fst.states@.len() ==> (#[trigger] self.onstack@[v] <==> self.scc_stack@.contains(v as StateId)),
                coaccess_ok(*self.fst, self.coaccess@),
                forall|k: int| ks <= k < pre.scc_stack@.len() ==> reachable(*pre.fst, #[trigger] pre.scc_stack@[k], s),
                scc_coaccess ==> coreachable(*self.fst, s),
                popped ==> self.nscc + self.scc_stack@.len() < self.nstates,
                self.nscc == pre.nscc,
                forall|v: int| 0 <= v < self.fst.states@.len() ==> #[trigger] self.scc@[v]
                    == if pre.onstack@[v] && !self.onstack@[v] { pre.nscc } else { pre.scc@[v] },
                forall|v: int| 0 <= v < self.fst.states@.len() ==> #[trigger] self.coaccess@[v]
                    == if pre.onstack@[v] && !self.onstack@[v] { pre.coaccess@[v] || scc_coaccess } else { pre.coaccess@[v] },
            ensures
                popped,
                self.nscc == pre.nscc,
                forall|v: int| 0 <= v < self.fst.states@.len() ==> #[trigger] self.scc@[v]
                    == if pre.onstack@[v] && !self.onstack@[v] { pre.nscc } else { pre.scc@[v] },
                self.basic_ready(),
                self.fst == pre.fst,
                self.start == pre.start,
                self.nstates == pre.nstates,
                self.dfs_path@ == pre.dfs_path@,
                self.seen_states@ == pre.seen_states@,
                self.dfnumber@ == pre.dfnumber@,
                self.lowlink@ == pre.lowlink@,
                self.low_witness@ == pre.low_witness@,
                self.access@ == pre.access@,
                self.done_map@ == pre.done_map@,
                self.scc_stack@ == pre.scc_stack@.take(ks),
                forall|v: int| 0 <= v < self.fst.states@.len() ==> (#[trigger] self.onstack@[v] <==> self.scc_stack@.contains(v as StateId)),
                coaccess_ok(*self.fst, self.coaccess@),
                popped ==> self.nscc + self.scc_stack@.len() < self.nstates,
            decreases self.scc_stack@.len(),
        {
            let ghost before = *self;
            let top = self.scc_stack.len() - 1;
            let t = self.scc_stack[top];
            proof {
                pre.lemma_unfold();
                assert(t == pre.scc_stack@[top as int]);
                assert(reachable(*pre.fst, pre.scc_stack@[top as int], s));
            }
            if scc_coaccess {
                proof {
                    lemma_coreachable_back(*self.fst, t, s);
                    assert forall|v: int| 0 <= v < self.coaccess@.update(t as int, true).len() && #[trigger] self.coaccess@.update(t as int, true)[v]
                        implies coreachable(*self.fst, v as StateId) by {
                        if v != t {
                            assert(self.coaccess@[v]);
                        }
                    }
                }
                self.coaccess.set(t, true);
            }
            self.onstack.set(t, false);
            let c = self.nscc;
            self.scc.set(t, c);
            self.scc_stack.pop();
            popped = true;
            proof {
                let stk = self.scc_stack@;
                let pstk = pre.scc_stack@;
                assert(stk =~= pstk.take(top as int));
                assert forall|v: int| 0 <= v < self.fst.states@.len() implies (#[trigger] self.onstack@[v] <==> stk.contains(v as StateId)) by {
                    if v == t {
                        if stk.contains(t) {
                            let k = choose|k: int| 0 <= k < stk.len() && stk[k] == t;
                            assert(pstk[k] == t);
                            assert(self.dfnumber@[pstk[k] as int] < self.dfnumber@[pstk[top as int] as int]);
                        }
                    } else {
                        assert(self.onstack@[v] == before.onstack@[v]);
                        if before.scc_stack@.contains(v as StateId) {
                            let k = choose|k: int| 0 <= k < before.scc_stack@.len() && before.scc_stack@[k] == v as StateId;
                            assert(k != top);
                            assert(stk[k] == v as StateId);
                        }
                        if stk.contains(v as StateId) {
                            let k = choose|k: int| 0 <= k < stk.len() && stk[k] == v as StateId;
                            assert(before.scc_stack@[k] == v as StateId);
                        }
                    }
                }
                assert forall|q: int| 0 <= q < self.scc@.len() implies #[trigger] self.scc@[q] < self.fst.states@.len() by {
                    if q != t {
                        assert(self.scc@[q] == before.scc@[q]);
                    }
                }
                assert(pre.scc_stack@.contains(pre.scc_stack@[top as int]));
                assert(pre.onstack@[t as int]);
                assert forall|v: int| 0 <= v < self.fst.states@.len() implies #[trigger] self.scc@[v]
                    == if pre.onstack@[v] && !self.onstack@[v] { pre.nscc } else { pre.scc@[v] } by {
                    if v != t {
                        assert(self.scc@[v] == before.scc@[v]);
                        assert(self.onstack@[v] == before.onstack@[v]);
                    }
                }
                assert forall|v: int| 0 <= v < self.fst.states@.len() implies #[trigger] self.coaccess@[v]
                    == if pre.onstack@[v] && !self.onstack@[v] { pre.coaccess@[v] || scc_coaccess } else { pre.coaccess@[v] } by {
                    if v != t {
                        assert(self.coaccess@[v] == before.coaccess@[v]);
                        assert(self.onstack@[v] == before.onstack@[v]);
                    } else {
                        assert(before.onstack@[v]);
                        assert(before.coaccess@[v] == pre.coaccess@[v]);
                    }
                }
            }
            if s == t {
                proof {
                    if top != ks {
                        if top < ks {
                            assert(self.dfnumber@[pstk_at(pre.scc_stack@, top as int) as int] < self.dfnumber@[pre.scc_stack@[ks] as int]);
                        } else {
                            assert(self.dfnumber@[pre.scc_stack@[ks] as int] < self.dfnumber@[pstk_at(pre.scc_stack@, top as int) as int]);
                        }
                    }
                }
                break;
            }
        }
        if popped {
            self.nscc = self.nscc + 1;
        }
    }

    pub proof fn lemma_unfold(&self)
        requires
            self.tarjan_ok(),
        ensures
            stack_ordered(self.scc_stack@, self.seen_states@, self.dfnumber@, self.onstack@, self.fst.states@.len()),
            path_ok(*self.fst, self.scc_stack@, self.dfs_path@, self.dfnumber@),
            coaccess_ok(*self.fst, self.coaccess@),
            seen_numbered(self.seen_states@, self.nstates, self.dfnumber@, self.fst.states@.len()),
    {
        lemma_tarjan_unfold(
            *self.fst,
            self.seen_states@,
            self.nstates,
            self.scc_stack@,
            self.dfs_path@,
            self.dfnumber@,
            self.lowlink@,
            self.low_witness@,
            self.onstack@,
            self.coaccess@,
        );
    }

    /// Finishing `s` keeps the invariant of the components: the transition of
    /// the parent that led to `s` is examined, the component of `s` is popped
    /// when `s` is its root, the parent's low link is lowered and `s` leaves
    /// the path.
    proof fn lemma_finish_components(
        st0: Self,
        pre: Self,
        mid: Self,
        fin: Self,
        s: StateId,
        parent: Option<StateId>,
        root: bool,
        ks: int,
    )
        requires
            st0.ready(),
            s < st0.fst.states@.len(),
            st0.dfs_path@.len() > 0,
            st0.dfs_path@.last() == s,
            parent == if st0.dfs_path@.len() > 1 { Some(st0.dfs_path@[st0.dfs_path@.len() - 2]) } else { None::<StateId> },
            dn(st0.done_map@, s) == st0.fst.states@[s as int].trs@.len(),
            parent matches Some(p) ==> p < st0.fst.states@.len() && dn(st0.done_map@, p) < st0.fst.states@[p as int].trs@.len()
                && st0.fst.states@[p as int].trs@[dn(st0.done_map@, p) as int].nextstate == s,
            pre.fst == st0.fst,
            pre.seen_states@ == st0.seen_states@,
            pre.scc_stack@ == st0.scc_stack@,
            pre.dfs_path@ == st0.dfs_path@,
            pre.dfnumber@ == st0.dfnumber@,
            pre.lowlink@ == st0.lowlink@,
            pre.onstack@ == st0.onstack@,
            pre.scc@ == st0.scc@,
            pre.nscc == st0.nscc,
            pre.done_map@ == match parent {
                Some(p) => st0.done_map@.insert(p, dn(st0.done_map@, p) + 1),
                None => st0.done_map@,
            },
            root == (st0.dfnumber@[s as int] == st0.lowlink@[s as int]),
            root ==> 0 <= ks < st0.scc_stack@.len() && st0.scc_stack@[ks] == s,
            root ==> forall|k: int| ks <= k < st0.scc_stack@.len() ==> reachable(*st0.fst, #[trigger] st0.scc_stack@[k], s)
                && reachable(*st0.fst, s, st0.scc_stack@[k]),
            root ==> mid.scc_stack@ == pre.scc_stack@.take(ks),
            root ==> mid.nscc == pre.nscc + 1,
            root ==> forall|v: int| 0 <= v < st0.fst.states@.len() ==> (#[trigger] mid.onstack@[v] <==> mid.scc_stack@.contains(v as StateId)),
            root ==> forall|v: int| 0 <= v < st0.fst.states@.len() ==> #[trigger] mid.scc@[v]
                == if pre.onstack@[v] && !mid.onstack@[v] { pre.nscc } else { pre.scc@[v] },
            !root ==> mid.scc_stack@ == pre.scc_stack@ && mid.nscc == pre.nscc && mid.onstack@ == pre.onstack@ && mid.scc@ == pre.scc@,
            mid.onstack@.len() == st0.fst.states@.len(),
            mid.scc@.len() == st0.fst.states@.len(),
            mid.fst == pre.fst,
            mid.seen_states@ == pre.seen_states@,
            mid.dfs_path@ == pre.dfs_path@,
            mid.dfnumber@ == pre.dfnumber@,
            mid.lowlink@ == pre.lowlink@,
            mid.done_map@ == pre.done_map@,
            fin.fst == mid.fst,
            fin.seen_states@ == mid.seen_states@,
            fin.scc_stack@ == mid.scc_stack@,
            fin.dfnumber@ == mid.dfnumber@,
            fin.onstack@ == mid.onstack@,
            fin.scc@ == mid.scc@,
            fin.nscc == mid.nscc,
            fin.done_map@ == mid.done_map@,
            fin.dfs_path@ == st0.dfs_path@.drop_last(),
            fin.lowlink@ == match parent {
                Some(p) => low_after(mid.lowlink@, s, p),
                None => mid.lowlink@,
            },
        ensures
            fin.scc_ok(),
    {
        let fst = *st0.fst;
        let n = fst.states@.len();
        let stk = st0.scc_stack@;
        let path = st0.dfs_path@;
        let dfn = st0.dfnumber@;
        let low = st0.lowlink@;
        let seen = st0.seen_states@;
        lemma_tarjan_unfold(
            fst,
            seen,
            st0.nstates,
            stk,
            path,
            dfn,
            low,
            st0.low_witness@,
            st0.onstack@,
            st0.coaccess@,
        );
        assert(path[path.len() - 1] == s);
        assert(stk.contains(path[path.len() - 1]));
        let kss = choose|k: int| 0 <= k < stk.len() && stk[k] == s;
        assert(seen.contains(stk[kss]));
        let d1 = pre.done_map@;
        match parent {
            Some(p) => {
                assert(path[path.len() - 2] == p);
                assert(dfn[path[path.len() - 2] as int] < dfn[path[path.len() - 1] as int]);
                assert(stk.contains(path[path.len() - 2]));
                let kp = choose|k: int| 0 <= k < stk.len() && stk[k] == p;
                assert(seen.contains(stk[kp]));
                lemma_scc_parent(fst, seen, stk, path, dfn, low, st0.onstack@, st0.scc@, st0.nscc, st0.done_map@, p, s);
                assert(p != s);
                assert(dn(d1, s) == dn(st0.done_map@, s));
            },
            None => {},
        }
        assert(scc_inv(fst, seen, stk, path, dfn, low, st0.onstack@, st0.scc@, st0.nscc, d1));
        if root {
            assert(st0.nscc < usize::MAX);
            lemma_scc_pop(fst, seen, stk, path, dfn, low, st0.onstack@, st0.scc@, st0.nscc, d1, s, ks, mid.onstack@, mid.scc@);
        }
        assert(scc_inv(fst, seen, mid.scc_stack@, path, dfn, low, mid.onstack@, mid.scc@, mid.nscc, d1));
        assert forall|k: int| 0 <= k < mid.scc_stack@.len() implies #[trigger] mid.scc_stack@[k] < low.len() by {
            assert(mid.scc_stack@[k] == stk[k]);
        }
        match parent {
            Some(p) => {
                assert forall|v: int| 0 <= v < low.len() implies #[trigger] fin.lowlink@[v] <= low[v] by {}
                lemma_scc_lower(fst, seen, mid.scc_stack@, path, dfn, low, mid.onstack@, mid.scc@, mid.nscc, d1, fin.lowlink@);
            },
            None => {},
        }
        lemma_scc_leave(fst, seen, mid.scc_stack@, path, dfn, fin.lowlink@, mid.onstack@, mid.scc@, mid.nscc, d1, s);
    }

    /// `v` is discovered and its component was popped.
    pub open spec fn popped(&self, v: StateId) -> bool {
        self.seen_states@.contains(v) && !self.onstack@[v as int]
    }

    /// The examined transition from `x` to `y` is settled for co-accessibility:
    /// `y` reaches `x` back, or `y` was popped and passes its co-accessibility on to `x`.
    pub open spec fn co_edge(&self, x: StateId, y: StateId) -> bool {
        ||| reachable(*self.fst, y, x)
        ||| self.popped(y) && (self.coaccess@[y as int] ==> self.coaccess@[x as int])
    }

    /// Co-accessibility is settled so far: finished final states are marked,
    /// the states of a popped component are all marked or none is, and every
    /// examined transition is settled.
    pub open spec fn co_ok(&self) -> bool {
        let f = *self.fst;
        let seen = self.seen_states@;
        let path = self.dfs_path@;
        &&& forall|v: StateId| #[trigger] seen.contains(v) && !path.contains(v) && f.states@[v as int].final_weight is Some
            ==> self.coaccess@[v as int]
        &&& forall|u: StateId, v: StateId| #![trigger self.scc@[u as int], self.scc@[v as int]]
            self.popped(u) && self.popped(v) && self.scc@[u as int] == self.scc@[v as int]
            ==> self.coaccess@[u as int] == self.coaccess@[v as int]
        &&& forall|x: StateId, e: int| seen.contains(x) && 0 <= e < dn(self.done_map@, x) && e < f.states@[x as int].trs@.len()
            ==> #[trigger] self.co_edge(x, f.states@[x as int].trs@[e].nextstate)
        &&& forall|v: StateId| #[trigger] self.popped(v) ==> dn(self.done_map@, v) >= f.states@[v as int].trs@.len()
    }

    /// Discovering `s` keeps co-accessibility settled.
    proof fn lemma_co_discover(pre: Self, post: Self, s: StateId)
        requires
            pre.co_ok(),
            !pre.seen_states@.contains(s),
            dn(pre.done_map@, s) == 0,
            post.fst == pre.fst,
            post.seen_states@ == pre.seen_states@.insert(s),
            post.dfs_path@ == pre.dfs_path@.push(s),
            post.onstack@ == pre.onstack@.update(s as int, true),
            s < pre.onstack@.len(),
            pre.onstack@.len() == pre.fst.states@.len(),
            forall|v: StateId| #[trigger] pre.seen_states@.contains(v) ==> v < pre.fst.states@.len(),
            post.coaccess@ == pre.coaccess@,
            post.scc@ == pre.scc@,
            post.done_map@ == pre.done_map@,
        ensures
            post.co_ok(),
    {
        let f = *post.fst;
        assert(post.dfs_path@[pre.dfs_path@.len() as int] == s);
        assert forall|v: StateId| #[trigger] post.seen_states@.contains(v) && !post.dfs_path@.contains(v)
            && f.states@[v as int].final_weight is Some implies post.coaccess@[v as int] by {
            if v == s {
                assert(post.dfs_path@.contains(s));
            } else if pre.dfs_path@.contains(v) {
                let i = choose|i: int| 0 <= i < pre.dfs_path@.len() && pre.dfs_path@[i] == v;
                assert(post.dfs_path@[i] == v);
            }
        }
        assert forall|u: StateId, v: StateId| #![trigger post.scc@[u as int], post.scc@[v as int]]
            post.popped(u) && post.popped(v) && post.scc@[u as int] == post.scc@[v as int]
            implies post.coaccess@[u as int] == post.coaccess@[v as int] by {
            assert(post.onstack@[s as int]);
            assert(u != s && v != s);
            assert(post.onstack@[u as int] == pre.onstack@[u as int]);
            assert(post.onstack@[v as int] == pre.onstack@[v as int]);
            assert(pre.popped(u) && pre.popped(v));
        }
        assert forall|x: StateId, e: int| post.seen_states@.contains(x) && 0 <= e < dn(post.done_map@, x) && e < f.states@[x as int].trs@.len()
            implies #[trigger] post.co_edge(x, f.states@[x as int].trs@[e].nextstate) by {
            let y = f.states@[x as int].trs@[e].nextstate;
            assert(x != s);
            assert(pre.co_edge(x, y));
            if pre.popped(y) {
                assert(y != s);
                assert(post.onstack@[y as int] == pre.onstack@[y as int]);
                assert(post.popped(y));
            }
        }
        assert forall|v: StateId| #[trigger] post.popped(v) implies dn(post.done_map@, v) >= f.states@[v as int].trs@.len() by {
            assert(post.onstack@[s as int]);
            assert(v != s);
            assert(post.onstack@[v as int] == pre.onstack@[v as int]);
            assert(pre.popped(v));
        }
    }

    /// Examining a transition from `s`, the last state of the path, to `t`
    /// keeps co-accessibility settled when it settles that transition.
    proof fn lemma_co_edge(pre: Self, post: Self, s: StateId, t: StateId)
        requires
            pre.co_ok(),
            pre.seen_states@.contains(s),
            !pre.popped(s),
            s < pre.fst.states@.len(),
            dn(pre.done_map@, s) < pre.fst.states@[s as int].trs@.len(),
            pre.fst.states@[s as int].trs@[dn(pre.done_map@, s) as int].nextstate == t,
            post.fst == pre.fst,
            post.seen_states@ == pre.seen_states@,
            post.dfs_path@ == pre.dfs_path@,
            post.onstack@ == pre.onstack@,
            post.scc@ == pre.scc@,
            post.coaccess@ == pre.coaccess@.update(s as int, pre.coaccess@[s as int] || pre.coaccess@[t as int]),
            dn(post.done_map@, s) == dn(pre.done_map@, s) + 1,
            forall|v: StateId| v != s ==> #[trigger] dn(post.done_map@, v) == dn(pre.done_map@, v),
            reachable(*pre.fst, t, s) || pre.popped(t),
            pre.coaccess@.len() == pre.fst.states@.len(),
            t < pre.fst.states@.len(),
            forall|v: StateId| #[trigger] pre.seen_states@.contains(v) ==> v < pre.fst.states@.len(),
        ensures
            post.co_ok(),
    {
        let f = *post.fst;
        assert forall|v: StateId| #[trigger] post.seen_states@.contains(v) && !post.dfs_path@.contains(v)
            && f.states@[v as int].final_weight is Some implies post.coaccess@[v as int] by {
            assert(pre.coaccess@[v as int]);
        }
        assert forall|u: StateId, v: StateId| #![trigger post.scc@[u as int], post.scc@[v as int]]
            post.popped(u) && post.popped(v) && post.scc@[u as int] == post.scc@[v as int]
            implies post.coaccess@[u as int] == post.coaccess@[v as int] by {
            assert(pre.popped(u) && pre.popped(v));
            assert(u != s && v != s);
        }
        assert forall|x: StateId, e: int| post.seen_states@.contains(x) && 0 <= e < dn(post.done_map@, x) && e < f.states@[x as int].trs@.len()
            implies #[trigger] post.co_edge(x, f.states@[x as int].trs@[e].nextstate) by {
            let y = f.states@[x as int].trs@[e].nextstate;
            if x == s && e == dn(pre.done_map@, s) {
                assert(y == t);
            } else {
                assert(e < dn(pre.done_map@, x));
                assert(pre.co_edge(x, y));
                if pre.popped(y) {
                    assert(y != s);
                }
            }
        }
        assert forall|v: StateId| #[trigger] post.popped(v) implies dn(post.done_map@, v) >= f.states@[v as int].trs@.len() by {
            assert(pre.popped(v));
            assert(v != s);
        }
    }

    /// Finishing `s` keeps co-accessibility settled: the states popped with it
    /// are all marked or none is, in a component of their own; no other popped
    /// state changes; marks are only added; a final `s` is marked; and the
    /// transition of the parent that led to `s` is settled.
    proof fn lemma_co_finish(st0: Self, post: Self, s: StateId, parent: Option<StateId>)
        requires
            st0.co_ok(),
            st0.onstack@.len() == st0.fst.states@.len(),
            st0.coaccess@.len() == st0.fst.states@.len(),
            post.onstack@.len() == st0.fst.states@.len(),
            post.coaccess@.len() == st0.fst.states@.len(),
            forall|v: StateId| #[trigger] st0.seen_states@.contains(v) ==> v < st0.fst.states@.len(),
            st0.dfs_path@.len() > 0,
            st0.dfs_path@.last() == s,
            post.fst == st0.fst,
            post.seen_states@ == st0.seen_states@,
            post.dfs_path@ == st0.dfs_path@.drop_last(),
            forall|v: int| 0 <= v < st0.fst.states@.len() && #[trigger] post.onstack@[v] ==> st0.onstack@[v],
            forall|u: int, v: int| 0 <= u < st0.fst.states@.len() && 0 <= v < st0.fst.states@.len()
                && st0.onstack@[u] && !post.onstack@[u] && st0.onstack@[v] && !post.onstack@[v]
                ==> #[trigger] post.coaccess@[u] == #[trigger] post.coaccess@[v],
            forall|u: StateId, v: StateId| #![trigger post.scc@[u as int], post.scc@[v as int]]
                u < st0.fst.states@.len() && v < st0.fst.states@.len()
                && st0.onstack@[u as int] && !post.onstack@[u as int] && st0.popped(v) ==> post.scc@[u as int] != post.scc@[v as int],
            forall|v: StateId| #[trigger] st0.popped(v) ==> post.scc@[v as int] == st0.scc@[v as int] && post.coaccess@[v as int] == st0.coaccess@[v as int],
            forall|v: int| 0 <= v < st0.fst.states@.len() && #[trigger] st0.coaccess@[v] ==> post.coaccess@[v],
            st0.fst.states@[s as int].final_weight is Some ==> post.coaccess@[s as int],
            parent matches Some(p) ==> st0.seen_states@.contains(p) && dn(st0.done_map@, p) < st0.fst.states@[p as int].trs@.len()
                && st0.fst.states@[p as int].trs@[dn(st0.done_map@, p) as int].nextstate == s
                && dn(post.done_map@, p) == dn(st0.done_map@, p) + 1 && post.co_edge(p, s),
            forall|v: StateId| parent != Some(v) ==> #[trigger] dn(post.done_map@, v) == dn(st0.done_map@, v),
            forall|v: StateId| v < st0.fst.states@.len() && st0.onstack@[v as int] && !post.onstack@[v as int]
                ==> #[trigger] dn(st0.done_map@, v) >= st0.fst.states@[v as int].trs@.len(),
        ensures
            post.co_ok(),
    {
        let f = *post.fst;
        let path0 = st0.dfs_path@;
        assert forall|v: StateId| #[trigger] post.popped(v) implies dn(post.done_map@, v) >= f.states@[v as int].trs@.len() by {
            if st0.popped(v) {
                assert(dn(st0.done_map@, v) >= f.states@[v as int].trs@.len());
            } else {
                assert(dn(st0.done_map@, v) >= f.states@[v as int].trs@.len());
            }
        }
        assert(path0 == post.dfs_path@.push(s));
        assert forall|v: StateId| #[trigger] post.seen_states@.contains(v) && !post.dfs_path@.contains(v)
            && f.states@[v as int].final_weight is Some implies post.coaccess@[v as int] by {
            if v != s {
                if path0.contains(v) {
                    let i = choose|i: int| 0 <= i < path0.len() && path0[i] == v;
                    assert(i < path0.len() - 1);
                    assert(post.dfs_path@[i] == v);
                }
                assert(st0.coaccess@[v as int]);
            }
        }
        assert forall|u: StateId, v: StateId| #![trigger post.scc@[u as int], post.scc@[v as int]]
            post.popped(u) && post.popped(v) && post.scc@[u as int] == post.scc@[v as int]
            implies post.coaccess@[u as int] == post.coaccess@[v as int] by {
            if st0.popped(u) && st0.popped(v) {
                assert(st0.scc@[u as int] == st0.scc@[v as int]);
            } else if !st0.popped(u) && !st0.popped(v) {
                assert(post.coaccess@[u as int] == post.coaccess@[v as int]);
            } else if st0.popped(v) {
                assert(post.scc@[u as int] != post.scc@[v as int]);
            } else {
                assert(post.scc@[v as int] != post.scc@[u as int]);
            }
        }
        assert forall|x: StateId, e: int| post.seen_states@.contains(x) && 0 <= e < dn(post.done_map@, x) && e < f.states@[x as int].trs@.len()
            implies #[trigger] post.co_edge(x, f.states@[x as int].trs@[e].nextstate) by {
            let y = f.states@[x as int].trs@[e].nextstate;
            if parent == Some(x) && e == dn(st0.done_map@, x) {
                assert(y == s);
            } else {
                assert(e < dn(st0.done_map@, x));
                assert(st0.co_edge(x, y));
                if st0.popped(y) && !reachable(f, y, x) {
                    assert(post.popped(y));
                    if post.coaccess@[y as int] {
                        assert(st0.coaccess@[x as int]);
                    }
                }
            }
        }
    }

    /// The facts of `lemma_co_finish` hold of the steps of `finish_state`:
    /// `pre` after marking a final `s`, `mid` after popping the component of
    /// `s` when `root`, `self` after passing on to the parent.
    proof fn lemma_co_settle(&self, st0: Self, pre: Self, mid: Self, s: StateId, parent: Option<StateId>, root: bool, ks: int, sc: bool)
        requires
            st0.ready(),
            self.basic_ready() && self.tarjan_ok(),
            st0.dfs_path@.len() > 0,
            st0.dfs_path@.last() == s,
            s < st0.fst.states@.len(),
            parent == if st0.dfs_path@.len() > 1 { Some(st0.dfs_path@[st0.dfs_path@.len() - 2]) } else { None::<StateId> },
            !Self::stopped(&st0) ==> dn(st0.done_map@, s) == st0.fst.states@[s as int].trs@.len(),
            parent matches Some(p) ==> dn(st0.done_map@, p) < st0.fst.states@[p as int].trs@.len()
                && st0.fst.states@[p as int].trs@[dn(st0.done_map@, p) as int].nextstate == s,
            pre.fst == st0.fst && pre.seen_states@ == st0.seen_states@ && pre.onstack@ == st0.onstack@
                && pre.scc@ == st0.scc@ && pre.nscc == st0.nscc && pre.scc_stack@ == st0.scc_stack@,
            pre.coaccess@ == if st0.fst.states@[s as int].final_weight is Some { st0.coaccess@.update(s as int, true) } else { st0.coaccess@ },
            root ==> 0 <= ks < pre.scc_stack@.len() && pre.scc_stack@[ks] == s
                && sc == (exists|k: int| ks <= k < pre.scc_stack@.len() && #[trigger] pre.coaccess@[pre.scc_stack@[k] as int])
                && mid.scc_stack@ == pre.scc_stack@.take(ks)
                && (forall|v: int| 0 <= v < mid.fst.states@.len() ==> (#[trigger] mid.onstack@[v] <==> mid.scc_stack@.contains(v as StateId)))
                && (forall|v: int| 0 <= v < mid.fst.states@.len() ==> #[trigger] mid.scc@[v]
                    == if pre.onstack@[v] && !mid.onstack@[v] { pre.nscc } else { pre.scc@[v] })
                && (forall|v: int| 0 <= v < mid.fst.states@.len() ==> #[trigger] mid.coaccess@[v]
                    == if pre.onstack@[v] && !mid.onstack@[v] { pre.coaccess@[v] || sc } else { pre.coaccess@[v] }),
            !root ==> mid.onstack@ == pre.onstack@ && mid.scc@ == pre.scc@ && mid.coaccess@ == pre.coaccess@,
            mid.fst == st0.fst && mid.seen_states@ == st0.seen_states@ && mid.coaccess@.len() == st0.fst.states@.len(),
            self.fst == st0.fst && self.seen_states@ == st0.seen_states@ && self.onstack@ == mid.onstack@ && self.scc@ == mid.scc@,
            self.dfs_path@ == st0.dfs_path@.drop_last(),
            parent matches Some(p) ==> self.coaccess@ == (if mid.coaccess@[s as int] { mid.coaccess@.update(p as int, true) } else { mid.coaccess@ })
                && self.done_map@ == st0.done_map@.insert(p, dn(st0.done_map@, p) + 1),
            parent is None ==> self.coaccess@ == mid.coaccess@ && self.done_map@ == st0.done_map@,
        ensures
            self.co_ok(),
    {
        st0.lemma_unfold();
        self.lemma_unfold();
        let n = st0.fst.states@.len();
        let path0 = st0.dfs_path@;
        assert(st0.scc_stack@.contains(path0[path0.len() - 1]));
        assert(st0.onstack@[s as int]);
        assert(parent is Some ==> self.onstack@[parent->0 as int] && st0.onstack@[parent->0 as int] && parent->0 < n) by {
            if parent is Some {
                let p = parent->0;
                assert(self.dfs_path@[self.dfs_path@.len() - 1] == p);
                assert(self.scc_stack@.contains(self.dfs_path@[self.dfs_path@.len() - 1]));
                assert(self.onstack@[p as int]);
                assert(st0.scc_stack@.contains(path0[path0.len() - 2]));
                assert(st0.onstack@[p as int]);
                assert(p < n);
            }
        }
        assert forall|v: int| 0 <= v < n && #[trigger] self.onstack@[v] implies st0.onstack@[v] by {
            if root {
                assert(mid.fst.states@.len() == n);
                assert(mid.onstack@[v]);
                assert(mid.onstack@[v] <==> mid.scc_stack@.contains(v as StateId));
                assert(mid.scc_stack@.contains(v as StateId));
                let k = choose|k: int| 0 <= k < mid.scc_stack@.len() && mid.scc_stack@[k] == v as StateId;
                assert(mid.scc_stack@[k] == pre.scc_stack@.take(ks)[k]);
                assert(pre.scc_stack@[k] == v as StateId);
                assert(pre.scc_stack@.contains(v as StateId));
            }
        }
        assert forall|u: int| 0 <= u < n && st0.onstack@[u] && !self.onstack@[u] implies #[trigger] self.coaccess@[u] == sc by {
            assert(root);
            assert(pre.scc_stack@.contains(u as StateId));
            let k = choose|k: int| 0 <= k < pre.scc_stack@.len() && pre.scc_stack@[k] == u as StateId;
            assert(mid.fst.states@.len() == n);
            if k < ks {
                assert(mid.scc_stack@[k] == pre.scc_stack@.take(ks)[k]);
                assert(mid.scc_stack@[k] == u as StateId);
                assert(mid.scc_stack@.contains(u as StateId));
                assert(mid.onstack@[u] <==> mid.scc_stack@.contains(u as StateId));
            }
            if pre.coaccess@[u] {
                assert(pre.coaccess@[pre.scc_stack@[k] as int]);
            }
            assert(mid.onstack@[u] == self.onstack@[u]);
            assert(mid.coaccess@[u] == (pre.coaccess@[u] || sc));
            if parent is Some {
                let p = parent->0;
                assert(self.onstack@[p as int]);
                assert(p as int != u);
                assert(self.coaccess@.len() == n);
                if mid.coaccess@[s as int] {
                    assert(self.coaccess@ == mid.coaccess@.update(p as int, true));
                    assert(mid.coaccess@.len() == n);
                    assert(self.coaccess@[u] == mid.coaccess@[u]);
                } else {
                    assert(self.coaccess@ == mid.coaccess@);
                }
            }
        }
        assert(st0.scc_ok());
        assert forall|v: StateId| #[trigger] st0.popped(v) implies st0.scc@[v as int] < st0.nscc by {
            reveal(scc_inv);
            assert(crate::tarjan::popped_ok(*st0.fst, st0.seen_states@, st0.onstack@, st0.scc@, st0.nscc, v));
        }
        if parent is Some && !root {
            assert(self.onstack@[s as int]);
            assert(self.scc_stack@.contains(s));
            lemma_stack_reaches_top(*self.fst, self.seen_states@, self.nstates, self.scc_stack@, self.dfs_path@,
                self.dfnumber@, self.lowlink@, self.low_witness@, self.onstack@, self.coaccess@, s);
        }
        if parent is Some && root {
            assert(!self.onstack@[s as int]) by {
                assert(pre.scc_stack@[ks] == s);
                if mid.scc_stack@.contains(s) {
                    let k = choose|k: int| 0 <= k < mid.scc_stack@.len() && mid.scc_stack@[k] == s;
                    assert(pre.scc_stack@[k] == s);
                    assert(st0.dfnumber@[pre.scc_stack@[k] as int] < st0.dfnumber@[pre.scc_stack@[ks] as int]);
                }
            }
        }
        assert forall|v: StateId| #[trigger] st0.popped(v) implies self.scc@[v as int] == st0.scc@[v as int]
            && self.coaccess@[v as int] == st0.coaccess@[v as int] by {
            assert(v < n);
            assert(v != s);
            assert(!pre.onstack@[v as int]);
            assert(mid.scc@[v as int] == pre.scc@[v as int]);
            assert(mid.coaccess@[v as int] == pre.coaccess@[v as int]);
            assert(st0.onstack@[s as int]);
            assert(pre.coaccess@[v as int] == st0.coaccess@[v as int]);
            assert(self.coaccess@.len() == n);
            if parent is Some {
                let p = parent->0;
                assert(st0.onstack@[p as int]);
                assert(p as int != v as int);
                assert(mid.coaccess@.len() == n || !mid.coaccess@[s as int]);
                if mid.coaccess@[s as int] {
                    assert(self.coaccess@ == mid.coaccess@.update(p as int, true));
                } else {
                    assert(self.coaccess@ == mid.coaccess@);
                }
            }
        }
        assert forall|v: StateId| v < n && st0.onstack@[v as int] && !self.onstack@[v as int]
            implies #[trigger] dn(st0.done_map@, v) >= st0.fst.states@[v as int].trs@.len() by {
            assert(root);
            assert(pre.scc_stack@.contains(v));
            let k = choose|k: int| 0 <= k < pre.scc_stack@.len() && pre.scc_stack@[k] == v;
            if k < ks {
                assert(mid.scc_stack@[k] == pre.scc_stack@.take(ks)[k]);
                assert(mid.scc_stack@.contains(v));
                assert(mid.onstack@[v as int]);
            }
            if v != s {
                assert(st0.dfnumber@[pre.scc_stack@[ks] as int] < st0.dfnumber@[pre.scc_stack@[k] as int]);
                if path0.contains(v) {
                    let i = choose|i: int| 0 <= i < path0.len() && path0[i] == v;
                    assert(i < path0.len() - 1);
                    assert(st0.dfnumber@[path0[i] as int] < st0.dfnumber@[path0[path0.len() - 1] as int]);
                }
                reveal(scc_inv);
                assert(dn(st0.done_map@, st0.scc_stack@[k]) == st0.fst.states@[st0.scc_stack@[k] as int].trs@.len());
            }
        }
        Self::lemma_co_finish(st0, *self, s, parent);
    }

    /// Along a path whose last state is marked, with marks passed back over
    /// every transition, the first state is marked.
    proof fn lemma_marks_back(&self, path: Seq<StateId>, i: int)
        requires
            is_path(*self.fst, path),
            0 <= i < path.len(),
            self.coaccess@[path.last() as int],
            forall|u: int, e: int| 0 <= u < self.fst.states@.len() && 0 <= e < self.fst.states@[u].trs@.len()
                && #[trigger] self.coaccess@[self.fst.states@[u].trs@[e].nextstate as int] ==> self.coaccess@[u],
        ensures
            self.coaccess@[path[i] as int],
        decreases path.len() - i,
    {
        if i < path.len() - 1 {
            self.lemma_marks_back(path, i + 1);
            assert(edge(*self.fst, path[i], path[i + 1]));
            let e = choose|e: int| 0 <= e < self.fst.states@[path[i] as int].trs@.len()
                && #[trigger] self.fst.states@[path[i] as int].trs@[e].nextstate == path[i + 1];
            assert(self.coaccess@[self.fst.states@[path[i] as int].trs@[e].nextstate as int]);
        }
    }

    /// Once every state is discovered and finished, every state that reaches
    /// a final state is marked co-accessible.
    pub proof fn lemma_coaccess_complete(&self)
        requires
            self.ready(),
            self.fst.wf(),
            self.dfs_path@.len() == 0,
            forall|v: int| 0 <= v < self.fst.states@.len() ==> #[trigger] self.seen_states@.contains(v as StateId),
        ensures
            forall|v: StateId| v < self.fst.states@.len() && coreachable(*self.fst, v) ==> #[trigger] self.coaccess@[v as int],
    {
        let f = *self.fst;
        let n = f.states@.len();
        self.lemma_unfold();
        assert(self.scc_stack@.len() == 0);
        assert forall|v: int| 0 <= v < n implies !#[trigger] self.onstack@[v] by {
            if self.onstack@[v] {
                assert(self.scc_stack@.contains(v as StateId));
            }
        }
        assert forall|v: int| 0 <= v < n implies #[trigger] self.seen_states@.contains(v as StateId) by {}
        lemma_scc_complete(f, self.seen_states@, self.scc_stack@, self.dfs_path@, self.dfnumber@, self.lowlink@,
            self.onstack@, self.scc@, self.nscc, self.done_map@);
        assert forall|u: int, e: int| 0 <= u < n && 0 <= e < f.states@[u].trs@.len()
            && #[trigger] self.coaccess@[f.states@[u].trs@[e].nextstate as int] implies self.coaccess@[u] by {
            let y = f.states@[u].trs@[e].nextstate;
            let x = u as StateId;
            assert(self.seen_states@.contains(x));
            assert(!self.onstack@[u]);
            assert(self.popped(x));
            assert(dn(self.done_map@, x) >= f.states@[u].trs@.len());
            assert(self.co_edge(x, f.states@[x as int].trs@[e].nextstate));
            if reachable(f, y, x) {
                assert(y < n);
                crate::tarjan::lemma_scc_reach_down(f, self.scc@, y, x);
                assert(self.scc@[y as int] <= self.scc@[u]);
                assert(self.seen_states@.contains(y));
                assert(!self.onstack@[y as int]);
                assert(self.popped(y));
                assert(self.scc@[x as int] == self.scc@[y as int]);
            }
        }
        assert forall|v: StateId| v < n && coreachable(f, v) implies #[trigger] self.coaccess@[v as int] by {
            let g = choose|g: StateId| #[trigger] reachable(f, v, g) && g < n && f.states@[g as int].final_weight is Some;
            let path = choose|path: Seq<StateId>| #[trigger] is_path(f, path) && path[0] == v && path.last() == g;
            assert(self.seen_states@.contains(g as int as StateId));
            assert(self.seen_states@.contains(g));
            assert(!self.dfs_path@.contains(g));
            assert(self.coaccess@[g as int]);
            self.lemma_marks_back(path, 0);
        }
    }

    /// The start state is discovered first, as the root of the first search
    /// tree, whose states are all marked accessible; once it is finished,
    /// every state it reaches is discovered and marked.
    pub open spec fn access_ok(&self) -> bool {
        let f = *self.fst;
        let seen = self.seen_states@;
        let path = self.dfs_path@;
        self.start matches Some(st) ==> {
            &&& !seen.contains(st) ==> forall|v: StateId| !#[trigger] seen.contains(v)
            &&& seen.contains(st) && path.contains(st) ==> path[0] == st
            &&& path.len() > 0 && path[0] == st ==> forall|v: StateId| #[trigger] seen.contains(v) ==> self.access@[v as int]
            &&& seen.contains(st) && !path.contains(st) ==> forall|v: StateId| #[trigger] reachable(f, st, v) ==> seen.contains(v) && self.access@[v as int]
        }
    }

    /// Discovering `s` from the root `root` keeps the accessible states settled.
    proof fn lemma_access_discover(pre: Self, post: Self, s: StateId, root: StateId)
        requires
            pre.access_ok(),
            !pre.seen_states@.contains(s),
            forall|i: int| 0 <= i < pre.dfs_path@.len() ==> #[trigger] pre.seen_states@.contains(pre.dfs_path@[i]),
            (pre.dfs_path@.len() == 0 && s == root) || pre.dfs_path@.len() > 0,
            pre.dfs_path@.len() == 0 && (forall|v: StateId| !#[trigger] pre.seen_states@.contains(v)) ==> pre.start == Some(root),
            pre.dfs_path@.len() > 0 ==> pre.dfs_path@[0] == root,
            post.fst == pre.fst,
            post.start == pre.start,
            post.seen_states@ == pre.seen_states@.insert(s),
            post.dfs_path@ == pre.dfs_path@.push(s),
            s < pre.access@.len(),
            forall|v: StateId| #[trigger] pre.seen_states@.contains(v) ==> v < pre.access@.len(),
            post.access@ == pre.access@.update(s as int, pre.start == Some(root)),
        ensures
            post.access_ok(),
    {
        if pre.start is Some {
            let st = pre.start->0;
            let path0 = pre.dfs_path@;
            let path = post.dfs_path@;
            assert(path[path0.len() as int] == s);
            assert forall|v: StateId| path.contains(v) implies v == s || path0.contains(v) by {
                let i = choose|i: int| 0 <= i < path.len() && path[i] == v;
                if i < path0.len() {
                    assert(path0[i] == v);
                }
            }
            assert forall|v: StateId| path0.contains(v) implies path.contains(v) by {
                let i = choose|i: int| 0 <= i < path0.len() && path0[i] == v;
                assert(path[i] == v);
            }
            if path0.len() > 0 {
                assert(path[0] == path0[0]);
                assert(pre.seen_states@.contains(path0[0]));
            }
            if !pre.seen_states@.contains(st) && s != st {
                assert(pre.dfs_path@.len() == 0) by {
                    if path0.len() > 0 {
                        assert(pre.seen_states@.contains(path0[0]));
                    }
                }
                assert(pre.start == Some(root));
            }
            if s == st {
                assert(forall|v: StateId| !#[trigger] pre.seen_states@.contains(v));
                assert(path0.len() == 0) by {
                    if path0.len() > 0 {
                        assert(pre.seen_states@.contains(path0[0]));
                    }
                }
                assert(path[0] == st);
            }
            if path.len() > 0 && path[0] == st {
                assert forall|v: StateId| #[trigger] post.seen_states@.contains(v) implies post.access@[v as int] by {
                    if v != s {
                        assert(pre.seen_states@.contains(v));
                        assert(v < pre.access@.len());
                        if path0.len() == 0 {
                            assert(s == st);
                        }
                        assert(post.access@[v as int] == pre.access@[v as int]);
                    } else {
                        if path0.len() > 0 {
                            assert(root == path0[0]);
                        }
                        assert(root == st);
                    }
                }
            }
            if post.seen_states@.contains(st) && !path.contains(st) {
                assert(st != s);
                assert forall|v: StateId| #[trigger] reachable(*post.fst, st, v) implies post.seen_states@.contains(v) && post.access@[v as int] by {
                    assert(pre.seen_states@.contains(v));
                    assert(v != s);
                    assert(v < pre.access@.len());
                    assert(post.access@[v as int] == pre.access@[v as int]);
                }
            }
        }
    }

    /// A set of states closed under transitions holds every state that one
    /// of its states reaches.
    proof fn lemma_closed_reach(f: VectorFst<W>, seen: Set<StateId>, path: Seq<StateId>, i: int)
        requires
            forall|u: StateId, e: int| seen.contains(u) && 0 <= e < f.states@[u as int].trs@.len()
                ==> seen.contains(#[trigger] f.states@[u as int].trs@[e].nextstate),
            is_path(f, path),
            seen.contains(path[0]),
            0 <= i < path.len(),
        ensures
            seen.contains(path[i]),
        decreases i,
    {
        if i > 0 {
            Self::lemma_closed_reach(f, seen, path, i - 1);
            assert(edge(f, path[i - 1], path[i]));
            let e = choose|e: int| 0 <= e < f.states@[path[i - 1] as int].trs@.len()
                && #[trigger] f.states@[path[i - 1] as int].trs@[e].nextstate == path[i];
        }
    }

    /// Finishing the last state `s` of the path keeps the accessible states settled.
    proof fn lemma_access_finish(pre: Self, post: Self, s: StateId)
        requires
            pre.access_ok(),
            pre.dfs_path@.len() > 0,
            pre.dfs_path@.last() == s,
            pre.dfs_path@.no_duplicates(),
            post.fst == pre.fst,
            post.start == pre.start,
            post.seen_states@ == pre.seen_states@,
            post.access@ == pre.access@,
            post.dfs_path@ == pre.dfs_path@.drop_last(),
            post.dfs_path@.len() == 0 ==> forall|u: StateId, e: int| pre.seen_states@.contains(u)
                && 0 <= e < pre.fst.states@[u as int].trs@.len() ==> pre.seen_states@.contains(#[trigger] pre.fst.states@[u as int].trs@[e].nextstate),
        ensures
            post.access_ok(),
    {
        if pre.start is Some {
            let st = pre.start->0;
            let path0 = pre.dfs_path@;
            let path = post.dfs_path@;
            assert forall|v: StateId| path.contains(v) implies path0.contains(v) by {
                let i = choose|i: int| 0 <= i < path.len() && path[i] == v;
                assert(path0[i] == v);
            }
            if path.len() > 0 {
                assert(path[0] == path0[0]);
            }
            if pre.seen_states@.contains(st) && !path.contains(st) && path0.contains(st) {
                assert(path0[0] == st);
                assert(path0.len() == 1) by {
                    if path0.len() > 1 {
                        let i = choose|i: int| 0 <= i < path0.len() && path0[i] == st;
                        if st == s {
                            assert(path0[0] == path0[path0.len() - 1]);
                        } else {
                            assert(path0[i] != s);
                            assert(i < path0.len() - 1);
                            assert(path[i] == st);
                        }
                    }
                }
                assert(path0[0] == s);
                assert forall|v: StateId| #[trigger] reachable(*post.fst, st, v) implies post.seen_states@.contains(v) && post.access@[v as int] by {
                    let p = choose|p: Seq<StateId>| #[trigger] is_path(*post.fst, p) && p[0] == st && p.last() == v;
                    Self::lemma_closed_reach(*post.fst, post.seen_states@, p, p.len() - 1);
                }
            }
        }
    }

    /// The facts of `lemma_access_finish` hold after `finish_state`.
    #[verifier::spinoff_prover]
    proof fn lemma_access_settle(&self, st0: Self, s: StateId)
        requires
            st0.ready(),
            self.basic_ready() && self.tarjan_ok() && self.scc_ok(),
            st0.dfs_path@.len() > 0,
            st0.dfs_path@.last() == s,
            self.fst == st0.fst,
            self.start == st0.start,
            self.seen_states@ == st0.seen_states@,
            self.access@ == st0.access@,
            self.dfs_path@ == st0.dfs_path@.drop_last(),
        ensures
            self.access_ok(),
    {
        let path0 = st0.dfs_path@;
        st0.lemma_unfold();
        self.lemma_unfold();
        assert(path0.no_duplicates()) by {
            assert forall|i: int, j: int| 0 <= i < path0.len() && 0 <= j < path0.len() && i != j implies path0[i] != path0[j] by {
                if i < j {
                    assert(st0.dfnumber@[path0[i] as int] < st0.dfnumber@[path0[j] as int]);
                } else {
                    assert(st0.dfnumber@[path0[j] as int] < st0.dfnumber@[path0[i] as int]);
                }
            }
        }
        if self.dfs_path@.len() == 0 {
            assert(self.scc_stack@.len() == 0);
            assert forall|u: StateId, e: int| st0.seen_states@.contains(u)
                && 0 <= e < st0.fst.states@[u as int].trs@.len() implies st0.seen_states@.contains(#[trigger] st0.fst.states@[u as int].trs@[e].nextstate) by {
                assert(self.seen_states@.contains(u));
                assert(u < self.fst.states@.len());
                if self.onstack@[u as int] {
                    assert(self.scc_stack@.contains(u));
                }
                reveal(scc_inv);
                assert(crate::tarjan::popped_ok(*self.fst, self.seen_states@, self.onstack@, self.scc@, self.nscc, u));
            }
        }
        Self::lemma_access_finish(st0, *self, s);
    }

    /// The invariant of the components found so far holds of the visitor's
    /// state.
    pub open spec fn scc_ok(&self) -> bool {
        scc_inv(
            *self.fst,
            self.seen_states@,
            self.scc_stack@,
            self.dfs_path@,
            self.dfnumber@,
            self.lowlink@,
            self.onstack@,
            self.scc@,
            self.nscc,
            self.done_map@,
        )
    }

    /// The invariant of Tarjan's search holds of the visitor's state.
    pub open spec fn tarjan_ok(&self) -> bool {
        tarjan_inv(
            *self.fst,
            self.seen_states@,
            self.nstates,
            self.scc_stack@,
            self.dfs_path@,
            self.dfnumber@,
            self.lowlink@,
            self.low_witness@,
            self.onstack@,
            self.coaccess@,
        )
    }
}

impl<'a, W: Semiring> Visitor<'a, W> for SccVisitor<'a, W> {
    open spec fn fst_spec(&self) -> VectorFst<W> {
        *self.fst
    }

    open spec fn ready(&self) -> bool {
        &&& self.basic_ready()
        &&& self.tarjan_ok()
        &&& self.scc_ok()
        &&& self.co_ok()
        &&& self.access_ok()
    }

    open spec fn inits(&self) -> nat {
        self.nstates as nat
    }

    open spec fn path(&self) -> Seq<StateId> {
        self.dfs_path@
    }

    open spec fn seen(&self) -> Set<StateId> {
        self.seen_states@
    }

    open spec fn done(&self, s: StateId) -> nat {
        dn(self.done_map@, s)
    }

    open spec fn stopped(&self) -> bool {
        false
    }

    fn init_visit(&mut self, fst: &'a VectorFst<W>) {
        let n = fst.num_states();
        self.access = bool_vec(n);
        self.coaccess = bool_vec(n);
        self.start = fst.start();
        self.fst = fst;
        self.nstates = 0;
        self.dfnumber = zero_vec(n);
        self.lowlink = zero_vec(n);
        self.onstack = bool_vec(n);
        self.scc_stack = Vec::new();
        self.scc = zero_vec(n);
        self.nscc = 0;
        self.dfs_path = Ghost(Seq::empty());
        self.seen_states = Ghost(Set::empty());
        self.done_map = Ghost(Map::empty());
        self.low_witness = Ghost(Seq::new(n as nat, |i: int| 0usize));
        proof {
            lemma_tarjan_start(*self.fst, self.dfnumber@, self.lowlink@, self.low_witness@, self.onstack@, self.coaccess@);
            lemma_scc_start(*self.fst, self.dfnumber@, self.lowlink@, self.onstack@, self.scc@);
            assert(self.scc_stack@ =~= Seq::<StateId>::empty());
        }
    }

    fn init_state(&mut self, s: StateId, root: StateId) -> (b: bool) {
        let ghost pre0 = *self;
        proof {
            assert(dn(self.done_map@, s) == 0) by {
                reveal(scc_inv);
            }
            self.lemma_unfold();
            lemma_scc_discover(
                *self.fst,
                self.seen_states@,
                self.scc_stack@,
                self.dfs_path@,
                self.dfnumber@,
                self.lowlink@,
                self.onstack@,
                self.scc@,
                self.nscc,
                self.done_map@,
                s,
                self.nstates,
            );
            lemma_tarjan_discover(
                *self.fst,
                self.seen_states@,
                self.nstates,
                self.scc_stack@,
                self.dfs_path@,
                self.dfnumber@,
                self.lowlink@,
                self.low_witness@,
                self.onstack@,
                self.coaccess@,
                s,
            );
        }
        self.dfs_path = Ghost(self.dfs_path@.push(s));
        self.seen_states = Ghost(self.seen_states@.insert(s));
        self.low_witness = Ghost(self.low_witness@.update(s as int, s));
        self.scc_stack.push(s);
        self.dfnumber.set(s, self.nstates);
        self.lowlink.set(s, self.nstates);
        self.onstack.set(s, true);
        let acc = self.start == Some(root);
        self.access.set(s, acc);
        self.nstates = self.nstates + 1;
        proof {
            Self::lemma_co_discover(pre0, *self, s);
            assert forall|i: int| 0 <= i < pre0.dfs_path@.len() implies #[trigger] pre0.seen_states@.contains(pre0.dfs_path@[i]) by {
                assert(pre0.scc_stack@.contains(pre0.dfs_path@[i]));
            }
            Self::lemma_access_discover(pre0, *self, s, root);
            let n = self.fst.states@.len();
            assert forall|q: int| 0 <= q < n && #[trigger] self.access@[q] implies (self.start matches Some(st) && reachable(*self.fst, st, q as StateId)) by {
                if q != s {
                    assert(self.access@[q] == old(self).access@[q]);
                }
            }
        }
        true
    }

    fn tree_tr(&mut self, s: StateId, tr: &Tr<W>) -> (b: bool) {
        true
    }

    fn back_tr(&mut self, s: StateId, tr: &Tr<W>) -> (b: bool) {
        let t = tr.nextstate;
        let ghost pre0 = *self;
        proof {
            self.lemma_unfold();
            let path = self.dfs_path@;
            assert(path[path.len() - 1] == s);
            assert(self.scc_stack@.contains(path[path.len() - 1]));
            assert(self.onstack@[s as int]);
            assert(self.seen_states@.contains(s));
            if self.onstack@[t as int] {
                lemma_stack_reaches_top(*self.fst, self.seen_states@, self.nstates, self.scc_stack@, self.dfs_path@,
                    self.dfnumber@, self.lowlink@, self.low_witness@, self.onstack@, self.coaccess@, t);
            }
        }
        let upd = self.dfnumber[t] < self.lowlink[s];
        proof {
            self.lemma_unfold();
            let path = self.dfs_path@;
            let i = choose|i: int| 0 <= i < path.len() && path[i] == t;
            assert(self.scc_stack@.contains(path[i]));
            let ks = choose|k: int| 0 <= k < self.scc_stack@.len() && self.scc_stack@[k] == t;
            assert(self.seen_states@.contains(self.scc_stack@[ks]));
            assert(path[path.len() - 1] == s);
            assert(self.scc_stack@.contains(path[path.len() - 1]));
            let kss = choose|k: int| 0 <= k < self.scc_stack@.len() && self.scc_stack@[k] == s;
            assert(self.seen_states@.contains(self.scc_stack@[kss]));
            lemma_scc_edge(
                *self.fst,
                self.seen_states@,
                self.scc_stack@,
                self.dfs_path@,
                self.dfnumber@,
                self.lowlink@,
                self.onstack@,
                self.scc@,
                self.nscc,
                self.done_map@,
                s,
                t,
                upd,
            );
            lemma_tarjan_edge(
                *self.fst,
                self.seen_states@,
                self.nstates,
                self.scc_stack@,
                self.dfs_path@,
                self.dfnumber@,
                self.lowlink@,
                self.low_witness@,
                self.onstack@,
                self.coaccess@,
                s,
                t,
                upd,
            );
        }
        self.done_map = Ghost(self.done_map@.insert(s, self.done(s) + 1));
        if upd {
            let v = self.dfnumber[t];
            self.lowlink.set(s, v);
            self.low_witness = Ghost(self.low_witness@.update(s as int, t));
        }
        if self.coaccess[t] {
            self.coaccess.set(s, true);
        }
        proof {
            assert(self.coaccess@ =~= pre0.coaccess@.update(s as int, pre0.coaccess@[s as int] || pre0.coaccess@[t as int]));
            assert forall|v: StateId| v != s implies #[trigger] dn(self.done_map@, v) == dn(pre0.done_map@, v) by {}
            Self::lemma_co_edge(pre0, *self, s, t);
        }
        true
    }

    fn forward_or_cross_tr(&mut self, s: StateId, tr: &Tr<W>) -> (b: bool) {
        let t = tr.nextstate;
        let ghost pre0 = *self;
        proof {
            self.lemma_unfold();
            let path = self.dfs_path@;
            assert(path[path.len() - 1] == s);
            assert(self.scc_stack@.contains(path[path.len() - 1]));
            assert(self.onstack@[s as int]);
            assert(self.seen_states@.contains(s));
            if self.onstack@[t as int] {
                lemma_stack_reaches_top(*self.fst, self.seen_states@, self.nstates, self.scc_stack@, self.dfs_path@,
                    self.dfnumber@, self.lowlink@, self.low_witness@, self.onstack@, self.coaccess@, t);
            }
        }
        let upd = self.dfnumber[t] < self.dfnumber[s] && self.onstack[t] && self.dfnumber[t] < self.lowlink[s];
        proof {
            self.lemma_unfold();
            let path = self.dfs_path@;
            assert(path[path.len() - 1] == s);
            assert(self.scc_stack@.contains(path[path.len() - 1]));
            let kss = choose|k: int| 0 <= k < self.scc_stack@.len() && self.scc_stack@[k] == s;
            assert(self.seen_states@.contains(self.scc_stack@[kss]));
            lemma_scc_edge(
                *self.fst,
                self.seen_states@,
                self.scc_stack@,
                self.dfs_path@,
                self.dfnumber@,
                self.lowlink@,
                self.onstack@,
                self.scc@,
                self.nscc,
                self.done_map@,
                s,
                t,
                upd,
            );
            lemma_tarjan_edge(
                *self.fst,
                self.seen_states@,
                self.nstates,
                self.scc_stack@,
                self.dfs_path@,
                self.dfnumber@,
                self.lowlink@,
                self.low_witness@,
                self.onstack@,
                self.coaccess@,
                s,
                t,
                upd,
            );
        }
        self.done_map = Ghost(self.done_map@.insert(s, self.done(s) + 1));
        if upd {
            let v = self.dfnumber[t];
            self.lowlink.set(s, v);
            self.low_witness = Ghost(self.low_witness@.update(s as int, t));
        }
        if self.coaccess[t] {
            self.coaccess.set(s, true);
        }
        proof {
            assert(self.coaccess@ =~= pre0.coaccess@.update(s as int, pre0.coaccess@[s as int] || pre0.coaccess@[t as int]));
            assert forall|v: StateId| v != s implies #[trigger] dn(self.done_map@, v) == dn(pre0.done_map@, v) by {}
            Self::lemma_co_edge(pre0, *self, s, t);
        }
        true
    }

    fn finish_state(&mut self, s: StateId, parent: Option<StateId>) {
        let ghost st0 = *self;
        match parent {
            Some(p) => {
                self.done_map = Ghost(self.done_map@.insert(p, self.done(p) + 1));
            },
            None => {},
        }
        let ghost path0 = self.dfs_path@;
        proof {
            self.lemma_unfold();
            assert(path0[path0.len() - 1] == s);
        }
        if self.fst.states[s].final_weight.is_some() {
            proof {
                lemma_tarjan_final(
                    *self.fst,
                    self.seen_states@,
                    self.nstates,
                    self.scc_stack@,
                    self.dfs_path@,
                    self.dfnumber@,
                    self.lowlink@,
                    self.low_witness@,
                    self.onstack@,
                    self.coaccess@,
                    s,
                );
            }
            self.coaccess.set(s, true);
        }
        let ghost pre = *self;
        proof {
            pre.lemma_unfold();
        }
        let root = self.dfnumber[s] == self.lowlink[s];
        let ghost ks: int = 0;
        let ghost mut sc: bool = false;
        if root {
            proof {
                assert(self.scc_stack@.contains(s));
                ks = choose|k: int| 0 <= k < self.scc_stack@.len() && self.scc_stack@[k] == s;
                lemma_tarjan_members(
                    *self.fst,
                    self.seen_states@,
                    self.nstates,
                    self.scc_stack@,
                    self.dfs_path@,
                    self.dfnumber@,
                    self.lowlink@,
                    self.low_witness@,
                    self.onstack@,
                    self.coaccess@,
                    s,
                    ks,
                );
            }
            let scc_coaccess = self.component_coaccess(s, Ghost(ks));
            proof {
                sc = scc_coaccess;
            }
            self.pop_component(s, Ghost(ks), scc_coaccess);
        }
        let ghost mid = *self;
        match parent {
            Some(p) => {
                proof {
                    assert(edge(*self.fst, path0[path0.len() - 2], path0[path0.len() - 1]));
                }
                if self.coaccess[s] {
                    proof {
                        lemma_coaccess_parent(*self.fst, self.coaccess@, p, s);
                    }
                    self.coaccess.set(p, true);
                }
                if self.lowlink[s] < self.lowlink[p] {
                    let v = self.lowlink[s];
                    self.lowlink.set(p, v);
                    self.low_witness = Ghost(self.low_witness@.update(p as int, self.low_witness@[s as int]));
                }
            },
            None => {},
        }
        self.dfs_path = Ghost(path0.drop_last());
        proof {
            if root {
                lemma_tarjan_pop(
                    *pre.fst,
                    pre.seen_states@,
                    pre.nstates,
                    pre.scc_stack@,
                    pre.dfs_path@,
                    pre.dfnumber@,
                    pre.lowlink@,
                    pre.low_witness@,
                    pre.onstack@,
                    pre.coaccess@,
                    s,
                    ks,
                    self.onstack@,
                    self.coaccess@,
                );
            } else {
                lemma_tarjan_keep(
                    *pre.fst,
                    pre.seen_states@,
                    pre.nstates,
                    pre.scc_stack@,
                    pre.dfs_path@,
                    pre.dfnumber@,
                    pre.lowlink@,
                    pre.low_witness@,
                    pre.onstack@,
                    pre.coaccess@,
                    s,
                    self.coaccess@,
                );
            }
            Self::lemma_finish_components(st0, pre, mid, *self, s, parent, root, ks);
            self.lemma_co_settle(st0, pre, mid, s, parent, root, ks, sc);
            self.lemma_access_settle(st0, s);
        }
    }

    fn finish_visit(&mut self) {
    }
}

/// The element of a stack at a position.
pub open spec fn pstk_at(stk: Seq<StateId>, k: int) -> StateId {
    stk[k]
}

/// This operation trims an FST, removing states and transitions that are not
/// on successful paths.
pub fn connect<W: Semiring>(fst: &mut VectorFst<W>) -> (r: Result<(), FstError>)
    requires
        old(fst).wf(),
    ensures
        r is Ok,
        final(fst).wf(),
        exists|keep: Seq<bool>| #![trigger old(fst).keep_states_spec(keep, final(fst))]
            keep.len() == old(fst).states@.len() && old(fst).keep_states_spec(keep, final(fst))
            && forall|s: int| 0 <= s < keep.len() ==> (#[trigger] keep[s] <==> (old(fst).start_state matches Some(st)
                && reachable(*old(fst), st, s as StateId)) && coreachable(*old(fst), s as StateId)),
{
    let n = fst.num_states();
    let mut keep: Vec<bool> = Vec::new();
    {
        let mut visitor = SccVisitor::new(fst);
        dfs_visit(fst, &mut visitor, false);
        let mut s: usize = 0;
        while s < n
            invariant
                n == fst.states@.len(),
                visitor.ready(),
                *visitor.fst == *fst,
                s <= n,
                keep@.len() == s,
                forall|q: int| 0 <= q < s ==> #[trigger] keep@[q] == (visitor.access@[q] && visitor.coaccess@[q]),
            decreases n - s,
        {
            keep.push(visitor.access[s] && visitor.coaccess[s]);
            s += 1;
        }
        proof {
            visitor.lemma_unfold();
            if fst.start_state is Some {
                assert forall|v: int| 0 <= v < n implies #[trigger] visitor.seen_states@.contains(v as StateId) by {
                    assert(visitor.seen().contains(v as StateId));
                }
                visitor.lemma_coaccess_complete();
                let st = fst.start_state->0;
                assert(visitor.seen_states@.contains(st));
                assert(!visitor.dfs_path@.contains(st));
            }
            assert forall|q: int| 0 <= q < keep@.len() implies (#[trigger] keep@[q] <==> (fst.start_state matches Some(st)
                && reachable(*fst, st, q as StateId)) && coreachable(*fst, q as StateId)) by {
                if keep@[q] {
                    assert(visitor.access@[q]);
                    assert(visitor.coaccess@[q]);
                    assert(coaccess_ok(*visitor.fst, visitor.coaccess@));
                }
                if (fst.start_state matches Some(st) && reachable(*fst, st, q as StateId)) && coreachable(*fst, q as StateId) {
                    let st = fst.start_state->0;
                    assert(reachable(*fst, st, q as StateId));
                    assert(visitor.access@[q]);
                    assert(visitor.coaccess@[q]);
                }
            }
        }
    }
    let ghost before = *fst;
    fst.keep_states(&keep);
    proof {
        assert(before.keep_states_spec(keep@, fst));
    }
    Ok(())
}

} // verus!
