use vstd::prelude::*;

use crate::connect::{coreachable, edge, is_path, lemma_coreachable_back, lemma_edge_reachable, lemma_reachable_refl, lemma_reachable_trans, reachable};
use crate::fst::VectorFst;
use crate::semirings::Semiring;
use crate::StateId;

verus! {

/// Each discovered state has its own discovery number, below `nstates`.
pub open spec fn seen_numbered(seen: Set<StateId>, nstates: usize, dfn: Seq<usize>, n: nat) -> bool {
    &&& forall|v: StateId| #![trigger seen.contains(v)] seen.contains(v) ==> v < n && dfn[v as int] < nstates
    &&& forall|u: StateId, v: StateId| #![trigger seen.contains(u), seen.contains(v)]
        seen.contains(u) && seen.contains(v) && u != v ==> dfn[u as int] != dfn[v as int]
}

/// The component stack holds discovered states in discovery order, and
/// `onstack` marks them.
pub open spec fn stack_ordered(stk: Seq<StateId>, seen: Set<StateId>, dfn: Seq<usize>, onstack: Seq<bool>, n: nat) -> bool {
    &&& forall|k: int| 0 <= k < stk.len() ==> #[trigger] stk[k] < n && seen.contains(stk[k])
    &&& forall|v: int| 0 <= v < n ==> (#[trigger] onstack[v] <==> stk.contains(v as StateId))
    &&& forall|i: int, j: int| 0 <= i < j < stk.len() ==> dfn[#[trigger] stk[i] as int] < dfn[#[trigger] stk[j] as int]
}

/// The search path lies on the component stack, in discovery order, and
/// follows transitions; it starts at the bottom of the stack.
pub open spec fn path_ok<W>(fst: VectorFst<W>, stk: Seq<StateId>, path: Seq<StateId>, dfn: Seq<usize>) -> bool {
    &&& forall|i: int| 0 <= i < path.len() ==> stk.contains(#[trigger] path[i])
    &&& forall|i: int, j: int| 0 <= i < j < path.len() ==> dfn[#[trigger] path[i] as int] < dfn[#[trigger] path[j] as int]
    &&& forall|i: int| 0 <= i < path.len() - 1 ==> edge(fst, #[trigger] path[i], path[i + 1])
    &&& path.len() == 0 ==> stk.len() == 0
    &&& path.len() > 0 ==> stk.len() > 0 && stk[0] == path[0]
}

/// The low link of `x` is the discovery number of a state on the stack that
/// `x` reaches, at most its own, and below it once `x` is finished.
pub open spec fn low_ok<W>(
    fst: VectorFst<W>,
    stk: Seq<StateId>,
    path: Seq<StateId>,
    dfn: Seq<usize>,
    low: Seq<usize>,
    lw: Seq<StateId>,
    x: StateId,
) -> bool {
    let w = lw[x as int];
    &&& low[x as int] <= dfn[x as int]
    &&& stk.contains(w)
    &&& dfn[w as int] == low[x as int]
    &&& reachable(fst, x, w)
    &&& !path.contains(x) ==> low[x as int] < dfn[x as int]
}

/// A finished state on the stack has a low link no smaller than that of the
/// last state of the path discovered before it.
pub open spec fn nearest_ok(stk: Seq<StateId>, path: Seq<StateId>, dfn: Seq<usize>, low: Seq<usize>) -> bool {
    forall|k: int, j: int|
        0 <= k < stk.len() && 0 <= j < path.len() && !path.contains(stk[k]) && dfn[path[j] as int] <= dfn[stk[k] as int]
            && (j == path.len() - 1 || dfn[stk[k] as int] < dfn[path[j + 1] as int])
            ==> low[#[trigger] path[j] as int] <= low[#[trigger] stk[k] as int]
}

/// Every state marked co-accessible reaches a final state.
pub open spec fn coaccess_ok<W>(fst: VectorFst<W>, coaccess: Seq<bool>) -> bool {
    forall|v: int| 0 <= v < coaccess.len() && #[trigger] coaccess[v] ==> coreachable(fst, v as StateId)
}

/// The invariant of Tarjan's search for strongly connected components.
#[verifier::opaque]
pub open spec fn tarjan_inv<W>(
    fst: VectorFst<W>,
    seen: Set<StateId>,
    nstates: usize,
    stk: Seq<StateId>,
    path: Seq<StateId>,
    dfn: Seq<usize>,
    low: Seq<usize>,
    lw: Seq<StateId>,
    onstack: Seq<bool>,
    coaccess: Seq<bool>,
) -> bool {
    let n = fst.states@.len();
    &&& n <= usize::MAX
    &&& dfn.len() == n && low.len() == n && lw.len() == n && onstack.len() == n && coaccess.len() == n
    &&& seen_numbered(seen, nstates, dfn, n)
    &&& stack_ordered(stk, seen, dfn, onstack, n)
    &&& path_ok(fst, stk, path, dfn)
    &&& forall|i: int, k: int| 0 <= i < path.len() && 0 <= k < stk.len() && dfn[path[i] as int] <= dfn[stk[k] as int]
        ==> reachable(fst, #[trigger] path[i], #[trigger] stk[k])
    &&& forall|k: int| 0 <= k < stk.len() ==> #[trigger] low_ok(fst, stk, path, dfn, low, lw, stk[k])
    &&& nearest_ok(stk, path, dfn, low)
    &&& coaccess_ok(fst, coaccess)
}

/// The number of transitions of `v` examined, zero when none was.
pub open spec fn dn(done: Map<StateId, nat>, v: StateId) -> nat {
    if done.dom().contains(v) {
        done[v]
    } else {
        0
    }
}

/// Transition `e` of the stacked state `v` was examined: it leads to a
/// discovered state, and to a stacked one discovered earlier only when the low
/// link of `v` is at most that state's number.
pub open spec fn explored_ok<W>(
    fst: VectorFst<W>,
    seen: Set<StateId>,
    dfn: Seq<usize>,
    low: Seq<usize>,
    onstack: Seq<bool>,
    v: StateId,
    e: int,
) -> bool {
    let w = fst.states@[v as int].trs@[e].nextstate;
    &&& seen.contains(w)
    &&& onstack[w as int] && dfn[w as int] < dfn[v as int] ==> low[v as int] <= dfn[w as int]
}

/// A state whose component was popped: its component is numbered below
/// `nscc`, and each of its transitions leads to a popped state of a component
/// numbered no higher.
pub open spec fn popped_ok<W>(fst: VectorFst<W>, seen: Set<StateId>, onstack: Seq<bool>, scc: Seq<usize>, nscc: usize, u: StateId) -> bool {
    &&& scc[u as int] < nscc
    &&& forall|e: int| 0 <= e < fst.states@[u as int].trs@.len() ==> {
        let w = #[trigger] fst.states@[u as int].trs@[e].nextstate;
        &&& seen.contains(w)
        &&& !onstack[w as int]
        &&& scc[w as int] <= scc[u as int]
    }
}

/// Some of the first `n` states has component `c`.
pub open spec fn comp_present(scc: Seq<usize>, n: nat, c: usize) -> bool {
    exists|u: int| 0 <= u < n && #[trigger] scc[u] == c
}

/// Some popped state has component `c`.
pub open spec fn comp_used<W>(fst: VectorFst<W>, seen: Set<StateId>, onstack: Seq<bool>, scc: Seq<usize>, c: usize) -> bool {
    exists|u: StateId| u < fst.states@.len() && seen.contains(u) && !onstack[u as int] && #[trigger] scc[u as int] == c
}

/// The invariant of the components found so far.
#[verifier::opaque]
pub open spec fn scc_inv<W>(
    fst: VectorFst<W>,
    seen: Set<StateId>,
    stk: Seq<StateId>,
    path: Seq<StateId>,
    dfn: Seq<usize>,
    low: Seq<usize>,
    onstack: Seq<bool>,
    scc: Seq<usize>,
    nscc: usize,
    done: Map<StateId, nat>,
) -> bool {
    let n = fst.states@.len();
    &&& scc.len() == n
    &&& forall|v: StateId| #![trigger dn(done, v)] !seen.contains(v) ==> dn(done, v) == 0
    &&& forall|k: int| 0 <= k < stk.len() ==> dn(done, #[trigger] stk[k]) <= fst.states@[stk[k] as int].trs@.len()
    &&& forall|k: int| 0 <= k < stk.len() && !path.contains(stk[k]) ==> dn(done, #[trigger] stk[k]) == fst.states@[stk[k] as int].trs@.len()
    &&& forall|k: int, e: int| 0 <= k < stk.len() && 0 <= e < dn(done, stk[k]) ==> #[trigger] explored_ok(fst, seen, dfn, low, onstack, stk[k], e)
    &&& forall|u: StateId| u < n && seen.contains(u) && !onstack[u as int] ==> #[trigger] popped_ok(fst, seen, onstack, scc, nscc, u)
    &&& forall|u: StateId, v: StateId| #![trigger scc[u as int], scc[v as int]]
        u < n && v < n && seen.contains(u) && !onstack[u as int] && seen.contains(v) && !onstack[v as int] && scc[u as int] == scc[v as int]
            ==> reachable(fst, u, v)
    &&& forall|c: usize| c < nscc ==> #[trigger] comp_used(fst, seen, onstack, scc, c)
}

/// Before the search: no component.
#[verifier::spinoff_prover]
#[verifier::rlimit(30)]
pub proof fn lemma_scc_start<W>(fst: VectorFst<W>, dfn: Seq<usize>, low: Seq<usize>, onstack: Seq<bool>, scc: Seq<usize>)
    requires
        scc.len() == fst.states@.len(),
    ensures
        scc_inv(fst, Set::empty(), Seq::empty(), Seq::empty(), dfn, low, onstack, scc, 0, Map::empty()),
{
    reveal(scc_inv);
}

/// Before the search: nothing discovered.
#[verifier::spinoff_prover]
#[verifier::rlimit(30)]
pub proof fn lemma_tarjan_start<W>(fst: VectorFst<W>, dfn: Seq<usize>, low: Seq<usize>, lw: Seq<StateId>, onstack: Seq<bool>, coaccess: Seq<bool>)
    requires
        fst.states@.len() <= usize::MAX,
        dfn.len() == fst.states@.len(),
        low.len() == fst.states@.len(),
        lw.len() == fst.states@.len(),
        onstack.len() == fst.states@.len(),
        coaccess.len() == fst.states@.len(),
        forall|v: int| 0 <= v < onstack.len() ==> !#[trigger] onstack[v],
        forall|v: int| 0 <= v < coaccess.len() ==> !#[trigger] coaccess[v],
    ensures
        tarjan_inv(fst, Set::empty(), 0, Seq::empty(), Seq::empty(), dfn, low, lw, onstack, coaccess),
{
    reveal(tarjan_inv);
}

/// Discovering `s` keeps the numbering unique.
#[verifier::spinoff_prover]
#[verifier::rlimit(30)]
proof fn lemma_discover_numbered(seen: Set<StateId>, nstates: usize, dfn: Seq<usize>, n: nat, s: StateId)
    requires
        seen_numbered(seen, nstates, dfn, n),
        s < n,
        !seen.contains(s),
        dfn.len() == n,
        nstates < usize::MAX,
    ensures
        seen_numbered(seen.insert(s), (nstates + 1) as usize, dfn.update(s as int, nstates), n),
{
    let seen2 = seen.insert(s);
    let dfn2 = dfn.update(s as int, nstates);
    assert forall|u: StateId, v: StateId| #![trigger seen2.contains(u), seen2.contains(v)]
        seen2.contains(u) && seen2.contains(v) && u != v implies dfn2[u as int] != dfn2[v as int] by {
        if u != s && v != s {
            assert(seen.contains(u) && seen.contains(v));
        } else if u == s {
            assert(seen.contains(v));
        } else {
            assert(seen.contains(u));
        }
    }
}

/// Discovering `s` pushes it on the stack, last in discovery order.
#[verifier::spinoff_prover]
#[verifier::rlimit(30)]
proof fn lemma_discover_stack(stk: Seq<StateId>, seen: Set<StateId>, nstates: usize, dfn: Seq<usize>, onstack: Seq<bool>, n: nat, s: StateId)
    requires
        stack_ordered(stk, seen, dfn, onstack, n),
        seen_numbered(seen, nstates, dfn, n),
        s < n,
        n <= usize::MAX,
        !seen.contains(s),
        dfn.len() == n,
        onstack.len() == n,
    ensures
        stack_ordered(stk.push(s), seen.insert(s), dfn.update(s as int, nstates), onstack.update(s as int, true), n),
{
    let seen2 = seen.insert(s);
    let stk2 = stk.push(s);
    let dfn2 = dfn.update(s as int, nstates);
    let onstack2 = onstack.update(s as int, true);
    assert forall|k: int| 0 <= k < stk2.len() implies #[trigger] stk2[k] < n && seen2.contains(stk2[k]) by {
        if k < stk.len() {
            assert(stk2[k] == stk[k]);
        }
    }
    assert forall|v: int| 0 <= v < n implies (#[trigger] onstack2[v] <==> stk2.contains(v as StateId)) by {
        if v != s {
            if stk2.contains(v as StateId) {
                let k = choose|k: int| 0 <= k < stk2.len() && stk2[k] == v as StateId;
                if k == stk.len() {
                    assert(stk2[k] == s);
                }
                assert(stk[k] == v as StateId);
            }
            if stk.contains(v as StateId) {
                let k = choose|k: int| 0 <= k < stk.len() && stk[k] == v as StateId;
                assert(stk2[k] == v as StateId);
            }
        } else {
            assert(stk2[stk.len() as int] == s);
        }
    }
    assert forall|i: int, j: int| 0 <= i < j < stk2.len() implies dfn2[#[trigger] stk2[i] as int] < dfn2[#[trigger] stk2[j] as int] by {
        assert(stk2[i] == stk[i]);
        assert(seen.contains(stk[i]));
        if j < stk.len() {
            assert(stk2[j] == stk[j]);
            assert(seen.contains(stk[j]));
        }
    }
}

/// Discovering `s` through a transition from the end of the path extends the path.
#[verifier::spinoff_prover]
#[verifier::rlimit(30)]
proof fn lemma_discover_path<W>(fst: VectorFst<W>, stk: Seq<StateId>, path: Seq<StateId>, seen: Set<StateId>, nstates: usize, dfn: Seq<usize>, s: StateId)
    requires
        path_ok(fst, stk, path, dfn),
        forall|k: int| 0 <= k < stk.len() ==> #[trigger] seen.contains(stk[k]),
        seen_numbered(seen, nstates, dfn, fst.states@.len()),
        !seen.contains(s),
        s < dfn.len(),
        dfn.len() == fst.states@.len(),
        path.len() == 0 || edge(fst, path.last(), s),
    ensures
        path_ok(fst, stk.push(s), path.push(s), dfn.update(s as int, nstates)),
{
    let stk2 = stk.push(s);
    let path2 = path.push(s);
    let dfn2 = dfn.update(s as int, nstates);
    assert forall|i: int| 0 <= i < path2.len() implies stk2.contains(#[trigger] path2[i]) by {
        if i < path.len() {
            assert(path2[i] == path[i]);
            let k = choose|k: int| 0 <= k < stk.len() && stk[k] == path[i];
            assert(stk2[k] == path[i]);
        } else {
            assert(stk2[stk.len() as int] == s);
        }
    }
    assert forall|i: int, j: int| 0 <= i < j < path2.len() implies dfn2[#[trigger] path2[i] as int] < dfn2[#[trigger] path2[j] as int] by {
        assert(path2[i] == path[i]);
        assert(stk.contains(path[i]));
        let ki = choose|k: int| 0 <= k < stk.len() && stk[k] == path[i];
        assert(seen.contains(stk[ki]));
        assert(path[i] != s);
        assert(dfn2[path[i] as int] == dfn[path[i] as int]);
        assert(dfn[path[i] as int] < nstates);
        if j < path.len() {
            assert(path2[j] == path[j]);
            assert(stk.contains(path[j]));
            let kj = choose|k: int| 0 <= k < stk.len() && stk[k] == path[j];
            assert(seen.contains(stk[kj]));
            assert(path[j] != s);
            assert(dfn2[path[j] as int] == dfn[path[j] as int]);
            assert(dfn[path[i] as int] < dfn[path[j] as int]);
        } else {
            assert(path2[j] == s);
            assert(dfn2[s as int] == nstates);
        }
    }
    assert forall|i: int| 0 <= i < path2.len() - 1 implies edge(fst, #[trigger] path2[i], path2[i + 1]) by {
        assert(path2[i] == path[i]);
        if i + 1 < path.len() {
            assert(path2[i + 1] == path[i + 1]);
        }
    }
    if path.len() == 0 {
        assert(stk2[0] == s && path2[0] == s);
    } else {
        assert(stk2[0] == stk[0] && path2[0] == path[0]);
    }
}

/// States of the path reach the states above them on the stack, `s` included.
#[verifier::spinoff_prover]
#[verifier::rlimit(30)]
proof fn lemma_discover_reach<W>(fst: VectorFst<W>, stk: Seq<StateId>, path: Seq<StateId>, seen: Set<StateId>, nstates: usize, dfn: Seq<usize>, s: StateId)
    requires
        path_ok(fst, stk, path, dfn),
        forall|k: int| 0 <= k < stk.len() ==> #[trigger] seen.contains(stk[k]),
        seen_numbered(seen, nstates, dfn, fst.states@.len()),
        !seen.contains(s),
        s < dfn.len(),
        dfn.len() == fst.states@.len(),
        path.len() == 0 || edge(fst, path.last(), s),
        forall|i: int, k: int| 0 <= i < path.len() && 0 <= k < stk.len() && dfn[path[i] as int] <= dfn[stk[k] as int]
            ==> reachable(fst, #[trigger] path[i], #[trigger] stk[k]),
    ensures
        forall|i: int, k: int| 0 <= i < path.push(s).len() && 0 <= k < stk.push(s).len()
            && dfn.update(s as int, nstates)[path.push(s)[i] as int] <= dfn.update(s as int, nstates)[stk.push(s)[k] as int]
            ==> reachable(fst, #[trigger] path.push(s)[i], #[trigger] stk.push(s)[k]),
{
    let stk2 = stk.push(s);
    let path2 = path.push(s);
    let dfn2 = dfn.update(s as int, nstates);
    assert forall|i: int, k: int| 0 <= i < path2.len() && 0 <= k < stk2.len() && dfn2[path2[i] as int] <= dfn2[stk2[k] as int]
        implies reachable(fst, #[trigger] path2[i], #[trigger] stk2[k]) by {
        if k == stk.len() {
            assert(stk2[k] == s);
            if i == path.len() {
                assert(path2[i] == s);
                lemma_reachable_refl(fst, s);
            } else {
                assert(path2[i] == path[i]);
                let last = path.last();
                assert(path[path.len() - 1] == last);
                assert(stk.contains(last));
                let kl = choose|kk: int| 0 <= kk < stk.len() && stk[kk] == last;
                assert(stk.contains(path[i]));
                let ki = choose|kk: int| 0 <= kk < stk.len() && stk[kk] == path[i];
                assert(seen.contains(stk[ki]) && seen.contains(stk[kl]));
                if i < path.len() - 1 {
                    assert(dfn[path[i] as int] < dfn[path[path.len() - 1] as int]);
                }
                assert(dfn[path[i] as int] <= dfn[stk[kl] as int]);
                assert(reachable(fst, path[i], stk[kl]));
                lemma_edge_reachable(fst, last, s);
                lemma_reachable_trans(fst, path[i], last, s);
            }
        } else {
            assert(stk2[k] == stk[k]);
            assert(seen.contains(stk[k]));
            assert(stk[k] != s);
            assert(dfn2[stk[k] as int] == dfn[stk[k] as int]);
            if i == path.len() {
                assert(path2[i] == s);
                assert(dfn2[s as int] == nstates);
                assert(dfn[stk[k] as int] < nstates);
            } else {
                assert(path2[i] == path[i]);
                assert(stk.contains(path[i]));
                let ki = choose|kk: int| 0 <= kk < stk.len() && stk[kk] == path[i];
                assert(seen.contains(stk[ki]));
                assert(path[i] != s);
                assert(dfn2[path[i] as int] == dfn[path[i] as int]);
                assert(reachable(fst, path[i], stk[k]));
            }
        }
    }
}

/// The low links after discovering `s`.
#[verifier::spinoff_prover]
#[verifier::rlimit(30)]
proof fn lemma_discover_low<W>(
    fst: VectorFst<W>,
    stk: Seq<StateId>,
    path: Seq<StateId>,
    seen: Set<StateId>,
    nstates: usize,
    dfn: Seq<usize>,
    low: Seq<usize>,
    lw: Seq<StateId>,
    s: StateId,
)
    requires
        forall|k: int| 0 <= k < stk.len() ==> #[trigger] seen.contains(stk[k]),
        forall|i: int| 0 <= i < path.len() ==> stk.contains(#[trigger] path[i]),
        seen_numbered(seen, nstates, dfn, fst.states@.len()),
        s < fst.states@.len(),
        !seen.contains(s),
        dfn.len() == fst.states@.len(),
        low.len() == fst.states@.len(),
        lw.len() == fst.states@.len(),
        forall|k: int| 0 <= k < stk.len() ==> #[trigger] low_ok(fst, stk, path, dfn, low, lw, stk[k]),
    ensures
        forall|k: int| 0 <= k < stk.push(s).len() ==> #[trigger] low_ok(
            fst,
            stk.push(s),
            path.push(s),
            dfn.update(s as int, nstates),
            low.update(s as int, nstates),
            lw.update(s as int, s),
            stk.push(s)[k],
        ),
{
    let stk2 = stk.push(s);
    let path2 = path.push(s);
    let dfn2 = dfn.update(s as int, nstates);
    let low2 = low.update(s as int, nstates);
    let lw2 = lw.update(s as int, s);
    assert forall|k: int| 0 <= k < stk2.len() implies #[trigger] low_ok(fst, stk2, path2, dfn2, low2, lw2, stk2[k]) by {
        if k == stk.len() {
            assert(stk2[k] == s);
            lemma_reachable_refl(fst, s);
            assert(path2[path.len() as int] == s);
            assert(path2.contains(s));
            assert(stk2.contains(s));
            assert(lw2[s as int] == s);
            assert(low2[s as int] == nstates && dfn2[s as int] == nstates);
            assert(low_ok(fst, stk2, path2, dfn2, low2, lw2, s));
        } else {
            let x = stk[k];
            assert(stk2[k] == x);
            assert(low_ok(fst, stk, path, dfn, low, lw, x));
            assert(seen.contains(x));
            assert(x != s);
            let w = lw[x as int];
            assert(lw2[x as int] == w);
            assert(stk.contains(w));
            let kw = choose|kk: int| 0 <= kk < stk.len() && stk[kk] == w;
            assert(seen.contains(stk[kw]));
            assert(w != s);
            assert(stk2[kw] == w);
            assert(stk2.contains(w));
            assert(dfn2[w as int] == dfn[w as int]);
            assert(dfn2[x as int] == dfn[x as int]);
            assert(low2[x as int] == low[x as int]);
            if path2.contains(x) {
                let i = choose|i: int| 0 <= i < path2.len() && path2[i] == x;
                if i == path.len() {
                    assert(path2[i] == s);
                }
                assert(path[i] == x);
                assert(path.contains(x));
            }
            assert(low2[x as int] <= dfn2[x as int]);
            assert(dfn2[lw2[x as int] as int] == low2[x as int]);
            assert(reachable(fst, x, lw2[x as int]));
            if path.contains(x) {
                let i = choose|i: int| 0 <= i < path.len() && path[i] == x;
                assert(path2[i] == x);
            }
            assert(!path2.contains(x) ==> low2[x as int] < dfn2[x as int]);
            assert(low_ok(fst, stk2, path2, dfn2, low2, lw2, x));
        }
    }
}

/// The nearest-grey property after discovering `s`.
#[verifier::spinoff_prover]
#[verifier::rlimit(30)]
proof fn lemma_discover_nearest(
    stk: Seq<StateId>,
    path: Seq<StateId>,
    seen: Set<StateId>,
    nstates: usize,
    dfn: Seq<usize>,
    low: Seq<usize>,
    n: nat,
    s: StateId,
)
    requires
        forall|k: int| 0 <= k < stk.len() ==> #[trigger] seen.contains(stk[k]),
        forall|i: int| 0 <= i < path.len() ==> stk.contains(#[trigger] path[i]),
        seen_numbered(seen, nstates, dfn, n),
        !seen.contains(s),
        s < n,
        dfn.len() == n,
        low.len() == n,
        nearest_ok(stk, path, dfn, low),
    ensures
        nearest_ok(stk.push(s), path.push(s), dfn.update(s as int, nstates), low.update(s as int, nstates)),
{
    let stk2 = stk.push(s);
    let path2 = path.push(s);
    let dfn2 = dfn.update(s as int, nstates);
    let low2 = low.update(s as int, nstates);
    assert forall|k: int, j: int|
        0 <= k < stk2.len() && 0 <= j < path2.len() && !path2.contains(stk2[k]) && dfn2[path2[j] as int] <= dfn2[stk2[k] as int]
            && (j == path2.len() - 1 || dfn2[stk2[k] as int] < dfn2[path2[j + 1] as int])
        implies low2[#[trigger] path2[j] as int] <= low2[#[trigger] stk2[k] as int] by {
        if k == stk.len() {
            assert(stk2[k] == s);
            assert(path2[path.len() as int] == s);
        }
        let x = stk[k];
        assert(stk2[k] == x);
        assert(seen.contains(x));
        if j == path.len() {
            assert(path2[j] == s);
            assert(dfn[x as int] < nstates);
        } else {
            assert(path2[j] == path[j]);
            let kj = choose|kk: int| 0 <= kk < stk.len() && stk[kk] == path[j];
            assert(seen.contains(stk[kj]));
            assert(!path.contains(x)) by {
                if path.contains(x) {
                    let i = choose|i: int| 0 <= i < path.len() && path[i] == x;
                    assert(path2[i] == x);
                }
            }
            if j == path.len() - 1 {
                assert(path2[j + 1] == s);
            } else {
                assert(path2[j + 1] == path[j + 1]);
                let kj1 = choose|kk: int| 0 <= kk < stk.len() && stk[kk] == path[j + 1];
                assert(seen.contains(stk[kj1]));
            }
        }
    }
}

/// Discovering `s`: it gets the next number and goes on the stack and the path.
#[verifier::spinoff_prover]
#[verifier::rlimit(30)]
pub proof fn lemma_tarjan_discover<W>(
    fst: VectorFst<W>,
    seen: Set<StateId>,
    nstates: usize,
    stk: Seq<StateId>,
    path: Seq<StateId>,
    dfn: Seq<usize>,
    low: Seq<usize>,
    lw: Seq<StateId>,
    onstack: Seq<bool>,
    coaccess: Seq<bool>,
    s: StateId,
)
    requires
        tarjan_inv(fst, seen, nstates, stk, path, dfn, low, lw, onstack, coaccess),
        s < fst.states@.len(),
        !seen.contains(s),
        nstates < usize::MAX,
        path.len() == 0 || edge(fst, path.last(), s),
    ensures
        tarjan_inv(
            fst,
            seen.insert(s),
            (nstates + 1) as usize,
            stk.push(s),
            path.push(s),
            dfn.update(s as int, nstates),
            low.update(s as int, nstates),
            lw.update(s as int, s),
            onstack.update(s as int, true),
            coaccess,
        ),
{
    reveal(tarjan_inv);
    let n = fst.states@.len();
    assert forall|k: int| 0 <= k < stk.len() implies #[trigger] seen.contains(stk[k]) by {
        assert(stk[k] < n && seen.contains(stk[k]));
    }
    lemma_discover_numbered(seen, nstates, dfn, n, s);
    lemma_discover_stack(stk, seen, nstates, dfn, onstack, n, s);
    lemma_discover_path(fst, stk, path, seen, nstates, dfn, s);
    lemma_discover_reach(fst, stk, path, seen, nstates, dfn, s);
    lemma_discover_low(fst, stk, path, seen, nstates, dfn, low, lw, s);
    lemma_discover_nearest(stk, path, seen, nstates, dfn, low, n, s);
}

/// Lowering the low link of the last state `s` of the path to the number of
/// `t`, a state on the stack that `s` reaches, keeps the low-link facts.
#[verifier::spinoff_prover]
#[verifier::rlimit(30)]
proof fn lemma_lower_low<W>(
    fst: VectorFst<W>,
    stk: Seq<StateId>,
    path: Seq<StateId>,
    dfn: Seq<usize>,
    low: Seq<usize>,
    lw: Seq<StateId>,
    s: StateId,
    t: StateId,
)
    requires
        path.len() > 0,
        path.last() == s,
        stk.contains(s),
        s < low.len(),
        low.len() == lw.len(),
        low.len() == dfn.len(),
        forall|k: int| 0 <= k < stk.len() ==> #[trigger] stk[k] < low.len(),
        forall|i: int| 0 <= i < path.len() ==> #[trigger] path[i] < low.len(),
        stk.contains(t),
        reachable(fst, s, t),
        dfn[t as int] < low[s as int],
        forall|k: int| 0 <= k < stk.len() ==> #[trigger] low_ok(fst, stk, path, dfn, low, lw, stk[k]),
        nearest_ok(stk, path, dfn, low),
    ensures
        forall|k: int| 0 <= k < stk.len() ==> #[trigger] low_ok(fst, stk, path, dfn, low.update(s as int, dfn[t as int]), lw.update(s as int, t), stk[k]),
        nearest_ok(stk, path, dfn, low.update(s as int, dfn[t as int])),
{
    let low2 = low.update(s as int, dfn[t as int]);
    let lw2 = lw.update(s as int, t);
    assert(path[path.len() - 1] == s);
    assert(path.contains(s));
    let ks = choose|k: int| 0 <= k < stk.len() && stk[k] == s;
    assert(low_ok(fst, stk, path, dfn, low, lw, stk[ks]));
    assert forall|k: int| 0 <= k < stk.len() implies #[trigger] low_ok(fst, stk, path, dfn, low2, lw2, stk[k]) by {
        let x = stk[k];
        assert(low_ok(fst, stk, path, dfn, low, lw, x));
        if x == s {
            assert(low2[s as int] == dfn[t as int]);
            assert(lw2[s as int] == t);
        } else {
            assert(low2[x as int] == low[x as int]);
            assert(lw2[x as int] == lw[x as int]);
        }
    }
    assert forall|k: int, j: int|
        0 <= k < stk.len() && 0 <= j < path.len() && !path.contains(stk[k]) && dfn[path[j] as int] <= dfn[stk[k] as int]
            && (j == path.len() - 1 || dfn[stk[k] as int] < dfn[path[j + 1] as int])
        implies low2[#[trigger] path[j] as int] <= low2[#[trigger] stk[k] as int] by {
        assert(stk[k] != s);
        assert(low2[stk[k] as int] == low[stk[k] as int]);
        assert(low[path[j] as int] <= low[stk[k] as int]);
        if path[j] != s {
            assert(low2[path[j] as int] == low[path[j] as int]);
        }
    }
}

/// A transition from the last state `s` of the path to `t`: the low link of
/// `s` may drop to the number of `t` when `t` is on the stack, and `s` is
/// co-accessible when `t` is.
#[verifier::spinoff_prover]
#[verifier::rlimit(30)]
pub proof fn lemma_tarjan_edge<W>(
    fst: VectorFst<W>,
    seen: Set<StateId>,
    nstates: usize,
    stk: Seq<StateId>,
    path: Seq<StateId>,
    dfn: Seq<usize>,
    low: Seq<usize>,
    lw: Seq<StateId>,
    onstack: Seq<bool>,
    coaccess: Seq<bool>,
    s: StateId,
    t: StateId,
    upd: bool,
)
    requires
        tarjan_inv(fst, seen, nstates, stk, path, dfn, low, lw, onstack, coaccess),
        path.len() > 0,
        path.last() == s,
        edge(fst, s, t),
        t < fst.states@.len(),
        upd ==> stk.contains(t) && dfn[t as int] < low[s as int],
    ensures
        tarjan_inv(
            fst,
            seen,
            nstates,
            stk,
            path,
            dfn,
            if upd { low.update(s as int, dfn[t as int]) } else { low },
            if upd { lw.update(s as int, t) } else { lw },
            onstack,
            if coaccess[t as int] { coaccess.update(s as int, true) } else { coaccess },
        ),
{
    reveal(tarjan_inv);
    assert(path[path.len() - 1] == s);
    assert(stk.contains(s));
    let ks = choose|k: int| 0 <= k < stk.len() && stk[k] == s;
    assert(stk[ks] < fst.states@.len());
    lemma_edge_reachable(fst, s, t);
    if upd {
        assert forall|i: int| 0 <= i < path.len() implies #[trigger] path[i] < low.len() by {
            assert(stk.contains(path[i]));
            let k = choose|k: int| 0 <= k < stk.len() && stk[k] == path[i];
            assert(stk[k] < fst.states@.len() && seen.contains(stk[k]));
        }
        assert forall|k: int| 0 <= k < stk.len() implies #[trigger] stk[k] < low.len() by {
            assert(stk[k] < fst.states@.len() && seen.contains(stk[k]));
        }
        lemma_lower_low(fst, stk, path, dfn, low, lw, s, t);
    }
    if coaccess[t as int] {
        assert(coreachable(fst, t));
        lemma_coreachable_back(fst, s, t);
        let c2 = coaccess.update(s as int, true);
        assert forall|v: int| 0 <= v < c2.len() && #[trigger] c2[v] implies coreachable(fst, v as StateId) by {
            if v != s {
                assert(coaccess[v]);
            }
        }
    }
}

/// A final state is co-accessible.
#[verifier::spinoff_prover]
#[verifier::rlimit(30)]
pub proof fn lemma_tarjan_final<W>(
    fst: VectorFst<W>,
    seen: Set<StateId>,
    nstates: usize,
    stk: Seq<StateId>,
    path: Seq<StateId>,
    dfn: Seq<usize>,
    low: Seq<usize>,
    lw: Seq<StateId>,
    onstack: Seq<bool>,
    coaccess: Seq<bool>,
    s: StateId,
)
    requires
        tarjan_inv(fst, seen, nstates, stk, path, dfn, low, lw, onstack, coaccess),
        s < fst.states@.len(),
        fst.states@[s as int].final_weight is Some,
    ensures
        tarjan_inv(fst, seen, nstates, stk, path, dfn, low, lw, onstack, coaccess.update(s as int, true)),
{
    reveal(tarjan_inv);
    lemma_reachable_refl(fst, s);
    assert(coreachable(fst, s));
    let c2 = coaccess.update(s as int, true);
    assert forall|v: int| 0 <= v < c2.len() && #[trigger] c2[v] implies coreachable(fst, v as StateId) by {
        if v != s {
            assert(coaccess[v]);
        }
    }
}

/// A state on the stack above the last state `s` of the path, when the low
/// link of `s` is its own number, reaches `s`.
#[verifier::spinoff_prover]
#[verifier::rlimit(30)]
proof fn lemma_member_reaches<W>(
    fst: VectorFst<W>,
    seen: Set<StateId>,
    nstates: usize,
    stk: Seq<StateId>,
    path: Seq<StateId>,
    dfn: Seq<usize>,
    low: Seq<usize>,
    lw: Seq<StateId>,
    onstack: Seq<bool>,
    coaccess: Seq<bool>,
    s: StateId,
    ks: int,
    k: int,
)
    requires
        tarjan_inv(fst, seen, nstates, stk, path, dfn, low, lw, onstack, coaccess),
        path.len() > 0,
        path.last() == s,
        0 <= ks <= k < stk.len(),
        stk[ks] == s,
        dfn[s as int] == low[s as int],
    ensures
        reachable(fst, stk[k], s),
    decreases k - ks,
{
    reveal(tarjan_inv);
    if k == ks {
        lemma_reachable_refl(fst, s);
    } else {
        let x = stk[k];
        assert(dfn[stk[ks] as int] < dfn[stk[k] as int]);
        assert(!path.contains(x)) by {
            if path.contains(x) {
                let i = choose|i: int| 0 <= i < path.len() && path[i] == x;
                assert(path[path.len() - 1] == s);
                if i < path.len() - 1 {
                    assert(dfn[path[i] as int] < dfn[path[path.len() - 1] as int]);
                }
            }
        }
        let j = path.len() - 1;
        assert(path[j] == s);
        assert(low[path[j] as int] <= low[stk[k] as int]);
        assert(low_ok(fst, stk, path, dfn, low, lw, stk[k]));
        let w = lw[x as int];
        let kw = choose|kk: int| 0 <= kk < stk.len() && stk[kk] == w;
        assert(kw >= ks) by {
            if kw < ks {
                assert(dfn[stk[kw] as int] < dfn[stk[ks] as int]);
            }
        }
        assert(kw < k) by {
            if kw >= k {
                if kw > k {
                    assert(dfn[stk[k] as int] < dfn[stk[kw] as int]);
                }
            }
        }
        lemma_member_reaches(fst, seen, nstates, stk, path, dfn, low, lw, onstack, coaccess, s, ks, kw);
        lemma_reachable_trans(fst, x, w, s);
    }
}

/// When the low link of the last state `s` of the path is its own number,
/// `s` and the states above it on the stack reach each other.
#[verifier::spinoff_prover]
#[verifier::rlimit(30)]
pub proof fn lemma_tarjan_members<W>(
    fst: VectorFst<W>,
    seen: Set<StateId>,
    nstates: usize,
    stk: Seq<StateId>,
    path: Seq<StateId>,
    dfn: Seq<usize>,
    low: Seq<usize>,
    lw: Seq<StateId>,
    onstack: Seq<bool>,
    coaccess: Seq<bool>,
    s: StateId,
    ks: int,
)
    requires
        tarjan_inv(fst, seen, nstates, stk, path, dfn, low, lw, onstack, coaccess),
        path.len() > 0,
        path.last() == s,
        0 <= ks < stk.len(),
        stk[ks] == s,
        dfn[s as int] == low[s as int],
    ensures
        forall|k: int| ks <= k < stk.len() ==> reachable(fst, #[trigger] stk[k], s) && reachable(fst, s, stk[k]),
{
    reveal(tarjan_inv);
    assert forall|k: int| ks <= k < stk.len() implies reachable(fst, #[trigger] stk[k], s) && reachable(fst, s, stk[k]) by {
        lemma_member_reaches(fst, seen, nstates, stk, path, dfn, low, lw, onstack, coaccess, s, ks, k);
        let i = path.len() - 1;
        assert(path[i] == s);
        if k > ks {
            assert(dfn[stk[ks] as int] < dfn[stk[k] as int]);
        }
        assert(dfn[path[i] as int] <= dfn[stk[k] as int]);
    }
}

/// The parent of a finished co-accessible state is co-accessible.
#[verifier::spinoff_prover]
#[verifier::rlimit(30)]
pub proof fn lemma_coaccess_parent<W>(fst: VectorFst<W>, coaccess: Seq<bool>, p: StateId, s: StateId)
    requires
        coaccess_ok(fst, coaccess),
        edge(fst, p, s),
        s < coaccess.len(),
        p < coaccess.len(),
        coaccess[s as int],
    ensures
        coaccess_ok(fst, coaccess.update(p as int, true)),
{
    lemma_edge_reachable(fst, p, s);
    assert(coreachable(fst, s));
    lemma_coreachable_back(fst, p, s);
    let c2 = coaccess.update(p as int, true);
    assert forall|v: int| 0 <= v < c2.len() && #[trigger] c2[v] implies coreachable(fst, v as StateId) by {
        if v != p {
            assert(coaccess[v]);
        }
    }
}

/// Popping the component of the last state `s` of the path, whose low link
/// is its own number, and finishing `s`.
#[verifier::rlimit(100)]
/// The low links of the states left on the stack once the component of `s` is popped.
#[verifier::spinoff_prover]
#[verifier::rlimit(30)]
proof fn lemma_pop_low<W>(
    fst: VectorFst<W>,
    seen: Set<StateId>,
    stk: Seq<StateId>,
    path: Seq<StateId>,
    dfn: Seq<usize>,
    low: Seq<usize>,
    lw: Seq<StateId>,
    s: StateId,
    ks: int,
    onstack: Seq<bool>,
)
    requires
        stack_ordered(stk, seen, dfn, onstack, fst.states@.len()),
        path_ok(fst, stk, path, dfn),
        dfn.len() == fst.states@.len(),
        path.len() > 0,
        path.last() == s,
        0 <= ks < stk.len(),
        stk[ks] == s,
        forall|k: int| 0 <= k < stk.len() ==> #[trigger] low_ok(fst, stk, path, dfn, low, lw, stk[k]),
    ensures
        forall|k: int| 0 <= k < stk.take(ks).len() ==> #[trigger] low_ok(fst, stk.take(ks), path.drop_last(), dfn, low, lw, stk.take(ks)[k]),
{
    let stk2 = stk.take(ks);
    let path2 = path.drop_last();
    assert(path[path.len() - 1] == s);
    // Low links.
    assert forall|k: int| 0 <= k < stk2.len() implies #[trigger] low_ok(fst, stk2, path2, dfn, low, lw, stk2[k]) by {
        let x = stk[k];
        assert(stk2[k] == x);
        assert(low_ok(fst, stk, path, dfn, low, lw, x));
        assert(dfn[stk[k] as int] < dfn[stk[ks] as int]);
        let w = lw[x as int];
        let kw = choose|kk: int| 0 <= kk < stk.len() && stk[kk] == w;
        assert(kw < ks) by {
            if kw >= ks {
                if kw > ks {
                    assert(dfn[stk[ks] as int] < dfn[stk[kw] as int]);
                }
            }
        }
        assert(stk2[kw] == w);
        if path.contains(x) {
            let i = choose|i: int| 0 <= i < path.len() && path[i] == x;
            assert(i != path.len() - 1);
            assert(path2[i] == x);
        }
    }
}

/// The nearest-grey property once the component of `s` is popped.
#[verifier::spinoff_prover]
#[verifier::rlimit(30)]
proof fn lemma_pop_nearest<W>(
    fst: VectorFst<W>,
    seen: Set<StateId>,
    stk: Seq<StateId>,
    path: Seq<StateId>,
    dfn: Seq<usize>,
    low: Seq<usize>,
    lw: Seq<StateId>,
    s: StateId,
    ks: int,
    onstack: Seq<bool>,
)
    requires
        stack_ordered(stk, seen, dfn, onstack, fst.states@.len()),
        path_ok(fst, stk, path, dfn),
        dfn.len() == fst.states@.len(),
        path.len() > 0,
        path.last() == s,
        0 <= ks < stk.len(),
        stk[ks] == s,
        nearest_ok(stk, path, dfn, low),
    ensures
        nearest_ok(stk.take(ks), path.drop_last(), dfn, low),
{
    let stk2 = stk.take(ks);
    let path2 = path.drop_last();
    assert(path[path.len() - 1] == s);
    // Nearest grey states.
    assert forall|k: int, j: int|
        0 <= k < stk2.len() && 0 <= j < path2.len() && !path2.contains(stk2[k]) && dfn[path2[j] as int] <= dfn[stk2[k] as int]
            && (j == path2.len() - 1 || dfn[stk2[k] as int] < dfn[path2[j + 1] as int])
        implies low[#[trigger] path2[j] as int] <= low[#[trigger] stk2[k] as int] by {
        let x = stk[k];
        assert(stk2[k] == x);
        assert(path2[j] == path[j]);
        assert(dfn[stk[k] as int] < dfn[stk[ks] as int]);
        assert(!path.contains(x)) by {
            if path.contains(x) {
                let i = choose|i: int| 0 <= i < path.len() && path[i] == x;
                assert(i != path.len() - 1);
                assert(path2[i] == x);
            }
        }
        if j < path2.len() - 1 {
            assert(path2[j + 1] == path[j + 1]);
        } else {
            assert(path[j + 1] == s);
        }
    }
}

/// Popping the component of `s` and leaving `s` keep the stack and path
/// facts.
#[verifier::spinoff_prover]
#[verifier::rlimit(30)]
proof fn lemma_pop_path<W>(
    fst: VectorFst<W>,
    seen: Set<StateId>,
    stk: Seq<StateId>,
    path: Seq<StateId>,
    dfn: Seq<usize>,
    onstack: Seq<bool>,
    s: StateId,
    ks: int,
    onstack2: Seq<bool>,
)
    requires
        stack_ordered(stk, seen, dfn, onstack, fst.states@.len()),
        path_ok(fst, stk, path, dfn),
        path.len() > 0,
        path.last() == s,
        0 <= ks < stk.len(),
        stk[ks] == s,
        onstack2.len() == fst.states@.len(),
        forall|v: int| 0 <= v < fst.states@.len() ==> (#[trigger] onstack2[v] <==> stk.take(ks).contains(v as StateId)),
    ensures
        stack_ordered(stk.take(ks), seen, dfn, onstack2, fst.states@.len()),
        path_ok(fst, stk.take(ks), path.drop_last(), dfn),
{
    let n = fst.states@.len();
    let stk2 = stk.take(ks);
    let path2 = path.drop_last();
    assert(path[path.len() - 1] == s);
    // Every state of the path but `s` lies below `s` on the stack.
    assert forall|i: int| 0 <= i < path2.len() implies stk2.contains(#[trigger] path2[i]) && dfn[path2[i] as int] < dfn[s as int] by {
        assert(path2[i] == path[i]);
        assert(dfn[path[i] as int] < dfn[path[path.len() - 1] as int]);
        assert(stk.contains(path[i]));
        let k = choose|k: int| 0 <= k < stk.len() && stk[k] == path[i];
        assert(k < ks) by {
            if k >= ks {
                if k > ks {
                    assert(dfn[stk[ks] as int] < dfn[stk[k] as int]);
                }
            }
        }
        assert(stk2[k] == path[i]);
    }
    // Stack.
    assert forall|k: int| 0 <= k < stk2.len() implies #[trigger] stk2[k] < n && seen.contains(stk2[k]) by {
        assert(stk2[k] == stk[k]);
    }
    assert forall|i: int, j: int| 0 <= i < j < stk2.len() implies dfn[#[trigger] stk2[i] as int] < dfn[#[trigger] stk2[j] as int] by {
        assert(stk2[i] == stk[i] && stk2[j] == stk[j]);
    }
    assert(stack_ordered(stk2, seen, dfn, onstack2, n));
    // Path.
    assert forall|i: int, j: int| 0 <= i < j < path2.len() implies dfn[#[trigger] path2[i] as int] < dfn[#[trigger] path2[j] as int] by {
        assert(path2[i] == path[i] && path2[j] == path[j]);
    }
    assert forall|i: int| 0 <= i < path2.len() - 1 implies edge(fst, #[trigger] path2[i], path2[i + 1]) by {
        assert(path2[i] == path[i] && path2[i + 1] == path[i + 1]);
    }
    if path2.len() == 0 {
        assert(path[0] == s);
        assert(stk[0] == s);
        assert(ks == 0) by {
            if ks > 0 {
                assert(dfn[stk[0] as int] < dfn[stk[ks] as int]);
            }
        }
    } else {
        assert(path2[0] == path[0]);
        assert(stk.len() > 0 && stk[0] == path[0]);
        assert(dfn[path2[0] as int] < dfn[s as int]);
        assert(ks > 0);
        assert(stk2[0] == stk[0]);
    }
    assert(path_ok(fst, stk2, path2, dfn));
}

#[verifier::spinoff_prover]
#[verifier::rlimit(40)]
pub proof fn lemma_tarjan_pop<W>(
    fst: VectorFst<W>,
    seen: Set<StateId>,
    nstates: usize,
    stk: Seq<StateId>,
    path: Seq<StateId>,
    dfn: Seq<usize>,
    low: Seq<usize>,
    lw: Seq<StateId>,
    onstack: Seq<bool>,
    coaccess: Seq<bool>,
    s: StateId,
    ks: int,
    onstack2: Seq<bool>,
    coaccess2: Seq<bool>,
)
    requires
        tarjan_inv(fst, seen, nstates, stk, path, dfn, low, lw, onstack, coaccess),
        path.len() > 0,
        path.last() == s,
        0 <= ks < stk.len(),
        stk[ks] == s,
        dfn[s as int] == low[s as int],
        onstack2.len() == fst.states@.len(),
        forall|v: int| 0 <= v < fst.states@.len() ==> (#[trigger] onstack2[v] <==> stk.take(ks).contains(v as StateId)),
        coaccess2.len() == fst.states@.len(),
        coaccess_ok(fst, coaccess2),
    ensures
        tarjan_inv(fst, seen, nstates, stk.take(ks), path.drop_last(), dfn, low, lw, onstack2, coaccess2),
        path.len() > 1 ==> low[path[path.len() - 2] as int] <= low[s as int],
{
    reveal(tarjan_inv);
    let n = fst.states@.len();
    let stk2 = stk.take(ks);
    let path2 = path.drop_last();
    assert(path[path.len() - 1] == s);
    lemma_pop_path(fst, seen, stk, path, dfn, onstack, s, ks, onstack2);
    // Reachability from the path.
    assert forall|i: int, k: int| 0 <= i < path2.len() && 0 <= k < stk2.len() && dfn[path2[i] as int] <= dfn[stk2[k] as int]
        implies reachable(fst, #[trigger] path2[i], #[trigger] stk2[k]) by {
        assert(path2[i] == path[i] && stk2[k] == stk[k]);
    }
    lemma_pop_low(fst, seen, stk, path, dfn, low, lw, s, ks, onstack);
    lemma_pop_nearest(fst, seen, stk, path, dfn, low, lw, s, ks, onstack);
    // The parent's low link is already at most that of `s`.
    if path.len() > 1 {
        let p = path[path.len() - 2];
        assert(path2[path2.len() - 1] == p);
        assert(stk.contains(p));
        let kp = choose|kk: int| 0 <= kk < stk.len() && stk[kk] == p;
        assert(low_ok(fst, stk, path, dfn, low, lw, stk[kp]));
        assert(dfn[p as int] < dfn[s as int]);
    }
}

/// Dropping the last state of the path keeps the path facts.
#[verifier::spinoff_prover]
#[verifier::rlimit(30)]
proof fn lemma_path_drop<W>(fst: VectorFst<W>, stk: Seq<StateId>, path: Seq<StateId>, dfn: Seq<usize>)
    requires
        path_ok(fst, stk, path, dfn),
        path.len() > 1,
        forall|i: int, k: int| 0 <= i < path.len() && 0 <= k < stk.len() && dfn[path[i] as int] <= dfn[stk[k] as int]
            ==> reachable(fst, #[trigger] path[i], #[trigger] stk[k]),
    ensures
        path_ok(fst, stk, path.drop_last(), dfn),
        forall|i: int, k: int| 0 <= i < path.drop_last().len() && 0 <= k < stk.len() && dfn[path.drop_last()[i] as int] <= dfn[stk[k] as int]
            ==> reachable(fst, #[trigger] path.drop_last()[i], #[trigger] stk[k]),
{
    let path2 = path.drop_last();
    assert forall|i: int| 0 <= i < path2.len() implies stk.contains(#[trigger] path2[i]) by {
        assert(path2[i] == path[i]);
    }
    assert forall|i: int, j: int| 0 <= i < j < path2.len() implies dfn[#[trigger] path2[i] as int] < dfn[#[trigger] path2[j] as int] by {
        assert(path2[i] == path[i] && path2[j] == path[j]);
    }
    assert forall|i: int| 0 <= i < path2.len() - 1 implies edge(fst, #[trigger] path2[i], path2[i + 1]) by {
        assert(path2[i] == path[i] && path2[i + 1] == path[i + 1]);
    }
    assert(path2[0] == path[0]);
    assert forall|i: int, k: int| 0 <= i < path2.len() && 0 <= k < stk.len() && dfn[path2[i] as int] <= dfn[stk[k] as int]
        implies reachable(fst, #[trigger] path2[i], #[trigger] stk[k]) by {
        assert(path2[i] == path[i]);
    }
}

/// The low links once `s` is finished: its parent `p` takes the low link of
/// `s` when lower.
pub open spec fn low_after(low: Seq<usize>, s: StateId, p: StateId) -> Seq<usize> {
    if low[s as int] < low[p as int] {
        low.update(p as int, low[s as int])
    } else {
        low
    }
}

/// The low-link witnesses once `s` is finished.
pub open spec fn lw_after(low: Seq<usize>, lw: Seq<StateId>, s: StateId, p: StateId) -> Seq<StateId> {
    if low[s as int] < low[p as int] {
        lw.update(p as int, lw[s as int])
    } else {
        lw
    }
}

/// The low links once `s`, not the root of its component, is finished.
#[verifier::spinoff_prover]
#[verifier::rlimit(30)]
proof fn lemma_keep_low<W>(
    fst: VectorFst<W>,
    seen: Set<StateId>,
    nstates: usize,
    stk: Seq<StateId>,
    path: Seq<StateId>,
    dfn: Seq<usize>,
    low: Seq<usize>,
    lw: Seq<StateId>,
    onstack: Seq<bool>,
    s: StateId,
)
    requires
        seen_numbered(seen, nstates, dfn, fst.states@.len()),
        stack_ordered(stk, seen, dfn, onstack, fst.states@.len()),
        path_ok(fst, stk, path, dfn),
        dfn.len() == fst.states@.len(),
        low.len() == fst.states@.len(),
        lw.len() == fst.states@.len(),
        path.len() > 1,
        path.last() == s,
        dfn[s as int] != low[s as int],
        forall|k: int| 0 <= k < stk.len() ==> #[trigger] low_ok(fst, stk, path, dfn, low, lw, stk[k]),
    ensures
        forall|k: int| 0 <= k < stk.len() ==> #[trigger] low_ok(
            fst,
            stk,
            path.drop_last(),
            dfn,
            low_after(low, s, path[path.len() - 2]),
            lw_after(low, lw, s, path[path.len() - 2]),
            stk[k],
        ),
{
    let n = fst.states@.len();
    assert(path[path.len() - 1] == s);
    assert(stk.contains(s));
    let ks = choose|kk: int| 0 <= kk < stk.len() && stk[kk] == s;
    assert(low_ok(fst, stk, path, dfn, low, lw, stk[ks]));
    let ws = lw[s as int];
    let p = path[path.len() - 2];
    let path2 = path.drop_last();
    let upd = low[s as int] < low[p as int];
    let low2 = if upd { low.update(p as int, low[s as int]) } else { low };
    let lw2 = if upd { lw.update(p as int, lw[s as int]) } else { lw };
    assert(path2[path2.len() - 1] == p);
    assert(edge(fst, path[path.len() - 2], path[path.len() - 1]));
    assert(stk.contains(p));
    let kp = choose|kk: int| 0 <= kk < stk.len() && stk[kk] == p;
    assert(low_ok(fst, stk, path, dfn, low, lw, stk[kp]));
    assert(dfn[p as int] < dfn[s as int]);
    assert(!path2.contains(s)) by {
        if path2.contains(s) {
            let i = choose|i: int| 0 <= i < path2.len() && path2[i] == s;
            assert(path[i] == s);
            assert(dfn[path[i] as int] < dfn[path[path.len() - 1] as int]);
        }
    }
    // Low links.
    if upd {
        lemma_edge_reachable(fst, p, s);
        lemma_reachable_trans(fst, p, s, ws);
    }
    assert forall|k: int| 0 <= k < stk.len() implies #[trigger] low_ok(fst, stk, path2, dfn, low2, lw2, stk[k]) by {
        let x = stk[k];
        assert(low_ok(fst, stk, path, dfn, low, lw, x));
        assert(x < n && seen.contains(x));
        if upd && x == p {
            assert(low2[p as int] == low[s as int]);
            assert(lw2[p as int] == ws);
            assert(path2.contains(p));
        } else {
            assert(low2[x as int] == low[x as int]);
            assert(lw2[x as int] == lw[x as int]);
            if path.contains(x) && x != s {
                let i = choose|i: int| 0 <= i < path.len() && path[i] == x;
                assert(i != path.len() - 1);
                assert(path2[i] == x);
            }
        }
    }
}

/// The nearest-grey property once `s`, not the root of its component, is finished.
#[verifier::spinoff_prover]
#[verifier::rlimit(30)]
proof fn lemma_keep_nearest<W>(
    fst: VectorFst<W>,
    seen: Set<StateId>,
    nstates: usize,
    stk: Seq<StateId>,
    path: Seq<StateId>,
    dfn: Seq<usize>,
    low: Seq<usize>,
    lw: Seq<StateId>,
    onstack: Seq<bool>,
    s: StateId,
)
    requires
        seen_numbered(seen, nstates, dfn, fst.states@.len()),
        stack_ordered(stk, seen, dfn, onstack, fst.states@.len()),
        path_ok(fst, stk, path, dfn),
        dfn.len() == fst.states@.len(),
        low.len() == fst.states@.len(),
        lw.len() == fst.states@.len(),
        path.len() > 1,
        path.last() == s,
        dfn[s as int] != low[s as int],
        forall|k: int| 0 <= k < stk.len() ==> #[trigger] low_ok(fst, stk, path, dfn, low, lw, stk[k]),
        nearest_ok(stk, path, dfn, low),
    ensures
        nearest_ok(stk, path.drop_last(), dfn, low_after(low, s, path[path.len() - 2])),
{
    let n = fst.states@.len();
    assert(path[path.len() - 1] == s);
    assert(stk.contains(s));
    let ks = choose|kk: int| 0 <= kk < stk.len() && stk[kk] == s;
    assert(low_ok(fst, stk, path, dfn, low, lw, stk[ks]));
    let ws = lw[s as int];
    let p = path[path.len() - 2];
    let path2 = path.drop_last();
    let upd = low[s as int] < low[p as int];
    let low2 = if upd { low.update(p as int, low[s as int]) } else { low };
    let lw2 = if upd { lw.update(p as int, lw[s as int]) } else { lw };
    assert(path2[path2.len() - 1] == p);
    assert(edge(fst, path[path.len() - 2], path[path.len() - 1]));
    assert(stk.contains(p));
    let kp = choose|kk: int| 0 <= kk < stk.len() && stk[kk] == p;
    assert(low_ok(fst, stk, path, dfn, low, lw, stk[kp]));
    assert(dfn[p as int] < dfn[s as int]);
    assert(!path2.contains(s)) by {
        if path2.contains(s) {
            let i = choose|i: int| 0 <= i < path2.len() && path2[i] == s;
            assert(path[i] == s);
            assert(dfn[path[i] as int] < dfn[path[path.len() - 1] as int]);
        }
    }
    // Nearest grey states.
    assert forall|k: int, j: int|
        0 <= k < stk.len() && 0 <= j < path2.len() && !path2.contains(stk[k]) && dfn[path2[j] as int] <= dfn[stk[k] as int]
            && (j == path2.len() - 1 || dfn[stk[k] as int] < dfn[path2[j + 1] as int])
        implies low2[#[trigger] path2[j] as int] <= low2[#[trigger] stk[k] as int] by {
        let x = stk[k];
        assert(path2[j] == path[j]);
        assert(x != p) by {
            assert(path2.contains(p));
        }
        assert(low2[x as int] == low[x as int]);
        if x == s {
            if j < path2.len() - 1 {
                assert(path2[j + 1] == path[j + 1]);
                assert(dfn[path[j + 1] as int] < dfn[path[path.len() - 1] as int]);
            }
            assert(j == path2.len() - 1);
        } else {
            assert(!path.contains(x)) by {
                if path.contains(x) {
                    let i = choose|i: int| 0 <= i < path.len() && path[i] == x;
                    assert(i != path.len() - 1);
                    assert(path2[i] == x);
                }
            }
            assert(seen.contains(x) && seen.contains(s) && x < n);
            if j < path2.len() - 1 {
                assert(path2[j + 1] == path[j + 1]);
                assert(path[j] != p) by {
                    assert(dfn[path[j] as int] < dfn[path[path.len() - 2] as int]);
                }
                assert(low2[path[j] as int] == low[path[j] as int]);
            } else if dfn[x as int] < dfn[s as int] {
                assert(path[j + 1] == s);
                assert(low[p as int] <= low[x as int]);
            } else {
                assert(dfn[x as int] != dfn[s as int]);
                let jj = path.len() - 1;
                assert(path[jj] == s);
                assert(low[path[jj] as int] <= low[stk[k] as int]);
            }
        }
    }
}

/// Finishing the last state `s` of the path whose low link is below its own
/// number: it stays on the stack, and its parent takes its low link when lower.
#[verifier::spinoff_prover]
#[verifier::rlimit(40)]
pub proof fn lemma_tarjan_keep<W>(
    fst: VectorFst<W>,
    seen: Set<StateId>,
    nstates: usize,
    stk: Seq<StateId>,
    path: Seq<StateId>,
    dfn: Seq<usize>,
    low: Seq<usize>,
    lw: Seq<StateId>,
    onstack: Seq<bool>,
    coaccess: Seq<bool>,
    s: StateId,
    coaccess2: Seq<bool>,
)
    requires
        tarjan_inv(fst, seen, nstates, stk, path, dfn, low, lw, onstack, coaccess),
        path.len() > 0,
        path.last() == s,
        dfn[s as int] != low[s as int],
        coaccess2.len() == fst.states@.len(),
        coaccess_ok(fst, coaccess2),
    ensures
        path.len() > 1,
        tarjan_inv(
            fst,
            seen,
            nstates,
            stk,
            path.drop_last(),
            dfn,
            low_after(low, s, path[path.len() - 2]),
            lw_after(low, lw, s, path[path.len() - 2]),
            onstack,
            coaccess2,
        ),
{
    reveal(tarjan_inv);
    let n = fst.states@.len();
    assert(path[path.len() - 1] == s);
    assert(stk.contains(s));
    let ks = choose|kk: int| 0 <= kk < stk.len() && stk[kk] == s;
    assert(low_ok(fst, stk, path, dfn, low, lw, stk[ks]));
    let ws = lw[s as int];
    let kws = choose|kk: int| 0 <= kk < stk.len() && stk[kk] == ws;
    assert(path.len() > 1) by {
        if path.len() == 1 {
            assert(stk[0] == s);
            if kws > 0 {
                assert(dfn[stk[0] as int] < dfn[stk[kws] as int]);
            }
        }
    }
    lemma_path_drop(fst, stk, path, dfn);
    lemma_keep_low(fst, seen, nstates, stk, path, dfn, low, lw, onstack, s);
    lemma_keep_nearest(fst, seen, nstates, stk, path, dfn, low, lw, onstack, s);
}

/// The parts of the invariant that its users read.
#[verifier::spinoff_prover]
#[verifier::rlimit(30)]
pub proof fn lemma_tarjan_unfold<W>(
    fst: VectorFst<W>,
    seen: Set<StateId>,
    nstates: usize,
    stk: Seq<StateId>,
    path: Seq<StateId>,
    dfn: Seq<usize>,
    low: Seq<usize>,
    lw: Seq<StateId>,
    onstack: Seq<bool>,
    coaccess: Seq<bool>,
)
    requires
        tarjan_inv(fst, seen, nstates, stk, path, dfn, low, lw, onstack, coaccess),
    ensures
        stack_ordered(stk, seen, dfn, onstack, fst.states@.len()),
        path_ok(fst, stk, path, dfn),
        coaccess_ok(fst, coaccess),
        seen_numbered(seen, nstates, dfn, fst.states@.len()),
        nearest_ok(stk, path, dfn, low),
{
    reveal(tarjan_inv);
}

/// Every state on the stack reaches the last state of the path.
#[verifier::spinoff_prover]
pub proof fn lemma_stack_reaches_top<W>(
    fst: VectorFst<W>,
    seen: Set<StateId>,
    nstates: usize,
    stk: Seq<StateId>,
    path: Seq<StateId>,
    dfn: Seq<usize>,
    low: Seq<usize>,
    lw: Seq<StateId>,
    onstack: Seq<bool>,
    coaccess: Seq<bool>,
    v: StateId,
)
    requires
        tarjan_inv(fst, seen, nstates, stk, path, dfn, low, lw, onstack, coaccess),
        path.len() > 0,
        stk.contains(v),
    ensures
        reachable(fst, v, path.last()),
    decreases dfn[v as int],
{
    reveal(tarjan_inv);
    let top = path[path.len() - 1];
    assert(stk.contains(top));
    let kt = choose|k: int| 0 <= k < stk.len() && stk[k] == top;
    if path.contains(v) {
        let i = choose|i: int| 0 <= i < path.len() && path[i] == v;
        if i < path.len() - 1 {
            assert(dfn[path[i] as int] < dfn[path[path.len() - 1] as int]);
        }
        assert(dfn[path[i] as int] <= dfn[stk[kt] as int]);
        assert(reachable(fst, path[i], stk[kt]));
    } else {
        let k = choose|k: int| 0 <= k < stk.len() && stk[k] == v;
        assert(low_ok(fst, stk, path, dfn, low, lw, stk[k]));
        let w = lw[v as int];
        lemma_stack_reaches_top(fst, seen, nstates, stk, path, dfn, low, lw, onstack, coaccess, w);
        lemma_reachable_trans(fst, v, w, top);
    }
}

/// Discovering `s` keeps the component invariant.
#[verifier::spinoff_prover]
#[verifier::rlimit(30)]
pub proof fn lemma_scc_discover<W>(
    fst: VectorFst<W>,
    seen: Set<StateId>,
    stk: Seq<StateId>,
    path: Seq<StateId>,
    dfn: Seq<usize>,
    low: Seq<usize>,
    onstack: Seq<bool>,
    scc: Seq<usize>,
    nscc: usize,
    done: Map<StateId, nat>,
    s: StateId,
    nstates: usize,
)
    requires
        scc_inv(fst, seen, stk, path, dfn, low, onstack, scc, nscc, done),
        forall|k: int| 0 <= k < stk.len() ==> #[trigger] seen.contains(stk[k]),
        forall|v: StateId| #[trigger] seen.contains(v) ==> v < fst.states@.len(),
        s < fst.states@.len(),
        !seen.contains(s),
        dfn.len() == fst.states@.len(),
        low.len() == fst.states@.len(),
        onstack.len() == fst.states@.len(),
    ensures
        scc_inv(
            fst,
            seen.insert(s),
            stk.push(s),
            path.push(s),
            dfn.update(s as int, nstates),
            low.update(s as int, nstates),
            onstack.update(s as int, true),
            scc,
            nscc,
            done,
        ),
{
    reveal(scc_inv);
    let n = fst.states@.len();
    let seen2 = seen.insert(s);
    let stk2 = stk.push(s);
    let path2 = path.push(s);
    let dfn2 = dfn.update(s as int, nstates);
    let low2 = low.update(s as int, nstates);
    let onstack2 = onstack.update(s as int, true);
    assert forall|k: int| 0 <= k < stk2.len() implies dn(done, #[trigger] stk2[k]) <= fst.states@[stk2[k] as int].trs@.len() by {
        if k < stk.len() {
            assert(stk2[k] == stk[k]);
        }
    }
    assert forall|k: int| 0 <= k < stk2.len() && !path2.contains(stk2[k]) implies dn(done, #[trigger] stk2[k]) == fst.states@[stk2[k] as int].trs@.len() by {
        if k < stk.len() {
            assert(stk2[k] == stk[k]);
            if path.contains(stk[k]) {
                let i = choose|i: int| 0 <= i < path.len() && path[i] == stk[k];
                assert(path2[i] == stk[k]);
            }
        } else {
            assert(stk2[k] == s);
            assert(path2[path.len() as int] == s);
        }
    }
    assert forall|k: int, e: int| 0 <= k < stk2.len() && 0 <= e < dn(done, stk2[k]) implies #[trigger] explored_ok(fst, seen2, dfn2, low2, onstack2, stk2[k], e) by {
        assert(k < stk.len()) by {
            if k == stk.len() {
                assert(stk2[k] == s);
            }
        }
        let v = stk[k];
        assert(stk2[k] == v);
        assert(seen.contains(v));
        assert(explored_ok(fst, seen, dfn, low, onstack, v, e));
        let w = fst.states@[v as int].trs@[e].nextstate;
        assert(seen.contains(w));
        assert(w != s && v != s);
        assert(onstack2[w as int] == onstack[w as int]);
        assert(dfn2[w as int] == dfn[w as int] && dfn2[v as int] == dfn[v as int] && low2[v as int] == low[v as int]);
    }
    assert forall|u: StateId| u < n && seen2.contains(u) && !onstack2[u as int] implies #[trigger] popped_ok(fst, seen2, onstack2, scc, nscc, u) by {
        assert(u != s);
        assert(popped_ok(fst, seen, onstack, scc, nscc, u));
        assert forall|e: int| 0 <= e < fst.states@[u as int].trs@.len() implies {
            let w = #[trigger] fst.states@[u as int].trs@[e].nextstate;
            &&& seen2.contains(w)
            &&& !onstack2[w as int]
            &&& scc[w as int] <= scc[u as int]
        } by {
            let w = fst.states@[u as int].trs@[e].nextstate;
            assert(seen.contains(w));
            assert(w != s);
            assert(onstack2[w as int] == onstack[w as int]);
        }
    }
    assert forall|u: StateId, v: StateId| #![trigger scc[u as int], scc[v as int]]
        u < n && v < n && seen2.contains(u) && !onstack2[u as int] && seen2.contains(v) && !onstack2[v as int] && scc[u as int] == scc[v as int]
        implies reachable(fst, u, v) by {
        assert(u != s && v != s);
    }
    assert forall|c: usize| c < nscc implies #[trigger] comp_used(fst, seen2, onstack2, scc, c) by {
        assert(comp_used(fst, seen, onstack, scc, c));
        let u = choose|u: StateId| u < fst.states@.len() && seen.contains(u) && !onstack[u as int] && #[trigger] scc[u as int] == c;
        assert(u != s);
        assert(onstack2[u as int] == onstack[u as int]);
        assert(seen2.contains(u));
    }
}

/// Examining a transition of the last state `s` of the path towards a
/// discovered state `t`, lowering the low link of `s` where the search does.
#[verifier::spinoff_prover]
#[verifier::rlimit(30)]
pub proof fn lemma_scc_edge<W>(
    fst: VectorFst<W>,
    seen: Set<StateId>,
    stk: Seq<StateId>,
    path: Seq<StateId>,
    dfn: Seq<usize>,
    low: Seq<usize>,
    onstack: Seq<bool>,
    scc: Seq<usize>,
    nscc: usize,
    done: Map<StateId, nat>,
    s: StateId,
    t: StateId,
    upd: bool,
)
    requires
        scc_inv(fst, seen, stk, path, dfn, low, onstack, scc, nscc, done),
        forall|k: int| 0 <= k < stk.len() ==> #[trigger] stk[k] < fst.states@.len(),
        seen.contains(s),
        s < fst.states@.len(),
        seen.contains(t),
        t < fst.states@.len(),
        dfn.len() == fst.states@.len(),
        low.len() == fst.states@.len(),
        onstack.len() == fst.states@.len(),
        path.len() > 0,
        path.last() == s,
        dn(done, s) < fst.states@[s as int].trs@.len(),
        fst.states@[s as int].trs@[dn(done, s) as int].nextstate == t,
        onstack[t as int] && dfn[t as int] < dfn[s as int] && dfn[t as int] < low[s as int] ==> upd,
        upd ==> dfn[t as int] < low[s as int],
    ensures
        scc_inv(
            fst,
            seen,
            stk,
            path,
            dfn,
            if upd { low.update(s as int, dfn[t as int]) } else { low },
            onstack,
            scc,
            nscc,
            done.insert(s, dn(done, s) + 1),
        ),
{
    reveal(scc_inv);
    let low2 = if upd { low.update(s as int, dfn[t as int]) } else { low };
    let done2 = done.insert(s, dn(done, s) + 1);
    assert(path[path.len() - 1] == s);
    assert forall|v: StateId| #![trigger dn(done2, v)] !seen.contains(v) implies dn(done2, v) == 0 by {
        assert(v != s);
        assert(dn(done2, v) == dn(done, v));
    }
    assert forall|k: int| 0 <= k < stk.len() implies dn(done2, #[trigger] stk[k]) <= fst.states@[stk[k] as int].trs@.len() by {
        if stk[k] != s {
            assert(dn(done2, stk[k]) == dn(done, stk[k]));
        }
    }
    assert forall|k: int| 0 <= k < stk.len() && !path.contains(stk[k]) implies dn(done2, #[trigger] stk[k]) == fst.states@[stk[k] as int].trs@.len() by {
        assert(stk[k] != s) by {
            if stk[k] == s {
                assert(path.contains(s));
            }
        }
        assert(dn(done2, stk[k]) == dn(done, stk[k]));
    }
    assert forall|k: int, e: int| 0 <= k < stk.len() && 0 <= e < dn(done2, stk[k]) implies #[trigger] explored_ok(fst, seen, dfn, low2, onstack, stk[k], e) by {
        let v = stk[k];
        if v == s {
            if e == dn(done, s) {
                assert(fst.states@[s as int].trs@[e].nextstate == t);
            } else {
                assert(explored_ok(fst, seen, dfn, low, onstack, v, e));
            }
        } else {
            assert(dn(done2, v) == dn(done, v));
            assert(explored_ok(fst, seen, dfn, low, onstack, v, e));
            assert(low2[v as int] == low[v as int]);
        }
    }
}


/// Examining the transition of `p` that led to `s`, discovered after `p`.
#[verifier::spinoff_prover]
#[verifier::rlimit(30)]
pub proof fn lemma_scc_parent<W>(
    fst: VectorFst<W>,
    seen: Set<StateId>,
    stk: Seq<StateId>,
    path: Seq<StateId>,
    dfn: Seq<usize>,
    low: Seq<usize>,
    onstack: Seq<bool>,
    scc: Seq<usize>,
    nscc: usize,
    done: Map<StateId, nat>,
    p: StateId,
    s: StateId,
)
    requires
        scc_inv(fst, seen, stk, path, dfn, low, onstack, scc, nscc, done),
        seen.contains(p),
        seen.contains(s),
        p < fst.states@.len(),
        dn(done, p) < fst.states@[p as int].trs@.len(),
        fst.states@[p as int].trs@[dn(done, p) as int].nextstate == s,
        dfn[p as int] < dfn[s as int],
    ensures
        scc_inv(fst, seen, stk, path, dfn, low, onstack, scc, nscc, done.insert(p, dn(done, p) + 1)),
{
    reveal(scc_inv);
    let done2 = done.insert(p, dn(done, p) + 1);
    assert forall|v: StateId| #![trigger dn(done2, v)] !seen.contains(v) implies dn(done2, v) == 0 by {
        assert(v != p);
        assert(dn(done2, v) == dn(done, v));
    }
    assert forall|k: int| 0 <= k < stk.len() implies dn(done2, #[trigger] stk[k]) <= fst.states@[stk[k] as int].trs@.len() by {
        if stk[k] != p {
            assert(dn(done2, stk[k]) == dn(done, stk[k]));
        }
    }
    assert forall|k: int| 0 <= k < stk.len() && !path.contains(stk[k]) implies dn(done2, #[trigger] stk[k]) == fst.states@[stk[k] as int].trs@.len() by {
        assert(dn(done, stk[k]) == fst.states@[stk[k] as int].trs@.len());
        assert(stk[k] != p);
        assert(dn(done2, stk[k]) == dn(done, stk[k]));
    }
    assert forall|k: int, e: int| 0 <= k < stk.len() && 0 <= e < dn(done2, stk[k]) implies #[trigger] explored_ok(fst, seen, dfn, low, onstack, stk[k], e) by {
        let v = stk[k];
        if v == p {
            if e < dn(done, p) {
                assert(explored_ok(fst, seen, dfn, low, onstack, v, e));
            } else {
                assert(fst.states@[p as int].trs@[e].nextstate == s);
            }
        } else {
            assert(dn(done2, v) == dn(done, v));
            assert(explored_ok(fst, seen, dfn, low, onstack, v, e));
        }
    }
}

/// Lowering low links keeps the component invariant.
#[verifier::spinoff_prover]
#[verifier::rlimit(30)]
pub proof fn lemma_scc_lower<W>(
    fst: VectorFst<W>,
    seen: Set<StateId>,
    stk: Seq<StateId>,
    path: Seq<StateId>,
    dfn: Seq<usize>,
    low: Seq<usize>,
    onstack: Seq<bool>,
    scc: Seq<usize>,
    nscc: usize,
    done: Map<StateId, nat>,
    low2: Seq<usize>,
)
    requires
        scc_inv(fst, seen, stk, path, dfn, low, onstack, scc, nscc, done),
        forall|k: int| 0 <= k < stk.len() ==> #[trigger] stk[k] < low.len(),
        low2.len() == low.len(),
        forall|v: int| 0 <= v < low.len() ==> #[trigger] low2[v] <= low[v],
    ensures
        scc_inv(fst, seen, stk, path, dfn, low2, onstack, scc, nscc, done),
{
    reveal(scc_inv);
    assert forall|k: int, e: int| 0 <= k < stk.len() && 0 <= e < dn(done, stk[k]) implies #[trigger] explored_ok(fst, seen, dfn, low2, onstack, stk[k], e) by {
        assert(explored_ok(fst, seen, dfn, low, onstack, stk[k], e));
        assert(low2[stk[k] as int] <= low[stk[k] as int]);
    }
}

/// Leaving the last state `s` of the path once each of its transitions was
/// examined.
#[verifier::spinoff_prover]
#[verifier::rlimit(30)]
pub proof fn lemma_scc_leave<W>(
    fst: VectorFst<W>,
    seen: Set<StateId>,
    stk: Seq<StateId>,
    path: Seq<StateId>,
    dfn: Seq<usize>,
    low: Seq<usize>,
    onstack: Seq<bool>,
    scc: Seq<usize>,
    nscc: usize,
    done: Map<StateId, nat>,
    s: StateId,
)
    requires
        scc_inv(fst, seen, stk, path, dfn, low, onstack, scc, nscc, done),
        path.len() > 0,
        path.last() == s,
        dn(done, s) == fst.states@[s as int].trs@.len(),
    ensures
        scc_inv(fst, seen, stk, path.drop_last(), dfn, low, onstack, scc, nscc, done),
{
    reveal(scc_inv);
    let path2 = path.drop_last();
    assert forall|k: int| 0 <= k < stk.len() && !path2.contains(stk[k]) implies dn(done, #[trigger] stk[k]) == fst.states@[stk[k] as int].trs@.len() by {
        if stk[k] != s {
            if path.contains(stk[k]) {
                let i = choose|i: int| 0 <= i < path.len() && path[i] == stk[k];
                assert(i != path.len() - 1);
                assert(path2[i] == stk[k]);
            }
        }
    }
}

/// The parts of the component invariant about examined transitions.
#[verifier::spinoff_prover]
#[verifier::rlimit(30)]
proof fn lemma_scc_unfold<W>(
    fst: VectorFst<W>,
    seen: Set<StateId>,
    stk: Seq<StateId>,
    path: Seq<StateId>,
    dfn: Seq<usize>,
    low: Seq<usize>,
    onstack: Seq<bool>,
    scc: Seq<usize>,
    nscc: usize,
    done: Map<StateId, nat>,
)
    requires
        scc_inv(fst, seen, stk, path, dfn, low, onstack, scc, nscc, done),
    ensures
        forall|k: int| 0 <= k < stk.len() && !path.contains(stk[k]) ==> dn(done, #[trigger] stk[k]) == fst.states@[stk[k] as int].trs@.len(),
        forall|k: int, e: int| 0 <= k < stk.len() && 0 <= e < dn(done, stk[k]) ==> #[trigger] explored_ok(fst, seen, dfn, low, onstack, stk[k], e),
        forall|u: StateId| u < fst.states@.len() && seen.contains(u) && !onstack[u as int] ==> #[trigger] popped_ok(fst, seen, onstack, scc, nscc, u),
{
    reveal(scc_inv);
}

/// A state of the popped component is not on the path, but for `s`, and
/// each of its transitions was examined.
#[verifier::spinoff_prover]
#[verifier::rlimit(30)]
proof fn lemma_pop_member_done<W>(
    fst: VectorFst<W>,
    seen: Set<StateId>,
    stk: Seq<StateId>,
    path: Seq<StateId>,
    dfn: Seq<usize>,
    low: Seq<usize>,
    onstack: Seq<bool>,
    scc: Seq<usize>,
    nscc: usize,
    done: Map<StateId, nat>,
    s: StateId,
    ks: int,
    k: int,
)
    requires
        scc_inv(fst, seen, stk, path, dfn, low, onstack, scc, nscc, done),
        stack_ordered(stk, seen, dfn, onstack, fst.states@.len()),
        path_ok(fst, stk, path, dfn),
        path.len() > 0,
        path.last() == s,
        0 <= ks < stk.len(),
        stk[ks] == s,
        ks <= k < stk.len(),
        dn(done, s) == fst.states@[s as int].trs@.len(),
    ensures
        dn(done, stk[k]) == fst.states@[stk[k] as int].trs@.len(),
        stk[k] != s ==> !path.contains(stk[k]),
{
    lemma_scc_unfold(fst, seen, stk, path, dfn, low, onstack, scc, nscc, done);
    let u = stk[k];
    if u != s {
        assert(k != ks);
        assert(dfn[stk[ks] as int] < dfn[stk[k] as int]);
        if path.contains(u) {
            let i = choose|i: int| 0 <= i < path.len() && path[i] == u;
            assert(path[path.len() - 1] == s);
            assert(i != path.len() - 1);
            assert(dfn[path[i] as int] < dfn[path[path.len() - 1] as int]);
        }
    }
}

/// The transitions of a popped state lead to popped states of its own
/// component or of one completed before.
#[verifier::spinoff_prover]
#[verifier::rlimit(30)]
proof fn lemma_pop_member_trs<W>(
    fst: VectorFst<W>,
    seen: Set<StateId>,
    stk: Seq<StateId>,
    path: Seq<StateId>,
    dfn: Seq<usize>,
    low: Seq<usize>,
    onstack: Seq<bool>,
    scc: Seq<usize>,
    nscc: usize,
    done: Map<StateId, nat>,
    s: StateId,
    ks: int,
    k: int,
    e: int,
)
    requires
        scc_inv(fst, seen, stk, path, dfn, low, onstack, scc, nscc, done),
        stack_ordered(stk, seen, dfn, onstack, fst.states@.len()),
        path_ok(fst, stk, path, dfn),
        nearest_ok(stk, path, dfn, low),
        forall|v: StateId| #[trigger] seen.contains(v) ==> v < fst.states@.len(),
        onstack.len() == fst.states@.len(),
        path.len() > 0,
        path.last() == s,
        0 <= ks < stk.len(),
        stk[ks] == s,
        low[s as int] == dfn[s as int],
        ks <= k < stk.len(),
        dn(done, s) == fst.states@[s as int].trs@.len(),
        0 <= e < fst.states@[stk[k] as int].trs@.len(),
    ensures
        ({
            let w = fst.states@[stk[k] as int].trs@[e].nextstate;
            &&& seen.contains(w)
            &&& w < fst.states@.len()
            &&& onstack[w as int] ==> exists|j: int| ks <= j < stk.len() && stk[j] == w
            &&& !onstack[w as int] ==> scc[w as int] < nscc
        }),
{
    let u = stk[k];
    lemma_pop_member_done(fst, seen, stk, path, dfn, low, onstack, scc, nscc, done, s, ks, k);
    lemma_scc_unfold(fst, seen, stk, path, dfn, low, onstack, scc, nscc, done);
    assert(explored_ok(fst, seen, dfn, low, onstack, stk[k], e));
    let w = fst.states@[u as int].trs@[e].nextstate;
    assert(seen.contains(w));
    if onstack[w as int] {
        assert(stk.contains(w));
        let j = choose|j: int| 0 <= j < stk.len() && stk[j] == w;
        if j < ks {
            assert(dfn[stk[j] as int] < dfn[stk[ks] as int]);
            if k > ks {
                assert(dfn[stk[ks] as int] < dfn[stk[k] as int]);
            }
            assert(low[u as int] <= dfn[w as int]);
            if u != s {
                let jp = path.len() - 1;
                assert(path[jp] == s);
                assert(!path.contains(stk[k]));
                assert(low[path[jp] as int] <= low[stk[k] as int]);
            }
            assert(false);
        }
    } else {
        assert(popped_ok(fst, seen, onstack, scc, nscc, w));
    }
}

/// Popping the component of the root `s`, at position `ks` of the stack,
/// numbers its states with `nscc`.
#[verifier::spinoff_prover]
#[verifier::rlimit(30)]
pub proof fn lemma_scc_pop<W>(
    fst: VectorFst<W>,
    seen: Set<StateId>,
    stk: Seq<StateId>,
    path: Seq<StateId>,
    dfn: Seq<usize>,
    low: Seq<usize>,
    onstack: Seq<bool>,
    scc: Seq<usize>,
    nscc: usize,
    done: Map<StateId, nat>,
    s: StateId,
    ks: int,
    onstack2: Seq<bool>,
    scc2: Seq<usize>,
)
    requires
        scc_inv(fst, seen, stk, path, dfn, low, onstack, scc, nscc, done),
        stack_ordered(stk, seen, dfn, onstack, fst.states@.len()),
        path_ok(fst, stk, path, dfn),
        nearest_ok(stk, path, dfn, low),
        forall|v: StateId| #[trigger] seen.contains(v) ==> v < fst.states@.len(),
        onstack.len() == fst.states@.len(),
        path.len() > 0,
        path.last() == s,
        0 <= ks < stk.len(),
        stk[ks] == s,
        low[s as int] == dfn[s as int],
        dn(done, s) == fst.states@[s as int].trs@.len(),
        forall|k: int| ks <= k < stk.len() ==> reachable(fst, #[trigger] stk[k], s),
        forall|k: int| ks <= k < stk.len() ==> reachable(fst, s, #[trigger] stk[k]),
        nscc < usize::MAX,
        onstack2.len() == fst.states@.len(),
        scc2.len() == fst.states@.len(),
        forall|v: int| 0 <= v < fst.states@.len() ==> (#[trigger] onstack2[v] <==> stk.take(ks).contains(v as StateId)),
        forall|v: int| 0 <= v < fst.states@.len() ==> #[trigger] scc2[v] == if onstack[v] && !onstack2[v] { nscc } else { scc[v] },
    ensures
        scc_inv(fst, seen, stk.take(ks), path, dfn, low, onstack2, scc2, (nscc + 1) as usize, done),
{
    reveal(scc_inv);
    let n = fst.states@.len();
    let stk2 = stk.take(ks);
    let nscc2 = (nscc + 1) as usize;
    // The states of the component are those taken off the stack.
    assert forall|v: int| 0 <= v < n && onstack[v] && !onstack2[v] implies exists|j: int| ks <= j < stk.len() && #[trigger] stk[j] == v as StateId by {
        let j = choose|j: int| 0 <= j < stk.len() && stk[j] == v as StateId;
        if j < ks {
            assert(stk2[j] == v as StateId);
        }
    }
    assert forall|j: int| ks <= j < stk.len() implies !onstack2[#[trigger] stk[j] as int] && onstack[stk[j] as int] by {
        if stk2.contains(stk[j]) {
            let i = choose|i: int| 0 <= i < stk2.len() && stk2[i] == stk[j];
            assert(stk[i] == stk[j]);
            assert(dfn[stk[i] as int] < dfn[stk[j] as int]);
        }
    }
    assert forall|v: int| 0 <= v < n && onstack2[v] implies #[trigger] onstack[v] by {
        let i = choose|i: int| 0 <= i < stk2.len() && stk2[i] == v as StateId;
        assert(stk[i] == v as StateId);
    }
    assert forall|k: int| 0 <= k < stk2.len() implies dn(done, #[trigger] stk2[k]) <= fst.states@[stk2[k] as int].trs@.len() by {
        assert(stk2[k] == stk[k]);
    }
    assert forall|k: int| 0 <= k < stk2.len() && !path.contains(stk2[k]) implies dn(done, #[trigger] stk2[k]) == fst.states@[stk2[k] as int].trs@.len() by {
        assert(stk2[k] == stk[k]);
    }
    assert forall|k: int, e: int| 0 <= k < stk2.len() && 0 <= e < dn(done, stk2[k]) implies #[trigger] explored_ok(fst, seen, dfn, low, onstack2, stk2[k], e) by {
        assert(stk2[k] == stk[k]);
        assert(explored_ok(fst, seen, dfn, low, onstack, stk[k], e));
        let w = fst.states@[stk[k] as int].trs@[e].nextstate;
        assert(w < n);
        if onstack2[w as int] {
            assert(onstack[w as int]);
        }
    }
    assert forall|u: StateId| u < n && seen.contains(u) && !onstack2[u as int] implies #[trigger] popped_ok(fst, seen, onstack2, scc2, nscc2, u) by {
        if onstack[u as int] {
            let k = choose|j: int| ks <= j < stk.len() && #[trigger] stk[j] == u;
            assert(scc2[u as int] == nscc);
            assert forall|e: int| 0 <= e < fst.states@[u as int].trs@.len() implies {
                let w = #[trigger] fst.states@[u as int].trs@[e].nextstate;
                &&& seen.contains(w)
                &&& !onstack2[w as int]
                &&& scc2[w as int] <= scc2[u as int]
            } by {
                lemma_pop_member_trs(fst, seen, stk, path, dfn, low, onstack, scc, nscc, done, s, ks, k, e);
                let w = fst.states@[u as int].trs@[e].nextstate;
                if onstack[w as int] {
                    let j = choose|j: int| ks <= j < stk.len() && stk[j] == w;
                    assert(!onstack2[stk[j] as int]);
                }
            }
        } else {
            assert(popped_ok(fst, seen, onstack, scc, nscc, u));
            assert forall|e: int| 0 <= e < fst.states@[u as int].trs@.len() implies {
                let w = #[trigger] fst.states@[u as int].trs@[e].nextstate;
                &&& seen.contains(w)
                &&& !onstack2[w as int]
                &&& scc2[w as int] <= scc2[u as int]
            } by {
                let w = fst.states@[u as int].trs@[e].nextstate;
                assert(seen.contains(w) && !onstack[w as int]);
                assert(w < n);
            }
        }
    }
    assert forall|u: StateId, v: StateId| #![trigger scc2[u as int], scc2[v as int]]
        u < n && v < n && seen.contains(u) && !onstack2[u as int] && seen.contains(v) && !onstack2[v as int] && scc2[u as int] == scc2[v as int]
        implies reachable(fst, u, v) by {
        if onstack[u as int] && onstack[v as int] {
            let ku = choose|j: int| ks <= j < stk.len() && #[trigger] stk[j] == u;
            let kv = choose|j: int| ks <= j < stk.len() && #[trigger] stk[j] == v;
            assert(reachable(fst, stk[ku], s));
            assert(reachable(fst, s, stk[kv]));
            lemma_reachable_trans(fst, u, s, v);
        } else if onstack[u as int] {
            assert(popped_ok(fst, seen, onstack, scc, nscc, v));
        } else if onstack[v as int] {
            assert(popped_ok(fst, seen, onstack, scc, nscc, u));
        } else {
            assert(scc[u as int] == scc[v as int]);
        }
    }
    assert forall|c: usize| c < nscc2 implies #[trigger] comp_used(fst, seen, onstack2, scc2, c) by {
        if c == nscc {
            assert(!onstack2[stk[ks] as int] && onstack[stk[ks] as int]);
            assert(seen.contains(stk[ks]));
            assert(scc2[s as int] == nscc);
        } else {
            assert(comp_used(fst, seen, onstack, scc, c));
            let u = choose|u: StateId| u < fst.states@.len() && seen.contains(u) && !onstack[u as int] && #[trigger] scc[u as int] == c;
            assert(!onstack2[u as int]);
            assert(scc2[u as int] == scc[u as int]);
        }
    }
}

/// Once the search is over, with every state discovered and none on the
/// stack, each transition leads to a state of the same component or of one
/// completed earlier, and the states of a component reach each other.
#[verifier::spinoff_prover]
#[verifier::rlimit(30)]
pub proof fn lemma_scc_complete<W>(
    fst: VectorFst<W>,
    seen: Set<StateId>,
    stk: Seq<StateId>,
    path: Seq<StateId>,
    dfn: Seq<usize>,
    low: Seq<usize>,
    onstack: Seq<bool>,
    scc: Seq<usize>,
    nscc: usize,
    done: Map<StateId, nat>,
)
    requires
        scc_inv(fst, seen, stk, path, dfn, low, onstack, scc, nscc, done),
        fst.states@.len() <= usize::MAX,
        forall|v: int| 0 <= v < fst.states@.len() ==> #[trigger] seen.contains(v as StateId),
        forall|v: int| 0 <= v < fst.states@.len() ==> !#[trigger] onstack[v],
    ensures
        scc.len() == fst.states@.len(),
        forall|u: int, e: int| 0 <= u < fst.states@.len() && 0 <= e < fst.states@[u].trs@.len()
            ==> #[trigger] scc[fst.states@[u].trs@[e].nextstate as int] <= scc[u],
        forall|u: StateId, v: StateId| #![trigger scc[u as int], scc[v as int]]
            u < fst.states@.len() && v < fst.states@.len() && scc[u as int] == scc[v as int] ==> reachable(fst, u, v),
        forall|u: int| 0 <= u < fst.states@.len() ==> #[trigger] scc[u] < nscc,
        forall|c: usize| c < nscc ==> #[trigger] comp_present(scc, fst.states@.len(), c),
{
    reveal(scc_inv);
    assert forall|u: int, e: int| 0 <= u < fst.states@.len() && 0 <= e < fst.states@[u].trs@.len()
        implies #[trigger] scc[fst.states@[u].trs@[e].nextstate as int] <= scc[u] by {
        assert(seen.contains(u as StateId));
        assert(popped_ok(fst, seen, onstack, scc, nscc, u as StateId));
    }
    assert forall|u: StateId, v: StateId| #![trigger scc[u as int], scc[v as int]]
        u < fst.states@.len() && v < fst.states@.len() && scc[u as int] == scc[v as int] implies reachable(fst, u, v) by {
        let ui: int = u as int;
        let vi: int = v as int;
        assert(seen.contains(ui as StateId) && seen.contains(vi as StateId));
        assert(!onstack[ui] && !onstack[vi]);
    }
    assert forall|u: int| 0 <= u < fst.states@.len() implies #[trigger] scc[u] < nscc by {
        assert(seen.contains(u as StateId));
        assert(popped_ok(fst, seen, onstack, scc, nscc, u as StateId));
    }
    assert forall|c: usize| c < nscc implies #[trigger] comp_present(scc, fst.states@.len(), c) by {
        assert(comp_used(fst, seen, onstack, scc, c));
        let u = choose|u: StateId| u < fst.states@.len() && seen.contains(u) && !onstack[u as int] && #[trigger] scc[u as int] == c;
        assert(scc[u as int] == c);
    }
}

/// Where no transition leads to a higher component, no state reaches a
/// state of a higher component.
#[verifier::spinoff_prover]
#[verifier::rlimit(30)]
pub proof fn lemma_scc_reach_down<W: Semiring>(fst: VectorFst<W>, scc: Seq<usize>, a: StateId, b: StateId)
    requires
        fst.wf(),
        scc.len() == fst.states@.len(),
        forall|u: int, e: int| 0 <= u < fst.states@.len() && 0 <= e < fst.states@[u].trs@.len()
            ==> #[trigger] scc[fst.states@[u].trs@[e].nextstate as int] <= scc[u],
        reachable(fst, a, b),
        a < fst.states@.len(),
    ensures
        scc[b as int] <= scc[a as int],
{
    let path = choose|path: Seq<StateId>| #[trigger] is_path(fst, path) && path[0] == a && path.last() == b;
    assert forall|i: int| 0 <= i < path.len() implies path[i] < fst.states@.len() && #[trigger] scc[path[i] as int] <= scc[a as int] by {
        lemma_path_down(fst, scc, path, a, i);
    }
    assert(scc[path[path.len() - 1] as int] <= scc[a as int]);
}

#[verifier::spinoff_prover]
#[verifier::rlimit(30)]
proof fn lemma_path_down<W: Semiring>(fst: VectorFst<W>, scc: Seq<usize>, path: Seq<StateId>, a: StateId, i: int)
    requires
        fst.wf(),
        scc.len() == fst.states@.len(),
        forall|u: int, e: int| 0 <= u < fst.states@.len() && 0 <= e < fst.states@[u].trs@.len()
            ==> #[trigger] scc[fst.states@[u].trs@[e].nextstate as int] <= scc[u],
        is_path(fst, path),
        path[0] == a,
        a < fst.states@.len(),
        0 <= i < path.len(),
    ensures
        path[i] < fst.states@.len(),
        scc[path[i] as int] <= scc[a as int],
    decreases i,
{
    if i > 0 {
        lemma_path_down(fst, scc, path, a, i - 1);
        assert(edge(fst, path[i - 1], path[i]));
        let e = choose|e: int| 0 <= e < fst.states@[path[i - 1] as int].trs@.len() && #[trigger] fst.states@[path[i - 1] as int].trs@[e].nextstate == path[i];
        assert(scc[fst.states@[path[i - 1] as int].trs@[e].nextstate as int] <= scc[path[i - 1] as int]);
        assert(fst.states@[path[i - 1] as int].trs@[e].nextstate < fst.states@.len());
    }
}

} // verus!
