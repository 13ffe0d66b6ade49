use vstd::prelude::*;

use crate::connect::{dfs_visit, edge, is_path, reachable, SccVisitor, Visitor};
use crate::tarjan::{comp_present, lemma_scc_complete, lemma_scc_reach_down};
use crate::fst::{FstError, Tr, VectorFst};
use crate::semirings::Semiring;
use crate::StateId;

verus! {

/// The final weight a condensed state gets from the input states of its
/// component among the first `upto`: the sum of their final weights, in state order.
pub open spec fn component_final<W: Semiring>(ifst: VectorFst<W>, scc: Seq<usize>, c: usize, upto: int) -> Option<W>
    decreases upto,
{
    if upto <= 0 {
        None
    } else {
        let prev = component_final(ifst, scc, c, upto - 1);
        let s = upto - 1;
        if scc[s] == c {
            match ifst.states@[s].final_weight {
                Some(fw) => match prev {
                    Some(w) => Some(W::plus_spec(w, fw)),
                    None => Some(fw),
                },
                None => prev,
            }
        } else {
            prev
        }
    }
}

/// The condensed final weight is present exactly when some state of the
/// component among the first `upto` is final.
pub proof fn lemma_component_final_some<W: Semiring>(ifst: VectorFst<W>, scc: Seq<usize>, c: usize, upto: int)
    ensures
        component_final(ifst, scc, c, upto) is Some <==> exists|f: int| 0 <= f < upto && scc[f] == c
            && #[trigger] ifst.states@[f].final_weight is Some,
    decreases upto,
{
    if upto > 0 {
        lemma_component_final_some(ifst, scc, c, upto - 1);
        let s = upto - 1;
        if component_final(ifst, scc, c, upto - 1) is Some {
            let f = choose|f: int| 0 <= f < upto - 1 && scc[f] == c && #[trigger] ifst.states@[f].final_weight is Some;
            assert(0 <= f < upto && scc[f] == c && ifst.states@[f].final_weight is Some);
        }
        if exists|f: int| 0 <= f < upto && scc[f] == c && #[trigger] ifst.states@[f].final_weight is Some {
            let f = choose|f: int| 0 <= f < upto && scc[f] == c && #[trigger] ifst.states@[f].final_weight is Some;
            if f < upto - 1 {
                assert(exists|g: int| 0 <= g < upto - 1 && scc[g] == c && #[trigger] ifst.states@[g].final_weight is Some);
            }
        }
    }
}

/// Whether a state lies in component `c` and is final.
pub open spec fn final_in_component<W>(ifst: VectorFst<W>, scc: Seq<usize>, c: usize) -> spec_fn(int) -> bool {
    |i: int| scc[i] == c && ifst.states@[i].final_weight is Some
}

/// The final weights of the final states of component `c` among the first
/// `upto`, in state order.
pub open spec fn component_final_weights<W>(ifst: VectorFst<W>, scc: Seq<usize>, c: usize, upto: int) -> Seq<W> {
    Seq::new(upto as nat, |i: int| i).filter(final_in_component(ifst, scc, c)).map_values(
        |i: int| ifst.states@[i].final_weight->0,
    )
}

/// The semiring sum of a non-empty sequence of weights, from the left.
pub open spec fn plus_all<W: Semiring>(ws: Seq<W>) -> W {
    ws.drop_first().fold_left(ws[0], |a: W, b: W| W::plus_spec(a, b))
}

/// The final weight of a condensed state is the semiring sum, in state
/// order, of the final weights of the final states of its component; it is
/// not final where the component holds no final state.
pub proof fn lemma_condense_final_sum<W: Semiring>(ifst: VectorFst<W>, scc: Seq<usize>, c: usize, upto: int)
    requires
        0 <= upto,
    ensures
        component_final(ifst, scc, c, upto) == if component_final_weights(ifst, scc, c, upto).len() == 0 {
            None
        } else {
            Some(plus_all(component_final_weights(ifst, scc, c, upto)))
        },
    decreases upto,
{
    if upto > 0 {
        lemma_condense_final_sum(ifst, scc, c, upto - 1);
        let pred = final_in_component(ifst, scc, c);
        let fw = |i: int| ifst.states@[i].final_weight->0;
        let idx0 = Seq::new((upto - 1) as nat, |i: int| i);
        let idx = Seq::new(upto as nat, |i: int| i);
        let x = upto - 1;
        assert(idx =~= idx0.push(x));
        idx0.lemma_filter_push(x, pred);
        let sel0 = idx0.filter(pred);
        let ws0 = sel0.map_values(fw);
        let ws = component_final_weights(ifst, scc, c, upto);
        assert(ws0 == component_final_weights(ifst, scc, c, upto - 1));
        if pred(x) {
            sel0.lemma_push_map_commute(fw, x);
            assert(ws =~= ws0.push(fw(x)));
            assert(scc[x] == c);
            let w = ifst.states@[x].final_weight->0;
            if ws0.len() == 0 {
                assert(ws.drop_first() =~= Seq::<W>::empty());
                assert(ws[0] == w);
            } else {
                assert(ws.drop_first() =~= ws0.drop_first().push(w));
                assert(ws.drop_first().drop_last() =~= ws0.drop_first());
                assert(ws[0] == ws0[0]);
            }
        } else {
            assert(ws =~= ws0);
        }
    }
}

/// A condensed state whose component holds no final state is not final.
pub proof fn lemma_condense_final_none<W: Semiring>(ifst: VectorFst<W>, scc: Seq<usize>, c: usize)
    requires
        forall|f: int| 0 <= f < ifst.states@.len() && scc[f] == c ==> (#[trigger] ifst.states@[f]).final_weight is None,
    ensures
        component_final(ifst, scc, c, ifst.states@.len() as int) is None,
{
    lemma_component_final_some(ifst, scc, c, ifst.states@.len() as int);
}

proof fn lemma_component_final_one<W: Semiring>(ifst: VectorFst<W>, scc: Seq<usize>, c: usize, u: int, upto: int)
    requires
        0 <= u,
        scc[u] == c,
        ifst.states@[u].final_weight is Some,
        forall|f: int| 0 <= f < upto && f != u && scc[f] == c ==> (#[trigger] ifst.states@[f]).final_weight is None,
    ensures
        component_final(ifst, scc, c, upto) == if upto <= u { None } else { ifst.states@[u].final_weight },
    decreases upto,
{
    if upto > 0 {
        lemma_component_final_one(ifst, scc, c, u, upto - 1);
        let s = upto - 1;
        if s != u && scc[s] == c {
            assert(ifst.states@[s].final_weight is None);
        }
    }
}

/// A condensed state whose component holds exactly one final state `u` has
/// the final weight of `u`.
pub proof fn lemma_condense_final_one<W: Semiring>(ifst: VectorFst<W>, scc: Seq<usize>, c: usize, u: int)
    requires
        0 <= u < ifst.states@.len(),
        scc[u] == c,
        ifst.states@[u].final_weight is Some,
        forall|f: int| 0 <= f < ifst.states@.len() && f != u && scc[f] == c ==> (#[trigger] ifst.states@[f]).final_weight is None,
    ensures
        component_final(ifst, scc, c, ifst.states@.len() as int) == ifst.states@[u].final_weight,
{
    lemma_component_final_one(ifst, scc, c, u, ifst.states@.len() as int);
}

proof fn lemma_component_final_two<W: Semiring>(ifst: VectorFst<W>, scc: Seq<usize>, c: usize, u: int, v: int, upto: int)
    requires
        0 <= u < v,
        scc[u] == c,
        scc[v] == c,
        ifst.states@[u].final_weight is Some,
        ifst.states@[v].final_weight is Some,
        forall|f: int| 0 <= f < upto && f != u && f != v && scc[f] == c ==> (#[trigger] ifst.states@[f]).final_weight is None,
    ensures
        component_final(ifst, scc, c, upto) == if upto <= u {
            None
        } else if upto <= v {
            ifst.states@[u].final_weight
        } else {
            Some(W::plus_spec(ifst.states@[u].final_weight->0, ifst.states@[v].final_weight->0))
        },
    decreases upto,
{
    if upto > 0 {
        if upto <= v {
            lemma_component_final_one(ifst, scc, c, u, upto);
        } else {
            lemma_component_final_two(ifst, scc, c, u, v, upto - 1);
            let s = upto - 1;
            if s != v && scc[s] == c {
                assert(ifst.states@[s].final_weight is None);
            }
        }
    }
}

/// A condensed state whose component holds exactly two final states, `u`
/// before `v`, has as final weight the semiring sum of their final weights.
pub proof fn lemma_condense_final_two<W: Semiring>(ifst: VectorFst<W>, scc: Seq<usize>, c: usize, u: int, v: int)
    requires
        0 <= u < v < ifst.states@.len(),
        scc[u] == c,
        scc[v] == c,
        ifst.states@[u].final_weight is Some,
        ifst.states@[v].final_weight is Some,
        forall|f: int| 0 <= f < ifst.states@.len() && f != u && f != v && scc[f] == c ==> (#[trigger] ifst.states@[f]).final_weight is None,
    ensures
        component_final(ifst, scc, c, ifst.states@.len() as int)
            == Some(W::plus_spec(ifst.states@[u].final_weight->0, ifst.states@[v].final_weight->0)),
{
    lemma_component_final_two(ifst, scc, c, u, v, ifst.states@.len() as int);
}

/// The number of the first `upto` states in component `c`.
pub open spec fn count_comp(scc: Seq<usize>, c: usize, upto: int) -> nat
    decreases upto,
{
    if upto <= 0 {
        0
    } else {
        count_comp(scc, c, upto - 1) + if scc[upto - 1] == c { 1nat } else { 0nat }
    }
}

/// Two states of component `c` among the first `upto` are counted.
pub proof fn lemma_count_two(scc: Seq<usize>, c: usize, upto: int, a: int, b: int)
    requires
        0 <= a < upto,
        0 <= b < upto,
        scc[a] == c,
        scc[b] == c,
    ensures
        count_comp(scc, c, upto) >= if a == b { 1nat } else { 2nat },
    decreases upto,
{
    let m = upto - 1;
    if a == m && b == m {
    } else if a == m {
        lemma_count_two(scc, c, m, b, b);
    } else if b == m {
        lemma_count_two(scc, c, m, a, a);
    } else {
        lemma_count_two(scc, c, m, a, b);
    }
}

/// A counted component has a state among the first `upto`.
pub proof fn lemma_count_member(scc: Seq<usize>, c: usize, upto: int)
    requires
        count_comp(scc, c, upto) >= 1,
    ensures
        exists|g: int| 0 <= g < upto && #[trigger] scc[g] == c,
    decreases upto,
{
    if upto > 0 {
        if scc[upto - 1] != c {
            lemma_count_member(scc, c, upto - 1);
            let g = choose|g: int| 0 <= g < upto - 1 && #[trigger] scc[g] == c;
            assert(0 <= g < upto);
        }
    }
}

/// A component counted more than once has a state other than `f`.
pub proof fn lemma_count_other(scc: Seq<usize>, c: usize, upto: int, f: int)
    requires
        count_comp(scc, c, upto) > 1,
        0 <= f < upto,
        scc[f] == c,
    ensures
        exists|g: int| 0 <= g < upto && g != f && #[trigger] scc[g] == c,
    decreases upto,
{
    let m = upto - 1;
    if scc[m] == c && m != f {
        assert(0 <= m < upto && m != f && scc[m] == c);
    } else if m == f {
        lemma_count_member(scc, c, m);
        let g = choose|g: int| 0 <= g < m && #[trigger] scc[g] == c;
        assert(0 <= g < upto && g != f);
    } else {
        lemma_count_other(scc, c, m, f);
        let g = choose|g: int| 0 <= g < m && g != f && #[trigger] scc[g] == c;
        assert(0 <= g < upto);
    }
}

/// The transitions of `trs` that leave component `c`, each redirected to the
/// component of its destination, in order.
pub open spec fn trs_condensed<W>(trs: Seq<Tr<W>>, scc: Seq<usize>, c: usize) -> Seq<Tr<W>>
    decreases trs.len(),
{
    if trs.len() == 0 {
        Seq::empty()
    } else {
        let p = trs_condensed(trs.drop_last(), scc, c);
        let t = trs.last();
        if scc[t.nextstate as int] != c {
            p.push(Tr { nextstate: scc[t.nextstate as int], ..t })
        } else {
            p
        }
    }
}

/// The transitions a condensed state gets from the input states of its
/// component among the first `upto`, in state order.
pub open spec fn component_trs<W>(ifst: VectorFst<W>, scc: Seq<usize>, c: usize, upto: int) -> Seq<Tr<W>>
    decreases upto,
{
    if upto <= 0 {
        Seq::empty()
    } else {
        component_trs(ifst, scc, c, upto - 1) + if scc[upto - 1] == c {
            trs_condensed(ifst.states@[upto - 1].trs@, scc, c)
        } else {
            Seq::empty()
        }
    }
}

/// A transition led to the component of its destination.
pub open spec fn redirected<W>(t: Tr<W>, scc: Seq<usize>) -> Tr<W> {
    Tr { nextstate: scc[t.nextstate as int], ..t }
}

/// Each condensed transition out of `trs` is one of them that leaves `c`,
/// led to the component of its destination.
proof fn lemma_trs_condensed_source<W>(trs: Seq<Tr<W>>, scc: Seq<usize>, c: usize, k: int)
    requires
        0 <= k < trs_condensed(trs, scc, c).len(),
    ensures
        exists|j: int| 0 <= j < trs.len() && scc[trs[j].nextstate as int] != c
            && trs_condensed(trs, scc, c)[k] == redirected(#[trigger] trs[j], scc),
    decreases trs.len(),
{
    let p = trs_condensed(trs.drop_last(), scc, c);
    if k < p.len() {
        lemma_trs_condensed_source(trs.drop_last(), scc, c, k);
        let j = choose|j: int| 0 <= j < trs.drop_last().len() && scc[trs.drop_last()[j].nextstate as int] != c
            && trs_condensed(trs.drop_last(), scc, c)[k] == redirected(#[trigger] trs.drop_last()[j], scc);
        assert(trs.drop_last()[j] == trs[j]);
        assert(trs_condensed(trs, scc, c)[k] == p[k]);
    } else {
        let j = trs.len() - 1;
        assert(trs_condensed(trs, scc, c)[k] == redirected(trs[j], scc));
    }
}

/// Each transition a condensed state gets from the first `upto` input states
/// is a transition of one of its states that leaves the component, led to the
/// component of its destination.
pub proof fn lemma_component_trs_source<W>(ifst: VectorFst<W>, scc: Seq<usize>, c: usize, upto: int, k: int)
    requires
        0 <= k < component_trs(ifst, scc, c, upto).len(),
        upto <= ifst.states@.len(),
        upto <= usize::MAX,
    ensures
        exists|x: StateId, j: int| x < upto && scc[x as int] == c && 0 <= j < ifst.states@[x as int].trs@.len()
            && scc[ifst.states@[x as int].trs@[j].nextstate as int] != c
            && component_trs(ifst, scc, c, upto)[k] == redirected(#[trigger] ifst.states@[x as int].trs@[j], scc),
    decreases upto,
{
    let prev = component_trs(ifst, scc, c, upto - 1);
    let x = upto - 1;
    if k < prev.len() {
        lemma_component_trs_source(ifst, scc, c, upto - 1, k);
        let (y, j) = choose|y: StateId, j: int| y < upto - 1 && scc[y as int] == c && 0 <= j < ifst.states@[y as int].trs@.len()
            && scc[ifst.states@[y as int].trs@[j].nextstate as int] != c
            && component_trs(ifst, scc, c, upto - 1)[k] == redirected(#[trigger] ifst.states@[y as int].trs@[j], scc);
        assert(component_trs(ifst, scc, c, upto)[k] == prev[k]);
        assert(y < upto && scc[y as int] == c);
    } else {
        let trs = ifst.states@[x].trs@;
        assert(scc[x] == c);
        lemma_trs_condensed_source(trs, scc, c, k - prev.len());
        let j = choose|j: int| 0 <= j < trs.len() && scc[trs[j].nextstate as int] != c
            && trs_condensed(trs, scc, c)[k - prev.len()] == redirected(#[trigger] trs[j], scc);
        assert(component_trs(ifst, scc, c, upto)[k] == trs_condensed(trs, scc, c)[k - prev.len()]);
        let xs = x as StateId;
        assert(xs as int == x);
        assert(xs < upto && scc[xs as int] == c && 0 <= j < ifst.states@[xs as int].trs@.len());
        assert(ifst.states@[xs as int].trs@[j] == trs[j]);
    }
}

proof fn lemma_lift_path<W: Semiring>(ifst: VectorFst<W>, scc: Seq<usize>, cfst: VectorFst<W>, path: Seq<StateId>, u: StateId, f: StateId)
    requires
        ifst.wf(),
        ifst.states@.len() <= usize::MAX,
        scc.len() == ifst.states@.len(),
        forall|c: int| 0 <= c < cfst.states@.len() ==> #[trigger] cfst.states@[c].trs@
            == component_trs(ifst, scc, c as usize, ifst.states@.len() as int),
        forall|a: StateId, b: StateId| #![trigger scc[a as int], scc[b as int]] a < scc.len() && b < scc.len()
            ==> (scc[a as int] == scc[b as int] <==> reachable(ifst, a, b) && reachable(ifst, b, a)),
        u < ifst.states@.len(),
        f < ifst.states@.len(),
        is_path(cfst, path),
        path[0] == scc[u as int],
        path.last() == scc[f as int],
    ensures
        reachable(ifst, u, f),
    decreases path.len(),
{
    if path.len() == 1 {
        assert(scc[u as int] == scc[f as int]);
    } else {
        let c = path[0];
        assert(edge(cfst, path[0], path[1]));
        let k = choose|k: int| 0 <= k < cfst.states@[c as int].trs@.len() && #[trigger] cfst.states@[c as int].trs@[k].nextstate == path[1];
        assert(cfst.states@[c as int].trs@ == component_trs(ifst, scc, c, ifst.states@.len() as int));
        lemma_component_trs_source(ifst, scc, c, ifst.states@.len() as int, k);
        let (x, j) = choose|x: StateId, j: int| x < ifst.states@.len() && scc[x as int] == c && 0 <= j < ifst.states@[x as int].trs@.len()
            && scc[ifst.states@[x as int].trs@[j].nextstate as int] != c
            && component_trs(ifst, scc, c, ifst.states@.len() as int)[k] == redirected(#[trigger] ifst.states@[x as int].trs@[j], scc);
        let y = ifst.states@[x as int].trs@[j].nextstate;
        assert(y < ifst.states@.len());
        assert(scc[u as int] == scc[x as int]);
        assert(reachable(ifst, u, x));
        assert(edge(ifst, x, y));
        crate::connect::lemma_edge_reachable(ifst, x, y);
        let rest = path.drop_first();
        assert(is_path(cfst, rest)) by {
            assert forall|i: int| 0 <= i < rest.len() - 1 implies edge(cfst, #[trigger] rest[i], rest[i + 1]) by {
                assert(rest[i] == path[i + 1] && rest[i + 1] == path[i + 2]);
            }
        }
        lemma_lift_path(ifst, scc, cfst, rest, y, f);
        crate::connect::lemma_reachable_trans(ifst, u, x, y);
        crate::connect::lemma_reachable_trans(ifst, u, y, f);
    }
}

/// A transition of `trs` that leaves component `c` has a condensed copy that
/// leads to the component of its destination.
proof fn lemma_trs_condensed_has<W>(trs: Seq<Tr<W>>, scc: Seq<usize>, c: usize, j: int)
    requires
        0 <= j < trs.len(),
        scc[trs[j].nextstate as int] != c,
    ensures
        exists|k: int| 0 <= k < trs_condensed(trs, scc, c).len()
            && #[trigger] trs_condensed(trs, scc, c)[k] == redirected(trs[j], scc),
    decreases trs.len(),
{
    let p = trs_condensed(trs.drop_last(), scc, c);
    if j == trs.len() - 1 {
        assert(trs_condensed(trs, scc, c)[p.len() as int] == redirected(trs[j], scc));
    } else {
        assert(trs.drop_last()[j] == trs[j]);
        lemma_trs_condensed_has(trs.drop_last(), scc, c, j);
        let k = choose|k: int| 0 <= k < p.len() && #[trigger] p[k] == redirected(trs.drop_last()[j], scc);
        assert(trs_condensed(trs, scc, c)[k] == p[k]);
    }
}

/// Each transition of a state of component `c` among the first `upto` that
/// leaves the component is among the transitions of the condensed state, led
/// to the component of its destination.
pub proof fn lemma_component_trs_has<W>(ifst: VectorFst<W>, scc: Seq<usize>, c: usize, upto: int, x: int, j: int)
    requires
        0 <= x < upto,
        scc[x] == c,
        0 <= j < ifst.states@[x].trs@.len(),
        scc[ifst.states@[x].trs@[j].nextstate as int] != c,
    ensures
        exists|k: int| 0 <= k < component_trs(ifst, scc, c, upto).len()
            && #[trigger] component_trs(ifst, scc, c, upto)[k] == redirected(ifst.states@[x].trs@[j], scc),
    decreases upto,
{
    let prev = component_trs(ifst, scc, c, upto - 1);
    let t = ifst.states@[x].trs@[j];
    if x == upto - 1 {
        let trs = ifst.states@[x].trs@;
        lemma_trs_condensed_has(trs, scc, c, j);
        let k = choose|k: int| 0 <= k < trs_condensed(trs, scc, c).len()
            && #[trigger] trs_condensed(trs, scc, c)[k] == redirected(trs[j], scc);
        assert(component_trs(ifst, scc, c, upto)[prev.len() + k] == trs_condensed(trs, scc, c)[k]);
    } else {
        lemma_component_trs_has(ifst, scc, c, upto - 1, x, j);
        let k = choose|k: int| 0 <= k < prev.len() && #[trigger] prev[k] == redirected(t, scc);
        assert(component_trs(ifst, scc, c, upto)[k] == prev[k]);
    }
}

proof fn lemma_project_path<W: Semiring>(ifst: VectorFst<W>, scc: Seq<usize>, cfst: VectorFst<W>, path: Seq<StateId>)
    requires
        ifst.wf(),
        scc.len() == ifst.states@.len(),
        forall|s: int| 0 <= s < scc.len() ==> #[trigger] scc[s] < cfst.states@.len(),
        forall|c: int| 0 <= c < cfst.states@.len() ==> #[trigger] cfst.states@[c].trs@
            == component_trs(ifst, scc, c as usize, ifst.states@.len() as int),
        is_path(ifst, path),
        path[0] < ifst.states@.len(),
    ensures
        reachable(cfst, scc[path[0] as int], scc[path.last() as int]),
    decreases path.len(),
{
    if path.len() == 1 {
        crate::connect::lemma_reachable_refl(cfst, scc[path[0] as int]);
    } else {
        let x = path[0];
        let y = path[1];
        assert(edge(ifst, x, y));
        let j = choose|j: int| 0 <= j < ifst.states@[x as int].trs@.len() && #[trigger] ifst.states@[x as int].trs@[j].nextstate == y;
        assert(y < ifst.states@.len());
        let rest = path.drop_first();
        assert(is_path(ifst, rest)) by {
            assert forall|i: int| 0 <= i < rest.len() - 1 implies edge(ifst, #[trigger] rest[i], rest[i + 1]) by {
                assert(rest[i] == path[i + 1] && rest[i + 1] == path[i + 2]);
            }
        }
        lemma_project_path(ifst, scc, cfst, rest);
        assert(rest[0] == y && rest.last() == path.last());
        if scc[x as int] != scc[y as int] {
            let c = scc[x as int];
            lemma_component_trs_has(ifst, scc, c, ifst.states@.len() as int, x as int, j);
            let k = choose|k: int| 0 <= k < component_trs(ifst, scc, c, ifst.states@.len() as int).len()
                && #[trigger] component_trs(ifst, scc, c, ifst.states@.len() as int)[k] == redirected(ifst.states@[x as int].trs@[j], scc);
            assert(cfst.states@[c as int].trs@ == component_trs(ifst, scc, c, ifst.states@.len() as int));
            assert(cfst.states@[c as int].trs@[k].nextstate == scc[y as int]);
            assert(edge(cfst, c, scc[y as int]));
            crate::connect::lemma_edge_reachable(cfst, c, scc[y as int]);
            crate::connect::lemma_reachable_trans(cfst, c, scc[y as int], scc[path.last() as int]);
        }
    }
}

/// Where the input reaches `f` from `u`, the condensation reaches the
/// component of `f` from that of `u`.
pub proof fn lemma_condensed_reach_projects<W: Semiring>(ifst: VectorFst<W>, scc: Seq<usize>, cfst: VectorFst<W>, u: StateId, f: StateId)
    requires
        ifst.wf(),
        scc.len() == ifst.states@.len(),
        forall|s: int| 0 <= s < scc.len() ==> #[trigger] scc[s] < cfst.states@.len(),
        forall|c: int| 0 <= c < cfst.states@.len() ==> #[trigger] cfst.states@[c].trs@
            == component_trs(ifst, scc, c as usize, ifst.states@.len() as int),
        u < ifst.states@.len(),
        reachable(ifst, u, f),
    ensures
        reachable(cfst, scc[u as int], scc[f as int]),
{
    let path = choose|path: Seq<StateId>| #[trigger] is_path(ifst, path) && path[0] == u && path.last() == f;
    lemma_project_path(ifst, scc, cfst, path);
}

/// Where the condensation reaches the component of `f` from that of `u`,
/// the input reaches `f` from `u`.
pub proof fn lemma_condensed_reach_lifts<W: Semiring>(ifst: VectorFst<W>, scc: Seq<usize>, cfst: VectorFst<W>, u: StateId, f: StateId)
    requires
        ifst.wf(),
        ifst.states@.len() <= usize::MAX,
        scc.len() == ifst.states@.len(),
        forall|c: int| 0 <= c < cfst.states@.len() ==> #[trigger] cfst.states@[c].trs@
            == component_trs(ifst, scc, c as usize, ifst.states@.len() as int),
        forall|a: StateId, b: StateId| #![trigger scc[a as int], scc[b as int]] a < scc.len() && b < scc.len()
            ==> (scc[a as int] == scc[b as int] <==> reachable(ifst, a, b) && reachable(ifst, b, a)),
        u < ifst.states@.len(),
        f < ifst.states@.len(),
        reachable(cfst, scc[u as int] as StateId, scc[f as int] as StateId),
    ensures
        reachable(ifst, u, f),
{
    let path = choose|path: Seq<StateId>| #[trigger] is_path(cfst, path) && path[0] == scc[u as int] as StateId
        && path.last() == scc[f as int] as StateId;
    lemma_lift_path(ifst, scc, cfst, path, u, f);
}

/// Returns an acyclic FST where each strongly connected component of the input
/// has been condensed to a single state, with transitions between components
/// retained and transitions within components dropped. Also returns the
/// component of each input state.
pub fn condense<W: Semiring>(ifst: &VectorFst<W>) -> (r: Result<(Vec<usize>, VectorFst<W>), FstError>)
    requires
        ifst.wf(),
        ifst.states@.len() > 0 ==> ifst.start_state is Some,
    ensures
        r is Ok,
        r matches Ok((scc, ofst)) ==> {
            &&& ofst.wf()
            &&& scc@.len() == ifst.states@.len()
            &&& forall|s: int| 0 <= s < scc@.len() ==> #[trigger] scc@[s] < ofst.states@.len()
            &&& forall|c: usize| c < ofst.states@.len() ==> #[trigger] comp_present(scc@, scc@.len(), c)
            &&& ofst.states@.len() <= ifst.states@.len()
            &&& (ifst.start_state matches Some(s0) ==> ofst.start_state == Some(scc@[s0 as int]))
            &&& (ifst.start_state is None ==> ofst.start_state is None)
            &&& forall|c: int| 0 <= c < ofst.states@.len() ==> #[trigger] ofst.states@[c].final_weight
                == component_final(*ifst, scc@, c as usize, ifst.states@.len() as int)
            &&& forall|c: int| 0 <= c < ofst.states@.len() ==> #[trigger] ofst.states@[c].final_weight
                == if component_final_weights(*ifst, scc@, c as usize, ifst.states@.len() as int).len() == 0 {
                    None
                } else {
                    Some(plus_all(component_final_weights(*ifst, scc@, c as usize, ifst.states@.len() as int)))
                }
            &&& forall|u: StateId, v: StateId| #![trigger scc@[u as int], scc@[v as int]] u < scc@.len() && v < scc@.len()
                ==> (scc@[u as int] == scc@[v as int] <==> reachable(*ifst, u, v) && reachable(*ifst, v, u))
            &&& forall|c: int, k: int| 0 <= c < ofst.states@.len() && 0 <= k < ofst.states@[c].trs@.len()
                ==> #[trigger] ofst.states@[c].trs@[k].nextstate < c
            &&& forall|c: int| 0 <= c < ofst.states@.len() ==> #[trigger] ofst.states@[c].trs@
                == component_trs(*ifst, scc@, c as usize, ifst.states@.len() as int)
        },
{
    let n = ifst.num_states();
    let mut visitor = SccVisitor::new(ifst);
    dfs_visit(ifst, &mut visitor, false);
    proof {
        if n > 0 {
            visitor.lemma_unfold();
            assert(visitor.scc_stack@.len() == 0);
            assert forall|v: int| 0 <= v < n implies !#[trigger] visitor.onstack@[v] by {
                if visitor.onstack@[v] {
                    assert(visitor.scc_stack@.contains(v as StateId));
                }
            }
            assert forall|v: int| 0 <= v < n implies #[trigger] visitor.seen_states@.contains(v as StateId) by {
                assert(visitor.seen().contains(v as StateId));
            }
            lemma_scc_complete(
                *ifst,
                visitor.seen_states@,
                visitor.scc_stack@,
                visitor.dfs_path@,
                visitor.dfnumber@,
                visitor.lowlink@,
                visitor.onstack@,
                visitor.scc@,
                visitor.nscc,
                visitor.done_map@,
            );
        }
    }
    let ghost nscc = visitor.nscc;
    let scc = visitor.scc;
    proof {
        assert forall|u: StateId, v: StateId| #![trigger scc@[u as int], scc@[v as int]] u < n && v < n
            implies (scc@[u as int] == scc@[v as int] <==> reachable(*ifst, u, v) && reachable(*ifst, v, u)) by {
            if reachable(*ifst, u, v) && reachable(*ifst, v, u) {
                lemma_scc_reach_down(*ifst, scc@, u, v);
                lemma_scc_reach_down(*ifst, scc@, v, u);
            }
        }
    }
    let mut ofst: VectorFst<W> = VectorFst::new();
    // The number of condensed states: one more than the largest component.
    let mut num: usize = 0;
    let mut i: usize = 0;
    while i < n
        invariant
            i <= n,
            n == ifst.states@.len(),
            scc@.len() == n,
            forall|s: int| 0 <= s < n ==> #[trigger] scc@[s] < n,
            num <= n,
            forall|s: int| 0 <= s < i ==> #[trigger] scc@[s] < num,
            n > 0 ==> num <= nscc,
            n > 0 ==> forall|s: int| 0 <= s < n ==> #[trigger] scc@[s] < nscc,
            n > 0 ==> forall|c: usize| c < nscc ==> #[trigger] comp_present(scc@, n as nat, c),
            forall|u: int, e: int| 0 <= u < n && 0 <= e < ifst.states@[u].trs@.len()
                ==> #[trigger] scc@[ifst.states@[u].trs@[e].nextstate as int] <= scc@[u],
            forall|c: usize| c < num ==> #[trigger] comp_present(scc@, n as nat, c),
        decreases n - i,
    {
        if scc[i] + 1 > num {
            num = scc[i] + 1;
        }
        i += 1;
    }
    let mut c: usize = 0;
    while c < num
        invariant
            c <= num,
            num <= n,
            n == ifst.states@.len(),
            ofst.states@.len() == c,
            ofst.wf(),
            ofst.start_state is None,
            forall|q: int| 0 <= q < c ==> (#[trigger] ofst.states@[q]).final_weight is None && ofst.states@[q].trs@.len() == 0,
            forall|u: int, e: int| 0 <= u < n && 0 <= e < ifst.states@[u].trs@.len()
                ==> #[trigger] scc@[ifst.states@[u].trs@[e].nextstate as int] <= scc@[u],
            forall|c: usize| c < num ==> #[trigger] comp_present(scc@, n as nat, c),
        decreases num - c,
    {
        ofst.add_state();
        c += 1;
    }
    let mut s: usize = 0;
    while s < n
        invariant
            s <= n,
            n == ifst.states@.len(),
            ifst.wf(),
            n > 0 ==> ifst.start_state is Some,
            scc@.len() == n,
            forall|q: int| 0 <= q < n ==> #[trigger] scc@[q] < num,
            ofst.states@.len() == num,
            num <= n,
            ofst.wf(),
            ifst.start_state matches Some(s0) ==> (if s0 < s { ofst.start_state == Some(scc@[s0 as int]) } else { ofst.start_state is None }),
            ifst.start_state is None ==> ofst.start_state is None,
            forall|q: int| 0 <= q < num ==> #[trigger] ofst.states@[q].final_weight == component_final(*ifst, scc@, q as usize, s as int),
            forall|q: int, k: int| 0 <= q < num && 0 <= k < ofst.states@[q].trs@.len()
                ==> #[trigger] ofst.states@[q].trs@[k].nextstate < q,
            forall|u: int, e: int| 0 <= u < n && 0 <= e < ifst.states@[u].trs@.len()
                ==> #[trigger] scc@[ifst.states@[u].trs@[e].nextstate as int] <= scc@[u],
            forall|c: usize| c < num ==> #[trigger] comp_present(scc@, n as nat, c),
            forall|q: int| 0 <= q < num ==> #[trigger] ofst.states@[q].trs@ == component_trs(*ifst, scc@, q as usize, s as int),
        decreases n - s,
    {
        let c = scc[s];
        let start = ifst.start();
        if start == Some(s) {
            let _ = ofst.set_start(c);
        }
        let ghost before_final = ofst;
        match &ifst.states[s].final_weight {
            Some(fw) => {
                let new_w = match &ofst.states[c].final_weight {
                    Some(w) => w.plus(fw),
                    None => fw.weight_clone(),
                };
                let _ = ofst.set_final(c, new_w);
            },
            None => {},
        }
        proof {
            assert forall|q: int| 0 <= q < num implies #[trigger] ofst.states@[q].final_weight
                == component_final(*ifst, scc@, q as usize, s + 1) by {
                if q != c {
                    assert(ofst.states@[q] == before_final.states@[q]);
                }
            }
            assert forall|q: int, k: int| 0 <= q < num && 0 <= k < ofst.states@[q].trs@.len()
                implies #[trigger] ofst.states@[q].trs@[k].nextstate < q by {
                assert(ofst.states@[q].trs@ == before_final.states@[q].trs@);
            }
            assert forall|q: int| 0 <= q < num implies #[trigger] ofst.states@[q].trs@ == component_trs(*ifst, scc@, q as usize, s as int) by {
                assert(ofst.states@[q].trs@ == before_final.states@[q].trs@);
            }
            assert(ifst.states@[s as int].trs@.take(0) =~= Seq::<Tr<W>>::empty());
            assert(component_trs(*ifst, scc@, c, s as int) + trs_condensed(ifst.states@[s as int].trs@.take(0), scc@, c)
                =~= component_trs(*ifst, scc@, c, s as int));
        }
        let trs = &ifst.states[s].trs;
        proof {
            assert forall|q: int| 0 <= q < num && q != c implies #[trigger] ofst.states@[q].trs@ == component_trs(*ifst, scc@, q as usize, s + 1) by {
                assert(component_trs(*ifst, scc@, q as usize, s + 1) =~= component_trs(*ifst, scc@, q as usize, s as int));
            }
        }
        let mut k: usize = 0;
        while k < trs.len()
            invariant
                k <= trs@.len(),
                trs@ == ifst.states@[s as int].trs@,
                s < n,
                n == ifst.states@.len(),
                ifst.wf(),
                scc@.len() == n,
                c == scc@[s as int],
                forall|q: int| 0 <= q < n ==> #[trigger] scc@[q] < num,
                ofst.states@.len() == num,
                ofst.wf(),
                ifst.start_state matches Some(s0) ==> (if s0 < s + 1 { ofst.start_state == Some(scc@[s0 as int]) } else { ofst.start_state is None }),
                ifst.start_state is None ==> ofst.start_state is None,
                forall|q: int| 0 <= q < num ==> #[trigger] ofst.states@[q].final_weight == component_final(*ifst, scc@, q as usize, s + 1),
                forall|q: int, kk: int| 0 <= q < num && 0 <= kk < ofst.states@[q].trs@.len()
                    ==> #[trigger] ofst.states@[q].trs@[kk].nextstate < q,
                forall|u: int, e: int| 0 <= u < n && 0 <= e < ifst.states@[u].trs@.len()
                    ==> #[trigger] scc@[ifst.states@[u].trs@[e].nextstate as int] <= scc@[u],
                forall|c: usize| c < num ==> #[trigger] comp_present(scc@, n as nat, c),
                forall|q: int| 0 <= q < num && q != c ==> #[trigger] ofst.states@[q].trs@ == component_trs(*ifst, scc@, q as usize, s + 1),
                c < num,
                ofst.states@[c as int].trs@ == component_trs(*ifst, scc@, c, s as int) + trs_condensed(trs@.take(k as int), scc@, c),
            decreases trs@.len() - k,
        {
            let tr = &trs[k];
            assert(ifst.states@[s as int].trs@[k as int].nextstate < n);
            let nextc = scc[tr.nextstate];
            let ghost pre = component_trs(*ifst, scc@, c, s as int);
            proof {
                assert(trs@.take(k + 1).drop_last() =~= trs@.take(k as int));
                assert(trs@.take(k + 1).last() == trs@[k as int]);
            }
            if nextc != c {
                assert(scc@[ifst.states@[s as int].trs@[k as int].nextstate as int] <= scc@[s as int]);
                let condensed = Tr::new(tr.ilabel, tr.olabel, tr.weight.weight_clone(), nextc);
                let ghost before = ofst;
                let _ = ofst.add_tr(c, condensed);
                proof {
                    assert forall|q: int| 0 <= q < num implies #[trigger] ofst.states@[q].final_weight
                        == component_final(*ifst, scc@, q as usize, s + 1) by {
                        assert(ofst.states@[q].final_weight == before.states@[q].final_weight);
                    }
                    assert forall|q: int, kk: int| 0 <= q < num && 0 <= kk < ofst.states@[q].trs@.len()
                        implies #[trigger] ofst.states@[q].trs@[kk].nextstate < q by {
                        if q != c || kk < before.states@[q].trs@.len() {
                            assert(ofst.states@[q].trs@[kk] == before.states@[q].trs@[kk]);
                        }
                    }
                    assert forall|q: int| 0 <= q < num && q != c implies #[trigger] ofst.states@[q].trs@ == component_trs(*ifst, scc@, q as usize, s + 1) by {
                        assert(ofst.states@[q] == before.states@[q]);
                    }
                    let tk = trs_condensed(trs@.take(k as int), scc@, c);
                    assert(pre + tk.push(condensed) =~= (pre + tk).push(condensed));
                }
            }
            k += 1;
        }
        proof {
            assert(trs@.take(k as int) =~= trs@);
            assert forall|q: int| 0 <= q < num implies #[trigger] ofst.states@[q].trs@ == component_trs(*ifst, scc@, q as usize, s + 1) by {
                if q == c {
                    assert(component_trs(*ifst, scc@, c, s + 1)
                        == component_trs(*ifst, scc@, c, s as int) + trs_condensed(ifst.states@[s as int].trs@, scc@, c));
                }
            }
        }
        s += 1;
    }
    if n > 0 {
        assert(scc@[0] < num);
    }
    proof {
        assert forall|c: int| 0 <= c < ofst.states@.len() implies #[trigger] ofst.states@[c].final_weight
            == if component_final_weights(*ifst, scc@, c as usize, n as int).len() == 0 {
                None
            } else {
                Some(plus_all(component_final_weights(*ifst, scc@, c as usize, n as int)))
            } by {
            lemma_condense_final_sum(*ifst, scc@, c as usize, n as int);
        }
    }
    Ok((scc, ofst))
}

} // verus!
