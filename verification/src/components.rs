//! From the strongly connected components of a graph to the cycles of its
//! nodes: what a bound computed for one component says of its members.

use vstd::prelude::*;
use crate::bounds::{
    bound_of, cycle_bound_is, cycle_bound_with, exits_exact, is_cycle_local, is_exit_max, leaves,
    lemma_edge_within, lemma_mutual_on_cycle, node_bound_ok, plain_bound_is,
};
use crate::graph::{
    comp_of, edges_within, has_edge, is_scc_order, lemma_reaches_edge, lemma_reaches_self,
    lemma_reaches_within, mutual, on_cycle, reaches, Node,
};
use crate::usage::Max;

verus! {

/// Whether a component is a cycle: it has several members, or its one member
/// calls itself.
pub open spec fn is_cyclic_comp(edges: Seq<(int, int)>, comp: Seq<int>) -> bool {
    comp.len() > 1 || has_edge(edges, comp[0], comp[0])
}

/// The cycles among the first `k` components, in their order.
pub open spec fn cyclic_among(edges: Seq<(int, int)>, comps: Seq<Seq<int>>, k: nat) -> Seq<Seq<int>>
    decreases k,
{
    if k == 0 {
        Seq::empty()
    } else if is_cyclic_comp(edges, comps[k - 1]) {
        cyclic_among(edges, comps, (k - 1) as nat).push(comps[k - 1])
    } else {
        cyclic_among(edges, comps, (k - 1) as nat)
    }
}

/// Whether the edge from `w` to `v` leads out of the component `comp`.
pub open spec fn exit_pair(edges: Seq<(int, int)>, comp: Seq<int>, w: int, v: int) -> bool {
    comp.contains(w) && has_edge(edges, w, v) && !comp.contains(v)
}

/// Whether `l` is the largest local usage among the members of `comp`.
pub open spec fn comp_local_is(nodes: Seq<Node>, comp: Seq<int>, l: nat) -> bool {
    &&& forall|i: int| 0 <= i < comp.len() ==> nodes[#[trigger] comp[i]].local.value() <= l
    &&& exists|i: int| 0 <= i < comp.len() && nodes[#[trigger] comp[i]].local.value() == l
}

/// Whether the local usage of every member of `comp` is known.
pub open spec fn comp_locals_exact(nodes: Seq<Node>, comp: Seq<int>) -> bool {
    forall|i: int| 0 <= i < comp.len() ==> nodes[#[trigger] comp[i]].local.is_exact()
}

/// Whether `x` is the largest bound among the nodes that `comp` calls outside
/// itself, or 0 when it calls none.
pub open spec fn comp_exit_max_is(
    nodes: Seq<Node>,
    edges: Seq<(int, int)>,
    comp: Seq<int>,
    x: nat,
) -> bool {
    &&& forall|w: int, v: int| #[trigger]
        exit_pair(edges, comp, w, v) ==> bound_of(nodes, v).value() <= x
    &&& {
        ||| x == 0 && forall|w: int, v: int| !#[trigger] exit_pair(edges, comp, w, v)
        ||| exists|w: int, v: int| #[trigger]
            exit_pair(edges, comp, w, v) && bound_of(nodes, v).value() == x
    }
}

/// Whether the bounds of all nodes that `comp` calls outside itself are exact.
pub open spec fn comp_exits_exact(nodes: Seq<Node>, edges: Seq<(int, int)>, comp: Seq<int>) -> bool {
    forall|w: int, v: int| #[trigger] exit_pair(edges, comp, w, v) ==> bound_of(nodes, v).is_exact()
}

/// Whether `b` is the bound shared by the members of the cyclic component
/// `comp`, with `l` the largest local usage among them.
pub open spec fn comp_bound_is(
    nodes: Seq<Node>,
    edges: Seq<(int, int)>,
    comp: Seq<int>,
    l: nat,
    b: Max,
) -> bool {
    &&& comp_local_is(nodes, comp, l)
    &&& l <= b.value()
    &&& comp_exit_max_is(nodes, edges, comp, (b.value() - l) as nat)
    &&& b.is_exact() <==> l == 0 && comp_locals_exact(nodes, comp) && comp_exits_exact(
        nodes,
        edges,
        comp,
    )
}

/// Whether `after` differs from `before` at most in the bounds of the
/// members of `comp`.
pub open spec fn changed_within(before: Seq<Node>, after: Seq<Node>, comp: Seq<int>) -> bool {
    &&& after.len() == before.len()
    &&& forall|v: int|
        0 <= v < before.len() ==> (#[trigger] after[v]).local == before[v].local && (
        !comp.contains(v) ==> after[v].max == before[v].max)
}

/// The members of a component are the nodes that share a cycle with any one
/// of them, the member itself included.
pub proof fn lemma_members(
    n: nat,
    edges: Seq<(int, int)>,
    comps: Seq<Seq<int>>,
    k: int,
    u: int,
    w: int,
)
    requires
        is_scc_order(n, edges, comps),
        edges_within(edges, n),
        0 <= k < comps.len(),
        comps[k].contains(u),
    ensures
        0 <= u < n,
        comp_of(comps, u) == k,
        comps[k].contains(w) <==> mutual(edges, u, w),
        mutual(edges, u, w) ==> 0 <= w < n,
{
    if mutual(edges, u, w) {
        lemma_reaches_within(edges, n, u, w);
    }
    if comps[k].contains(w) {
        assert(comp_of(comps, w) == k);
        assert(mutual(edges, u, w));
    }
}

/// A component is a cycle exactly when its members lie on a cycle.
pub proof fn lemma_cyclic_iff(n: nat, edges: Seq<(int, int)>, comps: Seq<Seq<int>>, k: int, u: int)
    requires
        is_scc_order(n, edges, comps),
        edges_within(edges, n),
        0 <= k < comps.len(),
        comps[k].contains(u),
    ensures
        on_cycle(edges, u) <==> is_cyclic_comp(edges, comps[k]),
{
    let comp = comps[k];
    lemma_members(n, edges, comps, k, u, u);
    if is_cyclic_comp(edges, comp) {
        if comp.len() > 1 {
            let w = if comp[0] != u {
                comp[0]
            } else {
                comp[1]
            };
            assert(comp.contains(comp[0]) && comp.contains(comp[1]));
            lemma_members(n, edges, comps, k, u, w);
            lemma_mutual_on_cycle(edges, u, w);
        } else {
            let i = choose|i: int| 0 <= i < comp.len() && comp[i] == u;
            lemma_reaches_self(edges, u);
        }
    }
    if on_cycle(edges, u) {
        let v = choose|v: int| has_edge(edges, u, v) && reaches(edges, v, u);
        lemma_reaches_edge(edges, u, v);
        lemma_members(n, edges, comps, k, u, v);
        if comp.len() == 1 {
            let i = choose|i: int| 0 <= i < comp.len() && comp[i] == u;
            let j = choose|j: int| 0 <= j < comp.len() && comp[j] == v;
        }
    }
}

/// After the members of a cyclic component got the bound computed for it,
/// the bound of each member is right.
pub proof fn lemma_new_cyclic(
    before: Seq<Node>,
    after: Seq<Node>,
    edges: Seq<(int, int)>,
    comps: Seq<Seq<int>>,
    k: int,
    u: int,
    l: nat,
    b: Max,
)
    requires
        is_scc_order(before.len(), edges, comps),
        edges_within(edges, before.len()),
        0 <= k < comps.len(),
        comps[k].contains(u),
        is_cyclic_comp(edges, comps[k]),
        comp_bound_is(before, edges, comps[k], l, b),
        changed_within(before, after, comps[k]),
        after[u].max == Some(b),
    ensures
        node_bound_ok(after, edges, u),
{
    let n = before.len();
    let comp = comps[k];
    lemma_cyclic_iff(n, edges, comps, k, u);
    assert forall|w: int| comp.contains(w) <==> #[trigger] mutual(edges, u, w) by {
        lemma_members(n, edges, comps, k, u, w);
    }
    assert forall|w: int| #[trigger] mutual(edges, u, w) implies 0 <= w < n by {
        lemma_members(n, edges, comps, k, u, w);
    }
    assert forall|w: int, v: int| #[trigger] leaves(edges, u, w, v) == exit_pair(edges, comp, w, v) by {
        if has_edge(edges, w, v) {
            lemma_edge_within(edges, n, w, v);
        }
    }
    assert forall|w: int, v: int| #[trigger] exit_pair(edges, comp, w, v) implies bound_of(after, v)
        == bound_of(before, v) by {
        lemma_edge_within(edges, n, w, v);
        assert(after[v].max == before[v].max);
    }
    let i = choose|i: int| 0 <= i < comp.len() && before[#[trigger] comp[i]].local.value() == l;
    assert(comp.contains(comp[i]));
    assert(mutual(edges, u, comp[i]));
    assert(after[comp[i]].local == before[comp[i]].local);
    assert forall|w: int| 0 <= w < after.len() && #[trigger] mutual(edges, u, w) implies after[w].local.value()
        <= l by {
        let j = choose|j: int| 0 <= j < comp.len() && comp[j] == w;
        assert(after[w].local == before[w].local);
    }
    if comp_locals_exact(before, comp) {
        assert forall|w: int| 0 <= w < after.len() && #[trigger] mutual(
            edges,
            u,
            w,
        ) implies after[w].local.is_exact() by {
            let j = choose|j: int| 0 <= j < comp.len() && comp[j] == w;
            assert(after[w].local == before[w].local);
        }
    } else {
        let j = choose|j: int| 0 <= j < comp.len() && !before[#[trigger] comp[j]].local.is_exact();
        assert(comp.contains(comp[j]));
        assert(mutual(edges, u, comp[j]));
        assert(after[comp[j]].local == before[comp[j]].local);
    }
    assert(is_cycle_local(after, edges, u, l));
    let x = (b.value() - l) as nat;
    assert(is_exit_max(after, edges, u, x)) by {
        if exists|w: int, v: int| #[trigger]
            exit_pair(edges, comp, w, v) && bound_of(before, v).value() == x {
            let (w, v) = choose|w: int, v: int| #[trigger]
                exit_pair(edges, comp, w, v) && bound_of(before, v).value() == x;
            assert(leaves(edges, u, w, v));
        }
    }
    if comp_exits_exact(before, edges, comp) {
        assert(exits_exact(after, edges, u));
    } else {
        let (w, v) = choose|w: int, v: int| #[trigger]
            exit_pair(edges, comp, w, v) && !bound_of(before, v).is_exact();
        assert(leaves(edges, u, w, v));
        assert(!exits_exact(after, edges, u));
    }
    assert(cycle_bound_is(after, edges, u, l, b));
    assert(cycle_bound_with(after, edges, u, l));
}

/// After the one member of a component that is no cycle got the bound
/// computed for it, its bound is right.
pub proof fn lemma_new_plain(
    before: Seq<Node>,
    after: Seq<Node>,
    edges: Seq<(int, int)>,
    comps: Seq<Seq<int>>,
    k: int,
    u: int,
    b: Max,
)
    requires
        is_scc_order(before.len(), edges, comps),
        edges_within(edges, before.len()),
        0 <= k < comps.len(),
        comps[k].contains(u),
        !is_cyclic_comp(edges, comps[k]),
        plain_bound_is(before, edges, u, b),
        changed_within(before, after, comps[k]),
        after[u].max == Some(b),
    ensures
        node_bound_ok(after, edges, u),
{
    let n = before.len();
    let comp = comps[k];
    lemma_cyclic_iff(n, edges, comps, k, u);
    lemma_members(n, edges, comps, k, u, u);
    let i = choose|i: int| 0 <= i < comp.len() && comp[i] == u;
    assert forall|v: int| #[trigger] has_edge(edges, u, v) implies bound_of(after, v) == bound_of(
        before,
        v,
    ) by {
        lemma_edge_within(edges, n, u, v);
        if comp.contains(v) {
            let j = choose|j: int| 0 <= j < comp.len() && comp[j] == v;
        }
        assert(after[v].max == before[v].max);
    }
    assert(after[u].local == before[u].local);
    assert(plain_bound_is(after, edges, u, b));
}

/// A bound that was right stays right when only the bounds of a later
/// component change.
pub proof fn lemma_frame(
    before: Seq<Node>,
    after: Seq<Node>,
    edges: Seq<(int, int)>,
    comps: Seq<Seq<int>>,
    k: int,
    u: int,
)
    requires
        is_scc_order(before.len(), edges, comps),
        edges_within(edges, before.len()),
        0 <= k < comps.len(),
        0 <= u < before.len(),
        comp_of(comps, u) < k,
        node_bound_ok(before, edges, u),
        changed_within(before, after, comps[k]),
    ensures
        node_bound_ok(after, edges, u),
        bound_of(after, u) == bound_of(before, u),
{
    let n = before.len();
    let comp = comps[k];
    assert(after[u].max == before[u].max);
    assert(after[u].local == before[u].local);
    if on_cycle(edges, u) {
        let l = choose|l: nat| cycle_bound_with(before, edges, u, l);
        assert forall|w: int| #[trigger] mutual(edges, u, w) implies 0 <= w < n && comp_of(comps, w)
            == comp_of(comps, u) by {
            lemma_reaches_within(edges, n, u, w);
        }
        assert forall|w: int, v: int| #[trigger] leaves(edges, u, w, v) implies bound_of(after, v)
            == bound_of(before, v) by {
            lemma_edge_within(edges, n, w, v);
            assert(mutual(edges, u, w));
            assert(comp_of(comps, v) <= comp_of(comps, w));
            assert(after[v].max == before[v].max);
        }
        let t = choose|t: int|
            0 <= t < before.len() && #[trigger] mutual(edges, u, t) && before[t].local.value() == l;
        assert(after[t].local == before[t].local);
        assert forall|w: int| 0 <= w < after.len() && #[trigger] mutual(edges, u, w) implies after[w].local
            == before[w].local by {}
        assert(cycle_bound_is(after, edges, u, l, bound_of(after, u)));
        assert(cycle_bound_with(after, edges, u, l));
    } else {
        assert forall|v: int| #[trigger] has_edge(edges, u, v) implies bound_of(after, v) == bound_of(
            before,
            v,
        ) by {
            lemma_edge_within(edges, n, u, v);
            assert(comp_of(comps, v) <= comp_of(comps, u));
            assert(after[v].max == before[v].max);
        }
        assert(plain_bound_is(after, edges, u, bound_of(after, u)));
    }
}

} // verus!
