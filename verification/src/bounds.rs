//! What it means for the bounds of a graph to be right, and what follows
//! from it.
//!
//! A node off every cycle is bounded by its own usage plus the largest bound
//! among its callees. The nodes of a cycle share one bound: the largest local
//! usage among them, plus the largest bound among the nodes that the cycle
//! calls outside itself. A bound is exact only when everything that went
//! into it is, and a cycle's only when in addition none of its members uses
//! any stack.

use vstd::prelude::*;
use crate::graph::{
    edges_within, has_edge, lemma_reaches_first_edge, lemma_reaches_self, lemma_reaches_trans,
    mutual, on_cycle, reach_in, reaches, Node,
};
use crate::usage::Max;

verus! {

/// The bound of node `v`.
pub open spec fn bound_of(nodes: Seq<Node>, v: int) -> Max {
    nodes[v].max->0
}

/// Whether `x` is the largest bound among the callees of `u`, or 0 when `u`
/// calls nothing.
pub open spec fn is_callee_max(nodes: Seq<Node>, edges: Seq<(int, int)>, u: int, x: nat) -> bool {
    &&& forall|v: int| #[trigger] has_edge(edges, u, v) ==> bound_of(nodes, v).value() <= x
    &&& {
        ||| x == 0 && forall|v: int| !#[trigger] has_edge(edges, u, v)
        ||| exists|v: int| #[trigger] has_edge(edges, u, v) && bound_of(nodes, v).value() == x
    }
}

/// Whether the bounds of all callees of `u` are exact.
pub open spec fn callees_exact(nodes: Seq<Node>, edges: Seq<(int, int)>, u: int) -> bool {
    forall|v: int| #[trigger] has_edge(edges, u, v) ==> bound_of(nodes, v).is_exact()
}

/// Whether `b` is the right bound for a node `u` off every cycle: the local
/// usage of `u` plus the largest bound among its callees, exact only when
/// all of these are.
pub open spec fn plain_bound_is(nodes: Seq<Node>, edges: Seq<(int, int)>, u: int, b: Max) -> bool {
    let l = nodes[u].local;
    &&& l.value() <= b.value()
    &&& is_callee_max(nodes, edges, u, (b.value() - l.value()) as nat)
    &&& b.is_exact() <==> l.is_exact() && callees_exact(nodes, edges, u)
}

/// The bound of a node off every cycle is right.
pub open spec fn plain_bound_ok(nodes: Seq<Node>, edges: Seq<(int, int)>, u: int) -> bool {
    plain_bound_is(nodes, edges, u, bound_of(nodes, u))
}

/// Whether the edge from `w` to `v` leaves the cycle of `u`.
pub open spec fn leaves(edges: Seq<(int, int)>, u: int, w: int, v: int) -> bool {
    mutual(edges, u, w) && has_edge(edges, w, v) && !mutual(edges, u, v)
}

/// Whether `l` is the largest local usage among the nodes on the cycle of `u`.
pub open spec fn is_cycle_local(nodes: Seq<Node>, edges: Seq<(int, int)>, u: int, l: nat) -> bool {
    &&& forall|w: int|
        0 <= w < nodes.len() && #[trigger] mutual(edges, u, w) ==> nodes[w].local.value() <= l
    &&& exists|w: int|
        0 <= w < nodes.len() && #[trigger] mutual(edges, u, w) && nodes[w].local.value() == l
}

/// Whether the local usage of every node on the cycle of `u` is known.
pub open spec fn cycle_locals_exact(nodes: Seq<Node>, edges: Seq<(int, int)>, u: int) -> bool {
    forall|w: int| 0 <= w < nodes.len() && #[trigger] mutual(edges, u, w) ==> nodes[w].local.is_exact()
}

/// Whether `x` is the largest bound among the nodes that the cycle of `u`
/// calls outside itself, or 0 when it calls none.
pub open spec fn is_exit_max(nodes: Seq<Node>, edges: Seq<(int, int)>, u: int, x: nat) -> bool {
    &&& forall|w: int, v: int| #[trigger]
        leaves(edges, u, w, v) ==> bound_of(nodes, v).value() <= x
    &&& {
        ||| x == 0 && forall|w: int, v: int| !#[trigger] leaves(edges, u, w, v)
        ||| exists|w: int, v: int| #[trigger]
            leaves(edges, u, w, v) && bound_of(nodes, v).value() == x
    }
}

/// Whether the bounds of all nodes that the cycle of `u` calls outside itself
/// are exact.
pub open spec fn exits_exact(nodes: Seq<Node>, edges: Seq<(int, int)>, u: int) -> bool {
    forall|w: int, v: int| #[trigger] leaves(edges, u, w, v) ==> bound_of(nodes, v).is_exact()
}

/// Whether `b` is the right bound for a node `u` on a cycle, with `l` the
/// largest local usage on the cycle: `l` plus the largest bound among the
/// nodes that the cycle calls outside itself, exact only when no member of
/// the cycle uses any stack and all those bounds are exact.
pub open spec fn cycle_bound_is(
    nodes: Seq<Node>,
    edges: Seq<(int, int)>,
    u: int,
    l: nat,
    b: Max,
) -> bool {
    &&& is_cycle_local(nodes, edges, u, l)
    &&& l <= b.value()
    &&& is_exit_max(nodes, edges, u, (b.value() - l) as nat)
    &&& b.is_exact() <==> l == 0 && cycle_locals_exact(nodes, edges, u) && exits_exact(
        nodes,
        edges,
        u,
    )
}

/// The bound of a node on a cycle is right, with `l` the largest local usage
/// on the cycle.
pub open spec fn cycle_bound_with(nodes: Seq<Node>, edges: Seq<(int, int)>, u: int, l: nat) -> bool {
    cycle_bound_is(nodes, edges, u, l, bound_of(nodes, u))
}

/// The bound of a node on a cycle is right.
pub open spec fn cycle_bound_ok(nodes: Seq<Node>, edges: Seq<(int, int)>, u: int) -> bool {
    exists|l: nat| cycle_bound_with(nodes, edges, u, l)
}

/// Node `u` has a bound, and it is right.
pub open spec fn node_bound_ok(nodes: Seq<Node>, edges: Seq<(int, int)>, u: int) -> bool {
    &&& nodes[u].max is Some
    &&& if on_cycle(edges, u) {
        cycle_bound_ok(nodes, edges, u)
    } else {
        plain_bound_ok(nodes, edges, u)
    }
}

/// Every node has a bound, and all bounds are right.
pub open spec fn propagated(nodes: Seq<Node>, edges: Seq<(int, int)>) -> bool {
    forall|u: int| 0 <= u < nodes.len() ==> #[trigger] node_bound_ok(nodes, edges, u)
}

/// An edge of a graph joins two of its nodes.
pub proof fn lemma_edge_within(edges: Seq<(int, int)>, n: nat, a: int, b: int)
    requires
        edges_within(edges, n),
        has_edge(edges, a, b),
    ensures
        0 <= a < n,
        0 <= b < n,
{
    let k = choose|k: int| 0 <= k < edges.len() && edges[k] == (a, b);
    assert(edges[k].0 == a && edges[k].1 == b);
}

/// Two nodes that are each reached from the other are reached from the same
/// nodes, and reach the same nodes.
pub proof fn lemma_mutual_shared(edges: Seq<(int, int)>, u: int, v: int, w: int)
    requires
        mutual(edges, u, v),
    ensures
        mutual(edges, u, w) <==> mutual(edges, v, w),
{
    if mutual(edges, u, w) {
        lemma_reaches_trans(edges, v, u, w);
        lemma_reaches_trans(edges, w, u, v);
    }
    if mutual(edges, v, w) {
        lemma_reaches_trans(edges, u, v, w);
        lemma_reaches_trans(edges, w, v, u);
    }
}

/// A node that shares a cycle with another node lies on a cycle.
pub proof fn lemma_mutual_on_cycle(edges: Seq<(int, int)>, u: int, v: int)
    requires
        mutual(edges, u, v),
        u != v,
    ensures
        on_cycle(edges, u),
{
    let x = lemma_reaches_first_edge(edges, u, v);
    lemma_reaches_trans(edges, x, v, u);
}

/// Right bounds stay right where only the names of nodes change.
pub proof fn lemma_propagated_renamed(before: Seq<Node>, after: Seq<Node>, edges: Seq<(int, int)>)
    requires
        propagated(before, edges),
        edges_within(edges, before.len()),
        after.len() == before.len(),
        forall|i: int|
            0 <= i < before.len() ==> (#[trigger] after[i]).local == before[i].local && after[i].max
                == before[i].max,
    ensures
        propagated(after, edges),
{
    assert forall|u: int| 0 <= u < after.len() implies #[trigger] node_bound_ok(after, edges, u) by {
        assert(node_bound_ok(before, edges, u));
        assert(after[u].max == before[u].max);
        assert forall|a: int, b: int| #[trigger] has_edge(edges, a, b) implies bound_of(after, b)
            == bound_of(before, b) && 0 <= b < before.len() by {
            lemma_edge_within(edges, before.len(), a, b);
            assert(after[b].max == before[b].max);
        }
        if on_cycle(edges, u) {
            let l = choose|l: nat| cycle_bound_with(before, edges, u, l);
            let t = choose|t: int|
                0 <= t < before.len() && #[trigger] mutual(edges, u, t) && before[t].local.value() == l;
            assert(after[t].local == before[t].local);
            assert forall|w: int| 0 <= w < after.len() && #[trigger] mutual(edges, u, w) implies after[w].local
                == before[w].local by {}
            assert(is_cycle_local(after, edges, u, l));
            assert(cycle_bound_is(after, edges, u, l, bound_of(after, u)));
            assert(cycle_bound_with(after, edges, u, l));
        } else {
            assert(after[u].local == before[u].local);
            assert(plain_bound_is(after, edges, u, bound_of(after, u)));
        }
    }
}

/// The bound of a node is at least its local usage.
pub proof fn lemma_bound_covers_local(nodes: Seq<Node>, edges: Seq<(int, int)>, n: int)
    requires
        propagated(nodes, edges),
        0 <= n < nodes.len(),
    ensures
        bound_of(nodes, n).value() >= nodes[n].local.value(),
{
    assert(node_bound_ok(nodes, edges, n));
    if on_cycle(edges, n) {
        let l = choose|l: nat| cycle_bound_with(nodes, edges, n, l);
        lemma_reaches_self(edges, n);
        assert(mutual(edges, n, n));
    }
}

/// For an edge from a node `u` off every cycle to `v`, the bound of `u` is at
/// least the local usage of `u` plus the bound of `v`, and it is equal to
/// that sum exactly when no callee of `u` has a larger bound than `v`.
pub proof fn lemma_bound_covers_callee(nodes: Seq<Node>, edges: Seq<(int, int)>, u: int, v: int)
    requires
        propagated(nodes, edges),
        0 <= u < nodes.len(),
        has_edge(edges, u, v),
        !on_cycle(edges, u),
    ensures
        bound_of(nodes, u).value() >= nodes[u].local.value() + bound_of(nodes, v).value(),
        bound_of(nodes, u).value() == nodes[u].local.value() + bound_of(nodes, v).value() <==> (
        forall|w: int| #[trigger]
            has_edge(edges, u, w) ==> bound_of(nodes, w).value() <= bound_of(nodes, v).value()),
{
    assert(node_bound_ok(nodes, edges, u));
}

/// What makes a bound inexact at a node makes it inexact at its callers: an
/// exact bound needs a known local usage and exact bounds at every callee.
pub proof fn lemma_exact_needs_exact(nodes: Seq<Node>, edges: Seq<(int, int)>, u: int, v: int)
    requires
        propagated(nodes, edges),
        edges_within(edges, nodes.len()),
        0 <= u < nodes.len(),
        bound_of(nodes, u).is_exact(),
    ensures
        nodes[u].local.is_exact(),
        has_edge(edges, u, v) ==> bound_of(nodes, v).is_exact(),
{
    assert(node_bound_ok(nodes, edges, u));
    lemma_reaches_self(edges, u);
    assert(mutual(edges, u, u));
    if has_edge(edges, u, v) {
        lemma_edge_within(edges, nodes.len(), u, v);
        assert(node_bound_ok(nodes, edges, v));
        if on_cycle(edges, u) {
            let l = choose|l: nat| cycle_bound_with(nodes, edges, u, l);
            if mutual(edges, u, v) {
                if v != u {
                    lemma_mutual_on_cycle(edges, v, u);
                }
                let m = choose|m: nat| cycle_bound_with(nodes, edges, v, m);
                let t = choose|t: int|
                    0 <= t < nodes.len() && #[trigger] mutual(edges, v, t) && nodes[t].local.value()
                        == m;
                lemma_mutual_shared(edges, u, v, t);
                assert(m == 0);
                assert forall|w: int| 0 <= w < nodes.len() && #[trigger] mutual(edges, v, w) implies
                    nodes[w].local.is_exact() by {
                    lemma_mutual_shared(edges, u, v, w);
                }
                assert forall|w: int, x: int| #[trigger] leaves(edges, v, w, x) implies bound_of(
                    nodes,
                    x,
                ).is_exact() by {
                    lemma_mutual_shared(edges, u, v, w);
                    lemma_mutual_shared(edges, u, v, x);
                    assert(leaves(edges, u, w, x));
                }
            } else {
                assert(leaves(edges, u, u, v));
            }
        }
    }
}

proof fn lemma_uncertainty_spreads_in(
    nodes: Seq<Node>,
    edges: Seq<(int, int)>,
    r: int,
    x: int,
    steps: nat,
)
    requires
        propagated(nodes, edges),
        edges_within(edges, nodes.len()),
        0 <= r < nodes.len(),
        reach_in(edges, r, x, steps),
        nodes[x].local is Unknown || bound_of(nodes, x) is LowerBound,
    ensures
        bound_of(nodes, r) is LowerBound,
    decreases steps,
{
    if steps == 0 {
        if bound_of(nodes, r).is_exact() {
            lemma_exact_needs_exact(nodes, edges, r, r);
        }
    } else {
        let v = choose|v: int| has_edge(edges, r, v) && reach_in(edges, v, x, (steps - 1) as nat);
        lemma_edge_within(edges, nodes.len(), r, v);
        lemma_uncertainty_spreads_in(nodes, edges, v, x, (steps - 1) as nat);
        if bound_of(nodes, r).is_exact() {
            lemma_exact_needs_exact(nodes, edges, r, v);
        }
    }
}

/// If a node reached from `r`, or `r` itself, has an unknown local usage or a
/// bound that is only a lower bound, then the bound of `r` is only a lower
/// bound.
pub proof fn lemma_uncertainty_spreads(nodes: Seq<Node>, edges: Seq<(int, int)>, r: int, x: int)
    requires
        propagated(nodes, edges),
        edges_within(edges, nodes.len()),
        0 <= r < nodes.len(),
        reaches(edges, r, x),
        nodes[x].local is Unknown || bound_of(nodes, x) is LowerBound,
    ensures
        bound_of(nodes, r) is LowerBound,
{
    let steps = choose|steps: nat| reach_in(edges, r, x, steps);
    lemma_uncertainty_spreads_in(nodes, edges, r, x, steps);
}

} // verus!
