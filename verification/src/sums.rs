//! Sums of local stack usage over the nodes of a graph and over the members
//! of its components, and why the latter never exceed the former.

use vstd::prelude::*;
use crate::graph::{comp_of, edges_within, is_scc_order, out_targets, CallGraph, Node};

verus! {

/// The local stack usage of each node, as a number.
pub open spec fn weights_of(nodes: Seq<Node>) -> Seq<nat> {
    Seq::new(nodes.len(), |i: int| nodes[i].local.value())
}

/// The sum of all weights.
pub open spec fn total(w: Seq<nat>) -> nat
    decreases w.len(),
{
    if w.len() == 0 {
        0
    } else {
        total(w.drop_last()) + w.last()
    }
}

/// The sum of the local stack usage of all nodes.
pub open spec fn local_total(nodes: Seq<Node>) -> nat {
    total(weights_of(nodes))
}

/// The sum of the weights of the listed nodes.
pub open spec fn pick_sum(w: Seq<nat>, s: Seq<int>) -> nat
    decreases s.len(),
{
    if s.len() == 0 {
        0
    } else {
        pick_sum(w, s.drop_last()) + w[s.last()]
    }
}

/// The sum of the weights of the members of the first `k` components.
pub open spec fn prefix_sum(w: Seq<nat>, comps: Seq<Seq<int>>, k: nat) -> nat
    decreases k,
{
    if k == 0 {
        0
    } else {
        prefix_sum(w, comps, (k - 1) as nat) + pick_sum(w, comps[k - 1])
    }
}

/// The members of the first `k` components, one list after the other.
pub open spec fn flat(comps: Seq<Seq<int>>, k: nat) -> Seq<int>
    decreases k,
{
    if k == 0 {
        Seq::empty()
    } else {
        flat(comps, (k - 1) as nat) + comps[k - 1]
    }
}

/// The first weights sum to no more than all of them.
pub proof fn lemma_total_take(w: Seq<nat>, i: int)
    requires
        0 <= i <= w.len(),
    ensures
        total(w.take(i)) <= total(w),
        i < w.len() ==> total(w.take(i + 1)) == total(w.take(i)) + w[i],
    decreases w.len() - i,
{
    if i < w.len() {
        assert(w.take(i + 1).drop_last() =~= w.take(i));
        lemma_total_take(w, i + 1);
    } else {
        assert(w.take(i) =~= w);
    }
}

/// Tests whether the local stack usage of all nodes together fits the
/// machine's integers.
pub fn usage_fits(g: &CallGraph) -> (r: bool)
    ensures
        r == (local_total(g.nodes()) <= u64::MAX),
{
    let ghost w = weights_of(g.nodes());
    let n = g.node_count();
    let mut sum: u64 = 0;
    let mut i: usize = 0;
    proof {
        assert(w.take(0) =~= Seq::<nat>::empty());
    }
    while i < n
        invariant
            i <= n,
            n == g.nodes().len(),
            w == weights_of(g.nodes()),
            sum == total(w.take(i as int)),
        decreases n - i,
    {
        let l = g.node(i).local.bytes();
        proof {
            lemma_total_take(w, i as int);
            lemma_total_take(w, i + 1);
        }
        if l > u64::MAX - sum {
            return false;
        }
        sum = sum + l;
        i += 1;
    }
    proof {
        assert(w.take(i as int) =~= w);
    }
    true
}

/// The number of edges that leave each of the nodes `0 .. n`.
pub open spec fn out_degrees(edges: Seq<(int, int)>, n: nat) -> Seq<nat> {
    Seq::new(n, |u: int| out_targets(edges, u).len())
}

/// The weight 1 for each of the nodes `0 .. n`.
pub open spec fn units(n: nat) -> Seq<nat> {
    Seq::new(n, |u: int| 1nat)
}

proof fn lemma_total_units(n: nat)
    ensures
        total(units(n)) == n,
    decreases n,
{
    if n > 0 {
        lemma_total_units((n - 1) as nat);
        assert(units(n).drop_last() =~= units((n - 1) as nat));
    }
}

proof fn lemma_pick_sum_units(n: nat, s: Seq<int>)
    requires
        forall|i: int| 0 <= i < s.len() ==> 0 <= #[trigger] s[i] < n,
    ensures
        pick_sum(units(n), s) == s.len(),
    decreases s.len(),
{
    if s.len() > 0 {
        assert forall|i: int| 0 <= i < s.drop_last().len() implies 0 <= #[trigger] s.drop_last()[i] < n by {
            assert(s.drop_last()[i] == s[i]);
        }
        lemma_pick_sum_units(n, s.drop_last());
        assert(0 <= s[s.len() - 1] < n);
    }
}

/// A list of different nodes holds no more nodes than there are.
pub proof fn lemma_distinct_len(s: Seq<int>, n: nat)
    requires
        s.no_duplicates(),
        forall|i: int| 0 <= i < s.len() ==> 0 <= #[trigger] s[i] < n,
    ensures
        s.len() <= n,
{
    lemma_pick_sum_units(n, s);
    lemma_total_units(n);
    lemma_pick_sum_le_total(units(n), s);
}

proof fn lemma_total_update(w: Seq<nat>, a: int, x: nat)
    requires
        0 <= a < w.len(),
    ensures
        total(w.update(a, x)) + w[a] == total(w) + x,
    decreases w.len(),
{
    if a == w.len() - 1 {
        assert(w.update(a, x).drop_last() =~= w.drop_last());
    } else {
        lemma_total_update(w.drop_last(), a, x);
        assert(w.update(a, x).drop_last() =~= w.drop_last().update(a, x));
    }
}

/// The edges that leave the nodes of a graph are all its edges.
pub proof fn lemma_total_out_degrees(edges: Seq<(int, int)>, n: nat)
    requires
        edges_within(edges, n),
    ensures
        total(out_degrees(edges, n)) == edges.len(),
    decreases edges.len(),
{
    if edges.len() == 0 {
        lemma_total_zero(out_degrees(edges, n));
    } else {
        let init = edges.drop_last();
        let a = edges.last().0;
        assert(edges[edges.len() - 1] == edges.last());
        assert forall|k: int| 0 <= k < init.len() implies 0 <= (#[trigger] init[k]).0 < n && 0
            <= init[k].1 < n by {
            assert(init[k] == edges[k]);
        }
        lemma_total_out_degrees(init, n);
        let w0 = out_degrees(init, n);
        let w1 = out_degrees(edges, n);
        assert(w1 =~= w0.update(a, w0[a] + 1));
        lemma_total_update(w0, a, w0[a] + 1);
    }
}

proof fn lemma_total_zero(w: Seq<nat>)
    requires
        forall|i: int| 0 <= i < w.len() ==> #[trigger] w[i] == 0,
    ensures
        total(w) == 0,
    decreases w.len(),
{
    if w.len() > 0 {
        assert forall|i: int| 0 <= i < w.drop_last().len() implies #[trigger] w.drop_last()[i] == 0 by {
            assert(w.drop_last()[i] == w[i]);
        }
        lemma_total_zero(w.drop_last());
        assert(w[w.len() - 1] == 0);
    }
}

/// The weights of the first nodes of a list and of one more.
pub proof fn lemma_pick_sum_take(w: Seq<nat>, s: Seq<int>, p: int)
    requires
        0 <= p < s.len(),
    ensures
        pick_sum(w, s.take(p + 1)) == pick_sum(w, s.take(p)) + w[s[p]],
{
    assert(s.take(p + 1).drop_last() =~= s.take(p));
}

proof fn lemma_pick_sum_concat(w: Seq<nat>, a: Seq<int>, b: Seq<int>)
    ensures
        pick_sum(w, a + b) == pick_sum(w, a) + pick_sum(w, b),
    decreases b.len(),
{
    if b.len() == 0 {
        assert(a + b =~= a);
    } else {
        lemma_pick_sum_concat(w, a, b.drop_last());
        assert((a + b).drop_last() =~= a + b.drop_last());
    }
}

proof fn lemma_prefix_sum_flat(w: Seq<nat>, comps: Seq<Seq<int>>, k: nat)
    ensures
        prefix_sum(w, comps, k) == pick_sum(w, flat(comps, k)),
    decreases k,
{
    if k > 0 {
        lemma_prefix_sum_flat(w, comps, (k - 1) as nat);
        lemma_pick_sum_concat(w, flat(comps, (k - 1) as nat), comps[k - 1]);
    }
}

proof fn lemma_pick_sum_remove(w: Seq<nat>, s: Seq<int>, p: int)
    requires
        0 <= p < s.len(),
    ensures
        pick_sum(w, s) == pick_sum(w, s.remove(p)) + w[s[p]],
    decreases s.len(),
{
    if p == s.len() - 1 {
        assert(s.remove(p) =~= s.drop_last());
    } else {
        lemma_pick_sum_remove(w, s.drop_last(), p);
        assert(s.remove(p).drop_last() =~= s.drop_last().remove(p));
        assert(s.remove(p).last() == s.last());
    }
}

proof fn lemma_pick_sum_shrink(w: Seq<nat>, s: Seq<int>)
    requires
        w.len() > 0,
        forall|i: int| 0 <= i < s.len() ==> 0 <= #[trigger] s[i] < w.len() - 1,
    ensures
        pick_sum(w, s) == pick_sum(w.drop_last(), s),
    decreases s.len(),
{
    if s.len() > 0 {
        assert forall|i: int| 0 <= i < s.drop_last().len() implies 0 <= #[trigger] s.drop_last()[i]
            < w.len() - 1 by {
            assert(s.drop_last()[i] == s[i]);
        }
        lemma_pick_sum_shrink(w, s.drop_last());
        assert(0 <= s[s.len() - 1] < w.len() - 1);
    }
}

/// The weights of distinct nodes sum to no more than the weights of all nodes.
pub proof fn lemma_pick_sum_le_total(w: Seq<nat>, s: Seq<int>)
    requires
        s.no_duplicates(),
        forall|i: int| 0 <= i < s.len() ==> 0 <= #[trigger] s[i] < w.len(),
    ensures
        pick_sum(w, s) <= total(w),
    decreases w.len(),
{
    if w.len() == 0 {
        if s.len() > 0 {
            assert(0 <= s[0] < w.len());
        }
    } else {
        let last = w.len() - 1;
        if s.contains(last) {
            let p = choose|p: int| 0 <= p < s.len() && s[p] == last;
            let r = s.remove(p);
            lemma_pick_sum_remove(w, s, p);
            assert forall|i: int| 0 <= i < r.len() implies 0 <= #[trigger] r[i] < w.len() - 1 by {
                if i < p {
                    assert(r[i] == s[i]);
                } else {
                    assert(r[i] == s[i + 1]);
                }
            }
            assert(r.no_duplicates()) by {
                assert forall|i: int, j: int| 0 <= i < r.len() && 0 <= j < r.len() && i != j implies r[i]
                    != r[j] by {
                    let i2 = if i < p {
                        i
                    } else {
                        i + 1
                    };
                    let j2 = if j < p {
                        j
                    } else {
                        j + 1
                    };
                    assert(r[i] == s[i2] && r[j] == s[j2]);
                }
            }
            lemma_pick_sum_shrink(w, r);
            lemma_pick_sum_le_total(w.drop_last(), r);
        } else {
            assert forall|i: int| 0 <= i < s.len() implies 0 <= #[trigger] s[i] < w.len() - 1 by {
                assert(s.contains(s[i]));
            }
            lemma_pick_sum_shrink(w, s);
            lemma_pick_sum_le_total(w.drop_last(), s);
        }
    }
}

/// The weight of a listed node is no more than the sum over the list.
pub proof fn lemma_pick_sum_member(w: Seq<nat>, s: Seq<int>, i: int)
    requires
        0 <= i < s.len(),
    ensures
        w[s[i]] <= pick_sum(w, s),
    decreases s.len(),
{
    if i < s.len() - 1 {
        lemma_pick_sum_member(w, s.drop_last(), i);
    }
}

proof fn lemma_flat_members(n: nat, edges: Seq<(int, int)>, comps: Seq<Seq<int>>, k: nat)
    requires
        is_scc_order(n, edges, comps),
        k <= comps.len(),
    ensures
        flat(comps, k).no_duplicates(),
        forall|i: int|
            0 <= i < flat(comps, k).len() ==> 0 <= #[trigger] flat(comps, k)[i] < n && comp_of(
                comps,
                flat(comps, k)[i],
            ) < k,
    decreases k,
{
    if k > 0 {
        let a = flat(comps, (k - 1) as nat);
        let b = comps[k - 1];
        lemma_flat_members(n, edges, comps, (k - 1) as nat);
        assert forall|i: int| 0 <= i < (a + b).len() implies 0 <= #[trigger] (a + b)[i] < n
            && comp_of(comps, (a + b)[i]) < k by {
            if i >= a.len() {
                assert(b.contains(b[i - a.len()]));
            }
        }
        assert forall|i: int, j: int| 0 <= i < (a + b).len() && 0 <= j < (a + b).len() && i != j implies (
        a + b)[i] != (a + b)[j] by {
            if i >= a.len() {
                assert(b.contains(b[i - a.len()]));
            }
            if j >= a.len() {
                assert(b.contains(b[j - a.len()]));
            }
        }
    }
}

/// The sum over the members of the first `k` components grows with `k`.
pub proof fn lemma_prefix_sum_grows(w: Seq<nat>, comps: Seq<Seq<int>>, j: nat, k: nat)
    requires
        j <= k,
    ensures
        prefix_sum(w, comps, j) <= prefix_sum(w, comps, k),
    decreases k,
{
    if j < k {
        lemma_prefix_sum_grows(w, comps, j, (k - 1) as nat);
    }
}

/// The members of any number of leading components weigh no more than all
/// nodes together.
pub proof fn lemma_prefix_sum_le_total(
    w: Seq<nat>,
    edges: Seq<(int, int)>,
    comps: Seq<Seq<int>>,
    k: nat,
)
    requires
        is_scc_order(w.len(), edges, comps),
        k <= comps.len(),
    ensures
        prefix_sum(w, comps, k) <= total(w),
{
    lemma_prefix_sum_flat(w, comps, k);
    lemma_flat_members(w.len(), edges, comps, k);
    lemma_pick_sum_le_total(w, flat(comps, k));
}

} // verus!
