//! Propagation of stack bounds over the call graph, callees first, one
//! strongly connected component at a time.

use vstd::prelude::*;
use crate::bounds::{bound_of, lemma_edge_within, node_bound_ok, plain_bound_is, propagated};
use crate::components::{
    comp_bound_is, comp_exit_max_is, comp_exits_exact, comp_local_is, comp_locals_exact,
    changed_within, cyclic_among, exit_pair, is_cyclic_comp, lemma_frame, lemma_new_cyclic,
    lemma_new_plain,
};
use crate::graph::{
    comp_of, has_edge, index_list, index_lists, is_scc_order, lemma_out_targets, out_targets,
    same_but_max, scc_order, CallGraph, Node,
};
use crate::sums::{
    lemma_pick_sum_member, lemma_prefix_sum_grows, lemma_prefix_sum_le_total, local_total,
    prefix_sum, total, weights_of,
};
use crate::usage::{lemma_max_of, max_of, spec_add_max, spec_max_of, spec_promoted, Max};

verus! {

/// Tests whether `list` holds the node index `x`.
pub fn contains_index(list: &Vec<usize>, x: usize) -> (r: bool)
    ensures
        r == index_list(list@).contains(x as int),
{
    let mut i: usize = 0;
    while i < list.len()
        invariant
            i <= list.len(),
            forall|j: int| 0 <= j < i ==> list@[j] != x,
        decreases list.len() - i,
    {
        if list[i] == x {
            proof {
                assert(index_list(list@)[i as int] == x as int);
            }
            return true;
        }
        i += 1;
    }
    proof {
        assert forall|j: int| 0 <= j < index_list(list@).len() implies index_list(list@)[j]
            != x as int by {
            assert(list@[j] != x);
        }
    }
    false
}

/// A copy of a list of node indices.
pub fn copy_list(list: &Vec<usize>) -> (r: Vec<usize>)
    ensures
        r@ == list@,
{
    let mut r: Vec<usize> = Vec::new();
    let mut i: usize = 0;
    while i < list.len()
        invariant
            i <= list.len(),
            r@ == list@.take(i as int),
        decreases list.len() - i,
    {
        r.push(list[i]);
        proof {
            assert(list@.take(i + 1) =~= list@.take(i as int).push(list@[i as int]));
        }
        i += 1;
    }
    proof {
        assert(list@.take(i as int) =~= list@);
    }
    r
}

/// Whether `w` is among the first `i` members of `comp`.
pub open spec fn among(comp: Seq<int>, i: int, w: int) -> bool {
    exists|t: int| 0 <= t < i && t < comp.len() && comp[t] == w
}

/// Whether `m` is the bound of a node that `comp` calls outside itself.
pub open spec fn is_exit_bound(nodes: Seq<Node>, edges: Seq<(int, int)>, comp: Seq<int>, m: Max) -> bool {
    exists|w: int, v: int| #[trigger] exit_pair(edges, comp, w, v) && bound_of(nodes, v) == m
}

/// Whether each of `exits` is the bound of a node that `comp` calls outside itself.
pub open spec fn exits_sound(
    exits: Seq<Max>,
    nodes: Seq<Node>,
    edges: Seq<(int, int)>,
    comp: Seq<int>,
) -> bool {
    forall|t: int| 0 <= t < exits.len() ==> is_exit_bound(nodes, edges, comp, #[trigger] exits[t])
}

/// Whether `exits` holds the bound of every node that one of the first `i`
/// members of `comp` calls outside `comp`.
pub open spec fn exits_cover(
    exits: Seq<Max>,
    nodes: Seq<Node>,
    edges: Seq<(int, int)>,
    comp: Seq<int>,
    i: int,
) -> bool {
    forall|w: int, v: int|
        among(comp, i, w) && #[trigger] exit_pair(edges, comp, w, v) ==> exits.contains(
            bound_of(nodes, v),
        )
}

/// The bound of a cyclic component, from the local usage of its members and
/// the bounds of the nodes it calls outside itself.
pub open spec fn cycle_bound_from(locals: Seq<Max>, exits: Seq<Max>) -> Max {
    let local = spec_promoted(spec_max_of(locals)->0);
    match spec_max_of(exits) {
        Some(m) => spec_add_max(m, local),
        None => local,
    }
}

proof fn lemma_cycle_bound(
    nodes: Seq<Node>,
    edges: Seq<(int, int)>,
    comp: Seq<int>,
    locals: Seq<Max>,
    exits: Seq<Max>,
)
    requires
        comp.len() > 0,
        locals.len() == comp.len(),
        forall|t: int| 0 <= t < comp.len() ==> #[trigger] locals[t] == nodes[comp[t]].local.as_max(),
        exits_sound(exits, nodes, edges, comp),
        exits_cover(exits, nodes, edges, comp, comp.len() as int),
        forall|t: int|
            0 <= t < exits.len() ==> (#[trigger] exits[t]).value() + spec_max_of(locals)->0.value()
                <= u64::MAX,
    ensures
        spec_max_of(locals) is Some,
        comp_bound_is(
            nodes,
            edges,
            comp,
            spec_max_of(locals)->0.value(),
            cycle_bound_from(locals, exits),
        ),
{
    lemma_max_of(locals);
    lemma_max_of(exits);
    let lm = spec_max_of(locals)->0;
    let l = lm.value();
    let b = cycle_bound_from(locals, exits);
    let x = (b.value() - l) as nat;
    assert forall|t: int| 0 <= t < comp.len() implies nodes[comp[t]].local.value() == (
    #[trigger] locals[t]).value() && nodes[comp[t]].local.is_exact() == locals[t].is_exact() by {}
    assert(comp_local_is(nodes, comp, l)) by {
        let t = choose|t: int| 0 <= t < locals.len() && locals[t].value() == l;
        assert(nodes[comp[t]].local.value() == l);
        assert forall|i: int| 0 <= i < comp.len() implies nodes[#[trigger] comp[i]].local.value()
            <= l by {
            assert(locals[i].value() <= l);
        }
    }
    assert(lm.is_exact() <==> comp_locals_exact(nodes, comp)) by {
        if lm.is_exact() {
            assert forall|i: int| 0 <= i < comp.len() implies nodes[#[trigger] comp[i]].local.is_exact() by {
                assert(locals[i].is_exact());
            }
        } else {
            let t = choose|t: int| 0 <= t < locals.len() && !locals[t].is_exact();
            assert(!nodes[comp[t]].local.is_exact());
        }
    }
    assert forall|w: int, v: int| #[trigger] exit_pair(edges, comp, w, v) implies exits.contains(
        bound_of(nodes, v),
    ) by {
        let t = choose|t: int| 0 <= t < comp.len() && comp[t] == w;
        assert(among(comp, comp.len() as int, w));
    }
    if exits.len() == 0 {
        assert forall|w: int, v: int| !#[trigger] exit_pair(edges, comp, w, v) by {
            if exit_pair(edges, comp, w, v) {
                assert(exits.contains(bound_of(nodes, v)));
            }
        }
        assert(comp_exit_max_is(nodes, edges, comp, x));
        assert(comp_exits_exact(nodes, edges, comp));
    } else {
        let em = spec_max_of(exits)->0;
        let t = choose|t: int| 0 <= t < exits.len() && exits[t].value() == em.value();
        assert(exits[t].value() + l <= u64::MAX);
        assert(x == em.value());
        assert(is_exit_bound(nodes, edges, comp, exits[t]));
        assert forall|w: int, v: int| #[trigger] exit_pair(edges, comp, w, v) implies bound_of(
            nodes,
            v,
        ).value() <= x by {
            let i = choose|i: int| 0 <= i < exits.len() && exits[i] == bound_of(nodes, v);
            assert(exits[i].value() <= em.value());
        }
        assert(comp_exit_max_is(nodes, edges, comp, x));
        if em.is_exact() {
            assert forall|w: int, v: int| #[trigger] exit_pair(edges, comp, w, v) implies bound_of(
                nodes,
                v,
            ).is_exact() by {
                let i = choose|i: int| 0 <= i < exits.len() && exits[i] == bound_of(nodes, v);
                assert(exits[i].is_exact());
            }
        } else {
            let i = choose|i: int| 0 <= i < exits.len() && !exits[i].is_exact();
            assert(is_exit_bound(nodes, edges, comp, exits[i]));
        }
        assert(em.is_exact() <==> comp_exits_exact(nodes, edges, comp));
    }
}

/// The bound of a node that lies on no cycle, from the bounds of its callees.
fn plain_bound(g: &CallGraph, u: usize, Ghost(cap): Ghost<nat>) -> (b: Max)
    requires
        g.wf(),
        u < g.nodes().len(),
        forall|v: int| #[trigger]
            has_edge(g.edges(), u as int, v) ==> g.nodes()[v].max is Some && bound_of(
                g.nodes(),
                v,
            ).value() <= cap,
        cap + g.nodes()[u as int].local.value() <= u64::MAX,
    ensures
        plain_bound_is(g.nodes(), g.edges(), u as int, b),
        b.value() <= cap + g.nodes()[u as int].local.value(),
{
    let nb = g.neighbors(u);
    let ghost targets = out_targets(g.edges(), u as int);
    let mut items: Vec<Max> = Vec::new();
    let mut j: usize = 0;
    while j < nb.len()
        invariant
            j <= nb.len(),
            g.wf(),
            u < g.nodes().len(),
            index_list(nb@) == out_targets(g.edges(), u as int),
            forall|t: int| 0 <= t < nb@.len() ==> nb@[t] < g.nodes().len(),
            forall|v: int| #[trigger]
                has_edge(g.edges(), u as int, v) ==> g.nodes()[v].max is Some,
            items@.len() == j,
            forall|t: int| 0 <= t < j ==> #[trigger] items@[t] == bound_of(g.nodes(), nb@[t] as int),
        decreases nb.len() - j,
    {
        let v = nb[j];
        proof {
            assert(index_list(nb@)[j as int] == v as int);
            assert(out_targets(g.edges(), u as int).contains(v as int));
            lemma_out_targets(g.edges(), u as int, v as int);
        }
        let m = g.node(v).max.unwrap();
        items.push(m);
        j += 1;
    }
    let em = max_of(&items);
    let local = g.node(u).local;
    proof {
        lemma_max_of(items@);
        assert forall|v: int| #[trigger] has_edge(g.edges(), u as int, v) implies exists|t: int|
            0 <= t < items@.len() && items@[t] == bound_of(g.nodes(), v) by {
            lemma_out_targets(g.edges(), u as int, v);
            let t = choose|t: int| 0 <= t < targets.len() && targets[t] == v;
            assert(index_list(nb@)[t] == nb@[t] as int);
            assert(items@[t] == bound_of(g.nodes(), v));
        }
        assert forall|t: int| 0 <= t < items@.len() implies has_edge(
            g.edges(),
            u as int,
            #[trigger] nb@[t] as int,
        ) by {
            assert(index_list(nb@)[t] == nb@[t] as int);
            assert(targets.contains(nb@[t] as int));
            lemma_out_targets(g.edges(), u as int, nb@[t] as int);
        }
    }
    match em {
        Some(m) => {
            proof {
                let t = choose|t: int| 0 <= t < items@.len() && items@[t].value() == m.value();
                assert(has_edge(g.edges(), u as int, nb@[t] as int));
                if !m.is_exact() {
                    let i = choose|i: int| 0 <= i < items@.len() && !items@[i].is_exact();
                    assert(has_edge(g.edges(), u as int, nb@[i] as int));
                }
            }
            m + local
        },
        None => {
            proof {
                assert forall|v: int| !#[trigger] has_edge(g.edges(), u as int, v) by {
                    if has_edge(g.edges(), u as int, v) {
                        let t = choose|t: int|
                            0 <= t < items@.len() && items@[t] == bound_of(g.nodes(), v);
                    }
                }
            }
            Max::from(local)
        },
    }
}

/// The bound shared by the members of a cyclic component, and the largest
/// local usage among them.
fn cycle_bound(g: &CallGraph, scc: &Vec<usize>, Ghost(cap): Ghost<nat>) -> (r: (Max, Ghost<nat>))
    requires
        g.wf(),
        scc.len() > 0,
        forall|i: int| 0 <= i < scc@.len() ==> scc@[i] < g.nodes().len(),
        forall|w: int, v: int| #[trigger]
            exit_pair(g.edges(), index_list(scc@), w, v) ==> g.nodes()[v].max is Some && bound_of(
                g.nodes(),
                v,
            ).value() <= cap,
        forall|i: int|
            0 <= i < scc@.len() ==> cap + g.nodes()[scc@[i] as int].local.value() <= u64::MAX,
    ensures
        comp_bound_is(g.nodes(), g.edges(), index_list(scc@), r.1@, r.0),
        r.0.value() <= cap + r.1@,
{
    let ghost comp = index_list(scc@);
    let ghost nodes = g.nodes();
    let ghost edges = g.edges();
    let mut locals: Vec<Max> = Vec::new();
    let mut i: usize = 0;
    while i < scc.len()
        invariant
            i <= scc.len(),
            g.wf(),
            nodes == g.nodes(),
            comp == index_list(scc@),
            forall|t: int| 0 <= t < scc@.len() ==> scc@[t] < g.nodes().len(),
            locals@.len() == i,
            forall|t: int| 0 <= t < i ==> #[trigger] locals@[t] == nodes[comp[t]].local.as_max(),
        decreases scc.len() - i,
    {
        let local = g.node(scc[i]).local;
        locals.push(Max::from(local));
        i += 1;
    }
    let mut exits: Vec<Max> = Vec::new();
    let mut i: usize = 0;
    while i < scc.len()
        invariant
            i <= scc.len(),
            g.wf(),
            nodes == g.nodes(),
            edges == g.edges(),
            comp == index_list(scc@),
            forall|t: int| 0 <= t < scc@.len() ==> scc@[t] < g.nodes().len(),
            forall|w: int, v: int| #[trigger]
                exit_pair(edges, comp, w, v) ==> nodes[v].max is Some,
            exits_sound(exits@, nodes, edges, comp),
            exits_cover(exits@, nodes, edges, comp, i as int),
        decreases scc.len() - i,
    {
        let w = scc[i];
        let nb = g.neighbors(w);
        let ghost targets = index_list(nb@);
        let mut j: usize = 0;
        while j < nb.len()
            invariant
                j <= nb.len(),
                i < scc.len(),
                w == scc@[i as int],
                g.wf(),
                nodes == g.nodes(),
                edges == g.edges(),
                comp == index_list(scc@),
                targets == index_list(nb@),
                targets == out_targets(edges, w as int),
                forall|t: int| 0 <= t < nb@.len() ==> nb@[t] < g.nodes().len(),
                forall|w: int, v: int| #[trigger]
                    exit_pair(edges, comp, w, v) ==> nodes[v].max is Some,
                exits_sound(exits@, nodes, edges, comp),
                exits_cover(exits@, nodes, edges, comp, i as int),
                forall|t: int|
                    0 <= t < j && !comp.contains(#[trigger] targets[t]) ==> exits@.contains(
                        bound_of(nodes, targets[t]),
                    ),
            decreases nb.len() - j,
        {
            let v = nb[j];
            if !contains_index(scc, v) {
                proof {
                    assert(targets[j as int] == v as int);
                    assert(targets.contains(v as int));
                    lemma_out_targets(edges, w as int, v as int);
                    assert(comp[i as int] == w as int);
                    assert(comp.contains(w as int));
                    assert(exit_pair(edges, comp, w as int, v as int));
                }
                let m = g.node(v).max.unwrap();
                let ghost before = exits@;
                exits.push(m);
                proof {
                    assert forall|y: Max| before.contains(y) implies exits@.contains(y) by {
                        let t = choose|t: int| 0 <= t < before.len() && before[t] == y;
                        assert(exits@[t] == y);
                    }
                    assert(exits@[before.len() as int] == m);
                    assert(exits@.contains(m));
                    assert(is_exit_bound(nodes, edges, comp, m));
                    assert forall|t: int| 0 <= t < exits@.len() implies is_exit_bound(
                        nodes,
                        edges,
                        comp,
                        #[trigger] exits@[t],
                    ) by {
                        if t < before.len() {
                            assert(exits@[t] == before[t]);
                        }
                    }
                }
            }
            j += 1;
        }
        proof {
            assert forall|w2: int, v: int|
                among(comp, i + 1, w2) && #[trigger] exit_pair(edges, comp, w2, v) implies exits@.contains(
                bound_of(nodes, v),
            ) by {
                let t = choose|t: int| 0 <= t < i + 1 && t < comp.len() && comp[t] == w2;
                if t < i {
                    assert(among(comp, i as int, w2));
                } else {
                    lemma_out_targets(edges, w as int, v);
                    let p = choose|p: int| 0 <= p < targets.len() && targets[p] == v;
                    assert(!comp.contains(targets[p]));
                }
            }
        }
        i += 1;
    }
    proof {
        lemma_max_of(locals@);
        lemma_max_of(exits@);
        let l = spec_max_of(locals@)->0.value();
        let t = choose|t: int| 0 <= t < locals@.len() && locals@[t].value() == l;
        assert(locals@[t] == nodes[comp[t]].local.as_max());
        assert(comp[t] == scc@[t] as int);
        assert(cap + l <= u64::MAX);
        assert forall|t: int| 0 <= t < exits@.len() implies (#[trigger] exits@[t]).value() + l
            <= u64::MAX by {
            assert(is_exit_bound(nodes, edges, comp, exits@[t]));
        }
        lemma_cycle_bound(nodes, edges, comp, locals@, exits@);
    }
    let scc_local = max_of(&locals).unwrap().promoted();
    let b = match max_of(&exits) {
        Some(m) => {
            proof {
                let t = choose|t: int| 0 <= t < exits@.len() && exits@[t].value() == m.value();
                assert(is_exit_bound(nodes, edges, comp, exits@[t]));
            }
            m + scc_local
        },
        None => scc_local,
    };
    (b, Ghost(spec_max_of(locals@)->0.value()))
}

/// Whether every node of the first `k` components has a right bound, no
/// larger than the local usage of all their members together.
pub open spec fn done_before(
    nodes: Seq<Node>,
    edges: Seq<(int, int)>,
    comps: Seq<Seq<int>>,
    w: Seq<nat>,
    k: nat,
) -> bool {
    forall|u: int|
        0 <= u < nodes.len() && comp_of(comps, u) < k ==> #[trigger] node_bound_ok(nodes, edges, u)
            && bound_of(nodes, u).value() <= prefix_sum(w, comps, k)
}

/// Computes the bound of every node, and lists the cycles of the graph.
///
/// The components are visited callees first. A node off every cycle gets its
/// local usage plus the largest bound among its callees. The members of a
/// cycle all get the largest local usage among them plus the largest bound
/// among the nodes that the cycle calls outside itself, as a lower bound
/// unless no member uses any stack. The sums computed stay below the sum of
/// all local usage, which therefore has to fit the machine's integers.
pub fn propagate(g: &mut CallGraph) -> (cycles: Vec<Vec<usize>>)
    requires
        old(g).wf(),
        local_total(old(g).nodes()) <= u64::MAX,
    ensures
        final(g).wf(),
        final(g).edges() == old(g).edges(),
        same_but_max(final(g).nodes(), old(g).nodes()),
        propagated(final(g).nodes(), final(g).edges()),
        index_lists(cycles@) == cyclic_among(
            old(g).edges(),
            scc_order(old(g).nodes().len(), old(g).edges()),
            scc_order(old(g).nodes().len(), old(g).edges()).len(),
        ),
{
    let sccs = g.components();
    let ghost init = g.nodes();
    let ghost edges = g.edges();
    let ghost n = init.len();
    let ghost comps = index_lists(sccs@);
    let ghost w = weights_of(init);
    let mut cycles: Vec<Vec<usize>> = Vec::new();
    let mut k: usize = 0;
    proof {
        assert(index_lists(cycles@) =~= cyclic_among(edges, comps, 0));
    }
    while k < sccs.len()
        invariant
            k <= sccs.len(),
            comps == index_lists(sccs@),
            is_scc_order(n, edges, comps),
            g.wf(),
            g.edges() == edges,
            n == init.len(),
            same_but_max(g.nodes(), init),
            w == weights_of(init),
            total(w) <= u64::MAX,
            done_before(g.nodes(), edges, comps, w, k as nat),
            index_lists(cycles@) == cyclic_among(edges, comps, k as nat),
        decreases sccs.len() - k,
    {
        let scc = &sccs[k];
        let ghost comp = comps[k as int];
        let ghost before = g.nodes();
        let ghost cap = prefix_sum(w, comps, k as nat);
        proof {
            assert(comp == index_list(scc@));
            assert(comp.len() > 0);
            lemma_prefix_sum_le_total(w, edges, comps, (k + 1) as nat);
            assert forall|i: int| 0 <= i < scc@.len() implies scc@[i] < n && cap
                + before[scc@[i] as int].local.value() <= u64::MAX by {
                assert(comp[i] == scc@[i] as int);
                assert(comp.contains(comp[i]));
                lemma_pick_sum_member(w, comp, i);
                assert(w[comp[i]] == init[comp[i]].local.value());
                assert(before[comp[i]].local == init[comp[i]].local);
            }
        }
        let first = scc[0];
        let nb_first = g.neighbors(first);
        let is_a_cycle = scc.len() > 1 || contains_index(&nb_first, first);
        proof {
            assert(comp[0] == first as int);
            lemma_out_targets(edges, first as int, first as int);
            assert(is_a_cycle == is_cyclic_comp(edges, comp));
            assert forall|x: int, v: int| #[trigger] exit_pair(edges, comp, x, v) implies before[v].max is Some
                && bound_of(before, v).value() <= cap by {
                lemma_edge_within(edges, n, x, v);
                assert(comp_of(comps, x) == k);
                assert(comp_of(comps, v) <= comp_of(comps, x));
                assert(comp_of(comps, v) != k);
                assert(node_bound_ok(before, edges, v));
            }
        }
        let r = if is_a_cycle {
            cycle_bound(g, scc, Ghost(cap))
        } else {
            proof {
                assert forall|v: int| #[trigger] has_edge(edges, first as int, v) implies before[v].max is Some
                    && bound_of(before, v).value() <= cap by {
                    lemma_edge_within(edges, n, first as int, v);
                    assert(comp.contains(comp[0]));
                    if comp.contains(v) {
                        let t = choose|t: int| 0 <= t < comp.len() && comp[t] == v;
                    }
                    assert(exit_pair(edges, comp, first as int, v));
                }
            }
            (plain_bound(g, first, Ghost(cap)), Ghost(0nat))
        };
        let b = r.0;
        let ghost l = r.1@;
        if is_a_cycle {
            let ghost listed = cycles@;
            cycles.push(copy_list(scc));
            proof {
                assert(index_lists(cycles@) =~= index_lists(listed).push(comp));
            }
        }
        let mut j: usize = 0;
        while j < scc.len()
            invariant
                j <= scc.len(),
                g.wf(),
                g.edges() == edges,
                g.nodes().len() == n,
                n == before.len(),
                comp == index_list(scc@),
                forall|t: int| 0 <= t < scc@.len() ==> scc@[t] < n,
                forall|v: int|
                    0 <= v < n ==> (#[trigger] g.nodes()[v]).name == before[v].name
                        && g.nodes()[v].local == before[v].local && g.nodes()[v].dashed
                        == before[v].dashed && g.nodes()[v].max == if among(comp, j as int, v) {
                        Some(b)
                    } else {
                        before[v].max
                    },
            decreases scc.len() - j,
        {
            let ghost prev = g.nodes();
            g.set_max(scc[j], b);
            proof {
                assert(comp[j as int] == scc@[j as int] as int);
                assert forall|v: int| 0 <= v < n implies among(comp, j + 1, v) == (among(
                    comp,
                    j as int,
                    v,
                ) || v == comp[j as int]) by {
                    if among(comp, j as int, v) {
                        let t = choose|t: int| 0 <= t < j && t < comp.len() && comp[t] == v;
                        assert(0 <= t < j + 1 && t < comp.len() && comp[t] == v);
                    }
                }
                assert forall|v: int| 0 <= v < n implies (#[trigger] g.nodes()[v]).name
                    == before[v].name && g.nodes()[v].local == before[v].local
                    && g.nodes()[v].dashed == before[v].dashed && g.nodes()[v].max == if among(
                    comp,
                    j + 1,
                    v,
                ) {
                    Some(b)
                } else {
                    before[v].max
                } by {
                    assert(prev[v].name == before[v].name);
                }
            }
            j += 1;
        }
        proof {
            let after = g.nodes();
            assert forall|v: int| comp.contains(v) == among(comp, comp.len() as int, v) by {
                if comp.contains(v) {
                    let t = choose|t: int| 0 <= t < comp.len() && comp[t] == v;
                    assert(among(comp, comp.len() as int, v));
                }
            }
            assert(changed_within(before, after, comp)) by {
                assert forall|v: int| 0 <= v < before.len() implies (#[trigger] after[v]).local
                    == before[v].local && (!comp.contains(v) ==> after[v].max == before[v].max) by {}
            }
            assert(same_but_max(after, init)) by {
                assert forall|i: int| 0 <= i < after.len() implies (#[trigger] after[i]).name
                    == init[i].name && after[i].local == init[i].local && after[i].dashed
                    == init[i].dashed by {
                    assert(before[i].name == init[i].name);
                }
            }
            lemma_prefix_sum_grows(w, comps, k as nat, (k + 1) as nat);
            assert forall|u: int| 0 <= u < after.len() && comp_of(comps, u) < k + 1 implies #[trigger] node_bound_ok(
                after,
                edges,
                u,
            ) && bound_of(after, u).value() <= prefix_sum(w, comps, (k + 1) as nat) by {
                if comp_of(comps, u) < k {
                    assert(node_bound_ok(before, edges, u));
                    lemma_frame(before, after, edges, comps, k as int, u);
                } else {
                    assert(comp.contains(u));
                    assert(after[u].max == Some(b));
                    if is_a_cycle {
                        lemma_new_cyclic(before, after, edges, comps, k as int, u, l, b);
                        let t = choose|t: int|
                            0 <= t < comp.len() && before[#[trigger] comp[t]].local.value() == l;
                        lemma_pick_sum_member(w, comp, t);
                        assert(w[comp[t]] == init[comp[t]].local.value());
                        assert(comp.contains(comp[t]));
                        assert(before[comp[t]].local == init[comp[t]].local);
                    } else {
                        let t = choose|t: int| 0 <= t < comp.len() && comp[t] == u;
                        assert(u == first);
                        lemma_new_plain(before, after, edges, comps, k as int, u, b);
                        lemma_pick_sum_member(w, comp, 0);
                        assert(w[u] == init[u].local.value());
                        assert(before[u].local == init[u].local);
                    }
                }
            }
        }
        k += 1;
    }
    proof {
        assert forall|u: int| 0 <= u < g.nodes().len() implies #[trigger] node_bound_ok(
            g.nodes(),
            edges,
            u,
        ) by {
            assert(0 <= comp_of(comps, u) < comps.len());
        }
    }
    cycles
}

} // verus!
