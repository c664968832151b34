//! The part of the call graph that is reached from one function.

use vstd::prelude::*;
use crate::sums::{
    lemma_distinct_len, lemma_pick_sum_le_total, lemma_pick_sum_take, lemma_total_out_degrees,
    out_degrees, pick_sum, total,
};
use vstd::string::StringExecFns;
use crate::graph::{
    dfs_order, edges_within, has_edge, index_list, is_reach_order, lemma_out_targets,
    lemma_reaches_edge, lemma_reaches_trans, out_targets, reaches, CallGraph, Node,
};
use crate::names::{demangle, demangled};
use crate::table::{lookup, position, Table};
use crate::text::{has_prefix, starts_with};

verus! {

/// Whether the graph with `nodes2` and `edges2` is the part of the graph
/// with `nodes` and `edges` that is reached from `start`, node `v` of the
/// latter being node `map[v]` of the former: `start` is its first node; the
/// nodes reached, and no others, have a place in it; each keeps what it
/// held; no two share a place and no place is left empty; and the edges
/// among them are the same.
pub open spec fn is_part_from(
    nodes: Seq<Node>,
    edges: Seq<(int, int)>,
    start: int,
    nodes2: Seq<Node>,
    edges2: Seq<(int, int)>,
    map: Seq<Option<usize>>,
) -> bool {
    &&& map.len() == nodes.len()
    &&& edges_within(edges2, nodes2.len())
    &&& map[start] == Some(0usize)
    &&& forall|v: int| 0 <= v < nodes.len() ==> ((#[trigger] map[v]) is Some <==> reaches(edges, start, v))
    &&& forall|v: int|
        0 <= v < nodes.len() && (#[trigger] map[v]) is Some ==> map[v]->0 < nodes2.len()
            && nodes2[map[v]->0 as int] == nodes[v]
    &&& forall|i: int| 0 <= i < nodes2.len() ==> #[trigger] is_taken(map, i)
    &&& forall|v: int, w: int|
        0 <= v < nodes.len() && 0 <= w < nodes.len() && (#[trigger] map[v]) is Some && map[v]
            == #[trigger] map[w] ==> v == w
    &&& forall|u: int, v: int|
        0 <= u < nodes.len() && map[u] is Some && #[trigger] has_edge(edges, u, v) ==> 0 <= v
            < nodes.len() && map[v] is Some && has_edge(edges2, map[u]->0 as int, map[v]->0 as int)
    &&& forall|i: int, j: int| #[trigger]
        has_edge(edges2, i, j) ==> exists|u: int, v: int|
            0 <= u < nodes.len() && 0 <= v < nodes.len() && map[u] == Some(i as usize) && map[v]
                == Some(j as usize) && #[trigger] has_edge(edges, u, v)
}

/// Whether some node has the place `i`.
pub open spec fn is_taken(map: Seq<Option<usize>>, i: int) -> bool {
    exists|v: int| 0 <= v < map.len() && #[trigger] map[v] == Some(i as usize)
}

/// Whether `map` and `back` pair the nodes of one graph that have a place
/// in another with their places there, and each such node is found again
/// in its place.
pub open spec fn paired(nodes: Seq<Node>, nodes2: Seq<Node>, map: Seq<Option<usize>>, back: Seq<int>) -> bool {
    &&& map.len() == nodes.len()
    &&& back.len() == nodes2.len()
    &&& forall|v: int|
        0 <= v < map.len() && (#[trigger] map[v]) is Some ==> map[v]->0 < nodes2.len() && back[map[v]->0 as int]
            == v && nodes2[map[v]->0 as int] == nodes[v]
    &&& forall|i: int|
        0 <= i < back.len() ==> 0 <= #[trigger] back[i] < nodes.len() && map[back[i]] == Some(i as usize)
}

/// Whether every edge of `edges2` comes from an edge of `edges`.
pub open spec fn edges_from(edges: Seq<(int, int)>, edges2: Seq<(int, int)>, back: Seq<int>) -> bool {
    forall|k: int|
        0 <= k < edges2.len() ==> 0 <= (#[trigger] edges2[k]).0 < back.len() && 0 <= edges2[k].1
            < back.len() && has_edge(edges, back[edges2[k].0], back[edges2[k].1])
}

/// Whether the edges that leave `u` have their counterparts in `edges2`.
pub open spec fn edges_kept(
    edges: Seq<(int, int)>,
    edges2: Seq<(int, int)>,
    map: Seq<Option<usize>>,
    u: int,
) -> bool {
    forall|v: int| #[trigger]
        has_edge(edges, u, v) ==> 0 <= v < map.len() && map[v] is Some && has_edge(
            edges2,
            map[u]->0 as int,
            map[v]->0 as int,
        )
}

/// Gives node `v` a place in the new graph, unless it has one, and returns
/// the place.
fn place(
    g: &CallGraph,
    g2: &mut CallGraph,
    map: &mut Vec<Option<usize>>,
    Ghost(back): Ghost<Seq<int>>,
    v: usize,
) -> (r: (usize, Ghost<Seq<int>>))
    requires
        g.wf(),
        old(g2).wf(),
        paired(g.nodes(), old(g2).nodes(), old(map)@, back),
        v < g.nodes().len(),
    ensures
        final(g2).wf(),
        final(g2).edges() == old(g2).edges(),
        paired(g.nodes(), final(g2).nodes(), final(map)@, r.1@),
        final(map)@[v as int] == Some(r.0),
        r.1@.len() >= back.len(),
        forall|k: int| 0 <= k < back.len() ==> r.1@[k] == back[k],
        forall|w: int| 0 <= w < old(map)@.len() && w != v ==> #[trigger] final(map)@[w] == old(map)@[w],
        old(map)@[v as int] is Some ==> final(map)@ == old(map)@,
        old(map)@[v as int] is None ==> r.0 == old(g2).nodes().len(),
{
    match map[v] {
        Some(i) => (i, Ghost(back)),
        None => {
            let ghost back2 = back.push(v as int);
            proof {
                assert forall|i: int, j: int| 0 <= i < back2.len() && 0 <= j < back2.len() && i != j implies back2[i]
                    != back2[j] by {
                    if i < back.len() {
                        assert(map@[back[i]] == Some(i as usize));
                    }
                    if j < back.len() {
                        assert(map@[back[j]] == Some(j as usize));
                    }
                }
                assert forall|i: int| 0 <= i < back2.len() implies 0 <= #[trigger] back2[i]
                    < g.nodes().len() by {
                    if i < back.len() {
                        assert(0 <= back[i] < g.nodes().len());
                    }
                }
                lemma_distinct_len(back2, g.nodes().len());
            }
            let i = g2.add_node(g.node(v).duplicate());
            map.set(v, Some(i));
            proof {
                assert forall|w: int| 0 <= w < map@.len() && (#[trigger] map@[w]) is Some implies map@[w]->0
                    < g2.nodes().len() && back2[map@[w]->0 as int] == w && g2.nodes()[map@[w]->0 as int]
                    == g.nodes()[w] by {
                    if w != v {
                        assert(old(map)@[w] is Some);
                    }
                }
                assert forall|k: int| 0 <= k < back2.len() implies 0 <= #[trigger] back2[k]
                    < g.nodes().len() && map@[back2[k]] == Some(k as usize) by {
                    if k < back.len() {
                        assert(back[k] != v);
                    }
                }
            }
            (i, Ghost(back2))
        },
    }
}

/// An edge of a list is an edge of the list with one more.
proof fn lemma_has_edge_push(edges: Seq<(int, int)>, e: (int, int), a: int, b: int)
    ensures
        has_edge(edges, a, b) ==> has_edge(edges.push(e), a, b),
        has_edge(edges.push(e), e.0, e.1),
{
    if has_edge(edges, a, b) {
        let k = choose|k: int| 0 <= k < edges.len() && edges[k] == (a, b);
        assert(edges.push(e)[k] == (a, b));
    }
    assert(edges.push(e)[edges.len() as int] == e);
}

/// The part of the graph that is reached from `start`, as a graph of its
/// own, and the place in it of each node that has one.
pub fn part_from(g: &CallGraph, start: usize) -> (r: (CallGraph, Vec<Option<usize>>))
    requires
        g.wf(),
        start < g.nodes().len(),
    ensures
        r.0.wf(),
        is_part_from(g.nodes(), g.edges(), start as int, r.0.nodes(), r.0.edges(), r.1@),
        r.0.edges().len() == pick_sum(
            out_degrees(g.edges(), g.nodes().len()),
            dfs_order(g.nodes().len(), g.edges(), start as int),
        ),
{
    let order = g.reached_from(start);
    let ghost nodes = g.nodes();
    let ghost edges = g.edges();
    let ghost reached = index_list(order@);
    let ghost degrees = out_degrees(edges, nodes.len());
    proof {
        lemma_total_out_degrees(edges, nodes.len());
    }
    let mut g2 = CallGraph::new();
    let mut map: Vec<Option<usize>> = Vec::new();
    let mut t: usize = 0;
    while t < g.node_count()
        invariant
            t <= g.nodes().len(),
            map@.len() == t,
            forall|v: int| 0 <= v < t ==> (#[trigger] map@[v]) is None,
        decreases g.nodes().len() - t,
    {
        map.push(None);
        t += 1;
    }
    let ghost mut back: Seq<int> = Seq::empty();
    let mut p: usize = 0;
    proof {
        assert(reached.take(0) =~= Seq::<int>::empty());
    }
    while p < order.len()
        invariant
            p <= order@.len(),
            g.wf(),
            g2.wf(),
            degrees == out_degrees(edges, nodes.len()),
            total(degrees) == edges.len(),
            g2.edges().len() == pick_sum(degrees, reached.take(p as int)),
            reached == dfs_order(nodes.len(), edges, start as int),
            p == 0 ==> g2.nodes().len() == 0,
            p > 0 ==> map@[start as int] == Some(0usize),
            nodes == g.nodes(),
            edges == g.edges(),
            reached == index_list(order@),
            is_reach_order(edges, start as int, reached),
            forall|j: int| 0 <= j < order@.len() ==> order@[j] < nodes.len(),
            paired(nodes, g2.nodes(), map@, back),
            edges_from(edges, g2.edges(), back),
            forall|v: int| 0 <= v < map@.len() && (#[trigger] map@[v]) is Some ==> reaches(edges, start as int, v),
            forall|q: int| 0 <= q < p ==> map@[#[trigger] reached[q]] is Some && edges_kept(
                edges,
                g2.edges(),
                map@,
                reached[q],
            ),
        decreases order@.len() - p,
    {
        let u = order[p];
        proof {
            assert(reached[p as int] == u as int);
            assert(reached.contains(u as int));
        }
        let ghost map0 = map@;
        let ghost edges0 = g2.edges();
        let placed = place(g, &mut g2, &mut map, Ghost(back), u);
        let u2 = placed.0;
        proof {
            back = placed.1@;
            if p > 0 && u != start {
                assert(map@[start as int] == map0[start as int]);
            }
            if p == 0 {
                assert(reached[0] == start as int);
                assert(map0[start as int] is None);
            }
            assert(map@[start as int] == Some(0usize));
            lemma_pick_sum_take(degrees, reached, p as int);
            let head = reached.take(p + 1);
            assert(head.no_duplicates()) by {
                assert forall|i: int, j: int| 0 <= i < head.len() && 0 <= j < head.len() && i != j implies #[trigger] head[i]
                    != #[trigger] head[j] by {
                    assert(reached[i] != reached[j]);
                }
            }
            assert forall|i: int| 0 <= i < head.len() implies 0 <= #[trigger] head[i] < degrees.len() by {
                assert(reached[i] == order@[i] as int);
            }
            lemma_pick_sum_le_total(degrees, head);
        }
        proof {
            assert forall|q: int| 0 <= q < p implies map@[#[trigger] reached[q]] is Some && edges_kept(
                edges,
                g2.edges(),
                map@,
                reached[q],
            ) by {
                assert(reached[q] == order@[q] as int);
                assert(map0[reached[q]] is Some);
                assert(map@[reached[q]] == map0[reached[q]]);
                assert(edges_kept(edges, edges0, map0, reached[q]));
                assert forall|v: int| #[trigger] has_edge(edges, reached[q], v) implies 0 <= v
                    < map@.len() && map@[v] is Some && has_edge(
                    g2.edges(),
                    map@[reached[q]]->0 as int,
                    map@[v]->0 as int,
                ) by {
                    assert(map0[v] is Some);
                    assert(map@[v] == map0[v]);
                    assert(map@[reached[q]] == map0[reached[q]]);
                }
            }
        }
        let nb = g.neighbors(u);
        let ghost targets = index_list(nb@);
        let mut q: usize = 0;
        while q < nb.len()
            invariant
                q <= nb@.len(),
                p < order@.len(),
                u == order@[p as int],
                u < nodes.len(),
                g.wf(),
                g2.wf(),
                nodes == g.nodes(),
                edges == g.edges(),
                reached == index_list(order@),
                targets == index_list(nb@),
                targets == out_targets(edges, u as int),
                forall|j: int| 0 <= j < nb@.len() ==> nb@[j] < nodes.len(),
                forall|j: int| 0 <= j < order@.len() ==> order@[j] < nodes.len(),
                degrees == out_degrees(edges, nodes.len()),
                total(degrees) == edges.len(),
                g2.edges().len() == pick_sum(degrees, reached.take(p as int)) + q,
                pick_sum(degrees, reached.take(p as int)) + nb@.len() <= edges.len(),
                start < nodes.len(),
                map@[start as int] == Some(0usize),
                reaches(edges, start as int, u as int),
                paired(nodes, g2.nodes(), map@, back),
                edges_from(edges, g2.edges(), back),
                map@[u as int] == Some(u2),
                forall|v: int|
                    0 <= v < map@.len() && (#[trigger] map@[v]) is Some ==> reaches(edges, start as int, v),
                forall|k: int| 0 <= k < p ==> map@[#[trigger] reached[k]] is Some && edges_kept(
                    edges,
                    g2.edges(),
                    map@,
                    reached[k],
                ),
                forall|j: int|
                    0 <= j < q ==> map@[#[trigger] targets[j]] is Some && has_edge(
                        g2.edges(),
                        u2 as int,
                        map@[targets[j]]->0 as int,
                    ),
            decreases nb@.len() - q,
        {
            let v = nb[q];
            proof {
                assert(targets[q as int] == v as int);
                assert(targets.contains(v as int));
                lemma_out_targets(edges, u as int, v as int);
                lemma_reaches_edge(edges, u as int, v as int);
                lemma_reaches_trans(edges, start as int, u as int, v as int);
            }
            let ghost map1 = map@;
            let ghost edges1 = g2.edges();
            let ghost back1 = back;
            let placed = place(g, &mut g2, &mut map, Ghost(back), v);
            let v2 = placed.0;
            proof {
                back = placed.1@;
                assert(map@[start as int] == map1[start as int]);
            }
            g2.add_edge(u2, v2);
            proof {
                let e = (u2 as int, v2 as int);
                assert(g2.edges() == edges1.push(e));
                assert forall|a: int, b: int| has_edge(edges1, a, b) implies has_edge(g2.edges(), a, b) by {
                    lemma_has_edge_push(edges1, e, a, b);
                }
                lemma_has_edge_push(edges1, e, 0, 0);
                assert forall|k: int| 0 <= k < g2.edges().len() implies 0 <= (#[trigger] g2.edges()[k]).0
                    < back.len() && 0 <= g2.edges()[k].1 < back.len() && has_edge(
                    edges,
                    back[g2.edges()[k].0],
                    back[g2.edges()[k].1],
                ) by {
                    if k < edges1.len() {
                        assert(g2.edges()[k] == edges1[k]);
                        assert(0 <= edges1[k].0 < back1.len());
                    } else {
                        assert(back[u2 as int] == u);
                        assert(back[v2 as int] == v);
                    }
                }
                assert forall|k: int| 0 <= k < p implies map@[#[trigger] reached[k]] is Some && edges_kept(
                    edges,
                    g2.edges(),
                    map@,
                    reached[k],
                ) by {
                    assert(reached[k] == order@[k] as int);
                    assert(map1[reached[k]] is Some);
                    assert(map@[reached[k]] == map1[reached[k]]);
                    assert(edges_kept(edges, edges1, map1, reached[k]));
                    assert forall|w: int| #[trigger] has_edge(edges, reached[k], w) implies 0 <= w
                        < map@.len() && map@[w] is Some && has_edge(
                        g2.edges(),
                        map@[reached[k]]->0 as int,
                        map@[w]->0 as int,
                    ) by {
                        assert(map1[w] is Some);
                        assert(map@[w] == map1[w]);
                        assert(map@[reached[k]] == map1[reached[k]]);
                    }
                }
                assert forall|j: int| 0 <= j < q + 1 implies map@[#[trigger] targets[j]] is Some && has_edge(
                    g2.edges(),
                    u2 as int,
                    map@[targets[j]]->0 as int,
                ) by {
                    if j < q {
                        assert(map1[targets[j]] is Some);
                        assert(map@[targets[j]] == map1[targets[j]]);
                    }
                }
                assert(map@[u as int] == Some(u2)) by {
                    if u != v {
                        assert(map@[u as int] == map1[u as int]);
                    }
                }
                assert forall|w: int| 0 <= w < map@.len() && (#[trigger] map@[w]) is Some implies reaches(
                    edges,
                    start as int,
                    w,
                ) by {
                    if w != v {
                        assert(map@[w] == map1[w]);
                    }
                }
            }
            q += 1;
        }
        proof {
            lemma_pick_sum_take(degrees, reached, p as int);
            assert(degrees[u as int] == nb@.len());
            assert(edges_kept(edges, g2.edges(), map@, u as int)) by {
                assert forall|v: int| #[trigger] has_edge(edges, u as int, v) implies 0 <= v < map@.len()
                    && map@[v] is Some && has_edge(g2.edges(), map@[u as int]->0 as int, map@[v]->0 as int) by {
                    lemma_out_targets(edges, u as int, v);
                    let j = choose|j: int| 0 <= j < targets.len() && targets[j] == v;
                    assert(map@[targets[j]] is Some);
                }
            }
        }
        p += 1;
    }
    proof {
        let nodes2 = g2.nodes();
        let edges2 = g2.edges();
        assert(reached.take(p as int) =~= reached);
        assert forall|v: int| 0 <= v < nodes.len() implies ((#[trigger] map@[v]) is Some <==> reaches(
            edges,
            start as int,
            v,
        )) by {
            if reaches(edges, start as int, v) {
                assert(reached.contains(v));
                let j = choose|j: int| 0 <= j < reached.len() && reached[j] == v;
                assert(map@[reached[j]] is Some);
            }
        }
        assert forall|i: int| 0 <= i < nodes2.len() implies #[trigger] is_taken(map@, i) by {
            assert(map@[back[i]] == Some(i as usize));
        }
        assert forall|u: int, v: int|
            0 <= u < nodes.len() && map@[u] is Some && #[trigger] has_edge(edges, u, v) implies 0 <= v
                < nodes.len() && map@[v] is Some && has_edge(
                edges2,
                map@[u]->0 as int,
                map@[v]->0 as int,
            ) by {
            assert(reached.contains(u));
            let j = choose|j: int| 0 <= j < reached.len() && reached[j] == u;
            assert(edges_kept(edges, edges2, map@, reached[j]));
        }
        assert forall|i: int, j: int| #[trigger] has_edge(edges2, i, j) implies exists|u: int, v: int|
            0 <= u < nodes.len() && 0 <= v < nodes.len() && map@[u] == Some(i as usize) && map@[v]
                == Some(j as usize) && #[trigger] has_edge(edges, u, v) by {
            let k = choose|k: int| 0 <= k < edges2.len() && edges2[k] == (i, j);
            assert(edges2[k].0 == i && edges2[k].1 == j);
            assert(has_edge(edges, back[i], back[j]));
            assert(map@[back[i]] == Some(i as usize));
            assert(map@[back[j]] == Some(j as usize));
        }
        assert forall|v: int, w: int|
            0 <= v < nodes.len() && 0 <= w < nodes.len() && (#[trigger] map@[v]) is Some && map@[v]
                == #[trigger] map@[w] implies v == w by {
            assert(back[map@[v]->0 as int] == v);
            assert(back[map@[w]->0 as int] == w);
        }
    }
    (g2, map)
}

/// Whether entry `i` is the last for its name, and the demangled form of
/// the name begins with `prefix`.
pub open spec fn is_hit(entries: Seq<(Seq<char>, usize)>, prefix: Seq<char>, i: int) -> bool {
    position(entries, entries[i].0) == Some(i) && has_prefix(demangled(entries[i].0), prefix)
}

/// The positions among the first `upto` entries of those that are hits.
pub open spec fn hits(entries: Seq<(Seq<char>, usize)>, prefix: Seq<char>, upto: nat) -> Seq<int>
    decreases upto,
{
    if upto == 0 {
        Seq::empty()
    } else if is_hit(entries, prefix, upto - 1) {
        hits(entries, prefix, (upto - 1) as nat).push(upto - 1)
    } else {
        hits(entries, prefix, (upto - 1) as nat)
    }
}

/// The names of the hits for the entry point `start`: the names whose
/// demangled form is `start` followed by `::h` and more.
pub open spec fn hit_names(entries: Seq<(Seq<char>, usize)>, start: Seq<char>) -> Seq<Seq<char>> {
    let h = hits(entries, start + "::h"@, entries.len());
    Seq::new(h.len(), |k: int| entries[h[k]].0)
}

/// The node of the entry point `start`: the node of that name, or else the
/// node of the one name whose demangled form, without its hash, is `start`.
pub open spec fn spec_entry(entries: Seq<(Seq<char>, usize)>, start: Seq<char>) -> Option<usize> {
    match lookup(entries, start) {
        Some(i) => Some(i),
        None => {
            let h = hits(entries, start + "::h"@, entries.len());
            if h.len() == 1 {
                Some(entries[h[0]].1)
            } else {
                None
            }
        },
    }
}

/// Looks for the node of the entry point `start`, and lists the names that
/// match it where its own name is not there.
pub fn find_entry(indices: &Table<usize>, start: &str) -> (r: (Option<usize>, Vec<String>))
    ensures
        r.0 == spec_entry(indices@, start@),
        lookup(indices@, start@) is None ==> crate::symbols::texts(r.1@) == hit_names(indices@, start@),
        lookup(indices@, start@) is Some ==> r.1@.len() == 0,
{
    match indices.get(start) {
        Some(i) => {
            return (Some(*i), Vec::new());
        },
        None => {},
    }
    let mut prefix = start.to_owned();
    prefix.append("::h");
    let ghost entries = indices@;
    let mut names: Vec<String> = Vec::new();
    let mut places: Vec<usize> = Vec::new();
    let mut i: usize = 0;
    while i < indices.len()
        invariant
            i <= indices@.len(),
            entries == indices@,
            prefix@ == start@ + "::h"@,
            names@.len() == places@.len(),
            places@.len() == hits(entries, prefix@, i as nat).len(),
            forall|k: int|
                0 <= k < places@.len() ==> places@[k] as int == hits(entries, prefix@, i as nat)[k]
                    && places@[k] < i && names@[k]@ == entries[places@[k] as int].0,
        decreases indices@.len() - i,
    {
        let key = indices.key_at(i);
        let last = match indices.find(key.as_str()) {
            Some(j) => j == i,
            None => false,
        };
        if last && starts_with(demangle(key.as_str()).as_str(), prefix.as_str()) {
            names.push(key.clone());
            places.push(i);
        }
        i += 1;
    }
    proof {
        let h = hits(entries, start@ + "::h"@, entries.len());
        let shown = crate::symbols::texts(names@);
        let wanted = hit_names(indices@, start@);
        assert(h == hits(entries, prefix@, i as nat));
        assert(shown.len() == wanted.len());
        assert forall|k: int| 0 <= k < shown.len() implies shown[k] == wanted[k] by {
            assert(places@[k] as int == h[k]);
            assert(names@[k]@ == entries[places@[k] as int].0);
        }
        assert(shown =~= wanted);
    }
    if places.len() == 1 {
        (Some(*indices.value_at(places[0])), names)
    } else {
        (None, names)
    }
}

} // verus!
