//! What holds of every graph that is built: aliases lead to the node of
//! their symbol, and calls through pointers lead through a call site.

use vstd::prelude::*;
use crate::analysis::spec_build;
use crate::graph::{has_edge, NodeView};
use crate::ir::{Callee, Define, Ir};
use crate::machine::MachineCode;
use crate::model::Model;
use crate::reconcile::Frame;
use crate::symbols::{spec_alias_of, Symbol, SymbolTable};
use crate::table::{lemma_lookup_push, lookup};
use crate::target::Target;
use crate::usage::Local;

verus! {

/// Whether `b` holds the edges of `a`, in their places, and maybe more.
pub open spec fn edges_grow(a: Seq<(int, int)>, b: Seq<(int, int)>) -> bool {
    a.len() <= b.len() && forall|k: int| 0 <= k < a.len() ==> #[trigger] b[k] == a[k]
}

/// Whether `b` holds the nodes of `a`, in their places, and maybe more.
pub open spec fn nodes_grow(a: Seq<NodeView>, b: Seq<NodeView>) -> bool {
    a.len() <= b.len() && forall|k: int| 0 <= k < a.len() ==> #[trigger] b[k] == a[k]
}

/// Whether two graphs under construction agree in what is recorded of
/// signatures.
pub open spec fn same_records(a: Model, b: Model) -> bool {
    a.sigs == b.sigs && a.callers == b.callers && a.callees == b.callees && a.untyped == b.untyped
}

/// An edge stays where edges are only added.
pub proof fn lemma_edge_stays(a: Seq<(int, int)>, b: Seq<(int, int)>, x: int, y: int)
    requires
        edges_grow(a, b),
        has_edge(a, x, y),
    ensures
        has_edge(b, x, y),
{
    let k = choose|k: int| 0 <= k < a.len() && a[k] == (x, y);
    assert(b[k] == (x, y));
}

/// Whether node `site` is the call site of the signature at position `r`
/// of `m`: it is named after the signature, uses no stack, is called by
/// every caller recorded for the signature, calls every function recorded
/// for it and, where the program holds untyped symbols, a node `?`.
pub open spec fn is_site(m: Model, nodes: Seq<NodeView>, edges: Seq<(int, int)>, r: int, site: int) -> bool {
    &&& 0 <= site < nodes.len()
    &&& nodes[site] == (NodeView {
        name: m.sigs[r].0.push('*'),
        local: Local::Exact(0),
        max: None,
        dashed: true,
    })
    &&& forall|i: int|
        0 <= i < m.callers.len() && (#[trigger] m.callers[i]).0 == r ==> has_edge(
            edges,
            m.callers[i].1,
            site,
        )
    &&& forall|i: int|
        0 <= i < m.callees.len() && (#[trigger] m.callees[i]).0 == r ==> has_edge(
            edges,
            site,
            m.callees[i].1,
        )
    &&& m.untyped ==> exists|q: int|
        0 <= q < nodes.len() && #[trigger] nodes[q] == sentinel() && has_edge(edges, site, q)
}

/// The node `?` that stands for functions of which nothing is known: its
/// local stack usage is unknown.
pub open spec fn sentinel() -> NodeView {
    NodeView { name: "?"@, local: Local::Unknown, max: None, dashed: false }
}

/// Whether the signature at position `r` of `m` has a call site.
pub open spec fn has_site(m: Model, nodes: Seq<NodeView>, edges: Seq<(int, int)>, r: int) -> bool {
    exists|site: int| is_site(m, nodes, edges, r, site)
}

/// A call site stays one where nodes and edges are only added.
proof fn lemma_site_stays(
    m: Model,
    nodes: Seq<NodeView>,
    edges: Seq<(int, int)>,
    nodes2: Seq<NodeView>,
    edges2: Seq<(int, int)>,
    r: int,
)
    requires
        has_site(m, nodes, edges, r),
        nodes_grow(nodes, nodes2),
        edges_grow(edges, edges2),
    ensures
        has_site(m, nodes2, edges2, r),
{
    let site = choose|site: int| is_site(m, nodes, edges, r, site);
    assert(nodes2[site] == nodes[site]);
    assert forall|i: int| 0 <= i < m.callers.len() && (#[trigger] m.callers[i]).0 == r implies has_edge(
        edges2,
        m.callers[i].1,
        site,
    ) by {
        lemma_edge_stays(edges, edges2, m.callers[i].1, site);
    }
    assert forall|i: int| 0 <= i < m.callees.len() && (#[trigger] m.callees[i]).0 == r implies has_edge(
        edges2,
        site,
        m.callees[i].1,
    ) by {
        lemma_edge_stays(edges, edges2, site, m.callees[i].1);
    }
    if m.untyped {
        let q = choose|q: int|
            0 <= q < nodes.len() && #[trigger] nodes[q] == sentinel() && has_edge(edges, site, q);
        assert(nodes2[q] == nodes[q]);
        lemma_edge_stays(edges, edges2, site, q);
    }
    assert(is_site(m, nodes2, edges2, r, site));
}

proof fn lemma_site_callers(m: Model, r: int, site: usize, upto: nat)
    requires
        upto <= m.callers.len(),
        m.with_site_callers(r, site, upto) is Ok,
    ensures
        ({
            let m2 = m.with_site_callers(r, site, upto)->Ok_0;
            &&& m2.nodes == m.nodes
            &&& same_records(m, m2)
            &&& edges_grow(m.edges, m2.edges)
            &&& forall|i: int|
                0 <= i < upto && (#[trigger] m.callers[i]).0 == r ==> has_edge(
                    m2.edges,
                    m.callers[i].1,
                    site as int,
                )
        }),
    decreases upto,
{
    if upto > 0 {
        lemma_site_callers(m, r, site, (upto - 1) as nat);
        let m1 = m.with_site_callers(r, site, (upto - 1) as nat)->Ok_0;
        let m2 = m.with_site_callers(r, site, upto)->Ok_0;
        assert(edges_grow(m1.edges, m2.edges));
        assert forall|i: int| 0 <= i < upto && (#[trigger] m.callers[i]).0 == r implies has_edge(
            m2.edges,
            m.callers[i].1,
            site as int,
        ) by {
            if i < upto - 1 {
                lemma_edge_stays(m1.edges, m2.edges, m.callers[i].1, site as int);
            } else {
                assert(m2.edges[m1.edges.len() as int] == (m.callers[i].1, site as int));
            }
        }
    }
}

proof fn lemma_site_callees(m: Model, r: int, site: usize, upto: nat)
    requires
        upto <= m.callees.len(),
        m.with_site_callees(r, site, upto) is Ok,
    ensures
        ({
            let m2 = m.with_site_callees(r, site, upto)->Ok_0;
            &&& m2.nodes == m.nodes
            &&& same_records(m, m2)
            &&& edges_grow(m.edges, m2.edges)
            &&& forall|i: int|
                0 <= i < upto && (#[trigger] m.callees[i]).0 == r ==> has_edge(
                    m2.edges,
                    site as int,
                    m.callees[i].1,
                )
        }),
    decreases upto,
{
    if upto > 0 {
        lemma_site_callees(m, r, site, (upto - 1) as nat);
        let m1 = m.with_site_callees(r, site, (upto - 1) as nat)->Ok_0;
        let m2 = m.with_site_callees(r, site, upto)->Ok_0;
        assert(edges_grow(m1.edges, m2.edges));
        assert forall|i: int| 0 <= i < upto && (#[trigger] m.callees[i]).0 == r implies has_edge(
            m2.edges,
            site as int,
            m.callees[i].1,
        ) by {
            if i < upto - 1 {
                lemma_edge_stays(m1.edges, m2.edges, site as int, m.callees[i].1);
            } else {
                assert(m2.edges[m1.edges.len() as int] == (site as int, m.callees[i].1));
            }
        }
    }
}

proof fn lemma_call_site(m: Model, r: int)
    requires
        0 <= r < m.sigs.len(),
        m.nodes.len() <= u32::MAX,
        m.with_call_site(r) is Ok,
    ensures
        ({
            let m2 = m.with_call_site(r)->Ok_0;
            &&& same_records(m, m2)
            &&& m2.nodes.len() <= u32::MAX
            &&& nodes_grow(m.nodes, m2.nodes)
            &&& edges_grow(m.edges, m2.edges)
            &&& m.sigs[r].1 ==> is_site(m, m2.nodes, m2.edges, r, m.nodes.len() as int)
        }),
{
    if m.sigs[r].1 {
        let name = m.sigs[r].0.push('*');
        let site = m.nodes.len() as usize;
        let m1 = m.add_node(NodeView { name, local: Local::Exact(0), max: None, dashed: true })->Ok_0;
        lemma_site_callers(m1, r, site, m.callers.len());
        let m2 = m1.with_site_callers(r, site, m.callers.len())->Ok_0;
        let m3 = if m.untyped {
            m2.with_sentinel(site)->Ok_0
        } else if !m.has_callee(r) {
            m2.note(crate::diag::DiagnosticView::NoCallees { name })
        } else {
            m2
        };
        lemma_site_callees(m3, r, site, m.callees.len());
        let m4 = m3.with_site_callees(r, site, m.callees.len())->Ok_0;
        assert(m4 == m.with_call_site(r)->Ok_0);
        assert(edges_grow(m2.edges, m3.edges));
        assert(nodes_grow(m.nodes, m4.nodes));
        assert(m4.nodes[site as int] == m1.nodes[site as int]);
        assert forall|i: int| 0 <= i < m.callers.len() && (#[trigger] m.callers[i]).0 == r implies has_edge(
            m4.edges,
            m.callers[i].1,
            site as int,
        ) by {
            assert(m1.callers[i] == m.callers[i]);
            lemma_edge_stays(m2.edges, m3.edges, m.callers[i].1, site as int);
            lemma_edge_stays(m3.edges, m4.edges, m.callers[i].1, site as int);
        }
        assert forall|i: int| 0 <= i < m.callees.len() && (#[trigger] m.callees[i]).0 == r implies has_edge(
            m4.edges,
            site as int,
            m.callees[i].1,
        ) by {
            assert(m3.callees[i] == m.callees[i]);
        }
        if m.untyped {
            let q = m2.nodes.len() as int;
            assert(m3.edges[m2.edges.len() as int] == (site as int, q));
            assert(has_edge(m3.edges, site as int, q));
            lemma_edge_stays(m3.edges, m4.edges, site as int, q);
            assert(m3.nodes[q] == sentinel());
            assert(m4.nodes[q] == sentinel());
        }
    }
}

proof fn lemma_call_sites_upto(m: Model, upto: nat, r: int)
    requires
        upto <= m.sigs.len(),
        m.nodes.len() <= u32::MAX,
        m.with_call_sites(upto) is Ok,
    ensures
        ({
            let m2 = m.with_call_sites(upto)->Ok_0;
            &&& same_records(m, m2)
            &&& nodes_grow(m.nodes, m2.nodes)
            &&& edges_grow(m.edges, m2.edges)
            &&& m2.nodes.len() <= u32::MAX
            &&& 0 <= r < upto && m.sigs[r].1 ==> has_site(m, m2.nodes, m2.edges, r)
        }),
    decreases upto,
{
    if upto > 0 {
        lemma_call_sites_upto(m, (upto - 1) as nat, r);
        let m1 = m.with_call_sites((upto - 1) as nat)->Ok_0;
        lemma_call_site(m1, upto - 1);
        let m2 = m1.with_call_site(upto - 1)->Ok_0;
        assert(m2 == m.with_call_sites(upto)->Ok_0);
        assert(nodes_grow(m.nodes, m2.nodes)) by {
            assert forall|k: int| 0 <= k < m.nodes.len() implies #[trigger] m2.nodes[k] == m.nodes[k] by {
                assert(m1.nodes[k] == m.nodes[k]);
                assert(m2.nodes[k] == m1.nodes[k]);
            }
        }
        assert(edges_grow(m.edges, m2.edges)) by {
            assert forall|k: int| 0 <= k < m.edges.len() implies #[trigger] m2.edges[k] == m.edges[k] by {
                assert(m1.edges[k] == m.edges[k]);
                assert(m2.edges[k] == m1.edges[k]);
            }
        }
        if 0 <= r < upto && m.sigs[r].1 {
            if r < upto - 1 {
                lemma_site_stays(m, m1.nodes, m1.edges, m2.nodes, m2.edges, r);
            } else {
                assert(is_site(m1, m2.nodes, m2.edges, r, m1.nodes.len() as int));
                assert(is_site(m, m2.nodes, m2.edges, r, m1.nodes.len() as int));
                assert(has_site(m, m2.nodes, m2.edges, r));
            }
        }
    }
}

/// Every signature through which a call goes has a call site in the graph:
/// a node named after the signature to which every function that calls
/// through the signature has an edge, and which has an edge to every
/// function of that signature, and to a node `?` where the program holds
/// symbols of unknown signature.
pub proof fn lemma_called_signature_has_site(m: Model, r: int)
    requires
        m.nodes.len() <= u32::MAX,
        m.resolved() is Ok,
        0 <= r < m.sigs.len(),
        m.sigs[r].1,
    ensures
        has_site(m, m.resolved()->Ok_0.nodes, m.resolved()->Ok_0.edges, r),
{
    let start = if m.untyped {
        m.note(crate::diag::DiagnosticView::UntypedSymbols)
    } else {
        m
    };
    lemma_call_sites_upto(start, m.sigs.len(), r);
    let done = start.with_call_sites(m.sigs.len())->Ok_0;
    let site = choose|site: int| is_site(start, done.nodes, done.edges, r, site);
    assert(is_site(m, done.nodes, done.edges, r, site));
}

/// Whether every name that points to a node points to a node of that name.
pub open spec fn names_indexed(m: Model) -> bool {
    forall|i: int|
        0 <= i < m.indices.len() ==> (#[trigger] m.indices[i]).1 < m.nodes.len() && m.nodes[m.indices[i].1 as int].name
            == m.indices[i].0
}

/// Whether no signature is entered twice.
pub open spec fn sigs_distinct(m: Model) -> bool {
    forall|i: int, j: int|
        0 <= i < m.sigs.len() && 0 <= j < m.sigs.len() && i != j ==> (#[trigger] m.sigs[i]).0
            != (#[trigger] m.sigs[j]).0
}

/// Whether names point to nodes of their name, no signature is entered
/// twice, and the nodes are no more than can be numbered.
pub open spec fn steady(m: Model) -> bool {
    names_indexed(m) && sigs_distinct(m) && m.nodes.len() <= u32::MAX
}

/// Whether `b` holds the entries of `a`, in their places, and maybe more.
pub open spec fn entries_grow(a: Seq<(Seq<char>, usize)>, b: Seq<(Seq<char>, usize)>) -> bool {
    a.len() <= b.len() && forall|k: int| 0 <= k < a.len() ==> #[trigger] b[k] == a[k]
}

/// Whether `b` records of signatures what `a` records, and maybe more: the
/// signatures of `a` are in their places, a signature that is called stays
/// so, and so do the callers and the functions entered for each.
pub open spec fn records_grow(a: Model, b: Model) -> bool {
    &&& a.sigs.len() <= b.sigs.len()
    &&& forall|r: int|
        0 <= r < a.sigs.len() ==> (#[trigger] b.sigs[r]).0 == a.sigs[r].0 && (a.sigs[r].1 ==> b.sigs[r].1)
    &&& edges_grow(a.callers, b.callers)
    &&& edges_grow(a.callees, b.callees)
    &&& a.untyped ==> b.untyped
}

/// Whether `b` is a later state of the graph `a`: names still point to
/// nodes of their name, and nothing that was entered is lost.
pub open spec fn kept(a: Model, b: Model) -> bool {
    steady(b) && entries_grow(a.indices, b.indices) && records_grow(a, b)
}

/// Whether the canonical name of each of the first `upto` symbols points to
/// a node.
pub open spec fn symbols_indexed(m: Model, symbols: Seq<Symbol>, upto: int) -> bool {
    forall|k: int|
        0 <= k < upto && (#[trigger] symbols[k]).spec_canonical() is Some ==> lookup(
            m.indices,
            symbols[k].spec_canonical()->0,
        ) is Some
}

/// A name that points to a node goes on doing so where entries are only added.
proof fn lemma_lookup_stays(a: Seq<(Seq<char>, usize)>, b: Seq<(Seq<char>, usize)>, name: Seq<char>)
    requires
        entries_grow(a, b),
        lookup(a, name) is Some,
    ensures
        lookup(b, name) is Some,
{
    crate::table::lemma_lookup_some(a, name);
    crate::table::lemma_lookup_some(b, name);
    let i = choose|i: int| 0 <= i < a.len() && (#[trigger] a[i]).0 == name;
    assert(b[i].0 == name);
}

proof fn lemma_kept_self(a: Model)
    requires
        steady(a),
    ensures
        kept(a, a),
{
}

proof fn lemma_kept_trans(a: Model, b: Model, c: Model)
    requires
        kept(a, b),
        kept(b, c),
    ensures
        kept(a, c),
{
    assert forall|k: int| 0 <= k < a.indices.len() implies #[trigger] c.indices[k] == a.indices[k] by {
        assert(b.indices[k] == a.indices[k]);
    }
    assert forall|r: int| 0 <= r < a.sigs.len() implies (#[trigger] c.sigs[r]).0 == a.sigs[r].0 && (
    a.sigs[r].1 ==> c.sigs[r].1) by {
        assert(b.sigs[r].0 == a.sigs[r].0);
    }
    assert forall|k: int| 0 <= k < a.callers.len() implies #[trigger] c.callers[k] == a.callers[k] by {
        assert(b.callers[k] == a.callers[k]);
    }
    assert forall|k: int| 0 <= k < a.callees.len() implies #[trigger] c.callees[k] == a.callees[k] by {
        assert(b.callees[k] == a.callees[k]);
    }
}

/// A step that leaves nodes, names and records alone keeps everything.
proof fn lemma_kept_edges(a: Model, b: Model)
    requires
        steady(a),
        b.nodes == a.nodes,
        b.indices == a.indices,
        b.sigs == a.sigs,
        b.callers == a.callers,
        b.callees == a.callees,
        a.untyped ==> b.untyped,
    ensures
        kept(a, b),
{
    assert forall|i: int| 0 <= i < b.indices.len() implies (#[trigger] b.indices[i]).1 < b.nodes.len()
        && b.nodes[b.indices[i].1 as int].name == b.indices[i].0 by {
        assert(a.indices[i].1 < a.nodes.len());
    }
    assert forall|i: int, j: int| 0 <= i < b.sigs.len() && 0 <= j < b.sigs.len() && i != j implies (
    #[trigger] b.sigs[i]).0 != (#[trigger] b.sigs[j]).0 by {
        assert(a.sigs[i].0 != a.sigs[j].0);
    }
}

proof fn lemma_kept_node(a: Model, node: NodeView)
    requires
        steady(a),
        a.add_node(node) is Ok,
    ensures
        kept(a, a.add_node(node)->Ok_0),
{
    let b = a.add_node(node)->Ok_0;
    assert forall|i: int| 0 <= i < b.indices.len() implies (#[trigger] b.indices[i]).1 < b.nodes.len()
        && b.nodes[b.indices[i].1 as int].name == b.indices[i].0 by {
        assert(a.indices[i].1 < a.nodes.len());
        assert(b.nodes[a.indices[i].1 as int] == a.nodes[a.indices[i].1 as int]);
    }
    assert forall|i: int, j: int| 0 <= i < b.sigs.len() && 0 <= j < b.sigs.len() && i != j implies (
    #[trigger] b.sigs[i]).0 != (#[trigger] b.sigs[j]).0 by {
        assert(a.sigs[i].0 != a.sigs[j].0);
    }
}

/// Entering a name for the newest node keeps everything.
proof fn lemma_kept_index(a: Model, name: Seq<char>, i: usize)
    requires
        steady(a),
        i < a.nodes.len(),
        a.nodes[i as int].name == name,
    ensures
        kept(a, a.index(name, i)),
{
    let b = a.index(name, i);
    assert forall|k: int| 0 <= k < b.indices.len() implies (#[trigger] b.indices[k]).1 < b.nodes.len()
        && b.nodes[b.indices[k].1 as int].name == b.indices[k].0 by {
        if k < a.indices.len() {
            assert(b.indices[k] == a.indices[k]);
        }
    }
    assert forall|i: int, j: int| 0 <= i < b.sigs.len() && 0 <= j < b.sigs.len() && i != j implies (
    #[trigger] b.sigs[i]).0 != (#[trigger] b.sigs[j]).0 by {
        assert(a.sigs[i].0 != a.sigs[j].0);
    }
}

/// Entering a function for a signature keeps everything, and the function
/// is then entered for the signature.
proof fn lemma_kept_callee(a: Model, sig: Seq<char>, node: usize) -> (r: int)
    requires
        steady(a),
    ensures
        kept(a, a.with_callee(sig, node)),
        0 <= r < a.with_callee(sig, node).sigs.len(),
        a.with_callee(sig, node).sigs[r].0 == sig,
        a.with_callee(sig, node).callees.len() == a.callees.len() + 1,
        a.with_callee(sig, node).callees[a.callees.len() as int] == (r, node as int),
{
    let b = a.with_callee(sig, node);
    crate::table::lemma_position(a.sigs, sig);
    crate::table::lemma_lookup_some(a.sigs, sig);
    let r = match crate::table::position(a.sigs, sig) {
        Some(r) => r,
        None => a.sigs.len() as int,
    };
    assert forall|i: int, j: int| 0 <= i < b.sigs.len() && 0 <= j < b.sigs.len() && i != j implies (
    #[trigger] b.sigs[i]).0 != (#[trigger] b.sigs[j]).0 by {
        if i < a.sigs.len() && j < a.sigs.len() {
            assert(a.sigs[i].0 != a.sigs[j].0);
        } else if i < a.sigs.len() {
            assert(a.sigs[i].0 != sig);
        } else if j < a.sigs.len() {
            assert(a.sigs[j].0 != sig);
        }
    }
    assert forall|i: int| 0 <= i < b.indices.len() implies (#[trigger] b.indices[i]).1 < b.nodes.len()
        && b.nodes[b.indices[i].1 as int].name == b.indices[i].0 by {
        assert(a.indices[i].1 < a.nodes.len());
    }
    r
}

/// A call through a pointer keeps everything, marks its signature as
/// called and enters the caller for it.
proof fn lemma_kept_indirect(a: Model, caller: usize, sig: Seq<char>) -> (r: int)
    requires
        steady(a),
    ensures
        kept(a, a.with_indirect(caller, sig)),
        0 <= r < a.with_indirect(caller, sig).sigs.len(),
        a.with_indirect(caller, sig).sigs[r] == (sig, true),
        a.with_indirect(caller, sig).callers.contains((r, caller as int)),
{
    let b = a.with_indirect(caller, sig);
    crate::table::lemma_position(a.sigs, sig);
    crate::table::lemma_lookup_some(a.sigs, sig);
    let r = match crate::table::position(a.sigs, sig) {
        Some(r) => r,
        None => a.sigs.len() as int,
    };
    assert(b.sigs[r] == (sig, true));
    if crate::table::position(a.sigs, sig) is Some && a.callers.contains((r, caller as int)) {
        let t = choose|t: int| 0 <= t < a.callers.len() && a.callers[t] == (r, caller as int);
        assert(b.callers[t] == (r, caller as int));
    } else {
        assert(b.callers[a.callers.len() as int] == (r, caller as int));
    }
    assert forall|i: int, j: int| 0 <= i < b.sigs.len() && 0 <= j < b.sigs.len() && i != j implies (
    #[trigger] b.sigs[i]).0 != (#[trigger] b.sigs[j]).0 by {
        if i < a.sigs.len() && j < a.sigs.len() {
            assert(a.sigs[i].0 != a.sigs[j].0);
        } else if i < a.sigs.len() {
            assert(a.sigs[i].0 != sig);
        } else if j < a.sigs.len() {
            assert(a.sigs[j].0 != sig);
        }
    }
    assert forall|i: int| 0 <= i < b.indices.len() implies (#[trigger] b.indices[i]).1 < b.nodes.len()
        && b.nodes[b.indices[i].1 as int].name == b.indices[i].0 by {
        assert(a.indices[i].1 < a.nodes.len());
    }
    r
}

/// The node of a symbol keeps everything; its canonical name then points
/// to a node, and the node is entered for the signature of the symbol.
proof fn lemma_kept_symbol(m: Model, symbols: Seq<Symbol>, ir: Ir, decoder: bool, k: int) -> (rt: (
    int,
    int,
))
    requires
        0 <= k < symbols.len(),
        steady(m),
        m.with_symbol(symbols, ir, decoder, k) is Ok,
    ensures
        kept(m, m.with_symbol(symbols, ir, decoder, k)->Ok_0),
        symbols[k].spec_canonical() is Some ==> lookup(
            m.with_symbol(symbols, ir, decoder, k)->Ok_0.indices,
            symbols[k].spec_canonical()->0,
        ) == Some(m.nodes.len() as usize),
        symbols[k].spec_canonical() is Some && ir.spec_symbol_sig(symbols[k].names_view()) is Some
            ==> {
            let m2 = m.with_symbol(symbols, ir, decoder, k)->Ok_0;
            &&& 0 <= rt.0 < m2.sigs.len()
            &&& 0 <= rt.1 < m2.callees.len()
            &&& m2.sigs[rt.0].0 == ir.spec_symbol_sig(symbols[k].names_view())->0
            &&& m2.callees[rt.1] == (rt.0, m.nodes.len() as int)
        },
        is_untyped(symbols, ir, k) ==> m.with_symbol(symbols, ir, decoder, k)->Ok_0.untyped,
{
    let m2 = m.with_symbol(symbols, ir, decoder, k)->Ok_0;
    match symbols[k].spec_canonical() {
        None => {
            lemma_kept_self(m);
            (0, 0)
        },
        Some(c) => {
            let stack = match crate::symbols::spec_stack_of(symbols, c) {
                Some(s) => s,
                None => None,
            };
            let node = NodeView { name: c, local: Local::from_option_spec(stack), max: None, dashed: false };
            let idx = m.nodes.len() as usize;
            let a1 = m.add_node(node)->Ok_0;
            lemma_kept_node(m, node);
            let a2 = a1.index(c, idx);
            lemma_kept_index(a1, c, idx);
            lemma_kept_trans(m, a1, a2);
            lemma_lookup_push(a1.indices, c, idx, c);
            let a3 = if stack is None && !decoder {
                a2.note(crate::diag::DiagnosticView::NoStackInfo { name: c })
            } else {
                a2
            };
            lemma_kept_edges(a2, a3);
            lemma_kept_trans(m, a2, a3);
            match ir.spec_symbol_sig(symbols[k].names_view()) {
                Some(sig) => {
                    let r = lemma_kept_callee(a3, sig, idx);
                    lemma_kept_trans(m, a3, m2);
                    assert(m2.sigs[r].0 == sig);
                    assert(m2.callees[a3.callees.len() as int] == (r, idx as int));
                    (r, a3.callees.len() as int)
                },
                None => {
                    lemma_kept_edges(a3, m2);
                    lemma_kept_trans(m, a3, m2);
                    (0, 0)
                },
            }
        },
    }
}

/// A fold that comes to an end came to an end at every step.
proof fn lemma_symbols_ok(m: Model, symbols: Seq<Symbol>, ir: Ir, decoder: bool, j: nat, upto: nat)
    requires
        j <= upto,
        m.with_symbols(symbols, ir, decoder, upto) is Ok,
    ensures
        m.with_symbols(symbols, ir, decoder, j) is Ok,
    decreases upto,
{
    if j < upto {
        lemma_symbols_ok(m, symbols, ir, decoder, j, (upto - 1) as nat);
    }
}

proof fn lemma_kept_symbols(m: Model, symbols: Seq<Symbol>, ir: Ir, decoder: bool, j: nat, upto: nat)
    requires
        j <= upto <= symbols.len(),
        m.with_symbols(symbols, ir, decoder, upto) is Ok,
        m.with_symbols(symbols, ir, decoder, j) is Ok,
        steady(m.with_symbols(symbols, ir, decoder, j)->Ok_0),
    ensures
        kept(
            m.with_symbols(symbols, ir, decoder, j)->Ok_0,
            m.with_symbols(symbols, ir, decoder, upto)->Ok_0,
        ),
    decreases upto,
{
    if j < upto {
        lemma_symbols_ok(m, symbols, ir, decoder, (upto - 1) as nat, upto);
        lemma_kept_symbols(m, symbols, ir, decoder, j, (upto - 1) as nat);
        let m1 = m.with_symbols(symbols, ir, decoder, (upto - 1) as nat)->Ok_0;
        let _ = lemma_kept_symbol(m1, symbols, ir, decoder, upto - 1);
        lemma_kept_trans(
            m.with_symbols(symbols, ir, decoder, j)->Ok_0,
            m1,
            m.with_symbols(symbols, ir, decoder, upto)->Ok_0,
        );
    } else {
        lemma_kept_self(m.with_symbols(symbols, ir, decoder, j)->Ok_0);
    }
}

proof fn lemma_symbols_indexed(m: Model, symbols: Seq<Symbol>, ir: Ir, decoder: bool, upto: nat)
    requires
        upto <= symbols.len(),
        steady(m),
        m.with_symbols(symbols, ir, decoder, upto) is Ok,
    ensures
        symbols_indexed(m.with_symbols(symbols, ir, decoder, upto)->Ok_0, symbols, upto as int),
    decreases upto,
{
    if upto > 0 {
        lemma_symbols_ok(m, symbols, ir, decoder, (upto - 1) as nat, upto);
        lemma_symbols_indexed(m, symbols, ir, decoder, (upto - 1) as nat);
        let m1 = m.with_symbols(symbols, ir, decoder, (upto - 1) as nat)->Ok_0;
        let m2 = m.with_symbols(symbols, ir, decoder, upto)->Ok_0;
        lemma_kept_symbols(m, symbols, ir, decoder, 0, (upto - 1) as nat);
        let _ = lemma_kept_symbol(m1, symbols, ir, decoder, upto - 1);
        assert forall|j: int|
            0 <= j < upto && (#[trigger] symbols[j]).spec_canonical() is Some implies lookup(
            m2.indices,
            symbols[j].spec_canonical()->0,
        ) is Some by {
            if j < upto - 1 {
                lemma_lookup_stays(m1.indices, m2.indices, symbols[j].spec_canonical()->0);
            }
        }
    }
}

/// The alias of a name is the canonical name of the last symbol that lists it.
proof fn lemma_alias_is_canonical(symbols: Seq<Symbol>, name: Seq<char>) -> (k: int)
    requires
        spec_alias_of(symbols, name) is Some,
    ensures
        0 <= k < symbols.len(),
        symbols[k].lists(name),
        symbols[k].spec_canonical() == spec_alias_of(symbols, name),
        forall|j: int| k < j < symbols.len() ==> !(#[trigger] symbols[j]).lists(name),
    decreases symbols.len(),
{
    if symbols.last().lists(name) {
        symbols.len() - 1
    } else {
        let k = lemma_alias_is_canonical(symbols.drop_last(), name);
        assert(symbols.drop_last()[k] == symbols[k]);
        assert forall|j: int| k < j < symbols.len() implies !(#[trigger] symbols[j]).lists(name) by {
            if j < symbols.len() - 1 {
                assert(symbols.drop_last()[j] == symbols[j]);
            }
        }
        k
    }
}

/// A symbol that lists a name has a canonical name.
proof fn lemma_lists_has_canonical(sym: Symbol, name: Seq<char>)
    requires
        sym.lists(name),
    ensures
        sym.spec_canonical() is Some,
{
    let names = sym.names_view();
    let t = choose|t: int| 0 <= t < names.len() && names[t] == name;
    lemma_plain_found(names, 0, t);
}

proof fn lemma_plain_found(names: Seq<Seq<char>>, from: int, at: int)
    requires
        0 <= from <= at < names.len(),
        !crate::names::spec_is_tag(names[at]),
    ensures
        crate::symbols::first_plain(names, from) is Some,
    decreases at - from,
{
    if from < at && crate::names::spec_is_tag(names[from]) {
        lemma_plain_found(names, from + 1, at);
    }
}

proof fn lemma_alias_of_last(symbols: Seq<Symbol>, k: int, name: Seq<char>)
    requires
        0 <= k < symbols.len(),
        symbols[k].lists(name),
        forall|j: int| k < j < symbols.len() ==> !(#[trigger] symbols[j]).lists(name),
    ensures
        spec_alias_of(symbols, name) == symbols[k].spec_canonical(),
    decreases symbols.len(),
{
    if k < symbols.len() - 1 {
        assert(!symbols[symbols.len() - 1].lists(name));
        assert(symbols.drop_last()[k] == symbols[k]);
        assert forall|j: int| k < j < symbols.drop_last().len() implies !(#[trigger] symbols.drop_last()[j]).lists(
            name,
        ) by {
            assert(symbols.drop_last()[j] == symbols[j]);
        }
        lemma_alias_of_last(symbols.drop_last(), k, name);
    }
}

proof fn lemma_link_named_same(m: Model, caller: usize, names: Seq<Seq<char>>, upto: nat)
    requires
        m.link_named(caller, names, upto) is Ok,
    ensures
        m.link_named(caller, names, upto)->Ok_0.nodes == m.nodes,
        m.link_named(caller, names, upto)->Ok_0.indices == m.indices,
        same_records(m, m.link_named(caller, names, upto)->Ok_0),
    decreases upto,
{
    if upto > 0 {
        lemma_link_named_same(m, caller, names, (upto - 1) as nat);
    }
}

proof fn lemma_kept_plain(m: Model, table: SymbolTable, caller: usize, func: Seq<char>)
    requires
        steady(m),
        m.with_plain(table, caller, func) is Ok,
    ensures
        kept(m, m.with_plain(table, caller, func)->Ok_0),
{
    let b = m.with_plain(table, caller, func)->Ok_0;
    if b.nodes == m.nodes && b.indices == m.indices {
        lemma_kept_edges(m, b);
    } else {
        let node = NodeView { name: func, local: Local::Unknown, max: None, dashed: false };
        let m1 = m.add_node(node)->Ok_0;
        lemma_kept_node(m, node);
        let m2 = m1.index(func, m.nodes.len() as usize);
        lemma_kept_index(m1, func, m.nodes.len() as usize);
        lemma_kept_trans(m, m1, m2);
        lemma_kept_edges(m2, b);
        lemma_kept_trans(m, m2, b);
    }
}

proof fn lemma_kept_call(m: Model, table: SymbolTable, decoder: bool, caller: usize, callee: Callee)
    requires
        steady(m),
        m.with_call(table, decoder, caller, callee) is Ok,
    ensures
        kept(m, m.with_call(table, decoder, caller, callee)->Ok_0),
{
    let b = m.with_call(table, decoder, caller, callee)->Ok_0;
    match callee {
        Callee::Direct { name } => {
            match crate::intrinsics::spec_classify(name@, decoder) {
                crate::intrinsics::Policy::Memcpy => {
                    lemma_link_named_same(
                        m,
                        caller,
                        crate::intrinsics::spec_memcpy_names(),
                        crate::intrinsics::spec_memcpy_names().len(),
                    );
                    lemma_kept_edges(m, b);
                },
                crate::intrinsics::Policy::Memset => {
                    lemma_link_named_same(
                        m,
                        caller,
                        crate::intrinsics::spec_memset_names(),
                        crate::intrinsics::spec_memset_names().len(),
                    );
                    lemma_kept_edges(m, b);
                },
                crate::intrinsics::Policy::Plain => {
                    lemma_kept_plain(m, table, caller, name@);
                },
                _ => {
                    lemma_kept_edges(m, b);
                },
            }
        },
        Callee::Indirect { sig } => {
            let r = lemma_kept_indirect(m, caller, sig@);
        },
    }
}

proof fn lemma_calls_ok(
    m: Model,
    table: SymbolTable,
    decoder: bool,
    caller: usize,
    callees: Seq<Callee>,
    j: nat,
    upto: nat,
)
    requires
        j <= upto,
        m.with_calls(table, decoder, caller, callees, upto) is Ok,
    ensures
        m.with_calls(table, decoder, caller, callees, j) is Ok,
    decreases upto,
{
    if j < upto {
        lemma_calls_ok(m, table, decoder, caller, callees, j, (upto - 1) as nat);
    }
}

proof fn lemma_kept_calls(
    m: Model,
    table: SymbolTable,
    decoder: bool,
    caller: usize,
    callees: Seq<Callee>,
    j: nat,
    upto: nat,
)
    requires
        j <= upto,
        m.with_calls(table, decoder, caller, callees, upto) is Ok,
        m.with_calls(table, decoder, caller, callees, j) is Ok,
        steady(m.with_calls(table, decoder, caller, callees, j)->Ok_0),
    ensures
        kept(
            m.with_calls(table, decoder, caller, callees, j)->Ok_0,
            m.with_calls(table, decoder, caller, callees, upto)->Ok_0,
        ),
    decreases upto,
{
    if j < upto {
        lemma_calls_ok(m, table, decoder, caller, callees, (upto - 1) as nat, upto);
        lemma_kept_calls(m, table, decoder, caller, callees, j, (upto - 1) as nat);
        let m1 = m.with_calls(table, decoder, caller, callees, (upto - 1) as nat)->Ok_0;
        lemma_kept_call(m1, table, decoder, caller, callees[upto - 1]);
        lemma_kept_trans(
            m.with_calls(table, decoder, caller, callees, j)->Ok_0,
            m1,
            m.with_calls(table, decoder, caller, callees, upto)->Ok_0,
        );
    } else {
        lemma_kept_self(m.with_calls(table, decoder, caller, callees, j)->Ok_0);
    }
}

proof fn lemma_kept_define(m: Model, table: SymbolTable, decoder: bool, define: Define)
    requires
        steady(m),
        m.with_define(table, decoder, define) is Ok,
    ensures
        kept(m, m.with_define(table, decoder, define)->Ok_0),
{
    let m2 = m.with_define(table, decoder, define)->Ok_0;
    if spec_alias_of(table.defined@, define.name@) is Some && lookup(
        m.indices,
        spec_alias_of(table.defined@, define.name@)->0,
    ) is Some {
        let c = spec_alias_of(table.defined@, define.name@)->0;
        let caller = lookup(m.indices, c)->0;
        let start = m.mark_body(caller, define.inline_asm);
        lemma_kept_edges(m, start);
        lemma_kept_calls(start, table, decoder, caller, define.callees@, 0, define.callees@.len());
        lemma_kept_trans(m, start, m2);
    } else {
        lemma_kept_self(m);
    }
}

proof fn lemma_defines_ok(m: Model, table: SymbolTable, decoder: bool, defines: Seq<Define>, j: nat, upto: nat)
    requires
        j <= upto,
        m.with_defines(table, decoder, defines, upto) is Ok,
    ensures
        m.with_defines(table, decoder, defines, j) is Ok,
    decreases upto,
{
    if j < upto {
        lemma_defines_ok(m, table, decoder, defines, j, (upto - 1) as nat);
    }
}

proof fn lemma_kept_defines(
    m: Model,
    table: SymbolTable,
    decoder: bool,
    defines: Seq<Define>,
    j: nat,
    upto: nat,
)
    requires
        j <= upto,
        m.with_defines(table, decoder, defines, upto) is Ok,
        m.with_defines(table, decoder, defines, j) is Ok,
        steady(m.with_defines(table, decoder, defines, j)->Ok_0),
    ensures
        kept(
            m.with_defines(table, decoder, defines, j)->Ok_0,
            m.with_defines(table, decoder, defines, upto)->Ok_0,
        ),
    decreases upto,
{
    if j < upto {
        lemma_defines_ok(m, table, decoder, defines, (upto - 1) as nat, upto);
        lemma_kept_defines(m, table, decoder, defines, j, (upto - 1) as nat);
        let m1 = m.with_defines(table, decoder, defines, (upto - 1) as nat)->Ok_0;
        lemma_kept_define(m1, table, decoder, defines[upto - 1]);
        lemma_kept_trans(
            m.with_defines(table, decoder, defines, j)->Ok_0,
            m1,
            m.with_defines(table, decoder, defines, upto)->Ok_0,
        );
    } else {
        lemma_kept_self(m.with_defines(table, decoder, defines, j)->Ok_0);
    }
}

proof fn lemma_kept_frame(m: Model, name: Seq<char>, caller: usize, frame: Frame)
    requires
        steady(m),
        caller < m.nodes.len(),
    ensures
        kept(m, m.with_frame(name, caller, frame)),
        m.with_frame(name, caller, frame).bodies == m.bodies,
{
    let b = m.with_frame(name, caller, frame);
    assert forall|i: int| 0 <= i < b.indices.len() implies (#[trigger] b.indices[i]).1 < b.nodes.len()
        && b.nodes[b.indices[i].1 as int].name == b.indices[i].0 by {
        assert(m.indices[i].1 < m.nodes.len());
    }
    assert forall|i: int, j: int| 0 <= i < b.sigs.len() && 0 <= j < b.sigs.len() && i != j implies (
    #[trigger] b.sigs[i]).0 != (#[trigger] b.sigs[j]).0 by {
        assert(m.sigs[i].0 != m.sigs[j].0);
    }
}

proof fn lemma_calls_at_same(
    m: Model,
    table: SymbolTable,
    target: Target,
    caller: usize,
    address: u64,
    offsets: Seq<i32>,
    upto: nat,
)
    requires
        m.with_calls_at(table, target, caller, address, offsets, upto) is Ok,
    ensures
        m.with_calls_at(table, target, caller, address, offsets, upto)->Ok_0.nodes == m.nodes,
        m.with_calls_at(table, target, caller, address, offsets, upto)->Ok_0.indices == m.indices,
        same_records(m, m.with_calls_at(table, target, caller, address, offsets, upto)->Ok_0),
    decreases upto,
{
    if upto > 0 {
        lemma_calls_at_same(m, table, target, caller, address, offsets, (upto - 1) as nat);
    }
}

proof fn lemma_jumps_at_same(
    m: Model,
    table: SymbolTable,
    target: Target,
    caller: usize,
    address: u64,
    size: u32,
    offsets: Seq<i32>,
    upto: nat,
)
    requires
        m.with_jumps_at(table, target, caller, address, size, offsets, upto) is Ok,
    ensures
        m.with_jumps_at(table, target, caller, address, size, offsets, upto)->Ok_0.nodes == m.nodes,
        m.with_jumps_at(table, target, caller, address, size, offsets, upto)->Ok_0.indices == m.indices,
        same_records(m, m.with_jumps_at(table, target, caller, address, size, offsets, upto)->Ok_0),
    decreases upto,
{
    if upto > 0 {
        lemma_jumps_at_same(m, table, target, caller, address, size, offsets, (upto - 1) as nat);
    }
}

proof fn lemma_kept_machine_code(m: Model, table: SymbolTable, target: Target, k: int, code: MachineCode)
    requires
        steady(m),
        m.with_machine_code(table, target, k, code) is Ok,
    ensures
        kept(m, m.with_machine_code(table, target, k, code)->Ok_0),
{
    let b = m.with_machine_code(table, target, k, code)->Ok_0;
    let address = table.defined@[k].address;
    if table.defined@[k].spec_canonical() is Some && lookup(
        m.indices,
        table.defined@[k].spec_canonical()->0,
    ) is Some {
        let name = table.defined@[k].spec_canonical()->0;
        crate::table::lemma_lookup_some(m.indices, name);
        let caller = lookup(m.indices, name)->0;
        let t = choose|t: int| 0 <= t < m.indices.len() && #[trigger] m.indices[t] == (name, caller);
        assert(m.indices[t].1 < m.nodes.len());
        let frame = Frame { size: code.stack, modifies_sp: code.modifies_sp };
        let m1 = m.with_frame(name, caller, frame);
        lemma_kept_frame(m, name, caller, frame);
        let m2 = if code.indirect && !m.bodies.contains(caller) {
            m1.with_unknown_callee(name, caller)->Ok_0
        } else {
            m1
        };
        if code.indirect && !m.bodies.contains(caller) {
            let noted = m1.note(crate::diag::DiagnosticView::UntypedIndirectCall { name });
            lemma_kept_edges(m1, noted);
            let node = NodeView { name: "?"@, local: Local::Unknown, max: None, dashed: false };
            lemma_kept_node(noted, node);
            let m15 = noted.add_node(node)->Ok_0;
            lemma_kept_edges(m15, m2);
            lemma_kept_trans(m1, noted, m15);
            lemma_kept_trans(m1, m15, m2);
        } else {
            lemma_kept_self(m1);
        }
        lemma_kept_trans(m, m1, m2);
        lemma_calls_at_same(m2, table, target, caller, address, code.calls@, code.calls@.len());
        let m3 = m2.with_calls_at(table, target, caller, address, code.calls@, code.calls@.len())->Ok_0;
        lemma_kept_edges(m2, m3);
        lemma_kept_trans(m, m2, m3);
        lemma_jumps_at_same(m3, table, target, caller, address, code.size, code.jumps@, code.jumps@.len());
        lemma_kept_edges(m3, b);
        lemma_kept_trans(m, m3, b);
    } else {
        lemma_kept_self(m);
    }
}

proof fn lemma_kept_machine_codes(
    m: Model,
    table: SymbolTable,
    target: Target,
    codes: Seq<Option<MachineCode>>,
    upto: nat,
)
    requires
        steady(m),
        m.with_machine_codes(table, target, codes, upto) is Ok,
    ensures
        kept(m, m.with_machine_codes(table, target, codes, upto)->Ok_0),
    decreases upto,
{
    if upto > 0 {
        lemma_kept_machine_codes(m, table, target, codes, (upto - 1) as nat);
        let m1 = m.with_machine_codes(table, target, codes, (upto - 1) as nat)->Ok_0;
        if upto - 1 < codes.len() && codes[upto - 1] is Some {
            lemma_kept_machine_code(m1, table, target, upto - 1, codes[upto - 1]->0);
            lemma_kept_trans(m, m1, m1.with_machine_code(table, target, upto - 1, codes[upto - 1]->0)->Ok_0);
        }
    } else {
        lemma_kept_self(m);
    }
}

proof fn lemma_site_callers_same(m: Model, r: int, site: usize, upto: nat)
    requires
        m.with_site_callers(r, site, upto) is Ok,
    ensures
        m.with_site_callers(r, site, upto)->Ok_0.nodes == m.nodes,
        m.with_site_callers(r, site, upto)->Ok_0.indices == m.indices,
        same_records(m, m.with_site_callers(r, site, upto)->Ok_0),
    decreases upto,
{
    if upto > 0 {
        lemma_site_callers_same(m, r, site, (upto - 1) as nat);
    }
}

proof fn lemma_site_callees_same(m: Model, r: int, site: usize, upto: nat)
    requires
        m.with_site_callees(r, site, upto) is Ok,
    ensures
        m.with_site_callees(r, site, upto)->Ok_0.nodes == m.nodes,
        m.with_site_callees(r, site, upto)->Ok_0.indices == m.indices,
        same_records(m, m.with_site_callees(r, site, upto)->Ok_0),
    decreases upto,
{
    if upto > 0 {
        lemma_site_callees_same(m, r, site, (upto - 1) as nat);
    }
}

proof fn lemma_kept_call_site(m: Model, r: int)
    requires
        steady(m),
        m.with_call_site(r) is Ok,
    ensures
        kept(m, m.with_call_site(r)->Ok_0),
{
    let b = m.with_call_site(r)->Ok_0;
    if !m.sigs[r].1 {
        lemma_kept_self(m);
    } else {
        let name = m.sigs[r].0.push('*');
        let site = m.nodes.len() as usize;
        let node = NodeView { name, local: Local::Exact(0), max: None, dashed: true };
        let m1 = m.add_node(node)->Ok_0;
        lemma_kept_node(m, node);
        lemma_site_callers_same(m1, r, site, m.callers.len());
        let m2 = m1.with_site_callers(r, site, m.callers.len())->Ok_0;
        lemma_kept_edges(m1, m2);
        lemma_kept_trans(m, m1, m2);
        let m3 = if m.untyped {
            m2.with_sentinel(site)->Ok_0
        } else if !m.has_callee(r) {
            m2.note(crate::diag::DiagnosticView::NoCallees { name })
        } else {
            m2
        };
        if m.untyped {
            let q = NodeView { name: "?"@, local: Local::Unknown, max: None, dashed: false };
            lemma_kept_node(m2, q);
            let m25 = m2.add_node(q)->Ok_0;
            lemma_kept_edges(m25, m3);
            lemma_kept_trans(m2, m25, m3);
        } else {
            lemma_kept_edges(m2, m3);
        }
        lemma_kept_trans(m, m2, m3);
        lemma_site_callees_same(m3, r, site, m.callees.len());
        lemma_kept_edges(m3, b);
        lemma_kept_trans(m, m3, b);
    }
}

proof fn lemma_kept_call_sites(m: Model, upto: nat)
    requires
        steady(m),
        m.with_call_sites(upto) is Ok,
    ensures
        kept(m, m.with_call_sites(upto)->Ok_0),
    decreases upto,
{
    if upto > 0 {
        lemma_kept_call_sites(m, (upto - 1) as nat);
        let m1 = m.with_call_sites((upto - 1) as nat)->Ok_0;
        lemma_kept_call_site(m1, upto - 1);
        lemma_kept_trans(m, m1, m1.with_call_site(upto - 1)->Ok_0);
    } else {
        lemma_kept_self(m);
    }
}

/// The graph as it stands before the call sites are added.
pub open spec fn before_sites(
    target: Target,
    table: SymbolTable,
    ir: Ir,
    codes: Seq<Option<MachineCode>>,
) -> Model {
    let decoder = target.is_thumb();
    let m1 = Model::empty().with_symbols(table.defined@, ir, decoder, table.defined@.len())->Ok_0;
    let m2 = m1.with_defines(table, decoder, ir.defines@, ir.defines@.len())->Ok_0;
    if decoder {
        m2.with_machine_codes(table, target, codes, table.defined@.len())->Ok_0
    } else {
        m2
    }
}

/// What is kept from the nodes of the symbols to the graph that is built.
proof fn lemma_kept_build(target: Target, table: SymbolTable, ir: Ir, codes: Seq<Option<MachineCode>>)
    requires
        spec_build(target, table, ir, codes) is Ok,
    ensures
        ({
            let decoder = target.is_thumb();
            let m1 = Model::empty().with_symbols(table.defined@, ir, decoder, table.defined@.len());
            let m2 = m1->Ok_0.with_defines(table, decoder, ir.defines@, ir.defines@.len());
            let m3 = before_sites(target, table, ir, codes);
            let m = spec_build(target, table, ir, codes)->Ok_0;
            &&& m1 is Ok
            &&& m2 is Ok
            &&& steady(m1->Ok_0)
            &&& symbols_indexed(m1->Ok_0, table.defined@, table.defined@.len() as int)
            &&& kept(m1->Ok_0, m2->Ok_0)
            &&& kept(m2->Ok_0, m3)
            &&& kept(m3, m)
            &&& m3.resolved() == Ok::<Model, crate::diag::FatalView>(m)
        }),
{
    let symbols = table.defined@;
    let decoder = target.is_thumb();
    let m = spec_build(target, table, ir, codes)->Ok_0;
    assert(steady(Model::empty()));
    lemma_kept_symbols(Model::empty(), symbols, ir, decoder, 0, symbols.len());
    lemma_symbols_indexed(Model::empty(), symbols, ir, decoder, symbols.len());
    let m1 = Model::empty().with_symbols(symbols, ir, decoder, symbols.len())->Ok_0;
    lemma_kept_defines(m1, table, decoder, ir.defines@, 0, ir.defines@.len());
    let m2 = m1.with_defines(table, decoder, ir.defines@, ir.defines@.len())->Ok_0;
    let m3 = before_sites(target, table, ir, codes);
    if decoder {
        lemma_kept_machine_codes(m2, table, target, codes, symbols.len());
    } else {
        lemma_kept_self(m2);
    }
    let m35 = if m3.untyped {
        m3.note(crate::diag::DiagnosticView::UntypedSymbols)
    } else {
        m3
    };
    lemma_kept_edges(m3, m35);
    lemma_kept_call_sites(m35, m3.sigs.len());
    lemma_kept_trans(m3, m35, m);
}

/// Every alias resolves to a node that bears the canonical name of its
/// symbol, once the nodes of the symbols are made: where `name` is a name
/// of symbol `k`, no tag and not a name of a later symbol, it stands for
/// the canonical name of symbol `k`, and that name points to a node of that
/// name.
pub proof fn lemma_alias_resolves(symbols: Seq<Symbol>, ir: Ir, decoder: bool, k: int, name: Seq<char>)
    requires
        Model::empty().with_symbols(symbols, ir, decoder, symbols.len()) is Ok,
        0 <= k < symbols.len(),
        symbols[k].lists(name),
        forall|j: int| k < j < symbols.len() ==> !(#[trigger] symbols[j]).lists(name),
    ensures
        ({
            let m = Model::empty().with_symbols(symbols, ir, decoder, symbols.len())->Ok_0;
            let c = symbols[k].spec_canonical();
            &&& c is Some
            &&& spec_alias_of(symbols, name) == c
            &&& lookup(m.indices, c->0) is Some
            &&& lookup(m.indices, c->0)->0 < m.nodes.len()
            &&& m.nodes[lookup(m.indices, c->0)->0 as int].name == c->0
        }),
{
    let m = Model::empty().with_symbols(symbols, ir, decoder, symbols.len())->Ok_0;
    lemma_lists_has_canonical(symbols[k], name);
    lemma_alias_of_last(symbols, k, name);
    assert(steady(Model::empty()));
    lemma_kept_symbols(Model::empty(), symbols, ir, decoder, 0, symbols.len());
    lemma_symbols_indexed(Model::empty(), symbols, ir, decoder, symbols.len());
    let c = symbols[k].spec_canonical()->0;
    assert(lookup(m.indices, c) is Some);
    crate::table::lemma_lookup_some(m.indices, c);
    let i = choose|i: int| 0 <= i < m.indices.len() && #[trigger] m.indices[i] == (c, lookup(m.indices, c)->0);
    assert(m.indices[i].1 < m.nodes.len());
}

/// In the graph that is built, every alias leads to a node that bears the
/// canonical name of its symbol: where `name` is a name of symbol `k` of
/// the table, no tag and not a name of a later symbol, it stands for the
/// canonical name of symbol `k`, and that name points to a node of that
/// name.
pub proof fn lemma_alias_resolves_in_graph(
    target: Target,
    table: SymbolTable,
    ir: Ir,
    codes: Seq<Option<MachineCode>>,
    k: int,
    name: Seq<char>,
)
    requires
        spec_build(target, table, ir, codes) is Ok,
        0 <= k < table.defined@.len(),
        table.defined@[k].lists(name),
        forall|j: int| k < j < table.defined@.len() ==> !(#[trigger] table.defined@[j]).lists(name),
    ensures
        ({
            let m = spec_build(target, table, ir, codes)->Ok_0;
            let c = table.defined@[k].spec_canonical();
            &&& c is Some
            &&& spec_alias_of(table.defined@, name) == c
            &&& lookup(m.indices, c->0) is Some
            &&& lookup(m.indices, c->0)->0 < m.nodes.len()
            &&& m.nodes[lookup(m.indices, c->0)->0 as int].name == c->0
        }),
{
    let symbols = table.defined@;
    let decoder = target.is_thumb();
    let m = spec_build(target, table, ir, codes)->Ok_0;
    lemma_kept_build(target, table, ir, codes);
    lemma_alias_resolves(symbols, ir, decoder, k, name);
    let m1 = Model::empty().with_symbols(symbols, ir, decoder, symbols.len())->Ok_0;
    let m2 = m1.with_defines(table, decoder, ir.defines@, ir.defines@.len())->Ok_0;
    let m3 = before_sites(target, table, ir, codes);
    lemma_kept_trans(m1, m2, m3);
    lemma_kept_trans(m1, m3, m);
    let c = symbols[k].spec_canonical()->0;
    lemma_lookup_stays(m1.indices, m.indices, c);
    crate::table::lemma_lookup_some(m.indices, c);
    let i = choose|i: int| 0 <= i < m.indices.len() && #[trigger] m.indices[i] == (c, lookup(m.indices, c)->0);
    assert(m.indices[i].1 < m.nodes.len());
}

/// Whether no node of the graph is dashed.
pub open spec fn undashed(m: Model) -> bool {
    forall|i: int| 0 <= i < m.nodes.len() ==> !(#[trigger] m.nodes[i]).dashed
}

/// Whether no two dashed nodes of the graph have the same name.
pub open spec fn dashed_distinct(nodes: Seq<NodeView>) -> bool {
    forall|i: int, j: int|
        0 <= i < nodes.len() && 0 <= j < nodes.len() && i != j && (#[trigger] nodes[i]).dashed
            && (#[trigger] nodes[j]).dashed ==> nodes[i].name != nodes[j].name
}

proof fn lemma_undashed_symbols(m: Model, symbols: Seq<Symbol>, ir: Ir, decoder: bool, upto: nat)
    requires
        undashed(m),
        m.with_symbols(symbols, ir, decoder, upto) is Ok,
    ensures
        undashed(m.with_symbols(symbols, ir, decoder, upto)->Ok_0),
    decreases upto,
{
    if upto > 0 {
        lemma_undashed_symbols(m, symbols, ir, decoder, (upto - 1) as nat);
        let m1 = m.with_symbols(symbols, ir, decoder, (upto - 1) as nat)->Ok_0;
        let m2 = m1.with_symbol(symbols, ir, decoder, upto - 1)->Ok_0;
        assert forall|i: int| 0 <= i < m2.nodes.len() implies !(#[trigger] m2.nodes[i]).dashed by {
            if i < m1.nodes.len() {
                assert(m2.nodes[i] == m1.nodes[i]);
            }
        }
    }
}

proof fn lemma_undashed_call(m: Model, table: SymbolTable, decoder: bool, caller: usize, callee: Callee)
    requires
        undashed(m),
        m.with_call(table, decoder, caller, callee) is Ok,
    ensures
        undashed(m.with_call(table, decoder, caller, callee)->Ok_0),
{
    let b = m.with_call(table, decoder, caller, callee)->Ok_0;
    match callee {
        Callee::Direct { name } => {
            match crate::intrinsics::spec_classify(name@, decoder) {
                crate::intrinsics::Policy::Memcpy => {
                    lemma_link_named_same(
                        m,
                        caller,
                        crate::intrinsics::spec_memcpy_names(),
                        crate::intrinsics::spec_memcpy_names().len(),
                    );
                },
                crate::intrinsics::Policy::Memset => {
                    lemma_link_named_same(
                        m,
                        caller,
                        crate::intrinsics::spec_memset_names(),
                        crate::intrinsics::spec_memset_names().len(),
                    );
                },
                _ => {},
            }
        },
        Callee::Indirect { sig } => {},
    }
    assert forall|i: int| 0 <= i < b.nodes.len() implies !(#[trigger] b.nodes[i]).dashed by {
        if i < m.nodes.len() {
            assert(b.nodes[i] == m.nodes[i]);
        }
    }
}

proof fn lemma_undashed_calls(
    m: Model,
    table: SymbolTable,
    decoder: bool,
    caller: usize,
    callees: Seq<Callee>,
    upto: nat,
)
    requires
        undashed(m),
        m.with_calls(table, decoder, caller, callees, upto) is Ok,
    ensures
        undashed(m.with_calls(table, decoder, caller, callees, upto)->Ok_0),
    decreases upto,
{
    if upto > 0 {
        lemma_undashed_calls(m, table, decoder, caller, callees, (upto - 1) as nat);
        let m1 = m.with_calls(table, decoder, caller, callees, (upto - 1) as nat)->Ok_0;
        lemma_undashed_call(m1, table, decoder, caller, callees[upto - 1]);
    }
}

proof fn lemma_undashed_defines(m: Model, table: SymbolTable, decoder: bool, defines: Seq<Define>, upto: nat)
    requires
        undashed(m),
        m.with_defines(table, decoder, defines, upto) is Ok,
    ensures
        undashed(m.with_defines(table, decoder, defines, upto)->Ok_0),
    decreases upto,
{
    if upto > 0 {
        lemma_undashed_defines(m, table, decoder, defines, (upto - 1) as nat);
        let m1 = m.with_defines(table, decoder, defines, (upto - 1) as nat)->Ok_0;
        let define = defines[upto - 1];
        if spec_alias_of(table.defined@, define.name@) is Some && lookup(
            m1.indices,
            spec_alias_of(table.defined@, define.name@)->0,
        ) is Some {
            let caller = lookup(m1.indices, spec_alias_of(table.defined@, define.name@)->0)->0;
            let start = m1.mark_body(caller, define.inline_asm);
            assert(start.nodes == m1.nodes);
            lemma_undashed_calls(start, table, decoder, caller, define.callees@, define.callees@.len());
        }
    }
}

proof fn lemma_undashed_machine_code(m: Model, table: SymbolTable, target: Target, k: int, code: MachineCode)
    requires
        undashed(m),
        steady(m),
        m.with_machine_code(table, target, k, code) is Ok,
    ensures
        undashed(m.with_machine_code(table, target, k, code)->Ok_0),
{
    let b = m.with_machine_code(table, target, k, code)->Ok_0;
    let address = table.defined@[k].address;
    if table.defined@[k].spec_canonical() is Some && lookup(
        m.indices,
        table.defined@[k].spec_canonical()->0,
    ) is Some {
        let name = table.defined@[k].spec_canonical()->0;
        crate::table::lemma_lookup_some(m.indices, name);
        let caller = lookup(m.indices, name)->0;
        let t = choose|t: int| 0 <= t < m.indices.len() && #[trigger] m.indices[t] == (name, caller);
        assert(m.indices[t].1 < m.nodes.len());
        let frame = Frame { size: code.stack, modifies_sp: code.modifies_sp };
        let m1 = m.with_frame(name, caller, frame);
        assert forall|i: int| 0 <= i < m1.nodes.len() implies !(#[trigger] m1.nodes[i]).dashed by {
            assert(!m.nodes[i].dashed);
        }
        let m2 = if code.indirect && !m.bodies.contains(caller) {
            m1.with_unknown_callee(name, caller)->Ok_0
        } else {
            m1
        };
        assert forall|i: int| 0 <= i < m2.nodes.len() implies !(#[trigger] m2.nodes[i]).dashed by {
            if i < m1.nodes.len() {
                assert(m2.nodes[i] == m1.nodes[i]);
            }
        }
        lemma_calls_at_same(m2, table, target, caller, address, code.calls@, code.calls@.len());
        let m3 = m2.with_calls_at(table, target, caller, address, code.calls@, code.calls@.len())->Ok_0;
        lemma_jumps_at_same(m3, table, target, caller, address, code.size, code.jumps@, code.jumps@.len());
        assert(b.nodes == m2.nodes);
    }
}

proof fn lemma_undashed_machine_codes(
    m: Model,
    table: SymbolTable,
    target: Target,
    codes: Seq<Option<MachineCode>>,
    upto: nat,
)
    requires
        undashed(m),
        steady(m),
        m.with_machine_codes(table, target, codes, upto) is Ok,
    ensures
        undashed(m.with_machine_codes(table, target, codes, upto)->Ok_0),
    decreases upto,
{
    if upto > 0 {
        lemma_undashed_machine_codes(m, table, target, codes, (upto - 1) as nat);
        lemma_kept_machine_codes(m, table, target, codes, (upto - 1) as nat);
        let m1 = m.with_machine_codes(table, target, codes, (upto - 1) as nat)->Ok_0;
        if upto - 1 < codes.len() && codes[upto - 1] is Some {
            lemma_undashed_machine_code(m1, table, target, upto - 1, codes[upto - 1]->0);
        }
    }
}

/// A text is told by what it is with `*` behind.
proof fn lemma_starred(a: Seq<char>, b: Seq<char>)
    requires
        a.push('*') == b.push('*'),
    ensures
        a == b,
{
    assert(a.push('*').drop_last() =~= a);
    assert(b.push('*').drop_last() =~= b);
}

/// The call site of a signature is the one dashed node that is added
/// for it.
proof fn lemma_call_site_dashes(m: Model, r: int)
    requires
        0 <= r < m.sigs.len(),
        m.with_call_site(r) is Ok,
    ensures
        ({
            let m2 = m.with_call_site(r)->Ok_0;
            forall|i: int|
                0 <= i < m2.nodes.len() && (#[trigger] m2.nodes[i]).dashed ==> (i < m.nodes.len()
                    && m.nodes[i].dashed && m2.nodes[i] == m.nodes[i]) || (m.sigs[r].1 && m2.nodes[i].name
                    == m.sigs[r].0.push('*'))
        }),
{
    let m2 = m.with_call_site(r)->Ok_0;
    if m.sigs[r].1 {
        let name = m.sigs[r].0.push('*');
        let site = m.nodes.len() as usize;
        let m1 = m.add_node(NodeView { name, local: Local::Exact(0), max: None, dashed: true })->Ok_0;
        lemma_site_callers_same(m1, r, site, m.callers.len());
        let x2 = m1.with_site_callers(r, site, m.callers.len())->Ok_0;
        let x3 = if m.untyped {
            x2.with_sentinel(site)->Ok_0
        } else if !m.has_callee(r) {
            x2.note(crate::diag::DiagnosticView::NoCallees { name })
        } else {
            x2
        };
        lemma_site_callees_same(x3, r, site, m.callees.len());
        assert(m2.nodes == x3.nodes);
        assert forall|i: int| 0 <= i < m2.nodes.len() && (#[trigger] m2.nodes[i]).dashed implies (i
            < m.nodes.len() && m.nodes[i].dashed && m2.nodes[i] == m.nodes[i]) || (m.sigs[r].1
            && m2.nodes[i].name == m.sigs[r].0.push('*')) by {
            if i < m.nodes.len() {
                assert(x3.nodes[i] == m.nodes[i]);
            } else if i == m.nodes.len() {
                assert(x3.nodes[i] == m1.nodes[i]);
            } else {
                assert(x3.nodes[i] == sentinel());
            }
        }
    }
}

/// Among the call sites no two have the same name.
proof fn lemma_call_sites_distinct(m: Model, upto: nat)
    requires
        upto <= m.sigs.len(),
        undashed(m),
        sigs_distinct(m),
        m.nodes.len() <= u32::MAX,
        m.with_call_sites(upto) is Ok,
    ensures
        ({
            let m2 = m.with_call_sites(upto)->Ok_0;
            &&& dashed_distinct(m2.nodes)
            &&& forall|i: int|
                0 <= i < m2.nodes.len() && (#[trigger] m2.nodes[i]).dashed ==> exists|r: int|
                    0 <= r < upto && m2.nodes[i].name == (#[trigger] m.sigs[r]).0.push('*')
        }),
    decreases upto,
{
    if upto > 0 {
        lemma_call_sites_distinct(m, (upto - 1) as nat);
        lemma_call_sites_upto(m, (upto - 1) as nat, 0);
        let m1 = m.with_call_sites((upto - 1) as nat)->Ok_0;
        let m2 = m1.with_call_site(upto - 1)->Ok_0;
        lemma_call_site_dashes(m1, upto - 1);
        assert(m1.sigs == m.sigs);
        assert forall|i: int| 0 <= i < m2.nodes.len() && (#[trigger] m2.nodes[i]).dashed implies exists|
            r: int,
        | 0 <= r < upto && m2.nodes[i].name == (#[trigger] m.sigs[r]).0.push('*') by {
            if i < m1.nodes.len() && m1.nodes[i].dashed && m2.nodes[i] == m1.nodes[i] {
                let r = choose|r: int|
                    0 <= r < upto - 1 && m1.nodes[i].name == (#[trigger] m.sigs[r]).0.push('*');
                assert(m2.nodes[i].name == m.sigs[r].0.push('*'));
            } else {
                assert(m2.nodes[i].name == m.sigs[upto - 1].0.push('*'));
            }
        }
        assert forall|i: int, j: int|
            0 <= i < m2.nodes.len() && 0 <= j < m2.nodes.len() && i != j && (#[trigger] m2.nodes[i]).dashed
                && (#[trigger] m2.nodes[j]).dashed implies m2.nodes[i].name != m2.nodes[j].name by {
            let old_i = i < m1.nodes.len() && m1.nodes[i].dashed && m2.nodes[i] == m1.nodes[i];
            let old_j = j < m1.nodes.len() && m1.nodes[j].dashed && m2.nodes[j] == m1.nodes[j];
            if old_i && old_j {
                assert(m1.nodes[i].name != m1.nodes[j].name);
            } else if old_i || old_j {
                let o = if old_i {
                    i
                } else {
                    j
                };
                let r = choose|r: int|
                    0 <= r < upto - 1 && m1.nodes[o].name == (#[trigger] m.sigs[r]).0.push('*');
                if m2.nodes[i].name == m2.nodes[j].name {
                    lemma_starred(m.sigs[r].0, m.sigs[upto - 1].0);
                    assert(m.sigs[r].0 != m.sigs[upto - 1].0);
                }
            } else {
                // both are new, and only one new node is dashed
                lemma_call_site(m1, upto - 1);
                assert(m2.nodes[m1.nodes.len() as int].dashed);
                lemma_new_dashed_is_site(m1, upto - 1, i);
                lemma_new_dashed_is_site(m1, upto - 1, j);
            }
        }
    }
}

/// The call site of a signature is the only dashed node among those added
/// with it.
proof fn lemma_new_dashed_is_site(m: Model, r: int, i: int)
    requires
        0 <= r < m.sigs.len(),
        m.with_call_site(r) is Ok,
        0 <= i < m.with_call_site(r)->Ok_0.nodes.len(),
        m.with_call_site(r)->Ok_0.nodes[i].dashed,
        !(i < m.nodes.len() && m.nodes[i].dashed && m.with_call_site(r)->Ok_0.nodes[i] == m.nodes[i]),
    ensures
        i == m.nodes.len(),
{
    let m2 = m.with_call_site(r)->Ok_0;
    if m.sigs[r].1 {
        let name = m.sigs[r].0.push('*');
        let site = m.nodes.len() as usize;
        let m1 = m.add_node(NodeView { name, local: Local::Exact(0), max: None, dashed: true })->Ok_0;
        lemma_site_callers_same(m1, r, site, m.callers.len());
        let x2 = m1.with_site_callers(r, site, m.callers.len())->Ok_0;
        let x3 = if m.untyped {
            x2.with_sentinel(site)->Ok_0
        } else if !m.has_callee(r) {
            x2.note(crate::diag::DiagnosticView::NoCallees { name })
        } else {
            x2
        };
        lemma_site_callees_same(x3, r, site, m.callees.len());
        assert(m2.nodes == x3.nodes);
        if i < m.nodes.len() {
            assert(x3.nodes[i] == m.nodes[i]);
        } else if i > m.nodes.len() {
            assert(x3.nodes[i] == sentinel());
        }
    }
}

/// In the graph that is built, no two dashed nodes have the same name.
proof fn lemma_sites_distinct(target: Target, table: SymbolTable, ir: Ir, codes: Seq<Option<MachineCode>>)
    requires
        spec_build(target, table, ir, codes) is Ok,
    ensures
        dashed_distinct(spec_build(target, table, ir, codes)->Ok_0.nodes),
{
    let symbols = table.defined@;
    let decoder = target.is_thumb();
    lemma_kept_build(target, table, ir, codes);
    assert(undashed(Model::empty()));
    lemma_undashed_symbols(Model::empty(), symbols, ir, decoder, symbols.len());
    let m1 = Model::empty().with_symbols(symbols, ir, decoder, symbols.len())->Ok_0;
    lemma_undashed_defines(m1, table, decoder, ir.defines@, ir.defines@.len());
    let m2 = m1.with_defines(table, decoder, ir.defines@, ir.defines@.len())->Ok_0;
    if decoder {
        lemma_undashed_machine_codes(m2, table, target, codes, symbols.len());
    }
    let m3 = before_sites(target, table, ir, codes);
    let m35 = if m3.untyped {
        m3.note(crate::diag::DiagnosticView::UntypedSymbols)
    } else {
        m3
    };
    assert(m35.nodes == m3.nodes);
    lemma_kept_edges(m3, m35);
    lemma_call_sites_distinct(m35, m3.sigs.len());
}

/// Whether node `site` of the graph `m` is a call site of the signature
/// `sig`: a dashed node named after the signature that uses no stack.
pub open spec fn is_site_of(m: Model, sig: Seq<char>, site: int) -> bool {
    &&& 0 <= site < m.nodes.len()
    &&& m.nodes[site] == (NodeView { name: sig.push('*'), local: Local::Exact(0), max: None, dashed: true })
}

/// Whether symbol `k` is of unknown signature: it has a canonical name, is
/// neither defined nor declared under any of its names, and is no outlined
/// helper.
pub open spec fn is_untyped(symbols: Seq<Symbol>, ir: Ir, k: int) -> bool {
    &&& 0 <= k < symbols.len()
    &&& symbols[k].spec_canonical() is Some
    &&& ir.spec_symbol_sig(symbols[k].names_view()) is None
    &&& !crate::names::spec_is_outlined_function(symbols[k].spec_canonical()->0)
}

/// Whether symbol `k` is a function of the signature `sig` that the linker
/// kept.
pub open spec fn has_signature(symbols: Seq<Symbol>, ir: Ir, k: int, sig: Seq<char>) -> bool {
    &&& 0 <= k < symbols.len()
    &&& symbols[k].spec_canonical() is Some
    &&& ir.spec_symbol_sig(symbols[k].names_view()) == Some(sig)
}

/// Whether statement `c` of the defined function `d`, a function that the
/// linker kept, is a call through a pointer of the signature `sig`.
pub open spec fn is_indirect_call(table: SymbolTable, ir: Ir, d: int, c: int, sig: Seq<char>) -> bool {
    &&& 0 <= d < ir.defines@.len()
    &&& spec_alias_of(table.defined@, ir.defines@[d].name@) is Some
    &&& 0 <= c < ir.defines@[d].callees@.len()
    &&& ir.defines@[d].callees@[c] is Indirect
    &&& ir.defines@[d].callees@[c]->sig@ == sig
}

/// Whether a node named `name` has an edge to node `site`.
pub open spec fn is_called_by(m: Model, site: int, name: Seq<char>) -> bool {
    exists|caller: int|
        0 <= caller < m.nodes.len() && m.nodes[caller].name == name && #[trigger] has_edge(
            m.edges,
            caller,
            site,
        )
}

/// Whether node `site` has an edge to a node named `name`.
pub open spec fn calls_function(m: Model, site: int, name: Seq<char>) -> bool {
    exists|callee: int|
        0 <= callee < m.nodes.len() && m.nodes[callee].name == name && #[trigger] has_edge(
            m.edges,
            site,
            callee,
        )
}

/// Whether node `site` has an edge to a node `?` of unknown stack usage.
pub open spec fn calls_sentinel(m: Model, site: int) -> bool {
    exists|q: int| 0 <= q < m.nodes.len() && m.nodes[q] == sentinel() && #[trigger] has_edge(m.edges, site, q)
}

/// Whether node `site` of the graph `m` is where the calls through pointers
/// of the signature `sig` go: it is the one call site of the signature;
/// every function that calls through the signature has an edge to it; it
/// has an edge to every function of the signature, and, where some symbol
/// is of unknown signature, to a node `?` of unknown stack usage.
pub open spec fn dispatches(m: Model, table: SymbolTable, ir: Ir, sig: Seq<char>, site: int) -> bool {
    &&& is_site_of(m, sig, site)
    &&& forall|other: int| #[trigger] is_site_of(m, sig, other) ==> other == site
    &&& forall|d: int, c: int| #[trigger]
        is_indirect_call(table, ir, d, c, sig) ==> is_called_by(
            m,
            site,
            spec_alias_of(table.defined@, ir.defines@[d].name@)->0,
        )
    &&& forall|k: int| #[trigger]
        has_signature(table.defined@, ir, k, sig) ==> calls_function(
            m,
            site,
            table.defined@[k].spec_canonical()->0,
        )
    &&& (exists|u: int| is_untyped(table.defined@, ir, u)) ==> calls_sentinel(m, site)
}

/// A call through a pointer is on record when the call sites are added:
/// its signature is marked as called, at the place returned first, and
/// the node of the calling function, returned second, is entered for it.
proof fn lemma_call_on_record(
    target: Target,
    table: SymbolTable,
    ir: Ir,
    codes: Seq<Option<MachineCode>>,
    d: int,
    c: int,
    sig: Seq<char>,
) -> (rc: (int, int))
    requires
        spec_build(target, table, ir, codes) is Ok,
        is_indirect_call(table, ir, d, c, sig),
    ensures
        ({
            let m3 = before_sites(target, table, ir, codes);
            let m = spec_build(target, table, ir, codes)->Ok_0;
            &&& 0 <= rc.0 < m3.sigs.len()
            &&& m3.sigs[rc.0].0 == sig
            &&& m3.sigs[rc.0].1
            &&& m3.callers.contains((rc.0, rc.1))
            &&& 0 <= rc.1 < m.nodes.len()
            &&& m.nodes[rc.1].name == spec_alias_of(table.defined@, ir.defines@[d].name@)->0
        }),
{
    let symbols = table.defined@;
    let decoder = target.is_thumb();
    let m = spec_build(target, table, ir, codes)->Ok_0;
    let defines = ir.defines@;
    let define = defines[d];
    let name = spec_alias_of(symbols, define.name@)->0;
    lemma_kept_build(target, table, ir, codes);
    let m1 = Model::empty().with_symbols(symbols, ir, decoder, symbols.len())->Ok_0;
    let m2 = m1.with_defines(table, decoder, defines, defines.len())->Ok_0;
    let m3 = before_sites(target, table, ir, codes);
    // the function has a node
    let k = lemma_alias_is_canonical(symbols, define.name@);
    assert(lookup(m1.indices, name) is Some);
    // the graph before and after the function
    lemma_defines_ok(m1, table, decoder, defines, d as nat, defines.len());
    lemma_defines_ok(m1, table, decoder, defines, (d + 1) as nat, defines.len());
    lemma_kept_defines(m1, table, decoder, defines, 0, d as nat);
    let x0 = m1.with_defines(table, decoder, defines, d as nat)->Ok_0;
    let x1 = m1.with_defines(table, decoder, defines, (d + 1) as nat)->Ok_0;
    lemma_lookup_stays(m1.indices, x0.indices, name);
    let caller = lookup(x0.indices, name)->0;
    crate::table::lemma_lookup_some(x0.indices, name);
    let t = choose|t: int| 0 <= t < x0.indices.len() && #[trigger] x0.indices[t] == (name, caller);
    let start = x0.mark_body(caller, define.inline_asm);
    lemma_kept_edges(x0, start);
    let n = define.callees@.len();
    assert(x1 == start.with_calls(table, decoder, caller, define.callees@, n)->Ok_0);
    // the graph before and after the statement
    lemma_calls_ok(start, table, decoder, caller, define.callees@, c as nat, n);
    lemma_calls_ok(start, table, decoder, caller, define.callees@, (c + 1) as nat, n);
    lemma_kept_calls(start, table, decoder, caller, define.callees@, 0, c as nat);
    let y0 = start.with_calls(table, decoder, caller, define.callees@, c as nat)->Ok_0;
    let y1 = start.with_calls(table, decoder, caller, define.callees@, (c + 1) as nat)->Ok_0;
    assert(y1 == y0.with_indirect(caller, sig));
    let r = lemma_kept_indirect(y0, caller, sig);
    let p = choose|p: int| 0 <= p < y1.callers.len() && y1.callers[p] == (r, caller as int);
    // what is kept from there to the graph before the call sites
    lemma_kept_calls(start, table, decoder, caller, define.callees@, (c + 1) as nat, n);
    lemma_kept_defines(m1, table, decoder, defines, (d + 1) as nat, defines.len());
    lemma_kept_trans(y1, x1, m2);
    lemma_kept_trans(y1, m2, m3);
    assert(m3.sigs[r].0 == sig && m3.sigs[r].1);
    assert(m3.callers[p] == (r, caller as int));
    // the node of the function still bears its name
    lemma_kept_trans(x0, start, y0);
    lemma_kept_trans(x0, y0, y1);
    lemma_kept_trans(x0, y1, m3);
    lemma_kept_trans(x0, m3, m);
    assert(m.indices[t] == (name, caller));
    assert(m.indices[t].1 < m.nodes.len());
    (r, caller as int)
}

/// A function is on record under its signature when the call sites are
/// added: the signature stands at the place returned first, and the node
/// of the function, returned second, is entered for it.
proof fn lemma_function_on_record(
    target: Target,
    table: SymbolTable,
    ir: Ir,
    codes: Seq<Option<MachineCode>>,
    k: int,
    sig: Seq<char>,
) -> (rc: (int, int))
    requires
        spec_build(target, table, ir, codes) is Ok,
        has_signature(table.defined@, ir, k, sig),
    ensures
        ({
            let m3 = before_sites(target, table, ir, codes);
            let m = spec_build(target, table, ir, codes)->Ok_0;
            &&& 0 <= rc.0 < m3.sigs.len()
            &&& m3.sigs[rc.0].0 == sig
            &&& m3.callees.contains((rc.0, rc.1))
            &&& 0 <= rc.1 < m.nodes.len()
            &&& m.nodes[rc.1].name == table.defined@[k].spec_canonical()->0
        }),
{
    let symbols = table.defined@;
    let decoder = target.is_thumb();
    let m = spec_build(target, table, ir, codes)->Ok_0;
    let name = symbols[k].spec_canonical()->0;
    lemma_kept_build(target, table, ir, codes);
    let m1 = Model::empty().with_symbols(symbols, ir, decoder, symbols.len())->Ok_0;
    let m2 = m1.with_defines(table, decoder, ir.defines@, ir.defines@.len())->Ok_0;
    let m3 = before_sites(target, table, ir, codes);
    // the graph before and after the symbol
    assert(steady(Model::empty()));
    lemma_symbols_ok(Model::empty(), symbols, ir, decoder, k as nat, symbols.len());
    lemma_symbols_ok(Model::empty(), symbols, ir, decoder, (k + 1) as nat, symbols.len());
    lemma_kept_symbols(Model::empty(), symbols, ir, decoder, 0, k as nat);
    let s0 = Model::empty().with_symbols(symbols, ir, decoder, k as nat)->Ok_0;
    let s1 = Model::empty().with_symbols(symbols, ir, decoder, (k + 1) as nat)->Ok_0;
    let (q, t) = lemma_kept_symbol(s0, symbols, ir, decoder, k);
    let callee = s0.nodes.len() as usize;
    crate::table::lemma_lookup_some(s1.indices, name);
    let e = choose|e: int| 0 <= e < s1.indices.len() && #[trigger] s1.indices[e] == (name, callee);
    // what is kept from there to the graph that is built
    lemma_kept_symbols(Model::empty(), symbols, ir, decoder, (k + 1) as nat, symbols.len());
    lemma_kept_trans(s1, m1, m2);
    lemma_kept_trans(s1, m2, m3);
    assert(m3.sigs[q].0 == sig);
    assert(m3.callees[t] == (q, callee as int));
    lemma_kept_trans(s1, m3, m);
    assert(m.indices[e] == (name, callee));
    assert(m.indices[e].1 < m.nodes.len());
    (q, callee as int)
}

/// A symbol of unknown signature marks the program as holding untyped
/// symbols when the call sites are added.
proof fn lemma_untyped_on_record(
    target: Target,
    table: SymbolTable,
    ir: Ir,
    codes: Seq<Option<MachineCode>>,
    u: int,
)
    requires
        spec_build(target, table, ir, codes) is Ok,
        is_untyped(table.defined@, ir, u),
    ensures
        before_sites(target, table, ir, codes).untyped,
{
    let symbols = table.defined@;
    let decoder = target.is_thumb();
    lemma_kept_build(target, table, ir, codes);
    let m1 = Model::empty().with_symbols(symbols, ir, decoder, symbols.len())->Ok_0;
    let m2 = m1.with_defines(table, decoder, ir.defines@, ir.defines@.len())->Ok_0;
    let m3 = before_sites(target, table, ir, codes);
    assert(steady(Model::empty()));
    lemma_symbols_ok(Model::empty(), symbols, ir, decoder, u as nat, symbols.len());
    lemma_symbols_ok(Model::empty(), symbols, ir, decoder, (u + 1) as nat, symbols.len());
    lemma_kept_symbols(Model::empty(), symbols, ir, decoder, 0, u as nat);
    let s0 = Model::empty().with_symbols(symbols, ir, decoder, u as nat)->Ok_0;
    let s1 = Model::empty().with_symbols(symbols, ir, decoder, (u + 1) as nat)->Ok_0;
    let _ = lemma_kept_symbol(s0, symbols, ir, decoder, u);
    lemma_kept_symbols(Model::empty(), symbols, ir, decoder, (u + 1) as nat, symbols.len());
    lemma_kept_trans(s1, m1, m2);
    lemma_kept_trans(s1, m2, m3);
}

/// In the graph that is built, every signature through which a function
/// that the linker kept calls has one node where such calls go: a dashed
/// node named after the signature, with `*` behind, that uses no stack; every
/// function that calls through the signature has an edge to that node; and
/// the node has an edge to every function of the signature and, where some
/// symbol is of unknown signature, to a node `?` of unknown stack usage.
pub proof fn lemma_indirect_dispatch(
    target: Target,
    table: SymbolTable,
    ir: Ir,
    codes: Seq<Option<MachineCode>>,
    sig: Seq<char>,
    d: int,
    c: int,
)
    requires
        spec_build(target, table, ir, codes) is Ok,
        is_indirect_call(table, ir, d, c, sig),
    ensures
        exists|site: int| #[trigger]
            dispatches(spec_build(target, table, ir, codes)->Ok_0, table, ir, sig, site),
{
    let m = spec_build(target, table, ir, codes)->Ok_0;
    let m3 = before_sites(target, table, ir, codes);
    lemma_kept_build(target, table, ir, codes);
    let (r, first) = lemma_call_on_record(target, table, ir, codes, d, c, sig);
    lemma_called_signature_has_site(m3, r);
    let site = choose|site: int| is_site(m3, m.nodes, m.edges, r, site);
    assert(is_site_of(m, sig, site));
    lemma_sites_distinct(target, table, ir, codes);
    assert forall|other: int| #[trigger] is_site_of(m, sig, other) implies other == site by {
        if other != site {
            assert(m.nodes[other].dashed && m.nodes[site].dashed);
            assert(m.nodes[other].name != m.nodes[site].name);
        }
    }
    assert forall|d2: int, c2: int| #[trigger] is_indirect_call(table, ir, d2, c2, sig) implies is_called_by(
        m,
        site,
        spec_alias_of(table.defined@, ir.defines@[d2].name@)->0,
    ) by {
        let (r2, caller) = lemma_call_on_record(target, table, ir, codes, d2, c2, sig);
        assert(r2 == r) by {
            if r2 != r {
                assert(m3.sigs[r2].0 != m3.sigs[r].0);
            }
        }
        let p = choose|p: int| 0 <= p < m3.callers.len() && m3.callers[p] == (r, caller);
        assert(m3.callers[p].0 == r);
        assert(has_edge(m.edges, caller, site));
    }
    assert forall|k: int| #[trigger] has_signature(table.defined@, ir, k, sig) implies calls_function(
        m,
        site,
        table.defined@[k].spec_canonical()->0,
    ) by {
        let (r2, callee) = lemma_function_on_record(target, table, ir, codes, k, sig);
        assert(r2 == r) by {
            if r2 != r {
                assert(m3.sigs[r2].0 != m3.sigs[r].0);
            }
        }
        let p = choose|p: int| 0 <= p < m3.callees.len() && m3.callees[p] == (r, callee);
        assert(m3.callees[p].0 == r);
        assert(has_edge(m.edges, site, callee));
    }
    if exists|u: int| is_untyped(table.defined@, ir, u) {
        let u = choose|u: int| is_untyped(table.defined@, ir, u);
        lemma_untyped_on_record(target, table, ir, codes, u);
        let q = choose|q: int|
            0 <= q < m.nodes.len() && #[trigger] m.nodes[q] == sentinel() && has_edge(m.edges, site, q);
        assert(has_edge(m.edges, site, q));
    }
    assert(dispatches(m, table, ir, sig, site));
}

} // verus!
