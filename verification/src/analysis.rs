//! The whole analysis: from the symbols, the intermediate representation
//! and the decoded machine code to the call graph with its bounds.

use vstd::prelude::*;
use crate::bounds::{
    bound_of, lemma_bound_covers_callee, lemma_bound_covers_local, lemma_propagated_renamed,
    lemma_uncertainty_spreads, node_bound_ok, propagated,
};
use crate::builder::Builder;
use crate::components::cyclic_among;
use crate::diag::{diagnostic_views, Diagnostic, DiagnosticView, Fatal, FatalView};
use crate::filter::{find_entry, hit_names, is_part_from, part_from, spec_entry};
use crate::graph::{
    has_edge, index_lists, node_views, on_cycle, reaches, same_but_max, scc_order, CallGraph, Node,
};
use crate::ir::Ir;
use crate::machine::MachineCode;
use crate::model::Model;
use crate::propagate::propagate;
use crate::shorten::{hash_prefixes, is_shortened, shorten, spec_prefixes};
use crate::sums::{local_total, usage_fits};
use crate::symbols::SymbolTable;
use crate::target::Target;

verus! {

/// The graph that the input stands for, before any node is dropped and
/// before bounds are computed: the nodes of the symbols, the calls of the
/// defined functions, what the decoder found where the target has one, and
/// the call sites of the calls through pointers.
pub open spec fn spec_build(
    target: Target,
    table: SymbolTable,
    ir: Ir,
    codes: Seq<Option<MachineCode>>,
) -> Result<Model, FatalView> {
    let decoder = target.is_thumb();
    match Model::empty().with_symbols(table.defined@, ir, decoder, table.defined@.len()) {
        Err(e) => Err(e),
        Ok(m1) => match m1.with_defines(table, decoder, ir.defines@, ir.defines@.len()) {
            Err(e) => Err(e),
            Ok(m2) => {
                let r3 = if decoder {
                    m2.with_machine_codes(table, target, codes, table.defined@.len())
                } else {
                    Ok(m2)
                };
                match r3 {
                    Err(e) => Err(e),
                    Ok(m3) => m3.resolved(),
                }
            },
        },
    }
}

/// Builds the graph that the input stands for.
pub fn build(target: Target, table: &SymbolTable, ir: &Ir, codes: &Vec<Option<MachineCode>>) -> (r: Result<
    Builder,
    Fatal,
>)
    requires
        table.wf(),
    ensures
        match r {
            Ok(b) => b.wf() && spec_build(target, *table, *ir, codes@) == Ok::<Model, FatalView>(b@),
            Err(e) => spec_build(target, *table, *ir, codes@) == Err::<Model, FatalView>(e@),
        },
{
    let decoder = target.is_thumb();
    let mut b = Builder::new();
    match b.add_symbols(table, ir, decoder) {
        Err(e) => {
            return Err(e);
        },
        Ok(()) => {},
    }
    match b.add_defines(table, decoder, ir) {
        Err(e) => {
            return Err(e);
        },
        Ok(()) => {},
    }
    if decoder {
        match b.add_machine_codes(table, target, codes) {
            Err(e) => {
                return Err(e);
            },
            Ok(()) => {},
        }
    }
    match b.resolve_indirect() {
        Err(e) => {
            return Err(e);
        },
        Ok(()) => {},
    }
    Ok(b)
}

/// What the analysis hands out.
pub struct Analysis {
    /// The call graph, each node with its display name, its local stack
    /// usage and its bound.
    pub graph: CallGraph,
    /// The cycles of the graph, callees first.
    pub cycles: Vec<Vec<usize>>,
    /// The remarks made on the way.
    pub diagnostics: Vec<Diagnostic>,
}

/// The node of the entry point asked for, if one was asked for and is there.
pub open spec fn entry_of(m: Model, start: Option<Seq<char>>) -> Option<usize> {
    match start {
        Some(s) => spec_entry(m.indices, s),
        None => None,
    }
}

/// The remarks on the entry point asked for: where it is not found, that it
/// is not, after the names that match it where several do.
pub open spec fn entry_notes(m: Model, start: Option<Seq<char>>) -> Seq<DiagnosticView> {
    match start {
        None => Seq::empty(),
        Some(s) => if spec_entry(m.indices, s) is Some {
            Seq::empty()
        } else if hit_names(m.indices, s).len() > 1 {
            seq![
                DiagnosticView::AmbiguousStart { name: s, hits: hit_names(m.indices, s) },
                DiagnosticView::StartNotFound,
            ]
        } else {
            seq![DiagnosticView::StartNotFound]
        },
    }
}

/// Whether `cut` and `edges2` are the part of the graph with the nodes
/// `base` and the edges `edges` that is reached from the entry point, node
/// `v` having the place `map[v]` in it, or all of the graph where there is
/// no entry point.
pub open spec fn is_cut(
    base: Seq<Node>,
    edges: Seq<(int, int)>,
    entry: Option<usize>,
    cut: Seq<Node>,
    edges2: Seq<(int, int)>,
    map: Seq<Option<usize>>,
) -> bool {
    match entry {
        Some(i) => is_part_from(base, edges, i as int, cut, edges2, map),
        None => cut == base && edges2 == edges,
    }
}

/// Whether the local stack usage of the nodes of the graph `m`, cut down to
/// what is reached from `start`, is together more than the machine's
/// integers hold.
pub open spec fn overflows(m: Model, start: Option<Seq<char>>) -> bool {
    exists|base: Seq<Node>, cut: Seq<Node>, edges2: Seq<(int, int)>, map: Seq<Option<usize>>|
        node_views(base) == m.nodes && #[trigger] is_cut(
            base,
            m.edges,
            entry_of(m, start),
            cut,
            edges2,
            map,
        ) && local_total(cut) > u64::MAX
}

/// Whether the nodes `shown` and the edges `edges2`, with the cycles
/// `cycles`, are what becomes of the graph with the nodes `base` and the
/// edges `edges`: `cut` is the part of it that is reached from the entry
/// point, or all of it where there is none; `bounded` is `cut` with the
/// bound of every node; and `shown` is `bounded` under the display names.
pub open spec fn is_outcome(
    base: Seq<Node>,
    edges: Seq<(int, int)>,
    entry: Option<usize>,
    prefixes: Seq<Option<Seq<char>>>,
    cut: Seq<Node>,
    map: Seq<Option<usize>>,
    bounded: Seq<Node>,
    shown: Seq<Node>,
    edges2: Seq<(int, int)>,
    cycles: Seq<Seq<int>>,
) -> bool {
    &&& is_cut(base, edges, entry, cut, edges2, map)
    &&& same_but_max(bounded, cut)
    &&& local_total(cut) <= u64::MAX
    &&& propagated(bounded, edges2)
    &&& cycles == cyclic_among(edges2, scc_order(cut.len(), edges2), scc_order(cut.len(), edges2).len())
    &&& is_shortened(bounded, shown, prefixes)
}

impl Analysis {
    /// Whether `self` is the outcome for the graph `m`, the entry point
    /// `start` and the symbols of `table`: every node has a bound, all
    /// bounds are right, and the remarks are those made while the graph was
    /// built and those on the entry point.
    pub open spec fn describes(&self, m: Model, table: SymbolTable, start: Option<Seq<char>>) -> bool {
        &&& self.graph.wf()
        &&& propagated(self.graph.nodes(), self.graph.edges())
        &&& diagnostic_views(self.diagnostics@) == m.diagnostics + entry_notes(m, start)
        &&& exists|base: Seq<Node>, cut: Seq<Node>, map: Seq<Option<usize>>, bounded: Seq<Node>|
            node_views(base) == m.nodes && #[trigger] is_outcome(
                base,
                m.edges,
                entry_of(m, start),
                spec_prefixes(table.defined@),
                cut,
                map,
                bounded,
                self.graph.nodes(),
                self.graph.edges(),
                index_lists(self.cycles@),
            )
    }
}

/// Every node of the outcome has a bound, and the bound is at least the
/// local stack usage of the node.
pub proof fn lemma_outcome_covers_local(a: Analysis, m: Model, table: SymbolTable, start: Option<Seq<char>>, n: int)
    requires
        a.describes(m, table, start),
        0 <= n < a.graph.nodes().len(),
    ensures
        a.graph.nodes()[n].max is Some,
        bound_of(a.graph.nodes(), n).value() >= a.graph.nodes()[n].local.value(),
{
    assert(node_bound_ok(a.graph.nodes(), a.graph.edges(), n));
    lemma_bound_covers_local(a.graph.nodes(), a.graph.edges(), n);
}

/// In the outcome, for an edge from a node `u` off every cycle to `v`, the
/// bound of `u` is at least the local usage of `u` plus the bound of `v`,
/// and it is that sum exactly when no callee of `u` has a larger bound
/// than `v`.
pub proof fn lemma_outcome_covers_callee(
    a: Analysis,
    m: Model,
    table: SymbolTable,
    start: Option<Seq<char>>,
    u: int,
    v: int,
)
    requires
        a.describes(m, table, start),
        0 <= u < a.graph.nodes().len(),
        has_edge(a.graph.edges(), u, v),
        !on_cycle(a.graph.edges(), u),
    ensures
        bound_of(a.graph.nodes(), u).value() >= a.graph.nodes()[u].local.value() + bound_of(
            a.graph.nodes(),
            v,
        ).value(),
        bound_of(a.graph.nodes(), u).value() == a.graph.nodes()[u].local.value() + bound_of(
            a.graph.nodes(),
            v,
        ).value() <==> (forall|w: int| #[trigger]
            has_edge(a.graph.edges(), u, w) ==> bound_of(a.graph.nodes(), w).value() <= bound_of(
                a.graph.nodes(),
                v,
            ).value()),
{
    lemma_bound_covers_callee(a.graph.nodes(), a.graph.edges(), u, v);
}

/// In the outcome, a node that reaches a node of unknown local usage, or
/// one whose bound is only a lower bound, has a bound that is only a lower
/// bound.
pub proof fn lemma_outcome_spreads_uncertainty(
    a: Analysis,
    m: Model,
    table: SymbolTable,
    start: Option<Seq<char>>,
    r: int,
    x: int,
)
    requires
        a.describes(m, table, start),
        0 <= r < a.graph.nodes().len(),
        reaches(a.graph.edges(), r, x),
        a.graph.nodes()[x].local is Unknown || bound_of(a.graph.nodes(), x) is LowerBound,
    ensures
        bound_of(a.graph.nodes(), r) is LowerBound,
{
    lemma_uncertainty_spreads(a.graph.nodes(), a.graph.edges(), r, x);
}

/// The text of an optional string.
pub open spec fn text_of(s: Option<&str>) -> Option<Seq<char>> {
    match s {
        Some(s) => Some(s@),
        None => None,
    }
}

/// Cuts the graph down to what is reached from the entry point, computes
/// the bound of every node and gives the nodes their display names.
pub fn finish(b: Builder, table: &SymbolTable, start: Option<&str>) -> (r: Result<Analysis, Fatal>)
    requires
        b.wf(),
    ensures
        match r {
            Ok(a) => a.describes(b@, *table, text_of(start)),
            Err(e) => e@ == FatalView::UsageTooLarge && overflows(b@, text_of(start)),
        },
{
    let ghost m = b@;
    let ghost base = b.graph.nodes();
    let ghost edges = b.graph.edges();
    let Builder { graph, indices, diagnostics, .. } = b;
    let mut graph = graph;
    let mut diagnostics = diagnostics;
    let ghost mut map: Seq<Option<usize>> = Seq::empty();
    let prefixes = hash_prefixes(table);
    match start {
        None => {},
        Some(s) => {
            let found = find_entry(&indices, s);
            match found.0 {
                Some(i) => {
                    proof {
                        crate::table::lemma_lookup_some(m.indices, s@);
                        lemma_entry_is_node(m, s@);
                    }
                    let part = part_from(&graph, i);
                    proof {
                        map = part.1@;
                    }
                    graph = part.0;
                },
                None => {
                    if found.1.len() > 1 {
                        let ghost d0 = diagnostic_views(diagnostics@);
                        diagnostics.push(Diagnostic::AmbiguousStart { name: s.to_owned(), hits: found.1 });
                        proof {
                            assert(diagnostic_views(diagnostics@) =~= d0.push(
                                DiagnosticView::AmbiguousStart {
                                    name: s@,
                                    hits: hit_names(m.indices, s@),
                                },
                            ));
                        }
                    }
                    let ghost d1 = diagnostic_views(diagnostics@);
                    diagnostics.push(Diagnostic::StartNotFound);
                    proof {
                        assert(diagnostic_views(diagnostics@) =~= d1.push(DiagnosticView::StartNotFound));
                    }
                },
            }
        },
    }
    proof {
        assert(diagnostic_views(diagnostics@) =~= m.diagnostics + entry_notes(m, text_of(start)));
    }
    let ghost cut = graph.nodes();
    let ghost edges2 = graph.edges();
    if !usage_fits(&graph) {
        proof {
            assert(is_cut(base, m.edges, entry_of(m, text_of(start)), cut, edges2, map));
        }
        return Err(Fatal::UsageTooLarge);
    }
    let cycles = propagate(&mut graph);
    let ghost bounded = graph.nodes();
    shorten(&mut graph, &prefixes);
    let a = Analysis { graph, cycles, diagnostics };
    proof {
        lemma_propagated_renamed(bounded, a.graph.nodes(), edges2);
        assert(is_outcome(
            base,
            m.edges,
            entry_of(m, text_of(start)),
            spec_prefixes(table.defined@),
            cut,
            map,
            bounded,
            a.graph.nodes(),
            a.graph.edges(),
            index_lists(a.cycles@),
        ));
        assert(node_views(base) == m.nodes);
        assert(a.graph.wf());
        assert(propagated(a.graph.nodes(), a.graph.edges()));
        assert(diagnostic_views(a.diagnostics@) =~= m.diagnostics + entry_notes(m, text_of(start)));
    }
    Ok(a)
}

/// The entry point that is found is a node of the graph.
proof fn lemma_entry_is_node(m: Model, start: Seq<char>)
    requires
        m.wf(),
        spec_entry(m.indices, start) is Some,
    ensures
        spec_entry(m.indices, start)->0 < m.nodes.len(),
{
    crate::table::lemma_lookup_some(m.indices, start);
    if crate::table::lookup(m.indices, start) is None {
        let h = crate::filter::hits(m.indices, start + "::h"@, m.indices.len());
        lemma_hits_in_range(m.indices, start + "::h"@, m.indices.len(), 0);
    }
}

/// A hit is the position of an entry.
proof fn lemma_hits_in_range(entries: Seq<(Seq<char>, usize)>, prefix: Seq<char>, upto: nat, k: int)
    requires
        upto <= entries.len(),
        0 <= k < crate::filter::hits(entries, prefix, upto).len(),
    ensures
        0 <= crate::filter::hits(entries, prefix, upto)[k] < upto,
    decreases upto,
{
    if upto > 0 {
        let rest = crate::filter::hits(entries, prefix, (upto - 1) as nat);
        if k < rest.len() {
            lemma_hits_in_range(entries, prefix, (upto - 1) as nat, k);
        }
    }
}

/// The whole analysis.
///
/// `codes[k]` is what the decoder found in the machine code of symbol `k` of
/// the table, and is looked at only where the target has a decoder. `start`
/// names the entry point, if the graph is to be cut down to what is reached
/// from one.
pub fn analyze(
    target: Target,
    table: &SymbolTable,
    ir: &Ir,
    codes: &Vec<Option<MachineCode>>,
    start: Option<&str>,
) -> (r: Result<Analysis, Fatal>)
    requires
        table.wf(),
    ensures
        match r {
            Ok(a) => spec_build(target, *table, *ir, codes@) is Ok && a.describes(
                spec_build(target, *table, *ir, codes@)->Ok_0,
                *table,
                text_of(start),
            ),
            Err(e) => match spec_build(target, *table, *ir, codes@) {
                Err(f) => e@ == f,
                Ok(m) => e@ == FatalView::UsageTooLarge && overflows(m, text_of(start)),
            },
        },
{
    match build(target, table, ir, codes) {
        Err(e) => Err(e),
        Ok(b) => finish(b, table, start),
    }
}

} // verus!
