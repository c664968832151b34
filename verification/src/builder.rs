//! Construction of the call graph from the symbols, the intermediate
//! representation and the facts decoded from machine code.

use vstd::prelude::*;
use crate::diag::{diagnostic_views, Diagnostic, Fatal, FatalView};
use crate::graph::{has_edge, lemma_out_targets, node_views, CallGraph, Node};
use crate::intrinsics::{
    classify, is_symbolless, memcpy_names, memset_names, spec_memcpy_names, spec_memset_names,
    Policy,
};
use crate::ir::{Callee, Define, Ir};
use crate::model::{pairs_view, Model};
use crate::names::is_outlined_function;
use crate::propagate::contains_index;
use crate::symbols::{texts, SymbolTable};
use crate::table::Table;

verus! {

/// The call graph under construction, with what is needed to go on with it.
pub struct Builder {
    /// The graph so far.
    pub graph: CallGraph,
    /// From names to node indices.
    pub indices: Table<usize>,
    /// The signatures seen, each with whether a call goes through it.
    pub sigs: Table<bool>,
    /// Pairs of a signature, by position, and a node that calls through it.
    pub callers: Vec<(usize, usize)>,
    /// Pairs of a signature, by position, and a node that has it.
    pub callees: Vec<(usize, usize)>,
    /// The nodes of the functions that have a body.
    pub bodies: Vec<usize>,
    /// The nodes of the functions that hold inline assembly.
    pub inline_asm: Vec<usize>,
    /// The intrinsics already remarked on.
    pub lowered: Vec<String>,
    /// Whether any symbol is of unknown signature.
    pub untyped: bool,
    /// The remarks made so far.
    pub diagnostics: Vec<Diagnostic>,
}

impl View for Builder {
    type V = Model;

    open spec fn view(&self) -> Model {
        Model {
            nodes: node_views(self.graph.nodes()),
            edges: self.graph.edges(),
            indices: self.indices@,
            sigs: self.sigs@,
            callers: pairs_view(self.callers@),
            callees: pairs_view(self.callees@),
            bodies: self.bodies@,
            inline_asm: self.inline_asm@,
            lowered: crate::symbols::texts(self.lowered@),
            untyped: self.untyped,
            diagnostics: diagnostic_views(self.diagnostics@),
        }
    }
}

impl Builder {
    /// Whether the graph under construction is well formed.
    pub open spec fn wf(&self) -> bool {
        self@.wf()
    }

    /// A builder for an empty graph.
    pub fn new() -> (b: Builder)
        ensures
            b.wf(),
            b@ == Model::empty(),
    {
        let b = Builder {
            graph: CallGraph::new(),
            indices: Table::new(),
            sigs: Table::new(),
            callers: Vec::new(),
            callees: Vec::new(),
            bodies: Vec::new(),
            inline_asm: Vec::new(),
            lowered: Vec::new(),
            untyped: false,
            diagnostics: Vec::new(),
        };
        proof {
            assert(b@.callers =~= Seq::empty());
            assert(b@.callees =~= Seq::empty());
            assert(b@.nodes =~= Seq::empty());
            assert(b@.lowered =~= Seq::empty());
            assert(b@.diagnostics =~= Seq::empty());
        }
        b
    }

    /// Makes a remark.
    pub fn note(&mut self, d: Diagnostic)
        ensures
            final(self)@ == old(self)@.note(d@),
    {
        self.diagnostics.push(d);
        proof {
            assert(self@.diagnostics =~= old(self)@.diagnostics.push(d@));
        }
    }

    /// Adds a node, unless the graph is full.
    pub fn add_node(&mut self, node: Node) -> (r: Result<usize, Fatal>)
        requires
            old(self).wf(),
        ensures
            final(self).wf(),
            match r {
                Ok(i) => old(self)@.add_node(node@) == Ok::<Model, FatalView>(final(self)@) && i
                    == old(self)@.nodes.len(),
                Err(e) => old(self)@.add_node(node@) == Err::<Model, FatalView>(e@) && final(self)@
                    == old(self)@,
            },
    {
        if self.graph.node_count() >= u32::MAX as usize {
            return Err(Fatal::GraphFull);
        }
        let i = self.graph.add_node(node);
        proof {
            assert(self@.nodes =~= old(self)@.nodes.push(node@));
        }
        Ok(i)
    }

    /// Adds an edge, unless the graph is full.
    pub fn add_edge(&mut self, a: usize, b: usize) -> (r: Result<(), Fatal>)
        requires
            old(self).wf(),
            a < old(self)@.nodes.len(),
            b < old(self)@.nodes.len(),
        ensures
            final(self).wf(),
            match r {
                Ok(()) => old(self)@.add_edge(a as int, b as int) == Ok::<Model, FatalView>(
                    final(self)@,
                ),
                Err(e) => old(self)@.add_edge(a as int, b as int) == Err::<Model, FatalView>(e@)
                    && final(self)@ == old(self)@,
            },
    {
        if self.graph.edge_count() >= u32::MAX as usize {
            return Err(Fatal::GraphFull);
        }
        self.graph.add_edge(a, b);
        Ok(())
    }

    /// Tests whether there is an edge from `a` to `b`.
    pub fn calls(&self, a: usize, b: usize) -> (r: bool)
        requires
            self.wf(),
            a < self@.nodes.len(),
        ensures
            r == has_edge(self@.edges, a as int, b as int),
    {
        let nb = self.graph.neighbors(a);
        proof {
            lemma_out_targets(self.graph.edges(), a as int, b as int);
        }
        contains_index(&nb, b)
    }

    /// Adds an edge from `a` to `b` unless there is one already.
    pub fn link(&mut self, a: usize, b: usize) -> (r: Result<(), Fatal>)
        requires
            old(self).wf(),
            a < old(self)@.nodes.len(),
            b < old(self)@.nodes.len(),
        ensures
            final(self).wf(),
            final(self)@.nodes == old(self)@.nodes,
            match r {
                Ok(()) => old(self)@.link(a as int, b as int) == Ok::<Model, FatalView>(final(self)@),
                Err(e) => old(self)@.link(a as int, b as int) == Err::<Model, FatalView>(e@)
                    && final(self)@ == old(self)@,
            },
    {
        if self.calls(a, b) {
            Ok(())
        } else {
            self.add_edge(a, b)
        }
    }

    /// Enters `node` among the functions of signature `sig`.
    pub fn add_callee(&mut self, sig: &String, node: usize)
        requires
            old(self).wf(),
            node < old(self)@.nodes.len(),
        ensures
            final(self).wf(),
            final(self)@ == old(self)@.with_callee(sig@, node),
    {
        let ghost listed = pairs_view(self.callees@);
        match self.sigs.find(sig.as_str()) {
            Some(r) => {
                self.callees.push((r, node));
                proof {
                    assert(pairs_view(self.callees@) =~= listed.push((r as int, node as int)));
                }
            },
            None => {
                let r = self.sigs.len();
                self.sigs.insert(sig.clone(), false);
                self.callees.push((r, node));
                proof {
                    assert(pairs_view(self.callees@) =~= listed.push((r as int, node as int)));
                }
            },
        }
        proof {
            let before = old(self)@;
            let after = self@;
            assert(after.nodes == before.nodes);
            assert(after.sigs.len() >= before.sigs.len());
            assert(after.indices == before.indices);
            assert forall|i: int| 0 <= i < after.indices.len() implies (#[trigger] after.indices[i]).1
                < after.nodes.len() by {
                assert(before.indices[i].1 < before.nodes.len());
            }
            assert forall|i: int| 0 <= i < after.callees.len() implies 0 <= (#[trigger] after.callees[i]).0
                < after.sigs.len() && 0 <= after.callees[i].1 < after.nodes.len() by {
                if i < before.callees.len() {
                    assert(after.callees[i] == before.callees[i]);
                }
            }
            assert forall|i: int| 0 <= i < after.callers.len() implies 0 <= (#[trigger] after.callers[i]).0
                < after.sigs.len() && 0 <= after.callers[i].1 < after.nodes.len() by {
                assert(after.callers[i] == before.callers[i]);
            }
        }
    }

    /// Enters node `caller` among the functions that have a body.
    pub fn mark_body(&mut self, caller: usize, inline_asm: bool)
        ensures
            final(self)@ == old(self)@.mark_body(caller, inline_asm),
    {
        self.bodies.push(caller);
        if inline_asm {
            self.inline_asm.push(caller);
        }
    }

    /// Tests whether `list` holds the pair `p`.
    pub fn contains_pair(list: &Vec<(usize, usize)>, p: (usize, usize)) -> (r: bool)
        ensures
            r == pairs_view(list@).contains((p.0 as int, p.1 as int)),
    {
        let mut i: usize = 0;
        while i < list.len()
            invariant
                i <= list.len(),
                forall|j: int| 0 <= j < i ==> list@[j] != p,
            decreases list.len() - i,
        {
            if list[i].0 == p.0 && list[i].1 == p.1 {
                proof {
                    assert(pairs_view(list@)[i as int] == (p.0 as int, p.1 as int));
                }
                return true;
            }
            i += 1;
        }
        proof {
            assert forall|j: int| 0 <= j < pairs_view(list@).len() implies pairs_view(list@)[j] != (
                p.0 as int,
                p.1 as int,
            ) by {
                assert(list@[j] != p);
            }
        }
        false
    }

    /// Records a call through a pointer of signature `sig` in node `caller`.
    pub fn add_indirect(&mut self, caller: usize, sig: &String)
        requires
            old(self).wf(),
            caller < old(self)@.nodes.len(),
        ensures
            final(self).wf(),
            final(self)@ == old(self)@.with_indirect(caller, sig@),
    {
        let ghost listed = pairs_view(self.callers@);
        match self.sigs.find(sig.as_str()) {
            Some(r) => {
                self.sigs.set_value(r, true);
                if !Self::contains_pair(&self.callers, (r, caller)) {
                    self.callers.push((r, caller));
                    proof {
                        assert(pairs_view(self.callers@) =~= listed.push((r as int, caller as int)));
                    }
                }
            },
            None => {
                let r = self.sigs.len();
                self.sigs.insert(sig.clone(), true);
                self.callers.push((r, caller));
                proof {
                    assert(pairs_view(self.callers@) =~= listed.push((r as int, caller as int)));
                }
            },
        }
        proof {
            let before = old(self)@;
            let after = self@;
            assert(after.nodes == before.nodes);
            assert(after.sigs.len() >= before.sigs.len());
            assert(after.indices == before.indices);
            assert forall|i: int| 0 <= i < after.indices.len() implies (#[trigger] after.indices[i]).1
                < after.nodes.len() by {
                assert(before.indices[i].1 < before.nodes.len());
            }
            assert forall|i: int| 0 <= i < after.callers.len() implies 0 <= (#[trigger] after.callers[i]).0
                < after.sigs.len() && 0 <= after.callers[i].1 < after.nodes.len() by {
                if i < before.callers.len() {
                    assert(after.callers[i] == before.callers[i]);
                }
            }
            assert forall|i: int| 0 <= i < after.callees.len() implies 0 <= (#[trigger] after.callees[i]).0
                < after.sigs.len() && 0 <= after.callees[i].1 < after.nodes.len() by {
                assert(after.callees[i] == before.callees[i]);
            }
        }
    }

    /// The node that `name` points to.
    pub fn node_of(&self, name: &str) -> (r: Option<usize>)
        requires
            self.wf(),
        ensures
            r == crate::table::lookup(self@.indices, name@),
            r is Some ==> r->0 < self@.nodes.len(),
    {
        match self.indices.find(name) {
            Some(i) => {
                proof {
                    assert(self@.indices[i as int].1 < self@.nodes.len());
                }
                Some(*self.indices.value_at(i))
            },
            None => None,
        }
    }

    /// Adds edges from `caller` to the nodes of those of `names` that point
    /// to a node.
    pub fn link_named(&mut self, caller: usize, names: &Vec<&'static str>) -> (r: Result<(), Fatal>)
        requires
            old(self).wf(),
            caller < old(self)@.nodes.len(),
        ensures
            final(self).wf(),
            final(self)@.nodes == old(self)@.nodes,
            match r {
                Ok(()) => old(self)@.link_named(caller, texts_of(names@), names@.len()) == Ok::<
                    Model,
                    FatalView,
                >(final(self)@),
                Err(e) => old(self)@.link_named(caller, texts_of(names@), names@.len()) == Err::<
                    Model,
                    FatalView,
                >(e@),
            },
    {
        let mut i: usize = 0;
        while i < names.len()
            invariant
                i <= names.len(),
                self.wf(),
                self@.nodes == old(self)@.nodes,
                caller < self@.nodes.len(),
                old(self)@.link_named(caller, texts_of(names@), i as nat) == Ok::<Model, FatalView>(
                    self@,
                ),
            decreases names.len() - i,
        {
            match self.node_of(names[i]) {
                Some(callee) => {
                    match self.link(caller, callee) {
                        Err(e) => {
                            proof {
                                lemma_link_named_fails(
                                    old(self)@,
                                    caller,
                                    texts_of(names@),
                                    (i + 1) as nat,
                                    names@.len(),
                                );
                            }
                            return Err(e);
                        },
                        Ok(()) => {},
                    }
                },
                None => {},
            }
            i += 1;
        }
        Ok(())
    }

    /// Adds what a call of the function `func` in node `caller` stands for,
    /// where `func` is no intrinsic.
    pub fn add_plain(&mut self, table: &SymbolTable, caller: usize, func: &str) -> (r: Result<(), Fatal>)
        requires
            old(self).wf(),
            table.wf(),
            caller < old(self)@.nodes.len(),
        ensures
            final(self).wf(),
            final(self)@.nodes.len() >= old(self)@.nodes.len(),
            match r {
                Ok(()) => old(self)@.with_plain(*table, caller, func@) == Ok::<Model, FatalView>(
                    final(self)@,
                ),
                Err(e) => old(self)@.with_plain(*table, caller, func@) == Err::<Model, FatalView>(e@),
            },
    {
        if is_symbolless(func) && self.node_of(func).is_none() {
            return Ok(());
        }
        match table.alias_of(func) {
            Some(c) => match self.node_of(c.as_str()) {
                Some(i) => self.link(caller, i),
                None => Ok(()),
            },
            None => {
                if !table.is_undefined(func) {
                    return Err(Fatal::UnknownCallee { name: func.to_owned() });
                }
                match self.node_of(func) {
                    Some(i) => self.link(caller, i),
                    None => {
                        let i = match self.add_node(Node(func.to_owned(), None, false)) {
                            Err(e) => {
                                return Err(e);
                            },
                            Ok(i) => i,
                        };
                        self.indices.insert(func.to_owned(), i);
                        proof {
                            let mid = self@;
                            assert forall|j: int| 0 <= j < mid.indices.len() implies (
                            #[trigger] mid.indices[j]).1 < mid.nodes.len() by {
                                if j < old(self)@.indices.len() {
                                    assert(mid.indices[j] == old(self)@.indices[j]);
                                }
                            }
                        }
                        self.link(caller, i)
                    },
                }
            },
        }
    }

    /// Adds what a direct call of `func` in node `caller` stands for.
    pub fn add_direct(&mut self, table: &SymbolTable, decoder: bool, caller: usize, func: &str) -> (r:
        Result<(), Fatal>)
        requires
            old(self).wf(),
            table.wf(),
            caller < old(self)@.nodes.len(),
        ensures
            final(self).wf(),
            final(self)@.nodes.len() >= old(self)@.nodes.len(),
            match r {
                Ok(()) => old(self)@.with_direct(*table, decoder, caller, func@) == Ok::<
                    Model,
                    FatalView,
                >(final(self)@),
                Err(e) => old(self)@.with_direct(*table, decoder, caller, func@) == Err::<
                    Model,
                    FatalView,
                >(e@),
            },
    {
        match classify(func, decoder) {
            Policy::Marker => Ok(()),
            Policy::Deferred => Ok(()),
            Policy::Lowered => {
                if !Self::contains_text(&self.lowered, func) {
                    self.lowered.push(func.to_owned());
                    proof {
                        assert(texts(self.lowered@) =~= texts(old(self).lowered@).push(func@));
                    }
                    self.note(Diagnostic::AssumedLowered { intrinsic: func.to_owned() });
                }
                Ok(())
            },
            Policy::Unhandled => Err(Fatal::UnhandledIntrinsic { name: func.to_owned() }),
            Policy::Memcpy => {
                let names = memcpy_names();
                proof {
                    assert(texts_of(names@) =~= spec_memcpy_names());
                }
                self.link_named(caller, &names)
            },
            Policy::Memset => {
                let names = memset_names();
                proof {
                    assert(texts_of(names@) =~= spec_memset_names());
                }
                self.link_named(caller, &names)
            },
            Policy::Plain => self.add_plain(table, caller, func),
        }
    }

    /// Tests whether `list` holds the text `s`.
    pub fn contains_text(list: &Vec<String>, s: &str) -> (r: bool)
        ensures
            r == texts(list@).contains(s@),
    {
        let mut i: usize = 0;
        while i < list.len()
            invariant
                i <= list.len(),
                forall|j: int| 0 <= j < i ==> list@[j]@ != s@,
            decreases list.len() - i,
        {
            if crate::text::same_text(list[i].as_str(), s) {
                proof {
                    assert(texts(list@)[i as int] == s@);
                }
                return true;
            }
            i += 1;
        }
        proof {
            assert forall|j: int| 0 <= j < texts(list@).len() implies texts(list@)[j] != s@ by {
                assert(list@[j]@ != s@);
            }
        }
        false
    }

    /// Adds what the calls of a defined function stand for.
    pub fn add_define(&mut self, table: &SymbolTable, decoder: bool, define: &Define) -> (r: Result<
        (),
        Fatal,
    >)
        requires
            old(self).wf(),
            table.wf(),
        ensures
            final(self).wf(),
            match r {
                Ok(()) => old(self)@.with_define(*table, decoder, *define) == Ok::<Model, FatalView>(
                    final(self)@,
                ),
                Err(e) => old(self)@.with_define(*table, decoder, *define) == Err::<Model, FatalView>(
                    e@,
                ),
            },
    {
        let caller = match table.alias_of(define.name.as_str()) {
            None => {
                return Ok(());
            },
            Some(c) => match self.node_of(c.as_str()) {
                None => {
                    return Ok(());
                },
                Some(i) => i,
            },
        };
        self.mark_body(caller, define.inline_asm);
        let ghost start = self@;
        let mut i: usize = 0;
        while i < define.callees.len()
            invariant
                i <= define.callees@.len(),
                self.wf(),
                table.wf(),
                caller < self@.nodes.len(),
                old(self)@.with_define(*table, decoder, *define) == start.with_calls(
                    *table,
                    decoder,
                    caller,
                    define.callees@,
                    define.callees@.len(),
                ),
                start.with_calls(*table, decoder, caller, define.callees@, i as nat) == Ok::<
                    Model,
                    FatalView,
                >(self@),
            decreases define.callees@.len() - i,
        {
            let ghost cur = self@;
            proof {
                assert(start.with_calls(*table, decoder, caller, define.callees@, (i + 1) as nat)
                    == cur.with_call(*table, decoder, caller, define.callees@[i as int]));
            }
            let r = match &define.callees[i] {
                Callee::Direct { name } => self.add_direct(table, decoder, caller, name.as_str()),
                Callee::Indirect { sig } => {
                    self.add_indirect(caller, sig);
                    Ok(())
                },
            };
            match r {
                Err(e) => {
                    proof {
                        lemma_with_calls_fails(
                            start,
                            *table,
                            decoder,
                            caller,
                            define.callees@,
                            (i + 1) as nat,
                            define.callees@.len(),
                        );
                    }
                    return Err(e);
                },
                Ok(()) => {},
            }
            i += 1;
        }
        Ok(())
    }

    /// Adds what the calls of all defined functions stand for.
    pub fn add_defines(&mut self, table: &SymbolTable, decoder: bool, ir: &Ir) -> (r: Result<(), Fatal>)
        requires
            old(self).wf(),
            table.wf(),
        ensures
            final(self).wf(),
            match r {
                Ok(()) => old(self)@.with_defines(*table, decoder, ir.defines@, ir.defines@.len())
                    == Ok::<Model, FatalView>(final(self)@),
                Err(e) => old(self)@.with_defines(*table, decoder, ir.defines@, ir.defines@.len())
                    == Err::<Model, FatalView>(e@),
            },
    {
        let mut i: usize = 0;
        while i < ir.defines.len()
            invariant
                i <= ir.defines@.len(),
                self.wf(),
                table.wf(),
                old(self)@.with_defines(*table, decoder, ir.defines@, i as nat) == Ok::<
                    Model,
                    FatalView,
                >(self@),
            decreases ir.defines@.len() - i,
        {
            match self.add_define(table, decoder, &ir.defines[i]) {
                Err(e) => {
                    proof {
                        lemma_with_defines_fails(
                            old(self)@,
                            *table,
                            decoder,
                            ir.defines@,
                            (i + 1) as nat,
                            ir.defines@.len(),
                        );
                    }
                    return Err(e);
                },
                Ok(()) => {},
            }
            i += 1;
        }
        Ok(())
    }

    /// Adds the node for symbol `k` of the table, where the symbol has a
    /// canonical name.
    pub fn add_symbol(&mut self, table: &SymbolTable, ir: &Ir, decoder: bool, k: usize) -> (r: Result<
        (),
        Fatal,
    >)
        requires
            old(self).wf(),
            table.wf(),
            k < table.defined@.len(),
        ensures
            final(self).wf(),
            match r {
                Ok(()) => old(self)@.with_symbol(table.defined@, *ir, decoder, k as int) == Ok::<
                    Model,
                    FatalView,
                >(final(self)@),
                Err(e) => old(self)@.with_symbol(table.defined@, *ir, decoder, k as int) == Err::<
                    Model,
                    FatalView,
                >(e@),
            },
    {
        let sym = &table.defined[k];
        let name = match sym.canonical() {
            None => {
                return Ok(());
            },
            Some(name) => name,
        };
        let stack = table.stack_of(name.as_str());
        let node = Node(name.clone(), stack, false);
        let idx = match self.add_node(node) {
            Err(e) => {
                return Err(e);
            },
            Ok(i) => i,
        };
        self.indices.insert(name.clone(), idx);
        if stack.is_none() && !decoder {
            self.note(Diagnostic::NoStackInfo { name: name.clone() });
        }
        match ir.symbol_sig(sym) {
            Some(sig) => {
                self.add_callee(sig, idx);
            },
            None => {
                if !is_outlined_function(name.as_str()) {
                    self.untyped = true;
                    self.note(Diagnostic::NoTypeInfo { name: name.clone() });
                }
            },
        }
        Ok(())
    }

    /// Adds the nodes for all symbols of the table.
    pub fn add_symbols(&mut self, table: &SymbolTable, ir: &Ir, decoder: bool) -> (r: Result<(), Fatal>)
        requires
            old(self).wf(),
            table.wf(),
        ensures
            final(self).wf(),
            match r {
                Ok(()) => old(self)@.with_symbols(
                    table.defined@,
                    *ir,
                    decoder,
                    table.defined@.len(),
                ) == Ok::<Model, FatalView>(final(self)@),
                Err(e) => old(self)@.with_symbols(
                    table.defined@,
                    *ir,
                    decoder,
                    table.defined@.len(),
                ) == Err::<Model, FatalView>(e@),
            },
    {
        let mut k: usize = 0;
        while k < table.defined.len()
            invariant
                k <= table.defined@.len(),
                self.wf(),
                table.wf(),
                old(self)@.with_symbols(table.defined@, *ir, decoder, k as nat) == Ok::<
                    Model,
                    FatalView,
                >(self@),
            decreases table.defined@.len() - k,
        {
            match self.add_symbol(table, ir, decoder, k) {
                Err(e) => {
                    proof {
                        lemma_with_symbols_fails(
                            old(self)@,
                            table.defined@,
                            *ir,
                            decoder,
                            (k + 1) as nat,
                            table.defined@.len(),
                        );
                    }
                    return Err(e);
                },
                Ok(()) => {},
            }
            k += 1;
        }
        Ok(())
    }
}

/// The texts of a list of string literals.
pub open spec fn texts_of(names: Seq<&'static str>) -> Seq<Seq<char>> {
    Seq::new(names.len(), |i: int| names[i]@)
}

/// Once an edge to a named routine cannot be added, the edges to more of
/// them cannot be added either, for the same reason.
pub proof fn lemma_link_named_fails(m: Model, caller: usize, names: Seq<Seq<char>>, k: nat, upto: nat)
    requires
        k <= upto,
        m.link_named(caller, names, k) is Err,
    ensures
        m.link_named(caller, names, upto) == m.link_named(caller, names, k),
    decreases upto,
{
    if k < upto {
        lemma_link_named_fails(m, caller, names, k, (upto - 1) as nat);
    }
}

/// Once a call statement is at fault, so are the statements up to any later one.
pub proof fn lemma_with_calls_fails(
    m: Model,
    table: SymbolTable,
    decoder: bool,
    caller: usize,
    callees: Seq<Callee>,
    k: nat,
    upto: nat,
)
    requires
        k <= upto,
        m.with_calls(table, decoder, caller, callees, k) is Err,
    ensures
        m.with_calls(table, decoder, caller, callees, upto) == m.with_calls(
            table,
            decoder,
            caller,
            callees,
            k,
        ),
    decreases upto,
{
    if k < upto {
        lemma_with_calls_fails(m, table, decoder, caller, callees, k, (upto - 1) as nat);
    }
}

/// Once a defined function is at fault, so are the functions up to any later one.
pub proof fn lemma_with_defines_fails(
    m: Model,
    table: SymbolTable,
    decoder: bool,
    defines: Seq<Define>,
    k: nat,
    upto: nat,
)
    requires
        k <= upto,
        m.with_defines(table, decoder, defines, k) is Err,
    ensures
        m.with_defines(table, decoder, defines, upto) == m.with_defines(table, decoder, defines, k),
    decreases upto,
{
    if k < upto {
        lemma_with_defines_fails(m, table, decoder, defines, k, (upto - 1) as nat);
    }
}

/// Once the nodes for some symbols cannot be added, those for more symbols
/// cannot be added either, for the same reason.
pub proof fn lemma_with_symbols_fails(
    m: Model,
    symbols: Seq<crate::symbols::Symbol>,
    ir: Ir,
    decoder: bool,
    k: nat,
    upto: nat,
)
    requires
        k <= upto,
        m.with_symbols(symbols, ir, decoder, k) is Err,
    ensures
        m.with_symbols(symbols, ir, decoder, upto) == m.with_symbols(symbols, ir, decoder, k),
    decreases upto,
{
    if k < upto {
        lemma_with_symbols_fails(m, symbols, ir, decoder, k, (upto - 1) as nat);
    }
}

} // verus!
