//! The graph under construction as a mathematical value, and what each step
//! of the construction makes of it.

use vstd::prelude::*;
use crate::diag::{DiagnosticView, FatalView};
use crate::graph::{edges_within, has_edge, NodeView};
use crate::intrinsics::{
    spec_classify, spec_is_symbolless, spec_memcpy_names, spec_memset_names, Policy,
};
use crate::ir::{Callee, Define, Ir};
use crate::names::spec_is_outlined_function;
use crate::symbols::{spec_alias_of, spec_stack_of, Symbol, SymbolTable};
use crate::table::{lookup, position};
use crate::usage::Local;

verus! {

/// Pairs of indices as pairs of mathematical integers.
pub open spec fn pairs_view(pairs: Seq<(usize, usize)>) -> Seq<(int, int)> {
    Seq::new(pairs.len(), |i: int| (pairs[i].0 as int, pairs[i].1 as int))
}

/// The graph under construction.
pub struct Model {
    /// The nodes, by index.
    pub nodes: Seq<NodeView>,
    /// The edges, in the order of their addition.
    pub edges: Seq<(int, int)>,
    /// From names to node indices; a later entry replaces an earlier one.
    pub indices: Seq<(Seq<char>, usize)>,
    /// The signatures seen, each with whether a call goes through it.
    pub sigs: Seq<(Seq<char>, bool)>,
    /// Pairs of a signature, by position, and a node that calls through it.
    pub callers: Seq<(int, int)>,
    /// Pairs of a signature, by position, and a node that has it.
    pub callees: Seq<(int, int)>,
    /// The nodes of the functions that have a body.
    pub bodies: Seq<usize>,
    /// The nodes of the functions that hold inline assembly.
    pub inline_asm: Seq<usize>,
    /// The intrinsics already remarked on.
    pub lowered: Seq<Seq<char>>,
    /// Whether any symbol is of unknown signature.
    pub untyped: bool,
    /// The remarks made so far.
    pub diagnostics: Seq<DiagnosticView>,
}

impl Model {
    /// The graph before anything is added.
    pub open spec fn empty() -> Model {
        Model {
            nodes: Seq::empty(),
            edges: Seq::empty(),
            indices: Seq::empty(),
            sigs: Seq::empty(),
            callers: Seq::empty(),
            callees: Seq::empty(),
            bodies: Seq::empty(),
            inline_asm: Seq::empty(),
            lowered: Seq::empty(),
            untyped: false,
            diagnostics: Seq::empty(),
        }
    }

    /// Edges join nodes, names and signatures point to nodes, and indices fit
    /// the graph's index type.
    pub open spec fn wf(self) -> bool {
        &&& edges_within(self.edges, self.nodes.len())
        &&& self.nodes.len() <= u32::MAX
        &&& self.edges.len() <= u32::MAX
        &&& forall|i: int| 0 <= i < self.indices.len() ==> (#[trigger] self.indices[i]).1 < self.nodes.len()
        &&& forall|i: int|
            0 <= i < self.callers.len() ==> 0 <= (#[trigger] self.callers[i]).0 < self.sigs.len() && 0
                <= self.callers[i].1 < self.nodes.len()
        &&& forall|i: int|
            0 <= i < self.callees.len() ==> 0 <= (#[trigger] self.callees[i]).0 < self.sigs.len() && 0
                <= self.callees[i].1 < self.nodes.len()
    }

    /// With one more remark.
    pub open spec fn note(self, d: DiagnosticView) -> Model {
        Model { diagnostics: self.diagnostics.push(d), ..self }
    }

    /// With one more node, unless the graph is full.
    pub open spec fn add_node(self, node: NodeView) -> Result<Model, FatalView> {
        if self.nodes.len() >= u32::MAX {
            Err(FatalView::GraphFull)
        } else {
            Ok(Model { nodes: self.nodes.push(node), ..self })
        }
    }

    /// With one more edge, unless the graph is full.
    pub open spec fn add_edge(self, a: int, b: int) -> Result<Model, FatalView> {
        if self.edges.len() >= u32::MAX {
            Err(FatalView::GraphFull)
        } else {
            Ok(Model { edges: self.edges.push((a, b)), ..self })
        }
    }

    /// With an edge from `a` to `b`, added unless there is one already.
    pub open spec fn link(self, a: int, b: int) -> Result<Model, FatalView> {
        if has_edge(self.edges, a, b) {
            Ok(self)
        } else {
            self.add_edge(a, b)
        }
    }

    /// With `name` pointing to node `i`.
    pub open spec fn index(self, name: Seq<char>, i: usize) -> Model {
        Model { indices: self.indices.push((name, i)), ..self }
    }

    /// With `node` among the functions of signature `sig`.
    pub open spec fn with_callee(self, sig: Seq<char>, node: usize) -> Model {
        match position(self.sigs, sig) {
            Some(r) => Model { callees: self.callees.push((r, node as int)), ..self },
            None => Model {
                sigs: self.sigs.push((sig, false)),
                callees: self.callees.push((self.sigs.len() as int, node as int)),
                ..self
            },
        }
    }

    /// With the node for symbol `k`, where the symbol has a canonical name:
    /// a node of that name and of the stack usage reported for the name,
    /// entered under the name and under the signature of the symbol. A
    /// symbol without signature that is no outlined helper marks the
    /// program as holding untyped symbols.
    pub open spec fn with_symbol(
        self,
        symbols: Seq<Symbol>,
        ir: Ir,
        decoder: bool,
        k: int,
    ) -> Result<Model, FatalView> {
        match symbols[k].spec_canonical() {
            None => Ok(self),
            Some(c) => {
                let stack = match spec_stack_of(symbols, c) {
                    Some(s) => s,
                    None => None,
                };
                let node = NodeView {
                    name: c,
                    local: Local::from_option_spec(stack),
                    max: None,
                    dashed: false,
                };
                match self.add_node(node) {
                    Err(e) => Err(e),
                    Ok(m) => {
                        let idx = self.nodes.len() as usize;
                        let m1 = m.index(c, idx);
                        let m2 = if stack is None && !decoder {
                            m1.note(DiagnosticView::NoStackInfo { name: c })
                        } else {
                            m1
                        };
                        Ok(
                            match ir.spec_symbol_sig(symbols[k].names_view()) {
                                Some(sig) => m2.with_callee(sig, idx),
                                None => if !spec_is_outlined_function(c) {
                                    Model { untyped: true, ..m2 }.note(
                                        DiagnosticView::NoTypeInfo { name: c },
                                    )
                                } else {
                                    m2
                                },
                            },
                        )
                    },
                }
            },
        }
    }

    /// With the nodes for the first `upto` symbols.
    pub open spec fn with_symbols(
        self,
        symbols: Seq<Symbol>,
        ir: Ir,
        decoder: bool,
        upto: nat,
    ) -> Result<Model, FatalView>
        decreases upto,
    {
        if upto == 0 {
            Ok(self)
        } else {
            match self.with_symbols(symbols, ir, decoder, (upto - 1) as nat) {
                Err(e) => Err(e),
                Ok(m) => m.with_symbol(symbols, ir, decoder, upto - 1),
            }
        }
    }

    /// With node `caller` among the functions that have a body, and among
    /// those with inline assembly if `inline_asm` says so.
    pub open spec fn mark_body(self, caller: usize, inline_asm: bool) -> Model {
        Model {
            bodies: self.bodies.push(caller),
            inline_asm: if inline_asm {
                self.inline_asm.push(caller)
            } else {
                self.inline_asm
            },
            ..self
        }
    }

    /// With a call through a pointer of signature `sig` in node `caller`:
    /// the signature is marked as called, and the caller entered for it.
    pub open spec fn with_indirect(self, caller: usize, sig: Seq<char>) -> Model {
        match position(self.sigs, sig) {
            Some(r) => Model {
                sigs: self.sigs.update(r, (sig, true)),
                callers: if self.callers.contains((r, caller as int)) {
                    self.callers
                } else {
                    self.callers.push((r, caller as int))
                },
                ..self
            },
            None => Model {
                sigs: self.sigs.push((sig, true)),
                callers: self.callers.push((self.sigs.len() as int, caller as int)),
                ..self
            },
        }
    }

    /// With edges from `caller` to the nodes of the first `upto` of `names`
    /// that point to a node.
    pub open spec fn link_named(self, caller: usize, names: Seq<Seq<char>>, upto: nat) -> Result<
        Model,
        FatalView,
    >
        decreases upto,
    {
        if upto == 0 {
            Ok(self)
        } else {
            match self.link_named(caller, names, (upto - 1) as nat) {
                Err(e) => Err(e),
                Ok(m) => match lookup(m.indices, names[upto - 1]) {
                    Some(i) => m.link(caller as int, i as int),
                    None => Ok(m),
                },
            }
        }
    }

    /// With a call of the function `func` in node `caller`, where `func` is
    /// no intrinsic: an edge to the node of the canonical name of `func`, or
    /// to the node of the undefined symbol `func`, which is added if it is
    /// not there. A name that is neither is a fault, but for a routine that
    /// may be there without a symbol.
    pub open spec fn with_plain(self, table: SymbolTable, caller: usize, func: Seq<char>) -> Result<
        Model,
        FatalView,
    > {
        if spec_is_symbolless(func) && lookup(self.indices, func) is None {
            Ok(self)
        } else {
            match spec_alias_of(table.defined@, func) {
                Some(c) => match lookup(self.indices, c) {
                    Some(i) => self.link(caller as int, i as int),
                    None => Ok(self),
                },
                None => if !table.spec_is_undefined(func) {
                    Err(FatalView::UnknownCallee { name: func })
                } else {
                    match lookup(self.indices, func) {
                        Some(i) => self.link(caller as int, i as int),
                        None => match self.add_node(
                            NodeView { name: func, local: Local::Unknown, max: None, dashed: false },
                        ) {
                            Err(e) => Err(e),
                            Ok(m) => m.index(func, self.nodes.len() as usize).link(
                                caller as int,
                                self.nodes.len() as int,
                            ),
                        },
                    }
                },
            }
        }
    }

    /// With a direct call of `func` in node `caller`.
    pub open spec fn with_direct(
        self,
        table: SymbolTable,
        decoder: bool,
        caller: usize,
        func: Seq<char>,
    ) -> Result<Model, FatalView> {
        match spec_classify(func, decoder) {
            Policy::Marker => Ok(self),
            Policy::Deferred => Ok(self),
            Policy::Lowered => Ok(
                if self.lowered.contains(func) {
                    self
                } else {
                    Model { lowered: self.lowered.push(func), ..self }.note(
                        DiagnosticView::AssumedLowered { intrinsic: func },
                    )
                },
            ),
            Policy::Unhandled => Err(FatalView::UnhandledIntrinsic { name: func }),
            Policy::Memcpy => self.link_named(caller, spec_memcpy_names(), spec_memcpy_names().len()),
            Policy::Memset => self.link_named(caller, spec_memset_names(), spec_memset_names().len()),
            Policy::Plain => self.with_plain(table, caller, func),
        }
    }

    /// With one call statement of node `caller`.
    pub open spec fn with_call(self, table: SymbolTable, decoder: bool, caller: usize, callee: Callee) -> Result<
        Model,
        FatalView,
    > {
        match callee {
            Callee::Direct { name } => self.with_direct(table, decoder, caller, name@),
            Callee::Indirect { sig } => Ok(self.with_indirect(caller, sig@)),
        }
    }

    /// With the first `upto` call statements of node `caller`.
    pub open spec fn with_calls(
        self,
        table: SymbolTable,
        decoder: bool,
        caller: usize,
        callees: Seq<Callee>,
        upto: nat,
    ) -> Result<Model, FatalView>
        decreases upto,
    {
        if upto == 0 {
            Ok(self)
        } else {
            match self.with_calls(table, decoder, caller, callees, (upto - 1) as nat) {
                Err(e) => Err(e),
                Ok(m) => m.with_call(table, decoder, caller, callees[upto - 1]),
            }
        }
    }

    /// With the calls of a defined function, where its name is that of a
    /// symbol: a function that the linker dropped adds nothing.
    pub open spec fn with_define(self, table: SymbolTable, decoder: bool, define: Define) -> Result<
        Model,
        FatalView,
    > {
        match spec_alias_of(table.defined@, define.name@) {
            None => Ok(self),
            Some(c) => match lookup(self.indices, c) {
                None => Ok(self),
                Some(caller) => self.mark_body(caller, define.inline_asm).with_calls(
                    table,
                    decoder,
                    caller,
                    define.callees@,
                    define.callees@.len(),
                ),
            },
        }
    }

    /// With the calls of the first `upto` defined functions.
    pub open spec fn with_defines(
        self,
        table: SymbolTable,
        decoder: bool,
        defines: Seq<Define>,
        upto: nat,
    ) -> Result<Model, FatalView>
        decreases upto,
    {
        if upto == 0 {
            Ok(self)
        } else {
            match self.with_defines(table, decoder, defines, (upto - 1) as nat) {
                Err(e) => Err(e),
                Ok(m) => m.with_define(table, decoder, defines[upto - 1]),
            }
        }
    }
}

} // verus!
