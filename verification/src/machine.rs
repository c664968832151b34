//! What the decoder found in the machine code of a function, and what it
//! adds to the graph: a frame size to reconcile with the compiler's, and the
//! targets of its branches.

use vstd::prelude::*;
use crate::builder::Builder;
use crate::diag::{Diagnostic, DiagnosticView, Fatal, FatalView};
use crate::graph::{Node, NodeView};
use crate::model::Model;
use crate::propagate::contains_index;
use crate::reconcile::{reconcile, spec_reconcile, Frame, Override};
use crate::symbols::{clear_tag_bit, spec_canonical_at, spec_clear_tag_bit, SymbolTable};
use crate::table::lookup;
use crate::target::Target;
use crate::text::{has_prefix, starts_with};
use crate::usage::Local;

verus! {

/// What a marker in the symbol table says of the bytes that follow it.
#[derive(Clone, Copy, Debug, PartialEq, Eq, Structural)]
pub enum Tag {
    /// Data.
    Data,
    /// Thumb instructions.
    Thumb,
}

/// What the decoder found in the machine code of one function.
#[derive(Debug)]
pub struct MachineCode {
    /// The offsets, from the start of the function, of the targets of its
    /// branches with link.
    pub calls: Vec<i32>,
    /// The offsets, from the start of the function, of the targets of its
    /// plain branches.
    pub jumps: Vec<i32>,
    /// Whether the function branches to an address held in a register.
    pub indirect: bool,
    /// Whether the function changes the stack pointer.
    pub modifies_sp: bool,
    /// The frame size, where the decoder could compute it.
    pub stack: Option<u64>,
    /// The number of bytes that were decoded.
    pub size: u32,
}

/// What the name of a symbol says of the bytes at its address: a name that
/// begins with `$d` marks data, one that begins with `$t` Thumb
/// instructions, and any other name marks nothing.
pub open spec fn spec_marker_tag(name: Seq<char>) -> Option<Tag> {
    if has_prefix(name, "$d"@) {
        Some(Tag::Data)
    } else if has_prefix(name, "$t"@) {
        Some(Tag::Thumb)
    } else {
        None
    }
}

/// Tells what the name of a symbol says of the bytes at its address.
pub fn marker_tag(name: &str) -> (r: Option<Tag>)
    ensures
        r == spec_marker_tag(name@),
{
    if starts_with(name, "$d") {
        Some(Tag::Data)
    } else if starts_with(name, "$t") {
        Some(Tag::Thumb)
    } else {
        None
    }
}

/// Whether marker `i` stands before marker `j` once the markers are sorted:
/// its address is lower, or the same and it came first.
pub open spec fn sorts_before(markers: Seq<(u32, Tag)>, i: int, j: int) -> bool {
    markers[i].0 < markers[j].0 || (markers[i].0 == markers[j].0 && i < j)
}

/// Whether `order` lists the positions of the first `n` markers, each once,
/// by rising address, markers of one address in the order in which they
/// came.
pub open spec fn is_marker_order(markers: Seq<(u32, Tag)>, order: Seq<int>, n: int) -> bool {
    &&& order.len() == n
    &&& forall|k: int| 0 <= k < order.len() ==> 0 <= #[trigger] order[k] < n
    &&& forall|v: int| 0 <= v < n ==> order.contains(v)
    &&& forall|a: int, b: int|
        0 <= a < b < order.len() ==> sorts_before(markers, #[trigger] order[a], #[trigger] order[b])
}

/// Whether `sorted` holds the markers of `markers` in the order `order`.
pub open spec fn is_picked(markers: Seq<(u32, Tag)>, order: Seq<int>, sorted: Seq<(u32, Tag)>) -> bool {
    sorted.len() == order.len() && forall|k: int|
        0 <= k < sorted.len() ==> #[trigger] sorted[k] == markers[order[k]]
}

/// Whether `sorted` holds the markers of `markers`, each once, by rising
/// address, markers of one address in the order in which they came.
pub open spec fn is_sorted_copy(markers: Seq<(u32, Tag)>, sorted: Seq<(u32, Tag)>) -> bool {
    exists|order: Seq<int>| #[trigger]
        is_marker_order(markers, order, markers.len() as int) && is_picked(markers, order, sorted)
}

/// The markers by rising address.
pub fn sort_markers(markers: &Vec<(u32, Tag)>) -> (sorted: Vec<(u32, Tag)>)
    ensures
        is_sorted_copy(markers@, sorted@),
        is_sorted(sorted@),
{
    let mut sorted: Vec<(u32, Tag)> = Vec::new();
    let ghost mut order: Seq<int> = Seq::empty();
    let mut i: usize = 0;
    while i < markers.len()
        invariant
            i <= markers@.len(),
            is_marker_order(markers@, order, i as int),
            is_picked(markers@, order, sorted@),
        decreases markers@.len() - i,
    {
        let key = markers[i].0;
        let mut p: usize = 0;
        while p < sorted.len() && sorted[p].0 <= key
            invariant
                p <= sorted@.len(),
                i < markers@.len(),
                key == markers@[i as int].0,
                is_marker_order(markers@, order, i as int),
                is_picked(markers@, order, sorted@),
                forall|k: int| 0 <= k < p ==> (#[trigger] sorted@[k]).0 <= key,
            decreases sorted@.len() - p,
        {
            p += 1;
        }
        let ghost before = order;
        let ghost held = sorted@;
        sorted.insert(p, markers[i]);
        proof {
            order = before.insert(p as int, i as int);
            assert forall|k: int| 0 <= k < order.len() implies 0 <= #[trigger] order[k] < i + 1 by {
                if k < p {
                    assert(order[k] == before[k]);
                } else if k > p {
                    assert(order[k] == before[k - 1]);
                }
            }
            assert forall|v: int| 0 <= v < i + 1 implies order.contains(v) by {
                if v == i {
                    assert(order[p as int] == v);
                } else {
                    assert(before.contains(v));
                    let t = choose|t: int| 0 <= t < before.len() && before[t] == v;
                    if t < p {
                        assert(order[t] == v);
                    } else {
                        assert(order[t + 1] == v);
                    }
                }
            }
            assert forall|k: int| 0 <= k < sorted@.len() implies #[trigger] sorted@[k] == markers@[order[k]] by {
                if k < p {
                    assert(sorted@[k] == held[k]);
                    assert(order[k] == before[k]);
                } else if k > p {
                    assert(sorted@[k] == held[k - 1]);
                    assert(order[k] == before[k - 1]);
                }
            }
            assert forall|a: int, b: int| 0 <= a < b < order.len() implies sorts_before(
                markers@,
                #[trigger] order[a],
                #[trigger] order[b],
            ) by {
                let x = if a < p {
                    a
                } else {
                    a - 1
                };
                let y = if b < p {
                    b
                } else {
                    b - 1
                };
                if a != p {
                    assert(order[a] == before[x]);
                }
                if b != p {
                    assert(order[b] == before[y]);
                }
                if a == p {
                    assert(held[p as int] == markers@[before[p as int]]);
                    assert(held[p as int].0 > key);
                    if y > p {
                        assert(sorts_before(markers@, before[p as int], before[y]));
                    }
                } else if b == p {
                    assert(held[x] == markers@[before[x]]);
                    assert(held[x].0 <= key);
                    assert(before[x] < i);
                } else {
                    assert(sorts_before(markers@, before[x], before[y]));
                }
            }
        }
        i += 1;
    }
    proof {
        assert(is_marker_order(markers@, order, markers@.len() as int));
        assert forall|a: int, b: int| 0 <= a < b < sorted@.len() implies sorted@[a].0 <= sorted@[b].0 by {
            assert(sorts_before(markers@, order[a], order[b]));
            assert(sorted@[a] == markers@[order[a]]);
            assert(sorted@[b] == markers@[order[b]]);
        }
    }
    sorted
}

/// The low 32 bits of an address.
pub open spec fn low32(address: u64) -> int {
    address as int % 0x1_0000_0000
}

/// The position of the first marker at `address`, from `from` on.
pub open spec fn first_marker_at(markers: Seq<(u32, Tag)>, address: int, from: int) -> Option<int>
    decreases markers.len() - from,
{
    if from < 0 || from >= markers.len() {
        None
    } else if markers[from].0 == address {
        Some(from)
    } else {
        first_marker_at(markers, address, from + 1)
    }
}

/// The number of bytes of a function: its size where the symbol table gives
/// one; else, where a marker for Thumb code stands at its address and the
/// next marker is one for Thumb code too, the distance between the two;
/// else 0.
pub open spec fn spec_extent(size: u64, address: u64, markers: Seq<(u32, Tag)>) -> u32 {
    if size as int % 0x1_0000_0000 != 0 {
        (size as int % 0x1_0000_0000) as u32
    } else {
        match first_marker_at(markers, low32(address), 0) {
            Some(i) => if markers[i].1 is Thumb && i + 1 < markers.len() && markers[i + 1].1 is Thumb
                && markers[i + 1].0 >= markers[i].0 {
                (markers[i + 1].0 - markers[i].0) as u32
            } else {
                0
            },
            None => 0,
        }
    }
}

/// Whether the markers stand by rising address.
pub open spec fn is_sorted(markers: Seq<(u32, Tag)>) -> bool {
    forall|a: int, b: int| 0 <= a < b < markers.len() ==> markers[a].0 <= markers[b].0
}

/// The first marker at an address stands at that address.
pub proof fn lemma_first_marker_at(markers: Seq<(u32, Tag)>, address: int, from: int)
    requires
        0 <= from,
    ensures
        first_marker_at(markers, address, from) is Some ==> from <= first_marker_at(
            markers,
            address,
            from,
        )->0 < markers.len() && markers[first_marker_at(markers, address, from)->0].0 == address,
    decreases markers.len() - from,
{
    if from < markers.len() && markers[from].0 != address {
        lemma_first_marker_at(markers, address, from + 1);
    }
}

/// Among sorted markers, the marker that ends a function without size is
/// the next by address: no marker behind the one at the function's address
/// stands lower than the one that follows it, and none stands before the
/// function.
pub proof fn lemma_end_marker_is_next(markers: Seq<(u32, Tag)>, address: u64, j: int)
    requires
        is_sorted(markers),
        first_marker_at(markers, low32(address), 0) is Some,
        first_marker_at(markers, low32(address), 0)->0 + 1 < markers.len(),
        first_marker_at(markers, low32(address), 0)->0 < j < markers.len(),
    ensures
        ({
            let i = first_marker_at(markers, low32(address), 0)->0;
            low32(address) <= markers[i + 1].0 <= markers[j].0
        }),
{
    lemma_first_marker_at(markers, low32(address), 0);
}

/// The number of bytes of a function.
pub fn extent(size: u64, address: u64, markers: &Vec<(u32, Tag)>) -> (r: u32)
    ensures
        r == spec_extent(size, address, markers@),
{
    let s: u32 = (size % 0x1_0000_0000) as u32;
    if s != 0 {
        return s;
    }
    let a: u32 = (address % 0x1_0000_0000) as u32;
    let mut i: usize = 0;
    while i < markers.len()
        invariant
            i <= markers.len(),
            a == low32(address),
            size as int % 0x1_0000_0000 == 0,
            first_marker_at(markers@, a as int, 0) == first_marker_at(markers@, a as int, i as int),
        decreases markers.len() - i,
    {
        if markers[i].0 == a {
            let start = markers[i];
            if i + 1 < markers.len() {
                let end = markers[i + 1];
                let thumb = match (start.1, end.1) {
                    (Tag::Thumb, Tag::Thumb) => true,
                    _ => false,
                };
                if thumb && end.0 >= start.0 {
                    return end.0 - start.0;
                }
            }
            return 0;
        }
        i += 1;
    }
    0
}

/// The address that a branch with link at offset `offset` from `address`
/// leads to.
pub open spec fn spec_call_target(address: u64, offset: i32) -> u64 {
    let t = low32(address) + offset;
    if t < 0 {
        (t + 0x1_0000_0000_0000_0000) as u64
    } else {
        t as u64
    }
}

/// The address that a plain branch at offset `offset` from `address` leads
/// to, within 32 bits.
pub open spec fn spec_jump_target(address: u64, offset: i32) -> u64 {
    ((low32(address) + offset) % 0x1_0000_0000) as u64
}

/// Whether `dest` lies within the `size` bytes of the function at `address`.
pub open spec fn spec_inside(address: u64, size: u32, dest: u64) -> bool {
    low32(address) <= dest < low32(address) + size
}

/// The address that a branch with link leads to.
pub fn call_target(address: u64, offset: i32) -> (r: u64)
    ensures
        r == spec_call_target(address, offset),
{
    let a: i64 = (address % 0x1_0000_0000) as i64;
    let t: i64 = a + offset as i64;
    if t < 0 {
        let back: u64 = (-t) as u64;
        (u64::MAX - back) + 1
    } else {
        t as u64
    }
}

/// The address that a plain branch leads to.
pub fn jump_target(address: u64, offset: i32) -> (r: u64)
    ensures
        r == spec_jump_target(address, offset),
{
    let a: i64 = (address % 0x1_0000_0000) as i64;
    let t: i64 = a + offset as i64;
    if t < 0 {
        (t + 0x1_0000_0000) as u64
    } else if t >= 0x1_0000_0000 {
        (t - 0x1_0000_0000) as u64
    } else {
        t as u64
    }
}

/// Tests whether `dest` lies within the function at `address`.
pub fn inside(address: u64, size: u32, dest: u64) -> (r: bool)
    ensures
        r == spec_inside(address, size, dest),
{
    let a: u64 = address % 0x1_0000_0000;
    a <= dest && dest < a + size as u64
}

impl Model {
    /// With the local stack usage of node `i` replaced.
    pub open spec fn with_local(self, i: int, local: Local) -> Model {
        Model {
            nodes: self.nodes.update(
                i,
                NodeView {
                    name: self.nodes[i].name,
                    local,
                    max: self.nodes[i].max,
                    dashed: self.nodes[i].dashed,
                },
            ),
            ..self
        }
    }

    /// With the stack usage of node `caller`, the function `name`,
    /// reconciled with the frame that the decoder found, and with the
    /// remarks that this gives rise to.
    pub open spec fn with_frame(self, name: Seq<char>, caller: usize, frame: Frame) -> Model {
        let reported = self.nodes[caller as int].local;
        let rec = spec_reconcile(name, self.inline_asm.contains(caller), reported, frame);
        let r = reported.value() as u64;
        let d = match frame.size {
            Some(d) => d,
            None => 0,
        };
        let m1 = self.with_local(caller as int, rec.local);
        let m2 = match rec.replaced {
            Override::Nothing => m1,
            Override::InlineAsm => m1.note(
                DiagnosticView::InlineAsmOverride { name, reported: r, decoded: d },
            ),
            Override::Outlined => m1.note(
                DiagnosticView::OutlinedOverride { name, reported: r, decoded: d },
            ),
            Override::Mismatch => m1.note(DiagnosticView::Mismatch { name, reported: r, decoded: d }),
        };
        let m3 = if rec.contradicts_sp {
            m2.note(
                DiagnosticView::StackPointerMismatch {
                    name,
                    stack: rec.local.value() as u64,
                    modifies_sp: frame.modifies_sp,
                },
            )
        } else {
            m2
        };
        if rec.local is Unknown {
            m3.note(DiagnosticView::NoStackInfo { name })
        } else {
            m3
        }
    }

    /// With a call from node `caller`, the function `name`, to a function of
    /// which nothing is known: a new node `?` and an edge to it.
    pub open spec fn with_unknown_callee(self, name: Seq<char>, caller: usize) -> Result<Model, FatalView> {
        match self.note(DiagnosticView::UntypedIndirectCall { name }).add_node(
            NodeView { name: "?"@, local: Local::Unknown, max: None, dashed: false },
        ) {
            Err(e) => Err(e),
            Ok(m) => m.add_edge(caller as int, self.nodes.len() as int),
        }
    }

    /// With a branch from node `caller` to the address `dest`: an edge to
    /// the node of the symbol at that address, tag bit cleared. An address
    /// without symbol is a fault.
    pub open spec fn with_branch(self, table: SymbolTable, target: Target, caller: usize, dest: u64) -> Result<
        Model,
        FatalView,
    > {
        let address = spec_clear_tag_bit(target, dest);
        match spec_canonical_at(table.defined@, address) {
            None => Err(FatalView::NoSymbolAt { address }),
            Some(name) => match lookup(self.indices, name) {
                Some(i) => self.link(caller as int, i as int),
                None => Ok(self),
            },
        }
    }

    /// With the first `upto` branches with link of the function at `address`.
    pub open spec fn with_calls_at(
        self,
        table: SymbolTable,
        target: Target,
        caller: usize,
        address: u64,
        offsets: Seq<i32>,
        upto: nat,
    ) -> Result<Model, FatalView>
        decreases upto,
    {
        if upto == 0 {
            Ok(self)
        } else {
            match self.with_calls_at(table, target, caller, address, offsets, (upto - 1) as nat) {
                Err(e) => Err(e),
                Ok(m) => m.with_branch(
                    table,
                    target,
                    caller,
                    spec_call_target(address, offsets[upto - 1]),
                ),
            }
        }
    }

    /// With the first `upto` plain branches of the function of `size` bytes
    /// at `address`: those that stay within the function add nothing, the
    /// others are calls.
    pub open spec fn with_jumps_at(
        self,
        table: SymbolTable,
        target: Target,
        caller: usize,
        address: u64,
        size: u32,
        offsets: Seq<i32>,
        upto: nat,
    ) -> Result<Model, FatalView>
        decreases upto,
    {
        if upto == 0 {
            Ok(self)
        } else {
            match self.with_jumps_at(table, target, caller, address, size, offsets, (upto - 1) as nat) {
                Err(e) => Err(e),
                Ok(m) => {
                    let dest = spec_jump_target(address, offsets[upto - 1]);
                    if spec_inside(address, size, dest) {
                        Ok(m)
                    } else {
                        m.with_branch(table, target, caller, dest)
                    }
                },
            }
        }
    }

    /// With what the decoder found in the machine code of symbol `k`, where
    /// the symbol has a canonical name.
    pub open spec fn with_machine_code(
        self,
        table: SymbolTable,
        target: Target,
        k: int,
        code: MachineCode,
    ) -> Result<Model, FatalView> {
        let address = table.defined@[k].address;
        match table.defined@[k].spec_canonical() {
            None => Ok(self),
            Some(name) => match lookup(self.indices, name) {
                None => Ok(self),
                Some(caller) => {
                    let m1 = self.with_frame(
                        name,
                        caller,
                        Frame { size: code.stack, modifies_sp: code.modifies_sp },
                    );
                    let r2 = if code.indirect && !self.bodies.contains(caller) {
                        m1.with_unknown_callee(name, caller)
                    } else {
                        Ok(m1)
                    };
                    match r2 {
                        Err(e) => Err(e),
                        Ok(m2) => match m2.with_calls_at(
                            table,
                            target,
                            caller,
                            address,
                            code.calls@,
                            code.calls@.len(),
                        ) {
                            Err(e) => Err(e),
                            Ok(m3) => m3.with_jumps_at(
                                table,
                                target,
                                caller,
                                address,
                                code.size,
                                code.jumps@,
                                code.jumps@.len(),
                            ),
                        },
                    }
                },
            },
        }
    }
}

impl Model {
    /// With what the decoder found in the machine code of the first `upto`
    /// symbols, as far as it decoded them.
    pub open spec fn with_machine_codes(
        self,
        table: SymbolTable,
        target: Target,
        codes: Seq<Option<MachineCode>>,
        upto: nat,
    ) -> Result<Model, FatalView>
        decreases upto,
    {
        if upto == 0 {
            Ok(self)
        } else {
            match self.with_machine_codes(table, target, codes, (upto - 1) as nat) {
                Err(e) => Err(e),
                Ok(m) => if upto - 1 < codes.len() && codes[upto - 1] is Some {
                    m.with_machine_code(table, target, upto - 1, codes[upto - 1]->0)
                } else {
                    Ok(m)
                },
            }
        }
    }
}

impl Builder {
    /// Adds what the decoder found in the machine code of the symbols of the
    /// table, `codes[k]` being what it found for symbol `k`.
    pub fn add_machine_codes(
        &mut self,
        table: &SymbolTable,
        target: Target,
        codes: &Vec<Option<MachineCode>>,
    ) -> (r: Result<(), Fatal>)
        requires
            old(self).wf(),
        ensures
            final(self).wf(),
            match r {
                Ok(()) => old(self)@.with_machine_codes(
                    *table,
                    target,
                    codes@,
                    table.defined@.len(),
                ) == Ok::<Model, FatalView>(final(self)@),
                Err(e) => old(self)@.with_machine_codes(
                    *table,
                    target,
                    codes@,
                    table.defined@.len(),
                ) == Err::<Model, FatalView>(e@),
            },
    {
        let mut k: usize = 0;
        while k < table.defined.len()
            invariant
                k <= table.defined@.len(),
                self.wf(),
                old(self)@.with_machine_codes(*table, target, codes@, k as nat) == Ok::<
                    Model,
                    FatalView,
                >(self@),
            decreases table.defined@.len() - k,
        {
            if k < codes.len() {
                match &codes[k] {
                    Some(code) => {
                        match self.add_machine_code(table, target, k, code) {
                            Err(e) => {
                                proof {
                                    lemma_with_machine_codes_fails(
                                        old(self)@,
                                        *table,
                                        target,
                                        codes@,
                                        (k + 1) as nat,
                                        table.defined@.len(),
                                    );
                                }
                                return Err(e);
                            },
                            Ok(()) => {},
                        }
                    },
                    None => {},
                }
            }
            k += 1;
        }
        Ok(())
    }

    /// Reconciles the stack usage of node `caller`, the function `name`,
    /// with the frame that the decoder found.
    pub fn add_frame(&mut self, name: &String, caller: usize, frame: Frame)
        requires
            old(self).wf(),
            caller < old(self)@.nodes.len(),
        ensures
            final(self).wf(),
            final(self)@ == old(self)@.with_frame(name@, caller, frame),
    {
        let reported = self.graph.node(caller).local;
        let assembly = contains_index(&self.inline_asm, caller);
        proof {
            let l = crate::graph::index_list(self.inline_asm@);
            if l.contains(caller as int) {
                let t = choose|t: int| 0 <= t < l.len() && l[t] == caller as int;
                assert(self.inline_asm@[t] == caller);
            }
            if self.inline_asm@.contains(caller) {
                let t = choose|t: int| 0 <= t < self.inline_asm@.len() && self.inline_asm@[t] == caller;
                assert(l[t] == caller as int);
            }
        }
        let rec = reconcile(name.as_str(), assembly, reported, frame);
        let r: u64 = reported.bytes();
        let d: u64 = match frame.size {
            Some(d) => d,
            None => 0,
        };
        self.graph.set_local(caller, rec.local);
        proof {
            assert(self@.nodes =~= old(self)@.with_local(caller as int, rec.local).nodes);
        }
        match rec.replaced {
            Override::Nothing => {},
            Override::InlineAsm => {
                self.note(Diagnostic::InlineAsmOverride { name: name.clone(), reported: r, decoded: d });
            },
            Override::Outlined => {
                self.note(Diagnostic::OutlinedOverride { name: name.clone(), reported: r, decoded: d });
            },
            Override::Mismatch => {
                self.note(Diagnostic::Mismatch { name: name.clone(), reported: r, decoded: d });
            },
        }
        if rec.contradicts_sp {
            self.note(
                Diagnostic::StackPointerMismatch {
                    name: name.clone(),
                    stack: rec.local.bytes(),
                    modifies_sp: frame.modifies_sp,
                },
            );
        }
        match rec.local {
            Local::Unknown => {
                self.note(Diagnostic::NoStackInfo { name: name.clone() });
            },
            Local::Exact(_) => {},
        }
    }

    /// Adds a call from node `caller` to a function of which nothing is known.
    pub fn add_unknown_callee(&mut self, name: &String, caller: usize) -> (r: Result<(), Fatal>)
        requires
            old(self).wf(),
            caller < old(self)@.nodes.len(),
        ensures
            final(self).wf(),
            final(self)@.nodes.len() >= old(self)@.nodes.len(),
            match r {
                Ok(()) => old(self)@.with_unknown_callee(name@, caller) == Ok::<Model, FatalView>(
                    final(self)@,
                ),
                Err(e) => old(self)@.with_unknown_callee(name@, caller) == Err::<Model, FatalView>(e@),
            },
    {
        self.note(Diagnostic::UntypedIndirectCall { name: name.clone() });
        let q = match self.add_node(Node("?".to_owned(), None, false)) {
            Err(e) => {
                return Err(e);
            },
            Ok(q) => q,
        };
        self.add_edge(caller, q)
    }

    /// Adds a branch from node `caller` to the address `dest`.
    pub fn add_branch(&mut self, table: &SymbolTable, target: Target, caller: usize, dest: u64) -> (r:
        Result<(), Fatal>)
        requires
            old(self).wf(),
            caller < old(self)@.nodes.len(),
        ensures
            final(self).wf(),
            final(self)@.nodes == old(self)@.nodes,
            match r {
                Ok(()) => old(self)@.with_branch(*table, target, caller, dest) == Ok::<
                    Model,
                    FatalView,
                >(final(self)@),
                Err(e) => old(self)@.with_branch(*table, target, caller, dest) == Err::<
                    Model,
                    FatalView,
                >(e@),
            },
    {
        let address = clear_tag_bit(target, dest);
        match table.canonical_at(address) {
            None => Err(Fatal::NoSymbolAt { address }),
            Some(name) => match self.node_of(name.as_str()) {
                Some(i) => self.link(caller, i),
                None => Ok(()),
            },
        }
    }

    /// Adds what the decoder found in the machine code of symbol `k` of the
    /// table.
    pub fn add_machine_code(&mut self, table: &SymbolTable, target: Target, k: usize, code: &MachineCode) -> (r:
        Result<(), Fatal>)
        requires
            old(self).wf(),
            k < table.defined@.len(),
        ensures
            final(self).wf(),
            match r {
                Ok(()) => old(self)@.with_machine_code(*table, target, k as int, *code) == Ok::<
                    Model,
                    FatalView,
                >(final(self)@),
                Err(e) => old(self)@.with_machine_code(*table, target, k as int, *code) == Err::<
                    Model,
                    FatalView,
                >(e@),
            },
    {
        let sym = &table.defined[k];
        let address = sym.address;
        let name = match sym.canonical() {
            None => {
                return Ok(());
            },
            Some(name) => name,
        };
        let caller = match self.node_of(name.as_str()) {
            None => {
                return Ok(());
            },
            Some(i) => i,
        };
        let has_body = contains_index(&self.bodies, caller);
        proof {
            let l = crate::graph::index_list(self.bodies@);
            if l.contains(caller as int) {
                let t = choose|t: int| 0 <= t < l.len() && l[t] == caller as int;
                assert(self.bodies@[t] == caller);
            }
            if self.bodies@.contains(caller) {
                let t = choose|t: int| 0 <= t < self.bodies@.len() && self.bodies@[t] == caller;
                assert(l[t] == caller as int);
            }
        }
        self.add_frame(name, caller, Frame { size: code.stack, modifies_sp: code.modifies_sp });
        if code.indirect && !has_body {
            match self.add_unknown_callee(name, caller) {
                Err(e) => {
                    return Err(e);
                },
                Ok(()) => {},
            }
        }
        let ghost m2 = self@;
        let mut i: usize = 0;
        while i < code.calls.len()
            invariant
                i <= code.calls@.len(),
                self.wf(),
                caller < self@.nodes.len(),
                old(self)@.with_machine_code(*table, target, k as int, *code) == (match m2.with_calls_at(
                    *table,
                    target,
                    caller,
                    address,
                    code.calls@,
                    code.calls@.len(),
                ) {
                    Err(e) => Err(e),
                    Ok(m3) => m3.with_jumps_at(
                        *table,
                        target,
                        caller,
                        address,
                        code.size,
                        code.jumps@,
                        code.jumps@.len(),
                    ),
                }),
                m2.with_calls_at(*table, target, caller, address, code.calls@, i as nat) == Ok::<
                    Model,
                    FatalView,
                >(self@),
            decreases code.calls@.len() - i,
        {
            match self.add_branch(table, target, caller, call_target(address, code.calls[i])) {
                Err(e) => {
                    proof {
                        lemma_with_calls_at_fails(
                            m2,
                            *table,
                            target,
                            caller,
                            address,
                            code.calls@,
                            (i + 1) as nat,
                            code.calls@.len(),
                        );
                    }
                    return Err(e);
                },
                Ok(()) => {},
            }
            i += 1;
        }
        let ghost m3 = self@;
        let mut j: usize = 0;
        while j < code.jumps.len()
            invariant
                j <= code.jumps@.len(),
                self.wf(),
                caller < self@.nodes.len(),
                old(self)@.with_machine_code(*table, target, k as int, *code) == m3.with_jumps_at(
                    *table,
                    target,
                    caller,
                    address,
                    code.size,
                    code.jumps@,
                    code.jumps@.len(),
                ),
                m3.with_jumps_at(*table, target, caller, address, code.size, code.jumps@, j as nat)
                    == Ok::<Model, FatalView>(self@),
            decreases code.jumps@.len() - j,
        {
            let dest = jump_target(address, code.jumps[j]);
            if !inside(address, code.size, dest) {
                match self.add_branch(table, target, caller, dest) {
                    Err(e) => {
                        proof {
                            lemma_with_jumps_at_fails(
                                m3,
                                *table,
                                target,
                                caller,
                                address,
                                code.size,
                                code.jumps@,
                                (j + 1) as nat,
                                code.jumps@.len(),
                            );
                        }
                        return Err(e);
                    },
                    Ok(()) => {},
                }
            }
            j += 1;
        }
        Ok(())
    }
}

/// Once the machine code of a symbol is at fault, so is that of the symbols
/// up to any later one.
pub proof fn lemma_with_machine_codes_fails(
    m: Model,
    table: SymbolTable,
    target: Target,
    codes: Seq<Option<MachineCode>>,
    k: nat,
    upto: nat,
)
    requires
        k <= upto,
        m.with_machine_codes(table, target, codes, k) is Err,
    ensures
        m.with_machine_codes(table, target, codes, upto) == m.with_machine_codes(
            table,
            target,
            codes,
            k,
        ),
    decreases upto,
{
    if k < upto {
        lemma_with_machine_codes_fails(m, table, target, codes, k, (upto - 1) as nat);
    }
}

/// Once a branch with link is at fault, so are the branches up to any later one.
pub proof fn lemma_with_calls_at_fails(
    m: Model,
    table: SymbolTable,
    target: Target,
    caller: usize,
    address: u64,
    offsets: Seq<i32>,
    k: nat,
    upto: nat,
)
    requires
        k <= upto,
        m.with_calls_at(table, target, caller, address, offsets, k) is Err,
    ensures
        m.with_calls_at(table, target, caller, address, offsets, upto) == m.with_calls_at(
            table,
            target,
            caller,
            address,
            offsets,
            k,
        ),
    decreases upto,
{
    if k < upto {
        lemma_with_calls_at_fails(m, table, target, caller, address, offsets, k, (upto - 1) as nat);
    }
}

/// Once a plain branch is at fault, so are the branches up to any later one.
pub proof fn lemma_with_jumps_at_fails(
    m: Model,
    table: SymbolTable,
    target: Target,
    caller: usize,
    address: u64,
    size: u32,
    offsets: Seq<i32>,
    k: nat,
    upto: nat,
)
    requires
        k <= upto,
        m.with_jumps_at(table, target, caller, address, size, offsets, k) is Err,
    ensures
        m.with_jumps_at(table, target, caller, address, size, offsets, upto) == m.with_jumps_at(
            table,
            target,
            caller,
            address,
            size,
            offsets,
            k,
        ),
    decreases upto,
{
    if k < upto {
        lemma_with_jumps_at_fails(
            m,
            table,
            target,
            caller,
            address,
            size,
            offsets,
            k,
            (upto - 1) as nat,
        );
    }
}

} // verus!
