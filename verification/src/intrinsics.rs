//! What a direct call in the intermediate representation stands for, by the
//! name of its target.

use vstd::prelude::*;
use crate::text::{chars_of, has_prefix, matches_at, same_text, starts_with};

verus! {

/// What to do with a direct call, by the name of its target.
#[derive(Clone, Copy, Debug, PartialEq, Eq, Structural)]
pub enum Policy {
    /// A marker for debuggers or optimisers: no call.
    Marker,
    /// Copies memory: calls whichever copy routines the program holds.
    Memcpy,
    /// Fills or moves memory: calls whichever fill routines the program holds.
    Memset,
    /// Arithmetic that becomes machine code without a call; worth a remark.
    Lowered,
    /// Another intrinsic, on a target whose machine code is decoded: the
    /// decoder finds the call, if there is one.
    Deferred,
    /// Another intrinsic, on a target without a decoder: a fault.
    Unhandled,
    /// The name of a function.
    Plain,
}

/// The prefixes of the intrinsics that are taken to become machine code
/// without a call.
pub open spec fn spec_lowered_prefixes() -> Seq<Seq<char>> {
    seq![
        "llvm.abs."@,
        "llvm.bswap."@,
        "llvm.ctlz."@,
        "llvm.cttz."@,
        "llvm.sadd.with.overflow."@,
        "llvm.smul.with.overflow."@,
        "llvm.ssub.with.overflow."@,
        "llvm.uadd.sat."@,
        "llvm.uadd.with.overflow."@,
        "llvm.umax."@,
        "llvm.umin."@,
        "llvm.umul.with.overflow."@,
        "llvm.usub.sat."@,
        "llvm.usub.with.overflow."@,
        "llvm.vector.reduce."@,
        "llvm.x86.sse2.pmovmskb."@,
    ]
}

/// The prefixes of the intrinsics that are taken to become machine code
/// without a call.
pub fn lowered_prefixes() -> (r: Vec<&'static str>)
    ensures
        r@.len() == spec_lowered_prefixes().len(),
        forall|i: int| 0 <= i < r@.len() ==> (#[trigger] r@[i])@ == spec_lowered_prefixes()[i],
{
    vec![
        "llvm.abs.",
        "llvm.bswap.",
        "llvm.ctlz.",
        "llvm.cttz.",
        "llvm.sadd.with.overflow.",
        "llvm.smul.with.overflow.",
        "llvm.ssub.with.overflow.",
        "llvm.uadd.sat.",
        "llvm.uadd.with.overflow.",
        "llvm.umax.",
        "llvm.umin.",
        "llvm.umul.with.overflow.",
        "llvm.usub.sat.",
        "llvm.usub.with.overflow.",
        "llvm.vector.reduce.",
        "llvm.x86.sse2.pmovmskb.",
    ]
}

/// Whether `func` is a marker that stands for no code.
pub open spec fn is_marker(func: Seq<char>) -> bool {
    ||| func == "llvm.dbg.value"@
    ||| func == "llvm.dbg.declare"@
    ||| func == "llvm.assume"@
    ||| func == "llvm.trap"@
    ||| func == "llvm.experimental.noalias.scope.decl"@
    ||| has_prefix(func, "llvm.lifetime.start"@)
    ||| has_prefix(func, "llvm.lifetime.end"@)
}

/// Whether `func` is an intrinsic that is taken to become machine code
/// without a call.
pub open spec fn is_lowered(func: Seq<char>) -> bool {
    ||| func == "llvm.x86.sse2.pause"@
    ||| exists|i: int|
        0 <= i < spec_lowered_prefixes().len() && has_prefix(func, #[trigger] spec_lowered_prefixes()[i])
}

/// What to do with a direct call to `func`, on a target with or without a
/// decoder for its machine code.
pub open spec fn spec_classify(func: Seq<char>, decoder: bool) -> Policy {
    if is_marker(func) {
        Policy::Marker
    } else if has_prefix(func, "llvm.memcpy."@) {
        Policy::Memcpy
    } else if has_prefix(func, "llvm.memset."@) || has_prefix(func, "llvm.memmove."@) {
        Policy::Memset
    } else if is_lowered(func) {
        Policy::Lowered
    } else if has_prefix(func, "llvm."@) {
        if decoder {
            Policy::Deferred
        } else {
            Policy::Unhandled
        }
    } else {
        Policy::Plain
    }
}

fn lowered(func: &str) -> (r: bool)
    ensures
        r == is_lowered(func@),
{
    if same_text(func, "llvm.x86.sse2.pause") {
        return true;
    }
    let chars = chars_of(func);
    let prefixes = lowered_prefixes();
    let mut i: usize = 0;
    while i < prefixes.len()
        invariant
            i <= prefixes.len(),
            chars@ == func@,
            prefixes@.len() == spec_lowered_prefixes().len(),
            forall|j: int| 0 <= j < prefixes@.len() ==> (#[trigger] prefixes@[j])@ == spec_lowered_prefixes()[j],
            forall|j: int| 0 <= j < i ==> !has_prefix(func@, #[trigger] spec_lowered_prefixes()[j]),
        decreases prefixes.len() - i,
    {
        let prefix = chars_of(prefixes[i]);
        if matches_at(&chars, &prefix, 0) {
            return true;
        }
        i += 1;
    }
    false
}

/// Decides what to do with a direct call to `func`.
pub fn classify(func: &str, decoder: bool) -> (r: Policy)
    ensures
        r == spec_classify(func@, decoder),
{
    if same_text(func, "llvm.dbg.value") || same_text(func, "llvm.dbg.declare") || same_text(
        func,
        "llvm.assume",
    ) || same_text(func, "llvm.trap") || same_text(func, "llvm.experimental.noalias.scope.decl")
        || starts_with(func, "llvm.lifetime.start") || starts_with(func, "llvm.lifetime.end") {
        Policy::Marker
    } else if starts_with(func, "llvm.memcpy.") {
        Policy::Memcpy
    } else if starts_with(func, "llvm.memset.") || starts_with(func, "llvm.memmove.") {
        Policy::Memset
    } else if lowered(func) {
        Policy::Lowered
    } else if starts_with(func, "llvm.") {
        if decoder {
            Policy::Deferred
        } else {
            Policy::Unhandled
        }
    } else {
        Policy::Plain
    }
}

/// The routines that a copy of memory may call, in the order in which they
/// are looked for.
pub open spec fn spec_memcpy_names() -> Seq<Seq<char>> {
    seq!["memcpy"@, "__aeabi_memcpy"@, "__aeabi_memcpy4"@]
}

/// The routines that a fill or move of memory may call, in the order in
/// which they are looked for.
pub open spec fn spec_memset_names() -> Seq<Seq<char>> {
    seq![
        "memset"@,
        "__aeabi_memset"@,
        "__aeabi_memset4"@,
        "memclr"@,
        "__aeabi_memclr"@,
        "__aeabi_memclr4"@,
    ]
}

/// The routines that a copy of memory may call.
pub fn memcpy_names() -> (r: Vec<&'static str>)
    ensures
        r@.len() == spec_memcpy_names().len(),
        forall|i: int| 0 <= i < r@.len() ==> (#[trigger] r@[i])@ == spec_memcpy_names()[i],
{
    vec!["memcpy", "__aeabi_memcpy", "__aeabi_memcpy4"]
}

/// The routines that a fill or move of memory may call.
pub fn memset_names() -> (r: Vec<&'static str>)
    ensures
        r@.len() == spec_memset_names().len(),
        forall|i: int| 0 <= i < r@.len() ==> (#[trigger] r@[i])@ == spec_memset_names()[i],
{
    vec!["memset", "__aeabi_memset", "__aeabi_memset4", "memclr", "__aeabi_memclr", "__aeabi_memclr4"]
}

/// Whether `func` is an intrinsic that may be there without a symbol, in
/// which case it became machine code.
pub open spec fn spec_is_symbolless(func: Seq<char>) -> bool {
    func == "memcmp"@
}

/// Tests whether `func` is an intrinsic that may be there without a symbol.
pub fn is_symbolless(func: &str) -> (r: bool)
    ensures
        r == spec_is_symbolless(func@),
{
    same_text(func, "memcmp")
}

} // verus!
