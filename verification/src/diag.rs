//! What the analysis reports besides its result: remarks on the input that
//! do not stop it, and the faults that do.

use vstd::prelude::*;

verus! {

/// A remark on the input. The analysis goes on after it.
#[derive(Debug, Clone, PartialEq, Eq)]
pub enum Diagnostic {
    /// Nothing is known of the local stack usage of the function.
    NoStackInfo { name: String },
    /// A symbol is neither defined nor declared in the intermediate
    /// representation, so its signature is not known.
    NoTypeInfo { name: String },
    /// An intrinsic is taken to become machine code without a call.
    AssumedLowered { intrinsic: String },
    /// Compiler and decoder disagree on a function with inline assembly; the
    /// decoder's value is used.
    InlineAsmOverride { name: String, reported: u64, decoded: u64 },
    /// The compiler reported no stack for an outlined helper that uses some;
    /// the decoder's value is used.
    OutlinedOverride { name: String, reported: u64, decoded: u64 },
    /// Compiler and decoder disagree; the decoder's value is used.
    Mismatch { name: String, reported: u64, decoded: u64 },
    /// A function uses stack without touching the stack pointer, or touches
    /// it without using stack.
    StackPointerMismatch { name: String, stack: u64, modifies_sp: bool },
    /// A function without a body in the intermediate representation calls
    /// through a pointer.
    UntypedIndirectCall { name: String },
    /// The program holds symbols of unknown signature, so that calls through
    /// pointers cannot be bounded.
    UntypedSymbols,
    /// No function has the signature of a call through a pointer.
    NoCallees { name: String },
    /// Several functions match the entry point asked for.
    AmbiguousStart { name: String, hits: Vec<String> },
    /// No function matches the entry point asked for; the graph is left whole.
    StartNotFound,
}

/// A fault in the input that ends the analysis.
#[derive(Debug, Clone, PartialEq, Eq)]
pub enum Fatal {
    /// An intrinsic for which there is no rule, on a target whose machine
    /// code cannot be decoded.
    UnhandledIntrinsic { name: String },
    /// A callee that is neither a defined nor an undefined symbol.
    UnknownCallee { name: String },
    /// A branch to an address at which there is no symbol.
    NoSymbolAt { address: u64 },
    /// The graph has as many nodes or edges as its indices can number.
    GraphFull,
    /// The local stack usage of all functions together is more than the
    /// machine's integers hold.
    UsageTooLarge,
}

/// A remark, with the texts of its names.
pub enum DiagnosticView {
    NoStackInfo { name: Seq<char> },
    NoTypeInfo { name: Seq<char> },
    AssumedLowered { intrinsic: Seq<char> },
    InlineAsmOverride { name: Seq<char>, reported: u64, decoded: u64 },
    OutlinedOverride { name: Seq<char>, reported: u64, decoded: u64 },
    Mismatch { name: Seq<char>, reported: u64, decoded: u64 },
    StackPointerMismatch { name: Seq<char>, stack: u64, modifies_sp: bool },
    UntypedIndirectCall { name: Seq<char> },
    UntypedSymbols,
    NoCallees { name: Seq<char> },
    AmbiguousStart { name: Seq<char>, hits: Seq<Seq<char>> },
    StartNotFound,
}

impl View for Diagnostic {
    type V = DiagnosticView;

    open spec fn view(&self) -> DiagnosticView {
        match *self {
            Diagnostic::NoStackInfo { name } => DiagnosticView::NoStackInfo { name: name@ },
            Diagnostic::NoTypeInfo { name } => DiagnosticView::NoTypeInfo { name: name@ },
            Diagnostic::AssumedLowered { intrinsic } => DiagnosticView::AssumedLowered {
                intrinsic: intrinsic@,
            },
            Diagnostic::InlineAsmOverride { name, reported, decoded } => DiagnosticView::InlineAsmOverride {
                name: name@,
                reported,
                decoded,
            },
            Diagnostic::OutlinedOverride { name, reported, decoded } => DiagnosticView::OutlinedOverride {
                name: name@,
                reported,
                decoded,
            },
            Diagnostic::Mismatch { name, reported, decoded } => DiagnosticView::Mismatch {
                name: name@,
                reported,
                decoded,
            },
            Diagnostic::StackPointerMismatch { name, stack, modifies_sp } => DiagnosticView::StackPointerMismatch {
                name: name@,
                stack,
                modifies_sp,
            },
            Diagnostic::UntypedIndirectCall { name } => DiagnosticView::UntypedIndirectCall {
                name: name@,
            },
            Diagnostic::UntypedSymbols => DiagnosticView::UntypedSymbols,
            Diagnostic::NoCallees { name } => DiagnosticView::NoCallees { name: name@ },
            Diagnostic::AmbiguousStart { name, hits } => DiagnosticView::AmbiguousStart {
                name: name@,
                hits: Seq::new(hits@.len(), |i: int| hits@[i]@),
            },
            Diagnostic::StartNotFound => DiagnosticView::StartNotFound,
        }
    }
}

/// The remarks of a list, with the texts of their names.
pub open spec fn diagnostic_views(list: Seq<Diagnostic>) -> Seq<DiagnosticView> {
    Seq::new(list.len(), |i: int| list[i]@)
}

/// A fault, with the text of its name.
pub enum FatalView {
    UnhandledIntrinsic { name: Seq<char> },
    UnknownCallee { name: Seq<char> },
    NoSymbolAt { address: u64 },
    GraphFull,
    UsageTooLarge,
}

impl View for Fatal {
    type V = FatalView;

    open spec fn view(&self) -> FatalView {
        match *self {
            Fatal::UnhandledIntrinsic { name } => FatalView::UnhandledIntrinsic { name: name@ },
            Fatal::UnknownCallee { name } => FatalView::UnknownCallee { name: name@ },
            Fatal::NoSymbolAt { address } => FatalView::NoSymbolAt { address },
            Fatal::GraphFull => FatalView::GraphFull,
            Fatal::UsageTooLarge => FatalView::UsageTooLarge,
        }
    }
}

} // verus!
