//! Reconciling the stack usage that the compiler reports for a function with
//! what the decoder found in its machine code.

use vstd::prelude::*;
use crate::names::{is_outlined_function, spec_is_outlined_function};
use crate::usage::Local;

verus! {

/// Why the decoder's frame size replaced the compiler's.
#[derive(Clone, Copy, Debug, PartialEq, Eq, Structural)]
pub enum Override {
    /// The two agree, or one of them is missing.
    Nothing,
    /// The function contains inline assembly, which the compiler does not count.
    InlineAsm,
    /// The function is an outlined helper, for which the compiler reports 0.
    Outlined,
    /// The two should agree and do not.
    Mismatch,
}

/// What the decoder found in the machine code of one function.
#[derive(Clone, Copy, Debug, PartialEq, Eq, Structural)]
pub struct Frame {
    /// The frame size, where the decoder could compute it.
    pub size: Option<u64>,
    /// Whether the function changes the stack pointer.
    pub modifies_sp: bool,
}

/// The outcome of reconciling the two sources.
#[derive(Clone, Copy, Debug, PartialEq, Eq, Structural)]
pub struct Reconciled {
    /// The local stack usage to go on with.
    pub local: Local,
    /// Whether and why the decoder's value replaced the compiler's.
    pub replaced: Override,
    /// Whether the usage contradicts what the function does to the stack
    /// pointer: a usage other than 0 without change, or a change with usage 0.
    pub contradicts_sp: bool,
}

/// The stack usage to go on with: the decoder's frame size where there is
/// one, else the compiler's, else 0 for a function that leaves the stack
/// pointer alone, else unknown.
pub open spec fn chosen_local(reported: Local, frame: Frame) -> Local {
    match (frame.size, reported) {
        (Some(decoded), _) => Local::Exact(decoded),
        (None, Local::Exact(n)) => Local::Exact(n),
        (None, Local::Unknown) => if frame.modifies_sp {
            Local::Unknown
        } else {
            Local::Exact(0)
        },
    }
}

/// Why the decoder's frame size replaced the compiler's, if it did.
pub open spec fn chosen_override(name: Seq<char>, inline_asm: bool, reported: Local, frame: Frame) -> Override {
    match (reported, frame.size) {
        (Local::Exact(n), Some(decoded)) => if n == decoded {
            Override::Nothing
        } else if inline_asm {
            Override::InlineAsm
        } else if spec_is_outlined_function(name) && n == 0 {
            Override::Outlined
        } else {
            Override::Mismatch
        },
        _ => Override::Nothing,
    }
}

/// The outcome of reconciling the compiler's report with the decoder's.
pub open spec fn spec_reconcile(name: Seq<char>, inline_asm: bool, reported: Local, frame: Frame) -> Reconciled {
    let local = chosen_local(reported, frame);
    Reconciled {
        local,
        replaced: chosen_override(name, inline_asm, reported, frame),
        contradicts_sp: match local {
            Local::Exact(n) => (n != 0) != frame.modifies_sp,
            Local::Unknown => false,
        },
    }
}

/// Reconciles the stack usage that the compiler reported for the function
/// `name` with what the decoder found.
pub fn reconcile(name: &str, inline_asm: bool, reported: Local, frame: Frame) -> (r: Reconciled)
    ensures
        r == spec_reconcile(name@, inline_asm, reported, frame),
{
    let local = match (frame.size, reported) {
        (Some(decoded), _) => Local::Exact(decoded),
        (None, Local::Exact(n)) => Local::Exact(n),
        (None, Local::Unknown) => if frame.modifies_sp {
            Local::Unknown
        } else {
            Local::Exact(0)
        },
    };
    let replaced = match (reported, frame.size) {
        (Local::Exact(n), Some(decoded)) => if n == decoded {
            Override::Nothing
        } else if inline_asm {
            Override::InlineAsm
        } else if n == 0 && is_outlined_function(name) {
            Override::Outlined
        } else {
            Override::Mismatch
        },
        _ => Override::Nothing,
    };
    let contradicts_sp = match local {
        Local::Exact(n) => (n != 0) != frame.modifies_sp,
        Local::Unknown => false,
    };
    Reconciled { local, replaced, contradicts_sp }
}

/// Where the decoder computed a frame size, that size is the result, whatever
/// the compiler reported.
pub proof fn lemma_decoder_wins(name: Seq<char>, inline_asm: bool, reported: Local, frame: Frame)
    requires
        frame.size is Some,
    ensures
        spec_reconcile(name, inline_asm, reported, frame).local == Local::Exact(frame.size->0),
{
}

} // verus!
