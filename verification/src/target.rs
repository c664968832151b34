//! The targets whose machine code can be decoded.

use vstd::prelude::*;
use crate::text::same_text;

verus! {

/// The architecture the program was compiled for.
#[derive(Clone, Copy, Debug, PartialEq, Eq, Structural)]
pub enum Target {
    /// An architecture without a machine-code decoder.
    Other,
    /// ARMv6-M, Thumb instructions.
    Thumbv6m,
    /// ARMv7-M and ARMv7E-M, Thumb-2 instructions.
    Thumbv7m,
}

impl Target {
    /// Whether code addresses carry the Thumb bit and machine code can be decoded.
    pub open spec fn spec_is_thumb(&self) -> bool {
        *self is Thumbv6m || *self is Thumbv7m
    }

    /// Whether code addresses carry the Thumb bit and machine code can be decoded.
    #[verifier::when_used_as_spec(spec_is_thumb)]
    pub fn is_thumb(&self) -> (r: bool)
        ensures
            r == self.spec_is_thumb(),
    {
        match *self {
            Target::Thumbv6m | Target::Thumbv7m => true,
            Target::Other => false,
        }
    }

    /// The target that a target triple names.
    pub open spec fn spec_from_triple(triple: Seq<char>) -> Target {
        if triple == "thumbv6m-none-eabi"@ {
            Target::Thumbv6m
        } else if triple == "thumbv7m-none-eabi"@ || triple == "thumbv7em-none-eabi"@ || triple
            == "thumbv7em-none-eabihf"@ {
            Target::Thumbv7m
        } else {
            Target::Other
        }
    }

    /// The target that a target triple names.
    pub fn from_triple(triple: &str) -> (target: Target)
        ensures
            target == Target::spec_from_triple(triple@),
    {
        if same_text(triple, "thumbv6m-none-eabi") {
            Target::Thumbv6m
        } else if same_text(triple, "thumbv7m-none-eabi") || same_text(
            triple,
            "thumbv7em-none-eabi",
        ) || same_text(triple, "thumbv7em-none-eabihf") {
            Target::Thumbv7m
        } else {
            Target::Other
        }
    }
}

} // verus!
