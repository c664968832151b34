//! The summary of the compiler's intermediate representation: which
//! functions the program defines and declares, with their signatures, and
//! what each defined function calls.

use vstd::prelude::*;
use crate::names::spec_is_tag;
use crate::names::is_tag;
use crate::symbols::Symbol;
use crate::text::same_text;

verus! {

/// A call statement.
#[derive(Debug)]
pub enum Callee {
    /// A call of the function `name`.
    Direct { name: String },
    /// A call through a pointer to a function of the signature `sig`.
    Indirect { sig: String },
}

/// A function with a body.
#[derive(Debug)]
pub struct Define {
    /// The name of the function.
    pub name: String,
    /// The signature of the function.
    pub sig: String,
    /// The calls in the body, in their order.
    pub callees: Vec<Callee>,
    /// Whether the body holds inline assembly.
    pub inline_asm: bool,
}

/// A function without a body.
#[derive(Debug)]
pub struct Declare {
    /// The name of the function.
    pub name: String,
    /// The signature of the function.
    pub sig: String,
}

/// The summary of the intermediate representation.
#[derive(Debug)]
pub struct Ir {
    /// The functions with a body, in their order.
    pub defines: Vec<Define>,
    /// The functions without a body.
    pub declares: Vec<Declare>,
}

/// The signature of the last of `defines` with the name `name`.
pub open spec fn spec_define_sig(defines: Seq<Define>, name: Seq<char>) -> Option<Seq<char>>
    decreases defines.len(),
{
    if defines.len() == 0 {
        None
    } else if defines.last().name@ == name {
        Some(defines.last().sig@)
    } else {
        spec_define_sig(defines.drop_last(), name)
    }
}

/// The signature of the last of `declares` with the name `name`.
pub open spec fn spec_declare_sig(declares: Seq<Declare>, name: Seq<char>) -> Option<Seq<char>>
    decreases declares.len(),
{
    if declares.len() == 0 {
        None
    } else if declares.last().name@ == name {
        Some(declares.last().sig@)
    } else {
        spec_declare_sig(declares.drop_last(), name)
    }
}

/// The signature with which the first of `names`, from `from` on, that is no
/// tag and is defined, is defined.
pub open spec fn first_defined(defines: Seq<Define>, names: Seq<Seq<char>>, from: int) -> Option<Seq<char>>
    decreases names.len() - from,
{
    if from < 0 || from >= names.len() {
        None
    } else if !spec_is_tag(names[from]) && spec_define_sig(defines, names[from]) is Some {
        spec_define_sig(defines, names[from])
    } else {
        first_defined(defines, names, from + 1)
    }
}

/// The signature with which the first of `names`, from `from` on, that is no
/// tag and is declared, is declared.
pub open spec fn first_declared(
    declares: Seq<Declare>,
    names: Seq<Seq<char>>,
    from: int,
) -> Option<Seq<char>>
    decreases names.len() - from,
{
    if from < 0 || from >= names.len() {
        None
    } else if !spec_is_tag(names[from]) && spec_declare_sig(declares, names[from]) is Some {
        spec_declare_sig(declares, names[from])
    } else {
        first_declared(declares, names, from + 1)
    }
}

impl Ir {
    /// The signature of a symbol with the names `names`: that of the first
    /// name with a body, else that of the first name that is declared.
    pub open spec fn spec_symbol_sig(&self, names: Seq<Seq<char>>) -> Option<Seq<char>> {
        match first_defined(self.defines@, names, 0) {
            Some(sig) => Some(sig),
            None => first_declared(self.declares@, names, 0),
        }
    }

    /// The signature with which `name` is defined.
    pub fn define_sig(&self, name: &str) -> (r: Option<&String>)
        ensures
            match r {
                Some(sig) => spec_define_sig(self.defines@, name@) == Some(sig@),
                None => spec_define_sig(self.defines@, name@) is None,
            },
    {
        let mut i: usize = self.defines.len();
        proof {
            assert(self.defines@.take(i as int) =~= self.defines@);
        }
        while i > 0
            invariant
                i <= self.defines.len(),
                spec_define_sig(self.defines@, name@) == spec_define_sig(
                    self.defines@.take(i as int),
                    name@,
                ),
            decreases i,
        {
            i -= 1;
            proof {
                assert(self.defines@.take(i + 1).drop_last() =~= self.defines@.take(i as int));
                assert(self.defines@.take(i + 1).last() == self.defines@[i as int]);
            }
            if same_text(self.defines[i].name.as_str(), name) {
                return Some(&self.defines[i].sig);
            }
        }
        None
    }

    /// The signature with which `name` is declared.
    pub fn declare_sig(&self, name: &str) -> (r: Option<&String>)
        ensures
            match r {
                Some(sig) => spec_declare_sig(self.declares@, name@) == Some(sig@),
                None => spec_declare_sig(self.declares@, name@) is None,
            },
    {
        let mut i: usize = self.declares.len();
        proof {
            assert(self.declares@.take(i as int) =~= self.declares@);
        }
        while i > 0
            invariant
                i <= self.declares.len(),
                spec_declare_sig(self.declares@, name@) == spec_declare_sig(
                    self.declares@.take(i as int),
                    name@,
                ),
            decreases i,
        {
            i -= 1;
            proof {
                assert(self.declares@.take(i + 1).drop_last() =~= self.declares@.take(i as int));
                assert(self.declares@.take(i + 1).last() == self.declares@[i as int]);
            }
            if same_text(self.declares[i].name.as_str(), name) {
                return Some(&self.declares[i].sig);
            }
        }
        None
    }

    /// The signature of a symbol.
    pub fn symbol_sig(&self, sym: &Symbol) -> (r: Option<&String>)
        ensures
            match r {
                Some(sig) => self.spec_symbol_sig(sym.names_view()) == Some(sig@),
                None => self.spec_symbol_sig(sym.names_view()) is None,
            },
    {
        let mut i: usize = 0;
        while i < sym.names.len()
            invariant
                i <= sym.names.len(),
                first_defined(self.defines@, sym.names_view(), 0) == first_defined(
                    self.defines@,
                    sym.names_view(),
                    i as int,
                ),
            decreases sym.names.len() - i,
        {
            if !is_tag(sym.names[i].as_str()) {
                match self.define_sig(sym.names[i].as_str()) {
                    Some(sig) => {
                        return Some(sig);
                    },
                    None => {},
                }
            }
            i += 1;
        }
        let mut j: usize = 0;
        while j < sym.names.len()
            invariant
                j <= sym.names.len(),
                first_defined(self.defines@, sym.names_view(), 0) is None,
                first_declared(self.declares@, sym.names_view(), 0) == first_declared(
                    self.declares@,
                    sym.names_view(),
                    j as int,
                ),
            decreases sym.names.len() - j,
        {
            if !is_tag(sym.names[j].as_str()) {
                match self.declare_sig(sym.names[j].as_str()) {
                    Some(sig) => {
                        return Some(sig);
                    },
                    None => {},
                }
            }
            j += 1;
        }
        None
    }
}

} // verus!
