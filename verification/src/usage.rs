//! Local stack usage, transitive bounds, and their arithmetic.

use vstd::prelude::*;
use vstd::std_specs::convert::FromSpecImpl;
use vstd::std_specs::ops::AddSpecImpl;

verus! {

/// Stack bytes a function uses in its own frame.
#[derive(Clone, Copy, Debug, PartialEq, Eq, Structural)]
pub enum Local {
    /// Known with certainty.
    Exact(u64),
    /// No information available.
    Unknown,
}

/// Worst-case stack bytes of a function and everything it may call.
#[derive(Clone, Copy, Debug, PartialEq, Eq, Structural)]
pub enum Max {
    /// Tight worst case.
    Exact(u64),
    /// At least this many bytes; more may be consumed.
    LowerBound(u64),
}

impl Local {
    /// The number of bytes this usage contributes to a bound: an unknown
    /// usage contributes nothing.
    pub open spec fn value(self) -> nat {
        match self {
            Local::Exact(n) => n as nat,
            Local::Unknown => 0,
        }
    }

    /// Whether the usage is known.
    pub open spec fn is_exact(self) -> bool {
        self is Exact
    }

    /// The bound that a function with this usage and no callee has.
    pub open spec fn as_max(self) -> Max {
        match self {
            Local::Exact(n) => Max::Exact(n),
            Local::Unknown => Max::LowerBound(0),
        }
    }

    /// The usage that an optional byte count stands for.
    pub open spec fn from_option_spec(stack: Option<u64>) -> Local {
        match stack {
            Some(n) => Local::Exact(n),
            None => Local::Unknown,
        }
    }

    /// Builds a usage from an optional byte count.
    pub fn from_option(stack: Option<u64>) -> (local: Local)
        ensures
            local == Local::from_option_spec(stack),
    {
        match stack {
            Some(n) => Local::Exact(n),
            None => Local::Unknown,
        }
    }

    /// The byte count used where a plain number is wanted: 0 when unknown.
    pub fn bytes(self) -> (n: u64)
        ensures
            n == self.value(),
    {
        match self {
            Local::Exact(n) => n,
            Local::Unknown => 0,
        }
    }
}

impl Max {
    /// The number carried by the bound.
    pub open spec fn value(self) -> nat {
        match self {
            Max::Exact(n) => n as nat,
            Max::LowerBound(n) => n as nat,
        }
    }

    /// Whether the bound is tight.
    pub open spec fn is_exact(self) -> bool {
        self is Exact
    }

    /// The bound with the given number and tightness.
    pub open spec fn make(exact: bool, n: nat) -> Max {
        if exact {
            Max::Exact(n as u64)
        } else {
            Max::LowerBound(n as u64)
        }
    }

    /// The number carried by the bound.
    pub fn bytes(self) -> (n: u64)
        ensures
            n == self.value(),
    {
        match self {
            Max::Exact(n) => n,
            Max::LowerBound(n) => n,
        }
    }

    /// Turns a nonzero exact bound into a lower bound, as is done for the
    /// members of a cycle, whose depth of recursion is not known.
    pub fn promoted(self) -> (r: Max)
        ensures
            r == spec_promoted(self),
    {
        match self {
            Max::Exact(n) => if n != 0 {
                Max::LowerBound(n)
            } else {
                Max::Exact(n)
            },
            Max::LowerBound(n) => Max::LowerBound(n),
        }
    }
}

/// A bound that stays exact only when it is zero.
pub open spec fn spec_promoted(m: Max) -> Max {
    Max::make(m.is_exact() && m.value() == 0, m.value())
}

impl From<Local> for Max {
    fn from(local: Local) -> (max: Max) {
        match local {
            Local::Exact(n) => Max::Exact(n),
            Local::Unknown => Max::LowerBound(0),
        }
    }
}

impl FromSpecImpl<Local> for Max {
    open spec fn obeys_from_spec() -> bool {
        true
    }

    open spec fn from_spec(local: Local) -> Max {
        local.as_max()
    }
}

/// Sum of a bound and a local usage: exact only when both are.
pub open spec fn spec_add_local(lhs: Max, rhs: Local) -> Max {
    Max::make(lhs.is_exact() && rhs.is_exact(), lhs.value() + rhs.value())
}

/// Sum of two bounds: exact only when both are.
pub open spec fn spec_add_max(lhs: Max, rhs: Max) -> Max {
    Max::make(lhs.is_exact() && rhs.is_exact(), lhs.value() + rhs.value())
}

/// The larger of two bounds: exact only when both are.
pub open spec fn spec_max(lhs: Max, rhs: Max) -> Max {
    Max::make(
        lhs.is_exact() && rhs.is_exact(),
        if lhs.value() >= rhs.value() {
            lhs.value()
        } else {
            rhs.value()
        },
    )
}

impl core::ops::Add<Local> for Max {
    type Output = Max;

    fn add(self, rhs: Local) -> (sum: Max) {
        match (self, rhs) {
            (Max::Exact(lhs), Local::Exact(rhs)) => Max::Exact(lhs + rhs),
            (Max::Exact(lhs), Local::Unknown) => Max::LowerBound(lhs),
            (Max::LowerBound(lhs), Local::Exact(rhs)) => Max::LowerBound(lhs + rhs),
            (Max::LowerBound(lhs), Local::Unknown) => Max::LowerBound(lhs),
        }
    }
}

impl AddSpecImpl<Local> for Max {
    open spec fn obeys_add_spec() -> bool {
        true
    }

    open spec fn add_req(self, rhs: Local) -> bool {
        self.value() + rhs.value() <= u64::MAX
    }

    open spec fn add_spec(self, rhs: Local) -> Max {
        spec_add_local(self, rhs)
    }
}

impl core::ops::Add<Max> for Max {
    type Output = Max;

    fn add(self, rhs: Max) -> (sum: Max) {
        match (self, rhs) {
            (Max::Exact(lhs), Max::Exact(rhs)) => Max::Exact(lhs + rhs),
            (Max::Exact(lhs), Max::LowerBound(rhs)) => Max::LowerBound(lhs + rhs),
            (Max::LowerBound(lhs), Max::Exact(rhs)) => Max::LowerBound(lhs + rhs),
            (Max::LowerBound(lhs), Max::LowerBound(rhs)) => Max::LowerBound(lhs + rhs),
        }
    }
}

impl AddSpecImpl<Max> for Max {
    open spec fn obeys_add_spec() -> bool {
        true
    }

    open spec fn add_req(self, rhs: Max) -> bool {
        self.value() + rhs.value() <= u64::MAX
    }

    open spec fn add_spec(self, rhs: Max) -> Max {
        spec_add_max(self, rhs)
    }
}

/// The larger of two bounds. The result is exact only when both operands are.
pub fn max(lhs: Max, rhs: Max) -> (r: Max)
    ensures
        r == spec_max(lhs, rhs),
{
    let l: u64 = lhs.bytes();
    let r: u64 = rhs.bytes();
    let n: u64 = if l >= r {
        l
    } else {
        r
    };
    match (lhs, rhs) {
        (Max::Exact(_), Max::Exact(_)) => Max::Exact(n),
        _ => Max::LowerBound(n),
    }
}

/// The maximum of a sequence of bounds, folded from the left; nothing for an
/// empty sequence.
pub open spec fn spec_max_of(items: Seq<Max>) -> Option<Max>
    decreases items.len(),
{
    if items.len() == 0 {
        None
    } else {
        match spec_max_of(items.drop_last()) {
            None => Some(items.last()),
            Some(m) => Some(spec_max(m, items.last())),
        }
    }
}

/// The maximum of the given bounds, or nothing when there are none.
pub fn max_of(items: &Vec<Max>) -> (r: Option<Max>)
    ensures
        r == spec_max_of(items@),
{
    let mut acc: Option<Max> = None;
    let mut i: usize = 0;
    while i < items.len()
        invariant
            i <= items.len(),
            acc == spec_max_of(items@.take(i as int)),
        decreases items.len() - i,
    {
        proof {
            assert(items@.take(i + 1).drop_last() =~= items@.take(i as int));
        }
        acc = match acc {
            None => Some(items[i]),
            Some(m) => Some(max(m, items[i])),
        };
        i += 1;
    }
    proof {
        assert(items@.take(i as int) =~= items@);
    }
    acc
}

/// What the maximum of a sequence of bounds is, without reference to the
/// order of folding: it is exact exactly when every item is, and its number
/// is the largest of the items' numbers, carried by one of them.
pub proof fn lemma_max_of(items: Seq<Max>)
    ensures
        spec_max_of(items) is None <==> items.len() == 0,
        items.len() > 0 ==> {
            let m = spec_max_of(items)->Some_0;
            &&& m.is_exact() <==> forall|i: int| 0 <= i < items.len() ==> items[i].is_exact()
            &&& forall|i: int| 0 <= i < items.len() ==> items[i].value() <= m.value()
            &&& exists|i: int| 0 <= i < items.len() && items[i].value() == m.value()
        },
    decreases items.len(),
{
    if items.len() > 0 {
        let init = items.drop_last();
        lemma_max_of(init);
        let m = spec_max_of(items)->Some_0;
        if init.len() == 0 {
            assert(items[0].value() == m.value());
        } else {
            let p = spec_max_of(init)->Some_0;
            let w = choose|i: int| 0 <= i < init.len() && init[i].value() == p.value();
            assert(init[w] == items[w]);
            if p.value() >= items.last().value() {
                assert(items[w].value() == m.value());
            } else {
                assert(items[items.len() - 1].value() == m.value());
            }
            assert forall|i: int| 0 <= i < items.len() implies items[i].value() <= m.value() by {
                if i < init.len() {
                    assert(init[i] == items[i]);
                }
            }
            if m.is_exact() {
                assert forall|i: int| 0 <= i < items.len() implies items[i].is_exact() by {
                    if i < init.len() {
                        assert(init[i] == items[i]);
                    }
                }
            } else {
                if !items.last().is_exact() {
                    assert(!items[items.len() - 1].is_exact());
                } else {
                    let k = choose|i: int| 0 <= i < init.len() && !init[i].is_exact();
                    assert(init[k] == items[k]);
                }
            }
        }
    }
}

} // verus!
