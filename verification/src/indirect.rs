//! Calls through pointers: for each signature that is called, a node that
//! stands for the call site, between the callers and the functions of that
//! signature.

use vstd::prelude::*;
use crate::builder::Builder;
use crate::diag::{Diagnostic, DiagnosticView, Fatal, FatalView};
use crate::graph::{Node, NodeView};
use crate::model::Model;
use crate::text::with_char;
use crate::usage::Local;

verus! {

impl Model {
    /// Whether some function has the signature at position `r`.
    pub open spec fn has_callee(self, r: int) -> bool {
        exists|i: int| 0 <= i < self.callees.len() && (#[trigger] self.callees[i]).0 == r
    }

    /// With edges to node `site` from those of the first `upto` recorded
    /// callers that call through the signature at position `r`.
    pub open spec fn with_site_callers(self, r: int, site: usize, upto: nat) -> Result<Model, FatalView>
        decreases upto,
    {
        if upto == 0 {
            Ok(self)
        } else {
            match self.with_site_callers(r, site, (upto - 1) as nat) {
                Err(e) => Err(e),
                Ok(m) => if self.callers[upto - 1].0 == r {
                    m.add_edge(self.callers[upto - 1].1, site as int)
                } else {
                    Ok(m)
                },
            }
        }
    }

    /// With edges from node `site` to those of the first `upto` recorded
    /// functions that have the signature at position `r`.
    pub open spec fn with_site_callees(self, r: int, site: usize, upto: nat) -> Result<Model, FatalView>
        decreases upto,
    {
        if upto == 0 {
            Ok(self)
        } else {
            match self.with_site_callees(r, site, (upto - 1) as nat) {
                Err(e) => Err(e),
                Ok(m) => if self.callees[upto - 1].0 == r {
                    m.add_edge(site as int, self.callees[upto - 1].1)
                } else {
                    Ok(m)
                },
            }
        }
    }

    /// With a node `?` for the untyped functions that a call through a
    /// pointer may reach, and an edge from node `site` to it.
    pub open spec fn with_sentinel(self, site: usize) -> Result<Model, FatalView> {
        match self.add_node(NodeView { name: "?"@, local: Local::Unknown, max: None, dashed: false }) {
            Err(e) => Err(e),
            Ok(m) => m.add_edge(site as int, self.nodes.len() as int),
        }
    }

    /// With the call site of the signature at position `r`, where a call
    /// goes through it: a dashed node named after the signature, with `*`
    /// behind, that uses no stack; an edge to it from each caller; an edge
    /// from it to each function of the signature; and, where the program
    /// holds untyped symbols, an edge from it to a new node `?`.
    pub open spec fn with_call_site(self, r: int) -> Result<Model, FatalView> {
        if !self.sigs[r].1 {
            Ok(self)
        } else {
            let name = self.sigs[r].0.push('*');
            let site = self.nodes.len() as usize;
            match self.add_node(NodeView { name, local: Local::Exact(0), max: None, dashed: true }) {
                Err(e) => Err(e),
                Ok(m1) => match m1.with_site_callers(r, site, self.callers.len()) {
                    Err(e) => Err(e),
                    Ok(m2) => {
                        let r3 = if self.untyped {
                            m2.with_sentinel(site)
                        } else if !self.has_callee(r) {
                            Ok(m2.note(DiagnosticView::NoCallees { name }))
                        } else {
                            Ok(m2)
                        };
                        match r3 {
                            Err(e) => Err(e),
                            Ok(m3) => m3.with_site_callees(r, site, self.callees.len()),
                        }
                    },
                },
            }
        }
    }

    /// With the call sites of the first `upto` signatures.
    pub open spec fn with_call_sites(self, upto: nat) -> Result<Model, FatalView>
        decreases upto,
    {
        if upto == 0 {
            Ok(self)
        } else {
            match self.with_call_sites((upto - 1) as nat) {
                Err(e) => Err(e),
                Ok(m) => m.with_call_site(upto - 1),
            }
        }
    }

    /// With the call sites of all signatures, after a remark where the
    /// program holds untyped symbols.
    pub open spec fn resolved(self) -> Result<Model, FatalView> {
        if self.untyped {
            self.note(DiagnosticView::UntypedSymbols).with_call_sites(self.sigs.len())
        } else {
            self.with_call_sites(self.sigs.len())
        }
    }
}

impl Builder {
    /// Tests whether some function has the signature at position `r`.
    pub fn has_callee(&self, r: usize) -> (b: bool)
        ensures
            b == self@.has_callee(r as int),
    {
        let mut i: usize = 0;
        while i < self.callees.len()
            invariant
                i <= self.callees@.len(),
                forall|j: int| 0 <= j < i ==> (#[trigger] self.callees@[j]).0 != r,
            decreases self.callees@.len() - i,
        {
            if self.callees[i].0 == r {
                proof {
                    assert(self@.callees[i as int].0 == r as int);
                }
                return true;
            }
            i += 1;
        }
        proof {
            assert forall|j: int| 0 <= j < self@.callees.len() implies (#[trigger] self@.callees[j]).0
                != r as int by {
                assert(self.callees@[j].0 != r);
            }
        }
        false
    }

    /// Adds the node `?` behind the call site `site`.
    pub fn add_sentinel(&mut self, site: usize) -> (r: Result<(), Fatal>)
        requires
            old(self).wf(),
            site < old(self)@.nodes.len(),
        ensures
            final(self).wf(),
            final(self)@.nodes.len() >= old(self)@.nodes.len(),
            final(self)@.sigs == old(self)@.sigs,
            final(self)@.callers == old(self)@.callers,
            final(self)@.callees == old(self)@.callees,
            match r {
                Ok(()) => old(self)@.with_sentinel(site) == Ok::<Model, FatalView>(final(self)@),
                Err(e) => old(self)@.with_sentinel(site) == Err::<Model, FatalView>(e@),
            },
    {
        let q = match self.add_node(Node("?".to_owned(), None, false)) {
            Err(e) => {
                return Err(e);
            },
            Ok(q) => q,
        };
        self.add_edge(site, q)
    }

    /// Adds the call site of the signature at position `r`, where a call
    /// goes through it.
    pub fn add_call_site(&mut self, r: usize) -> (res: Result<(), Fatal>)
        requires
            old(self).wf(),
            r < old(self)@.sigs.len(),
        ensures
            final(self).wf(),
            final(self)@.sigs == old(self)@.sigs,
            match res {
                Ok(()) => old(self)@.with_call_site(r as int) == Ok::<Model, FatalView>(final(self)@),
                Err(e) => old(self)@.with_call_site(r as int) == Err::<Model, FatalView>(e@),
            },
    {
        if !*self.sigs.value_at(r) {
            return Ok(());
        }
        let name = with_char(self.sigs.key_at(r).as_str(), '*');
        let ghost start = self@;
        let node = Node(name.clone(), Some(0), true);
        let site = match self.add_node(node) {
            Err(e) => {
                return Err(e);
            },
            Ok(i) => i,
        };
        let ghost m1 = self@;
        let mut i: usize = 0;
        while i < self.callers.len()
            invariant
                i <= self.callers@.len(),
                self.wf(),
                site < self@.nodes.len(),
                r < self@.sigs.len(),
                self@.nodes == m1.nodes,
                self@.sigs == m1.sigs,
                self@.callers == m1.callers,
                self@.callees == m1.callees,
                self@.untyped == m1.untyped,
                old(self)@ == start,
                start.sigs[r as int].1,
                name@ == start.sigs[r as int].0.push('*'),
                site == start.nodes.len(),
                start.add_node(
                    NodeView { name: name@, local: Local::Exact(0), max: None, dashed: true },
                ) == Ok::<Model, FatalView>(m1),
                m1.sigs == start.sigs,
                m1.callers == start.callers,
                m1.with_site_callers(r as int, site, i as nat) == Ok::<Model, FatalView>(self@),
            decreases self.callers@.len() - i,
        {
            let pair = self.callers[i];
            if pair.0 == r {
                proof {
                    assert(self@.callers[i as int] == (pair.0 as int, pair.1 as int));
                    assert(0 <= self@.callers[i as int].1 < self@.nodes.len());
                }
                match self.add_edge(pair.1, site) {
                    Err(e) => {
                        proof {
                            lemma_site_callers_fails(
                                m1,
                                r as int,
                                site,
                                (i + 1) as nat,
                                m1.callers.len(),
                            );
                        }
                        return Err(e);
                    },
                    Ok(()) => {},
                }
            }
            i += 1;
        }
        if self.untyped {
            match self.add_sentinel(site) {
                Err(e) => {
                    return Err(e);
                },
                Ok(()) => {},
            }
        } else if !self.has_callee(r) {
            self.note(Diagnostic::NoCallees { name });
        }
        let ghost m3 = self@;
        let mut j: usize = 0;
        while j < self.callees.len()
            invariant
                j <= self.callees@.len(),
                self.wf(),
                site < self@.nodes.len(),
                self@.sigs == m3.sigs,
                self@.callees == m3.callees,
                m3.callees == start.callees,
                self@.sigs == start.sigs,
                old(self)@ == start,
                start.with_call_site(r as int) == m3.with_site_callees(
                    r as int,
                    site,
                    start.callees.len(),
                ),
                m3.with_site_callees(r as int, site, j as nat) == Ok::<Model, FatalView>(self@),
            decreases self.callees@.len() - j,
        {
            let pair = self.callees[j];
            if pair.0 == r {
                proof {
                    assert(self@.callees[j as int] == (pair.0 as int, pair.1 as int));
                    assert(0 <= self@.callees[j as int].1 < self@.nodes.len());
                }
                match self.add_edge(site, pair.1) {
                    Err(e) => {
                        proof {
                            lemma_site_callees_fails(
                                m3,
                                r as int,
                                site,
                                (j + 1) as nat,
                                m3.callees.len(),
                            );
                        }
                        return Err(e);
                    },
                    Ok(()) => {},
                }
            }
            j += 1;
        }
        Ok(())
    }

    /// Adds the call sites of all signatures that are called.
    pub fn resolve_indirect(&mut self) -> (res: Result<(), Fatal>)
        requires
            old(self).wf(),
        ensures
            final(self).wf(),
            match res {
                Ok(()) => old(self)@.resolved() == Ok::<Model, FatalView>(final(self)@),
                Err(e) => old(self)@.resolved() == Err::<Model, FatalView>(e@),
            },
    {
        if self.untyped {
            self.note(Diagnostic::UntypedSymbols);
        }
        let ghost start = self@;
        let n = self.sigs.len();
        let mut r: usize = 0;
        while r < n
            invariant
                r <= n,
                n == start.sigs.len(),
                self.wf(),
                self@.sigs == start.sigs,
                old(self)@.resolved() == start.with_call_sites(n as nat),
                start.with_call_sites(r as nat) == Ok::<Model, FatalView>(self@),
            decreases n - r,
        {
            match self.add_call_site(r) {
                Err(e) => {
                    proof {
                        lemma_call_sites_fails(start, (r + 1) as nat, n as nat);
                    }
                    return Err(e);
                },
                Ok(()) => {},
            }
            r += 1;
        }
        Ok(())
    }
}

/// Once an edge from a caller cannot be added, neither can those from more callers.
pub proof fn lemma_site_callers_fails(m: Model, r: int, site: usize, k: nat, upto: nat)
    requires
        k <= upto,
        m.with_site_callers(r, site, k) is Err,
    ensures
        m.with_site_callers(r, site, upto) == m.with_site_callers(r, site, k),
    decreases upto,
{
    if k < upto {
        lemma_site_callers_fails(m, r, site, k, (upto - 1) as nat);
    }
}

/// Once an edge to a function cannot be added, neither can those to more functions.
pub proof fn lemma_site_callees_fails(m: Model, r: int, site: usize, k: nat, upto: nat)
    requires
        k <= upto,
        m.with_site_callees(r, site, k) is Err,
    ensures
        m.with_site_callees(r, site, upto) == m.with_site_callees(r, site, k),
    decreases upto,
{
    if k < upto {
        lemma_site_callees_fails(m, r, site, k, (upto - 1) as nat);
    }
}

/// Once a call site cannot be added, neither can those of more signatures.
pub proof fn lemma_call_sites_fails(m: Model, k: nat, upto: nat)
    requires
        k <= upto,
        m.with_call_sites(k) is Err,
    ensures
        m.with_call_sites(upto) == m.with_call_sites(k),
    decreases upto,
{
    if k < upto {
        lemma_call_sites_fails(m, k, (upto - 1) as nat);
    }
}

} // verus!
