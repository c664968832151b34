//! Display names: a demangled name loses its hash suffix where no other
//! canonical name has the same name before the hash.

use vstd::prelude::*;
use crate::graph::{CallGraph, Node, NodeView};
use crate::names::{dehash, demangle, demangled, spec_dehash};
use crate::symbols::SymbolTable;
use crate::text::same_text;

verus! {

/// The demangled form of `name` without its hash suffix, where it has one.
pub open spec fn prefix_of(name: Seq<char>) -> Option<Seq<char>> {
    spec_dehash(demangled(name))
}

/// How many of `prefixes` are `p`.
pub open spec fn count_prefix(prefixes: Seq<Option<Seq<char>>>, p: Seq<char>) -> nat
    decreases prefixes.len(),
{
    if prefixes.len() == 0 {
        0
    } else if prefixes.last() == Some(p) {
        count_prefix(prefixes.drop_last(), p) + 1
    } else {
        count_prefix(prefixes.drop_last(), p)
    }
}

/// The texts of a list of optional strings.
pub open spec fn prefix_views(list: Seq<Option<String>>) -> Seq<Option<Seq<char>>> {
    Seq::new(
        list.len(),
        |k: int|
            match list[k] {
                Some(s) => Some(s@),
                None => None,
            },
    )
}

/// For each of `symbols`, the demangled form of its canonical name without
/// the hash suffix, where it has both.
pub open spec fn spec_prefixes(symbols: Seq<crate::symbols::Symbol>) -> Seq<Option<Seq<char>>> {
    Seq::new(
        symbols.len(),
        |k: int|
            match symbols[k].spec_canonical() {
                Some(c) => prefix_of(c),
                None => None,
            },
    )
}

/// The name under which a node named `name` is shown: its demangled form
/// without the hash suffix where exactly one of `prefixes` is that form,
/// else `name` as it is.
pub open spec fn spec_short_name(name: Seq<char>, prefixes: Seq<Option<Seq<char>>>) -> Seq<char> {
    match prefix_of(name) {
        Some(p) => if count_prefix(prefixes, p) == 1 {
            p
        } else {
            name
        },
        None => name,
    }
}

/// The demangled form of `name` without its hash suffix, where it has one.
pub fn hash_prefix(name: &str) -> (r: Option<String>)
    ensures
        match r {
            Some(p) => prefix_of(name@) == Some(p@),
            None => prefix_of(name@) is None,
        },
{
    let d = demangle(name);
    match dehash(d.as_str()) {
        Some(p) => Some(p.to_owned()),
        None => None,
    }
}

/// For each symbol of the table, the demangled form of its canonical name
/// without the hash suffix.
pub fn hash_prefixes(table: &SymbolTable) -> (r: Vec<Option<String>>)
    ensures
        prefix_views(r@) == spec_prefixes(table.defined@),
{
    let mut r: Vec<Option<String>> = Vec::new();
    let mut k: usize = 0;
    while k < table.defined.len()
        invariant
            k <= table.defined@.len(),
            r@.len() == k,
            forall|t: int| 0 <= t < k ==> prefix_views(r@)[t] == spec_prefixes(table.defined@)[t],
        decreases table.defined@.len() - k,
    {
        let p = match table.defined[k].canonical() {
            Some(c) => hash_prefix(c.as_str()),
            None => None,
        };
        let ghost before = r@;
        r.push(p);
        proof {
            assert forall|t: int| 0 <= t < k + 1 implies prefix_views(r@)[t] == spec_prefixes(
                table.defined@,
            )[t] by {
                if t < k {
                    assert(r@[t] == before[t]);
                    assert(prefix_views(before)[t] == spec_prefixes(table.defined@)[t]);
                }
            }
        }
        k += 1;
    }
    proof {
        assert(prefix_views(r@) =~= spec_prefixes(table.defined@));
    }
    r
}

/// Counts how many of `prefixes` are `p`.
pub fn count_of(prefixes: &Vec<Option<String>>, p: &str) -> (n: usize)
    ensures
        n == count_prefix(prefix_views(prefixes@), p@),
{
    let ghost views = prefix_views(prefixes@);
    let mut n: usize = 0;
    let mut k: usize = 0;
    while k < prefixes.len()
        invariant
            k <= prefixes@.len(),
            views == prefix_views(prefixes@),
            n <= k,
            n == count_prefix(views.take(k as int), p@),
        decreases prefixes@.len() - k,
    {
        proof {
            assert(views.take(k + 1).drop_last() =~= views.take(k as int));
            assert(views.take(k + 1).last() == views[k as int]);
        }
        match &prefixes[k] {
            Some(s) => {
                if same_text(s.as_str(), p) {
                    n += 1;
                }
            },
            None => {},
        }
        k += 1;
    }
    proof {
        assert(views.take(k as int) =~= views);
    }
    n
}

/// Whether `after` shows the nodes of `before` under their display names
/// and is the same otherwise.
pub open spec fn is_shortened(before: Seq<Node>, after: Seq<Node>, prefixes: Seq<Option<Seq<char>>>) -> bool {
    &&& after.len() == before.len()
    &&& forall|i: int|
        0 <= i < before.len() ==> (#[trigger] after[i])@ == (NodeView {
            name: spec_short_name(before[i].name@, prefixes),
            local: before[i].local,
            max: before[i].max,
            dashed: before[i].dashed,
        })
}

/// Gives every node its display name.
pub fn shorten(g: &mut CallGraph, prefixes: &Vec<Option<String>>)
    requires
        old(g).wf(),
    ensures
        final(g).wf(),
        final(g).edges() == old(g).edges(),
        is_shortened(old(g).nodes(), final(g).nodes(), prefix_views(prefixes@)),
{
    let ghost before = g.nodes();
    let ghost views = prefix_views(prefixes@);
    let n = g.node_count();
    let mut i: usize = 0;
    while i < n
        invariant
            i <= n,
            n == before.len(),
            g.wf(),
            g.edges() == old(g).edges(),
            views == prefix_views(prefixes@),
            g.nodes().len() == n,
            forall|t: int| i <= t < n ==> g.nodes()[t] == before[t],
            forall|t: int|
                0 <= t < i ==> (#[trigger] g.nodes()[t])@ == (NodeView {
                    name: spec_short_name(before[t].name@, views),
                    local: before[t].local,
                    max: before[t].max,
                    dashed: before[t].dashed,
                }),
        decreases n - i,
    {
        let ghost prev = g.nodes();
        match hash_prefix(g.node(i).name.as_str()) {
            Some(p) => {
                if count_of(prefixes, p.as_str()) == 1 {
                    g.set_name(i, p);
                }
            },
            None => {},
        }
        proof {
            assert forall|t: int| 0 <= t < i + 1 implies (#[trigger] g.nodes()[t])@ == (NodeView {
                name: spec_short_name(before[t].name@, views),
                local: before[t].local,
                max: before[t].max,
                dashed: before[t].dashed,
            }) by {
                if t < i {
                    assert(g.nodes()[t] == prev[t]);
                }
            }
        }
        i += 1;
    }
}

/// A prefix that stands in a list is counted at least once.
proof fn lemma_count_one(prefixes: Seq<Option<Seq<char>>>, p: Seq<char>, i: int)
    requires
        0 <= i < prefixes.len(),
        prefixes[i] == Some(p),
    ensures
        count_prefix(prefixes, p) >= 1,
    decreases prefixes.len(),
{
    if i < prefixes.len() - 1 {
        lemma_count_one(prefixes.drop_last(), p, i);
    }
}

/// A prefix that stands in a list twice is counted at least twice.
proof fn lemma_count_two(prefixes: Seq<Option<Seq<char>>>, p: Seq<char>, i: int, j: int)
    requires
        0 <= i < j < prefixes.len(),
        prefixes[i] == Some(p),
        prefixes[j] == Some(p),
    ensures
        count_prefix(prefixes, p) >= 2,
    decreases prefixes.len(),
{
    if j < prefixes.len() - 1 {
        lemma_count_two(prefixes.drop_last(), p, i, j);
    } else {
        lemma_count_one(prefixes.drop_last(), p, i);
    }
}

/// The prefixes of a list of names.
pub open spec fn prefixes_of(names: Seq<Seq<char>>) -> Seq<Option<Seq<char>>> {
    Seq::new(names.len(), |k: int| prefix_of(names[k]))
}

/// Shortening keeps names apart: two different names of a list, shortened
/// against the prefixes of that list, are shown differently, unless one of
/// them is shortened to the very name under which the other is still shown.
pub proof fn lemma_short_names_differ(names: Seq<Seq<char>>, i: int, j: int)
    requires
        0 <= i < names.len(),
        0 <= j < names.len(),
        names[i] != names[j],
        spec_short_name(names[i], prefixes_of(names)) == names[i] ==> spec_short_name(
            names[j],
            prefixes_of(names),
        ) != names[i],
        spec_short_name(names[j], prefixes_of(names)) == names[j] ==> spec_short_name(
            names[i],
            prefixes_of(names),
        ) != names[j],
    ensures
        spec_short_name(names[i], prefixes_of(names)) != spec_short_name(names[j], prefixes_of(names)),
{
    let prefixes = prefixes_of(names);
    let a = spec_short_name(names[i], prefixes);
    let b = spec_short_name(names[j], prefixes);
    if a != names[i] && b != names[j] && a == b {
        assert(prefixes[i] == Some(a));
        assert(prefixes[j] == Some(a));
        if i < j {
            lemma_count_two(prefixes, a, i, j);
        } else {
            lemma_count_two(prefixes, a, j, i);
        }
    }
}

} // verus!
