//! The symbols of the program: which names stand for the same function, the
//! name chosen for each function, and the stack usage reported for it.

use vstd::prelude::*;
use crate::names::{is_tag, spec_is_tag, spec_strip_version, strip_version};
use crate::table::{lemma_lookup_push, lookup, Table};
use crate::target::Target;
use crate::text::same_text;

verus! {

/// A defined symbol: all the names given to one address.
#[derive(Debug)]
pub struct Symbol {
    /// The address of the symbol.
    pub address: u64,
    /// The names of the symbol, tags included.
    pub names: Vec<String>,
    /// The size of the symbol in bytes, 0 when the symbol table gives none.
    pub size: u64,
    /// The local stack usage that the compiler reported, if it reported any.
    pub stack: Option<u64>,
}

/// The texts of a list of strings.
pub open spec fn texts(names: Seq<String>) -> Seq<Seq<char>> {
    Seq::new(names.len(), |i: int| names[i]@)
}

/// The position of the first name at or after `from` that is no tag.
pub open spec fn first_plain(names: Seq<Seq<char>>, from: int) -> Option<int>
    decreases names.len() - from,
{
    if from < 0 || from >= names.len() {
        None
    } else if !spec_is_tag(names[from]) {
        Some(from)
    } else {
        first_plain(names, from + 1)
    }
}

/// An address without the bit that marks Thumb code, where the target uses it.
pub open spec fn spec_clear_tag_bit(target: Target, address: u64) -> u64 {
    if target.is_thumb() {
        (address - address % 2) as u64
    } else {
        address
    }
}

/// Clears the bit that marks Thumb code in an address, where the target uses it.
pub fn clear_tag_bit(target: Target, address: u64) -> (r: u64)
    ensures
        r == spec_clear_tag_bit(target, address),
{
    if target.is_thumb() {
        assert(address & !1u64 == address - address % 2) by (bit_vector);
        address & !1u64
    } else {
        address
    }
}

impl Symbol {
    /// The names of the symbol as texts.
    pub open spec fn names_view(&self) -> Seq<Seq<char>> {
        texts(self.names@)
    }

    /// The canonical name: the first name that is no tag.
    pub open spec fn spec_canonical(&self) -> Option<Seq<char>> {
        match first_plain(self.names_view(), 0) {
            Some(i) => Some(self.names_view()[i]),
            None => None,
        }
    }

    /// Whether `name` is one of the names of the symbol and no tag.
    pub open spec fn lists(&self, name: Seq<char>) -> bool {
        self.names_view().contains(name) && !spec_is_tag(name)
    }

    /// Whether the symbols agree in everything but the address.
    pub open spec fn same_but_address(&self, other: Symbol) -> bool {
        &&& self.names_view() == other.names_view()
        &&& self.size == other.size
        &&& self.stack == other.stack
    }

    /// The canonical name: the first name that is no tag.
    pub fn canonical(&self) -> (r: Option<&String>)
        ensures
            match r {
                Some(name) => self.spec_canonical() == Some(name@),
                None => self.spec_canonical() is None,
            },
    {
        let mut i: usize = 0;
        while i < self.names.len()
            invariant
                i <= self.names.len(),
                first_plain(self.names_view(), 0) == first_plain(self.names_view(), i as int),
            decreases self.names.len() - i,
        {
            if !is_tag(self.names[i].as_str()) {
                return Some(&self.names[i]);
            }
            i += 1;
        }
        None
    }

    /// A copy of the symbol at another address.
    pub fn at_address(&self, address: u64) -> (r: Symbol)
        ensures
            r.address == address,
            r.same_but_address(*self),
    {
        let mut names: Vec<String> = Vec::new();
        let mut i: usize = 0;
        while i < self.names.len()
            invariant
                i <= self.names.len(),
                names@.len() == i,
                forall|j: int| 0 <= j < i ==> names@[j]@ == self.names@[j]@,
            decreases self.names.len() - i,
        {
            names.push(self.names[i].clone());
            i += 1;
        }
        let r = Symbol { address, names, size: self.size, stack: self.stack };
        proof {
            assert(r.names_view() =~= self.names_view());
        }
        r
    }
}

/// Whether a later symbol has the address of symbol `i`, once the tag bit is
/// cleared, and so takes its place.
pub open spec fn superseded(target: Target, symbols: Seq<Symbol>, i: int) -> bool {
    exists|j: int|
        i < j < symbols.len() && spec_clear_tag_bit(target, (#[trigger] symbols[j]).address)
            == spec_clear_tag_bit(target, symbols[i].address)
}

/// The positions among the first `i` symbols of those that no later symbol
/// supersedes, in ascending order.
pub open spec fn kept(target: Target, symbols: Seq<Symbol>, i: nat) -> Seq<int>
    decreases i,
{
    if i == 0 {
        Seq::empty()
    } else if superseded(target, symbols, i - 1) {
        kept(target, symbols, (i - 1) as nat)
    } else {
        kept(target, symbols, (i - 1) as nat).push(i - 1)
    }
}

/// The canonical name of the last of `symbols` that lists `name`.
pub open spec fn spec_alias_of(symbols: Seq<Symbol>, name: Seq<char>) -> Option<Seq<char>>
    decreases symbols.len(),
{
    if symbols.len() == 0 {
        None
    } else if symbols.last().lists(name) {
        symbols.last().spec_canonical()
    } else {
        spec_alias_of(symbols.drop_last(), name)
    }
}

/// The stack usage reported for the last of `symbols` that has `name` among
/// its names, tags included.
pub open spec fn spec_stack_of(symbols: Seq<Symbol>, name: Seq<char>) -> Option<Option<u64>>
    decreases symbols.len(),
{
    if symbols.len() == 0 {
        None
    } else if symbols.last().names_view().contains(name) {
        Some(symbols.last().stack)
    } else {
        spec_stack_of(symbols.drop_last(), name)
    }
}

/// The canonical name of the last of `symbols` that has the address
/// `address` and a canonical name.
pub open spec fn spec_canonical_at(symbols: Seq<Symbol>, address: u64) -> Option<Seq<char>>
    decreases symbols.len(),
{
    if symbols.len() == 0 {
        None
    } else if symbols.last().address == address && symbols.last().spec_canonical() is Some {
        symbols.last().spec_canonical()
    } else {
        spec_canonical_at(symbols.drop_last(), address)
    }
}

/// Whether the table `aliases` maps each name to the canonical name of the
/// last of `symbols` that lists it, or, while that symbol is being entered,
/// whether it does so for the names up to `upto` of a further symbol with
/// the canonical name `canonical`.
pub open spec fn aliases_match(
    aliases: Seq<(Seq<char>, String)>,
    symbols: Seq<Symbol>,
    extra: Seq<Seq<char>>,
    canonical: Seq<char>,
) -> bool {
    forall|name: Seq<char>|
        (match #[trigger] lookup(aliases, name) {
            Some(c) => Some(c@),
            None => None,
        }) == if extra.contains(name) && !spec_is_tag(name) {
            Some(canonical)
        } else {
            spec_alias_of(symbols, name)
        }
}

/// Whether the table `stacks` maps each name to the stack usage reported for
/// the last of `symbols` that has the name, or for a further symbol with the
/// names `extra`.
pub open spec fn stacks_match(
    stacks: Seq<(Seq<char>, Option<u64>)>,
    symbols: Seq<Symbol>,
    extra: Seq<Seq<char>>,
    stack: Option<u64>,
) -> bool {
    forall|name: Seq<char>| #[trigger]
        lookup(stacks, name) == if extra.contains(name) {
            Some(stack)
        } else {
            spec_stack_of(symbols, name)
        }
}

/// The symbols of the program, indexed by name.
pub struct SymbolTable {
    /// The defined symbols, one for each address, tag bits cleared.
    pub defined: Vec<Symbol>,
    /// The names of the undefined symbols, without versions.
    pub undefined: Vec<String>,
    /// From each name that is no tag to the canonical name of its symbol.
    pub aliases: Table<String>,
    /// From each name to the stack usage reported for its symbol.
    pub stacks: Table<Option<u64>>,
}

impl SymbolTable {
    /// The two tables hold what the defined symbols say.
    pub open spec fn wf(&self) -> bool {
        &&& aliases_match(self.aliases@, self.defined@, Seq::empty(), Seq::empty())
        &&& stacks_match(self.stacks@, self.defined@, Seq::empty(), None)
    }

    /// Whether `self` is the table of the given symbols: the defined symbols
    /// that no later one supersedes, in their order and with the tag bit of
    /// their addresses cleared, and the undefined names without versions.
    pub open spec fn is_table_of(
        &self,
        target: Target,
        defined: Seq<Symbol>,
        undefined: Seq<String>,
    ) -> bool {
        let picked = kept(target, defined, defined.len());
        &&& self.wf()
        &&& self.defined@.len() == picked.len()
        &&& forall|k: int|
            0 <= k < picked.len() ==> (#[trigger] self.defined@[k]).address == spec_clear_tag_bit(
                target,
                defined[picked[k]].address,
            ) && self.defined@[k].same_but_address(defined[picked[k]])
        &&& self.undefined@.len() == undefined.len()
        &&& forall|k: int|
            0 <= k < undefined.len() ==> (#[trigger] self.undefined@[k])@ == spec_strip_version(
                undefined[k]@,
            )
    }

    /// Builds the table of the given symbols.
    pub fn build(target: Target, defined: &Vec<Symbol>, undefined: &Vec<String>) -> (t: SymbolTable)
        ensures
            t.is_table_of(target, defined@, undefined@),
    {
        let mut symbols: Vec<Symbol> = Vec::new();
        let mut aliases: Table<String> = Table::new();
        let mut stacks: Table<Option<u64>> = Table::new();
        let mut i: usize = 0;
        while i < defined.len()
            invariant
                i <= defined.len(),
                symbols@.len() == kept(target, defined@, i as nat).len(),
                forall|k: int|
                    0 <= k < symbols@.len() ==> (#[trigger] symbols@[k]).address == spec_clear_tag_bit(
                        target,
                        defined@[kept(target, defined@, i as nat)[k]].address,
                    ) && symbols@[k].same_but_address(defined@[kept(target, defined@, i as nat)[k]]),
                forall|k: int|
                    0 <= k < symbols@.len() ==> 0 <= #[trigger] kept(target, defined@, i as nat)[k] < i,
                aliases_match(aliases@, symbols@, Seq::empty(), Seq::empty()),
                stacks_match(stacks@, symbols@, Seq::empty(), None),
            decreases defined.len() - i,
        {
            let address = clear_tag_bit(target, defined[i].address);
            let mut later: bool = false;
            let mut j: usize = i + 1;
            while j < defined.len()
                invariant
                    i < j <= defined.len(),
                    address == spec_clear_tag_bit(target, defined@[i as int].address),
                    later == exists|t: int|
                        i < t < j && spec_clear_tag_bit(target, (#[trigger] defined@[t]).address)
                            == address,
                decreases defined.len() - j,
            {
                if clear_tag_bit(target, defined[j].address) == address {
                    later = true;
                }
                j += 1;
            }
            assert(later == superseded(target, defined@, i as int));
            if !later {
                let sym = defined[i].at_address(address);
                Self::enter(&mut aliases, &mut stacks, Ghost(symbols@), &sym);
                let ghost before = symbols@;
                symbols.push(sym);
                proof {
                    assert(symbols@.drop_last() =~= before);
                    let old_kept = kept(target, defined@, i as nat);
                    let new_kept = kept(target, defined@, (i + 1) as nat);
                    assert(new_kept == old_kept.push(i as int));
                    assert forall|k: int| 0 <= k < symbols@.len() implies (#[trigger] symbols@[k]).address
                        == spec_clear_tag_bit(target, defined@[new_kept[k]].address)
                        && symbols@[k].same_but_address(defined@[new_kept[k]]) by {
                        if k < before.len() {
                            assert(symbols@[k] == before[k]);
                        }
                    }
                    assert(aliases_match(aliases@, symbols@, Seq::empty(), Seq::empty())) by {
                        assert forall|name: Seq<char>| !Seq::<Seq<char>>::empty().contains(name) by {}
                    }
                    assert(stacks_match(stacks@, symbols@, Seq::empty(), None)) by {
                        assert forall|name: Seq<char>| !Seq::<Seq<char>>::empty().contains(name) by {}
                    }
                }
            }
            i += 1;
        }
        let mut stripped: Vec<String> = Vec::new();
        let mut k: usize = 0;
        while k < undefined.len()
            invariant
                k <= undefined.len(),
                stripped@.len() == k,
                forall|t: int| 0 <= t < k ==> (#[trigger] stripped@[t])@ == spec_strip_version(undefined@[t]@),
            decreases undefined.len() - k,
        {
            stripped.push(strip_version(undefined[k].as_str()));
            k += 1;
        }
        SymbolTable { defined: symbols, undefined: stripped, aliases, stacks }
    }

    /// Enters the names of one more symbol into the two tables.
    fn enter(
        aliases: &mut Table<String>,
        stacks: &mut Table<Option<u64>>,
        Ghost(symbols): Ghost<Seq<Symbol>>,
        sym: &Symbol,
    )
        requires
            aliases_match(old(aliases)@, symbols, Seq::empty(), Seq::empty()),
            stacks_match(old(stacks)@, symbols, Seq::empty(), None),
        ensures
            aliases_match(final(aliases)@, symbols, sym.names_view(), sym.spec_canonical().unwrap_or(Seq::empty())),
            stacks_match(final(stacks)@, symbols, sym.names_view(), sym.stack),
            aliases_match(final(aliases)@, symbols.push(*sym), Seq::empty(), Seq::empty()),
            stacks_match(final(stacks)@, symbols.push(*sym), Seq::empty(), None),
    {
        let ghost names = sym.names_view();
        let ghost canon = sym.spec_canonical().unwrap_or(Seq::empty());
        let canonical = sym.canonical();
        let mut j: usize = 0;
        proof {
            assert(names.take(0) =~= Seq::<Seq<char>>::empty());
        }
        while j < sym.names.len()
            invariant
                j <= sym.names.len(),
                names == sym.names_view(),
                canon == sym.spec_canonical().unwrap_or(Seq::empty()),
                match canonical {
                    Some(name) => sym.spec_canonical() == Some(name@),
                    None => sym.spec_canonical() is None,
                },
                aliases_match(aliases@, symbols, names.take(j as int), canon),
                stacks_match(stacks@, symbols, names.take(j as int), sym.stack),
            decreases sym.names.len() - j,
        {
            let name = &sym.names[j];
            let ghost a0 = aliases@;
            let ghost s0 = stacks@;
            let ghost seen = names.take(j as int);
            let ghost now = names.take(j + 1);
            proof {
                assert(now =~= seen.push(name@));
                assert forall|x: Seq<char>| now.contains(x) == (seen.contains(x) || x == name@) by {
                    if seen.contains(x) {
                        let t = choose|t: int| 0 <= t < seen.len() && seen[t] == x;
                        assert(now[t] == x);
                    }
                    if x == name@ {
                        assert(now[j as int] == x);
                    }
                }
            }
            if !is_tag(name.as_str()) {
                match canonical {
                    Some(c) => {
                        aliases.insert(name.clone(), c.clone());
                        proof {
                            assert forall|x: Seq<char>|
                                (match #[trigger] lookup(aliases@, x) {
                                    Some(c) => Some(c@),
                                    None => None,
                                }) == if now.contains(x) && !spec_is_tag(x) {
                                    Some(canon)
                                } else {
                                    spec_alias_of(symbols, x)
                                } by {
                                lemma_lookup_push(a0, name@, *c, x);
                            }
                        }
                    },
                    None => {
                        proof {
                            lemma_first_plain_none(names, 0, j as int);
                        }
                    },
                }
            }
            stacks.insert(name.clone(), sym.stack);
            proof {
                assert forall|x: Seq<char>| #[trigger]
                    lookup(stacks@, x) == if now.contains(x) {
                        Some(sym.stack)
                    } else {
                        spec_stack_of(symbols, x)
                    } by {
                    lemma_lookup_push(s0, name@, sym.stack, x);
                }
            }
            j += 1;
        }
        proof {
            assert(names.take(j as int) =~= names);
            let all = symbols.push(*sym);
            assert(all.drop_last() =~= symbols);
            assert forall|name: Seq<char>| !Seq::<Seq<char>>::empty().contains(name) by {}
            assert forall|x: Seq<char>|
                (match #[trigger] lookup(aliases@, x) {
                    Some(c) => Some(c@),
                    None => None,
                }) == spec_alias_of(all, x) by {
                if names.contains(x) && !spec_is_tag(x) {
                    let t = choose|t: int| 0 <= t < names.len() && names[t] == x;
                    lemma_first_plain_some(names, 0, t);
                }
            }
        }
    }

    /// The canonical name of the symbol that lists `name`.
    pub fn alias_of(&self, name: &str) -> (r: Option<&String>)
        requires
            self.wf(),
        ensures
            match r {
                Some(c) => spec_alias_of(self.defined@, name@) == Some(c@),
                None => spec_alias_of(self.defined@, name@) is None,
            },
    {
        let r = self.aliases.get(name);
        proof {
            assert forall|name: Seq<char>| !Seq::<Seq<char>>::empty().contains(name) by {}
            let _ = lookup(self.aliases@, name@);
        }
        r
    }

    /// The stack usage reported for the symbol that has the name `name`.
    pub fn stack_of(&self, name: &str) -> (r: Option<u64>)
        requires
            self.wf(),
        ensures
            r == match spec_stack_of(self.defined@, name@) {
                Some(stack) => stack,
                None => None,
            },
    {
        proof {
            assert forall|name: Seq<char>| !Seq::<Seq<char>>::empty().contains(name) by {}
            let _ = lookup(self.stacks@, name@);
        }
        match self.stacks.get(name) {
            Some(stack) => *stack,
            None => None,
        }
    }

    /// The canonical name of the symbol at `address`.
    pub fn canonical_at(&self, address: u64) -> (r: Option<&String>)
        ensures
            match r {
                Some(c) => spec_canonical_at(self.defined@, address) == Some(c@),
                None => spec_canonical_at(self.defined@, address) is None,
            },
    {
        let mut i: usize = self.defined.len();
        proof {
            assert(self.defined@.take(i as int) =~= self.defined@);
        }
        while i > 0
            invariant
                i <= self.defined.len(),
                spec_canonical_at(self.defined@, address) == spec_canonical_at(
                    self.defined@.take(i as int),
                    address,
                ),
            decreases i,
        {
            i -= 1;
            proof {
                assert(self.defined@.take(i + 1).drop_last() =~= self.defined@.take(i as int));
                assert(self.defined@.take(i + 1).last() == self.defined@[i as int]);
            }
            if self.defined[i].address == address {
                match self.defined[i].canonical() {
                    Some(c) => {
                        return Some(c);
                    },
                    None => {},
                }
            }
        }
        None
    }

    /// Whether `name` is the name of an undefined symbol.
    pub open spec fn spec_is_undefined(&self, name: Seq<char>) -> bool {
        texts(self.undefined@).contains(name)
    }

    /// Tests whether `name` is the name of an undefined symbol.
    pub fn is_undefined(&self, name: &str) -> (r: bool)
        ensures
            r == self.spec_is_undefined(name@),
    {
        let mut i: usize = 0;
        while i < self.undefined.len()
            invariant
                i <= self.undefined.len(),
                forall|j: int| 0 <= j < i ==> self.undefined@[j]@ != name@,
            decreases self.undefined.len() - i,
        {
            if same_text(self.undefined[i].as_str(), name) {
                proof {
                    assert(texts(self.undefined@)[i as int] == name@);
                }
                return true;
            }
            i += 1;
        }
        proof {
            assert forall|j: int| 0 <= j < texts(self.undefined@).len() implies texts(
                self.undefined@,
            )[j] != name@ by {
                assert(self.undefined@[j]@ != name@);
            }
        }
        false
    }
}

/// In a list without a plain name from `from` on, the name at `at` is a tag.
proof fn lemma_first_plain_none(names: Seq<Seq<char>>, from: int, at: int)
    requires
        0 <= from <= at < names.len(),
        first_plain(names, from) is None,
    ensures
        spec_is_tag(names[at]),
    decreases at - from,
{
    if from < at {
        lemma_first_plain_none(names, from + 1, at);
    }
}

/// A list with a plain name at or after `from` has a first plain name there.
proof fn lemma_first_plain_some(names: Seq<Seq<char>>, from: int, at: int)
    requires
        0 <= from <= at < names.len(),
        !spec_is_tag(names[at]),
    ensures
        first_plain(names, from) is Some,
    decreases at - from,
{
    if from < at && spec_is_tag(names[from]) {
        lemma_first_plain_some(names, from + 1, at);
    }
}

/// The positions that are kept rise, and none of them is superseded.
proof fn lemma_kept_rises(target: Target, symbols: Seq<Symbol>, i: nat)
    requires
        i <= symbols.len(),
    ensures
        forall|k: int|
            0 <= k < kept(target, symbols, i).len() ==> 0 <= #[trigger] kept(target, symbols, i)[k] < i
                && !superseded(target, symbols, kept(target, symbols, i)[k]),
        forall|a: int, b: int|
            0 <= a < b < kept(target, symbols, i).len() ==> #[trigger] kept(target, symbols, i)[a]
                < #[trigger] kept(target, symbols, i)[b],
    decreases i,
{
    if i > 0 {
        lemma_kept_rises(target, symbols, (i - 1) as nat);
        let rest = kept(target, symbols, (i - 1) as nat);
        let all = kept(target, symbols, i);
        assert forall|k: int| 0 <= k < all.len() implies 0 <= #[trigger] all[k] < i && !superseded(
            target,
            symbols,
            all[k],
        ) by {
            if k < rest.len() {
                assert(all[k] == rest[k]);
            }
        }
        assert forall|a: int, b: int| 0 <= a < b < all.len() implies #[trigger] all[a] < #[trigger] all[b] by {
            assert(all[a] == rest[a]);
            if b < rest.len() {
                assert(all[b] == rest[b]);
            }
        }
    }
}

/// No two symbols of a table have the same address.
pub proof fn lemma_addresses_differ(
    table: SymbolTable,
    target: Target,
    defined: Seq<Symbol>,
    undefined: Seq<String>,
    a: int,
    b: int,
)
    requires
        table.is_table_of(target, defined, undefined),
        0 <= a < b < table.defined@.len(),
    ensures
        table.defined@[a].address != table.defined@[b].address,
{
    let picked = kept(target, defined, defined.len());
    lemma_kept_rises(target, defined, defined.len());
    assert(picked[a] < picked[b]);
    assert(!superseded(target, defined, picked[a]));
    assert(table.defined@[a].address == spec_clear_tag_bit(target, defined[picked[a]].address));
    assert(table.defined@[b].address == spec_clear_tag_bit(target, defined[picked[b]].address));
    if table.defined@[a].address == table.defined@[b].address {
        assert(spec_clear_tag_bit(target, defined[picked[b]].address) == spec_clear_tag_bit(
            target,
            defined[picked[a]].address,
        ));
    }
}

/// A canonical name is no tag, and only names that are no tags stand for a
/// canonical name.
pub proof fn lemma_tags_stay_out(symbols: Seq<Symbol>, name: Seq<char>)
    ensures
        spec_alias_of(symbols, name) is Some ==> !spec_is_tag(name) && !spec_is_tag(
            spec_alias_of(symbols, name)->0,
        ),
    decreases symbols.len(),
{
    if symbols.len() > 0 {
        if symbols.last().lists(name) {
            lemma_canonical_is_plain(symbols.last().names_view(), 0);
        } else {
            lemma_tags_stay_out(symbols.drop_last(), name);
        }
    }
}

/// A symbol lists its canonical name.
pub proof fn lemma_canonical_is_listed(sym: Symbol)
    requires
        sym.spec_canonical() is Some,
    ensures
        sym.lists(sym.spec_canonical()->0),
{
    lemma_canonical_is_plain(sym.names_view(), 0);
    let i = first_plain(sym.names_view(), 0)->0;
    assert(sym.names_view()[i] == sym.spec_canonical()->0);
}

/// Where no name is given to two symbols, no two symbols share a canonical
/// name.
pub proof fn lemma_canonical_names_differ(symbols: Seq<Symbol>, a: int, b: int)
    requires
        0 <= a < symbols.len(),
        0 <= b < symbols.len(),
        a != b,
        symbols[a].spec_canonical() is Some,
        symbols[b].spec_canonical() is Some,
        forall|name: Seq<char>| !(symbols[a].lists(name) && #[trigger] symbols[b].lists(name)),
    ensures
        symbols[a].spec_canonical() != symbols[b].spec_canonical(),
{
    lemma_canonical_is_listed(symbols[a]);
    lemma_canonical_is_listed(symbols[b]);
}

/// The first plain name of a list is no tag.
proof fn lemma_canonical_is_plain(names: Seq<Seq<char>>, from: int)
    ensures
        first_plain(names, from) is Some ==> 0 <= first_plain(names, from)->0 < names.len()
            && !spec_is_tag(names[first_plain(names, from)->0]),
    decreases names.len() - from,
{
    if 0 <= from < names.len() && spec_is_tag(names[from]) {
        lemma_canonical_is_plain(names, from + 1);
    }
}

} // verus!
