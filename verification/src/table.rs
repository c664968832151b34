//! A table from names to values in which a later entry for a name replaces
//! an earlier one.

use vstd::prelude::*;
use crate::text::same_text;

verus! {

/// The value of the last entry for `key`, or nothing when there is none.
pub open spec fn lookup<V>(entries: Seq<(Seq<char>, V)>, key: Seq<char>) -> Option<V>
    decreases entries.len(),
{
    if entries.len() == 0 {
        None
    } else if entries.last().0 == key {
        Some(entries.last().1)
    } else {
        lookup(entries.drop_last(), key)
    }
}

/// The position of the last entry for `key`, or nothing when there is none.
pub open spec fn position<V>(entries: Seq<(Seq<char>, V)>, key: Seq<char>) -> Option<int>
    decreases entries.len(),
{
    if entries.len() == 0 {
        None
    } else if entries.last().0 == key {
        Some(entries.len() - 1)
    } else {
        position(entries.drop_last(), key)
    }
}

/// The value that is looked up is the value at the position that is found.
pub proof fn lemma_position<V>(entries: Seq<(Seq<char>, V)>, key: Seq<char>)
    ensures
        match position(entries, key) {
            Some(i) => 0 <= i < entries.len() && entries[i].0 == key && lookup(entries, key) == Some(
                entries[i].1,
            ),
            None => lookup(entries, key) is None,
        },
    decreases entries.len(),
{
    if entries.len() > 0 && entries.last().0 != key {
        lemma_position(entries.drop_last(), key);
    }
}

/// Looking a key up after one more entry.
pub proof fn lemma_lookup_push<V>(entries: Seq<(Seq<char>, V)>, k: Seq<char>, v: V, key: Seq<char>)
    ensures
        lookup(entries.push((k, v)), key) == if k == key {
            Some(v)
        } else {
            lookup(entries, key)
        },
{
    assert(entries.push((k, v)).drop_last() =~= entries);
}

/// A key is found exactly when some entry has it, and then with the value of
/// one of its entries.
pub proof fn lemma_lookup_some<V>(entries: Seq<(Seq<char>, V)>, key: Seq<char>)
    ensures
        lookup(entries, key) is Some <==> exists|i: int|
            0 <= i < entries.len() && (#[trigger] entries[i]).0 == key,
        lookup(entries, key) is Some ==> exists|i: int|
            0 <= i < entries.len() && #[trigger] entries[i] == (key, lookup(entries, key)->0),
    decreases entries.len(),
{
    if entries.len() > 0 {
        let init = entries.drop_last();
        lemma_lookup_some(init, key);
        if entries.last().0 == key {
            assert(entries[entries.len() - 1] == (key, lookup(entries, key)->0));
        } else {
            if lookup(init, key) is Some {
                let i = choose|i: int|
                    0 <= i < init.len() && #[trigger] init[i] == (key, lookup(init, key)->0);
                assert(entries[i] == init[i]);
            }
            if exists|i: int| 0 <= i < entries.len() && (#[trigger] entries[i]).0 == key {
                let i = choose|i: int| 0 <= i < entries.len() && (#[trigger] entries[i]).0 == key;
                assert(init[i] == entries[i]);
            }
        }
    }
}

/// A table from names to values.
pub struct Table<V> {
    entries: Vec<(String, V)>,
}

impl<V> Table<V> {
    /// The entries, in the order in which they were made.
    pub closed spec fn view(&self) -> Seq<(Seq<char>, V)> {
        Seq::new(self.entries@.len(), |i: int| (self.entries@[i].0@, self.entries@[i].1))
    }

    /// A table without entries.
    pub fn new() -> (t: Table<V>)
        ensures
            t@ == Seq::<(Seq<char>, V)>::empty(),
    {
        let t = Table { entries: Vec::new() };
        proof {
            assert(t@ =~= Seq::<(Seq<char>, V)>::empty());
        }
        t
    }

    /// The number of entries.
    pub fn len(&self) -> (n: usize)
        ensures
            n == self@.len(),
    {
        self.entries.len()
    }

    /// Adds an entry.
    pub fn insert(&mut self, key: String, val: V)
        ensures
            final(self)@ == old(self)@.push((key@, val)),
    {
        let ghost before = self@;
        self.entries.push((key, val));
        proof {
            assert(self@ =~= before.push((key@, val)));
        }
    }

    /// The position of the last entry for `key`.
    pub fn find(&self, key: &str) -> (r: Option<usize>)
        ensures
            match r {
                Some(i) => position(self@, key@) == Some(i as int) && i < self@.len() && self@[i as int].0
                    == key@ && lookup(self@, key@) == Some(self@[i as int].1),
                None => position(self@, key@) is None && lookup(self@, key@) is None,
            },
    {
        let mut i: usize = self.entries.len();
        proof {
            assert(self@.take(i as int) =~= self@);
        }
        while i > 0
            invariant
                i <= self.entries@.len(),
                position(self@, key@) == position(self@.take(i as int), key@),
            decreases i,
        {
            i -= 1;
            proof {
                assert(self@.take(i + 1).drop_last() =~= self@.take(i as int));
                assert(self@.take(i + 1).last() == self@[i as int]);
            }
            if same_text(self.entries[i].0.as_str(), key) {
                proof {
                    lemma_position(self@, key@);
                }
                return Some(i);
            }
        }
        proof {
            lemma_position(self@, key@);
        }
        None
    }

    /// The value of the last entry for `key`.
    pub fn get(&self, key: &str) -> (r: Option<&V>)
        ensures
            match r {
                Some(v) => lookup(self@, key@) == Some(*v),
                None => lookup(self@, key@) is None,
            },
    {
        match self.find(key) {
            Some(i) => Some(&self.entries[i].1),
            None => None,
        }
    }

    /// Whether the table has an entry for `key`.
    pub fn contains_key(&self, key: &str) -> (r: bool)
        ensures
            r == lookup(self@, key@) is Some,
    {
        self.find(key).is_some()
    }

    /// The name of entry `i`.
    pub fn key_at(&self, i: usize) -> (k: &String)
        requires
            i < self@.len(),
        ensures
            k@ == self@[i as int].0,
    {
        &self.entries[i].0
    }

    /// The value of entry `i`.
    pub fn value_at(&self, i: usize) -> (v: &V)
        requires
            i < self@.len(),
        ensures
            *v == self@[i as int].1,
    {
        &self.entries[i].1
    }

    /// Replaces the value of entry `i`.
    pub fn set_value(&mut self, i: usize, val: V)
        requires
            i < old(self)@.len(),
        ensures
            final(self)@ == old(self)@.update(i as int, (old(self)@[i as int].0, val)),
    {
        let ghost before = self@;
        let key = self.entries[i].0.clone();
        self.entries.set(i, (key, val));
        proof {
            assert(self@ =~= before.update(i as int, (before[i as int].0, val)));
        }
    }
}

} // verus!
