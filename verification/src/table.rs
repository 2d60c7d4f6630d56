//! Tables from keys to values, kept as a list of entries of which the last one
//! for a key counts.

use vstd::prelude::*;

use crate::model::CleanupGroup;
use crate::path::{FilePath, Route};
use crate::text::{chars_of, same_text};

verus! {

/// Keys that can be told apart by what they say.
pub trait Key: Sized {
    /// What keys say.
    type Id;

    /// What this key says.
    spec fn id(&self) -> Self::Id;

    fn same_key(&self, other: &Self) -> (yes: bool)
        ensures
            yes == (self.id() == other.id()),
    ;
}

impl Key for String {
    type Id = Seq<char>;

    open spec fn id(&self) -> Seq<char> {
        self@
    }

    fn same_key(&self, other: &Self) -> (yes: bool) {
        let chars = chars_of(self.as_str());
        same_text(chars.as_slice(), other.as_str())
    }
}

impl Key for FilePath {
    type Id = Route;

    /// A path is told by its components.
    open spec fn id(&self) -> Route {
        self@.route()
    }

    fn same_key(&self, other: &Self) -> (yes: bool) {
        self.same(other)
    }
}

impl Key for CleanupGroup {
    type Id = CleanupGroup;

    open spec fn id(&self) -> CleanupGroup {
        *self
    }

    fn same_key(&self, other: &Self) -> (yes: bool) {
        *self == *other
    }
}

/// A table from keys to values.
pub struct Table<K, V> {
    entries: Vec<(K, V)>,
}

/// The table that a list of entries makes.
pub open spec fn entries_map<K: Key, V: View>(entries: Seq<(K, V)>) -> Map<K::Id, V::V>
    decreases entries.len(),
{
    if entries.len() == 0 {
        Map::empty()
    } else {
        entries_map(entries.drop_last()).insert(entries.last().0.id(), entries.last().1@)
    }
}

proof fn lemma_last_entry_counts<K: Key, V: View>(entries: Seq<(K, V)>, i: int)
    requires
        0 <= i < entries.len(),
        forall|j: int| i < j < entries.len() ==> (#[trigger] entries[j]).0.id() != entries[i].0.id(),
    ensures
        entries_map(entries).contains_key(entries[i].0.id()),
        entries_map(entries)[entries[i].0.id()] == entries[i].1@,
    decreases entries.len(),
{
    if i < entries.len() - 1 {
        assert(entries.last().0.id() != entries[i].0.id());
        assert forall|j: int| i < j < entries.drop_last().len() implies (#[trigger] entries.drop_last()[j]).0.id()
            != entries.drop_last()[i].0.id() by {
            assert(entries.drop_last()[j] == entries[j]);
        }
        lemma_last_entry_counts(entries.drop_last(), i);
    }
}

proof fn lemma_no_entry<K: Key, V: View>(entries: Seq<(K, V)>, key: K::Id)
    requires
        forall|j: int| 0 <= j < entries.len() ==> (#[trigger] entries[j]).0.id() != key,
    ensures
        !entries_map(entries).contains_key(key),
    decreases entries.len(),
{
    if entries.len() > 0 {
        assert(entries.last().0.id() != key);
        assert forall|j: int| 0 <= j < entries.drop_last().len() implies (#[trigger] entries.drop_last()[j]).0.id()
            != key by {
            assert(entries.drop_last()[j] == entries[j]);
        }
        lemma_no_entry(entries.drop_last(), key);
    }
}

impl<K: Key, V: View> View for Table<K, V> {
    type V = Map<K::Id, V::V>;

    closed spec fn view(&self) -> Map<K::Id, V::V> {
        entries_map(self.entries@)
    }
}

impl<K: Key, V: View> Table<K, V> {
    /// A table without entries.
    pub fn new() -> (table: Self)
        ensures
            table@ == Map::<K::Id, V::V>::empty(),
    {
        Table { entries: Vec::new() }
    }

    /// Lets `key` lead to `value`.
    pub fn insert(&mut self, key: K, value: V)
        ensures
            final(self)@ == old(self)@.insert(key.id(), value@),
    {
        let ghost before = self.entries@;
        self.entries.push((key, value));
        assert(self.entries@.drop_last() =~= before);
    }

    /// The value that `key` leads to.
    pub fn get(&self, key: &K) -> (value: Option<&V>)
        ensures
            match value {
                Some(v) => self@.contains_key(key.id()) && self@[key.id()] == v@,
                None => !self@.contains_key(key.id()),
            },
    {
        let mut i: usize = self.entries.len();
        while i > 0
            invariant
                i <= self.entries@.len(),
                forall|j: int| i <= j < self.entries@.len() ==> (#[trigger] self.entries@[j]).0.id() != key.id(),
            decreases i,
        {
            i = i - 1;
            if self.entries[i].0.same_key(key) {
                proof {
                    lemma_last_entry_counts(self.entries@, i as int);
                }
                return Some(&self.entries[i].1);
            }
        }
        proof {
            lemma_no_entry(self.entries@, key.id());
        }
        None
    }

    /// Whether `key` leads to a value.
    pub fn contains(&self, key: &K) -> (yes: bool)
        ensures
            yes == self@.contains_key(key.id()),
    {
        self.get(key).is_some()
    }
}

} // verus!
