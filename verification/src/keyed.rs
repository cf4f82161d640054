//! A list of entries under distinct keys that remembers the order in which the
//! keys first came. The index of paths, the cache of genres, the genres per
//! track and the working set of a task are all such lists.

use vstd::prelude::*;
use crate::ids::CatalogKey;

verus! {

/// The first position of `entries` that stands under `key`, if there is one.
pub open spec fn key_position<A>(entries: Seq<(Seq<char>, A)>, key: Seq<char>) -> Option<int>
    decreases entries.len(),
{
    if entries.len() == 0 {
        None
    } else {
        match key_position(entries.drop_last(), key) {
            Some(i) => Some(i),
            None => if entries.last().0 == key {
                Some(entries.len() - 1)
            } else {
                None
            },
        }
    }
}

/// No key stands at two positions.
pub open spec fn distinct_keys<A>(entries: Seq<(Seq<char>, A)>) -> bool {
    forall|i: int, j: int|
        0 <= i < j < entries.len() ==> (#[trigger] entries[i]).0 != (#[trigger] entries[j]).0
}

/// The value under `key`, if there is one.
pub open spec fn lookup<A>(entries: Seq<(Seq<char>, A)>, key: Seq<char>) -> Option<A> {
    match key_position(entries, key) {
        Some(i) => Some(entries[i].1),
        None => None,
    }
}

/// `entries` with `value` under `key`: in the place of the value that stood
/// under `key` before, or else at the end.
pub open spec fn upsert<A>(entries: Seq<(Seq<char>, A)>, key: Seq<char>, value: A) -> Seq<
    (Seq<char>, A),
> {
    match key_position(entries, key) {
        Some(i) => entries.update(i, (key, value)),
        None => entries.push((key, value)),
    }
}

/// The entries as a map from key to value.
pub open spec fn as_map<A>(entries: Seq<(Seq<char>, A)>) -> Map<Seq<char>, A> {
    Map::new(
        |key: Seq<char>| key_position(entries, key) is Some,
        |key: Seq<char>| entries[key_position(entries, key).unwrap()].1,
    )
}

/// `key_position` finds the first position under the key, and finds none only
/// where no position stands under it.
pub proof fn lemma_key_position<A>(entries: Seq<(Seq<char>, A)>, key: Seq<char>)
    ensures
        match key_position(entries, key) {
            Some(i) => 0 <= i < entries.len() && entries[i].0 == key && forall|j: int|
                0 <= j < i ==> (#[trigger] entries[j]).0 != key,
            None => forall|j: int| 0 <= j < entries.len() ==> (#[trigger] entries[j]).0 != key,
        },
    decreases entries.len(),
{
    if entries.len() > 0 {
        let front = entries.drop_last();
        lemma_key_position(front, key);
        match key_position(front, key) {
            Some(i) => {
                assert(front[i] == entries[i]);
                assert forall|j: int| 0 <= j < i implies (#[trigger] entries[j]).0 != key by {
                    assert(front[j] == entries[j]);
                }
            },
            None => {
                assert forall|j: int| 0 <= j < entries.len() - 1 implies (#[trigger] entries[j]).0
                    != key by {
                    assert(front[j] == entries[j]);
                }
            },
        }
    }
}

/// The first position under a key is the one that `key_position` gives.
pub proof fn lemma_key_position_is<A>(entries: Seq<(Seq<char>, A)>, key: Seq<char>, at: int)
    requires
        0 <= at < entries.len(),
        entries[at].0 == key,
        forall|j: int| 0 <= j < at ==> (#[trigger] entries[j]).0 != key,
    ensures
        key_position(entries, key) == Some(at),
{
    lemma_key_position(entries, key);
}

/// Where no position stands under a key, `key_position` gives none.
pub proof fn lemma_key_position_none<A>(entries: Seq<(Seq<char>, A)>, key: Seq<char>)
    requires
        forall|j: int| 0 <= j < entries.len() ==> (#[trigger] entries[j]).0 != key,
    ensures
        key_position(entries, key) is None,
{
    lemma_key_position(entries, key);
}

/// Putting a value under a key keeps the keys distinct, leaves every other
/// key's value alone, and as a map is an insertion: the last write wins.
pub proof fn lemma_upsert<A>(entries: Seq<(Seq<char>, A)>, key: Seq<char>, value: A)
    requires
        distinct_keys(entries),
    ensures
        distinct_keys(upsert(entries, key, value)),
        lookup(upsert(entries, key, value), key) == Some(value),
        forall|other: Seq<char>|
            other != key ==> #[trigger] key_position(upsert(entries, key, value), other)
                == key_position(entries, other),
        forall|other: Seq<char>|
            other != key ==> #[trigger] lookup(upsert(entries, key, value), other) == lookup(
                entries,
                other,
            ),
        as_map(upsert(entries, key, value)) == as_map(entries).insert(key, value),
{
    let after = upsert(entries, key, value);
    lemma_key_position(entries, key);
    match key_position(entries, key) {
        Some(i) => {
            assert forall|a: int, b: int| 0 <= a < b < after.len() implies (#[trigger] after[a]).0
                != (#[trigger] after[b]).0 by {
                assert(entries[a].0 != entries[b].0);
            }
            lemma_key_position_is(after, key, i);
        },
        None => {
            assert forall|a: int, b: int| 0 <= a < b < after.len() implies (#[trigger] after[a]).0
                != (#[trigger] after[b]).0 by {
                if b < entries.len() {
                    assert(entries[a].0 != entries[b].0);
                }
            }
            lemma_key_position_is(after, key, entries.len() as int);
        },
    }
    assert forall|other: Seq<char>| other != key implies #[trigger] key_position(after, other)
        == key_position(entries, other) by {
        lemma_key_position(entries, other);
        match key_position(entries, other) {
            Some(i) => {
                lemma_key_position_is(after, other, i);
            },
            None => {
                lemma_key_position_none(after, other);
            },
        }
    }
    assert forall|other: Seq<char>| other != key implies #[trigger] lookup(after, other) == lookup(
        entries,
        other,
    ) by {
        lemma_key_position(entries, other);
    }
    assert(as_map(after) =~= as_map(entries).insert(key, value)) by {
        assert forall|k: Seq<char>| #[trigger]
            as_map(after).dom().contains(k) == as_map(entries).insert(key, value).dom().contains(
                k,
            ) by {
            if k != key {
                assert(key_position(after, k) == key_position(entries, k));
            }
        }
        assert forall|k: Seq<char>| #[trigger] as_map(after).dom().contains(k) implies as_map(
            after,
        )[k] == as_map(entries).insert(key, value)[k] by {
            if k != key {
                assert(key_position(after, k) == key_position(entries, k));
                lemma_key_position(entries, k);
            }
        }
    }
}

/// Entries under distinct keys, in the order in which the keys first came.
#[derive(Debug)]
pub struct KeyedList<K, T> {
    items: Vec<(K, T)>,
}

impl<K: CatalogKey, T: DeepView> View for KeyedList<K, T> {
    type V = Map<Seq<char>, <T as DeepView>::V>;

    open spec fn view(&self) -> Map<Seq<char>, <T as DeepView>::V> {
        as_map(self.entries())
    }
}

impl<K: CatalogKey, T: DeepView> KeyedList<K, T> {
    /// The entries in order, each as the text of its key and the view of its
    /// value.
    pub closed spec fn entries(&self) -> Seq<(Seq<char>, <T as DeepView>::V)> {
        Seq::new(
            self.items@.len(),
            |i: int| (self.items@[i].0.text(), self.items@[i].1.deep_view()),
        )
    }

    /// The keys are distinct.
    pub open spec fn wf(&self) -> bool {
        distinct_keys(self.entries())
    }

    /// A list without entries.
    pub fn new() -> (list: Self)
        ensures
            list.wf(),
            list.entries() == Seq::<(Seq<char>, <T as DeepView>::V)>::empty(),
            list@ == Map::<Seq<char>, <T as DeepView>::V>::empty(),
    {
        let list = KeyedList { items: Vec::new() };
        assert(list.entries() =~= Seq::<(Seq<char>, <T as DeepView>::V)>::empty());
        assert(list@ =~= Map::<Seq<char>, <T as DeepView>::V>::empty());
        list
    }

    /// The number of entries.
    pub fn len(&self) -> (n: usize)
        ensures
            n == self.entries().len(),
    {
        self.items.len()
    }

    /// Whether there is no entry.
    pub fn is_empty(&self) -> (empty: bool)
        ensures
            empty == (self.entries().len() == 0),
    {
        self.items.len() == 0
    }

    /// The position of the entry under `key`.
    pub fn position(&self, key: &K) -> (at: Option<usize>)
        ensures
            match at {
                Some(i) => key_position(self.entries(), key.text()) == Some(i as int),
                None => key_position(self.entries(), key.text()) is None,
            },
    {
        let mut i: usize = 0;
        while i < self.items.len()
            invariant
                i <= self.items.len(),
                forall|j: int| 0 <= j < i ==> (#[trigger] self.entries()[j]).0 != key.text(),
            decreases self.items.len() - i,
        {
            if self.items[i].0.same_text(key) {
                proof {
                    lemma_key_position_is(self.entries(), key.text(), i as int);
                }
                return Some(i);
            }
            i += 1;
        }
        proof {
            lemma_key_position_none(self.entries(), key.text());
        }
        None
    }

    /// Whether an entry stands under `key`.
    pub fn contains_key(&self, key: &K) -> (found: bool)
        ensures
            found == self@.contains_key(key.text()),
    {
        self.position(key).is_some()
    }

    /// The value under `key`.
    pub fn get(&self, key: &K) -> (value: Option<&T>)
        ensures
            match value {
                Some(v) => lookup(self.entries(), key.text()) == Some(v.deep_view()),
                None => lookup(self.entries(), key.text()) is None,
            },
            match value {
                Some(v) => self@.contains_key(key.text()) && self@[key.text()] == v.deep_view(),
                None => !self@.contains_key(key.text()),
            },
    {
        match self.position(key) {
            Some(i) => {
                proof {
                    lemma_key_position(self.entries(), key.text());
                }
                Some(&self.items[i].1)
            },
            None => None,
        }
    }

    /// The key of the entry at position `at`.
    pub fn key_at(&self, at: usize) -> (key: &K)
        requires
            at < self.entries().len(),
        ensures
            key.text() == self.entries()[at as int].0,
    {
        &self.items[at].0
    }

    /// The value of the entry at position `at`.
    pub fn value_at(&self, at: usize) -> (value: &T)
        requires
            at < self.entries().len(),
        ensures
            value.deep_view() == self.entries()[at as int].1,
    {
        &self.items[at].1
    }

    /// Puts `value` under `key`. A value that stood under `key` is replaced,
    /// keeps its place in the order, and is handed back.
    pub fn insert(&mut self, key: K, value: T) -> (replaced: Option<T>)
        requires
            old(self).wf(),
        ensures
            final(self).wf(),
            final(self).entries() == upsert(old(self).entries(), key.text(), value.deep_view()),
            final(self)@ == old(self)@.insert(key.text(), value.deep_view()),
            match replaced {
                Some(v) => lookup(old(self).entries(), key.text()) == Some(v.deep_view()),
                None => lookup(old(self).entries(), key.text()) is None,
            },
    {
        proof {
            lemma_upsert(self.entries(), key.text(), value.deep_view());
            lemma_key_position(self.entries(), key.text());
        }
        let ghost before = self.entries();
        match self.position(&key) {
            Some(i) => {
                self.items.push((key, value));
                let (_, was) = self.items.swap_remove(i);
                assert(self.entries() =~= before.update(i as int, (key.text(), value.deep_view())));
                Some(was)
            },
            None => {
                self.items.push((key, value));
                assert(self.entries() =~= before.push((key.text(), value.deep_view())));
                None
            },
        }
    }

    /// Adds an entry under a key that the list does not hold yet.
    pub(crate) fn push_absent(&mut self, key: K, value: T)
        requires
            old(self).wf(),
            key_position(old(self).entries(), key.text()) is None,
        ensures
            final(self).wf(),
            final(self).entries() == old(self).entries().push((key.text(), value.deep_view())),
    {
        let ghost before = self.entries();
        proof {
            lemma_upsert(before, key.text(), value.deep_view());
        }
        self.items.push((key, value));
        assert(self.entries() =~= before.push((key.text(), value.deep_view())));
    }

    /// Puts `value` in the place of the value at position `at`, and hands the
    /// earlier value back.
    pub fn replace_at(&mut self, at: usize, value: T) -> (was: T)
        requires
            old(self).wf(),
            at < old(self).entries().len(),
        ensures
            final(self).wf(),
            final(self).entries() == old(self).entries().update(
                at as int,
                (old(self).entries()[at as int].0, value.deep_view()),
            ),
            was.deep_view() == old(self).entries()[at as int].1,
    {
        let ghost before = self.entries();
        let key = self.items[at].0.duplicate();
        self.items.push((key, value));
        let (_, was) = self.items.swap_remove(at);
        proof {
            let after = self.entries();
            assert(after =~= before.update(at as int, (before[at as int].0, value.deep_view())));
            assert forall|a: int, b: int| 0 <= a < b < after.len() implies (#[trigger] after[a]).0
                != (#[trigger] after[b]).0 by {
                assert(before[a].0 != before[b].0);
            }
        }
        was
    }
}

} // verus!
