//! A map kept as a vector of entries in ascending key order.

use crate::order::{
    ascending, lemma_ascending_unique, lemma_before_asymmetric, Key, KeyPredicate, Rank,
};
use vstd::prelude::*;

verus! {

/// The keys of `entries`, in order.
pub open spec fn entry_keys<K, V>(entries: Seq<(K, V)>) -> Seq<K> {
    entries.map_values(|entry: (K, V)| entry.0)
}

/// The value that `entries` holds for `key`.
pub open spec fn entry_value<K, V>(entries: Seq<(K, V)>, key: K) -> V {
    entries[choose|i: int| 0 <= i < entries.len() && (#[trigger] entries[i]).0 == key].1
}

/// The map that `entries` stands for.
pub open spec fn entries_map<K, V>(entries: Seq<(K, V)>) -> Map<K, V> {
    Map::new(
        |key: K| entry_keys(entries).contains(key),
        |key: K| entry_value(entries, key),
    )
}

/// A map from ordered keys to values.
pub struct OrderedMap<K, V> {
    items: Vec<(K, V)>,
}

impl<K: Key, V> View for OrderedMap<K, V> {
    type V = Map<K, V>;

    open spec fn view(&self) -> Map<K, V> {
        entries_map(self.entries())
    }
}

/// What a map's entries say about its view.
pub proof fn lemma_entries<K: Key, V>(entries: Seq<(K, V)>)
    requires
        ascending(entry_keys(entries)),
    ensures
        forall|i: int| #![trigger entries[i]]
            0 <= i < entries.len() ==> entries_map(entries).contains_key(entries[i].0)
                && entries_map(entries)[entries[i].0] == entries[i].1,
        forall|key: K| #[trigger] entries_map(entries).contains_key(key) ==> exists|i: int|
            0 <= i < entries.len() && (#[trigger] entries[i]).0 == key,
        entry_keys(entries).to_set() =~= entries_map(entries).dom(),
        entries_map(entries).dom().finite(),
        entries_map(entries).dom().len() == entries.len(),
{
    let keys = entry_keys(entries);
    assert forall|i: int| #![trigger entries[i]] 0 <= i < entries.len() implies entries_map(
        entries,
    ).contains_key(entries[i].0) && entries_map(entries)[entries[i].0] == entries[i].1 by {
        assert(keys[i] == entries[i].0);
        assert(keys.contains(entries[i].0));
        let j = choose|j: int| 0 <= j < entries.len() && (#[trigger] entries[j]).0 == entries[i].0;
        assert(0 <= j < entries.len() && entries[j].0 == entries[i].0);
        if i < j {
            assert(keys[i].before(keys[j]));
            lemma_before_asymmetric(keys[i], keys[j]);
        } else if j < i {
            assert(keys[j].before(keys[i]));
            lemma_before_asymmetric(keys[j], keys[i]);
        }
    }
    assert forall|key: K| #[trigger] entries_map(entries).contains_key(key) implies exists|i: int|
        0 <= i < entries.len() && (#[trigger] entries[i]).0 == key by {
        assert(keys.contains(key));
        let i = choose|i: int| 0 <= i < keys.len() && keys[i] == key;
        assert(entries[i].0 == key);
    }
    assert(keys.to_set() =~= entries_map(entries).dom());
    crate::order::lemma_ascending_distinct(keys);
    keys.unique_seq_to_set();
}

impl<K: Key, V> OrderedMap<K, V> {
    /// The entries, in ascending key order.
    pub closed spec fn entries(self) -> Seq<(K, V)> {
        self.items@
    }

    /// The keys, in ascending order.
    pub open spec fn keys(self) -> Seq<K> {
        entry_keys(self.entries())
    }

    /// Entries are stored in strictly ascending key order.
    pub open spec fn wf(self) -> bool {
        ascending(self.keys())
    }

    /// An empty map.
    pub fn new() -> (map: Self)
        ensures
            map.wf(),
            map.entries() == Seq::<(K, V)>::empty(),
            map@ == Map::<K, V>::empty(),
    {
        let map = OrderedMap { items: Vec::new() };
        assert(map@ =~= Map::<K, V>::empty());
        map
    }

    /// The number of entries.
    pub fn len(&self) -> (len: usize)
        requires
            self.wf(),
        ensures
            len == self.entries().len(),
            len == self@.dom().len(),
            self@.dom().finite(),
    {
        proof {
            lemma_entries(self.entries());
        }
        self.items.len()
    }

    /// The key at position `index`.
    pub fn key_at(&self, index: usize) -> (key: &K)
        requires
            index < self.entries().len(),
        ensures
            *key == self.entries()[index as int].0,
    {
        &self.items[index].0
    }

    /// The value at position `index`.
    pub fn value_at(&self, index: usize) -> (value: &V)
        requires
            index < self.entries().len(),
        ensures
            *value == self.entries()[index as int].1,
    {
        &self.items[index].1
    }

    /// Where `key` is, or where it would go.
    fn search(&self, key: &K) -> (found: (bool, usize))
        requires
            self.wf(),
        ensures
            found.0 == self@.contains_key(*key),
            found.1 <= self.items@.len(),
            found.0 ==> found.1 < self.items@.len() && self.items@[found.1 as int].0 == *key
                && self@[*key] == self.items@[found.1 as int].1,
            forall|i: int| 0 <= i < found.1 ==> (#[trigger] self.items@[i]).0.before(*key),
            forall|i: int|
                found.1 <= i < self.items@.len() && !(found.0 && i == found.1) ==> key.before(
                    (#[trigger] self.items@[i]).0,
                ),
    {
        let mut low: usize = 0;
        let mut high: usize = self.items.len();
        proof {
            lemma_entries(self.entries());
        }
        while low < high
            invariant
                self.wf(),
                0 <= low <= high <= self.items@.len(),
                forall|i: int| 0 <= i < low ==> (#[trigger] self.items@[i]).0.before(*key),
                forall|i: int| high <= i < self.items@.len() ==> key.before((#[trigger] self.items@[i]).0),
                forall|i: int| #![trigger self.entries()[i]]
                    0 <= i < self.entries().len() ==> self@.contains_key(self.entries()[i].0)
                        && self@[self.entries()[i].0] == self.entries()[i].1,
            decreases high - low,
        {
            let middle: usize = low + (high - low) / 2;
            assert(self.keys()[middle as int] == self.entries()[middle as int].0);
            match self.items[middle].0.rank(key) {
                Rank::Less => {
                    assert forall|i: int| 0 <= i < middle + 1 implies (#[trigger] self.items@[i]).0.before(
                        *key,
                    ) by {
                        if i < middle {
                            assert(self.keys()[i].before(self.keys()[middle as int]));
                            K::transitive(self.items@[i].0, self.items@[middle as int].0, *key);
                        }
                    }
                    low = middle + 1;
                },
                Rank::Greater => {
                    assert forall|i: int| middle <= i < self.items@.len() implies key.before(
                        (#[trigger] self.items@[i]).0,
                    ) by {
                        if middle < i {
                            assert(self.keys()[middle as int].before(self.keys()[i]));
                            K::transitive(*key, self.items@[middle as int].0, self.items@[i].0);
                        }
                    }
                    high = middle;
                },
                Rank::Equal => {
                    assert forall|i: int| 0 <= i < middle implies (#[trigger] self.items@[i]).0.before(
                        *key,
                    ) by {
                        assert(self.keys()[i].before(self.keys()[middle as int]));
                    }
                    assert forall|i: int| middle < i < self.items@.len() implies key.before(
                        (#[trigger] self.items@[i]).0,
                    ) by {
                        assert(self.keys()[middle as int].before(self.keys()[i]));
                    }
                    return (true, middle);
                },
            }
        }
        assert(!self@.contains_key(*key)) by {
            lemma_entries(self.entries());
            if self@.contains_key(*key) {
                let i = choose|i: int|
                    0 <= i < self.entries().len() && (#[trigger] self.entries()[i]).0 == *key;
                K::irreflexive(*key);
                assert(self.items@[i].0 == *key);
            }
        }
        (false, low)
    }

    /// The value stored for `key`.
    pub fn get(&self, key: &K) -> (value: Option<&V>)
        requires
            self.wf(),
        ensures
            match value {
                Some(value) => self@.contains_key(*key) && *value == self@[*key],
                None => !self@.contains_key(*key),
            },
    {
        let (found, index) = self.search(key);
        if found {
            Some(&self.items[index].1)
        } else {
            None
        }
    }

    /// Whether `key` has a value.
    pub fn contains_key(&self, key: &K) -> (found: bool)
        requires
            self.wf(),
        ensures
            found == self@.contains_key(*key),
    {
        self.search(key).0
    }

    /// Stores `value` for `key` and hands back the value it replaces.
    pub fn insert(&mut self, key: K, value: V) -> (replaced: Option<V>)
        requires
            old(self).wf(),
        ensures
            final(self).wf(),
            final(self)@ == old(self)@.insert(key, value),
            replaced == (if old(self)@.contains_key(key) {
                Some(old(self)@[key])
            } else {
                None
            }),
            final(self).entries().len() == old(self).entries().len() + (if old(self)@.contains_key(key) {
                0int
            } else {
                1int
            }),
    {
        let ghost before = self.entries();
        let (found, index) = self.search(&key);
        proof {
            lemma_entries(before);
        }
        if found {
            let ghost copy = key;
            let mut entry: (K, V) = (key, value);
            std::mem::swap(&mut self.items[index], &mut entry);
            assert(self.entries() =~= before.update(index as int, (copy, value)));
            proof {
                let after = self.entries();
                assert(entry_keys(after) =~= entry_keys(before));
                lemma_entries(after);
                assert(after[index as int] == (copy, value));
                assert(entries_map(after) =~= entries_map(before).insert(copy, value)) by {
                    assert forall|k: K| #[trigger] entries_map(after).contains_key(k) implies entries_map(
                        after,
                    )[k] == entries_map(before).insert(copy, value)[k] by {
                        let i = choose|i: int| 0 <= i < after.len() && (#[trigger] after[i]).0 == k;
                        assert(before[i].0 == k);
                        if i != index {
                            assert(after[i] == before[i]);
                            assert(entry_keys(before)[i] == k);
                            assert(entry_keys(before)[index as int] == copy);
                            crate::order::lemma_ascending_distinct(entry_keys(before));
                        }
                    }
                }
            }
            Some(entry.1)
        } else {
            let ghost copy = key;
            self.items.insert(index, (key, value));
            proof {
                let after = self.entries();
                assert(after =~= before.insert(index as int, (copy, value)));
                lemma_insert(before, index as int, copy, value);
            }
            None
        }
    }

    /// Drops the entry for `key` and hands back its value.
    pub fn remove(&mut self, key: &K) -> (removed: Option<V>)
        requires
            old(self).wf(),
        ensures
            final(self).wf(),
            final(self)@ == old(self)@.remove(*key),
            removed == (if old(self)@.contains_key(*key) {
                Some(old(self)@[*key])
            } else {
                None
            }),
            final(self).entries().len() == old(self).entries().len() - (if old(self)@.contains_key(*key) {
                1int
            } else {
                0int
            }),
    {
        let ghost before = self.entries();
        let (found, index) = self.search(key);
        if found {
            let entry = self.items.remove(index);
            proof {
                lemma_remove(before, index as int);
            }
            Some(entry.1)
        } else {
            assert(self@.remove(*key) =~= self@);
            None
        }
    }

    /// Drops the entry at position `index`.
    pub fn remove_at(&mut self, index: usize) -> (removed: (K, V))
        requires
            old(self).wf(),
            index < old(self).entries().len(),
        ensures
            final(self).wf(),
            removed == old(self).entries()[index as int],
            final(self).entries() == old(self).entries().remove(index as int),
            final(self)@ == old(self)@.remove(removed.0),
            old(self)@.contains_key(removed.0),
            old(self)@[removed.0] == removed.1,
    {
        let ghost before = self.entries();
        let entry = self.items.remove(index);
        proof {
            lemma_entries(before);
            lemma_remove(before, index as int);
            assert(self.entries() =~= before.remove(index as int));
        }
        entry
    }

    /// Keeps the entries whose keys meet a condition.
    pub fn retain<P: KeyPredicate<K>>(&mut self, keep: &P)
        requires
            old(self).wf(),
        ensures
            final(self).wf(),
            final(self)@ == old(self)@.restrict(Set::new(|key: K| keep.holds(key))),
    {
        let ghost before = self@;
        let mut i: usize = 0;
        while i < self.items.len()
            invariant
                self.wf(),
                i <= self.items@.len(),
                forall|j: int| 0 <= j < i ==> keep.holds((#[trigger] self.items@[j]).0),
                forall|key: K| #[trigger] self@.contains_key(key) ==> before.contains_key(key)
                    && before[key] == self@[key],
                forall|key: K|
                    #[trigger] before.contains_key(key) && !self@.contains_key(key) ==> !keep.holds(key),
            decreases self.items@.len() - i,
        {
            if keep.test(&self.items[i].0) {
                i += 1;
            } else {
                let ghost dropped = self.items@[i as int].0;
                let ghost middle = self.items@;
                self.remove_at(i);
                assert(self.items@ =~= middle.remove(i as int));
            }
        }
        proof {
            lemma_entries(self.entries());
            assert(self@ =~= before.restrict(Set::new(|key: K| keep.holds(key)))) by {
                assert forall|key: K| #[trigger] self@.contains_key(key) implies keep.holds(key) by {
                    let j = choose|j: int|
                        0 <= j < self.entries().len() && (#[trigger] self.entries()[j]).0 == key;
                    assert(self.items@[j].0 == key);
                }
            }
        }
    }
}

proof fn lemma_insert<K: Key, V>(before: Seq<(K, V)>, index: int, key: K, value: V)
    requires
        ascending(entry_keys(before)),
        0 <= index <= before.len(),
        forall|i: int| 0 <= i < index ==> (#[trigger] before[i]).0.before(key),
        forall|i: int| index <= i < before.len() ==> key.before((#[trigger] before[i]).0),
    ensures
        ascending(entry_keys(before.insert(index, (key, value)))),
        entries_map(before.insert(index, (key, value))) == entries_map(before).insert(key, value),
{
    let after = before.insert(index, (key, value));
    let keys = entry_keys(after);
    assert forall|i: int, j: int| 0 <= i < j < keys.len() implies #[trigger] keys[i].before(
        #[trigger] keys[j],
    ) by {
        let i2 = if i < index { i } else { i - 1 };
        let j2 = if j < index { j } else { j - 1 };
        if i != index && j != index {
            assert(entry_keys(before)[i2].before(entry_keys(before)[j2]));
        } else if i == index {
            assert(before[j2].0 == keys[j]);
        } else {
            assert(before[i2].0 == keys[i]);
        }
    }
    lemma_entries(after);
    lemma_entries(before);
    assert(after[index] == (key, value));
    assert(entries_map(after) =~= entries_map(before).insert(key, value)) by {
        assert forall|k: K| entries_map(after).contains_key(k) implies #[trigger] entries_map(before).insert(
            key,
            value,
        ).contains_key(k) by {
            let i = choose|i: int| 0 <= i < after.len() && (#[trigger] after[i]).0 == k;
            if i < index {
                assert(before[i] == after[i]);
            } else if i > index {
                assert(before[i - 1] == after[i]);
            }
        }
        assert forall|k: K| #[trigger] entries_map(before).insert(key, value).contains_key(
            k,
        ) implies entries_map(after).contains_key(k) && entries_map(after)[k] == entries_map(before).insert(
            key,
            value,
        )[k] by {
            if k != key {
                let i = choose|i: int| 0 <= i < before.len() && (#[trigger] before[i]).0 == k;
                if i < index {
                    assert(after[i] == before[i]);
                } else {
                    assert(after[i + 1] == before[i]);
                }
            }
        }
    }
}

proof fn lemma_remove<K: Key, V>(before: Seq<(K, V)>, index: int)
    requires
        ascending(entry_keys(before)),
        0 <= index < before.len(),
    ensures
        ascending(entry_keys(before.remove(index))),
        entries_map(before.remove(index)) == entries_map(before).remove(before[index].0),
{
    let after = before.remove(index);
    let keys = entry_keys(after);
    assert forall|i: int, j: int| 0 <= i < j < keys.len() implies #[trigger] keys[i].before(
        #[trigger] keys[j],
    ) by {
        let i2 = if i < index { i } else { i + 1 };
        let j2 = if j < index { j } else { j + 1 };
        assert(entry_keys(before)[i2].before(entry_keys(before)[j2]));
    }
    lemma_entries(after);
    lemma_entries(before);
    crate::order::lemma_ascending_distinct(entry_keys(before));
    let key = before[index].0;
    assert(entries_map(after) =~= entries_map(before).remove(key)) by {
        assert forall|k: K| #[trigger] entries_map(after).contains_key(k) implies entries_map(before).remove(
            key,
        ).contains_key(k) by {
            let i = choose|i: int| 0 <= i < after.len() && (#[trigger] after[i]).0 == k;
            let i2 = if i < index { i } else { i + 1 };
            assert(before[i2] == after[i]);
            assert(entry_keys(before)[i2] == k);
            assert(entry_keys(before)[index] == key);
        }
        assert forall|k: K| #[trigger] entries_map(before).remove(key).contains_key(k) implies entries_map(
            after,
        ).contains_key(k) && entries_map(after)[k] == entries_map(before).remove(key)[k] by {
            let i = choose|i: int| 0 <= i < before.len() && (#[trigger] before[i]).0 == k;
            let i2 = if i < index { i } else { i - 1 };
            assert(after[i2] == before[i]);
        }
    }
}

/// The keys of `map`, in ascending order.
pub open spec fn sorted_keys<K: Key, V>(map: Map<K, V>) -> Seq<K> {
    choose|sorted: Seq<K>| #[trigger] ascending(sorted) && sorted.to_set() =~= map.dom()
}

impl<K: Key, V> OrderedMap<K, V> {
    /// The keys, in ascending order.
    pub fn key_list(&self) -> (keys: Vec<K>)
        requires
            self.wf(),
        ensures
            keys@ == self.keys(),
            keys@ == sorted_keys(self@),
            ascending(keys@),
            keys@.to_set() == self@.dom(),
    {
        let mut keys: Vec<K> = Vec::new();
        let mut i: usize = 0;
        while i < self.items.len()
            invariant
                i <= self.items@.len(),
                keys@ == self.keys().take(i as int),
            decreases self.items@.len() - i,
        {
            keys.push(self.items[i].0.duplicate());
            assert(self.keys().take(i + 1) =~= self.keys().take(i as int).push(self.keys()[i as int]));
            i += 1;
        }
        proof {
            assert(keys@ =~= self.keys());
            lemma_entries(self.entries());
            lemma_ascending_unique(keys@, sorted_keys(self@));
        }
        keys
    }
}

impl<K: Key, V: Copy> OrderedMap<K, V> {
    /// The entries, in ascending key order.
    pub fn entry_list(&self) -> (entries: Vec<(K, V)>)
        requires
            self.wf(),
        ensures
            entries@ == self.entries(),
            entries_map(entries@) == self@,
            entry_keys(entries@) == sorted_keys(self@),
    {
        let mut items: Vec<(K, V)> = Vec::new();
        let mut i: usize = 0;
        while i < self.items.len()
            invariant
                i <= self.items@.len(),
                items@ == self.items@.take(i as int),
            decreases self.items@.len() - i,
        {
            items.push((self.items[i].0.duplicate(), self.items[i].1));
            assert(self.items@.take(i + 1) =~= self.items@.take(i as int).push(self.items@[i as int]));
            i += 1;
        }
        proof {
            assert(items@ =~= self.items@);
            lemma_entries(self.entries());
            lemma_ascending_unique(self.keys(), sorted_keys(self@));
        }
        items
    }

    /// Copies the map.
    pub fn copied(&self) -> (copy: Self)
        requires
            self.wf(),
        ensures
            copy.wf(),
            copy@ == self@,
    {
        OrderedMap { items: self.entry_list() }
    }

    /// Stores every entry of `other`.
    pub fn extend(&mut self, other: &Self)
        requires
            old(self).wf(),
            other.wf(),
        ensures
            final(self).wf(),
            final(self)@ == old(self)@.union_prefer_right(other@),
    {
        let ghost before = self@;
        proof {
            lemma_entries(other.entries());
        }
        let mut i: usize = 0;
        while i < other.items.len()
            invariant
                self.wf(),
                other.wf(),
                i <= other.items@.len(),
                forall|j: int| #![trigger other.entries()[j]]
                    0 <= j < other.entries().len() ==> other@.contains_key(other.entries()[j].0)
                        && other@[other.entries()[j].0] == other.entries()[j].1,
                forall|key: K| #[trigger] self@.contains_key(key) ==> before.contains_key(key)
                    || other@.contains_key(key),
                forall|key: K| #[trigger] before.contains_key(key) ==> self@.contains_key(key),
                forall|j: int| #![trigger other.entries()[j]]
                    0 <= j < i ==> self@.contains_key(other.entries()[j].0)
                        && self@[other.entries()[j].0] == other.entries()[j].1,
                forall|key: K| #[trigger] self@.contains_key(key) && !other@.contains_key(key)
                    ==> self@[key] == before[key],
            decreases other.items@.len() - i,
        {
            let ghost entry = other.entries()[i as int];
            let ghost middle = self@;
            self.insert(other.items[i].0.duplicate(), other.items[i].1);
            proof {
                assert(self@ == middle.insert(entry.0, entry.1));
                crate::order::lemma_ascending_distinct(other.keys());
                assert forall|j: int| #![trigger other.entries()[j]] 0 <= j < i + 1 implies self@.contains_key(
                    other.entries()[j].0,
                ) && self@[other.entries()[j].0] == other.entries()[j].1 by {
                    assert(other.keys()[j] == other.entries()[j].0);
                    assert(other.keys()[i as int] == entry.0);
                }
            }
            i += 1;
        }
        proof {
            lemma_entries(other.entries());
            assert(self@ =~= before.union_prefer_right(other@)) by {
                assert forall|key: K| #[trigger] other@.contains_key(key) implies self@.contains_key(key)
                    && self@[key] == other@[key] by {
                    let j = choose|j: int|
                        0 <= j < other.entries().len() && (#[trigger] other.entries()[j]).0 == key;
                    assert(other.entries()[j].0 == key);
                }
            }
        }
    }
}

/// The distinct keys of `keys`, in ascending order.
pub open spec fn sorted_set<K: Key>(keys: Seq<K>) -> Seq<K> {
    choose|sorted: Seq<K>| #[trigger] ascending(sorted) && sorted.to_set() =~= keys.to_set()
}

/// The distinct keys of `keys`, in ascending order.
pub fn sort_set<K: Key>(keys: &Vec<K>) -> (sorted: Vec<K>)
    ensures
        ascending(sorted@),
        sorted@.to_set() == keys@.to_set(),
        sorted@ == sorted_set(keys@),
{
    let mut set: OrderedMap<K, ()> = OrderedMap::new();
    let mut i: usize = 0;
    while i < keys.len()
        invariant
            set.wf(),
            i <= keys@.len(),
            forall|key: K| #[trigger] set@.contains_key(key) <==> keys@.take(i as int).contains(key),
        decreases keys@.len() - i,
    {
        set.insert(keys[i].duplicate(), ());
        proof {
            assert(keys@.take(i + 1) =~= keys@.take(i as int).push(keys@[i as int]));
            broadcast use vstd::seq_lib::lemma_seq_contains_after_push;

        }
        i += 1;
    }
    assert(keys@.take(keys@.len() as int) =~= keys@);
    let mut sorted: Vec<K> = Vec::new();
    let mut k: usize = 0;
    while k < set.len()
        invariant
            set.wf(),
            k <= set.entries().len(),
            sorted@ == set.keys().take(k as int),
        decreases set.entries().len() - k,
    {
        sorted.push(set.key_at(k).duplicate());
        assert(set.keys().take(k + 1) =~= set.keys().take(k as int).push(set.keys()[k as int]));
        k += 1;
    }
    proof {
        lemma_entries(set.entries());
        assert(sorted@ =~= set.keys());
        assert(sorted@.to_set() =~= keys@.to_set()) by {
            assert forall|key: K| #[trigger] sorted@.to_set().contains(key) <==> keys@.to_set().contains(
                key,
            ) by {
                assert(set.keys().to_set().contains(key) <==> set@.dom().contains(key));
                assert(set@.contains_key(key) <==> keys@.contains(key));
            }
        }
        assert(ascending(sorted@));
        lemma_ascending_unique(sorted@, sorted_set(keys@));
    }
    sorted
}

/// Ascending keys are their own sorted set.
pub proof fn lemma_sorted_set_of_ascending<K: Key>(keys: Seq<K>)
    requires
        ascending(keys),
    ensures
        sorted_set(keys) == keys,
        keys.no_duplicates(),
{
    lemma_ascending_unique(keys, sorted_set(keys));
    crate::order::lemma_ascending_distinct(keys);
}

/// A sequence repeats nothing exactly where it is as long as its sorted set.
pub proof fn lemma_set_size<K: Key>(keys: Seq<K>, sorted: Seq<K>)
    requires
        ascending(sorted),
        sorted.to_set() == keys.to_set(),
    ensures
        keys.no_duplicates() <==> sorted.len() == keys.len(),
{
    crate::order::lemma_ascending_distinct(sorted);
    sorted.unique_seq_to_set();
    keys.lemma_cardinality_of_set();
    if keys.no_duplicates() {
        keys.unique_seq_to_set();
    }
    if sorted.len() == keys.len() {
        keys.lemma_no_dup_set_cardinality();
    }
}

/// Where `key` goes in ascending keys.
spec fn place_for<K: Key>(sorted: Seq<K>, key: K) -> int
    decreases sorted.len(),
{
    if sorted.len() == 0 {
        0
    } else if sorted.last().before(key) {
        sorted.len() as int
    } else {
        place_for(sorted.drop_last(), key)
    }
}

proof fn lemma_place<K: Key>(sorted: Seq<K>, key: K)
    requires
        ascending(sorted),
        !sorted.contains(key),
    ensures
        0 <= place_for(sorted, key) <= sorted.len(),
        forall|i: int| 0 <= i < place_for(sorted, key) ==> (#[trigger] sorted[i]).before(key),
        forall|i: int| place_for(sorted, key) <= i < sorted.len() ==> key.before(#[trigger] sorted[i]),
    decreases sorted.len(),
{
    if sorted.len() > 0 {
        let front = sorted.drop_last();
        let last = sorted.last();
        assert(sorted[sorted.len() - 1] == last);
        if last.before(key) {
            assert forall|i: int| 0 <= i < sorted.len() implies (#[trigger] sorted[i]).before(key) by {
                if i < sorted.len() - 1 {
                    assert(sorted[i].before(sorted[sorted.len() - 1]));
                    K::transitive(sorted[i], last, key);
                }
            }
        } else {
            assert forall|i: int, j: int| 0 <= i < j < front.len() implies #[trigger] front[i].before(
                #[trigger] front[j],
            ) by {
                assert(sorted[i].before(sorted[j]));
            }
            assert(!front.contains(key)) by {
                if front.contains(key) {
                    let i = choose|i: int| 0 <= i < front.len() && front[i] == key;
                    assert(sorted[i] == key);
                }
            }
            lemma_place(front, key);
            K::total(last, key);
            assert forall|i: int| 0 <= i < place_for(sorted, key) implies (#[trigger] sorted[i]).before(
                key,
            ) by {
                assert(front[i].before(key));
            }
            assert forall|i: int| place_for(sorted, key) <= i < sorted.len() implies key.before(
                #[trigger] sorted[i],
            ) by {
                if i < front.len() {
                    assert(key.before(front[i]));
                }
            }
        }
    }
}

proof fn lemma_sorted_exists<K: Key>(keys: Seq<K>)
    ensures
        exists|sorted: Seq<K>| #[trigger] ascending(sorted) && sorted.to_set() =~= keys.to_set(),
    decreases keys.len(),
{
    if keys.len() == 0 {
        assert(ascending(Seq::<K>::empty()));
        assert(Seq::<K>::empty().to_set() =~= keys.to_set());
    } else {
        let front = keys.drop_last();
        let key = keys.last();
        lemma_sorted_exists(front);
        let sorted = choose|sorted: Seq<K>| #[trigger]
            ascending(sorted) && sorted.to_set() =~= front.to_set();
        assert forall|k: K| #[trigger] keys.contains(k) <==> front.contains(k) || k == key by {
            if front.contains(k) {
                let i = choose|i: int| 0 <= i < front.len() && front[i] == k;
                assert(keys[i] == k);
            }
            if keys.contains(k) && k != key {
                let i = choose|i: int| 0 <= i < keys.len() && keys[i] == k;
                assert(front[i] == k);
            }
            assert(keys[keys.len() - 1] == key);
        }
        assert forall|k: K| #[trigger] sorted.contains(k) <==> front.contains(k) by {
            assert(sorted.to_set().contains(k) <==> front.to_set().contains(k));
        }
        if sorted.contains(key) {
            assert(sorted.to_set() =~= keys.to_set());
        } else {
            lemma_place(sorted, key);
            let place = place_for(sorted, key);
            let all = sorted.insert(place, key);
            assert forall|i: int, j: int| 0 <= i < j < all.len() implies #[trigger] all[i].before(
                #[trigger] all[j],
            ) by {
                let i2 = if i < place { i } else { i - 1 };
                let j2 = if j < place { j } else { j - 1 };
                if i != place && j != place {
                    assert(sorted[i2].before(sorted[j2]));
                } else if i == place {
                    assert(key.before(sorted[j2]));
                } else {
                    assert(sorted[i2].before(key));
                }
            }
            assert forall|k: K| #[trigger] all.contains(k) <==> keys.contains(k) by {
                assert(all[place] == key);
                if all.contains(k) {
                    let i = choose|i: int| 0 <= i < all.len() && all[i] == k;
                    if i < place {
                        assert(sorted[i] == k);
                    } else if i > place {
                        assert(sorted[i - 1] == k);
                    }
                }
                if sorted.contains(k) {
                    let i = choose|i: int| 0 <= i < sorted.len() && sorted[i] == k;
                    if i < place {
                        assert(all[i] == k);
                    } else {
                        assert(all[i + 1] == k);
                    }
                }
            }
            assert(all.to_set() =~= keys.to_set());
            assert(ascending(all));
        }
    }
}

/// The sorted set of keys ascends and holds exactly those keys.
pub proof fn lemma_sorted_set<K: Key>(keys: Seq<K>)
    ensures
        ascending(sorted_set(keys)),
        sorted_set(keys).to_set() == keys.to_set(),
{
    lemma_sorted_exists(keys);
}

/// The sorted keys of a finite map ascend and are exactly its keys.
pub proof fn lemma_sorted_keys<K: Key, V>(map: Map<K, V>)
    requires
        map.dom().finite(),
    ensures
        ascending(sorted_keys(map)),
        sorted_keys(map).to_set() == map.dom(),
{
    let listing = map.dom().to_seq();
    map.dom().lemma_to_seq_to_set_id();
    lemma_sorted_exists(listing);
    let sorted = choose|sorted: Seq<K>| #[trigger]
        ascending(sorted) && sorted.to_set() =~= listing.to_set();
    assert(ascending(sorted) && sorted.to_set() =~= map.dom());
}

} // verus!
