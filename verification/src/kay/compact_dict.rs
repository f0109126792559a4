//! A small dictionary that keeps its entries in insertion order.
use vstd::prelude::*;
use super::ID;

verus! {

/// Keys of a `CDict`: copyable values with an executable equality.
pub trait DictKey: Copy {
    fn key_eq(&self, other: &Self) -> (b: bool)
        ensures
            b == (*self == *other),
    ;
}

impl DictKey for ID {
    fn key_eq(&self, other: &Self) -> (b: bool) {
        self.same(other)
    }
}

impl DictKey for usize {
    fn key_eq(&self, other: &Self) -> (b: bool) {
        *self == *other
    }
}

/// The keys of a sequence of entries.
pub open spec fn keys_of<K, V>(entries: Seq<(K, V)>) -> Seq<K> {
    entries.map_values(|e: (K, V)| e.0)
}

/// The map that a sequence of entries with distinct keys represents.
pub open spec fn map_of<K, V>(entries: Seq<(K, V)>) -> Map<K, V> {
    Map::new(
        |k: K| exists|i: int| 0 <= i < entries.len() && entries[i].0 == k,
        |k: K| entries[choose|i: int| 0 <= i < entries.len() && entries[i].0 == k].1,
    )
}

/// The entries after setting `key` to `value`: in place if `key` has an
/// entry, else appended.
pub open spec fn assoc_insert<K, V>(entries: Seq<(K, V)>, key: K, value: V) -> Seq<(K, V)> {
    if exists|i: int| 0 <= i < entries.len() && entries[i].0 == key {
        entries.update(choose|i: int| 0 <= i < entries.len() && entries[i].0 == key, (key, value))
    } else {
        entries.push((key, value))
    }
}

/// Whether an entry has another key than `key`.
pub open spec fn other_key<K, V>(key: K) -> spec_fn((K, V)) -> bool {
    |e: (K, V)| e.0 != key
}

/// A dictionary whose entries keep the order of first insertion.
#[derive(Clone, Debug)]
pub struct CDict<K, V> {
    pairs: Vec<(K, V)>,
}

impl<K: DictKey, V> CDict<K, V> {
    /// The entries, in insertion order.
    pub closed spec fn entries(&self) -> Seq<(K, V)> {
        self.pairs@
    }

    /// No key occurs twice.
    pub open spec fn wf(&self) -> bool {
        keys_of(self.entries()).no_duplicates()
    }

    /// The dictionary as a map.
    pub open spec fn as_map(&self) -> Map<K, V> {
        map_of(self.entries())
    }

    /// The entry at a position holds the map's value for its key.
    pub proof fn lemma_entry(&self, i: int)
        requires
            self.wf(),
            0 <= i < self.entries().len(),
        ensures
            self.as_map().contains_key(self.entries()[i].0),
            self.as_map()[self.entries()[i].0] == self.entries()[i].1,
    {
        let k = self.entries()[i].0;
        let j = choose|j: int| 0 <= j < self.entries().len() && self.entries()[j].0 == k;
        assert(keys_of(self.entries())[i] == k);
        assert(keys_of(self.entries())[j] == k);
    }

    /// An empty dictionary.
    pub fn new() -> (d: Self)
        ensures
            d.wf(),
            d.entries() == Seq::<(K, V)>::empty(),
    {
        let d = CDict { pairs: Vec::new() };
        assert(keys_of(d.entries()) =~= Seq::<K>::empty());
        d
    }

    /// The entries, in insertion order.
    pub fn into_entries(self) -> (v: Vec<(K, V)>)
        ensures
            v@ == self.entries(),
    {
        self.pairs
    }

    /// The number of entries.
    pub fn len(&self) -> (n: usize)
        ensures
            n == self.entries().len(),
    {
        self.pairs.len()
    }

    /// The entry at position `i`.
    pub fn pair_at(&self, i: usize) -> (e: &(K, V))
        requires
            i < self.entries().len(),
        ensures
            *e == self.entries()[i as int],
    {
        &self.pairs[i]
    }

    /// The position of `key`, if present.
    pub fn position(&self, key: K) -> (res: Option<usize>)
        requires
            self.wf(),
        ensures
            match res {
                Some(i) => i < self.entries().len() && self.entries()[i as int].0 == key,
                None => !self.as_map().contains_key(key),
            },
            res is Some <==> self.as_map().contains_key(key),
    {
        let mut i: usize = 0;
        while i < self.pairs.len()
            invariant
                self.wf(),
                i <= self.pairs@.len(),
                forall|j: int| 0 <= j < i ==> self.pairs@[j].0 != key,
            decreases self.pairs@.len() - i,
        {
            if self.pairs[i].0.key_eq(&key) {
                proof {
                    self.lemma_entry(i as int);
                }
                return Some(i);
            }
            i = i + 1;
        }
        proof {
            if self.as_map().contains_key(key) {
                let j = choose|j: int| 0 <= j < self.entries().len() && self.entries()[j].0 == key;
            }
        }
        None
    }

    /// Whether `key` has an entry.
    pub fn contains_key(&self, key: K) -> (b: bool)
        requires
            self.wf(),
        ensures
            b == self.as_map().contains_key(key),
    {
        self.position(key).is_some()
    }

    /// The value for `key`, if any.
    pub fn get(&self, key: K) -> (v: Option<&V>)
        requires
            self.wf(),
        ensures
            v == (if self.as_map().contains_key(key) {
                Some(&self.as_map()[key])
            } else {
                None
            }),
    {
        match self.position(key) {
            Some(i) => {
                proof {
                    self.lemma_entry(i as int);
                }
                Some(&self.pairs[i].1)
            },
            None => None,
        }
    }

    /// Sets the value for `key`: in place if it has an entry, else as a new
    /// last entry. Returns the previous value.
    pub fn insert(&mut self, key: K, value: V) -> (prev: Option<V>)
        requires
            old(self).wf(),
        ensures
            final(self).wf(),
            final(self).as_map() == old(self).as_map().insert(key, value),
            prev == (if old(self).as_map().contains_key(key) {
                Some(old(self).as_map()[key])
            } else {
                None
            }),
            old(self).as_map().contains_key(key) ==> keys_of(final(self).entries()) == keys_of(old(self).entries()),
            !old(self).as_map().contains_key(key) ==> final(self).entries() == old(self).entries().push((key, value)),
            final(self).entries() == assoc_insert(old(self).entries(), key, value),
    {
        let ghost before = self.pairs@;
        match self.position(key) {
            Some(i) => {
                proof {
                    self.lemma_entry(i as int);
                }
                let (_k, old_value) = self.pairs.remove(i);
                self.pairs.insert(i, (key, value));
                proof {
                    assert(self.pairs@ =~= before.update(i as int, (key, value)));
                    let c = choose|c: int| 0 <= c < before.len() && before[c].0 == key;
                    assert(keys_of(before)[c] == keys_of(before)[i as int]);
                    assert(keys_of(self.pairs@) =~= keys_of(before));
                    assert(map_of(self.pairs@) =~= map_of(before).insert(key, value)) by {
                        assert forall|k: K| #[trigger] map_of(self.pairs@).contains_key(k) implies map_of(
                            before,
                        ).insert(key, value).contains_key(k) && map_of(self.pairs@)[k] == map_of(before).insert(
                            key,
                            value,
                        )[k] by {
                            let j = choose|j: int| 0 <= j < self.pairs@.len() && self.pairs@[j].0 == k;
                            assert(before[j].0 == k);
                            if k != key {
                                let j2 = choose|j2: int| 0 <= j2 < before.len() && before[j2].0 == k;
                                assert(keys_of(before)[j] == keys_of(before)[j2]);
                            } else {
                                assert(keys_of(self.pairs@)[j] == keys_of(self.pairs@)[i as int]);
                            }
                        }
                        assert forall|k: K| #[trigger] map_of(before).contains_key(k) implies map_of(
                            self.pairs@,
                        ).contains_key(k) by {
                            let j = choose|j: int| 0 <= j < before.len() && before[j].0 == k;
                            assert(self.pairs@[j].0 == k);
                        }
                        assert(self.pairs@[i as int].0 == key);
                    }
                }
                Some(old_value)
            },
            None => {
                self.pairs.push((key, value));
                proof {
                    assert(keys_of(self.pairs@) =~= keys_of(before).push(key));
                    assert(!keys_of(before).contains(key)) by {
                        if keys_of(before).contains(key) {
                            let j = choose|j: int| 0 <= j < keys_of(before).len() && keys_of(before)[j] == key;
                            assert(before[j].0 == key);
                        }
                    }
                    assert(map_of(self.pairs@) =~= map_of(before).insert(key, value)) by {
                        assert forall|k: K| #[trigger] map_of(self.pairs@).contains_key(k) implies map_of(
                            before,
                        ).insert(key, value).contains_key(k) && map_of(self.pairs@)[k] == map_of(before).insert(
                            key,
                            value,
                        )[k] by {
                            let j = choose|j: int| 0 <= j < self.pairs@.len() && self.pairs@[j].0 == k;
                            if k != key {
                                assert(before[j].0 == k);
                                let j2 = choose|j2: int| 0 <= j2 < before.len() && before[j2].0 == k;
                                assert(keys_of(self.pairs@)[j] == keys_of(self.pairs@)[j2]);
                            } else {
                                assert(keys_of(self.pairs@)[j] == keys_of(self.pairs@)[before.len() as int]);
                            }
                        }
                        assert forall|k: K| #[trigger] map_of(before).contains_key(k) implies map_of(
                            self.pairs@,
                        ).contains_key(k) by {
                            let j = choose|j: int| 0 <= j < before.len() && before[j].0 == k;
                            assert(self.pairs@[j].0 == k);
                        }
                        assert(self.pairs@[before.len() as int].0 == key);
                    }
                }
                None
            },
        }
    }

    /// Removes the entry for `key`, keeping the order of the others; returns
    /// its value.
    pub fn remove(&mut self, key: K) -> (prev: Option<V>)
        requires
            old(self).wf(),
        ensures
            final(self).wf(),
            final(self).as_map() == old(self).as_map().remove(key),
            prev == (if old(self).as_map().contains_key(key) {
                Some(old(self).as_map()[key])
            } else {
                None
            }),
            final(self).entries() == old(self).entries().filter(other_key(key)),
    {
        let ghost before = self.pairs@;
        assert(other_key::<K, V>(key) =~= (|e: (K, V)| e.0 != key));
        match self.position(key) {
            Some(i) => {
                proof {
                    self.lemma_entry(i as int);
                }
                let (_k, value) = self.pairs.remove(i);
                proof {
                    lemma_remove_at(before, i as int);
                }
                Some(value)
            },
            None => {
                proof {
                    assert forall|j: int| 0 <= j < before.len() implies before[j].0 != key by {
                        if before[j].0 == key {
                            assert(map_of(before).contains_key(key));
                        }
                    }
                    lemma_filter_none(before, key);
                }
                None
            },
        }
    }
}

impl<K: DictKey, V: Clone> CDict<K, V> {
    /// A copy with the same keys in the same order, each value a clone.
    pub fn duplicate(&self) -> (d: Self)
        ensures
            d.entries().len() == self.entries().len(),
            forall|k: int|
                0 <= k < self.entries().len() ==> (#[trigger] d.entries()[k]).0 == self.entries()[k].0 && cloned(
                    self.entries()[k].1,
                    d.entries()[k].1,
                ),
            keys_of(d.entries()) == keys_of(self.entries()),
    {
        let mut pairs: Vec<(K, V)> = Vec::new();
        let mut i: usize = 0;
        while i < self.pairs.len()
            invariant
                i <= self.pairs@.len(),
                pairs@.len() == i,
                forall|k: int|
                    0 <= k < i ==> (#[trigger] pairs@[k]).0 == self.pairs@[k].0 && cloned(self.pairs@[k].1, pairs@[k].1),
            decreases self.pairs@.len() - i,
        {
            let value = self.pairs[i].1.clone();
            pairs.push((self.pairs[i].0, value));
            i = i + 1;
        }
        let d = CDict { pairs };
        assert(keys_of(d.entries()) =~= keys_of(self.entries()));
        d
    }
}

impl<K: DictKey, V> CDict<K, V> {
    /// Replaces the value of the entry at position `i`.
    pub fn set_value_at(&mut self, i: usize, value: V)
        requires
            old(self).wf(),
            i < old(self).entries().len(),
        ensures
            final(self).wf(),
            final(self).entries() == old(self).entries().update(i as int, (old(self).entries()[i as int].0, value)),
    {
        let ghost before = self.pairs@;
        let (key, _old_value) = self.pairs.remove(i);
        self.pairs.insert(i, (key, value));
        proof {
            assert(self.pairs@ =~= before.update(i as int, (before[i as int].0, value)));
            assert(keys_of(self.pairs@) =~= keys_of(before));
        }
    }
}

impl<K: DictKey, V> CDict<K, V> {
    /// Puts `value` in place of the value of the entry at position `i`, and
    /// returns the value it held.
    pub fn replace_value_at(&mut self, i: usize, value: V) -> (prev: V)
        requires
            old(self).wf(),
            i < old(self).entries().len(),
        ensures
            final(self).wf(),
            prev == old(self).entries()[i as int].1,
            final(self).entries() == old(self).entries().update(i as int, (old(self).entries()[i as int].0, value)),
    {
        let ghost before = self.pairs@;
        let (key, old_value) = self.pairs.remove(i);
        self.pairs.insert(i, (key, value));
        proof {
            assert(self.pairs@ =~= before.update(i as int, (before[i as int].0, value)));
            assert(keys_of(self.pairs@) =~= keys_of(before));
        }
        old_value
    }
}

impl<K: DictKey, V> CDict<K, Vec<V>> {
    /// Appends `item` to the list of `key`, starting a new list if it has none.
    pub fn push_at(&mut self, key: K, item: V)
        requires
            old(self).wf(),
        ensures
            final(self).wf(),
            final(self).as_map().dom() == old(self).as_map().dom().insert(key),
            forall|k: K| k != key && old(self).as_map().contains_key(k) ==> final(self).as_map()[k] == old(self).as_map()[k],
            final(self).as_map()[key]@ == (if old(self).as_map().contains_key(key) {
                old(self).as_map()[key]@
            } else {
                Seq::<V>::empty()
            }).push(item),
            keys_of(final(self).entries()) == (if old(self).as_map().contains_key(key) {
                keys_of(old(self).entries())
            } else {
                keys_of(old(self).entries()).push(key)
            }),
    {
        let ghost before = self.pairs@;
        match self.position(key) {
            Some(i) => {
                proof {
                    self.lemma_entry(i as int);
                }
                self.pairs[i].1.push(item);
                proof {
                    assert(keys_of(self.pairs@) =~= keys_of(before));
                    assert forall|k: K| #[trigger] map_of(self.pairs@).contains_key(k) <==> map_of(before).contains_key(k) by {
                        if map_of(self.pairs@).contains_key(k) {
                            let j = choose|j: int| 0 <= j < self.pairs@.len() && self.pairs@[j].0 == k;
                            assert(before[j].0 == k);
                        }
                        if map_of(before).contains_key(k) {
                            let j = choose|j: int| 0 <= j < before.len() && before[j].0 == k;
                            assert(self.pairs@[j].0 == k);
                        }
                    }
                    assert(map_of(self.pairs@).dom() =~= map_of(before).dom().insert(key));
                    assert forall|k: K| k != key && map_of(before).contains_key(k) implies map_of(self.pairs@)[k]
                        == map_of(before)[k] by {
                        let j = choose|j: int| 0 <= j < before.len() && before[j].0 == k;
                        let j2 = choose|j2: int| 0 <= j2 < self.pairs@.len() && self.pairs@[j2].0 == k;
                        assert(keys_of(before)[j] == keys_of(before)[j2]);
                        assert(j != i);
                    }
                    self.lemma_entry(i as int);
                }
            },
            None => {
                let mut items = Vec::new();
                items.push(item);
                self.insert(key, items);
                proof {
                    assert(keys_of(self.pairs@) =~= keys_of(before).push(key));
                }
            },
        }
    }
}

/// Removing the only entry of a key is filtering it out, and removes it from the map.
proof fn lemma_remove_at<K, V>(entries: Seq<(K, V)>, i: int)
    requires
        keys_of(entries).no_duplicates(),
        0 <= i < entries.len(),
    ensures
        entries.remove(i) == entries.filter(|e: (K, V)| e.0 != entries[i].0),
        keys_of(entries.remove(i)).no_duplicates(),
        map_of(entries.remove(i)) == map_of(entries).remove(entries[i].0),
    decreases entries.len(),
{
    let key = entries[i].0;
    let f = |e: (K, V)| e.0 != key;
    assert forall|j: int| 0 <= j < entries.len() && j != i implies entries[j].0 != key by {
        assert(keys_of(entries)[j] != keys_of(entries)[i]);
    }
    lemma_filter_skip_one(entries, i, key);
    let r = entries.remove(i);
    assert(keys_of(r) =~= keys_of(entries).remove(i));
    assert(keys_of(r).no_duplicates()) by {
        assert forall|a: int, b: int| 0 <= a < b < keys_of(r).len() implies keys_of(r)[a] != keys_of(r)[b] by {
            let a2 = if a < i { a } else { a + 1 };
            let b2 = if b < i { b } else { b + 1 };
            assert(keys_of(entries)[a2] != keys_of(entries)[b2]);
        }
    }
    assert(map_of(r) =~= map_of(entries).remove(key)) by {
        assert forall|k: K| #[trigger] map_of(r).contains_key(k) implies map_of(entries).remove(key).contains_key(k)
            && map_of(r)[k] == map_of(entries).remove(key)[k] by {
            let j = choose|j: int| 0 <= j < r.len() && r[j].0 == k;
            let j2 = if j < i { j } else { j + 1 };
            assert(entries[j2].0 == k);
            let j3 = choose|j3: int| 0 <= j3 < entries.len() && entries[j3].0 == k;
            assert(keys_of(entries)[j3] == keys_of(entries)[j2]);
        }
        assert forall|k: K| #[trigger] map_of(entries).contains_key(k) && k != key implies map_of(r).contains_key(k) by {
            let j = choose|j: int| 0 <= j < entries.len() && entries[j].0 == k;
            assert(r[if j < i { j } else { j - 1 }].0 == k);
        }
    }
}

/// Filtering by key drops exactly position `i` when only it holds the key.
proof fn lemma_filter_skip_one<K, V>(entries: Seq<(K, V)>, i: int, key: K)
    requires
        0 <= i < entries.len(),
        entries[i].0 == key,
        forall|j: int| 0 <= j < entries.len() && j != i ==> entries[j].0 != key,
    ensures
        entries.remove(i) == entries.filter(|e: (K, V)| e.0 != key),
    decreases entries.len(),
{
    let f = |e: (K, V)| e.0 != key;
    reveal_with_fuel(Seq::filter, 1);
    if i == entries.len() - 1 {
        lemma_filter_none(entries.drop_last(), key);
        assert(entries.drop_last() =~= entries.remove(i));
        assert(entries.filter(f) == entries.drop_last().filter(f));
    } else {
        lemma_filter_skip_one(entries.drop_last(), i, key);
        assert(entries.drop_last().remove(i).push(entries.last()) =~= entries.remove(i));
        assert(entries.filter(f) == entries.drop_last().filter(f).push(entries.last()));
    }
}

/// Filtering out an absent key changes nothing.
proof fn lemma_filter_none<K, V>(entries: Seq<(K, V)>, key: K)
    requires
        forall|j: int| 0 <= j < entries.len() ==> entries[j].0 != key,
    ensures
        entries.filter(|e: (K, V)| e.0 != key) == entries,
    decreases entries.len(),
{
    let f = |e: (K, V)| e.0 != key;
    reveal_with_fuel(Seq::filter, 1);
    if entries.len() > 0 {
        lemma_filter_none(entries.drop_last(), key);
        assert(entries.drop_last().push(entries.last()) =~= entries);
    } else {
        assert(entries.filter(f) =~= entries);
    }
}

} // verus!
