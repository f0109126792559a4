//! Resources: the registry of resource names and the `Bag` of resource values
//! a household or place holds.
use vstd::prelude::*;

verus! {

/// Identifies a resource type.
#[derive(Clone, Copy, PartialEq, Eq, PartialOrd, Ord, Hash, Default, Debug, Structural)]
pub struct ResourceId(pub u16);

impl crate::kay::DictKey for ResourceId {
    fn key_eq(&self, other: &Self) -> (b: bool) {
        self.0 == other.0
    }
}

/// Name and description of a resource type.
pub struct ResourceDescription(pub String, pub String);

/// All known resource types. Ids are handed out in order of registration;
/// registering a name again makes the name refer to the newer id.
pub struct ResourceRegistry {
    next_id: ResourceId,
    name_to_id: Vec<(String, ResourceId)>,
    id_to_info: Vec<ResourceDescription>,
}

impl ResourceRegistry {
    /// The id the next registered resource gets.
    pub closed spec fn spec_next_id(&self) -> u16 {
        self.next_id.0
    }

    /// Which id each registered name refers to.
    pub closed spec fn names(&self) -> Map<Seq<char>, u16> {
        Map::new(
            |name: Seq<char>| exists|k: int| 0 <= k < self.name_to_id@.len() && self.name_to_id@[k].0@ == name,
            |name: Seq<char>|
                self.name_to_id@[choose|k: int|
                    0 <= k < self.name_to_id@.len() && self.name_to_id@[k].0@ == name].1 .0,
        )
    }

    /// Name and description of each registered id.
    pub closed spec fn infos(&self) -> Map<u16, (Seq<char>, Seq<char>)> {
        Map::new(
            |id: u16| (id as int) < self.id_to_info@.len(),
            |id: u16| (self.id_to_info@[id as int].0@, self.id_to_info@[id as int].1@),
        )
    }

    pub closed spec fn wf(&self) -> bool {
        &&& self.id_to_info@.len() == self.next_id.0
        &&& forall|a: int, b: int|
            0 <= a < b < self.name_to_id@.len() ==> self.name_to_id@[a].0@ != self.name_to_id@[b].0@
        &&& forall|k: int| 0 <= k < self.name_to_id@.len() ==> self.name_to_id@[k].1 .0 < self.next_id.0
    }

    /// An empty registry.
    pub fn new() -> (r: Self)
        ensures
            r.wf(),
            r.spec_next_id() == 0,
            r.names() == Map::<Seq<char>, u16>::empty(),
            r.infos() == Map::<u16, (Seq<char>, Seq<char>)>::empty(),
    {
        let r = ResourceRegistry { next_id: ResourceId(0), name_to_id: Vec::new(), id_to_info: Vec::new() };
        assert(r.names() =~= Map::<Seq<char>, u16>::empty());
        assert(r.infos() =~= Map::<u16, (Seq<char>, Seq<char>)>::empty());
        r
    }

    /// Position of `resource` among the registered names.
    fn position_of(&self, resource: &str) -> (res: Option<usize>)
        ensures
            match res {
                Some(k) => k < self.name_to_id@.len() && self.name_to_id@[k as int].0@ == resource@,
                None => forall|k: int| 0 <= k < self.name_to_id@.len() ==> self.name_to_id@[k].0@ != resource@,
            },
    {
        let query = resource.to_owned();
        let mut k: usize = 0;
        while k < self.name_to_id.len()
            invariant
                k <= self.name_to_id@.len(),
                query@ == resource@,
                forall|j: int| 0 <= j < k ==> self.name_to_id@[j].0@ != resource@,
            decreases self.name_to_id@.len() - k,
        {
            if self.name_to_id[k].0 == query {
                return Some(k);
            }
            k = k + 1;
        }
        None
    }

    /// Registers resource `resource` with `description` under the next id.
    pub fn add(&mut self, resource: &str, description: &str)
        requires
            old(self).wf(),
            old(self).spec_next_id() < u16::MAX,
        ensures
            final(self).wf(),
            final(self).spec_next_id() == old(self).spec_next_id() + 1,
            final(self).names() == old(self).names().insert(resource@, old(self).spec_next_id()),
            final(self).infos() == old(self).infos().insert(
                old(self).spec_next_id(),
                (resource@, description@),
            ),
    {
        let ghost before = *self;
        let id = self.next_id;
        let pos = self.position_of(resource);
        match pos {
            Some(k) => {
                self.name_to_id.set(k, (resource.to_owned(), id));
            },
            None => {
                self.name_to_id.push((resource.to_owned(), id));
            },
        }
        self.id_to_info.push(ResourceDescription(resource.to_owned(), description.to_owned()));
        self.next_id = ResourceId(id.0 + 1);
        proof {
            assert forall|a: int, b: int|
                0 <= a < b < self.name_to_id@.len() implies self.name_to_id@[a].0@ != self.name_to_id@[b].0@ by {
                if b < before.name_to_id@.len() {
                    assert(before.name_to_id@[a].0@ != before.name_to_id@[b].0@);
                }
            }
            assert(self.names() =~= before.names().insert(resource@, before.next_id.0)) by {
                assert forall|name: Seq<char>| #[trigger] self.names().contains_key(name) implies
                    before.names().insert(resource@, before.next_id.0).contains_key(name)
                    && self.names()[name] == before.names().insert(resource@, before.next_id.0)[name] by {
                    let k = choose|k: int| 0 <= k < self.name_to_id@.len() && self.name_to_id@[k].0@ == name;
                    if name != resource@ {
                        assert(before.name_to_id@[k].0@ == name);
                        let kb = choose|kb: int| 0 <= kb < before.name_to_id@.len() && before.name_to_id@[kb].0@ == name;
                        assert(kb == k);
                    }
                }
                assert forall|name: Seq<char>| #[trigger] before.names().contains_key(name) implies
                    self.names().contains_key(name) by {
                    let k = choose|k: int| 0 <= k < before.name_to_id@.len() && before.name_to_id@[k].0@ == name;
                    if name != resource@ {
                        match pos {
                            Some(p) => { assert(p != k); },
                            None => {},
                        }
                        assert(self.name_to_id@[k].0@ == name);
                    } else {
                        match pos {
                            Some(p) => { assert(self.name_to_id@[p as int].0@ == resource@); },
                            None => { assert(self.name_to_id@[before.name_to_id@.len() as int].0@ == resource@); },
                        }
                    }
                }
                match pos {
                    Some(k) => {
                        assert(self.name_to_id@[k as int].0@ == resource@);
                    },
                    None => {
                        assert(self.name_to_id@[before.name_to_id@.len() as int].0@ == resource@);
                    },
                }
                assert(self.names().contains_key(resource@));
            }
            assert(self.infos() =~= before.infos().insert(before.next_id.0, (resource@, description@)));
        }
    }

    /// The id that name `resource` refers to.
    pub fn id(&self, resource: &str) -> (id: ResourceId)
        requires
            self.wf(),
            self.names().contains_key(resource@),
        ensures
            id.0 == self.names()[resource@],
    {
        match self.position_of(resource) {
            Some(k) => {
                proof {
                    let kk = choose|kk: int|
                        0 <= kk < self.name_to_id@.len() && self.name_to_id@[kk].0@ == resource@;
                    assert(kk == k);
                }
                self.name_to_id[k].1
            },
            None => {
                proof {
                    let kk = choose|kk: int|
                        0 <= kk < self.name_to_id@.len() && self.name_to_id@[kk].0@ == resource@;
                }
                unreached()
            },
        }
    }
}


/// A resource value, carried as the bit pattern of its `f32`.
pub type ResourceValue = u32;

/// Resource values keyed by resource, kept sorted by resource id.
#[derive(Clone, Default, Debug)]
pub struct Bag {
    entries: Vec<(ResourceId, ResourceValue)>,
}

/// The entries are sorted by strictly increasing resource id.
pub open spec fn sorted_keys(entries: Seq<(ResourceId, ResourceValue)>) -> bool {
    forall|a: int, b: int| 0 <= a < b < entries.len() ==> entries[a].0 .0 < entries[b].0 .0
}

/// The value each entry holds, by resource.
pub open spec fn entries_map(entries: Seq<(ResourceId, ResourceValue)>) -> Map<ResourceId, ResourceValue> {
    Map::new(
        |key: ResourceId| exists|k: int| 0 <= k < entries.len() && entries[k].0 == key,
        |key: ResourceId| entries[choose|k: int| 0 <= k < entries.len() && entries[k].0 == key].1,
    )
}

/// Overwriting the value of an entry overwrites it in the map.
proof fn lemma_entries_update(entries: Seq<(ResourceId, ResourceValue)>, i: int, w: ResourceValue)
    requires
        sorted_keys(entries),
        0 <= i < entries.len(),
    ensures
        sorted_keys(entries.update(i, (entries[i].0, w))),
        entries_map(entries.update(i, (entries[i].0, w))) == entries_map(entries).insert(entries[i].0, w),
{
    let key = entries[i].0;
    let e2 = entries.update(i, (key, w));
    assert(entries_map(e2) =~= entries_map(entries).insert(key, w)) by {
        assert forall|q: ResourceId| #[trigger] entries_map(e2).contains_key(q) implies entries_map(
            entries,
        ).insert(key, w).contains_key(q) && entries_map(e2)[q] == entries_map(entries).insert(key, w)[q] by {
            let k = choose|k: int| 0 <= k < e2.len() && e2[k].0 == q;
            assert(entries[k].0 == q);
            if q != key {
                let k1 = choose|k1: int| 0 <= k1 < entries.len() && entries[k1].0 == q;
                assert(k1 == k);
            }
        }
        assert forall|q: ResourceId| #[trigger] entries_map(entries).contains_key(q) implies entries_map(
            e2,
        ).contains_key(q) by {
            let k = choose|k: int| 0 <= k < entries.len() && entries[k].0 == q;
            assert(e2[k].0 == q);
        }
        assert(e2[i].0 == key);
    }
}

/// Inserting an entry at its sorted position adds it to the map.
proof fn lemma_entries_insert(entries: Seq<(ResourceId, ResourceValue)>, i: int, key: ResourceId, w: ResourceValue)
    requires
        sorted_keys(entries),
        0 <= i <= entries.len(),
        forall|k: int| 0 <= k < i ==> entries[k].0 .0 < key.0,
        forall|k: int| i <= k < entries.len() ==> entries[k].0 .0 > key.0,
    ensures
        sorted_keys(entries.insert(i, (key, w))),
        entries_map(entries.insert(i, (key, w))) == entries_map(entries).insert(key, w),
{
    let e2 = entries.insert(i, (key, w));
    assert forall|a: int, b: int| 0 <= a < b < e2.len() implies e2[a].0 .0 < e2[b].0 .0 by {
        if b < i {
        } else if b == i {
        } else if a < i {
        } else if a == i {
        } else {
            assert(e2[a] == entries[a - 1]);
            assert(e2[b] == entries[b - 1]);
        }
    }
    assert(entries_map(e2) =~= entries_map(entries).insert(key, w)) by {
        assert forall|q: ResourceId| #[trigger] entries_map(e2).contains_key(q) implies entries_map(
            entries,
        ).insert(key, w).contains_key(q) && entries_map(e2)[q] == entries_map(entries).insert(key, w)[q] by {
            let k = choose|k: int| 0 <= k < e2.len() && e2[k].0 == q;
            if q != key {
                let kk = if k < i { k } else { k - 1 };
                assert(entries[kk].0 == q);
                let k1 = choose|k1: int| 0 <= k1 < entries.len() && entries[k1].0 == q;
                assert(e2[if k1 < i { k1 } else { k1 + 1 }].0 == q);
            } else {
                assert(k == i);
            }
        }
        assert forall|q: ResourceId| #[trigger] entries_map(entries).contains_key(q) implies entries_map(
            e2,
        ).contains_key(q) by {
            let k = choose|k: int| 0 <= k < entries.len() && entries[k].0 == q;
            assert(e2[if k < i { k } else { k + 1 }].0 == q);
        }
        assert(e2[i].0 == key);
    }
}

impl Bag {
    /// The entries in order.
    pub closed spec fn entries(&self) -> Seq<(ResourceId, ResourceValue)> {
        self.entries@
    }

    pub open spec fn wf(&self) -> bool {
        sorted_keys(self.entries())
    }

    /// The value held for each resource.
    pub open spec fn as_map(&self) -> Map<ResourceId, ResourceValue> {
        entries_map(self.entries())
    }

    /// The number of entries.
    pub fn len(&self) -> (n: usize)
        ensures
            n == self.entries().len(),
    {
        self.entries.len()
    }

    /// A bag with the same entries.
    pub fn duplicate(&self) -> (bag: Bag)
        ensures
            bag.entries() == self.entries(),
    {
        let mut entries: Vec<(ResourceId, ResourceValue)> = Vec::new();
        let mut k: usize = 0;
        while k < self.entries.len()
            invariant
                k <= self.entries@.len(),
                entries@ == self.entries@.subrange(0, k as int),
            decreases self.entries@.len() - k,
        {
            entries.push(self.entries[k]);
            proof {
                assert(self.entries@.subrange(0, k + 1) =~= self.entries@.subrange(0, k as int).push(self.entries@[k as int]));
            }
            k = k + 1;
        }
        proof {
            assert(self.entries@.subrange(0, k as int) =~= self.entries@);
        }
        Bag { entries }
    }

    /// An empty bag.
    pub fn new() -> (bag: Bag)
        ensures
            bag.wf(),
            bag.entries() == Seq::<(ResourceId, ResourceValue)>::empty(),
    {
        Bag { entries: Vec::new() }
    }

    /// The position of `key` (`Ok`) or where it would be inserted (`Err`).
    fn search(&self, key: ResourceId) -> (res: Result<usize, usize>)
        requires
            self.wf(),
        ensures
            match res {
                Ok(i) => i < self.entries().len() && self.entries()[i as int].0 == key,
                Err(i) => i <= self.entries().len() && (forall|k: int| 0 <= k < i ==> self.entries()[k].0 .0 < key.0)
                    && (forall|k: int| i <= k < self.entries().len() ==> self.entries()[k].0 .0 > key.0),
            },
    {
        let mut lo: usize = 0;
        let mut hi: usize = self.entries.len();
        while lo < hi
            invariant
                lo <= hi <= self.entries@.len(),
                self.wf(),
                forall|k: int| 0 <= k < lo ==> self.entries@[k].0 .0 < key.0,
                forall|k: int| hi <= k < self.entries@.len() ==> self.entries@[k].0 .0 >= key.0,
            decreases hi - lo,
        {
            let mid = lo + (hi - lo) / 2;
            if self.entries[mid].0 .0 < key.0 {
                lo = mid + 1;
            } else {
                hi = mid;
            }
        }
        if lo < self.entries.len() && self.entries[lo].0 .0 == key.0 {
            Ok(lo)
        } else {
            Err(lo)
        }
    }

    /// The value held for `key`, if any.
    pub fn get(&self, key: ResourceId) -> (v: Option<&ResourceValue>)
        requires
            self.wf(),
        ensures
            v == (if self.as_map().contains_key(key) {
                Some(&self.as_map()[key])
            } else {
                None
            }),
    {
        match self.search(key) {
            Ok(i) => {
                proof {
                    let k = choose|k: int| 0 <= k < self.entries().len() && self.entries()[k].0 == key;
                    assert(k == i as int);
                }
                Some(&self.entries[i].1)
            },
            Err(i) => {
                proof {
                    if self.as_map().contains_key(key) {
                        let k = choose|k: int| 0 <= k < self.entries().len() && self.entries()[k].0 == key;
                    }
                }
                None
            },
        }
    }

    /// Like `mut_entry_or`, for a value that holds an id's bits rather than
    /// an amount: both read and write the same stored bits.
    pub fn mut_entry_or_id(&mut self, key: ResourceId, default: u32) -> (v: &mut u32)
        requires
            old(self).wf(),
        ensures
            *v == (if old(self).as_map().contains_key(key) {
                old(self).as_map()[key]
            } else {
                default
            }),
            final(self).wf(),
            final(self).as_map() == old(self).as_map().insert(key, *final(v)),
    {
        self.mut_entry_or(key, default)
    }

    /// The value held for `key`, after inserting `default` for it if it had none.
    pub fn mut_entry_or(&mut self, key: ResourceId, default: ResourceValue) -> (v: &mut ResourceValue)
        requires
            old(self).wf(),
        ensures
            *v == (if old(self).as_map().contains_key(key) {
                old(self).as_map()[key]
            } else {
                default
            }),
            final(self).wf(),
            final(self).as_map() == old(self).as_map().insert(key, *final(v)),
    {
        match self.search(key) {
            Ok(index) => {
                proof {
                    let k = choose|k: int| 0 <= k < self.entries().len() && self.entries()[k].0 == key;
                    assert(k == index as int);
                    assert forall|w: ResourceValue| #![auto]
                        entries_map(self.entries@.update(index as int, (key, w))) == entries_map(
                            self.entries@,
                        ).insert(key, w) && sorted_keys(self.entries@.update(index as int, (key, w))) by {
                        lemma_entries_update(self.entries@, index as int, w);
                    }
                }
                &mut self.entries[index].1
            },
            Err(index) => {
                let ghost before = self.entries@;
                self.entries.insert(index, (key, default));
                proof {
                    assert forall|w: ResourceValue| #![auto]
                        entries_map(self.entries@.update(index as int, (key, w))) == entries_map(before).insert(
                            key,
                            w,
                        ) && sorted_keys(self.entries@.update(index as int, (key, w))) by {
                        assert(self.entries@.update(index as int, (key, w)) =~= before.insert(index as int, (key, w)));
                        lemma_entries_insert(before, index as int, key, w);
                    }
                    if entries_map(before).contains_key(key) {
                        let k = choose|k: int| 0 <= k < before.len() && before[k].0 == key;
                    }
                }
                &mut self.entries[index].1
            },
        }
    }
}

} // verus!
