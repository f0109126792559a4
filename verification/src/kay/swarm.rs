//! A swarm holds all instances of one actor type, grouped into collections by
//! storage size class, and finds each instance again by its instance id.
use vstd::prelude::*;
use super::ID;
use super::messaging::{Compact, Recipient};

verus! {

/// An actor instance together with its address.
pub struct LivingActor<A> {
    pub id: ID,
    pub state: A,
}

/// Where an instance is stored: which size-class collection, which slot in it.
#[derive(Clone, Copy, PartialEq, Eq, Debug)]
pub struct SlotIndices {
    pub collection: usize,
    pub slot: usize,
}

impl SlotIndices {
    pub fn new(collection: usize, slot: usize) -> (ix: SlotIndices)
        ensures
            ix.collection == collection,
            ix.slot == slot,
    {
        SlotIndices { collection, slot }
    }

    pub fn collection(&self) -> (c: usize)
        ensures
            c == self.collection,
    {
        self.collection
    }

    pub fn slot(&self) -> (s: usize)
        ensures
            s == self.slot,
    {
        self.slot
    }
}

/// The size class of a value of `size` bytes in a swarm whose smallest class
/// holds `cap` bytes: the number of doublings of `cap` needed to hold `size`.
pub open spec fn class_from(cap: nat, size: nat) -> nat
    decreases (if size > cap { size - cap } else { 0 }),
{
    if cap == 0 || size <= cap {
        0
    } else {
        1 + class_from(2 * cap, size)
    }
}

/// Instance `id` holds the same actor in `after` as in `before` (or is
/// absent from both).
pub open spec fn keeps_instance<A>(before: Map<nat, LivingActor<A>>, after: Map<nat, LivingActor<A>>, id: nat) -> bool {
    &&& after.contains_key(id) == before.contains_key(id)
    &&& before.contains_key(id) ==> after[id] == before[id]
}

/// `after` differs from `before` at most in instance `other`: unchanged
/// (`allocate_instance_id`, `resize`), without it (`remove`), or with its
/// actor set (`add`, `receive_instance`, a write through `at_mut`).
pub open spec fn touches_only<A>(before: Map<nat, LivingActor<A>>, after: Map<nat, LivingActor<A>>, other: nat) -> bool {
    ||| after == before
    ||| after == before.remove(other)
    ||| after.contains_key(other) && after == before.insert(other, after[other])
}

/// A stored actor survives every sequence of operations on other instances:
/// added once, it is found by `at` as it was added, whatever is added,
/// resized, removed or sent messages among the others, until its own
/// instance is changed.
pub proof fn lemma_actor_survives<A>(states: Seq<Map<nat, LivingActor<A>>>, others: Seq<nat>, id: nat)
    requires
        states.len() == others.len() + 1,
        forall|k: int|
            0 <= k < others.len() ==> #[trigger] others[k] != id && touches_only(states[k], states[k + 1], others[k]),
    ensures
        keeps_instance(states[0], states.last(), id),
{
    lemma_actor_survives_upto(states, others, id, others.len() as int);
}

/// The survival of a stored actor through the first `j` operations.
proof fn lemma_actor_survives_upto<A>(states: Seq<Map<nat, LivingActor<A>>>, others: Seq<nat>, id: nat, j: int)
    requires
        states.len() == others.len() + 1,
        forall|k: int|
            0 <= k < others.len() ==> #[trigger] others[k] != id && touches_only(states[k], states[k + 1], others[k]),
        0 <= j <= others.len(),
    ensures
        keeps_instance(states[0], states[j], id),
    decreases j,
{
    if j > 0 {
        lemma_actor_survives_upto(states, others, id, j - 1);
        assert(touches_only(states[j - 1], states[j], others[j - 1]));
    }
}

/// The numbers below `n` are finitely many.
proof fn lemma_nats_below_finite(n: nat)
    ensures
        Set::new(|i: nat| i < n).finite(),
    decreases n,
{
    if n == 0 {
        assert(Set::new(|i: nat| i < n) =~= Set::<nat>::empty());
    } else {
        lemma_nats_below_finite((n - 1) as nat);
        assert(Set::new(|i: nat| i < n) =~= Set::new(|i: nat| i < (n - 1) as nat).insert((n - 1) as nat));
    }
}

/// All instances of actor type `A`.
pub struct Swarm<A> {
    collections: Vec<Vec<LivingActor<A>>>,
    slot_map: Vec<Option<SlotIndices>>,
    free_ids: Vec<usize>,
    base_size: usize,
}

impl<A: Compact> Swarm<A> {
    /// The actor stored at slot `s` of collection `c`.
    pub closed spec fn actor_at(&self, c: int, s: int) -> LivingActor<A> {
        self.collections@[c]@[s]
    }

    /// The number of collections.
    pub closed spec fn n_collections(&self) -> nat {
        self.collections@.len()
    }

    /// The number of instances in collection `c`.
    pub closed spec fn collection_len(&self, c: int) -> nat {
        self.collections@[c]@.len()
    }

    /// Where instance `i` is stored.
    pub closed spec fn indices_of(&self, i: nat) -> SlotIndices {
        self.slot_map@[i as int]->Some_0
    }

    /// The size class that an actor state belongs to.
    pub closed spec fn class_of(&self, a: A) -> nat {
        class_from(self.base_size as nat, a.spec_total_size_bytes())
    }

    /// The smallest storage size class of this swarm, in bytes.
    pub closed spec fn spec_base_size(&self) -> nat {
        self.base_size as nat
    }

    /// Instance ids handed out so far (live, reserved or free).
    pub closed spec fn n_ids(&self) -> nat {
        self.slot_map@.len()
    }

    /// Instance ids that were freed and may be handed out again.
    pub closed spec fn free_ids(&self) -> Seq<usize> {
        self.free_ids@
    }

    /// Instance `i` has been handed out and holds no actor yet.
    pub open spec fn is_reserved(&self, i: nat) -> bool {
        &&& i < self.n_ids()
        &&& !self@.contains_key(i)
        &&& !self.free_ids().contains(i as usize)
    }

    spec fn slot_ok(&self, i: int) -> bool {
        let ix = self.slot_map@[i]->Some_0;
        &&& ix.collection < self.collections@.len()
        &&& ix.slot < self.collections@[ix.collection as int]@.len()
        &&& self.actor_at(ix.collection as int, ix.slot as int).id.instance_id == i
    }

    spec fn actor_loc_ok(&self, c: int, s: int) -> bool {
        let a = self.actor_at(c, s);
        &&& a.id.instance_id < self.slot_map@.len()
        &&& self.slot_map@[a.id.instance_id as int] == Some(
            SlotIndices { collection: c as usize, slot: s as usize },
        )
    }

    spec fn actor_ok(&self, c: int, s: int) -> bool {
        &&& self.actor_loc_ok(c, s)
        &&& self.class_of(self.actor_at(c, s).state) <= c
    }

    /// The representation invariant, except that the actor at slot `s0` of
    /// collection `c0` may have outgrown its size class.
    pub closed spec fn wf_but(&self, c0: int, s0: int) -> bool {
        &&& self.base_size > 0
        &&& self.slot_map@.len() < BROADCAST_ID_BOUND
        &&& forall|i: int|
            0 <= i < self.slot_map@.len() && (#[trigger] self.slot_map@[i]) is Some ==> self.slot_ok(i)
        &&& forall|c: int, s: int|
            0 <= c < self.collections@.len() && 0 <= s < self.collections@[c]@.len()
                ==> #[trigger] self.actor_loc_ok(c, s)
        &&& forall|c: int, s: int|
            0 <= c < self.collections@.len() && 0 <= s < self.collections@[c]@.len() && (c != c0
                || s != s0) ==> #[trigger] self.actor_ok(c, s)
        &&& forall|k: int|
            0 <= k < self.free_ids@.len() ==> (#[trigger] self.free_ids@[k]) < self.slot_map@.len()
                && self.slot_map@[self.free_ids@[k] as int] is None
        &&& self.free_ids@.no_duplicates()
    }

    /// The representation invariant: the slot map and the collections agree,
    /// each actor sits in a collection at least as large as its size class,
    /// and the free list holds distinct ids of empty slots.
    pub closed spec fn wf(&self) -> bool {
        self.wf_but(-1, -1)
    }

    /// A consistent swarm holds finitely many instances, each actor carrying
    /// its own instance id, one handed out and not free.
    pub proof fn lemma_instances_consistent(&self)
        requires
            self.wf(),
        ensures
            self@.dom().finite(),
            forall|i: nat|
                #[trigger] self@.contains_key(i) ==> self@[i].id.instance_id == i && i < self.n_ids()
                    && !self.free_ids().contains(i as usize),
    {
        lemma_nats_below_finite(self.slot_map@.len());
        assert(self@.dom().subset_of(Set::new(|i: nat| i < self.slot_map@.len())));
        vstd::set_lib::lemma_len_subset(self@.dom(), Set::new(|i: nat| i < self.slot_map@.len()));
        assert forall|i: nat| #[trigger] self@.contains_key(i) implies self@[i].id.instance_id == i && i < self.n_ids()
            && !self.free_ids().contains(i as usize) by {
            assert(self.slot_ok(i as int));
            if self.free_ids().contains(i as usize) {
                let k = choose|k: int| 0 <= k < self.free_ids@.len() && self.free_ids@[k] == i as usize;
                assert(self.slot_map@[self.free_ids@[k] as int] is None);
            }
        }
    }

    /// The instances of the swarm, by instance id.
    pub closed spec fn instances(&self) -> Map<nat, LivingActor<A>> {
        Map::new(
            |i: nat| i < self.slot_map@.len() && self.slot_map@[i as int] is Some,
            |i: nat|
                self.actor_at(
                    self.indices_of(i).collection as int,
                    self.indices_of(i).slot as int,
                ),
        )
    }
}


impl<A: Compact> Swarm<A> {
    /// An empty swarm whose smallest size class holds `base_size` bytes.
    pub fn new(base_size: usize) -> (swarm: Self)
        requires
            base_size > 0,
        ensures
            swarm.wf(),
            swarm@ == Map::<nat, LivingActor<A>>::empty(),
            swarm.n_ids() == 0,
            swarm.spec_base_size() == base_size,
    {
        let swarm = Swarm {
            collections: Vec::new(),
            slot_map: Vec::new(),
            free_ids: Vec::new(),
            base_size,
        };
        assert(swarm@ =~= Map::<nat, LivingActor<A>>::empty());
        swarm
    }

    /// The size class of a value of `size` bytes.
    fn size_to_index(&self, size: usize) -> (k: usize)
        requires
            self.base_size > 0,
        ensures
            k == class_from(self.base_size as nat, size as nat),
    {
        let mut cap = self.base_size;
        let mut k: usize = 0;
        while cap < size
            invariant
                0 < cap,
                k <= cap,
                class_from(self.base_size as nat, size as nat) == k + class_from(cap as nat, size as nat),
            decreases usize::MAX - cap,
        {
            if cap > usize::MAX / 2 {
                assert(class_from(2 * cap as nat, size as nat) == 0);
                return k + 1;
            }
            cap = cap * 2;
            k = k + 1;
        }
        k
    }

    /// Changing only free ids and appending empty slots keeps the invariant.
    proof fn lemma_same_layout(before: &Self, after: &Self, c0: int, s0: int)
        requires
            before.wf_but(c0, s0),
            after.collections@ == before.collections@,
            after.base_size == before.base_size,
            after.slot_map@.len() >= before.slot_map@.len(),
            after.slot_map@.len() < BROADCAST_ID_BOUND,
            forall|i: int| 0 <= i < before.slot_map@.len() ==> after.slot_map@[i] == before.slot_map@[i],
            forall|i: int| before.slot_map@.len() <= i < after.slot_map@.len() ==> after.slot_map@[i] is None,
            forall|k: int|
                0 <= k < after.free_ids@.len() ==> (#[trigger] after.free_ids@[k]) < after.slot_map@.len()
                    && after.slot_map@[after.free_ids@[k] as int] is None,
            after.free_ids@.no_duplicates(),
        ensures
            after.wf_but(c0, s0),
            after@ == before@,
    {
        assert forall|c: int, s: int|
            0 <= c < after.collections@.len() && 0 <= s < after.collections@[c]@.len()
            implies #[trigger] after.actor_loc_ok(c, s) by {
            assert(before.actor_loc_ok(c, s));
        }
        assert forall|c: int, s: int|
            0 <= c < after.collections@.len() && 0 <= s < after.collections@[c]@.len() && (c != c0
                || s != s0) implies #[trigger] after.actor_ok(c, s) by {
            assert(before.actor_ok(c, s));
        }
        assert forall|i: int|
            0 <= i < after.slot_map@.len() && (#[trigger] after.slot_map@[i]) is Some
            implies after.slot_ok(i) by {
            assert(before.slot_ok(i));
        }
        assert(after@ =~= before@) by {
            assert forall|i: nat| #[trigger] after@.contains_key(i) implies before@.contains_key(i)
                && after@[i] == before@[i] by {
                assert(after.slot_map@[i as int] == before.slot_map@[i as int]);
            }
        }
    }

    /// `after` is `before` with instance id `id` handed out: no actor is
    /// added, removed or changed, `id` was not reserved and now is, and all
    /// that was reserved stays reserved.
    pub open spec fn allocates(before: Self, after: Self, id: u32) -> bool {
        &&& after@ == before@
        &&& after.is_reserved(id as nat)
        &&& !before.is_reserved(id as nat)
        &&& forall|i: nat| before.is_reserved(i) ==> after.is_reserved(i)
    }

    /// Successive allocations hand out different ids, none of them the id of
    /// a stored actor.
    pub proof fn lemma_allocated_ids_distinct(states: Seq<Self>, ids: Seq<u32>)
        requires
            states.len() == ids.len() + 1,
            forall|k: int| 0 <= k < ids.len() ==> Self::allocates(#[trigger] states[k], states[k + 1], ids[k]),
        ensures
            forall|a: int, b: int| 0 <= a < b < ids.len() ==> ids[a] != ids[b],
            forall|k: int| 0 <= k < ids.len() ==> !states[0]@.contains_key(#[trigger] ids[k] as nat),
            forall|k: int| 0 <= k < ids.len() ==> states.last().is_reserved(#[trigger] ids[k] as nat),
        decreases ids.len(),
    {
        if ids.len() > 0 {
            let n = ids.len() - 1;
            let init = states.drop_last();
            Self::lemma_allocated_ids_distinct(init, ids.drop_last());
            assert(init[n] == states[n]);
            assert(Self::allocates(states[n], states[n + 1], ids[n]));
            assert forall|k: int| 0 <= k < n implies !states[0]@.contains_key(#[trigger] ids[k] as nat)
                && states.last().is_reserved(ids[k] as nat) by {
                assert(ids.drop_last()[k] == ids[k]);
                assert(init.last().is_reserved(ids[k] as nat));
            }
            assert(states[0]@ == states[n]@) by {
                assert forall|j: int| 0 <= j <= n implies #[trigger] states[j]@ == states[0]@ by {
                    Self::lemma_same_instances(states, ids, j);
                }
            }
            assert forall|a: int, b: int| 0 <= a < b < ids.len() implies ids[a] != ids[b] by {
                if b < n {
                    assert(ids.drop_last()[a] == ids[a]);
                    assert(ids.drop_last()[b] == ids[b]);
                } else {
                    assert(ids.drop_last()[a] == ids[a]);
                    assert(init.last().is_reserved(ids[a] as nat));
                }
            }
        }
    }

    /// Allocations leave the instances as they were.
    proof fn lemma_same_instances(states: Seq<Self>, ids: Seq<u32>, j: int)
        requires
            states.len() == ids.len() + 1,
            forall|k: int| 0 <= k < ids.len() ==> Self::allocates(#[trigger] states[k], states[k + 1], ids[k]),
            0 <= j < states.len(),
        ensures
            states[j]@ == states[0]@,
        decreases j,
    {
        if j > 0 {
            Self::lemma_same_instances(states, ids, j - 1);
            assert(Self::allocates(states[j - 1], states[j], ids[j - 1]));
        }
    }

    /// Hands out an instance id for an actor that is about to be added:
    /// a freed one if there is one, else a new one.
    pub fn allocate_instance_id(&mut self) -> (id: u32)
        requires
            old(self).wf(),
            old(self).free_ids().len() > 0 || old(self).n_ids() + 1 < BROADCAST_ID_BOUND,
        ensures
            final(self).wf(),
            Self::allocates(*old(self), *final(self), id),
            final(self)@ == old(self)@,
            final(self).is_reserved(id as nat),
            final(self).spec_base_size() == old(self).spec_base_size(),
            !old(self).is_reserved(id as nat),
            forall|i: nat| old(self).is_reserved(i) ==> final(self).is_reserved(i),
            id as nat == (if old(self).free_ids().len() > 0 {
                old(self).free_ids().last() as nat
            } else {
                old(self).n_ids()
            }),
            final(self).free_ids() == (if old(self).free_ids().len() > 0 {
                old(self).free_ids().drop_last()
            } else {
                old(self).free_ids()
            }),
            final(self).n_ids() == (if old(self).free_ids().len() > 0 {
                old(self).n_ids()
            } else {
                old(self).n_ids() + 1
            }),
    {
        let ghost before = *self;
        if self.free_ids.len() > 0 {
            let id = self.free_ids.pop().unwrap();
            proof {
                assert(before.free_ids@.last() == id);
                assert(self.free_ids@ =~= before.free_ids@.drop_last());
                assert forall|k: int| 0 <= k < self.free_ids@.len() implies #[trigger] self.free_ids@[k]
                    != id by {
                    assert(before.free_ids@[k] == self.free_ids@[k]);
                    assert(before.free_ids@[before.free_ids@.len() - 1] == id);
                }
                assert(self.free_ids@.no_duplicates()) by {
                    assert forall|a: int, b: int|
                        0 <= a < self.free_ids@.len() && 0 <= b < self.free_ids@.len() && a != b
                        implies self.free_ids@[a] != self.free_ids@[b] by {
                        assert(before.free_ids@[a] == self.free_ids@[a]);
                        assert(before.free_ids@[b] == self.free_ids@[b]);
                    }
                }
                assert forall|k: int| 0 <= k < self.free_ids@.len() implies (#[trigger] self.free_ids@[k])
                    < self.slot_map@.len() && self.slot_map@[self.free_ids@[k] as int] is None by {
                    assert(before.free_ids@[k] == self.free_ids@[k]);
                }
                Self::lemma_same_layout(&before, self, -1, -1);
                assert forall|i: nat| before.is_reserved(i) implies self.is_reserved(i) by {
                    if self.free_ids@.contains(i as usize) {
                        let k = choose|k: int| 0 <= k < self.free_ids@.len() && self.free_ids@[k] == i as usize;
                        assert(before.free_ids@[k] == i as usize);
                    }
                }
                assert(before.free_ids@.contains(id));
            }
            id as u32
        } else {
            let id = self.slot_map.len();
            self.slot_map.push(None);
            proof {
                Self::lemma_same_layout(&before, self, -1, -1);
                assert forall|i: nat| before.is_reserved(i) implies self.is_reserved(i) by {
                    assert(self.slot_map@[i as int] == before.slot_map@[i as int]);
                }
            }
            id as u32
        }
    }
}

impl<A: Compact> Swarm<A> {
    /// Stores `actor` at the end of the collection of its size class and
    /// records where it went.
    fn push_in(&mut self, actor: LivingActor<A>) -> (ix: SlotIndices)
        requires
            old(self).wf(),
            old(self).is_reserved(actor.id.instance_id as nat),
        ensures
            final(self).wf(),
            final(self)@ == old(self)@.insert(actor.id.instance_id as nat, actor),
            final(self).n_ids() == old(self).n_ids(),
            final(self).free_ids() == old(self).free_ids(),
            final(self).spec_base_size() == old(self).spec_base_size(),
            ix.collection == old(self).class_of(actor.state),
            ix.slot == (if ix.collection < old(self).n_collections() {
                old(self).collection_len(ix.collection as int)
            } else {
                0
            }),
            final(self).n_collections() == (if ix.collection < old(self).n_collections() {
                old(self).n_collections() as int
            } else {
                ix.collection + 1
            }),
            final(self).collection_len(ix.collection as int) == ix.slot + 1,
            final(self).actor_at(ix.collection as int, ix.slot as int) == actor,
            forall|c: int|
                0 <= c < final(self).n_collections() && c != ix.collection ==> final(self).collection_len(c)
                    == (if c < old(self).n_collections() {
                    old(self).collection_len(c)
                } else {
                    0
                }),
            forall|c: int, s: int|
                0 <= c < old(self).n_collections() && 0 <= s < old(self).collection_len(c)
                    ==> final(self).actor_at(c, s) == old(self).actor_at(c, s),
    {
        let ghost before = *self;
        let size = actor.state.total_size_bytes();
        let c = self.size_to_index(size);
        let i = actor.id.instance_id as usize;
        while self.collections.len() <= c
            invariant
                self.wf(),
                self@ == before@,
                self.slot_map == before.slot_map,
                self.free_ids == before.free_ids,
                self.base_size == before.base_size,
                self.collections@.len() >= before.collections@.len(),
                forall|k: int| 0 <= k < before.collections@.len() ==> self.collections@[k] == before.collections@[k],
                forall|k: int|
                    before.collections@.len() <= k < self.collections@.len() ==> self.collections@[k]@.len() == 0,
                self.collections@.len() == before.collections@.len() || self.collections@.len() <= c + 1,
            decreases c + 1 - self.collections@.len(),
        {
            let ghost prev = *self;
            self.collections.push(Vec::new());
            proof {
                assert forall|cc: int, ss: int|
                    0 <= cc < self.collections@.len() && 0 <= ss < self.collections@[cc]@.len()
                    implies #[trigger] self.actor_loc_ok(cc, ss) && self.actor_ok(cc, ss) by {
                    assert(prev.actor_ok(cc, ss));
                    assert(self.collections@[cc] == prev.collections@[cc]);
                }
                assert forall|j: int|
                    0 <= j < self.slot_map@.len() && (#[trigger] self.slot_map@[j]) is Some
                    implies self.slot_ok(j) by {
                    assert(prev.slot_ok(j));
                    let ixj = self.slot_map@[j]->Some_0;
                    assert(self.collections@[ixj.collection as int] == prev.collections@[ixj.collection as int]);
                }
                assert(self@ =~= prev@) by {
                    assert forall|j: nat| #[trigger] self@.contains_key(j) implies self@[j] == prev@[j] by {
                        let ixj = self.slot_map@[j as int]->Some_0;
                        assert(prev.slot_ok(j as int));
                        assert(self.collections@[ixj.collection as int] == prev.collections@[ixj.collection as int]);
                    }
                }
            }
        }
        let ghost mid = *self;
        let slot = self.collections[c].len();
        self.collections[c].push(actor);
        let ix = SlotIndices { collection: c, slot };
        self.slot_map.set(i, Some(ix));
        proof {
            assert(mid.slot_map@[i as int] is None);
            assert forall|cc: int, ss: int|
                0 <= cc < self.collections@.len() && 0 <= ss < self.collections@[cc]@.len()
                implies #[trigger] self.actor_loc_ok(cc, ss) && self.actor_ok(cc, ss) by {
                if cc == c && ss == slot {
                } else {
                    assert(mid.actor_ok(cc, ss));
                    assert(self.actor_at(cc, ss) == mid.actor_at(cc, ss));
                    assert(mid.slot_map@[mid.actor_at(cc, ss).id.instance_id as int] is Some);
                }
            }
            assert forall|j: int|
                0 <= j < self.slot_map@.len() && (#[trigger] self.slot_map@[j]) is Some
                implies self.slot_ok(j) by {
                if j != i {
                    assert(mid.slot_ok(j));
                    let ixj = self.slot_map@[j]->Some_0;
                    assert(self.actor_at(ixj.collection as int, ixj.slot as int) == mid.actor_at(
                        ixj.collection as int,
                        ixj.slot as int,
                    ));
                }
            }
            assert forall|k: int| 0 <= k < self.free_ids@.len() implies (#[trigger] self.free_ids@[k])
                < self.slot_map@.len() && self.slot_map@[self.free_ids@[k] as int] is None by {
                assert(self.free_ids@[k] != i) by {
                    assert(!before.free_ids@.contains(i));
                }
            }
            assert(self@ =~= before@.insert(i as nat, actor)) by {
                assert forall|j: nat| #[trigger] self@.contains_key(j) && j != i implies before@.contains_key(j)
                    && self@[j] == before@[j] by {
                    assert(mid.slot_ok(j as int));
                    let ixj = self.slot_map@[j as int]->Some_0;
                    assert(self.actor_at(ixj.collection as int, ixj.slot as int) == mid.actor_at(
                        ixj.collection as int,
                        ixj.slot as int,
                    ));
                }
                assert forall|j: nat| #[trigger] before@.contains_key(j) implies self@.contains_key(j) by {
                    assert(mid.slot_map@[j as int] == before.slot_map@[j as int]);
                }
            }
        }
        ix
    }

    /// Takes the actor at slot `s` of collection `c` out of the swarm, moving
    /// the collection's last actor into the vacated slot; returns the actor and
    /// whether another actor was moved.
    fn swap_remove(&mut self, c: usize, s: usize) -> (res: (LivingActor<A>, bool))
        requires
            old(self).wf_but(c as int, s as int),
            c < old(self).n_collections(),
            s < old(self).collection_len(c as int),
        ensures
            final(self).wf(),
            res.0 == old(self).actor_at(c as int, s as int),
            final(self)@ == old(self)@.remove(res.0.id.instance_id as nat),
            old(self)@.contains_key(res.0.id.instance_id as nat),
            old(self)@[res.0.id.instance_id as nat] == res.0,
            final(self).is_reserved(res.0.id.instance_id as nat),
            forall|j: nat| old(self).is_reserved(j) ==> final(self).is_reserved(j),
            final(self).n_ids() == old(self).n_ids(),
            final(self).free_ids() == old(self).free_ids(),
            final(self).spec_base_size() == old(self).spec_base_size(),
            res.1 == (s + 1 < old(self).collection_len(c as int)),
            final(self).n_collections() == old(self).n_collections(),
            final(self).collection_len(c as int) + 1 == old(self).collection_len(c as int),
            res.1 ==> final(self).actor_at(c as int, s as int) == old(self).actor_at(
                c as int,
                old(self).collection_len(c as int) - 1,
            ),
            forall|ss: int|
                0 <= ss < final(self).collection_len(c as int) && ss != s ==> final(self).actor_at(c as int, ss)
                    == old(self).actor_at(c as int, ss),
            forall|cc: int|
                0 <= cc < old(self).n_collections() && cc != c ==> final(self).collection_len(cc)
                    == old(self).collection_len(cc),
            forall|cc: int, ss: int|
                0 <= cc < old(self).n_collections() && cc != c && 0 <= ss < old(self).collection_len(cc)
                    ==> final(self).actor_at(cc, ss) == old(self).actor_at(cc, ss),
    {
        let ghost before = *self;
        let last = self.collections[c].len() - 1;
        let a = self.collections[c].swap_remove(s);
        let swapped = s < last;
        let ghost mid = *self;
        proof {
            assert(before.actor_loc_ok(c as int, s as int));
        }
        if swapped {
            let moved_id = self.collections[c][s].id.instance_id as usize;
            proof {
                assert(self.actor_at(c as int, s as int) == before.actor_at(c as int, last as int));
                assert(before.actor_ok(c as int, last as int));
            }
            self.slot_map.set(moved_id, Some(SlotIndices { collection: c, slot: s }));
        }
        let ghost mid2 = *self;
        let i = a.id.instance_id as usize;
        proof {
            if swapped {
                assert(before.actor_at(c as int, last as int).id.instance_id != i);
            }
        }
        self.slot_map.set(i, None);
        proof {
            assert(forall|cc: int| 0 <= cc < self.collections@.len() && cc != c ==> self.collections@[cc]
                == before.collections@[cc]);
            assert forall|cc: int, ss: int|
                0 <= cc < self.collections@.len() && 0 <= ss < self.collections@[cc]@.len()
                implies #[trigger] self.actor_loc_ok(cc, ss) && self.actor_ok(cc, ss) by {
                if cc == c && ss == s {
                    assert(before.actor_ok(c as int, last as int));
                } else {
                    assert(self.actor_at(cc, ss) == before.actor_at(cc, ss));
                    assert(before.actor_ok(cc, ss));
                    assert(before.actor_loc_ok(cc, ss));
                    assert(before.slot_map@[i as int] == Some(SlotIndices { collection: c, slot: s }));
                    assert(before.collections@[cc]@.len() == before.collections@[cc].len());
                    assert(before.collections@.len() == before.collections.len());
                    if before.actor_at(cc, ss).id.instance_id as int == i as int {
                        assert(before.slot_map@[i as int] == Some(
                            SlotIndices { collection: cc as usize, slot: ss as usize },
                        ));
                        assert(cc as usize == c && ss as usize == s);
                        assert(false);
                    }
                    if swapped {
                        assert(before.actor_loc_ok(c as int, last as int));
                        let mid_id = before.actor_at(c as int, last as int).id.instance_id;
                        if before.actor_at(cc, ss).id.instance_id == mid_id {
                            assert(before.slot_map@[mid_id as int] == Some(
                                SlotIndices { collection: cc as usize, slot: ss as usize },
                            ));
                            assert(cc as usize == c && ss as usize == last);
                            assert(false);
                        }
                    }
                }
            }
            assert forall|j: int|
                0 <= j < self.slot_map@.len() && (#[trigger] self.slot_map@[j]) is Some
                implies self.slot_ok(j) by {
                assert(j != i);
                if swapped && j == before.actor_at(c as int, last as int).id.instance_id {
                } else {
                    assert(before.slot_ok(j));
                    let ixj = before.slot_map@[j]->Some_0;
                    assert(self.slot_map@[j] == before.slot_map@[j]);
                    if ixj.collection == c {
                        assert(ixj.slot != s);
                        assert(ixj.slot != last);
                    }
                }
            }
            assert forall|k: int| 0 <= k < self.free_ids@.len() implies (#[trigger] self.free_ids@[k])
                < self.slot_map@.len() && self.slot_map@[self.free_ids@[k] as int] is None by {
                let f = self.free_ids@[k];
                assert(before.slot_map@[f as int] is None);
                if swapped {
                    assert(before.actor_loc_ok(c as int, last as int));
                }
            }
            assert(!before.free_ids@.contains(i)) by {
                if before.free_ids@.contains(i) {
                    let k = choose|k: int| 0 <= k < before.free_ids@.len() && before.free_ids@[k] == i;
                    assert(before.slot_map@[i as int] is None);
                }
            }
            assert(self@ =~= before@.remove(i as nat)) by {
                assert forall|j: nat| #[trigger] self@.contains_key(j) implies before@.contains_key(j)
                    && j != i && self@[j] == before@[j] by {
                    if swapped && j == before.actor_at(c as int, last as int).id.instance_id {
                        assert(before.actor_ok(c as int, last as int));
                    } else {
                        assert(before.slot_ok(j as int));
                        let ixj = before.slot_map@[j as int]->Some_0;
                        if ixj.collection == c {
                            assert(ixj.slot != s);
                        }
                    }
                }
                assert forall|j: nat| #[trigger] before@.contains_key(j) && j != i implies self@.contains_key(j) by {
                    assert(self.slot_map@[j as int] is Some);
                }
            }
            assert forall|j: nat| before.is_reserved(j) implies self.is_reserved(j) by {
                assert(j != i);
                if swapped {
                    assert(j != before.actor_at(c as int, last as int).id.instance_id) by {
                        assert(before.actor_loc_ok(c as int, last as int));
                    }
                }
            }
        }
        (a, swapped)
    }
}

impl<A: Compact> Swarm<A> {
    /// Adds `actor` under its (previously allocated) instance id.
    pub fn add(&mut self, actor: LivingActor<A>)
        requires
            old(self).wf(),
            old(self).is_reserved(actor.id.instance_id as nat),
        ensures
            final(self).wf(),
            final(self)@ == old(self)@.insert(actor.id.instance_id as nat, actor),
            final(self).n_ids() == old(self).n_ids(),
            final(self).free_ids() == old(self).free_ids(),
            final(self).spec_base_size() == old(self).spec_base_size(),
    {
        let _ = self.push_in(actor);
    }

    /// The instance with instance id `id`.
    pub fn at(&self, id: usize) -> (a: &LivingActor<A>)
        requires
            self.wf(),
            self@.contains_key(id as nat),
        ensures
            *a == self@[id as nat],
    {
        let ix = self.slot_map[id].unwrap();
        proof {
            assert(self.slot_ok(id as int));
        }
        &self.collections[ix.collection][ix.slot]
    }

    /// The invariant holds except that instance `id` may have outgrown its collection.
    pub closed spec fn wf_but_instance(&self, id: nat) -> bool {
        &&& self@.contains_key(id)
        &&& self.wf_but(self.indices_of(id).collection as int, self.indices_of(id).slot as int)
    }

    /// `self` is `before` with the actor of instance `id` replaced by `a`.
    pub closed spec fn replaced(&self, before: Self, id: nat, a: LivingActor<A>) -> bool {
        let ix = before.indices_of(id);
        &&& self.slot_map == before.slot_map
        &&& self.free_ids == before.free_ids
        &&& self.base_size == before.base_size
        &&& self.collections@.len() == before.collections@.len()
        &&& forall|c: int| 0 <= c < self.collections@.len() && c != ix.collection ==> self.collections@[c]
            == before.collections@[c]
        &&& self.collections@[ix.collection as int]@ == before.collections@[ix.collection as int]@.update(
            ix.slot as int,
            a,
        )
    }

    /// An instance id freed by `remove` is the one the next
    /// `allocate_instance_id` hands out, and it is free to be used again.
    pub proof fn lemma_removed_id_reused(&self, before: Self, id: usize)
        requires
            before.wf(),
            before@.contains_key(id as nat),
            self.wf(),
            self@ == before@.remove(id as nat),
            self.free_ids() == before.free_ids().push(id),
        ensures
            self.free_ids().len() > 0,
            self.free_ids().last() == id,
            !self.is_reserved(id as nat),
    {
        assert(self.free_ids().contains(id)) by {
            assert(self.free_ids()[self.free_ids().len() - 1] == id);
        }
    }

    /// Replacing an instance's actor by one with the same instance id keeps
    /// the invariant, up to that instance's size class.
    pub proof fn lemma_replaced(&self, before: Self, id: nat, a: LivingActor<A>)
        requires
            before.wf(),
            before@.contains_key(id),
            self.replaced(before, id, a),
            a.id.instance_id == id,
        ensures
            self.wf_but_instance(id),
            self@ == before@.insert(id, a),
    {
        let ix = before.indices_of(id);
        assert(before.slot_ok(id as int));
        assert forall|c: int, s: int|
            0 <= c < self.collections@.len() && 0 <= s < self.collections@[c]@.len()
            implies #[trigger] self.actor_loc_ok(c, s) by {
            assert(before.actor_loc_ok(c, s));
        }
        assert forall|c: int, s: int|
            0 <= c < self.collections@.len() && 0 <= s < self.collections@[c]@.len() && (c
                != ix.collection || s != ix.slot) implies #[trigger] self.actor_ok(c, s) by {
            assert(before.actor_ok(c, s));
        }
        assert forall|i: int|
            0 <= i < self.slot_map@.len() && (#[trigger] self.slot_map@[i]) is Some implies self.slot_ok(i) by {
            assert(before.slot_ok(i));
        }
        assert(self@ =~= before@.insert(id, a)) by {
            assert forall|j: nat| #[trigger] self@.contains_key(j) && j != id implies self@[j] == before@[j] by {
                assert(before.slot_ok(j as int));
                assert(before.slot_ok(id as int));
            }
        }
    }

    /// Mutable access to instance `id`. As long as the caller keeps its
    /// instance id, the swarm stays consistent up to that instance's size
    /// class, which `resize` then restores.
    pub fn at_mut(&mut self, id: usize) -> (a: &mut LivingActor<A>)
        requires
            old(self).wf(),
            old(self)@.contains_key(id as nat),
        ensures
            *a == old(self)@[id as nat],
            (*a).id.instance_id == id,
            final(self)@ == old(self)@.insert(id as nat, *final(a)),
            final(self).replaced(*old(self), id as nat, *final(a)),
            final(self).n_ids() == old(self).n_ids(),
            final(self).free_ids() == old(self).free_ids(),
            final(self).spec_base_size() == old(self).spec_base_size(),
    {
        let ix = self.slot_map[id].unwrap();
        proof {
            assert(self.slot_ok(id as int));
        }
        &mut self.collections[ix.collection][ix.slot]
    }

    /// Whether the actor at slot `s` of collection `c` still belongs to the
    /// size class of that collection.
    fn in_own_class(&self, c: usize, s: usize) -> (b: bool)
        requires
            self.base_size > 0,
            c < self.collections@.len(),
            s < self.collections@[c as int]@.len(),
        ensures
            b == (self.class_of(self.actor_at(c as int, s as int).state) == c),
    {
        let size = self.collections[c][s].state.total_size_bytes();
        self.size_to_index(size) == c
    }

    /// Removes instance `id`; its id becomes free for reuse.
    pub fn remove(&mut self, id: usize)
        requires
            old(self).wf(),
            old(self)@.contains_key(id as nat),
        ensures
            final(self).wf(),
            final(self)@ == old(self)@.remove(id as nat),
            final(self)@.len() + 1 == old(self)@.len(),
            final(self).n_ids() == old(self).n_ids(),
            final(self).free_ids() == old(self).free_ids().push(id),
            final(self).spec_base_size() == old(self).spec_base_size(),
    {
        proof {
            self.lemma_instances_consistent();
            assert(old(self)@.remove(id as nat).dom() =~= old(self)@.dom().remove(id as nat));
        }
        let ix = self.slot_map[id].unwrap();
        proof {
            assert(self.slot_ok(id as int));
        }
        let (_a, _swapped) = self.swap_remove(ix.collection, ix.slot);
        let ghost mid = *self;
        self.free_ids.push(id);
        proof {
            assert(!mid.free_ids@.contains(id));
            assert forall|k: int| 0 <= k < self.free_ids@.len() implies (#[trigger] self.free_ids@[k])
                < self.slot_map@.len() && self.slot_map@[self.free_ids@[k] as int] is None by {
                if k < mid.free_ids@.len() {
                    assert(mid.free_ids@[k] == self.free_ids@[k]);
                }
            }
            assert(self.free_ids@.no_duplicates()) by {
                assert forall|a: int, b: int|
                    0 <= a < self.free_ids@.len() && 0 <= b < self.free_ids@.len() && a != b
                    implies self.free_ids@[a] != self.free_ids@[b] by {
                    if a < mid.free_ids@.len() && b < mid.free_ids@.len() {
                        assert(mid.free_ids@[a] == self.free_ids@[a]);
                        assert(mid.free_ids@[b] == self.free_ids@[b]);
                    } else if a < mid.free_ids@.len() {
                        assert(mid.free_ids@.contains(self.free_ids@[a]));
                    } else {
                        assert(mid.free_ids@.contains(self.free_ids@[b]));
                    }
                }
            }
            Self::lemma_same_layout(&mid, self, -1, -1);
        }
    }
}

impl<A: Compact> Swarm<A> {
    /// Moves the actor at slot `s` of collection `c` into the collection of its
    /// current size class; returns whether another actor took its old slot
    /// (always `true` when it stays in its collection).
    fn resize_at_index(&mut self, c: usize, s: usize) -> (swapped: bool)
        requires
            old(self).wf_but(c as int, s as int),
            c < old(self).n_collections(),
            s < old(self).collection_len(c as int),
        ensures
            final(self).wf(),
            final(self)@ == old(self)@,
            final(self).n_ids() == old(self).n_ids(),
            final(self).free_ids() == old(self).free_ids(),
            final(self).spec_base_size() == old(self).spec_base_size(),
            forall|j: nat| old(self).is_reserved(j) ==> final(self).is_reserved(j),
            ({
                let i = old(self).actor_at(c as int, s as int).id.instance_id as nat;
                final(self).indices_of(i).collection == old(self).class_of(old(self).actor_at(c as int, s as int).state)
            }),
            ({
                let cls = old(self).class_of(old(self).actor_at(c as int, s as int).state);
                &&& cls == c ==> *final(self) == *old(self) && swapped
                &&& cls != c ==> {
                    &&& swapped == (s + 1 < old(self).collection_len(c as int))
                    &&& final(self).n_collections() == (if cls < old(self).n_collections() {
                        old(self).n_collections() as int
                    } else {
                        cls + 1 as int
                    })
                    &&& final(self).collection_len(c as int) + 1 == old(self).collection_len(c as int)
                    &&& swapped ==> final(self).actor_at(c as int, s as int) == old(self).actor_at(
                        c as int,
                        old(self).collection_len(c as int) - 1,
                    )
                    &&& forall|ss: int|
                        0 <= ss < final(self).collection_len(c as int) && ss != s
                            ==> final(self).actor_at(c as int, ss) == old(self).actor_at(c as int, ss)
                    &&& forall|cc: int|
                        0 <= cc < final(self).n_collections() && cc != c && cc != cls
                            ==> final(self).collection_len(cc) == (if cc < old(self).n_collections() {
                            old(self).collection_len(cc) as int
                        } else {
                            0
                        })
                    &&& cls < old(self).n_collections() ==> final(self).collection_len(cls as int)
                        == old(self).collection_len(cls as int) + 1
                    &&& cls >= old(self).n_collections() ==> final(self).collection_len(cls as int) == 1
                    &&& forall|cc: int, ss: int|
                        0 <= cc < old(self).n_collections() && cc != c && 0 <= ss < old(self).collection_len(
                            cc,
                        ) ==> final(self).actor_at(cc, ss) == old(self).actor_at(cc, ss)
                }
            }),
    {
        let cls = self.size_to_index(self.collections[c][s].state.total_size_bytes());
        if cls != c {
            let ghost before = *self;
            let (a, swapped) = self.swap_remove(c, s);
            let ghost mid = *self;
            let ix = self.push_in(a);
            proof {
                assert(self.actor_loc_ok(ix.collection as int, ix.slot as int));
                assert(self@ =~= before@);
                assert forall|cc: int, ss: int|
                    0 <= cc < before.n_collections() && cc != c && 0 <= ss < before.collection_len(cc)
                    implies self.actor_at(cc, ss) == before.actor_at(cc, ss) by {
                    assert(mid.actor_at(cc, ss) == before.actor_at(cc, ss));
                }
            }
            swapped
        } else {
            proof {
                assert(self.actor_loc_ok(c as int, s as int));
            }
            true
        }
    }

    /// The full invariant implies the relaxed one at any slot.
    proof fn lemma_wf_but(&self, c0: int, s0: int)
        requires
            self.wf(),
        ensures
            self.wf_but(c0, s0),
    {
        assert forall|c: int, s: int|
            0 <= c < self.collections@.len() && 0 <= s < self.collections@[c]@.len() && (c != c0
                || s != s0) implies #[trigger] self.actor_ok(c, s) by {
            assert(self.actor_ok(c, s));
        }
    }

    /// Moves instance `id` into the collection of its current size class,
    /// restoring the invariant after its actor was changed through `at_mut`.
    pub fn resize(&mut self, id: usize) -> (swapped: bool)
        requires
            old(self).wf() && old(self)@.contains_key(id as nat) || old(self).wf_but_instance(id as nat),
        ensures
            final(self).wf(),
            final(self)@ == old(self)@,
            final(self).n_ids() == old(self).n_ids(),
            final(self).free_ids() == old(self).free_ids(),
            final(self).spec_base_size() == old(self).spec_base_size(),
            final(self).indices_of(id as nat).collection == final(self).class_of(final(self)@[id as nat].state),
    {
        let ix = self.slot_map[id].unwrap();
        proof {
            if self.wf() {
                self.lemma_wf_but(ix.collection as int, ix.slot as int);
            }
            assert(self.slot_ok(id as int));
        }
        self.resize_at_index(ix.collection, ix.slot)
    }

    /// Delivers `message` to the actor at slot `s` of collection `c`, in place.
    fn receive_at<M>(&mut self, c: usize, s: usize, message: &M)
        where A: Recipient<M>
        requires
            old(self).wf(),
            c < old(self).n_collections(),
            s < old(self).collection_len(c as int),
        ensures
            final(self).wf_but(c as int, s as int),
            final(self).slot_map == old(self).slot_map,
            final(self).free_ids == old(self).free_ids,
            final(self).base_size == old(self).base_size,
            final(self).n_collections() == old(self).n_collections(),
            forall|cc: int|
                0 <= cc < old(self).n_collections() ==> final(self).collection_len(cc) == old(self).collection_len(cc),
            forall|cc: int, ss: int|
                0 <= cc < old(self).n_collections() && 0 <= ss < old(self).collection_len(cc) && (cc != c || ss
                    != s) ==> final(self).actor_at(cc, ss) == old(self).actor_at(cc, ss),
            final(self).actor_at(c as int, s as int) == (LivingActor {
                id: old(self).actor_at(c as int, s as int).id,
                state: old(self).actor_at(c as int, s as int).state.spec_receive(*message),
            }),
            final(self)@ == old(self)@.insert(
                old(self).actor_at(c as int, s as int).id.instance_id as nat,
                final(self).actor_at(c as int, s as int),
            ),
    {
        let ghost before = *self;
        self.collections[c][s].state.receive(message);
        proof {
            assert(before.actor_loc_ok(c as int, s as int));
            assert forall|cc: int| 0 <= cc < self.collections@.len() && cc != c implies self.collections@[cc]
                == before.collections@[cc] by {}
            assert forall|cc: int, ss: int|
                0 <= cc < self.collections@.len() && 0 <= ss < self.collections@[cc]@.len()
                implies #[trigger] self.actor_loc_ok(cc, ss) by {
                assert(before.actor_loc_ok(cc, ss));
            }
            assert forall|cc: int, ss: int|
                0 <= cc < self.collections@.len() && 0 <= ss < self.collections@[cc]@.len() && (cc != c
                    || ss != s) implies #[trigger] self.actor_ok(cc, ss) by {
                assert(before.actor_ok(cc, ss));
            }
            assert forall|j: int|
                0 <= j < self.slot_map@.len() && (#[trigger] self.slot_map@[j]) is Some
                implies self.slot_ok(j) by {
                assert(before.slot_ok(j));
            }
            let i = before.actor_at(c as int, s as int).id.instance_id as nat;
            assert(self@ =~= before@.insert(i, self.actor_at(c as int, s as int))) by {
                assert forall|j: nat| #[trigger] self@.contains_key(j) && j != i implies self@[j] == before@[j] by {
                    assert(before.slot_ok(j as int));
                }
            }
        }
    }

    /// Delivers `message` to instance `id.instance_id`, then moves it to the
    /// collection of its new size class (it stays in its slot when the class
    /// is the same).
    pub fn receive_instance<M>(&mut self, message: &M, id: ID)
        where A: Recipient<M>
        requires
            old(self).wf(),
            old(self)@.contains_key(id.instance_id as nat),
        ensures
            final(self).wf(),
            final(self)@ == old(self)@.insert(
                id.instance_id as nat,
                LivingActor {
                    id: old(self)@[id.instance_id as nat].id,
                    state: old(self)@[id.instance_id as nat].state.spec_receive(*message),
                },
            ),
            final(self).n_ids() == old(self).n_ids(),
            final(self).free_ids() == old(self).free_ids(),
            final(self).spec_base_size() == old(self).spec_base_size(),
            final(self).indices_of(id.instance_id as nat).collection == final(self).class_of(
                final(self)@[id.instance_id as nat].state,
            ),
    {
        let i = id.instance_id as usize;
        let ix = self.slot_map[i].unwrap();
        proof {
            assert(self.slot_ok(i as int));
        }
        self.receive_at(ix.collection, ix.slot, message);
        let _ = self.resize_at_index(ix.collection, ix.slot);
    }
}

/// `a` after receiving `message`.
pub open spec fn received<A: Recipient<M>, M>(a: LivingActor<A>, message: M) -> LivingActor<A> {
    LivingActor { id: a.id, state: a.state.spec_receive(message) }
}

/// Every instance of `instances` after receiving `message` once.
pub open spec fn all_received<A: Recipient<M>, M>(
    instances: Map<nat, LivingActor<A>>,
    message: M,
) -> Map<nat, LivingActor<A>> {
    Map::new(|i: nat| instances.contains_key(i), |i: nat| received(instances[i], message))
}

impl<A: Compact> Swarm<A> {
    /// The actor at a valid position is an instance, recorded at that position.
    proof fn lemma_position(&self, c0: int, s0: int, c: int, s: int)
        requires
            self.wf_but(c0, s0),
            0 <= c < self.collections@.len(),
            0 <= s < self.collections@[c]@.len(),
        ensures
            self@.contains_key(self.actor_at(c, s).id.instance_id as nat),
            self.indices_of(self.actor_at(c, s).id.instance_id as nat).collection == c,
            self.indices_of(self.actor_at(c, s).id.instance_id as nat).slot == s,
            self@[self.actor_at(c, s).id.instance_id as nat] == self.actor_at(c, s),
    {
        assert(self.collections@[c]@.len() == self.collections@[c].len());
        assert(self.collections@.len() == self.collections.len());
        assert(self.actor_loc_ok(c, s));
    }

    /// An instance is found at the position the slot map records.
    proof fn lemma_instance(&self, i: nat)
        requires
            self.wf(),
            self@.contains_key(i),
        ensures
            self.indices_of(i).collection < self.n_collections(),
            self.indices_of(i).slot < self.collection_len(self.indices_of(i).collection as int),
            self.actor_at(self.indices_of(i).collection as int, self.indices_of(i).slot as int).id.instance_id
                == i,
    {
        assert(self.slot_ok(i as int));
    }

    /// If the actor that may have outgrown its collection fits after all,
    /// the full invariant holds.
    proof fn lemma_fits(&self, c: int, s: int)
        requires
            self.wf_but(c, s),
            0 <= c < self.collections@.len(),
            0 <= s < self.collections@[c]@.len(),
            self.class_of(self.actor_at(c, s).state) <= c,
        ensures
            self.wf(),
    {
        assert forall|cc: int, ss: int|
            0 <= cc < self.collections@.len() && 0 <= ss < self.collections@[cc]@.len() && (cc != -1
                || ss != -1) implies #[trigger] self.actor_ok(cc, ss) by {
            assert(self.actor_loc_ok(cc, ss));
        }
    }

    /// Delivers `message` once to every instance. An instance whose size
    /// class changed is moved to the collection of its new class; the
    /// collection's last instance takes its slot, and is served next if it
    /// has not been yet.
    pub fn receive_broadcast<M>(&mut self, message: &M)
        where A: Recipient<M>
        requires
            old(self).wf(),
        ensures
            final(self).wf(),
            final(self)@ == all_received(old(self)@, *message),
            final(self).n_ids() == old(self).n_ids(),
            final(self).free_ids() == old(self).free_ids(),
            final(self).spec_base_size() == old(self).spec_base_size(),
    {
        let ghost orig = *self;
        let n_collections = self.collections.len();
        let mut receivers_todo_per_collection: Vec<usize> = Vec::new();
        let mut k: usize = 0;
        while k < n_collections
            invariant
                k <= n_collections,
                n_collections == self.collections@.len(),
                receivers_todo_per_collection@.len() == k,
                forall|j: int| 0 <= j < k ==> receivers_todo_per_collection@[j] == self.collection_len(j),
            decreases n_collections - k,
        {
            receivers_todo_per_collection.push(self.collections[k].len());
            k = k + 1;
        }
        let ghost mut done: Set<nat> = Set::empty();
        let mut c: usize = 0;
        while c < n_collections
            invariant
                self.wf(),
                orig.wf(),
                c <= n_collections,
                n_collections == orig.n_collections(),
                n_collections <= self.n_collections(),
                receivers_todo_per_collection@.len() == n_collections,
                forall|j: int| 0 <= j < n_collections ==> receivers_todo_per_collection@[j] == orig.collection_len(j),
                self.n_ids() == orig.n_ids(),
                self.free_ids() == orig.free_ids(),
                self.base_size == orig.base_size,
                self@.dom() == orig@.dom(),
                forall|i: nat| #[trigger] done.contains(i) ==> orig@.contains_key(i),
                forall|i: nat|
                    #[trigger] orig@.contains_key(i) ==> self@[i] == (if done.contains(i) {
                        received(orig@[i], *message)
                    } else {
                        orig@[i]
                    }),
                forall|i: nat|
                    #[trigger] orig@.contains_key(i) ==> (done.contains(i) <==> orig.indices_of(i).collection < c),
                forall|i: nat|
                    #[trigger] orig@.contains_key(i) && orig.indices_of(i).collection >= c ==> self.indices_of(i)
                        == orig.indices_of(i),
            decreases n_collections - c,
        {
            let mut slot: usize = 0;
            let receivers_todo = receivers_todo_per_collection[c];
            let mut index_after_last_receiver = receivers_todo;
            let mut k: usize = 0;
            proof {
                // The first `receivers_todo` slots still hold unserved instances,
                // as they were; later slots hold served ones.
                assert forall|ss: int| 0 <= ss < orig.collection_len(c as int) implies self.actor_at(c as int, ss)
                    == orig.actor_at(c as int, ss) by {
                    orig.lemma_position(-1, -1, c as int, ss);
                    let i = orig.actor_at(c as int, ss).id.instance_id as nat;
                    self.lemma_instance(i);
                }
                assert(self.collection_len(c as int) >= orig.collection_len(c as int)) by {
                    if self.collection_len(c as int) < orig.collection_len(c as int) {
                        let ss = self.collection_len(c as int) as int;
                        orig.lemma_position(-1, -1, c as int, ss);
                        let i = orig.actor_at(c as int, ss).id.instance_id as nat;
                        self.lemma_instance(i);
                    }
                }
                assert forall|ss: int|
                    orig.collection_len(c as int) <= ss < self.collection_len(c as int) implies done.contains(
                    #[trigger] self.actor_at(c as int, ss).id.instance_id as nat) by {
                    self.lemma_position(-1, -1, c as int, ss);
                    let i = self.actor_at(c as int, ss).id.instance_id as nat;
                    if !done.contains(i) {
                        orig.lemma_instance(i);
                    }
                }
                assert forall|ss: int| 0 <= ss < orig.collection_len(c as int) implies {
                    let i = #[trigger] self.actor_at(c as int, ss).id.instance_id as nat;
                    orig.indices_of(i).collection == c && !done.contains(i)
                } by {
                    orig.lemma_position(-1, -1, c as int, ss);
                }
            }
            while k < receivers_todo
                invariant
                    self.wf(),
                    orig.wf(),
                    c < n_collections,
                    n_collections == orig.n_collections(),
                    n_collections <= self.n_collections(),
                    receivers_todo_per_collection@.len() == n_collections,
                    forall|j: int| 0 <= j < n_collections ==> receivers_todo_per_collection@[j] == orig.collection_len(j),
                    receivers_todo == orig.collection_len(c as int),
                    k <= receivers_todo,
                    slot <= index_after_last_receiver,
                    index_after_last_receiver <= self.collection_len(c as int),
                    index_after_last_receiver - slot == receivers_todo - k,
                    self.n_ids() == orig.n_ids(),
                    self.free_ids() == orig.free_ids(),
                    self.base_size == orig.base_size,
                    self@.dom() == orig@.dom(),
                    forall|i: nat| #[trigger] done.contains(i) ==> orig@.contains_key(i),
                    forall|i: nat|
                        #[trigger] orig@.contains_key(i) ==> self@[i] == (if done.contains(i) {
                            received(orig@[i], *message)
                        } else {
                            orig@[i]
                        }),
                    forall|i: nat|
                        #[trigger] orig@.contains_key(i) && orig.indices_of(i).collection < c ==> done.contains(i),
                    forall|i: nat|
                        #[trigger] orig@.contains_key(i) && orig.indices_of(i).collection > c ==> !done.contains(i)
                            && self.indices_of(i) == orig.indices_of(i),
                    forall|i: nat|
                        #[trigger] orig@.contains_key(i) && orig.indices_of(i).collection == c && !done.contains(i)
                            ==> self.indices_of(i).collection == c,
                    forall|ss: int|
                        slot <= ss < index_after_last_receiver ==> {
                            let i = #[trigger] self.actor_at(c as int, ss).id.instance_id as nat;
                            orig.indices_of(i).collection == c && !done.contains(i)
                        },
                    forall|ss: int|
                        (0 <= ss < slot || index_after_last_receiver <= ss < self.collection_len(c as int))
                            ==> done.contains(#[trigger] self.actor_at(c as int, ss).id.instance_id as nat),
                decreases receivers_todo - k,
            {
                let ghost before = *self;
                let ghost i = self.actor_at(c as int, slot as int).id.instance_id as nat;
                proof {
                    self.lemma_position(-1, -1, c as int, slot as int);
                }
                self.receive_at(c, slot, message);
                proof {
                    done = done.insert(i);
                }
                let is_still_compact = self.in_own_class(c, slot);
                let repeat_slot = if is_still_compact {
                    proof {
                        self.lemma_fits(c as int, slot as int);
                        assert forall|j: nat| #[trigger] orig@.contains_key(j) implies self.indices_of(j)
                            == before.indices_of(j) by {}
                        assert forall|ss: int| slot + 1 <= ss < index_after_last_receiver implies {
                            let j = #[trigger] self.actor_at(c as int, ss).id.instance_id as nat;
                            orig.indices_of(j).collection == c && !done.contains(j)
                        } by {
                            assert(self.actor_at(c as int, ss) == before.actor_at(c as int, ss));
                            before.lemma_position(-1, -1, c as int, ss);
                            before.lemma_position(-1, -1, c as int, slot as int);
                        }
                        assert forall|ss: int|
                            (0 <= ss < slot + 1 || index_after_last_receiver <= ss < self.collection_len(c as int))
                            implies done.contains(#[trigger] self.actor_at(c as int, ss).id.instance_id as nat) by {
                            if ss != slot {
                                assert(self.actor_at(c as int, ss) == before.actor_at(c as int, ss));
                            }
                        }
                    }
                    false
                } else {
                    let ghost mid = *self;
                    let ghost len = mid.collection_len(c as int);
                    let _ = self.resize_at_index(c, slot);
                    let swapped_in_another_receiver = self.collections[c].len() < index_after_last_receiver;
                    proof {
                        let cls = mid.class_of(mid.actor_at(c as int, slot as int).state);
                        assert(cls != c);
                        assert(self.collection_len(c as int) == len - 1);
                        assert(swapped_in_another_receiver == (len == index_after_last_receiver));
                        mid.lemma_position(c as int, slot as int, c as int, slot as int);
                        // Lengths of other collections never shrink.
                        assert forall|cc: int| 0 <= cc < mid.n_collections() && cc != c implies self.collection_len(cc)
                            >= mid.collection_len(cc) by {}
                        // Instances outside collection `c` keep their positions.
                        assert forall|j: nat|
                            #[trigger] orig@.contains_key(j) && orig.indices_of(j).collection > c implies self.indices_of(j)
                                == orig.indices_of(j) by {
                            before.lemma_instance(j);
                            let ix = before.indices_of(j);
                            assert(mid.actor_at(ix.collection as int, ix.slot as int) == before.actor_at(
                                ix.collection as int,
                                ix.slot as int,
                            ));
                            assert(self.actor_at(ix.collection as int, ix.slot as int) == mid.actor_at(
                                ix.collection as int,
                                ix.slot as int,
                            ));
                            assert(self.collection_len(ix.collection as int) >= mid.collection_len(ix.collection as int));
                            self.lemma_position(-1, -1, ix.collection as int, ix.slot as int);
                        }
                        // Unserved instances of collection `c` stay in it.
                        assert forall|j: nat|
                            #[trigger] orig@.contains_key(j) && orig.indices_of(j).collection == c && !done.contains(j)
                            implies self.indices_of(j).collection == c by {
                            before.lemma_instance(j);
                            let p = before.indices_of(j).slot as int;
                            before.lemma_position(-1, -1, c as int, p);
                            if p == len - 1 && slot < len - 1 {
                                assert(self.actor_at(c as int, slot as int) == mid.actor_at(c as int, p));
                                self.lemma_position(-1, -1, c as int, slot as int);
                            } else {
                                assert(p != slot);
                                assert(self.actor_at(c as int, p) == mid.actor_at(c as int, p));
                                self.lemma_position(-1, -1, c as int, p);
                            }
                        }
                        let new_slot: int = if swapped_in_another_receiver { slot as int } else { slot + 1 };
                        let new_after: int = if swapped_in_another_receiver {
                            index_after_last_receiver - 1
                        } else {
                            index_after_last_receiver as int
                        };
                        assert forall|ss: int| new_slot <= ss < new_after implies {
                            let j = #[trigger] self.actor_at(c as int, ss).id.instance_id as nat;
                            orig.indices_of(j).collection == c && !done.contains(j)
                        } by {
                            before.lemma_position(-1, -1, c as int, slot as int);
                            if ss == slot {
                                assert(self.actor_at(c as int, ss) == mid.actor_at(c as int, len - 1));
                                assert(mid.actor_at(c as int, len - 1) == before.actor_at(c as int, len - 1));
                                before.lemma_position(-1, -1, c as int, len - 1);
                            } else {
                                assert(self.actor_at(c as int, ss) == mid.actor_at(c as int, ss));
                                assert(mid.actor_at(c as int, ss) == before.actor_at(c as int, ss));
                                before.lemma_position(-1, -1, c as int, ss);
                            }
                        }
                        assert forall|ss: int|
                            (0 <= ss < new_slot || new_after <= ss < self.collection_len(c as int))
                            implies done.contains(#[trigger] self.actor_at(c as int, ss).id.instance_id as nat) by {
                            if ss == slot {
                                assert(self.actor_at(c as int, ss) == mid.actor_at(c as int, len - 1));
                                assert(mid.actor_at(c as int, len - 1) == before.actor_at(c as int, len - 1));
                            } else {
                                assert(self.actor_at(c as int, ss) == mid.actor_at(c as int, ss));
                                assert(mid.actor_at(c as int, ss) == before.actor_at(c as int, ss));
                            }
                        }
                    }
                    if swapped_in_another_receiver {
                        index_after_last_receiver = index_after_last_receiver - 1;
                        true
                    } else {
                        false
                    }
                };
                if !repeat_slot {
                    slot = slot + 1;
                }
                k = k + 1;
            }
            proof {
                assert forall|i: nat| #[trigger] orig@.contains_key(i) implies (done.contains(i)
                    <==> orig.indices_of(i).collection < c + 1) by {
                    if orig.indices_of(i).collection == c && !done.contains(i) {
                        self.lemma_instance(i);
                        let p = self.indices_of(i).slot as int;
                        self.lemma_position(-1, -1, c as int, p);
                    }
                }
            }
            c = c + 1;
        }
        proof {
            assert(self@ =~= all_received(orig@, *message)) by {
                assert forall|i: nat| #[trigger] orig@.contains_key(i) implies done.contains(i) by {
                    orig.lemma_instance(i);
                }
            }
        }
    }
}

impl<A: Compact> Swarm<A> {
    /// Delivers `message` to the swarm: to every instance for a broadcast
    /// address, else to the addressed instance.
    pub fn receive<M>(&mut self, message: &M, recipient_id: ID)
        where A: Recipient<M>
        requires
            old(self).wf(),
            recipient_id.instance_id != super::BROADCAST_INSTANCE_ID ==> old(self)@.contains_key(
                recipient_id.instance_id as nat,
            ),
        ensures
            final(self).wf(),
            final(self)@ == (if recipient_id.instance_id == super::BROADCAST_INSTANCE_ID {
                all_received(old(self)@, *message)
            } else {
                old(self)@.insert(
                    recipient_id.instance_id as nat,
                    received(old(self)@[recipient_id.instance_id as nat], *message),
                )
            }),
            final(self).n_ids() == old(self).n_ids(),
            final(self).free_ids() == old(self).free_ids(),
            final(self).spec_base_size() == old(self).spec_base_size(),
    {
        if recipient_id.is_broadcast() {
            self.receive_broadcast(message);
        } else {
            self.receive_instance(message, recipient_id);
        }
    }
}

/// Instance ids stay below the broadcast instance id.
pub const BROADCAST_ID_BOUND: usize = 0xffff_ffffusize;

impl<A: Compact> View for Swarm<A> {
    type V = Map<nat, LivingActor<A>>;

    open spec fn view(&self) -> Map<nat, LivingActor<A>> {
        self.instances()
    }
}

} // verus!
