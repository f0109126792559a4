//! Households: families whose members take on tasks offered on the market.
use vstd::prelude::*;
use crate::kay::{CDict, ID};
use crate::kay::compact_dict::keys_of;
use crate::simulation::{TimeOfDay, Timestamp};
use super::resources::{Bag, ResourceId};
use super::market::{same_deal, EvaluatedDeal, Evaluate, Search};
use crate::lanes_and_cars::pathfinding::trip::{CreatedTrip, Start, Trip};
use self::tasks::{Task, TaskState};

pub mod tasks;

verus! {

/// Index of a member within its household.
#[derive(Clone, Copy, PartialEq, Eq, Debug, Structural)]
pub struct MemberIdx(pub usize);

/// The deals considered for one resource, and how many are expected in all.
pub struct DecisionResourceEntry {
    pub n_deals_expected: usize,
    pub deals: Vec<EvaluatedDeal>,
}

/// Where a household is in deciding on a member's next task.
pub enum DecisionState {
    Idle,
    Choosing(MemberIdx, Timestamp, CDict<ResourceId, DecisionResourceEntry>),
    WaitingForTrip(MemberIdx),
}

/// A household: its resources, its members' resources and tasks, where it
/// stands in deciding, and the offers it (or each member) uses per resource.
pub struct Family {
    pub resources: Bag,
    pub member_resources: Vec<Bag>,
    pub member_tasks: Vec<Task>,
    pub decision_state: DecisionState,
    pub used_offers: CDict<ResourceId, ID>,
    pub member_used_offers: Vec<CDict<ResourceId, ID>>,
}

/// A request sent while looking for a new task: an evaluation by an offer
/// already in use, or a search of the market.
#[derive(Clone, Copy, Debug)]
pub enum TaskQuery {
    Evaluate(ID, Evaluate),
    Search(Search),
}

/// The first member (by index) who is idle, with where.
pub open spec fn first_idle(tasks: Seq<Task>) -> Option<(MemberIdx, ID)>
    decreases tasks.len(),
{
    if tasks.len() == 0 {
        None
    } else {
        match first_idle(tasks.drop_last()) {
            Some(found) => Some(found),
            None => match tasks.last().state {
                TaskState::IdleAt(location) => Some((MemberIdx((tasks.len() - 1) as usize), location)),
                _ => None,
            },
        }
    }
}

/// The members whose task is the trip `trip`, in order.
pub open spec fn members_in_trip(tasks: Seq<Task>, trip: ID) -> Seq<MemberIdx>
    decreases tasks.len(),
{
    if tasks.len() == 0 {
        Seq::empty()
    } else {
        let init = members_in_trip(tasks.drop_last(), trip);
        if tasks.last().state == TaskState::InTrip(trip) {
            init.push(MemberIdx((tasks.len() - 1) as usize))
        } else {
            init
        }
    }
}

/// Every entry has all the deals it expects.
pub open spec fn all_considered(entries: Seq<(ResourceId, DecisionResourceEntry)>) -> bool {
    forall|k: int| 0 <= k < entries.len() ==> (#[trigger] entries[k]).1.n_deals_expected == entries[k].1.deals@.len()
}

impl Family {
    pub open spec fn wf(&self) -> bool {
        &&& self.used_offers.wf()
        &&& forall|m: int| 0 <= m < self.member_used_offers@.len() ==> (#[trigger] self.member_used_offers@[m]).wf()
        &&& self.decision_state matches DecisionState::Choosing(_, _, entries) ==> entries.wf()
    }

    /// Handles `Wake`: when not deciding, the first idle member and where it
    /// is, for a new task to be found (see `find_new_task_for`).
    pub fn wake(&self) -> (idle: Option<(MemberIdx, ID)>)
        ensures
            idle == (match self.decision_state {
                DecisionState::Idle => first_idle(self.member_tasks@),
                _ => None,
            }),
            idle matches Some((m, location)) ==> m.0 < self.member_tasks@.len() && self.member_tasks@[m.0 as int].state
                == TaskState::IdleAt(location) && forall|j: int|
                0 <= j < m.0 ==> !(#[trigger] self.member_tasks@[j].state is IdleAt),
            self.decision_state is Idle && idle is None ==> forall|j: int|
                0 <= j < self.member_tasks@.len() ==> !(#[trigger] self.member_tasks@[j].state is IdleAt),
    {
        let n_members = self.member_tasks.len();
        proof {
            assert(self.member_tasks@.len() == n_members);
            lemma_first_idle_is_first(self.member_tasks@);
        }
        match self.decision_state {
            DecisionState::Idle => {
                let mut k: usize = 0;
                let mut found: Option<(MemberIdx, ID)> = None;
                while k < self.member_tasks.len() && found.is_none()
                    invariant
                        k <= self.member_tasks@.len(),
                        found == first_idle(self.member_tasks@.subrange(0, k as int)),
                    decreases self.member_tasks@.len() - k,
                {
                    proof {
                        assert(self.member_tasks@.subrange(0, k + 1).drop_last() =~= self.member_tasks@.subrange(0, k as int));
                    }
                    match self.member_tasks[k].state {
                        TaskState::IdleAt(location) => {
                            found = Some((MemberIdx(k), location));
                        },
                        _ => {},
                    }
                    k = k + 1;
                }
                proof {
                    lemma_first_idle_prefix(self.member_tasks@, k as int);
                }
                found
            },
            _ => None,
        }
    }

    /// Looks for a new task for `member` (of household `self_id`) at
    /// `location`, as of `tick` (`time` of day), given its top problems: for
    /// each problem's resource, an offer already used for it (by the
    /// household where the supplier is shared, else by the member) is asked
    /// to evaluate, else the market is searched; each resource then expects
    /// one deal. The household is then choosing.
    pub fn find_new_task_for(
        &mut self,
        self_id: ID,
        member: MemberIdx,
        tick: Timestamp,
        time: TimeOfDay,
        location: ID,
        problems: &Vec<(ResourceId, bool)>,
    ) -> (queries: Vec<TaskQuery>)
        requires
            old(self).wf(),
            member.0 < old(self).member_used_offers@.len(),
        ensures
            final(self).wf(),
            queries@.len() == problems@.len(),
            forall|k: int|
                0 <= k < problems@.len() ==> {
                    let (resource, shared) = #[trigger] problems@[k];
                    let used = if shared {
                        old(self).used_offers.as_map()
                    } else {
                        old(self).member_used_offers@[member.0 as int].as_map()
                    };
                    queries@[k] == if used.contains_key(resource) {
                        TaskQuery::Evaluate(used[resource], Evaluate { time, location, requester: self_id })
                    } else {
                        TaskQuery::Search(Search { time, location, resource, requester: self_id })
                    }
                },
            final(self).decision_state matches DecisionState::Choosing(m, t, entries) && m == member && t == tick
                && keys_of(entries.entries()).to_set() == problems@.map_values(|p: (ResourceId, bool)| p.0).to_set()
                && forall|k: int|
                0 <= k < entries.entries().len() ==> (#[trigger] entries.entries()[k]).1.n_deals_expected == 1
                    && entries.entries()[k].1.deals@.len() == 0,
            final(self).member_tasks == old(self).member_tasks,
            final(self).used_offers == old(self).used_offers,
            final(self).member_used_offers == old(self).member_used_offers,
    {
        let mut decision_entries: CDict<ResourceId, DecisionResourceEntry> = CDict::new();
        let mut queries: Vec<TaskQuery> = Vec::new();
        let mut k: usize = 0;
        while k < problems.len()
            invariant
                self.wf(),
                self == old(self),
                member.0 < self.member_used_offers@.len(),
                k <= problems@.len(),
                queries@.len() == k,
                decision_entries.wf(),
                forall|j: int|
                    0 <= j < k ==> {
                        let (resource, shared) = #[trigger] problems@[j];
                        let used = if shared {
                            self.used_offers.as_map()
                        } else {
                            self.member_used_offers@[member.0 as int].as_map()
                        };
                        queries@[j] == if used.contains_key(resource) {
                            TaskQuery::Evaluate(used[resource], Evaluate { time, location, requester: self_id })
                        } else {
                            TaskQuery::Search(Search { time, location, resource, requester: self_id })
                        }
                    },
                keys_of(decision_entries.entries()).to_set() == problems@.subrange(0, k as int).map_values(
                    |p: (ResourceId, bool)| p.0,
                ).to_set(),
                forall|j: int|
                    0 <= j < decision_entries.entries().len() ==> (#[trigger] decision_entries.entries()[j]).1.n_deals_expected
                        == 1 && decision_entries.entries()[j].1.deals@.len() == 0,
            decreases problems@.len() - k,
        {
            let (resource, shared) = problems[k];
            let maybe_offer = if shared {
                self.used_offers.get(resource)
            } else {
                self.member_used_offers[member.0].get(resource)
            };
            match maybe_offer {
                Some(offer) => {
                    queries.push(TaskQuery::Evaluate(*offer, Evaluate { time, location, requester: self_id }));
                },
                None => {
                    queries.push(TaskQuery::Search(Search { time, location, resource, requester: self_id }));
                },
            }
            let ghost before = decision_entries.entries();
            let fresh = DecisionResourceEntry { n_deals_expected: 1, deals: Vec::new() };
            let ghost fresh_entry = fresh;
            decision_entries.insert(resource, fresh);
            proof {
                broadcast use vstd::seq::Seq::lemma_push_to_set_commute;
                let ks = problems@.subrange(0, k + 1).map_values(|p: (ResourceId, bool)| p.0);
                assert(ks =~= problems@.subrange(0, k as int).map_values(|p: (ResourceId, bool)| p.0).push(resource));
                assert(keys_of(decision_entries.entries()).to_set() =~= keys_of(before).to_set().insert(resource)) by {
                    if exists|i: int| 0 <= i < before.len() && before[i].0 == resource {
                        let i = choose|i: int| 0 <= i < before.len() && before[i].0 == resource;
                        assert(keys_of(before)[i] == resource);
                        assert(keys_of(decision_entries.entries()) == keys_of(before));
                        assert(keys_of(before).to_set().contains(resource));
                    } else {
                        assert(keys_of(decision_entries.entries()) =~= keys_of(before).push(resource));
                    }
                }
                assert forall|j: int| 0 <= j < decision_entries.entries().len() implies (#[trigger] decision_entries.entries()[j]).1.n_deals_expected
                    == 1 && decision_entries.entries()[j].1.deals@.len() == 0 by {
                    if j < before.len() && decision_entries.entries()[j] != before[j] {
                        assert(decision_entries.entries()[j].1 == fresh_entry);
                    }
                }
            }
            k = k + 1;
        }
        proof {
            assert(problems@.subrange(0, k as int) =~= problems@);
        }
        self.decision_state = DecisionState::Choosing(member, tick, decision_entries);
        queries
    }

    /// Takes an evaluated deal into consideration while choosing: the entry of
    /// the resource it gives now expects `n_to_expect` deals and has this one
    /// added. Returns whether every entry has all the deals it expects. Only
    /// valid while choosing, for a resource that was asked about.
    pub fn add_into_consideration(&mut self, evaluated: &EvaluatedDeal, n_to_expect: usize) -> (done: bool)
        requires
            old(self).wf(),
            old(self).decision_state matches DecisionState::Choosing(_, _, entries) && entries.as_map().contains_key(
                evaluated.deal.give.0,
            ),
        ensures
            final(self).wf(),
            old(self).decision_state matches DecisionState::Choosing(m, t, entries) && final(self).decision_state matches DecisionState::Choosing(
                m2,
                t2,
                entries2,
            ) && m2 == m && t2 == t && keys_of(entries2.entries()) == keys_of(entries.entries()) && (forall|k: int|
                0 <= k < entries.entries().len() && entries.entries()[k].0 != evaluated.deal.give.0
                    ==> #[trigger] entries2.entries()[k] == entries.entries()[k]) && (forall|k: int|
                0 <= k < entries.entries().len() && entries.entries()[k].0 == evaluated.deal.give.0 ==> {
                    &&& (#[trigger] entries2.entries()[k]).1.n_deals_expected == n_to_expect
                    &&& entries2.entries()[k].1.deals@.drop_last() == entries.entries()[k].1.deals@
                    &&& entries2.entries()[k].1.deals@.len() == entries.entries()[k].1.deals@.len() + 1
                    &&& entries2.entries()[k].1.deals@.last().offer == evaluated.offer
                    &&& same_deal(entries2.entries()[k].1.deals@.last().deal, evaluated.deal)
                    &&& entries2.entries()[k].1.deals@.last().from == evaluated.from
                    &&& entries2.entries()[k].1.deals@.last().to == evaluated.to
                }) && done == all_considered(entries2.entries()),
            final(self).member_tasks == old(self).member_tasks,
            final(self).used_offers == old(self).used_offers,
            final(self).member_used_offers == old(self).member_used_offers,
    {
        let mut state = DecisionState::Idle;
        core::mem::swap(&mut self.decision_state, &mut state);
        match state {
            DecisionState::Choosing(member, tick, mut entries) => {
                let resource = evaluated.deal.give.0;
                let pos = entries.position(resource).unwrap();
                let ghost before = entries.entries();
                let mut entry = entries.replace_value_at(pos, DecisionResourceEntry { n_deals_expected: 0, deals: Vec::new() });
                entry.n_deals_expected = n_to_expect;
                entry.deals.push(evaluated.duplicate());
                entries.set_value_at(pos, entry);
                proof {
                    assert forall|k: int| 0 <= k < before.len() && before[k].0 == resource implies k == pos as int by {
                        assert(keys_of(before)[k] == keys_of(before)[pos as int]);
                    }
                    assert(keys_of(entries.entries()) =~= keys_of(before));
                }
                let mut done = true;
                let mut k: usize = 0;
                while k < entries.len()
                    invariant
                        k <= entries.entries().len(),
                        done == forall|j: int|
                            0 <= j < k ==> (#[trigger] entries.entries()[j]).1.n_deals_expected == entries.entries()[j].1.deals@.len(),
                    decreases entries.entries().len() - k,
                {
                    let e = entries.pair_at(k);
                    if e.1.n_deals_expected != e.1.deals.len() {
                        done = false;
                    }
                    k = k + 1;
                }
                self.decision_state = DecisionState::Choosing(member, tick, entries);
                done
            },
            _ => {
                proof {
                    assert(false);
                }
                false
            },
        }
    }

    /// Takes up the deal at position `best` (an entry, then a deal of it)
    /// among those considered, for the deciding member: the most useful one,
    /// usefulness being weighed in floating point by the caller. The member,
    /// who must be idle, gets ready at its location for the deal's offer; the
    /// household then waits for the trip there, which is started (see
    /// `start_trip`) for household `family_id`.
    pub fn choose_deal(&mut self, best: (usize, usize), family_id: ID) -> (started: (Trip, Start))
        requires
            old(self).decision_state matches DecisionState::Choosing(member, _, entries) && member.0
                < old(self).member_tasks@.len() && old(self).member_tasks@[member.0 as int].state is IdleAt && best.0
                < entries.entries().len() && best.1 < entries.entries()[best.0 as int].1.deals@.len(),
        ensures
            old(self).decision_state matches DecisionState::Choosing(member, tick, entries) && {
                let offer = entries.entries()[best.0 as int].1.deals@[best.1 as int].offer;
                let location = old(self).member_tasks@[member.0 as int].state->IdleAt_0;
                &&& final(self).member_tasks@ == old(self).member_tasks@.update(
                    member.0 as int,
                    Task { offer, state: TaskState::GettingReadyAt(location) },
                )
                &&& final(self).decision_state == DecisionState::WaitingForTrip(member)
                &&& started.0 == (Trip {
                    source: location,
                    rough_destination: offer,
                    listener: Some(family_id),
                    destination: None,
                })
                &&& started.1 == Start(tick)
            },
            final(self).resources == old(self).resources,
            final(self).member_resources == old(self).member_resources,
            final(self).used_offers == old(self).used_offers,
            final(self).member_used_offers == old(self).member_used_offers,
    {
        let (member, tick, offer) = match &self.decision_state {
            DecisionState::Choosing(member, tick, entries) => {
                let entry = entries.pair_at(best.0);
                (*member, *tick, entry.1.deals[best.1].offer)
            },
            _ => {
                proof {
                    assert(false);
                }
                (MemberIdx(0), Timestamp(0), family_id)
            },
        };
        let location = match self.member_tasks[member.0].state {
            TaskState::IdleAt(location) => location,
            _ => {
                proof {
                    assert(false);
                }
                family_id
            },
        };
        self.member_tasks.set(member.0, Task { offer, state: TaskState::GettingReadyAt(location) });
        self.decision_state = DecisionState::WaitingForTrip(member);
        self.start_trip(member, tick, family_id)
    }

    /// Starts the trip of a member getting ready for a task: from where it is
    /// to the task's offer, reported to household `family_id`, at `tick`.
    pub fn start_trip(&self, member: MemberIdx, tick: Timestamp, family_id: ID) -> (started: (Trip, Start))
        requires
            member.0 < self.member_tasks@.len(),
            self.member_tasks@[member.0 as int].state is GettingReadyAt,
        ensures
            started.0 == (Trip {
                source: self.member_tasks@[member.0 as int].state->GettingReadyAt_0,
                rough_destination: self.member_tasks@[member.0 as int].offer,
                listener: Some(family_id),
                destination: None,
            }),
            started.1 == Start(tick),
    {
        let task = self.member_tasks[member.0];
        match task.state {
            TaskState::GettingReadyAt(source) => (Trip::new(source, task.offer, Some(family_id)), Start(tick)),
            _ => {
                proof {
                    assert(false);
                }
                (Trip::new(family_id, task.offer, Some(family_id)), Start(tick))
            },
        }
    }

    /// Handles `CreatedTrip`: the member waiting for its trip is now in that
    /// trip, and the household decides no more. Only valid while waiting for
    /// a trip, for one of its members.
    pub fn created_trip(&mut self, msg: &CreatedTrip)
        requires
            old(self).decision_state matches DecisionState::WaitingForTrip(m) && m.0 < old(self).member_tasks@.len(),
        ensures
            old(self).decision_state matches DecisionState::WaitingForTrip(m) && final(self).member_tasks@
                == old(self).member_tasks@.update(
                m.0 as int,
                Task { state: TaskState::InTrip(msg.0), ..old(self).member_tasks@[m.0 as int] },
            ),
            final(self).decision_state is Idle,
            final(self).used_offers == old(self).used_offers,
            final(self).member_used_offers == old(self).member_used_offers,
    {
        match self.decision_state {
            DecisionState::WaitingForTrip(member) => {
                let task = self.member_tasks[member.0];
                self.member_tasks.set(member.0, Task { state: TaskState::InTrip(msg.0), ..task });
                self.decision_state = DecisionState::Idle;
            },
            _ => {
                proof {
                    assert(false);
                }
            },
        }
    }

    /// Handles a trip's result: the members whose task is that trip (they
    /// then stop or start their task there, by whether it failed).
    pub fn trip_members(&self, trip: ID) -> (members: Vec<MemberIdx>)
        ensures
            members@ == members_in_trip(self.member_tasks@, trip),
    {
        let mut members: Vec<MemberIdx> = Vec::new();
        let mut k: usize = 0;
        while k < self.member_tasks.len()
            invariant
                k <= self.member_tasks@.len(),
                members@ == members_in_trip(self.member_tasks@.subrange(0, k as int), trip),
            decreases self.member_tasks@.len() - k,
        {
            proof {
                assert(self.member_tasks@.subrange(0, k + 1).drop_last() =~= self.member_tasks@.subrange(0, k as int));
            }
            match self.member_tasks[k].state {
                TaskState::InTrip(trip_id) => {
                    if trip_id.same(&trip) {
                        members.push(MemberIdx(k));
                    }
                },
                _ => {},
            }
            k = k + 1;
        }
        proof {
            assert(self.member_tasks@.subrange(0, k as int) =~= self.member_tasks@);
        }
        members
    }
}

/// The member that `first_idle` finds is idle, where it says, and the first
/// idle one: every member before it is busy; and it finds none only when no
/// member is idle.
pub proof fn lemma_first_idle_is_first(tasks: Seq<Task>)
    requires
        tasks.len() <= usize::MAX,
    ensures
        match first_idle(tasks) {
            Some((m, location)) => {
                &&& m.0 < tasks.len()
                &&& tasks[m.0 as int].state == TaskState::IdleAt(location)
                &&& forall|j: int| 0 <= j < m.0 ==> !(#[trigger] tasks[j].state is IdleAt)
            },
            None => forall|j: int| 0 <= j < tasks.len() ==> !(#[trigger] tasks[j].state is IdleAt),
        },
    decreases tasks.len(),
{
    if tasks.len() > 0 {
        let init = tasks.drop_last();
        lemma_first_idle_is_first(init);
        assert forall|j: int| 0 <= j < init.len() implies init[j] == tasks[j] by {}
        match first_idle(init) {
            Some((m, location)) => {
                assert(first_idle(tasks) == Some((m, location)));
                assert forall|j: int| 0 <= j < m.0 implies !(#[trigger] tasks[j].state is IdleAt) by {
                    assert(init[j] == tasks[j]);
                }
            },
            None => {
                assert forall|j: int| 0 <= j < init.len() implies !(#[trigger] tasks[j].state is IdleAt) by {
                    assert(init[j] == tasks[j]);
                }
                match tasks.last().state {
                    TaskState::IdleAt(location) => {
                        assert(first_idle(tasks) == Some((MemberIdx((tasks.len() - 1) as usize), location)));
                    },
                    _ => {
                        assert(first_idle(tasks) is None);
                    },
                }
            },
        }
    }
}

/// The first idle member of all tasks is that of a prefix as soon as the
/// prefix has one or covers all tasks.
proof fn lemma_first_idle_prefix(tasks: Seq<Task>, k: int)
    requires
        0 <= k <= tasks.len(),
        first_idle(tasks.subrange(0, k)) is Some || k == tasks.len(),
    ensures
        first_idle(tasks) == first_idle(tasks.subrange(0, k)),
    decreases tasks.len() - k,
{
    if k == tasks.len() {
        assert(tasks.subrange(0, k) =~= tasks);
    } else {
        assert(tasks.subrange(0, k + 1).drop_last() =~= tasks.subrange(0, k));
        lemma_first_idle_prefix(tasks, k + 1);
    }
}

} // verus!
