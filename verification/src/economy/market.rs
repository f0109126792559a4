//! The market: offers of deals at places, and estimates of what taking them
//! costs in travel.
use vstd::prelude::*;
use crate::kay::{CDict, Compact, Fate, ID};
use crate::kay::messaging::capped;
use crate::simulation::{DurationSeconds, TimeOfDay};
use crate::lanes_and_cars::pathfinding::{Destination, GetDistanceTo, QueryAsDestination, TellAsDestination};
use super::resources::{Bag, ResourceId, ResourceValue};
use super::households::MemberIdx;

verus! {

/// A deal: how long it takes, what it takes, and what it gives.
#[derive(Debug)]
pub struct Deal {
    pub duration: DurationSeconds,
    pub take: Bag,
    pub give: (ResourceId, ResourceValue),
}

impl Deal {
    /// A deal with the same terms.
    pub fn duplicate(&self) -> (d: Deal)
        ensures
            d.duration == self.duration,
            d.take.entries() == self.take.entries(),
            d.give == self.give,
    {
        Deal { duration: self.duration, take: self.take.duplicate(), give: self.give }
    }
}

/// Two deals have the same terms.
pub open spec fn same_deal(a: Deal, b: Deal) -> bool {
    a.duration == b.duration && a.take.entries() == b.take.entries() && a.give == b.give
}

/// An offer of a deal by `by` at lane `location`, available between `from`
/// and `to`, with the household members using it.
#[derive(Debug)]
pub struct Offer {
    pub by: ID,
    pub location: ID,
    pub from: TimeOfDay,
    pub to: TimeOfDay,
    pub deal: Deal,
    pub users: Vec<(ID, Option<MemberIdx>)>,
}

/// The bytes of `n` items of `size` bytes each, capped.
fn items_bytes(n: usize, size: usize) -> (bytes: usize)
    ensures
        bytes == capped(n * size),
{
    match n.checked_mul(size) {
        Some(b) => b,
        None => usize::MAX,
    }
}

impl Compact for Offer {
    open spec fn spec_total_size_bytes(&self) -> nat {
        capped((vstd::layout::size_of::<Offer>() + self.spec_dynamic_size_bytes()) as int)
    }

    /// The users and the resources the deal takes are stored outside the offer.
    open spec fn spec_dynamic_size_bytes(&self) -> nat {
        capped(
            (capped((self.users@.len() * vstd::layout::size_of::<(ID, Option<MemberIdx>)>()) as int) + capped(
                (self.deal.take.entries().len() * vstd::layout::size_of::<(ResourceId, ResourceValue)>()) as int,
            )) as int,
        )
    }

    fn total_size_bytes(&self) -> (n: usize) {
        core::mem::size_of::<Offer>().saturating_add(self.dynamic_size_bytes())
    }

    fn dynamic_size_bytes(&self) -> (n: usize) {
        let users = items_bytes(self.users.len(), core::mem::size_of::<(ID, Option<MemberIdx>)>());
        let take = items_bytes(self.deal.take.len(), core::mem::size_of::<(ResourceId, ResourceValue)>());
        users.saturating_add(take)
    }
}

/// The offers for each resource.
pub struct Market {
    pub offers_by_resource: CDict<ResourceId, Vec<ID>>,
}

impl Market {
    /// A market without offers.
    pub fn new() -> (m: Market)
        ensures
            m.offers_by_resource.wf(),
            m.offers_by_resource.entries().len() == 0,
    {
        Market { offers_by_resource: CDict::new() }
    }
}

/// Asks an offer what it would take for `requester` at `location` at `time`.
#[derive(Clone, Copy, Debug)]
pub struct Evaluate {
    pub time: TimeOfDay,
    pub location: ID,
    pub requester: ID,
}

/// Searches for offers of `resource` for `requester` at `location` at `time`.
#[derive(Clone, Copy, Debug)]
pub struct Search {
    pub time: TimeOfDay,
    pub location: ID,
    pub resource: ResourceId,
    pub requester: ID,
}

/// A deal of an offer, as available between `from` and `to`.
#[derive(Debug)]
pub struct EvaluatedDeal {
    pub offer: ID,
    pub deal: Deal,
    pub from: TimeOfDay,
    pub to: TimeOfDay,
}

impl EvaluatedDeal {
    /// An evaluated deal with the same offer, terms and times.
    pub fn duplicate(&self) -> (d: EvaluatedDeal)
        ensures
            d.offer == self.offer,
            same_deal(d.deal, self.deal),
            d.from == self.from,
            d.to == self.to,
    {
        EvaluatedDeal { offer: self.offer, deal: self.deal.duplicate(), from: self.from, to: self.to }
    }
}

/// Found deals for a resource, with how many results to expect in all.
#[derive(Debug)]
pub struct EvaluatedSearchResult {
    pub resource: ResourceId,
    pub n_to_expect: usize,
    pub some_results: Vec<EvaluatedDeal>,
}

/// Asks an offer for its deal, for a member of household `ID`.
#[derive(Clone, Copy, Debug)]
pub struct GetApplicableDeal(pub ID, pub MemberIdx);

/// An offer's deal, for a member.
#[derive(Debug)]
pub struct ApplicableDeal(pub Deal, pub MemberIdx);

/// Household `ID` (or one of its members) started using an offer.
#[derive(Clone, Copy, Debug)]
pub struct StartedUsing(pub ID, pub Option<MemberIdx>);

/// Household `ID` (or one of its members) stopped using an offer.
#[derive(Clone, Copy, Debug)]
pub struct StoppedUsing(pub ID, pub Option<MemberIdx>);

/// What an offer answers to `Evaluate`.
#[derive(Debug)]
pub enum Evaluation {
    /// Still available: an estimator of the travel cost is to be created.
    Estimate(TripCostEstimator),
    /// No longer available: `ID` is told that nothing is to be expected.
    Unavailable(ID, EvaluatedSearchResult),
}

impl Offer {
    /// Handles `Evaluate` at offer `self_id`: before the end of the offer,
    /// an estimator is made for the trip from the requester's location to the
    /// offer's, with the offer's deal as the one result to expect; later, the
    /// requester learns that no result is to be expected.
    pub fn evaluate(&self, self_id: ID, msg: &Evaluate) -> (e: Evaluation)
        ensures
            match e {
                Evaluation::Estimate(est) => {
                    &&& msg.time.0 < self.to.0
                    &&& est.requester == msg.requester
                    &&& est.rough_source == msg.location
                    &&& est.rough_destination == self.location
                    &&& est.source is None
                    &&& est.destination is None
                    &&& est.base_result.resource == self.deal.give.0
                    &&& est.base_result.n_to_expect == 1
                    &&& est.base_result.some_results@.len() == 1
                    &&& est.base_result.some_results@[0].offer == self_id
                    &&& same_deal(est.base_result.some_results@[0].deal, self.deal)
                    &&& est.base_result.some_results@[0].from == self.from
                    &&& est.base_result.some_results@[0].to == self.to
                },
                Evaluation::Unavailable(to, result) => {
                    &&& msg.time.0 >= self.to.0
                    &&& to == msg.requester
                    &&& result.resource == self.deal.give.0
                    &&& result.n_to_expect == 0
                    &&& result.some_results@.len() == 0
                },
            },
    {
        if msg.time.0 < self.to.0 {
            let mut some_results: Vec<EvaluatedDeal> = Vec::new();
            some_results.push(EvaluatedDeal {
                offer: self_id,
                deal: self.deal.duplicate(),
                from: self.from,
                to: self.to,
            });
            let search_result = EvaluatedSearchResult { resource: self.deal.give.0, n_to_expect: 1, some_results };
            Evaluation::Estimate(TripCostEstimator::new(msg.requester, msg.location, self.location, search_result))
        } else {
            Evaluation::Unavailable(
                msg.requester,
                EvaluatedSearchResult { resource: self.deal.give.0, n_to_expect: 0, some_results: Vec::new() },
            )
        }
    }

    /// Handles `GetApplicableDeal`: the household gets the offer's deal for its member.
    pub fn get_applicable_deal(&self, msg: &GetApplicableDeal) -> (out: (ID, ApplicableDeal))
        ensures
            out.0 == msg.0,
            same_deal(out.1.0, self.deal),
            out.1.1 == msg.1,
    {
        (msg.0, ApplicableDeal(self.deal.duplicate(), msg.1))
    }

    /// Handles `StartedUsing`: the user is added last.
    pub fn started_using(&mut self, msg: &StartedUsing)
        ensures
            final(self).users@ == old(self).users@.push((msg.0, msg.1)),
            final(self).by == old(self).by,
            final(self).location == old(self).location,
            final(self).from == old(self).from,
            final(self).to == old(self).to,
            final(self).deal == old(self).deal,
    {
        self.users.push((msg.0, msg.1));
    }

    /// Handles `StoppedUsing`: every entry of that user is dropped, the others
    /// keep their order.
    pub fn stopped_using(&mut self, msg: &StoppedUsing)
        ensures
            final(self).users@ == old(self).users@.filter(other_user(msg.0, msg.1)),
            final(self).by == old(self).by,
            final(self).location == old(self).location,
            final(self).from == old(self).from,
            final(self).to == old(self).to,
            final(self).deal == old(self).deal,
    {
        let ghost users0 = self.users@;
        let ghost f = other_user(msg.0, msg.1);
        let mut kept: Vec<(ID, Option<MemberIdx>)> = Vec::new();
        let mut k: usize = 0;
        while k < self.users.len()
            invariant
                self.users@ == users0,
                f == other_user(msg.0, msg.1),
                k <= users0.len(),
                kept@ == users0.subrange(0, k as int).filter(f),
            decreases users0.len() - k,
        {
            let (o_id, o_member) = self.users[k];
            proof {
                broadcast use vstd::seq::Seq::lemma_filter_push;
                assert(users0.subrange(0, k + 1) =~= users0.subrange(0, k as int).push(users0[k as int]));
            }
            let same_member = match (o_member, msg.1) {
                (Some(a), Some(b)) => a.0 == b.0,
                (None, None) => true,
                _ => false,
            };
            if !o_id.same(&msg.0) || !same_member {
                kept.push((o_id, o_member));
            }
            k = k + 1;
        }
        proof {
            assert(users0.subrange(0, k as int) =~= users0);
        }
        self.users = kept;
    }
}

/// Whether a user entry is another one than `(id, member)`.
pub open spec fn other_user(id: ID, member: Option<MemberIdx>) -> spec_fn((ID, Option<MemberIdx>)) -> bool {
    |u: (ID, Option<MemberIdx>)| u.0 != id || u.1 != member
}

/// Estimates the travel cost of the deals in `base_result` for `requester`,
/// from `rough_source` to `rough_destination`, once both are known as
/// destinations.
#[derive(Debug)]
pub struct TripCostEstimator {
    pub requester: ID,
    pub rough_source: ID,
    pub source: Option<Destination>,
    pub rough_destination: ID,
    pub destination: Option<Destination>,
    pub base_result: EvaluatedSearchResult,
}

impl TripCostEstimator {
    /// An estimator that knows neither end of the trip yet.
    pub fn new(
        requester: ID,
        rough_source: ID,
        rough_destination: ID,
        base_result: EvaluatedSearchResult,
    ) -> (e: TripCostEstimator)
        ensures
            e.requester == requester,
            e.rough_source == rough_source,
            e.rough_destination == rough_destination,
            e.base_result == base_result,
            e.source is None,
            e.destination is None,
    {
        TripCostEstimator { requester, rough_source, rough_destination, base_result, source: None, destination: None }
    }

    /// On creation as `self_id`, both ends are asked which destination they are.
    pub fn on_create(&self, self_id: ID) -> (queries: ((ID, QueryAsDestination), (ID, QueryAsDestination)))
        ensures
            queries.0.0 == self.rough_source,
            queries.0.1 == (QueryAsDestination { requester: self_id, rough_destination: self.rough_source, tick: None }),
            queries.1.0 == self.rough_destination,
            queries.1.1 == (QueryAsDestination {
                requester: self_id,
                rough_destination: self.rough_destination,
                tick: None,
            }),
    {
        (
            (self.rough_source, QueryAsDestination { requester: self_id, rough_destination: self.rough_source, tick: None }),
            (
                self.rough_destination,
                QueryAsDestination { requester: self_id, rough_destination: self.rough_destination, tick: None },
            ),
        )
    }

    /// Handles an end's answer (which must be about one of the two ends): the
    /// source's answer sets the source, else the destination's sets the
    /// destination. Once both are known, the source lane is asked its
    /// distance to the destination.
    pub fn on_tell_as_destination(&mut self, self_id: ID, msg: &TellAsDestination) -> (ask: Option<(ID, GetDistanceTo)>)
        requires
            msg.rough_destination == old(self).rough_source || msg.rough_destination == old(self).rough_destination,
        ensures
            msg.rough_destination == old(self).rough_source ==> final(self).source == msg.as_destination
                && final(self).destination == old(self).destination,
            msg.rough_destination != old(self).rough_source ==> final(self).destination == msg.as_destination
                && final(self).source == old(self).source,
            final(self).requester == old(self).requester,
            final(self).rough_source == old(self).rough_source,
            final(self).rough_destination == old(self).rough_destination,
            final(self).base_result == old(self).base_result,
            ask == (match (final(self).source, final(self).destination) {
                (Some(source), Some(destination)) => Some(
                    (source.node, GetDistanceTo { destination, requester: self_id }),
                ),
                _ => None,
            }),
    {
        if self.rough_source.same(&msg.rough_destination) {
            self.source = msg.as_destination;
        } else {
            self.destination = msg.as_destination;
        }
        match (self.source, self.destination) {
            (Some(source), Some(destination)) => Some((source.node, GetDistanceTo { destination, requester: self_id })),
            _ => None,
        }
    }

    /// Handles the distance answer, given as the travel time it means (none
    /// if the destination cannot be reached): the requester gets the base
    /// result with each deal taking that much longer and starting and ending
    /// that much earlier, or, when unreachable, that no result is to be
    /// expected. The estimator then dies.
    pub fn on_distance_info(self, travel_time: Option<DurationSeconds>) -> (out: ((ID, EvaluatedSearchResult), Fate))
        requires
            travel_time matches Some(t) ==> forall|k: int|
                0 <= k < self.base_result.some_results@.len() ==> {
                    let r = #[trigger] self.base_result.some_results@[k];
                    &&& r.deal.duration.0 + t.0 <= usize::MAX
                    &&& r.from.0 >= t.0
                    &&& r.to.0 >= t.0
                },
        ensures
            out.1 == Fate::Die,
            out.0.0 == self.requester,
            out.0.1.resource == self.base_result.resource,
            match travel_time {
                Some(t) => {
                    &&& out.0.1.n_to_expect == self.base_result.n_to_expect
                    &&& out.0.1.some_results@.len() == self.base_result.some_results@.len()
                    &&& forall|k: int|
                        0 <= k < out.0.1.some_results@.len() ==> {
                            let r = #[trigger] self.base_result.some_results@[k];
                            let n = out.0.1.some_results@[k];
                            &&& n.offer == r.offer
                            &&& n.deal.duration.0 == r.deal.duration.0 + t.0
                            &&& n.deal.take.entries() == r.deal.take.entries()
                            &&& n.deal.give == r.deal.give
                            &&& n.from.0 == r.from.0 - t.0
                            &&& n.to.0 == r.to.0 - t.0
                        }
                },
                None => {
                    &&& out.0.1.n_to_expect == 0
                    &&& out.0.1.some_results@.len() == 0
                },
            },
    {
        let result = match travel_time {
            Some(t) => {
                let mut some_results: Vec<EvaluatedDeal> = Vec::new();
                let mut k: usize = 0;
                while k < self.base_result.some_results.len()
                    invariant
                        k <= self.base_result.some_results@.len(),
                        some_results@.len() == k,
                        forall|j: int|
                            0 <= j < self.base_result.some_results@.len() ==> {
                                let r = #[trigger] self.base_result.some_results@[j];
                                &&& r.deal.duration.0 + t.0 <= usize::MAX
                                &&& r.from.0 >= t.0
                                &&& r.to.0 >= t.0
                            },
                        forall|j: int|
                            0 <= j < k ==> {
                                let r = #[trigger] self.base_result.some_results@[j];
                                let n = some_results@[j];
                                &&& n.offer == r.offer
                                &&& n.deal.duration.0 == r.deal.duration.0 + t.0
                                &&& n.deal.take.entries() == r.deal.take.entries()
                                &&& n.deal.give == r.deal.give
                                &&& n.from.0 == r.from.0 - t.0
                                &&& n.to.0 == r.to.0 - t.0
                            },
                    decreases self.base_result.some_results@.len() - k,
                {
                    let evaluated_deal = &self.base_result.some_results[k];
                    let mut new_deal = evaluated_deal.deal.duplicate();
                    new_deal.duration = DurationSeconds(new_deal.duration.0 + t.0);
                    some_results.push(EvaluatedDeal {
                        offer: evaluated_deal.offer,
                        deal: new_deal,
                        from: TimeOfDay(evaluated_deal.from.0 - t.0),
                        to: TimeOfDay(evaluated_deal.to.0 - t.0),
                    });
                    k = k + 1;
                }
                EvaluatedSearchResult {
                    resource: self.base_result.resource,
                    n_to_expect: self.base_result.n_to_expect,
                    some_results,
                }
            },
            None => EvaluatedSearchResult {
                resource: self.base_result.resource,
                n_to_expect: 0,
                some_results: Vec::new(),
            },
        };
        ((self.requester, result), Fate::Die)
    }
}

/// A user who stopped using an offer is no longer among its users.
pub proof fn lemma_stopped_user_gone(users: Seq<(ID, Option<MemberIdx>)>, id: ID, member: Option<MemberIdx>)
    ensures
        !users.filter(other_user(id, member)).contains((id, member)),
{
    broadcast use vstd::seq_lib::group_filter_ensures;
    if users.filter(other_user(id, member)).contains((id, member)) {
        let j = choose|j: int|
            0 <= j < users.filter(other_user(id, member)).len() && users.filter(other_user(id, member))[j] == (
            id,
            member,
        );
        assert(other_user(id, member)(users.filter(other_user(id, member))[j]));
    }
}

/// Stopping right after starting gives back the users from before, for a
/// user who was not using the offer.
pub proof fn lemma_stop_undoes_start(users: Seq<(ID, Option<MemberIdx>)>, id: ID, member: Option<MemberIdx>)
    requires
        !users.contains((id, member)),
    ensures
        users.push((id, member)).filter(other_user(id, member)) == users,
    decreases users.len(),
{
    broadcast use vstd::seq::Seq::lemma_filter_push;
    if users.len() > 0 {
        let init = users.drop_last();
        assert(!init.contains((id, member))) by {
            if init.contains((id, member)) {
                let j = choose|j: int| 0 <= j < init.len() && init[j] == (id, member);
                assert(users[j] == (id, member));
            }
        }
        lemma_stop_undoes_start(init, id, member);
        assert(users =~= init.push(users.last()));
        assert(users.last() != (id, member));
        assert(users.filter(other_user(id, member)) == init.filter(other_user(id, member)).push(users.last()));
    } else {
        assert(users.filter(other_user(id, member)) =~= users) by {
            reveal_with_fuel(Seq::filter, 1);
        }
    }
}

/// Starting and then stopping to use an offer leaves the users as stopping
/// alone would: every entry of that user gone, the others in their order.
pub proof fn lemma_start_then_stop(users: Seq<(ID, Option<MemberIdx>)>, id: ID, member: Option<MemberIdx>)
    ensures
        users.push((id, member)).filter(other_user(id, member)) == users.filter(other_user(id, member)),
{
    broadcast use vstd::seq::Seq::lemma_filter_push;
    assert(!other_user(id, member)((id, member)));
}

/// An offer that is sent `StartedUsing` and then `StoppedUsing` for the same
/// user (`started_using`, then `stopped_using`) keeps all other users in
/// their order and none of that user; so if the user was not using it
/// before, its users are as before.
pub proof fn lemma_offer_start_then_stop(
    before: Offer,
    started: Offer,
    stopped: Offer,
    id: ID,
    member: Option<MemberIdx>,
)
    requires
        started.users@ == before.users@.push((id, member)),
        stopped.users@ == started.users@.filter(other_user(id, member)),
    ensures
        stopped.users@ == before.users@.filter(other_user(id, member)),
        !before.users@.contains((id, member)) ==> stopped.users@ == before.users@,
{
    lemma_start_then_stop(before.users@, id, member);
    if !before.users@.contains((id, member)) {
        lemma_stop_undoes_start(before.users@, id, member);
    }
}

} // verus!
