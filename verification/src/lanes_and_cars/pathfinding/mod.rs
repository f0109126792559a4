//! Pathfinding: lanes elect landmarks, join the area of a nearby landmark,
//! and learn from their neighbours the routes to destinations.
use vstd::prelude::*;
use crate::kay::{CDict, DictKey, ID, Swarm};
use crate::kay::swarm::LivingActor;
use crate::kay::compact_dict::{keys_of, map_of, assoc_insert, other_key};
use crate::simulation::Timestamp;
use super::connectivity::{Interaction, InteractionKind, OverlapKind, TransferSides};

pub mod trip;

verus! {

/// The pathfinding actors as they start: those of trips (see `trip::setup`).
pub fn setup(trip_base_size: usize) -> (out: (Swarm<trip::Trip>, trip::TripCreator))
    requires
        trip_base_size > 0,
    ensures
        out.0.wf(),
        out.0@ == Map::<nat, LivingActor<trip::Trip>>::empty(),
        out.1.current_source_lane is None,
{
    trip::setup(trip_base_size)
}

/// A place that can be routed to: a node lane within the area of a landmark lane.
#[derive(Clone, Copy, PartialEq, Eq, Debug)]
pub struct Destination {
    pub landmark: ID,
    pub node: ID,
}

impl Destination {
    /// The destination of a landmark lane itself.
    pub fn landmark(landmark: ID) -> (d: Destination)
        ensures
            d.landmark == landmark,
            d.node == landmark,
    {
        Destination { landmark: landmark, node: landmark }
    }

    /// Whether this is the destination of a landmark itself.
    pub fn is_landmark(&self) -> (b: bool)
        ensures
            b == (self.landmark == self.node),
    {
        self.landmark.same(&self.node)
    }

    /// The destination of this destination's landmark.
    pub fn landmark_destination(&self) -> (d: Destination)
        ensures
            d.landmark == self.landmark,
            d.node == self.landmark,
    {
        Self::landmark(self.landmark)
    }

    /// Equality of destinations.
    pub fn same(&self, other: &Destination) -> (b: bool)
        ensures
            b == (*self == *other),
    {
        self.landmark.same(&other.landmark) && self.node.same(&other.node)
    }
}

impl DictKey for Destination {
    fn key_eq(&self, other: &Self) -> (b: bool) {
        self.same(other)
    }
}

/// How to reach a destination: through which interaction, how far, and from
/// which neighbour the route was learned. `D` is the distance measure.
#[derive(Clone, Copy, Debug)]
pub struct RoutingInfo<D> {
    pub outgoing_idx: u8,
    pub distance: D,
    pub distance_hops: u8,
    pub learned_from: ID,
    pub fresh: bool,
}

/// A lane's pathfinding state.
pub struct PathfindingInfo<D> {
    pub as_destination: Option<Destination>,
    pub hops_from_landmark: u8,
    pub learned_landmark_from: Option<ID>,
    pub routes: CDict<Destination, RoutingInfo<D>>,
    pub routes_changed: bool,
    pub tell_to_forget_next_tick: Vec<Destination>,
    pub query_routes_next_tick: bool,
    pub routing_timeout: u16,
}

/// A lane needs at least this many incoming lanes to become a landmark.
pub const MIN_LANDMARK_INCOMING: usize = 3;

/// Ticks to wait before routing after a change of the lane's surroundings.
pub const ROUTING_TIMEOUT_AFTER_CHANGE: u16 = 15;

/// Lanes closer than this to a landmark (in hops) prefer joining it.
pub const IDEAL_LANDMARK_RADIUS: u8 = 3;

impl<D: Copy> PathfindingInfo<D> {
    pub open spec fn wf(&self) -> bool {
        self.routes.wf()
    }

    /// The state of a lane that knows nothing yet.
    pub fn new() -> (info: Self)
        ensures
            info.wf(),
            info.as_destination is None,
            info.hops_from_landmark == 0,
            info.learned_landmark_from is None,
            info.routes.entries().len() == 0,
            !info.routes_changed,
            info.tell_to_forget_next_tick@.len() == 0,
            !info.query_routes_next_tick,
            info.routing_timeout == 0,
    {
        PathfindingInfo {
            as_destination: None,
            hops_from_landmark: 0,
            learned_landmark_from: None,
            routes: CDict::new(),
            routes_changed: false,
            tell_to_forget_next_tick: Vec::new(),
            query_routes_next_tick: false,
            routing_timeout: 0,
        }
    }
}

/// A lane was just built: it is no destination yet.
pub fn on_build<D: Copy>(info: &mut PathfindingInfo<D>)
    ensures
        final(info).as_destination is None,
        final(info).hops_from_landmark == old(info).hops_from_landmark,
        final(info).learned_landmark_from == old(info).learned_landmark_from,
        final(info).routes == old(info).routes,
        final(info).routes_changed == old(info).routes_changed,
        final(info).tell_to_forget_next_tick == old(info).tell_to_forget_next_tick,
        final(info).query_routes_next_tick == old(info).query_routes_next_tick,
        final(info).routing_timeout == old(info).routing_timeout,
{
    info.as_destination = None;
}

/// A lane was connected to another: wait before routing again.
pub fn on_connect<D: Copy>(info: &mut PathfindingInfo<D>)
    ensures
        final(info).routing_timeout == ROUTING_TIMEOUT_AFTER_CHANGE,
        final(info).as_destination == old(info).as_destination,
        final(info).hops_from_landmark == old(info).hops_from_landmark,
        final(info).learned_landmark_from == old(info).learned_landmark_from,
        final(info).routes == old(info).routes,
        final(info).routes_changed == old(info).routes_changed,
        final(info).tell_to_forget_next_tick == old(info).tell_to_forget_next_tick,
        final(info).query_routes_next_tick == old(info).query_routes_next_tick,
{
    info.routing_timeout = ROUTING_TIMEOUT_AFTER_CHANGE;
}

/// Whether a route was not learned from the lane `id`.
pub open spec fn not_learned_from<D>(id: ID) -> spec_fn((Destination, RoutingInfo<D>)) -> bool {
    |e: (Destination, RoutingInfo<D>)| e.1.learned_from != id
}

/// A lane was disconnected from `disconnected_id`: the routes learned from it
/// are dropped (the others keep their order), and routes are to be shared
/// and queried anew.
pub fn on_disconnect<D: Copy>(info: &mut PathfindingInfo<D>, disconnected_id: ID)
    requires
        old(info).wf(),
    ensures
        final(info).wf(),
        final(info).routes.entries() == old(info).routes.entries().filter(not_learned_from(disconnected_id)),
        final(info).routes_changed,
        final(info).query_routes_next_tick,
        final(info).as_destination == old(info).as_destination,
        final(info).hops_from_landmark == old(info).hops_from_landmark,
        final(info).learned_landmark_from == old(info).learned_landmark_from,
        final(info).tell_to_forget_next_tick == old(info).tell_to_forget_next_tick,
        final(info).routing_timeout == old(info).routing_timeout,
{
    let ghost entries = info.routes.entries();
    let ghost f = not_learned_from::<D>(disconnected_id);
    let mut kept: CDict<Destination, RoutingInfo<D>> = CDict::new();
    let mut k: usize = 0;
    while k < info.routes.len()
        invariant
            info.routes.entries() == entries,
            keys_of(entries).no_duplicates(),
            f == not_learned_from::<D>(disconnected_id),
            k <= entries.len(),
            kept.wf(),
            kept.entries() == entries.subrange(0, k as int).filter(f),
        decreases entries.len() - k,
    {
        let (destination, route) = *info.routes.pair_at(k);
        proof {
            broadcast use vstd::seq_lib::group_filter_ensures;
            broadcast use vstd::seq::Seq::lemma_filter_push;
            assert(entries.subrange(0, k + 1) =~= entries.subrange(0, k as int).push(entries[k as int]));
        }
        if !route.learned_from.same(&disconnected_id) {
            proof {
                broadcast use vstd::seq_lib::group_filter_ensures;
                if kept.as_map().contains_key(destination) {
                    let j = choose|j: int| 0 <= j < kept.entries().len() && kept.entries()[j].0 == destination;
                    assert(kept.entries().contains(kept.entries()[j]));
                    entries.subrange(0, k as int).lemma_filter_contains_rev(f, kept.entries()[j]);
                    let m = choose|m: int| 0 <= m < k && entries.subrange(0, k as int)[m] == kept.entries()[j];
                    assert(keys_of(entries)[m] == keys_of(entries)[k as int]);
                }
            }
            kept.insert(destination, route);
        }
        k = k + 1;
    }
    proof {
        assert(entries.subrange(0, k as int) =~= entries);
    }
    info.routes = kept;
    info.routes_changed = true;
    info.query_routes_next_tick = true;
}

/// The lanes reached from a lane: its next lanes and the transfer lanes it overlaps.
pub open spec fn is_successor_link(i: Interaction) -> bool {
    match i.kind {
        InteractionKind::Overlap { kind: OverlapKind::Transfer } => true,
        InteractionKind::Next { .. } => true,
        _ => false,
    }
}

/// The partner lanes of the successor links among `interactions`, in order.
pub open spec fn successor_ids(interactions: Seq<Interaction>) -> Seq<ID>
    decreases interactions.len(),
{
    if interactions.len() == 0 {
        Seq::empty()
    } else {
        let init = successor_ids(interactions.drop_last());
        if is_successor_link(interactions.last()) {
            init.push(interactions.last().partner_lane)
        } else {
            init
        }
    }
}

/// The lanes a lane is reached from, each with the index of its interaction
/// (as a byte), its id and whether it is a transfer lane: the previous lanes
/// and the transfer lanes it overlaps, in order.
pub open spec fn predecessor_links(interactions: Seq<Interaction>) -> Seq<(u8, ID, bool)>
    decreases interactions.len(),
{
    if interactions.len() == 0 {
        Seq::empty()
    } else {
        let init = predecessor_links(interactions.drop_last());
        let i = interactions.last();
        let idx = (interactions.len() - 1) as u8;
        match i.kind {
            InteractionKind::Overlap { kind: OverlapKind::Transfer } => init.push((idx, i.partner_lane, true)),
            InteractionKind::Previous => init.push((idx, i.partner_lane, false)),
            _ => init,
        }
    }
}

/// The successor lanes of a lane with these interactions.
pub fn successors(interactions: &Vec<Interaction>) -> (ids: Vec<ID>)
    ensures
        ids@ == successor_ids(interactions@),
{
    let mut ids: Vec<ID> = Vec::new();
    let mut k: usize = 0;
    while k < interactions.len()
        invariant
            k <= interactions@.len(),
            ids@ == successor_ids(interactions@.subrange(0, k as int)),
        decreases interactions@.len() - k,
    {
        let interaction = interactions[k];
        proof {
            assert(interactions@.subrange(0, k + 1).drop_last() =~= interactions@.subrange(0, k as int));
        }
        match interaction.kind {
            InteractionKind::Overlap { kind: OverlapKind::Transfer } => ids.push(interaction.partner_lane),
            InteractionKind::Next { .. } => ids.push(interaction.partner_lane),
            _ => {},
        }
        k = k + 1;
    }
    proof {
        assert(interactions@.subrange(0, k as int) =~= interactions@);
    }
    ids
}

/// The predecessor lanes of a lane with these interactions.
pub fn predecessors(interactions: &Vec<Interaction>) -> (links: Vec<(u8, ID, bool)>)
    ensures
        links@ == predecessor_links(interactions@),
{
    let mut links: Vec<(u8, ID, bool)> = Vec::new();
    let mut k: usize = 0;
    while k < interactions.len()
        invariant
            k <= interactions@.len(),
            links@ == predecessor_links(interactions@.subrange(0, k as int)),
        decreases interactions@.len() - k,
    {
        let interaction = interactions[k];
        proof {
            assert(interactions@.subrange(0, k + 1).drop_last() =~= interactions@.subrange(0, k as int));
        }
        let idx: u8 = k as u8;
        match interaction.kind {
            InteractionKind::Overlap { kind: OverlapKind::Transfer } => links.push((idx, interaction.partner_lane, true)),
            InteractionKind::Previous => links.push((idx, interaction.partner_lane, false)),
            _ => {},
        }
        k = k + 1;
    }
    proof {
        assert(interactions@.subrange(0, k as int) =~= interactions@);
    }
    links
}

/// Asks a lane to join the area of a landmark as `join_as`.
#[derive(Clone, Copy, Debug)]
pub struct JoinLandmark {
    pub from: ID,
    pub join_as: Destination,
    pub hops_from_landmark: u8,
}

/// Asks a lane to share its routes with `requester`.
#[derive(Clone, Copy, Debug)]
pub struct QueryRoutes {
    pub requester: ID,
    pub is_transfer: bool,
}

/// Tells a lane to forget the routes to `forget` that it learned from `from`.
#[derive(Clone, Debug)]
pub struct ForgetRoutes {
    pub forget: Vec<Destination>,
    pub from: ID,
}

/// Asks a lane which destination it is, answered to `requester`.
#[derive(Clone, Copy, Debug)]
pub struct QueryAsDestination {
    pub requester: ID,
    pub rough_destination: ID,
    pub tick: Option<Timestamp>,
}

/// A lane's answer to `QueryAsDestination`.
#[derive(Clone, Copy, Debug)]
pub struct TellAsDestination {
    pub rough_destination: ID,
    pub as_destination: Option<Destination>,
    pub tick: Option<Timestamp>,
}

/// Asks the lane of a source destination how far `destination` is, answered
/// to `requester`.
#[derive(Clone, Copy, Debug)]
pub struct GetDistanceTo {
    pub destination: Destination,
    pub requester: ID,
}

/// Whether a lane in state `info` with id `self_id` joins as `msg` says.
/// A lane that is no destination always joins; a landmark only joins a
/// landmark close enough with a smaller instance id; another lane joins when
/// the new landmark is closer or when the news comes from where it learned its
/// landmark. Never to become the destination it already is.
pub open spec fn joins<D>(info: PathfindingInfo<D>, self_id: ID, msg: JoinLandmark) -> bool {
    match info.as_destination {
        None => true,
        Some(self_destination) => msg.join_as != self_destination && (if self_destination.landmark
            == self_destination.node {
            msg.hops_from_landmark < IDEAL_LANDMARK_RADIUS && msg.join_as.landmark.instance_id
                < self_id.instance_id
        } else {
            msg.hops_from_landmark < info.hops_from_landmark || info.learned_landmark_from == Some(msg.from)
        }),
    }
}

/// A lane that is not a landmark follows its landmark area: it joins any new
/// destination sent by the lane it learned its landmark from, whatever the
/// hop count, and any destination whose landmark is fewer hops away. A lane
/// that is no destination yet joins whatever it is sent. No lane joins as
/// the destination it already is.
pub proof fn lemma_lane_follows_its_landmark<D>(info: PathfindingInfo<D>, self_id: ID, msg: JoinLandmark)
    ensures
        info.as_destination matches Some(d) && d.landmark != d.node && msg.join_as != d
            && info.learned_landmark_from == Some(msg.from) ==> joins(info, self_id, msg),
        info.as_destination matches Some(d) && d.landmark != d.node && msg.join_as != d
            && msg.hops_from_landmark < info.hops_from_landmark ==> joins(info, self_id, msg),
        info.as_destination is None ==> joins(info, self_id, msg),
        info.as_destination == Some(msg.join_as) ==> !joins(info, self_id, msg),
{
}

/// The destinations to tell neighbours to forget on joining: all routed
/// destinations, then the destination the lane was.
pub open spec fn to_forget_on_join<D>(info: PathfindingInfo<D>) -> Seq<Destination> {
    keys_of(info.routes.entries()) + match info.as_destination {
        Some(d) => seq![d],
        None => Seq::empty(),
    }
}

/// Handles `JoinLandmark` at lane `self_id`: when it joins, it becomes
/// `msg.join_as`, learned from `msg.from`, forgets its routes, and is to tell
/// its neighbours to forget them, query routes anew and wait before routing.
pub fn join_landmark<D: Copy>(info: &mut PathfindingInfo<D>, self_id: ID, msg: &JoinLandmark) -> (joined: bool)
    requires
        old(info).wf(),
    ensures
        final(info).wf(),
        joined == joins(*old(info), self_id, *msg),
        old(info).as_destination matches Some(d) && d.landmark != d.node && msg.join_as != d && (
        old(info).learned_landmark_from == Some(msg.from) || msg.hops_from_landmark < old(info).hops_from_landmark)
            ==> joined,
        old(info).as_destination is None ==> joined,
        joined ==> {
            &&& final(info).as_destination == Some(msg.join_as)
            &&& final(info).learned_landmark_from == Some(msg.from)
            &&& final(info).hops_from_landmark == msg.hops_from_landmark
            &&& final(info).routes.entries().len() == 0
            &&& final(info).routes_changed
            &&& final(info).query_routes_next_tick
            &&& final(info).tell_to_forget_next_tick@ == to_forget_on_join(*old(info))
            &&& final(info).routing_timeout == ROUTING_TIMEOUT_AFTER_CHANGE
        },
        !joined ==> *final(info) == *old(info),
{
    let join = match info.as_destination {
        None => true,
        Some(self_destination) => !msg.join_as.same(&self_destination) && (if self_destination.is_landmark() {
            msg.hops_from_landmark < IDEAL_LANDMARK_RADIUS && msg.join_as.landmark.instance_id
                < self_id.instance_id
        } else {
            msg.hops_from_landmark < info.hops_from_landmark || match info.learned_landmark_from {
                Some(learned_from) => learned_from.same(&msg.from),
                None => false,
            }
        }),
    };
    if join {
        let mut forget: Vec<Destination> = Vec::new();
        let mut k: usize = 0;
        while k < info.routes.len()
            invariant
                k <= info.routes.entries().len(),
                forget@ == keys_of(info.routes.entries()).subrange(0, k as int),
            decreases info.routes.entries().len() - k,
        {
            forget.push(info.routes.pair_at(k).0);
            proof {
                assert(keys_of(info.routes.entries()).subrange(0, k + 1) =~= keys_of(
                    info.routes.entries(),
                ).subrange(0, k as int).push(info.routes.entries()[k as int].0));
            }
            k = k + 1;
        }
        proof {
            assert(keys_of(info.routes.entries()).subrange(0, k as int) =~= keys_of(info.routes.entries()));
        }
        if let Some(d) = info.as_destination {
            forget.push(d);
        }
        proof {
            assert(forget@ =~= to_forget_on_join(*info));
        }
        *info = PathfindingInfo {
            as_destination: Some(msg.join_as),
            learned_landmark_from: Some(msg.from),
            hops_from_landmark: msg.hops_from_landmark,
            routes: CDict::new(),
            routes_changed: true,
            query_routes_next_tick: true,
            tell_to_forget_next_tick: forget,
            routing_timeout: ROUTING_TIMEOUT_AFTER_CHANGE,
        };
    }
    join
}

/// A transfer lane passes `JoinLandmark` on to the lane on the other side,
/// as coming from itself and with that lane as the node.
pub fn forward_join_landmark(sides: &TransferSides, self_id: ID, msg: &JoinLandmark) -> (out: (ID, JoinLandmark))
    requires
        sides.left is Some,
        msg.from == sides.left->0 ==> sides.right is Some,
    ensures
        out.0 == sides.spec_other_side(msg.from),
        out.1.join_as.landmark == msg.join_as.landmark,
        out.1.join_as.node == sides.spec_other_side(msg.from),
        out.1.hops_from_landmark == msg.hops_from_landmark,
        out.1.from == self_id,
{
    let other = sides.other_side(msg.from);
    (other, JoinLandmark {
        join_as: Destination { landmark: msg.join_as.landmark, node: other },
        hops_from_landmark: msg.hops_from_landmark,
        from: self_id,
    })
}

/// A transfer lane passes `QueryRoutes` on to the lane on the other side, as
/// a query of its own that crosses a transfer.
pub fn forward_query_routes(sides: &TransferSides, self_id: ID, msg: &QueryRoutes) -> (out: (ID, QueryRoutes))
    requires
        sides.left is Some,
        msg.requester == sides.left->0 ==> sides.right is Some,
    ensures
        out.0 == sides.spec_other_side(msg.requester),
        out.1.requester == self_id,
        out.1.is_transfer,
{
    (sides.other_side(msg.requester), QueryRoutes { requester: self_id, is_transfer: true })
}

/// A copy of a list of destinations.
fn copy_destinations(v: &Vec<Destination>) -> (c: Vec<Destination>)
    ensures
        c@ == v@,
{
    let mut c: Vec<Destination> = Vec::new();
    let mut k: usize = 0;
    while k < v.len()
        invariant
            k <= v@.len(),
            c@ == v@.subrange(0, k as int),
        decreases v@.len() - k,
    {
        c.push(v[k]);
        proof {
            assert(v@.subrange(0, k + 1) =~= v@.subrange(0, k as int).push(v@[k as int]));
        }
        k = k + 1;
    }
    proof {
        assert(v@.subrange(0, k as int) =~= v@);
    }
    c
}

/// A transfer lane passes `ForgetRoutes` on to the lane on the other side, as
/// coming from itself.
pub fn forward_forget_routes(sides: &TransferSides, self_id: ID, msg: &ForgetRoutes) -> (out: (ID, ForgetRoutes))
    requires
        sides.left is Some,
        msg.from == sides.left->0 ==> sides.right is Some,
    ensures
        out.0 == sides.spec_other_side(msg.from),
        out.1.forget@ == msg.forget@,
        out.1.from == self_id,
{
    (sides.other_side(msg.from), ForgetRoutes { forget: copy_destinations(&msg.forget), from: self_id })
}

/// A lane's answer to `QueryAsDestination`: which destination it is, sent to
/// the requester with the query's rough destination and tick.
pub fn answer_as_destination<D: Copy>(info: &PathfindingInfo<D>, msg: &QueryAsDestination) -> (out: (ID, TellAsDestination))
    ensures
        out.0 == msg.requester,
        out.1.rough_destination == msg.rough_destination,
        out.1.as_destination == info.as_destination,
        out.1.tick == msg.tick,
{
    (msg.requester, TellAsDestination {
        rough_destination: msg.rough_destination,
        as_destination: info.as_destination,
        tick: msg.tick,
    })
}

/// The routes with every one marked as no longer fresh.
pub open spec fn unfreshed<D>(routes: Seq<(Destination, RoutingInfo<D>)>) -> Seq<(Destination, RoutingInfo<D>)> {
    routes.map_values(|e: (Destination, RoutingInfo<D>)| (e.0, RoutingInfo { fresh: false, ..e.1 }))
}

/// Whether a lane that is no destination yet, off intersections and with
/// enough incoming lanes, makes itself a landmark on this tick.
pub open spec fn elects_itself<D>(info: PathfindingInfo<D>, on_intersection: bool, interactions: Seq<Interaction>) -> bool {
    info.as_destination is None && !on_intersection && predecessor_links(interactions).len() >= MIN_LANDMARK_INCOMING
}

/// What a lane sends on a tick: invitations to join its landmark's area,
/// queries for routes, requests to forget routes, and to whom (and whether
/// across a transfer) its routes are to be shared.
pub struct TickActions {
    pub joins: Vec<(ID, JoinLandmark)>,
    pub queries: Vec<(ID, QueryRoutes)>,
    pub forgets: Vec<(ID, ForgetRoutes)>,
    pub share_to: Vec<(ID, bool)>,
}

/// A pathfinding tick of lane `self_id`. A lane that is a destination invites
/// its successors into its landmark's area, one hop further; a lane that is
/// none may make itself a landmark. Then, unless it still waits (counting the
/// wait down), it queries its successors for routes if asked to, tells its
/// predecessors to forget what it forgot, and, if its routes changed, shares
/// them with its predecessors, after which no route is fresh.
pub fn tick<D: Copy>(info: &mut PathfindingInfo<D>, self_id: ID, on_intersection: bool, interactions: &Vec<Interaction>) -> (actions: TickActions)
    requires
        old(info).wf(),
        old(info).as_destination is Some ==> old(info).hops_from_landmark < 255,
    ensures
        final(info).wf(),
        ({
            let o = *old(info);
            let f = *final(info);
            let succ = successor_ids(interactions@);
            let preds = predecessor_links(interactions@);
            let elect = elects_itself(o, on_intersection, interactions@);
            let mid_timeout: u16 = if elect { ROUTING_TIMEOUT_AFTER_CHANGE } else { o.routing_timeout };
            let mid_query = if elect { false } else { o.query_routes_next_tick };
            let mid_forget = if elect { Seq::<Destination>::empty() } else { o.tell_to_forget_next_tick@ };
            let mid_changed = if elect { true } else { o.routes_changed };
            let mid_routes = if elect { Seq::<(Destination, RoutingInfo<D>)>::empty() } else { o.routes.entries() };
            &&& actions.joins@ == (match o.as_destination {
                Some(ad) => succ.map_values(
                    |s: ID|
                        (
                            s,
                            JoinLandmark {
                                from: self_id,
                                join_as: Destination { landmark: ad.landmark, node: s },
                                hops_from_landmark: (o.hops_from_landmark + 1) as u8,
                            },
                        ),
                ),
                None => Seq::empty(),
            })
            &&& elect ==> f.as_destination == Some(Destination { landmark: self_id, node: self_id })
                && f.hops_from_landmark == 0 && f.learned_landmark_from == Some(self_id)
            &&& !elect ==> f.as_destination == o.as_destination && f.hops_from_landmark == o.hops_from_landmark
                && f.learned_landmark_from == o.learned_landmark_from
            &&& mid_timeout > 0 ==> {
                &&& f.routing_timeout == mid_timeout - 1
                &&& f.query_routes_next_tick == mid_query
                &&& f.tell_to_forget_next_tick@ == mid_forget
                &&& f.routes_changed == mid_changed
                &&& f.routes.entries() == mid_routes
                &&& actions.queries@.len() == 0
                &&& actions.forgets@.len() == 0
                &&& actions.share_to@.len() == 0
            }
            &&& mid_timeout == 0 ==> {
                &&& f.routing_timeout == 0
                &&& !f.query_routes_next_tick
                &&& actions.queries@ == (if mid_query {
                    succ.map_values(|s: ID| (s, QueryRoutes { requester: self_id, is_transfer: false }))
                } else {
                    Seq::empty()
                })
                &&& f.tell_to_forget_next_tick@.len() == 0
                &&& actions.forgets@.len() == (if mid_forget.len() > 0 { preds.len() } else { 0 })
                &&& forall|k: int|
                    0 <= k < actions.forgets@.len() ==> (#[trigger] actions.forgets@[k]).0 == preds[k].1
                        && actions.forgets@[k].1.forget@ == mid_forget && actions.forgets@[k].1.from == self_id
                &&& !f.routes_changed
                &&& actions.share_to@ == (if mid_changed {
                    preds.map_values(|p: (u8, ID, bool)| (p.1, p.2))
                } else {
                    Seq::empty()
                })
                &&& f.routes.entries() == (if mid_changed { unfreshed(mid_routes) } else { mid_routes })
            }
        }),
{
    let ghost o = *info;
    let succ = successors(interactions);
    let preds = predecessors(interactions);
    let mut joins: Vec<(ID, JoinLandmark)> = Vec::new();
    match info.as_destination {
        Some(as_destination) => {
            let hops: u8 = info.hops_from_landmark + 1;
            let ghost spec_joins = succ@.map_values(
                |s: ID|
                    (
                        s,
                        JoinLandmark {
                            from: self_id,
                            join_as: Destination { landmark: as_destination.landmark, node: s },
                            hops_from_landmark: hops,
                        },
                    ),
            );
            let mut k: usize = 0;
            while k < succ.len()
                invariant
                    k <= succ@.len(),
                    spec_joins == succ@.map_values(
                        |s: ID|
                            (
                                s,
                                JoinLandmark {
                                    from: self_id,
                                    join_as: Destination { landmark: as_destination.landmark, node: s },
                                    hops_from_landmark: hops,
                                },
                            ),
                    ),
                    joins@ == spec_joins.subrange(0, k as int),
                decreases succ@.len() - k,
            {
                let s = succ[k];
                joins.push((s, JoinLandmark {
                    from: self_id,
                    join_as: Destination { landmark: as_destination.landmark, node: s },
                    hops_from_landmark: hops,
                }));
                proof {
                    assert(spec_joins.subrange(0, k + 1) =~= spec_joins.subrange(0, k as int).push(spec_joins[k as int]));
                }
                k = k + 1;
            }
            proof {
                assert(spec_joins.subrange(0, k as int) =~= spec_joins);
            }
        },
        None => {
            if !on_intersection && preds.len() >= MIN_LANDMARK_INCOMING {
                *info = PathfindingInfo {
                    as_destination: Some(Destination::landmark(self_id)),
                    hops_from_landmark: 0,
                    learned_landmark_from: Some(self_id),
                    routes: CDict::new(),
                    routes_changed: true,
                    query_routes_next_tick: false,
                    tell_to_forget_next_tick: Vec::new(),
                    routing_timeout: ROUTING_TIMEOUT_AFTER_CHANGE,
                };
            }
        },
    }
    let mut queries: Vec<(ID, QueryRoutes)> = Vec::new();
    let mut forgets: Vec<(ID, ForgetRoutes)> = Vec::new();
    let mut share_to: Vec<(ID, bool)> = Vec::new();
    if info.routing_timeout > 0 {
        info.routing_timeout = info.routing_timeout - 1;
    } else {
        if info.query_routes_next_tick {
            let ghost spec_queries = succ@.map_values(
                |s: ID| (s, QueryRoutes { requester: self_id, is_transfer: false }),
            );
            let mut k: usize = 0;
            while k < succ.len()
                invariant
                    k <= succ@.len(),
                    spec_queries == succ@.map_values(
                        |s: ID| (s, QueryRoutes { requester: self_id, is_transfer: false }),
                    ),
                    queries@ == spec_queries.subrange(0, k as int),
                decreases succ@.len() - k,
            {
                queries.push((succ[k], QueryRoutes { requester: self_id, is_transfer: false }));
                proof {
                    assert(spec_queries.subrange(0, k + 1) =~= spec_queries.subrange(0, k as int).push(
                        spec_queries[k as int],
                    ));
                }
                k = k + 1;
            }
            proof {
                assert(spec_queries.subrange(0, k as int) =~= spec_queries);
            }
            info.query_routes_next_tick = false;
        }
        if info.tell_to_forget_next_tick.len() > 0 {
            let mut k: usize = 0;
            while k < preds.len()
                invariant
                    k <= preds@.len(),
                    forgets@.len() == k,
                    forall|j: int|
                        0 <= j < k ==> (#[trigger] forgets@[j]).0 == preds@[j].1 && forgets@[j].1.forget@
                            == info.tell_to_forget_next_tick@ && forgets@[j].1.from == self_id,
                decreases preds@.len() - k,
            {
                let forget = copy_destinations(&info.tell_to_forget_next_tick);
                forgets.push((preds[k].1, ForgetRoutes { forget, from: self_id }));
                k = k + 1;
            }
            info.tell_to_forget_next_tick = Vec::new();
        }
        if info.routes_changed {
            let ghost spec_share = preds@.map_values(|p: (u8, ID, bool)| (p.1, p.2));
            let mut k: usize = 0;
            while k < preds.len()
                invariant
                    k <= preds@.len(),
                    spec_share == preds@.map_values(|p: (u8, ID, bool)| (p.1, p.2)),
                    share_to@ == spec_share.subrange(0, k as int),
                decreases preds@.len() - k,
            {
                share_to.push((preds[k].1, preds[k].2));
                proof {
                    assert(spec_share.subrange(0, k + 1) =~= spec_share.subrange(0, k as int).push(spec_share[k as int]));
                }
                k = k + 1;
            }
            proof {
                assert(spec_share.subrange(0, k as int) =~= spec_share);
            }
            let ghost before = info.routes.entries();
            let ghost pre = *info;
            let mut k: usize = 0;
            while k < info.routes.len()
                invariant
                    info.routes.wf(),
                    info.as_destination == pre.as_destination,
                    info.hops_from_landmark == pre.hops_from_landmark,
                    info.learned_landmark_from == pre.learned_landmark_from,
                    info.routes_changed == pre.routes_changed,
                    info.tell_to_forget_next_tick == pre.tell_to_forget_next_tick,
                    info.query_routes_next_tick == pre.query_routes_next_tick,
                    info.routing_timeout == pre.routing_timeout,
                    k <= before.len(),
                    info.routes.entries().len() == before.len(),
                    forall|j: int| 0 <= j < k ==> info.routes.entries()[j] == unfreshed(before)[j],
                    forall|j: int| k <= j < before.len() ==> info.routes.entries()[j] == before[j],
                decreases before.len() - k,
            {
                let (_destination, route) = *info.routes.pair_at(k);
                info.routes.set_value_at(k, RoutingInfo { fresh: false, ..route });
                k = k + 1;
            }
            proof {
                assert(info.routes.entries() =~= unfreshed(before));
            }
            info.routes_changed = false;
        }
    }
    proof {
        let succ_s = successor_ids(interactions@);
        match o.as_destination {
            Some(ad) => {
                assert(joins@ =~= succ_s.map_values(
                    |s: ID|
                        (
                            s,
                            JoinLandmark {
                                from: self_id,
                                join_as: Destination { landmark: ad.landmark, node: s },
                                hops_from_landmark: (o.hops_from_landmark + 1) as u8,
                            },
                        ),
                ));
            },
            None => {},
        }
    }
    TickActions { joins, queries, forgets, share_to }
}

/// Whether a lane that is `as_destination` keeps a route to `destination`
/// that is `hops` away: routes to landmarks, to nearby destinations and to
/// destinations of its own landmark's area are kept.
pub open spec fn accepts_route(as_destination: Option<Destination>, destination: Destination, hops: u8) -> bool {
    destination.landmark == destination.node || hops <= IDEAL_LANDMARK_RADIUS || match as_destination {
        Some(d) => d.landmark == destination.landmark,
        None => false,
    }
}

/// The index of the first interaction with lane `from`, if any.
pub open spec fn partner_index(interactions: Seq<Interaction>, from: ID) -> Option<int> {
    if exists|i: int| 0 <= i < interactions.len() && interactions[i].partner_lane == from {
        Some(
            choose|i: int|
                0 <= i < interactions.len() && interactions[i].partner_lane == from && forall|j: int|
                    0 <= j < i ==> interactions[j].partner_lane != from,
        )
    } else {
        None
    }
}

/// The routes after learning the shared routes `news` from lane `from`
/// (reached through interaction `idx`), and whether any was taken: in order,
/// each accepted route is taken when none to its destination is known or
/// when `shorter[k]` says it is shorter than the known one.
pub open spec fn learned_routes<D>(
    routes: Seq<(Destination, RoutingInfo<D>)>,
    as_destination: Option<Destination>,
    idx: u8,
    from: ID,
    news: Seq<(Destination, (D, u8))>,
    shorter: Seq<bool>,
) -> (Seq<(Destination, RoutingInfo<D>)>, bool)
    decreases news.len(),
{
    if news.len() == 0 {
        (routes, false)
    } else {
        let prev = learned_routes(routes, as_destination, idx, from, news.drop_last(), shorter);
        let k = news.len() - 1;
        let d = news[k].0;
        let hops = news[k].1.1;
        if accepts_route(as_destination, d, hops) && (!map_of(prev.0).contains_key(d) || shorter[k]) {
            (
                assoc_insert(
                    prev.0,
                    d,
                    RoutingInfo { outgoing_idx: idx, distance: news[k].1.0, distance_hops: hops, learned_from: from, fresh: true },
                ),
                true,
            )
        } else {
            prev
        }
    }
}

/// After setting `key` to `value`, the entries map `key` to `value`.
proof fn lemma_assoc_insert_maps<K, V>(entries: Seq<(K, V)>, key: K, value: V)
    requires
        keys_of(entries).no_duplicates(),
    ensures
        map_of(assoc_insert(entries, key, value)).contains_key(key),
        map_of(assoc_insert(entries, key, value))[key] == value,
{
    let e2 = assoc_insert(entries, key, value);
    if exists|i: int| 0 <= i < entries.len() && entries[i].0 == key {
        let i = choose|i: int| 0 <= i < entries.len() && entries[i].0 == key;
        assert(e2[i] == (key, value));
        let j = choose|j: int| 0 <= j < e2.len() && e2[j].0 == key;
        if j != i {
            assert(e2[j] == entries[j]);
            assert(keys_of(entries)[j] == keys_of(entries)[i]);
        }
    } else {
        let n = entries.len() as int;
        assert(e2[n] == (key, value));
        let j = choose|j: int| 0 <= j < e2.len() && e2[j].0 == key;
        if j != n {
            assert(e2[j] == entries[j]);
        }
    }
}

/// Routes to landmarks are always learned: a route to a landmark itself
/// (whose landmark is its node) shared by a connected lane is taken when no
/// route to that landmark is known or when it is shorter, however many hops
/// away the landmark is and whatever area the lane belongs to; it is then
/// reached through the interaction with the sharing lane, at the shared
/// distance and hop count, learned from that lane, and the routes changed.
pub proof fn lemma_landmark_routes_learned<D>(
    routes: Seq<(Destination, RoutingInfo<D>)>,
    as_destination: Option<Destination>,
    idx: u8,
    from: ID,
    landmark: Destination,
    distance: D,
    hops: u8,
    shorter: bool,
)
    requires
        keys_of(routes).no_duplicates(),
        landmark.landmark == landmark.node,
        !map_of(routes).contains_key(landmark) || shorter,
    ensures
        ({
            let learned = learned_routes(routes, as_destination, idx, from, seq![(landmark, (distance, hops))], seq![shorter]);
            &&& map_of(learned.0).contains_key(landmark)
            &&& map_of(learned.0)[landmark] == (RoutingInfo {
                outgoing_idx: idx,
                distance,
                distance_hops: hops,
                learned_from: from,
                fresh: true,
            })
            &&& learned.1
        }),
{
    let news = seq![(landmark, (distance, hops))];
    assert(news.drop_last() =~= Seq::<(Destination, (D, u8))>::empty());
    assert(learned_routes(routes, as_destination, idx, from, news.drop_last(), seq![shorter]) == (routes, false));
    assert(accepts_route(as_destination, landmark, hops));
    assert(news[0].0 == landmark && news[0].1.1 == hops && news[0].1.0 == distance);
    lemma_assoc_insert_maps(
        routes,
        landmark,
        RoutingInfo { outgoing_idx: idx, distance, distance_hops: hops, learned_from: from, fresh: true },
    );
}

/// Handles routes shared by lane `from` with this lane, whose interactions
/// are `interactions`. `shorter[k]` tells whether the distance of the `k`-th
/// new route is below that of the known route to its destination (it is not
/// looked at where none is known). Routes from a lane it is not connected to
/// are ignored.
pub fn learn_routes<D: Copy>(
    info: &mut PathfindingInfo<D>,
    interactions: &Vec<Interaction>,
    from: ID,
    news: &CDict<Destination, (D, u8)>,
    shorter: &Vec<bool>,
)
    requires
        old(info).wf(),
        shorter@.len() == news.entries().len(),
    ensures
        final(info).wf(),
        final(info).as_destination == old(info).as_destination,
        final(info).hops_from_landmark == old(info).hops_from_landmark,
        final(info).learned_landmark_from == old(info).learned_landmark_from,
        final(info).tell_to_forget_next_tick == old(info).tell_to_forget_next_tick,
        final(info).query_routes_next_tick == old(info).query_routes_next_tick,
        final(info).routing_timeout == old(info).routing_timeout,
        match partner_index(interactions@, from) {
            None => final(info).routes.entries() == old(info).routes.entries() && final(info).routes_changed
                == old(info).routes_changed,
            Some(i) => {
                let learned = learned_routes(
                    old(info).routes.entries(),
                    old(info).as_destination,
                    i as u8,
                    from,
                    news.entries(),
                    shorter@,
                );
                &&& final(info).routes.entries() == learned.0
                &&& final(info).routes_changed == (old(info).routes_changed || learned.1)
            },
        },
{
    let mut pos: usize = 0;
    while pos < interactions.len() && !interactions[pos].partner_lane.same(&from)
        invariant
            pos <= interactions@.len(),
            forall|j: int| 0 <= j < pos ==> interactions@[j].partner_lane != from,
        decreases interactions@.len() - pos,
    {
        pos = pos + 1;
    }
    if pos == interactions.len() {
        proof {
            assert(!exists|i: int| 0 <= i < interactions@.len() && interactions@[i].partner_lane == from);
        }
        return;
    }
    proof {
        let c = choose|i: int|
            0 <= i < interactions@.len() && interactions@[i].partner_lane == from && forall|j: int|
                0 <= j < i ==> interactions@[j].partner_lane != from;
        assert(interactions@[pos as int].partner_lane == from);
        assert(c == pos as int) by {
            if c < pos {
            } else if c > pos {
                assert(interactions@[pos as int].partner_lane != from);
            }
        }
    }
    let idx: u8 = pos as u8;
    let ghost routes0 = info.routes.entries();
    let ghost changed0 = info.routes_changed;
    let mut k: usize = 0;
    while k < news.len()
        invariant
            info.wf(),
            k <= news.entries().len(),
            shorter@.len() == news.entries().len(),
            info.as_destination == old(info).as_destination,
            info.hops_from_landmark == old(info).hops_from_landmark,
            info.learned_landmark_from == old(info).learned_landmark_from,
            info.tell_to_forget_next_tick == old(info).tell_to_forget_next_tick,
            info.query_routes_next_tick == old(info).query_routes_next_tick,
            info.routing_timeout == old(info).routing_timeout,
            ({
                let l = learned_routes(
                    routes0,
                    old(info).as_destination,
                    idx,
                    from,
                    news.entries().subrange(0, k as int),
                    shorter@,
                );
                &&& info.routes.entries() == l.0
                &&& info.routes_changed == (changed0 || l.1)
            }),
        decreases news.entries().len() - k,
    {
        let (destination, new_route) = *news.pair_at(k);
        let (new_distance, new_hops) = new_route;
        proof {
            assert(news.entries().subrange(0, k + 1).drop_last() =~= news.entries().subrange(0, k as int));
        }
        let accepted = destination.is_landmark() || new_hops <= IDEAL_LANDMARK_RADIUS || match info.as_destination {
            Some(self_destination) => self_destination.landmark.same(&destination.landmark),
            None => false,
        };
        if accepted {
            let insert = !info.routes.contains_key(destination) || shorter[k];
            if insert {
                info.routes.insert(
                    destination,
                    RoutingInfo {
                        distance: new_distance,
                        distance_hops: new_hops,
                        outgoing_idx: idx,
                        learned_from: from,
                        fresh: true,
                    },
                );
                info.routes_changed = true;
            }
        }
        k = k + 1;
    }
    proof {
        assert(news.entries().subrange(0, k as int) =~= news.entries());
    }
}

/// The routes after handling a request from lane `from` to forget the
/// destinations `forget`, and the destinations forgotten: in order, a route
/// is forgotten only when it was learned from `from`.
pub open spec fn forgotten_routes<D>(routes: Seq<(Destination, RoutingInfo<D>)>, from: ID, forget: Seq<Destination>) -> (
    Seq<(Destination, RoutingInfo<D>)>,
    Seq<Destination>,
)
    decreases forget.len(),
{
    if forget.len() == 0 {
        (routes, Seq::empty())
    } else {
        let prev = forgotten_routes(routes, from, forget.drop_last());
        let d = forget.last();
        if map_of(prev.0).contains_key(d) && map_of(prev.0)[d].learned_from == from {
            (prev.0.filter(other_key(d)), prev.1.push(d))
        } else {
            prev
        }
    }
}

/// Handles `ForgetRoutes` at a lane: the routes to the listed destinations
/// that were learned from the sender are dropped, and the destinations
/// dropped are to be forgotten by the lane's predecessors on the next tick.
/// They are also returned, for the lane's cars heading there to be taken off
/// (see `still_routed`).
pub fn forget_routes<D: Copy>(info: &mut PathfindingInfo<D>, msg: &ForgetRoutes) -> (forgotten: Vec<Destination>)
    requires
        old(info).wf(),
    ensures
        final(info).wf(),
        ({
            let r = forgotten_routes(old(info).routes.entries(), msg.from, msg.forget@);
            &&& final(info).routes.entries() == r.0
            &&& forgotten@ == r.1
            &&& final(info).tell_to_forget_next_tick@ == r.1
        }),
        forall|d: Destination|
            #[trigger] forgotten@.contains(d) <==> msg.forget@.contains(d) && old(info).routes.as_map().contains_key(d)
                && old(info).routes.as_map()[d].learned_from == msg.from,
        final(info).routes.as_map() == old(info).routes.as_map().remove_keys(forgotten@.to_set()),
        final(info).as_destination == old(info).as_destination,
        final(info).hops_from_landmark == old(info).hops_from_landmark,
        final(info).learned_landmark_from == old(info).learned_landmark_from,
        final(info).routes_changed == old(info).routes_changed,
        final(info).query_routes_next_tick == old(info).query_routes_next_tick,
        final(info).routing_timeout == old(info).routing_timeout,
{
    let ghost routes0 = info.routes.entries();
    let ghost map0 = info.routes.as_map();
    let mut forgotten: Vec<Destination> = Vec::new();
    proof {
        assert(forgotten@.to_set() =~= Set::<Destination>::empty());
        assert(map0.remove_keys(Set::<Destination>::empty()) =~= map0);
    }
    let mut k: usize = 0;
    while k < msg.forget.len()
        invariant
            info.wf(),
            k <= msg.forget@.len(),
            info.as_destination == old(info).as_destination,
            info.hops_from_landmark == old(info).hops_from_landmark,
            info.learned_landmark_from == old(info).learned_landmark_from,
            info.routes_changed == old(info).routes_changed,
            info.query_routes_next_tick == old(info).query_routes_next_tick,
            info.routing_timeout == old(info).routing_timeout,
            ({
                let r = forgotten_routes(routes0, msg.from, msg.forget@.subrange(0, k as int));
                &&& info.routes.entries() == r.0
                &&& forgotten@ == r.1
            }),
            forall|d: Destination|
                #[trigger] forgotten@.contains(d) <==> msg.forget@.subrange(0, k as int).contains(d)
                    && map0.contains_key(d) && map0[d].learned_from == msg.from,
            info.routes.as_map() == map0.remove_keys(forgotten@.to_set()),
        decreases msg.forget@.len() - k,
    {
        let destination = msg.forget[k];
        proof {
            assert(msg.forget@.subrange(0, k + 1).drop_last() =~= msg.forget@.subrange(0, k as int));
        }
        let forget = match info.routes.get(destination) {
            Some(routing_info) => routing_info.learned_from.same(&msg.from),
            None => false,
        };
        let ghost fset = forgotten@.to_set();
        let ghost before = forgotten@;
        if forget {
            info.routes.remove(destination);
            forgotten.push(destination);
            proof {
                before.lemma_push_to_set_commute(destination);
                assert(info.routes.as_map() =~= map0.remove_keys(forgotten@.to_set()));
            }
        }
        proof {
            assert(msg.forget@.subrange(0, k + 1) =~= msg.forget@.subrange(0, k as int).push(destination));
            assert forall|d: Destination|
                #[trigger] forgotten@.contains(d) <==> msg.forget@.subrange(0, k + 1).contains(d)
                    && map0.contains_key(d) && map0[d].learned_from == msg.from by {
                if d == destination {
                    assert(msg.forget@.subrange(0, k + 1)[k as int] == d);
                    if forget {
                        assert(forgotten@[before.len() as int] == d);
                    } else if map0.contains_key(d) && map0[d].learned_from == msg.from {
                        assert(fset.contains(d));
                        assert(before.contains(d));
                    }
                } else {
                    if forget {
                        if forgotten@.contains(d) {
                            let j = choose|j: int| 0 <= j < forgotten@.len() && forgotten@[j] == d;
                            assert(before[j] == d);
                        }
                        if before.contains(d) {
                            let j = choose|j: int| 0 <= j < before.len() && before[j] == d;
                            assert(forgotten@[j] == d);
                        }
                    }
                    if msg.forget@.subrange(0, k + 1).contains(d) {
                        let fk = msg.forget@.subrange(0, k + 1);
                        let j = choose|j: int| 0 <= j < fk.len() && fk[j] == d;
                        assert(msg.forget@.subrange(0, k as int)[j] == d);
                    }
                }
            }
        }
        k = k + 1;
    }
    proof {
        assert(msg.forget@.subrange(0, k as int) =~= msg.forget@);
    }
    info.tell_to_forget_next_tick = copy_destinations(&forgotten);
    forgotten
}

/// Whether a car heading for `car_destination` may stay on a lane that
/// forgot the route to `forgotten`: a forgotten landmark takes off every car
/// heading into its area, another destination only the cars heading there.
pub fn still_routed(car_destination: Destination, forgotten: Destination) -> (keep: bool)
    ensures
        keep == (if forgotten.landmark == forgotten.node {
            car_destination.landmark != forgotten.landmark
        } else {
            car_destination != forgotten
        }),
{
    if forgotten.is_landmark() {
        !car_destination.landmark.same(&forgotten.landmark)
    } else {
        !car_destination.same(&forgotten)
    }
}

/// A lane that already is the destination a `JoinLandmark` offers does not
/// join again: joining is not repeated by the same invitation.
pub proof fn lemma_join_not_repeated<D>(info: PathfindingInfo<D>, self_id: ID, msg: JoinLandmark)
    requires
        info.as_destination == Some(msg.join_as),
    ensures
        !joins(info, self_id, msg),
{
}

/// After a disconnection, no route is left that was learned from the
/// disconnected lane, and every other route is kept.
pub proof fn lemma_disconnect_drops_exactly<D>(
    routes: Seq<(Destination, RoutingInfo<D>)>,
    disconnected_id: ID,
    e: (Destination, RoutingInfo<D>),
)
    ensures
        routes.filter(not_learned_from(disconnected_id)).contains(e) <==> (routes.contains(e) && e.1.learned_from
            != disconnected_id),
{
    broadcast use vstd::seq_lib::group_filter_ensures;
    if routes.filter(not_learned_from(disconnected_id)).contains(e) {
        routes.lemma_filter_contains_rev(not_learned_from(disconnected_id), e);
        let j = choose|j: int|
            0 <= j < routes.filter(not_learned_from(disconnected_id)).len() && routes.filter(
                not_learned_from(disconnected_id),
            )[j] == e;
        assert(not_learned_from::<D>(disconnected_id)(routes.filter(not_learned_from(disconnected_id))[j]));
    }
    if routes.contains(e) && e.1.learned_from != disconnected_id {
        let j = choose|j: int| 0 <= j < routes.len() && routes[j] == e;
        assert(routes.filter(not_learned_from(disconnected_id)).contains(routes[j]));
    }
}

} // verus!
