//! Microtraffic: the traffic signals of lanes and when lanes do their
//! (throttled) traffic and pathfinding work.
use vstd::prelude::*;
use crate::kay::ID;
use crate::simulation::Timestamp;
use super::connectivity::{Interaction, InteractionKind};
use super::pathfinding::{Destination, RoutingInfo};
use crate::kay::CDict;
use crate::kay::compact_dict::map_of;

verus! {

/// Lanes do their traffic logic every this many ticks.
pub const TRAFFIC_LOGIC_THROTTLING: usize = 30;

/// Lanes do their pathfinding every this many ticks.
pub const PATHFINDING_THROTTLING: usize = 10;

/// Ticks per step of a signal's timings.
pub const TICKS_PER_SIGNAL_STEP: usize = 25;

/// How far ahead yellow looks, in ticks.
pub const YELLOW_LOOKAHEAD: usize = 100;

/// Tells the previous lanes of lane `from` whether it is green.
#[derive(Clone, Copy, Debug)]
pub struct SignalChanged {
    pub from: ID,
    pub green: bool,
}

/// The signal of a lane: green, and whether it is about to turn red or green.
#[derive(Clone, Copy, Debug, PartialEq, Eq, Structural)]
pub struct Signal {
    pub green: bool,
    pub yellow_to_red: bool,
    pub yellow_to_green: bool,
}

/// The step of the timings in effect at `ticks` (`timings` not empty).
pub open spec fn timing_at(timings: Seq<bool>, ticks: int) -> bool {
    timings[(ticks / (TICKS_PER_SIGNAL_STEP as int)) % timings.len() as int]
}

/// The signal at `ticks`: always green without timings; else green by the
/// current step, and yellow by the step `YELLOW_LOOKAHEAD` ticks ahead.
pub open spec fn signal_at(timings: Seq<bool>, ticks: int) -> Signal {
    if timings.len() == 0 {
        Signal { green: true, yellow_to_red: true, yellow_to_green: true }
    } else {
        Signal {
            green: timing_at(timings, ticks),
            yellow_to_red: !timing_at(timings, ticks + YELLOW_LOOKAHEAD),
            yellow_to_green: timing_at(timings, ticks + YELLOW_LOOKAHEAD),
        }
    }
}

/// The previous lanes of a lane, in order.
pub open spec fn previous_lanes(interactions: Seq<Interaction>) -> Seq<ID>
    decreases interactions.len(),
{
    if interactions.len() == 0 {
        Seq::empty()
    } else {
        let init = previous_lanes(interactions.drop_last());
        if interactions.last().kind is Previous {
            init.push(interactions.last().partner_lane)
        } else {
            init
        }
    }
}

/// What a lane does on a tick besides moving cars.
pub struct SignalTick {
    pub signal: Signal,
    pub signal_changes: Vec<(ID, SignalChanged)>,
    pub do_traffic: bool,
    pub do_pathfinding: bool,
}

/// The tick of lane `self_id` at `current_tick`, whose signal was green as
/// `old_green`: its signal by its timings; whether it does its traffic logic
/// and its pathfinding on this tick (lanes take turns by instance id); and,
/// when its signal changed or it does its traffic logic, telling its previous
/// lanes whether it is green.
pub fn signal_tick(old_green: bool, timings: &Vec<bool>, interactions: &Vec<Interaction>, self_id: ID, current_tick: Timestamp) -> (t: SignalTick)
    requires
        current_tick.0 + YELLOW_LOOKAHEAD <= usize::MAX,
    ensures
        t.signal == signal_at(timings@, current_tick.0 as int),
        t.do_traffic == (current_tick.0 % TRAFFIC_LOGIC_THROTTLING == (self_id.instance_id as usize) % TRAFFIC_LOGIC_THROTTLING),
        t.do_pathfinding == (current_tick.0 % PATHFINDING_THROTTLING == (self_id.instance_id as usize) % PATHFINDING_THROTTLING),
        t.signal_changes@ == (if old_green != t.signal.green || t.do_traffic {
            previous_lanes(interactions@).map_values(|p: ID| (p, SignalChanged { from: self_id, green: t.signal.green }))
        } else {
            Seq::empty()
        }),
{
    let ticks = current_tick.0;
    let do_traffic = ticks % TRAFFIC_LOGIC_THROTTLING == (self_id.instance_id as usize) % TRAFFIC_LOGIC_THROTTLING;
    let signal = if timings.len() == 0 {
        Signal { green: true, yellow_to_red: true, yellow_to_green: true }
    } else {
        let ahead = timings[((ticks + YELLOW_LOOKAHEAD) / TICKS_PER_SIGNAL_STEP) % timings.len()];
        Signal {
            green: timings[(ticks / TICKS_PER_SIGNAL_STEP) % timings.len()],
            yellow_to_red: !ahead,
            yellow_to_green: ahead,
        }
    };
    let mut signal_changes: Vec<(ID, SignalChanged)> = Vec::new();
    if old_green != signal.green || do_traffic {
        let ghost spec_changes = previous_lanes(interactions@).map_values(
            |p: ID| (p, SignalChanged { from: self_id, green: signal.green }),
        );
        let mut k: usize = 0;
        while k < interactions.len()
            invariant
                k <= interactions@.len(),
                signal_changes@ == previous_lanes(interactions@.subrange(0, k as int)).map_values(
                    |p: ID| (p, SignalChanged { from: self_id, green: signal.green }),
                ),
            decreases interactions@.len() - k,
        {
            proof {
                assert(interactions@.subrange(0, k + 1).drop_last() =~= interactions@.subrange(0, k as int));
            }
            let interaction = interactions[k];
            let ghost before = signal_changes@;
            match interaction.kind {
                InteractionKind::Previous => {
                    signal_changes.push((interaction.partner_lane, SignalChanged { from: self_id, green: signal.green }));
                    proof {
                        assert(signal_changes@ =~= previous_lanes(interactions@.subrange(0, k + 1)).map_values(
                            |p: ID| (p, SignalChanged { from: self_id, green: signal.green }),
                        ));
                    }
                },
                _ => {},
            }
            k = k + 1;
        }
        proof {
            assert(interactions@.subrange(0, k as int) =~= interactions@);
        }
    }
    SignalTick {
        signal,
        signal_changes,
        do_traffic,
        do_pathfinding: ticks % PATHFINDING_THROTTLING == (self_id.instance_id as usize) % PATHFINDING_THROTTLING,
    }
}

/// The index of the first `Next` interaction with lane `from`, if any.
pub open spec fn first_next_to(interactions: Seq<Interaction>, from: ID) -> Option<int> {
    if exists|i: int| 0 <= i < interactions.len() && interactions[i].partner_lane == from && interactions[i].kind is Next {
        Some(
            choose|i: int|
                0 <= i < interactions.len() && interactions[i].partner_lane == from && interactions[i].kind is Next
                    && forall|j: int|
                    0 <= j < i ==> !(interactions[j].partner_lane == from && interactions[j].kind is Next),
        )
    } else {
        None
    }
}

/// The first `Next` interaction with `from` is at `k` when none before is.
proof fn lemma_first_next_is(all: Seq<Interaction>, from: ID, k: int)
    requires
        0 <= k < all.len(),
        all[k].partner_lane == from && all[k].kind is Next,
        forall|j: int| 0 <= j < k ==> !(all[j].partner_lane == from && all[j].kind is Next),
    ensures
        first_next_to(all, from) == Some(k),
{
    let c = choose|i: int|
        0 <= i < all.len() && all[i].partner_lane == from && all[i].kind is Next && forall|j: int|
            0 <= j < i ==> !(all[j].partner_lane == from && all[j].kind is Next);
    assert(c == k) by {
        if c < k {
        } else if c > k {
            assert(!(all[k].partner_lane == from && all[k].kind is Next));
        }
    }
}

/// Handles `SignalChanged`: the first interaction with the next lane
/// `from` learns whether it is green. Returns whether the lane knows that
/// next lane yet.
pub fn signal_changed(interactions: &mut Vec<Interaction>, msg: &SignalChanged) -> (known: bool)
    ensures
        known == first_next_to(old(interactions)@, msg.from) is Some,
        match first_next_to(old(interactions)@, msg.from) {
            Some(i) => final(interactions)@ == old(interactions)@.update(
                i,
                Interaction { partner_lane: msg.from, kind: InteractionKind::Next { green: msg.green } },
            ),
            None => final(interactions)@ == old(interactions)@,
        },
{
    let ghost all = interactions@;
    let mut k: usize = 0;
    while k < interactions.len()
        invariant
            interactions@ == all,
            all == old(interactions)@,
            k <= all.len(),
            forall|j: int| 0 <= j < k ==> !(all[j].partner_lane == msg.from && all[j].kind is Next),
        decreases all.len() - k,
    {
        let interaction = interactions[k];
        if interaction.partner_lane.same(&msg.from) {
            match interaction.kind {
                InteractionKind::Next { .. } => {
                    proof {
                        lemma_first_next_is(all, msg.from, k as int);
                    }
                    interactions.set(k, Interaction { partner_lane: msg.from, kind: InteractionKind::Next { green: msg.green } });
                    return true;
                },
                _ => {},
            }
        }
        k = k + 1;
    }
    false
}

/// The interaction a car heading for `destination` takes next: that of the
/// route to its destination, else that of the route to its destination's
/// landmark, else (for a car that was not placed by force, on a lane that
/// knows some route) that of the route at position `pseudo_random` modulo
/// the number of routes. `None`: the car cannot be routed.
pub open spec fn spec_next_hop<D>(
    routes: Seq<(Destination, RoutingInfo<D>)>,
    destination: Destination,
    pseudo_random: Option<usize>,
) -> Option<usize> {
    let landmark = Destination { landmark: destination.landmark, node: destination.landmark };
    if map_of(routes).contains_key(destination) {
        Some(map_of(routes)[destination].outgoing_idx as usize)
    } else if map_of(routes).contains_key(landmark) {
        Some(map_of(routes)[landmark].outgoing_idx as usize)
    } else {
        match pseudo_random {
            Some(x) => if routes.len() > 0 {
                Some(routes[(x as int) % (routes.len() as int)].1.outgoing_idx as usize)
            } else {
                None
            },
            None => None,
        }
    }
}

/// The interaction a car added to a lane heads for next (see `spec_next_hop`).
pub fn next_hop_interaction<D: Copy>(
    routes: &CDict<Destination, RoutingInfo<D>>,
    destination: Destination,
    pseudo_random: Option<usize>,
) -> (hop: Option<usize>)
    requires
        routes.wf(),
    ensures
        hop == spec_next_hop(routes.entries(), destination, pseudo_random),
        routes.as_map().contains_key(destination) ==> hop == Some(
            routes.as_map()[destination].outgoing_idx as usize,
        ),
        !routes.as_map().contains_key(destination) && routes.as_map().contains_key(
            (Destination { landmark: destination.landmark, node: destination.landmark }),
        ) ==> hop == Some(
            routes.as_map()[(Destination { landmark: destination.landmark, node: destination.landmark })].outgoing_idx as usize,
        ),
{
    match routes.get(destination) {
        Some(route) => Some(route.outgoing_idx as usize),
        None => match routes.get(destination.landmark_destination()) {
            Some(route) => Some(route.outgoing_idx as usize),
            None => match pseudo_random {
                Some(x) => if routes.len() > 0 {
                    Some(routes.pair_at(x % routes.len()).1.outgoing_idx as usize)
                } else {
                    None
                },
                None => None,
            },
        },
    }
}

/// Routing prefers the most precise route: a car whose destination itself is
/// routed takes that route's interaction, whatever route its landmark has;
/// only when its destination is not routed does it take its landmark's
/// route; and a car that was placed by force is routed by these alone.
pub proof fn lemma_next_hop_prefers_exact_route<D>(
    routes: Seq<(Destination, RoutingInfo<D>)>,
    destination: Destination,
    pseudo_random: Option<usize>,
)
    ensures
        map_of(routes).contains_key(destination) ==> spec_next_hop(routes, destination, pseudo_random) == Some(
            map_of(routes)[destination].outgoing_idx as usize,
        ),
        !map_of(routes).contains_key(destination) && map_of(routes).contains_key(
            (Destination { landmark: destination.landmark, node: destination.landmark }),
        ) ==> spec_next_hop(routes, destination, pseudo_random) == Some(
            map_of(routes)[(Destination { landmark: destination.landmark, node: destination.landmark })].outgoing_idx as usize,
        ),
        pseudo_random is None ==> (spec_next_hop(routes, destination, pseudo_random) is Some <==> map_of(
            routes,
        ).contains_key(destination) || map_of(routes).contains_key(
            (Destination { landmark: destination.landmark, node: destination.landmark }),
        )),
{
}

/// Whether a car leaving lane `self_id` for `destination` goes on to the next
/// lane: not when this lane is its destination's node.
pub fn passes_on(self_id: ID, destination: Destination) -> (goes_on: bool)
    ensures
        goes_on == (self_id != destination.node),
{
    !self_id.same(&destination.node)
}

/// Whether a lane tells its partner `partner` about obstacles on this tick
/// (partners take turns by instance id, a tick ahead of traffic).
pub fn shares_obstacles(current_tick: Timestamp, partner: ID) -> (shares: bool)
    requires
        current_tick.0 < usize::MAX,
    ensures
        shares == ((current_tick.0 + 1) % (TRAFFIC_LOGIC_THROTTLING as int) == (partner.instance_id as usize) % TRAFFIC_LOGIC_THROTTLING),
{
    (current_tick.0 + 1) % TRAFFIC_LOGIC_THROTTLING == (partner.instance_id as usize) % TRAFFIC_LOGIC_THROTTLING
}

/// Whether a known obstacle is from a lane other than `from`.
pub open spec fn not_from<O>(from: ID) -> spec_fn((O, ID)) -> bool {
    |e: (O, ID)| e.1 != from
}

/// An obstacle, marked as from lane `from`.
pub open spec fn marked_from<O>(from: ID) -> spec_fn(O) -> (O, ID) {
    |o: O| (o, from)
}

/// The obstacles a lane knows of after lane `from` tells it about
/// `obstacles`: those from other lanes, in order, then the new ones, each
/// marked as from `from`.
pub open spec fn obstacles_after<O>(known: Seq<(O, ID)>, obstacles: Seq<O>, from: ID) -> Seq<(O, ID)> {
    known.filter(not_from(from)) + obstacles.map_values(marked_from(from))
}

/// Handles `AddObstacles`: the obstacles that lane `from` told of before are
/// replaced by `obstacles`.
pub fn add_obstacles<O: Copy>(known: &mut Vec<(O, ID)>, obstacles: &Vec<O>, from: ID)
    ensures
        final(known)@ == obstacles_after(old(known)@, obstacles@, from),
{
    let ghost before = known@;
    let ghost f = not_from::<O>(from);
    let mut kept: Vec<(O, ID)> = Vec::new();
    let mut k: usize = 0;
    while k < known.len()
        invariant
            known@ == before,
            f == not_from::<O>(from),
            k <= before.len(),
            kept@ == before.subrange(0, k as int).filter(f),
        decreases before.len() - k,
    {
        let e = known[k];
        proof {
            broadcast use vstd::seq::Seq::lemma_filter_push;
            assert(before.subrange(0, k + 1) =~= before.subrange(0, k as int).push(before[k as int]));
        }
        if !e.1.same(&from) {
            kept.push(e);
        }
        k = k + 1;
    }
    proof {
        assert(before.subrange(0, k as int) =~= before);
    }
    let ghost filtered = kept@;
    let ghost g = marked_from::<O>(from);
    let mut j: usize = 0;
    while j < obstacles.len()
        invariant
            j <= obstacles@.len(),
            g == marked_from::<O>(from),
            kept@ == filtered + obstacles@.subrange(0, j as int).map_values(g),
        decreases obstacles@.len() - j,
    {
        kept.push((obstacles[j], from));
        proof {
            assert(obstacles@.subrange(0, j + 1).map_values(g) =~= obstacles@.subrange(0, j as int).map_values(g).push(
                (obstacles@[j as int], from),
            ));
            assert(kept@ =~= filtered + obstacles@.subrange(0, j + 1).map_values(g));
        }
        j = j + 1;
    }
    proof {
        assert(obstacles@.subrange(0, j as int) =~= obstacles@);
    }
    *known = kept;
}

} // verus!
