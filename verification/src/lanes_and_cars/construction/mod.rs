//! Construction: building and unbuilding lanes to make reality match a plan.
use vstd::prelude::*;
use crate::kay::{Fate, ID};
use super::connectivity::{Interaction, InteractionKind, TransferSides};
use super::pathfinding::{on_connect, on_disconnect, not_learned_from, PathfindingInfo, ROUTING_TIMEOUT_AFTER_CHANGE};
use self::materialized_reality::ReportLaneUnbuilt;

pub mod materialized_reality;

verus! {

/// Asks a newly built lane to connect to transfer lanes and to report itself.
#[derive(Clone, Copy, Debug)]
pub struct AdvertiseToTransferAndReport(pub ID, pub materialized_reality::BuildableRef);

/// Asks a lane to overlap-connect with the given lanes.
pub struct AdvertiseForOverlaps {
    pub lanes: Vec<ID>,
}

/// Asks a lane to connect to a transfer lane.
#[derive(Clone, Copy, Debug)]
pub struct ConnectToTransfer {
    pub other_id: ID,
}

/// Tells a lane that another lane is going away.
#[derive(Clone, Copy, Debug)]
pub struct Disconnect {
    pub other_id: ID,
}

/// Confirms a disconnect.
#[derive(Clone, Copy, Debug)]
pub struct ConfirmDisconnect;

/// Asks a lane to unbuild itself and report to `report_to` when done.
#[derive(Clone, Copy, Debug)]
pub struct Unbuild {
    pub report_to: ID,
}

/// Where a lane stands in unbuilding: for whom, and how many disconnects
/// are still to be confirmed.
#[derive(Clone, Copy, Debug, PartialEq, Eq)]
pub struct UnbuildState {
    pub unbuilding_for: Option<ID>,
    pub disconnects_remaining: u8,
}

impl UnbuildState {
    /// Not unbuilding.
    pub fn new() -> (s: UnbuildState)
        ensures
            s.unbuilding_for is None,
            s.disconnects_remaining == 0,
    {
        UnbuildState { unbuilding_for: None, disconnects_remaining: 0 }
    }
}

/// The interactions of a lane: its connectivity, apart from the positions
/// along the lanes.
pub struct ConnectivityInfo {
    pub interactions: Vec<Interaction>,
    pub on_intersection: bool,
}

impl ConnectivityInfo {
    /// A lane without interactions yet.
    pub fn new(on_intersection: bool) -> (c: ConnectivityInfo)
        ensures
            c.interactions@.len() == 0,
            c.on_intersection == on_intersection,
    {
        ConnectivityInfo { interactions: Vec::new(), on_intersection: on_intersection }
    }
}

/// Whether some interaction with `partner` is a `Next` one.
pub open spec fn has_next(interactions: Seq<Interaction>, partner: ID) -> bool {
    exists|i: int| 0 <= i < interactions.len() && interactions[i].partner_lane == partner && interactions[i].kind is Next
}

/// Whether some interaction with `partner` is a `Previous` one.
pub open spec fn has_previous(interactions: Seq<Interaction>, partner: ID) -> bool {
    exists|i: int| 0 <= i < interactions.len() && interactions[i].partner_lane == partner && interactions[i].kind is Previous
}

/// Whether some interaction is with `partner`.
pub open spec fn has_partner(interactions: Seq<Interaction>, partner: ID) -> bool {
    exists|i: int| 0 <= i < interactions.len() && interactions[i].partner_lane == partner
}

/// Whether an interaction with `kind` and `partner` is among `interactions`.
fn find_kind(interactions: &Vec<Interaction>, partner: ID, want_next: bool) -> (found: bool)
    ensures
        found == if want_next {
            has_next(interactions@, partner)
        } else {
            has_previous(interactions@, partner)
        },
{
    let mut k: usize = 0;
    while k < interactions.len()
        invariant
            k <= interactions@.len(),
            forall|j: int|
                0 <= j < k ==> !(interactions@[j].partner_lane == partner && (if want_next {
                    interactions@[j].kind is Next
                } else {
                    interactions@[j].kind is Previous
                })),
        decreases interactions@.len() - k,
    {
        let interaction = interactions[k];
        if interaction.partner_lane.same(&partner) {
            match interaction.kind {
                InteractionKind::Next { .. } => {
                    if want_next {
                        return true;
                    }
                },
                InteractionKind::Previous => {
                    if !want_next {
                        return true;
                    }
                },
                _ => {},
            }
        }
        k = k + 1;
    }
    false
}

/// The everything-but-routing-timeout part of the pathfinding state stays.
pub open spec fn same_but_timeout<D>(a: PathfindingInfo<D>, b: PathfindingInfo<D>) -> bool {
    &&& a.as_destination == b.as_destination
    &&& a.hops_from_landmark == b.hops_from_landmark
    &&& a.learned_landmark_from == b.learned_landmark_from
    &&& a.routes == b.routes
    &&& a.routes_changed == b.routes_changed
    &&& a.tell_to_forget_next_tick == b.tell_to_forget_next_tick
    &&& a.query_routes_next_tick == b.query_routes_next_tick
}

/// The interactions after connecting to lane `other`: a `Next` interaction
/// with it is added where it continues here and there is none yet, then a
/// `Previous` one where it leads here and there is none yet.
pub open spec fn connected(interactions: Seq<Interaction>, other: ID, continues_here: bool, leads_here: bool) -> Seq<
    Interaction,
> {
    let with_next = if continues_here && !has_next(interactions, other) {
        interactions.push(Interaction { partner_lane: other, kind: InteractionKind::Next { green: false } })
    } else {
        interactions
    };
    if leads_here && !has_previous(with_next, other) {
        with_next.push(Interaction { partner_lane: other, kind: InteractionKind::Previous })
    } else {
        with_next
    }
}

/// Connecting is idempotent: the same `Connect` delivered again leaves the
/// interactions as the first delivery left them, so a lane has at most one
/// `Next` and one `Previous` interaction added per partner.
pub proof fn lemma_connect_idempotent(interactions: Seq<Interaction>, other: ID, continues_here: bool, leads_here: bool)
    ensures
        connected(connected(interactions, other, continues_here, leads_here), other, continues_here, leads_here)
            == connected(interactions, other, continues_here, leads_here),
{
    let once = connected(interactions, other, continues_here, leads_here);
    let with_next = if continues_here && !has_next(interactions, other) {
        interactions.push(Interaction { partner_lane: other, kind: InteractionKind::Next { green: false } })
    } else {
        interactions
    };
    if continues_here {
        if has_next(interactions, other) {
            let i = choose|i: int|
                0 <= i < interactions.len() && interactions[i].partner_lane == other && interactions[i].kind is Next;
            assert(once[i] == interactions[i]);
        } else {
            assert(once[interactions.len() as int] == with_next[interactions.len() as int]);
        }
        assert(has_next(once, other));
    }
    if leads_here {
        if has_previous(with_next, other) {
            let i = choose|i: int|
                0 <= i < with_next.len() && with_next[i].partner_lane == other && with_next[i].kind is Previous;
            assert(once[i] == with_next[i]);
        } else {
            assert(once[with_next.len() as int].kind is Previous);
        }
        assert(has_previous(once, other));
    }
}

/// Handles `Connect` at lane `self_id` from lane `other_id`: where the other
/// lane starts at this one's end (`continues_here`), it becomes a next lane,
/// where it ends at this one's start (`leads_here`), a previous lane (each
/// kind of interaction only once); either way pathfinding waits before
/// routing. When connected and asked to, this lane answers with its own
/// `Connect` (returns whether to). A lane does not connect to itself.
pub fn connect<D: Copy>(
    interactions: &mut Vec<Interaction>,
    pathfinding: &mut PathfindingInfo<D>,
    self_id: ID,
    other_id: ID,
    continues_here: bool,
    leads_here: bool,
    reply_needed: bool,
) -> (reply: bool)
    ensures
        other_id == self_id ==> *final(interactions) == *old(interactions) && *final(pathfinding) == *old(pathfinding)
            && !reply,
        other_id != self_id ==> {
            &&& final(interactions)@ == connected(old(interactions)@, other_id, continues_here, leads_here)
            &&& same_but_timeout(*final(pathfinding), *old(pathfinding))
            &&& final(pathfinding).routing_timeout == (if continues_here || leads_here {
                ROUTING_TIMEOUT_AFTER_CHANGE
            } else {
                old(pathfinding).routing_timeout
            })
            &&& reply == (reply_needed && (continues_here || leads_here))
        },
{
    if other_id.same(&self_id) {
        return false;
    }
    let mut connected = false;
    if continues_here {
        connected = true;
        if !find_kind(interactions, other_id, true) {
            interactions.push(Interaction { partner_lane: other_id, kind: InteractionKind::Next { green: false } });
        }
        on_connect(pathfinding);
    }
    if leads_here {
        connected = true;
        if !find_kind(interactions, other_id, false) {
            interactions.push(Interaction { partner_lane: other_id, kind: InteractionKind::Previous });
        }
        on_connect(pathfinding);
    }
    reply_needed && connected
}

/// Handles `AddTransferLaneInteraction`: the interaction is added unless
/// there already is one with its partner, and then pathfinding waits.
pub fn add_transfer_lane_interaction<D: Copy>(
    interactions: &mut Vec<Interaction>,
    pathfinding: &mut PathfindingInfo<D>,
    interaction: Interaction,
)
    ensures
        has_partner(old(interactions)@, interaction.partner_lane) ==> *final(interactions) == *old(interactions)
            && *final(pathfinding) == *old(pathfinding),
        !has_partner(old(interactions)@, interaction.partner_lane) ==> final(interactions)@ == old(
            interactions,
        )@.push(interaction) && same_but_timeout(*final(pathfinding), *old(pathfinding))
            && final(pathfinding).routing_timeout == ROUTING_TIMEOUT_AFTER_CHANGE,
{
    let mut k: usize = 0;
    while k < interactions.len()
        invariant
            k <= interactions@.len(),
            forall|j: int| 0 <= j < k ==> interactions@[j].partner_lane != interaction.partner_lane,
        decreases interactions@.len() - k,
    {
        if interactions[k].partner_lane.same(&interaction.partner_lane) {
            return;
        }
        k = k + 1;
    }
    interactions.push(interaction);
    on_connect(pathfinding);
}

/// The indices of the interactions with `partner`, in order.
pub open spec fn partner_indices(interactions: Seq<Interaction>, partner: ID) -> Seq<usize>
    decreases interactions.len(),
{
    if interactions.len() == 0 {
        Seq::empty()
    } else {
        let init = partner_indices(interactions.drop_last(), partner);
        if interactions.last().partner_lane == partner {
            init.push((interactions.len() - 1) as usize)
        } else {
            init
        }
    }
}

/// Whether an interaction is with another lane than `partner`.
pub open spec fn other_partner(partner: ID) -> spec_fn(Interaction) -> bool {
    |i: Interaction| i.partner_lane != partner
}

/// Handles `Disconnect` at a lane: its interactions with the other lane are
/// removed (the others keep their order), pathfinding forgets what it
/// learned from it, and the other lane is sent `ConfirmDisconnect`. Returns
/// the indices the removed interactions had, for the lane's cars heading
/// through them to be taken off, and the confirmation.
pub fn disconnect_lane<D: Copy>(
    interactions: &mut Vec<Interaction>,
    pathfinding: &mut PathfindingInfo<D>,
    msg: &Disconnect,
) -> (out: (Vec<usize>, (ID, ConfirmDisconnect)))
    requires
        old(pathfinding).wf(),
    ensures
        out.0@ == partner_indices(old(interactions)@, msg.other_id),
        final(interactions)@ == old(interactions)@.filter(other_partner(msg.other_id)),
        final(pathfinding).wf(),
        final(pathfinding).routes.entries() == old(pathfinding).routes.entries().filter(
            not_learned_from(msg.other_id),
        ),
        final(pathfinding).routes_changed,
        final(pathfinding).query_routes_next_tick,
        out.1.0 == msg.other_id,
{
    let ghost all = interactions@;
    let ghost f = other_partner(msg.other_id);
    let mut removed: Vec<usize> = Vec::new();
    let mut kept: Vec<Interaction> = Vec::new();
    let mut k: usize = 0;
    while k < interactions.len()
        invariant
            interactions@ == all,
            f == other_partner(msg.other_id),
            k <= all.len(),
            removed@ == partner_indices(all.subrange(0, k as int), msg.other_id),
            kept@ == all.subrange(0, k as int).filter(f),
        decreases all.len() - k,
    {
        let interaction = interactions[k];
        proof {
            broadcast use vstd::seq::Seq::lemma_filter_push;
            assert(all.subrange(0, k + 1) =~= all.subrange(0, k as int).push(all[k as int]));
            assert(all.subrange(0, k + 1).drop_last() =~= all.subrange(0, k as int));
        }
        if interaction.partner_lane.same(&msg.other_id) {
            removed.push(k);
        } else {
            kept.push(interaction);
        }
        k = k + 1;
    }
    proof {
        assert(all.subrange(0, k as int) =~= all);
    }
    *interactions = kept;
    on_disconnect(pathfinding, msg.other_id);
    (removed, (msg.other_id, ConfirmDisconnect))
}

/// The partners of `interactions`, each once, in the order they first occur.
pub open spec fn unique_partners(interactions: Seq<Interaction>) -> Seq<ID>
    decreases interactions.len(),
{
    if interactions.len() == 0 {
        Seq::empty()
    } else {
        let init = unique_partners(interactions.drop_last());
        let p = interactions.last().partner_lane;
        if init.contains(p) {
            init
        } else {
            init.push(p)
        }
    }
}

/// Handles `Unbuild` at lane `self_id`: every partner lane (each once, in
/// order) is told to disconnect. Without partners, the lane reports itself
/// unbuilt to `report_to` and dies; else it waits for as many confirmations,
/// for `report_to`.
pub fn unbuild_lane(state: &mut UnbuildState, interactions: &Vec<Interaction>, self_id: ID, msg: &Unbuild) -> (out: (
    Vec<(ID, Disconnect)>,
    Option<(ID, ReportLaneUnbuilt)>,
    Fate,
))
    requires
        unique_partners(interactions@).len() <= u8::MAX,
    ensures
        out.0@ == unique_partners(interactions@).map_values(|p: ID| (p, Disconnect { other_id: self_id })),
        unique_partners(interactions@).len() == 0 ==> out.1 == Some((msg.report_to, ReportLaneUnbuilt(Some(self_id))))
            && out.2 == Fate::Die && *final(state) == *old(state),
        unique_partners(interactions@).len() > 0 ==> out.1 is None && out.2 == Fate::Live && *final(state) == (
        UnbuildState {
            disconnects_remaining: unique_partners(interactions@).len() as u8,
            unbuilding_for: Some(msg.report_to),
        }),
{
    let ghost all = interactions@;
    let mut partners: Vec<ID> = Vec::new();
    let mut k: usize = 0;
    while k < interactions.len()
        invariant
            interactions@ == all,
            k <= all.len(),
            partners@ == unique_partners(all.subrange(0, k as int)),
        decreases all.len() - k,
    {
        let p = interactions[k].partner_lane;
        proof {
            assert(all.subrange(0, k + 1).drop_last() =~= all.subrange(0, k as int));
        }
        let mut seen = false;
        let mut j: usize = 0;
        while j < partners.len()
            invariant
                j <= partners@.len(),
                seen == exists|q: int| 0 <= q < j && partners@[q] == p,
            decreases partners@.len() - j,
        {
            if partners[j].same(&p) {
                seen = true;
            }
            j = j + 1;
        }
        if !seen {
            partners.push(p);
        }
        k = k + 1;
    }
    proof {
        assert(all.subrange(0, k as int) =~= all);
    }
    let ghost spec_out = partners@.map_values(|p: ID| (p, Disconnect { other_id: self_id }));
    let mut disconnects: Vec<(ID, Disconnect)> = Vec::new();
    let mut disconnects_remaining: u8 = 0;
    let mut j: usize = 0;
    while j < partners.len()
        invariant
            partners@.len() <= u8::MAX,
            spec_out == partners@.map_values(|p: ID| (p, Disconnect { other_id: self_id })),
            j <= partners@.len(),
            disconnects@ == spec_out.subrange(0, j as int),
            disconnects_remaining == j,
        decreases partners@.len() - j,
    {
        disconnects.push((partners[j], Disconnect { other_id: self_id }));
        disconnects_remaining = disconnects_remaining + 1;
        proof {
            assert(spec_out.subrange(0, j + 1) =~= spec_out.subrange(0, j as int).push(spec_out[j as int]));
        }
        j = j + 1;
    }
    proof {
        assert(spec_out.subrange(0, j as int) =~= spec_out);
    }
    if disconnects_remaining == 0 {
        (disconnects, Some((msg.report_to, ReportLaneUnbuilt(Some(self_id)))), Fate::Die)
    } else {
        state.disconnects_remaining = disconnects_remaining;
        state.unbuilding_for = Some(msg.report_to);
        (disconnects, None, Fate::Live)
    }
}

/// Handles `ConfirmDisconnect` at lane `self_id` (a lane or a transfer
/// lane): one confirmation less to wait for; after the last one, the lane
/// reports itself unbuilt to whom it is unbuilding for, and dies. Only valid
/// while waiting for confirmations.
pub fn confirm_disconnect(state: &mut UnbuildState, self_id: ID) -> (out: (Option<(ID, ReportLaneUnbuilt)>, Fate))
    requires
        old(state).disconnects_remaining > 0,
        old(state).disconnects_remaining == 1 ==> old(state).unbuilding_for is Some,
    ensures
        final(state).disconnects_remaining == old(state).disconnects_remaining - 1,
        final(state).unbuilding_for == old(state).unbuilding_for,
        final(state).disconnects_remaining == 0 ==> out == (
            Some((old(state).unbuilding_for->0, ReportLaneUnbuilt(Some(self_id)))),
            Fate::Die,
        ),
        final(state).disconnects_remaining > 0 ==> out == (None::<(ID, ReportLaneUnbuilt)>, Fate::Live),
{
    state.disconnects_remaining = state.disconnects_remaining - 1;
    if state.disconnects_remaining == 0 {
        (Some((state.unbuilding_for.unwrap(), ReportLaneUnbuilt(Some(self_id)))), Fate::Die)
    } else {
        (None, Fate::Live)
    }
}

/// Handles `Disconnect` at a transfer lane: a side that is the other lane is
/// forgotten, and the other lane gets `ConfirmDisconnect`.
pub fn disconnect_transfer(sides: &mut TransferSides, msg: &Disconnect) -> (reply: (ID, ConfirmDisconnect))
    ensures
        final(sides).left == (if old(sides).left == Some(msg.other_id) {
            None
        } else {
            old(sides).left
        }),
        final(sides).right == (if old(sides).right == Some(msg.other_id) {
            None
        } else {
            old(sides).right
        }),
        reply.0 == msg.other_id,
{
    if let Some(left) = sides.left {
        if left.same(&msg.other_id) {
            sides.left = None;
        }
    }
    if let Some(right) = sides.right {
        if right.same(&msg.other_id) {
            sides.right = None;
        }
    }
    (msg.other_id, ConfirmDisconnect)
}

/// Handles `Unbuild` at transfer lane `self_id`: both its sides are told to
/// disconnect. Without sides, it reports itself unbuilt to `report_to` and
/// dies; else it waits for a confirmation per side.
pub fn unbuild_transfer(state: &mut UnbuildState, sides: &TransferSides, self_id: ID, msg: &Unbuild) -> (out: (
    Vec<(ID, Disconnect)>,
    Option<(ID, ReportLaneUnbuilt)>,
    Fate,
))
    ensures
        out.0@ == (match sides.left {
            Some(l) => seq![(l, Disconnect { other_id: self_id })],
            None => Seq::empty(),
        }) + (match sides.right {
            Some(r) => seq![(r, Disconnect { other_id: self_id })],
            None => Seq::empty(),
        }),
        sides.left is None && sides.right is None ==> out.1 == Some((msg.report_to, ReportLaneUnbuilt(Some(self_id))))
            && out.2 == Fate::Die && *final(state) == *old(state),
        !(sides.left is None && sides.right is None) ==> out.1 is None && out.2 == Fate::Live && *final(state) == (
        UnbuildState { disconnects_remaining: out.0@.len() as u8, unbuilding_for: Some(msg.report_to) }),
{
    let mut disconnects: Vec<(ID, Disconnect)> = Vec::new();
    if let Some(left) = sides.left {
        disconnects.push((left, Disconnect { other_id: self_id }));
    }
    if let Some(right) = sides.right {
        disconnects.push((right, Disconnect { other_id: self_id }));
    }
    proof {
        assert(disconnects@ =~= (match sides.left {
            Some(l) => seq![(l, Disconnect { other_id: self_id })],
            None => Seq::empty(),
        }) + (match sides.right {
            Some(r) => seq![(r, Disconnect { other_id: self_id })],
            None => Seq::empty(),
        }));
    }
    if sides.left.is_none() && sides.right.is_none() {
        (disconnects, Some((msg.report_to, ReportLaneUnbuilt(Some(self_id)))), Fate::Die)
    } else {
        state.disconnects_remaining = disconnects.len() as u8;
        state.unbuilding_for = Some(msg.report_to);
        (disconnects, None, Fate::Live)
    }
}

} // verus!
