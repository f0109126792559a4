//! Trips of cars from a source lane to a rough destination.
use vstd::prelude::*;
use crate::kay::{Compact, Fate, ID, Swarm};
use crate::kay::swarm::LivingActor;
use crate::simulation::Timestamp;
use super::{Destination, QueryAsDestination, TellAsDestination};

verus! {

/// A trip from the lane `source` to whichever destination `rough_destination` is.
#[derive(Clone, Copy, Debug)]
pub struct Trip {
    pub source: ID,
    pub rough_destination: ID,
    pub destination: Option<Destination>,
    pub listener: Option<ID>,
}

impl Trip {
    /// A trip whose destination is not known yet.
    pub fn new(source: ID, rough_destination: ID, listener: Option<ID>) -> (trip: Trip)
        ensures
            trip.source == source,
            trip.rough_destination == rough_destination,
            trip.listener == listener,
            trip.destination is None,
    {
        Trip { source, rough_destination, listener, destination: None }
    }
}

impl Compact for Trip {
    open spec fn spec_total_size_bytes(&self) -> nat {
        vstd::layout::size_of::<Trip>()
    }

    open spec fn spec_dynamic_size_bytes(&self) -> nat {
        0
    }

    fn total_size_bytes(&self) -> (n: usize) {
        core::mem::size_of::<Trip>()
    }

    fn dynamic_size_bytes(&self) -> (n: usize) {
        0
    }
}

/// Starts a trip at a tick.
#[derive(Clone, Copy, Debug)]
pub struct Start(pub Timestamp);

/// Tells a listener that a trip was created.
#[derive(Clone, Copy, Debug)]
pub struct CreatedTrip(pub ID);

/// Ends a trip.
#[derive(Clone, Copy, Debug)]
pub enum TripControl {
    Succeed { tick: Timestamp },
    Fail { location: ID, tick: Timestamp },
}

/// How a trip ended, told to its listener.
#[derive(Clone, Copy, Debug)]
pub struct TripResult {
    pub id: ID,
    pub location: ID,
    pub failed: bool,
    pub tick: Timestamp,
}

/// Makes trips between pairs of lanes picked one after the other.
#[derive(Clone, Copy, Debug)]
pub struct TripCreator {
    pub current_source_lane: Option<ID>,
}

/// A lane was picked for a trip.
#[derive(Clone, Copy, Debug)]
pub struct AddLaneForTrip(pub ID);

/// What a trip does on learning its destination.
#[derive(Clone, Copy, Debug)]
pub enum DestinationOutcome {
    /// The trip goes on: a car for `destination` is to be added to lane `lane`.
    AddCar { lane: ID, destination: Destination },
    /// The rough destination is no destination: the trip ends, and its
    /// listener, if any, is told of the failure.
    Failed { notify: Option<(ID, TripResult)> },
}

impl Trip {
    /// A trip `self_id` is started at `msg`'s tick: its rough destination is
    /// asked which destination it is, and its listener, if any, told of it.
    pub fn start(&self, self_id: ID, msg: &Start) -> (out: ((ID, QueryAsDestination), Option<(ID, CreatedTrip)>))
        ensures
            out.0.0 == self.rough_destination,
            out.0.1.rough_destination == self.rough_destination,
            out.0.1.requester == self_id,
            out.0.1.tick == Some(msg.0),
            out.1 == (match self.listener {
                Some(listener) => Some((listener, CreatedTrip(self_id))),
                None => None,
            }),
    {
        let query = (self.rough_destination, QueryAsDestination {
            rough_destination: self.rough_destination,
            requester: self_id,
            tick: Some(msg.0),
        });
        let created = match self.listener {
            Some(listener) => Some((listener, CreatedTrip(self_id))),
            None => None,
        };
        (query, created)
    }

    /// Handles the answer of the rough destination. With a destination the
    /// trip keeps it and puts a car on its source lane; without, it fails at
    /// its source and dies. A failure to tell needs the tick of the query.
    pub fn on_tell_as_destination(&mut self, self_id: ID, msg: &TellAsDestination) -> (out: (
        DestinationOutcome,
        Fate,
    ))
        requires
            msg.as_destination is None && old(self).listener is Some ==> msg.tick is Some,
        ensures
            match msg.as_destination {
                Some(d) => {
                    &&& *final(self) == (Trip { destination: Some(d), ..*old(self) })
                    &&& out.0 == (DestinationOutcome::AddCar { lane: old(self).source, destination: d })
                    &&& out.1 == Fate::Live
                },
                None => {
                    &&& *final(self) == *old(self)
                    &&& out.0 == (DestinationOutcome::Failed {
                        notify: match old(self).listener {
                            Some(listener) => Some(
                                (
                                    listener,
                                    TripResult {
                                        tick: msg.tick->0,
                                        failed: true,
                                        id: self_id,
                                        location: old(self).source,
                                    },
                                ),
                            ),
                            None => None,
                        },
                    })
                    &&& out.1 == Fate::Die
                },
            },
    {
        match msg.as_destination {
            Some(as_destination) => {
                self.destination = Some(as_destination);
                (DestinationOutcome::AddCar { lane: self.source, destination: as_destination }, Fate::Live)
            },
            None => {
                let notify = match self.listener {
                    Some(listener) => Some(
                        (
                            listener,
                            TripResult { tick: msg.tick.unwrap(), failed: true, id: self_id, location: self.source },
                        ),
                    ),
                    None => None,
                };
                (DestinationOutcome::Failed { notify }, Fate::Die)
            },
        }
    }

    /// Ends the trip: its listener, if any, is told the result (reported as
    /// failed in both cases), located where it failed or at the rough
    /// destination on success; the trip dies.
    pub fn on_control(&self, self_id: ID, control: &TripControl) -> (out: (Option<(ID, TripResult)>, Fate))
        ensures
            out.1 == Fate::Die,
            out.0 == (match self.listener {
                Some(listener) => Some(
                    (
                        listener,
                        match *control {
                            TripControl::Fail { location, tick } => TripResult {
                                tick,
                                failed: true,
                                id: self_id,
                                location,
                            },
                            TripControl::Succeed { tick } => TripResult {
                                tick,
                                failed: true,
                                id: self_id,
                                location: self.rough_destination,
                            },
                        },
                    ),
                ),
                None => None,
            }),
    {
        let notify = match self.listener {
            Some(listener) => {
                let result = match *control {
                    TripControl::Fail { location, tick } => TripResult { tick, failed: true, id: self_id, location },
                    TripControl::Succeed { tick } => TripResult {
                        tick,
                        failed: true,
                        id: self_id,
                        location: self.rough_destination,
                    },
                };
                Some((listener, result))
            },
            None => None,
        };
        (notify, Fate::Die)
    }
}

impl TripCreator {
    /// A creator with no lane picked yet.
    pub fn new() -> (tc: TripCreator)
        ensures
            tc.current_source_lane is None,
    {
        TripCreator { current_source_lane: None }
    }

    /// A lane was picked: the first of a pair becomes the source, the second
    /// the rough destination of a new trip without listener, which is returned.
    pub fn add_lane_for_trip(&mut self, msg: &AddLaneForTrip) -> (trip: Option<Trip>)
        ensures
            match old(self).current_source_lane {
                Some(source) => {
                    &&& trip == Some(
                        Trip { source, rough_destination: msg.0, destination: None, listener: None },
                    )
                    &&& final(self).current_source_lane is None
                },
                None => {
                    &&& trip is None
                    &&& final(self).current_source_lane == Some(msg.0)
                },
            },
    {
        match self.current_source_lane {
            Some(source) => {
                self.current_source_lane = None;
                Some(Trip { source, rough_destination: msg.0, destination: None, listener: None })
            },
            None => {
                self.current_source_lane = Some(msg.0);
                None
            },
        }
    }
}

/// The trip actors as they start: an empty swarm of trips (whose smallest
/// size class holds `base_size` bytes) and a creator with no lane picked.
pub fn setup(base_size: usize) -> (out: (Swarm<Trip>, TripCreator))
    requires
        base_size > 0,
    ensures
        out.0.wf(),
        out.0@ == Map::<nat, LivingActor<Trip>>::empty(),
        out.1.current_source_lane is None,
{
    (Swarm::new(base_size), TripCreator::new())
}

} // verus!
