//! How lanes relate to each other: the kinds of their interactions.
use vstd::prelude::*;
use crate::kay::ID;

verus! {

/// How two overlapping lanes relate.
#[derive(Clone, Copy, PartialEq, Eq, Debug, Structural)]
pub enum OverlapKind {
    Parallel,
    Transfer,
    Conflicting,
}

/// The kind of an interaction with a partner lane (the positions along both
/// lanes where it starts and ends are kept with the lane geometry).
#[derive(Clone, Copy, PartialEq, Eq, Debug, Structural)]
pub enum InteractionKind {
    Overlap { kind: OverlapKind },
    Next { green: bool },
    Previous,
}

/// An interaction of a lane with a partner lane.
#[derive(Clone, Copy, PartialEq, Eq, Debug)]
pub struct Interaction {
    pub partner_lane: ID,
    pub kind: InteractionKind,
}

/// The two lanes a transfer lane lies between.
#[derive(Clone, Copy, Debug)]
pub struct TransferSides {
    pub left: Option<ID>,
    pub right: Option<ID>,
}

impl TransferSides {
    /// The lane on the other side from `side`: the right one when `side` is
    /// the left one, else the left one.
    pub open spec fn spec_other_side(&self, side: ID) -> ID {
        if side == self.left->0 {
            self.right->0
        } else {
            self.left->0
        }
    }

    /// The lane on the other side from `side`. Both sides must be known
    /// (the right one only when `side` is the left one).
    pub fn other_side(&self, side: ID) -> (other: ID)
        requires
            self.left is Some,
            side == self.left->0 ==> self.right is Some,
        ensures
            other == self.spec_other_side(side),
    {
        let left = self.left.unwrap();
        if side.same(&left) {
            self.right.unwrap()
        } else {
            left
        }
    }
}

} // verus!
