//! Places and their activities: who takes part, how conditions compare,
//! and where an activity leads.
use vstd::prelude::*;
use crate::kay::ID;
use super::grid_example::{PleaseRegister, RegisterInGrid};

verus! {

/// How a condition compares a resource's value.
#[derive(Clone, Copy, Debug, PartialEq, Eq, Structural)]
pub enum ConditionKind {
    Equal,
    Less,
    Greater,
}

/// Whose resources an activity looks at or changes.
#[derive(Clone, Copy, Debug, PartialEq, Eq, Structural)]
pub enum ActivityParty {
    Me,
    Us,
    Here,
}

/// Where an activity leads: staying at the place, or moving to another.
#[derive(Clone, Copy, Debug, PartialEq, Eq)]
pub enum Destination {
    Stay,
    Move(ID),
}

/// Handles `PleaseRegister` at place `self_id`: it registers in the grid at
/// the asked cell.
pub fn please_register(self_id: ID, msg: &PleaseRegister) -> (register: RegisterInGrid)
    ensures
        register.0 == self_id,
        register.1 == msg.0,
        register.2 == msg.1,
{
    RegisterInGrid(self_id, msg.0, msg.1)
}

/// The place an activity leads to, from place `here`.
pub fn next_place(destination: Destination, here: ID) -> (next: ID)
    ensures
        next == (match destination {
            Destination::Stay => here,
            Destination::Move(id) => id,
        }),
{
    match destination {
        Destination::Stay => here,
        Destination::Move(id) => id,
    }
}

} // verus!
