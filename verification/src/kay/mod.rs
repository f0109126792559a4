//! The actor runtime: identifiers, messaging traits and the `Swarm` container.
use vstd::prelude::*;

pub mod compact_dict;
pub mod messaging;
pub mod swarm;

pub use self::messaging::{Actor, Compact, Fate, Individual, Message, MessagePacket, Recipient, StorageAware};
pub use self::compact_dict::{CDict, DictKey};
pub use self::swarm::{LivingActor, SlotIndices, Swarm};

verus! {

/// The instance id that addresses every instance of an actor type at once.
pub const BROADCAST_INSTANCE_ID: u32 = 0xffff_ffffu32;

/// Address of an actor: its type and, within a swarm, its instance.
#[derive(Clone, Copy, PartialEq, Eq, Debug)]
pub struct ID {
    pub type_id: u16,
    pub version: u8,
    pub instance_id: u32,
}

impl ID {
    /// The address of instance `instance_id` of actor type `type_id`.
    pub fn new(type_id: u16, version: u8, instance_id: u32) -> (id: ID)
        ensures
            id.type_id == type_id,
            id.version == version,
            id.instance_id == instance_id,
    {
        ID { type_id, version, instance_id }
    }

    /// The address that reaches every instance of this actor type.
    pub fn broadcast(&self) -> (id: ID)
        ensures
            id.type_id == self.type_id,
            id.version == self.version,
            id.instance_id == BROADCAST_INSTANCE_ID,
    {
        ID { type_id: self.type_id, version: self.version, instance_id: BROADCAST_INSTANCE_ID }
    }

    /// Whether this address is a broadcast to all instances.
    pub fn is_broadcast(&self) -> (b: bool)
        ensures
            b == (self.instance_id == BROADCAST_INSTANCE_ID),
    {
        self.instance_id == BROADCAST_INSTANCE_ID
    }

    /// Equality of addresses.
    pub fn same(&self, other: &ID) -> (b: bool)
        ensures
            b == (*self == *other),
    {
        self.type_id == other.type_id && self.version == other.version
            && self.instance_id == other.instance_id
    }
}

} // verus!
