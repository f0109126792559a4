//! Messaging traits of the actor runtime.
use vstd::prelude::*;
use super::ID;

verus! {

/// Storage accounting of a value that may own dynamically sized parts.
pub trait Compact: Sized {
    /// The bytes the value occupies in total (inline plus dynamic parts).
    spec fn spec_total_size_bytes(&self) -> nat;

    /// The bytes the value's dynamically sized parts occupy.
    spec fn spec_dynamic_size_bytes(&self) -> nat;

    fn total_size_bytes(&self) -> (n: usize)
        ensures
            n as nat == self.spec_total_size_bytes(),
    ;

    fn dynamic_size_bytes(&self) -> (n: usize)
        ensures
            n as nat == self.spec_dynamic_size_bytes(),
    ;
}

/// A type that can receive messages of type `M`, changing its own state.
pub trait Recipient<M>: Sized {
    /// The state after receiving `message` in state `self`.
    spec fn spec_receive(self, message: M) -> Self;

    fn receive(&mut self, message: &M)
        ensures
            *final(self) == old(self).spec_receive(*message),
    ;
}

/// The typical storage size of a value of this type, never zero.
pub open spec fn spec_typical_size<T>() -> nat {
    if vstd::layout::size_of::<T>() == 0 {
        1
    } else {
        vstd::layout::size_of::<T>()
    }
}

/// Types whose values are stored in size-classed containers.
pub trait StorageAware: Sized {
    fn typical_size() -> (n: usize)
        ensures
            n as nat == spec_typical_size::<Self>(),
    {
        let size = core::mem::size_of::<Self>();
        if size == 0 {
            1
        } else {
            size
        }
    }
}

/// A message: compactly storable.
pub trait Message: Compact + StorageAware {}

/// An actor that lives in a swarm: compactly storable.
pub trait Actor: Compact + StorageAware {}

/// A singleton actor.
pub trait Individual {}

/// What becomes of an actor after it handled a message.
#[derive(Clone, Copy, PartialEq, Eq, Debug, Structural)]
pub enum Fate {
    Live,
    Die,
}

/// A count of bytes, capped at the largest `usize`.
pub open spec fn capped(bytes: int) -> nat {
    if bytes > usize::MAX {
        usize::MAX as nat
    } else if bytes < 0 {
        0
    } else {
        bytes as nat
    }
}

impl Compact for u32 {
    open spec fn spec_total_size_bytes(&self) -> nat {
        vstd::layout::size_of::<u32>()
    }

    open spec fn spec_dynamic_size_bytes(&self) -> nat {
        0
    }

    fn total_size_bytes(&self) -> (n: usize) {
        core::mem::size_of::<u32>()
    }

    fn dynamic_size_bytes(&self) -> (n: usize) {
        0
    }
}

impl Compact for u64 {
    open spec fn spec_total_size_bytes(&self) -> nat {
        vstd::layout::size_of::<u64>()
    }

    open spec fn spec_dynamic_size_bytes(&self) -> nat {
        0
    }

    fn total_size_bytes(&self) -> (n: usize) {
        core::mem::size_of::<u64>()
    }

    fn dynamic_size_bytes(&self) -> (n: usize) {
        0
    }
}

/// A message together with the address it is sent to.
pub struct MessagePacket<M> {
    pub recipient_id: ID,
    pub message: M,
}

impl<M: Compact> Compact for MessagePacket<M> {
    open spec fn spec_total_size_bytes(&self) -> nat {
        self.message.spec_total_size_bytes()
    }

    open spec fn spec_dynamic_size_bytes(&self) -> nat {
        self.message.spec_dynamic_size_bytes()
    }

    fn total_size_bytes(&self) -> (n: usize) {
        self.message.total_size_bytes()
    }

    fn dynamic_size_bytes(&self) -> (n: usize) {
        self.message.dynamic_size_bytes()
    }
}

} // verus!
