//! Identifiers and times that travel through the whole crate.
use vstd::prelude::*;

verus! {

/// Identifies a channel inside the program.
pub type ChannelKind = u64;

/// Identifies a channel on the network: the position of the channel in the registry.
pub type NetId = u16;

/// A point in time, in milliseconds.
pub type Time = u64;

/// Position of a fragment inside the message it was cut from.
pub type FragmentIndex = u64;

/// Identifies a packet, from the point of view of its sender. Wraps around.
#[derive(Clone, Copy, Debug, PartialEq, Eq, Hash, Structural)]
pub struct PacketId(pub u16);

/// Identifies a message on one channel, from the point of view of its sender. Wraps around.
#[derive(Clone, Copy, Debug, PartialEq, Eq, Hash, Structural)]
pub struct MessageId(pub u16);

/// A step of the simulation. Wraps around.
#[derive(Clone, Copy, Debug, PartialEq, Eq, Hash, Structural)]
pub struct Tick(pub u16);

impl MessageId {
    /// The id that follows this one.
    pub open spec fn successor(self) -> MessageId {
        MessageId(self.0.wrapping_add(1))
    }

    /// Returns the id that follows this one.
    pub fn next(self) -> (r: MessageId)
        ensures
            r == self.successor(),
    {
        MessageId(self.0.wrapping_add(1))
    }

    /// Whether this id lies in the half of the id space behind `other`.
    pub open spec fn behind(self, other: MessageId) -> bool {
        self.0.wrapping_sub(other.0) >= 32768
    }

    /// Returns whether this id lies in the half of the id space behind `other`.
    pub fn is_behind(self, other: MessageId) -> (r: bool)
        ensures
            r == self.behind(other),
    {
        self.0.wrapping_sub(other.0) >= 32768
    }
}

} // verus!
