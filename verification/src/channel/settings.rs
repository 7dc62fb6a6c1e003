//! How a channel behaves.
use vstd::prelude::*;

use crate::ids::Time;

verus! {

/// When a reliable channel sends a message again.
#[derive(Clone, Copy, Debug, PartialEq, Eq)]
pub struct ReliableSettings {
    /// How many round trip times to wait for an acknowledgement.
    pub rtt_resend_factor: u64,
    /// The shortest time to wait for an acknowledgement.
    pub rtt_resend_min_delay: Time,
}

impl ReliableSettings {
    /// How long to wait for an acknowledgement.
    pub open spec fn delay(self, rtt: Time) -> Time {
        let product = rtt * self.rtt_resend_factor;
        let scaled = if product > u64::MAX {
            u64::MAX
        } else {
            product as u64
        };
        if scaled < self.rtt_resend_min_delay {
            self.rtt_resend_min_delay
        } else {
            scaled
        }
    }

    /// Returns how long to wait for an acknowledgement.
    pub fn resend_delay(&self, rtt: Time) -> (r: Time)
        ensures
            r == self.delay(rtt),
    {
        let scaled: u64 = match rtt.checked_mul(self.rtt_resend_factor) {
            Some(x) => x,
            None => u64::MAX,
        };
        if scaled < self.rtt_resend_min_delay {
            self.rtt_resend_min_delay
        } else {
            scaled
        }
    }
}

/// What a channel promises about its messages.
#[derive(Clone, Copy, Debug, PartialEq, Eq)]
pub enum ChannelMode {
    /// Messages may be lost, and may arrive in any order.
    UnorderedUnreliable,
    /// As above, and the sender learns which messages arrived.
    UnorderedUnreliableWithAcks,
    /// Messages are sent until they arrive, and are read in the order they were sent.
    OrderedReliable(ReliableSettings),
}

impl ChannelMode {
    /// Whether the sender of the channel wants to know which messages arrived.
    pub open spec fn watches_acks(self) -> bool {
        !(self is UnorderedUnreliable)
    }

    /// Returns whether the sender of the channel wants to know which messages arrived.
    pub fn is_watching_acks(&self) -> (r: bool)
        ensures
            r == self.watches_acks(),
    {
        match self {
            ChannelMode::UnorderedUnreliable => false,
            ChannelMode::UnorderedUnreliableWithAcks => true,
            ChannelMode::OrderedReliable(_) => true,
        }
    }
}

/// Settings of a channel.
#[derive(Clone, Copy, Debug, PartialEq, Eq)]
pub struct ChannelSettings {
    pub mode: ChannelMode,
}

} // verus!
