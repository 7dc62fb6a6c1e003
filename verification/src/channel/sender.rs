//! The sending end of a channel.
use std::collections::VecDeque;
use vstd::prelude::*;

use crate::channel::acks::{consumed, pending};
use crate::channel::reliable_sender::{ReliableModel, ReliableSender};
use crate::channel::settings::ChannelMode;
use crate::channel::unreliable_sender::{
    lemma_queue_pieces, queue_pieces, UnreliableModel, UnreliableSender,
};
use crate::ids::{MessageId, Time};
use crate::message::{MessageAck, MessageContainer, MessageModel};
use crate::model::views;
use crate::shared::{PingManager, TickManager, TimeManager};

verus! {

/// The sending end of a channel.
pub enum ChannelSender {
    Unreliable(UnreliableSender),
    Reliable(ReliableSender),
}

/// Model of [`ChannelSender`].
#[verifier::ext_equal]
pub enum SenderModel {
    Unreliable(UnreliableModel),
    Reliable(ReliableModel),
}

impl View for ChannelSender {
    type V = SenderModel;

    open spec fn view(&self) -> SenderModel {
        match self {
            ChannelSender::Unreliable(sender) => SenderModel::Unreliable(sender@),
            ChannelSender::Reliable(sender) => SenderModel::Reliable(sender@),
        }
    }
}

impl SenderModel {
    /// A sender that was not used yet.
    pub open spec fn initial(mode: ChannelMode) -> SenderModel {
        match mode {
            ChannelMode::UnorderedUnreliable => SenderModel::Unreliable(
                UnreliableModel::initial(false),
            ),
            ChannelMode::UnorderedUnreliableWithAcks => SenderModel::Unreliable(
                UnreliableModel::initial(true),
            ),
            ChannelMode::OrderedReliable(settings) => SenderModel::Reliable(
                ReliableModel::initial(settings),
            ),
        }
    }

    /// What waits to be sent is fit for it.
    pub open spec fn wf(self) -> bool {
        match self {
            SenderModel::Unreliable(model) => model.wf(),
            SenderModel::Reliable(model) => model.wf(),
        }
    }

    /// Nothing is on its way into packets.
    pub open spec fn idle(self) -> bool {
        match self {
            SenderModel::Unreliable(model) => true,
            SenderModel::Reliable(model) => model.queue.len() == 0,
        }
    }

    /// Whether the sender serves channels of this mode.
    pub open spec fn serves(self, mode: ChannelMode) -> bool {
        match mode {
            ChannelMode::UnorderedUnreliable => self matches SenderModel::Unreliable(model)
                && !model.with_acks,
            ChannelMode::UnorderedUnreliableWithAcks => self matches SenderModel::Unreliable(model)
                && model.with_acks,
            ChannelMode::OrderedReliable(settings) => self matches SenderModel::Reliable(model)
                && model.settings == settings,
        }
    }

    /// The state at the time `now`, when packets and their answers take `rtt`.
    pub open spec fn update(self, now: Time, rtt: Time) -> SenderModel {
        match self {
            SenderModel::Unreliable(model) => self,
            SenderModel::Reliable(model) => SenderModel::Reliable(
                ReliableModel { now, rtt, ..model },
            ),
        }
    }

    /// The state after the message `bytes` was buffered.
    pub open spec fn buffer(self, bytes: Seq<u8>) -> SenderModel {
        match self {
            SenderModel::Unreliable(model) => SenderModel::Unreliable(model.buffer(bytes)),
            SenderModel::Reliable(model) => SenderModel::Reliable(model.buffer(bytes)),
        }
    }

    /// The id that the message `bytes` gets when it is buffered next, if it gets one.
    pub open spec fn id_for(self, bytes: Seq<u8>) -> Option<MessageId> {
        match self {
            SenderModel::Unreliable(model) => model.id_for(bytes),
            SenderModel::Reliable(model) => Some(model.next_id),
        }
    }

    /// The state after what is to be sent was collected.
    pub open spec fn collect(self) -> SenderModel {
        match self {
            SenderModel::Unreliable(model) => self,
            SenderModel::Reliable(model) => SenderModel::Reliable(model.collect()),
        }
    }

    /// What was collected.
    pub open spec fn collected(self) -> Seq<MessageModel> {
        match self {
            SenderModel::Unreliable(model) => queue_pieces(model.queue),
            SenderModel::Reliable(model) => model.queue,
        }
    }

    /// The state after what was collected was sent.
    pub open spec fn flushed(self) -> SenderModel {
        match self {
            SenderModel::Unreliable(model) => SenderModel::Unreliable(
                UnreliableModel { queue: Seq::empty(), ..model },
            ),
            SenderModel::Reliable(model) => SenderModel::Reliable(
                ReliableModel { queue: Seq::empty(), ..model },
            ),
        }
    }

    /// What the channel sends now.
    pub open spec fn outgoing(self) -> Seq<MessageModel> {
        self.collect().collected()
    }

    /// The state after the channel sent.
    pub open spec fn after_send(self) -> SenderModel {
        self.collect().flushed()
    }

    /// The state after `ack` came.
    pub open spec fn notify(self, ack: MessageAck) -> SenderModel {
        match self {
            SenderModel::Unreliable(model) => SenderModel::Unreliable(model.notify(ack)),
            SenderModel::Reliable(model) => SenderModel::Reliable(model.notify(ack)),
        }
    }

    /// The state after all of `acks` came, in order.
    pub open spec fn notify_all(self, acks: Seq<MessageAck>) -> SenderModel
        decreases acks.len(),
    {
        if acks.len() == 0 {
            self
        } else {
            self.notify_all(acks.drop_last()).notify(acks.last())
        }
    }

    /// The parties that want to know which messages arrived, each with the messages that it was
    /// not told about yet.
    pub open spec fn subscribers(self) -> Seq<Seq<MessageId>> {
        match self {
            SenderModel::Unreliable(model) => model.subscribers,
            SenderModel::Reliable(model) => model.subscribers,
        }
    }

    /// The state with other subscribers.
    pub open spec fn with_subscribers(self, subscribers: Seq<Seq<MessageId>>) -> SenderModel {
        match self {
            SenderModel::Unreliable(model) => SenderModel::Unreliable(
                UnreliableModel { subscribers, ..model },
            ),
            SenderModel::Reliable(model) => SenderModel::Reliable(
                ReliableModel { subscribers, ..model },
            ),
        }
    }
}

/// Everything that a channel sends can be put in a packet, and is numbered if the sender waits
/// for acknowledgements.
pub proof fn lemma_collected(sender: SenderModel, mode: ChannelMode)
    requires
        sender.wf(),
        sender.serves(mode),
    ensures
        forall|i: int|
            0 <= i < sender.collected().len() ==> {
                let m = #[trigger] sender.collected()[i];
                m.sendable() && (mode.watches_acks() ==> m.ack() is Some)
            },
{
    match sender {
        SenderModel::Unreliable(model) => lemma_queue_pieces(model),
        SenderModel::Reliable(model) => {},
    }
}

impl ChannelSender {
    /// Returns a sender for a channel of this mode.
    pub fn new(mode: &ChannelMode) -> (r: Self)
        ensures
            r@ == SenderModel::initial(*mode),
            r@.wf(),
            r@.idle(),
            r@.serves(*mode),
    {
        match mode {
            ChannelMode::UnorderedUnreliable => ChannelSender::Unreliable(
                UnreliableSender::new(false),
            ),
            ChannelMode::UnorderedUnreliableWithAcks => ChannelSender::Unreliable(
                UnreliableSender::new(true),
            ),
            ChannelMode::OrderedReliable(settings) => ChannelSender::Reliable(
                ReliableSender::new(*settings),
            ),
        }
    }

    /// Takes note of the current time and of the round trip time.
    pub fn update(
        &mut self,
        time_manager: &TimeManager,
        ping_manager: &PingManager,
        tick_manager: &TickManager,
    )
        ensures
            final(self)@ == old(self)@.update(time_manager.current_time(), ping_manager.rtt()),
            old(self)@.wf() ==> final(self)@.wf(),
    {
        match self {
            ChannelSender::Unreliable(_) => {},
            ChannelSender::Reliable(sender) => sender.update(
                time_manager.get_current_time(),
                ping_manager.get_rtt(),
            ),
        }
    }

    /// Buffers a message. Returns its id, if it has one.
    pub fn buffer_send(&mut self, bytes: Vec<u8>) -> (r: Option<MessageId>)
        ensures
            r == old(self)@.id_for(bytes@),
            final(self)@ == old(self)@.buffer(bytes@),
            old(self)@.wf() ==> final(self)@.wf(),
    {
        match self {
            ChannelSender::Unreliable(sender) => sender.buffer_send(bytes),
            ChannelSender::Reliable(sender) => Some(sender.buffer_send(bytes)),
        }
    }

    /// Collects what is to be sent now.
    pub fn collect_messages_to_send(&mut self)
        ensures
            final(self)@ == old(self)@.collect(),
            old(self)@.wf() ==> final(self)@.wf(),
    {
        match self {
            ChannelSender::Unreliable(_) => {},
            ChannelSender::Reliable(sender) => sender.collect_messages_to_send(),
        }
    }

    /// Returns whether there is something to send.
    pub fn has_messages_to_send(&self) -> (r: bool)
        requires
            self@.wf(),
        ensures
            r == (self@.collected().len() > 0),
    {
        match self {
            ChannelSender::Unreliable(sender) => {
                proof {
                    lemma_queue_pieces(sender@);
                }
                sender.has_messages_to_send()
            },
            ChannelSender::Reliable(sender) => sender.has_messages_to_send(),
        }
    }

    /// Returns what was collected, and forgets it.
    pub fn send_packet(&mut self) -> (r: VecDeque<MessageContainer>)
        requires
            old(self)@.wf(),
        ensures
            views(r@) == old(self)@.collected(),
            final(self)@ == old(self)@.flushed(),
            final(self)@.wf(),
    {
        match self {
            ChannelSender::Unreliable(sender) => sender.send_packet(),
            ChannelSender::Reliable(sender) => sender.send_packet(),
        }
    }

    /// Takes note that the remote received what `ack` speaks of.
    pub fn notify_message_delivered(&mut self, ack: &MessageAck)
        ensures
            final(self)@ == old(self)@.notify(*ack),
            old(self)@.wf() ==> final(self)@.wf(),
    {
        match self {
            ChannelSender::Unreliable(sender) => sender.notify_message_delivered(ack),
            ChannelSender::Reliable(sender) => sender.notify_message_delivered(ack),
        }
    }

    /// Adds a party that wants to know which messages arrived. Returns its position.
    pub fn subscribe_acks(&mut self) -> (r: usize)
        ensures
            r == old(self)@.subscribers().len(),
            final(self)@ == old(self)@.with_subscribers(
                old(self)@.subscribers().push(Seq::empty()),
            ),
            old(self)@.wf() ==> final(self)@.wf(),
    {
        match self {
            ChannelSender::Unreliable(sender) => sender.subscribe_acks(),
            ChannelSender::Reliable(sender) => sender.subscribe_acks(),
        }
    }

    /// Returns the next message that arrived and that the subscriber at `position` was not told
    /// about yet.
    pub fn next_ack(&mut self, position: usize) -> (r: Option<MessageId>)
        ensures
            r == pending(old(self)@.subscribers(), position),
            final(self)@ == old(self)@.with_subscribers(
                consumed(old(self)@.subscribers(), position),
            ),
            old(self)@.wf() ==> final(self)@.wf(),
    {
        match self {
            ChannelSender::Unreliable(sender) => sender.next_ack(position),
            ChannelSender::Reliable(sender) => sender.next_ack(position),
        }
    }
}

} // verus!
