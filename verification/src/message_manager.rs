//! Sending and receiving messages over channels.
use std::collections::{HashMap, VecDeque};
use vstd::prelude::*;

use crate::ack_map::{
    ack_model, acks_in, channel_acks_model, record_ack, record_acks, record_packets, recorded,
    without_packets, MessageAckMap,
};
use crate::channel::acks::{consumed, pending};
use crate::channel::receiver::{lemma_read_one, lemma_update_wf, ChannelReceiver, ReceiverModel};
use crate::channel::registry::{lemma_kind, lemma_net_id, ChannelContainer, ChannelRegistry};
use crate::channel::sender::SenderModel;
use crate::header::PacketHeaderManager;
use crate::ids::{ChannelKind, MessageId, NetId, PacketId, Tick};
use crate::manager_model::{
    channels_decode_failure, channels_outgoing, decode_failure, decoded_from, deliver, in_registry,
    lemma_acks_kept, lemma_after_send_wf, lemma_channels_decodable, lemma_channels_outgoing,
    lemma_items_acks, lemma_newly_acked, lemma_notified_wf, lemma_notify_all, lemma_packets,
    lemma_read, lemma_receive_packet_wf, tagged, ManagerModel, MessageError,
};
use crate::message::{MessageAck, MessageContainer};
use crate::model::{lemma_views_push, views};
use crate::packet::{items_acks, lemma_take_packet, take_packet, Item, Packet, MTU_PAYLOAD_BYTES};
use crate::packet_manager::{numbered, pack, PacketBuilder, Payload, PACKET_BUFFER_CAPACITY};
use crate::serialize::{
    BitSerializable, ReadBuffer, ReadWordBuffer, SerializeError, WriteBuffer, WriteWordBuffer,
};
use crate::shared::{PingManager, TickManager, TimeManager};

verus! {

broadcast use vstd::std_specs::hash::group_hash_axioms;

/// Sends and receives messages via channels to and from a remote, by splitting the data into
/// packets that the caller hands to a transport.
pub struct MessageManager {
    /// Builds packets and keeps track of which of them arrived.
    packet_manager: PacketBuilder,
    /// The channels, in the order of their net ids.
    channels: Vec<ChannelContainer>,
    channel_registry: ChannelRegistry,
    /// Which messages have been sent in which packets, so that reliable senders can stop
    /// trying to send a message that has already been received.
    packet_to_message_ack_map: MessageAckMap,
    writer: WriteWordBuffer,
}

/// A party that wants to know which messages of a channel arrived.
#[derive(Clone, Copy, Debug)]
pub struct AckTracker {
    pub channel_kind: ChannelKind,
    pub position: usize,
}

/// The sending ends of the channels.
pub open spec fn senders_of(channels: Seq<ChannelContainer>) -> Seq<SenderModel> {
    channels.map_values(|c: ChannelContainer| c.sender@)
}

/// The receiving ends of the channels.
pub open spec fn receivers_of(channels: Seq<ChannelContainer>) -> Seq<ReceiverModel> {
    channels.map_values(|c: ChannelContainer| c.receiver@)
}

impl View for MessageManager {
    type V = ManagerModel;

    closed spec fn view(&self) -> ManagerModel {
        ManagerModel {
            header: self.packet_manager.header_manager@,
            registry: self.channel_registry@,
            senders: senders_of(self.channels@),
            receivers: receivers_of(self.channels@),
            acks: ack_model(self.packet_to_message_ack_map),
        }
    }
}

/// What changes when one channel changes.
proof fn lemma_channel_update(channels: Seq<ChannelContainer>, i: int, c: ChannelContainer)
    requires
        0 <= i < channels.len(),
    ensures
        senders_of(channels.update(i, c)) == senders_of(channels).update(i, c.sender@),
        receivers_of(channels.update(i, c)) == receivers_of(channels).update(i, c.receiver@),
        c.sender@ == channels[i].sender@ ==> senders_of(channels.update(i, c)) == senders_of(
            channels,
        ),
        c.receiver@ == channels[i].receiver@ ==> receivers_of(channels.update(i, c))
            == receivers_of(channels),
{
    assert(senders_of(channels.update(i, c)) =~= senders_of(channels).update(i, c.sender@));
    assert(receivers_of(channels.update(i, c)) =~= receivers_of(channels).update(i, c.receiver@));
    if c.sender@ == channels[i].sender@ {
        assert(senders_of(channels.update(i, c)) =~= senders_of(channels));
    }
    if c.receiver@ == channels[i].receiver@ {
        assert(receivers_of(channels.update(i, c)) =~= receivers_of(channels));
    }
}

impl MessageManager {
    /// What holds of a manager at all times.
    pub open spec fn wf(&self) -> bool {
        self@.wf() && self.settings_match()
    }

    /// The channels have the settings they were registered with.
    pub closed spec fn settings_match(&self) -> bool {
        &&& self.channels@.len() == self.channel_registry@.settings.len()
        &&& forall|i: int|
            0 <= i < self.channels@.len() ==> (#[trigger] self.channels@[i]).setting
                == self.channel_registry@.settings[i]
    }

    /// Returns a manager for the channels of a registry.
    pub fn new(channel_registry: &ChannelRegistry) -> (r: Self)
        requires
            channel_registry@.wf(),
        ensures
            r.wf(),
            r@ == ManagerModel::initial(channel_registry@),
    {
        let r = MessageManager {
            packet_manager: PacketBuilder::new(),
            channels: channel_registry.channels(),
            channel_registry: channel_registry.clone(),
            packet_to_message_ack_map: HashMap::new(),
            writer: WriteWordBuffer::with_capacity(PACKET_BUFFER_CAPACITY),
        };
        proof {
            let model = ManagerModel::initial(channel_registry@);
            assert(r@.senders =~= model.senders);
            assert(r@.receivers =~= model.receivers);
            assert(r@.acks =~= model.acks);
            assert forall|i: int| 0 <= i < r@.senders.len() implies {
                let sender = #[trigger] r@.senders[i];
                sender.wf() && sender.idle() && sender.serves(r@.registry.settings[i].mode)
            } by {
                assert(r.channels@[i].sender@.wf());
            }
            assert forall|i: int| 0 <= i < r@.receivers.len() implies {
                let receiver = #[trigger] r@.receivers[i];
                receiver.wf() && receiver.serves(r@.registry.settings[i].mode)
            } by {
                assert(r.channels@[i].receiver@.wf());
            }
        }
        r
    }

    /// Updates the book-keeping.
    pub fn update(
        &mut self,
        time_manager: &TimeManager,
        ping_manager: &PingManager,
        tick_manager: &TickManager,
    )
        requires
            old(self).wf(),
        ensures
            final(self).wf(),
            final(self)@ == old(self)@.update(time_manager.current_time(), ping_manager.rtt()),
    {
        let ghost model = self@;
        let ghost now = time_manager.current_time();
        let ghost rtt = ping_manager.rtt();
        self.packet_manager.header_manager.update(time_manager);
        let mut i: usize = 0;
        while i < self.channels.len()
            invariant
                model == old(self)@,
                model.wf(),
                now == time_manager.current_time(),
                rtt == ping_manager.rtt(),
                i <= self.channels@.len(),
                self.channels@.len() == model.senders.len(),
                self.settings_match(),
                self@.header == model.update(now, rtt).header,
                self@.registry == model.registry,
                self@.acks == model.acks,
                forall|k: int|
                    0 <= k < i ==> {
                        let c = #[trigger] self.channels@[k];
                        c.sender@ == model.senders[k].update(now, rtt) && c.receiver@
                            == model.receivers[k].update(now)
                    },
                forall|k: int|
                    i <= k < self.channels@.len() ==> {
                        let c = #[trigger] self.channels@[k];
                        c.sender@ == model.senders[k] && c.receiver@ == model.receivers[k]
                    },
            decreases self.channels@.len() - i,
        {
            self.channels[i].sender.update(time_manager, ping_manager, tick_manager);
            self.channels[i].receiver.update(time_manager, tick_manager);
            i = i + 1;
        }
        proof {
            let after = model.update(now, rtt);
            assert(self@.senders =~= after.senders);
            assert(self@.receivers =~= after.receivers);
            assert forall|k: int| 0 <= k < after.receivers.len() implies {
                let receiver = #[trigger] after.receivers[k];
                receiver.wf() && receiver.serves(after.registry.settings[k].mode)
            } by {
                lemma_update_wf(model.receivers[k], now);
            }
            assert forall|k: int| 0 <= k < after.senders.len() implies {
                let sender = #[trigger] after.senders[k];
                sender.wf() && sender.idle() && sender.serves(after.registry.settings[k].mode)
            } by {
                assert(model.senders[k].wf());
            }
            assert(after.acks_wf()) by {
                assert forall|packet: u16| #[trigger] after.acks.contains_key(packet) implies {
                    &&& after.header.sent_not_acked.contains_key(packet)
                    &&& forall|kind: ChannelKind| #[trigger]
                        after.acks[packet].contains_key(kind) ==> after.watches(kind)
                } by {
                    assert(model.acks.contains_key(packet));
                    assert forall|kind: ChannelKind| #[trigger]
                        after.acks[packet].contains_key(kind) implies after.watches(kind) by {
                        assert(model.watches(kind));
                    }
                }
            }
        }
    }

    /// Buffers a message to be sent on this connection. Returns the message id associated with
    /// the message, if there is one.
    pub fn buffer_send<M: BitSerializable>(
        &mut self,
        message: M,
        channel_kind: ChannelKind,
    ) -> (r: Result<Option<MessageId>, MessageError>)
        requires
            old(self).wf(),
        ensures
            final(self).wf(),
            !old(self)@.registry.kinds.contains(channel_kind) ==> {
                &&& r == Err::<Option<MessageId>, MessageError>(MessageError::ChannelNotFound)
                &&& final(self)@ == old(self)@
            },
            old(self)@.registry.kinds.contains(channel_kind) ==> match message.encoding() {
                Ok(bytes) => {
                    &&& r == Ok::<Option<MessageId>, MessageError>(
                        old(self)@.sender(channel_kind).id_for(bytes),
                    )
                    &&& final(self)@ == old(self)@.buffer(channel_kind, bytes)
                },
                Err(e) => {
                    &&& r == Err::<Option<MessageId>, MessageError>(MessageError::Serialize(e))
                    &&& final(self)@ == old(self)@
                },
            },
    {
        if self.channel_registry.get_net_from_kind(channel_kind).is_none() {
            return Err(MessageError::ChannelNotFound);
        }
        self.writer.start_write();
        match message.encode(&mut self.writer) {
            Err(e) => Err(MessageError::Serialize(e)),
            Ok(()) => {
                let bytes: Vec<u8> = self.writer.finish_write();
                assert(bytes@ =~= message.encoding().unwrap());
                assert(self@ =~= old(self)@);
                self.buffer_send_bytes(bytes, channel_kind)
            },
        }
    }

    /// Buffers a message that is already in the form of bytes. Returns the message id associated
    /// with the message, if there is one.
    pub fn buffer_send_bytes(&mut self, bytes: Vec<u8>, channel_kind: ChannelKind) -> (r: Result<
        Option<MessageId>,
        MessageError,
    >)
        requires
            old(self).wf(),
        ensures
            final(self).wf(),
            !old(self)@.registry.kinds.contains(channel_kind) ==> {
                &&& r == Err::<Option<MessageId>, MessageError>(MessageError::ChannelNotFound)
                &&& final(self)@ == old(self)@
            },
            old(self)@.registry.kinds.contains(channel_kind) ==> {
                &&& r == Ok::<Option<MessageId>, MessageError>(
                    old(self)@.sender(channel_kind).id_for(bytes@),
                )
                &&& final(self)@ == old(self)@.buffer(channel_kind, bytes@)
            },
    {
        let ghost model = self@;
        let ghost content = bytes@;
        match self.channel_registry.get_net_from_kind(channel_kind) {
            None => Err(MessageError::ChannelNotFound),
            Some(net_id) => {
                let ghost channels = self.channels@;
                assert(model.senders[net_id as int].wf());
                let id = self.channels[net_id as usize].sender.buffer_send(bytes);
                proof {
                    self.lemma_sender_changed(
                        model,
                        channels,
                        channel_kind,
                        model.senders[net_id as int].buffer(content),
                    );
                }
                Ok(id)
            },
        }
    }

    /// Only the sending end of one channel changed, and it is still in order.
    proof fn lemma_sender_changed(
        &self,
        model: ManagerModel,
        channels: Seq<ChannelContainer>,
        kind: ChannelKind,
        sender: SenderModel,
    )
        requires
            model.wf(),
            model.registry.kinds.contains(kind),
            model.senders == senders_of(channels),
            model.receivers == receivers_of(channels),
            model.header == self@.header,
            model.registry == self@.registry,
            model.acks == self@.acks,
            channels.len() == self.channel_registry@.settings.len(),
            forall|i: int|
                0 <= i < channels.len() ==> (#[trigger] channels[i]).setting
                    == self.channel_registry@.settings[i],
            ({
                let i = model.registry.net_id(kind) as int;
                let c = self.channels@[i];
                &&& 0 <= i < channels.len()
                &&& self.channels@ == channels.update(i, c)
                &&& c.setting == channels[i].setting
                &&& c.receiver == channels[i].receiver
                &&& c.sender@ == sender
                &&& sender.wf() && sender.idle() && sender.serves(model.registry.settings[i].mode)
            }),
        ensures
            self@ == model.with_sender(kind, sender),
            self.wf(),
    {
        let i = model.registry.net_id(kind) as int;
        lemma_channel_update(channels, i, self.channels@[i]);
        let after = model.with_sender(kind, sender);
        assert(self@ =~= after);
        assert forall|k: int| 0 <= k < after.senders.len() implies {
            let s = #[trigger] after.senders[k];
            s.wf() && s.idle() && s.serves(after.registry.settings[k].mode)
        } by {
            if k != i {
                assert(after.senders[k] == model.senders[k]);
            }
        }
        assert(after.acks_wf()) by {
            assert forall|packet: u16| #[trigger] after.acks.contains_key(packet) implies {
                &&& after.header.sent_not_acked.contains_key(packet)
                &&& forall|k: ChannelKind| #[trigger]
                    after.acks[packet].contains_key(k) ==> after.watches(k)
            } by {
                assert(model.acks.contains_key(packet));
                assert forall|k: ChannelKind| #[trigger]
                    after.acks[packet].contains_key(k) implies after.watches(k) by {
                    assert(model.watches(k));
                }
            }
        }
    }

    /// Returns the book-keeping about packets.
    pub fn header_manager(&self) -> (r: &PacketHeaderManager)
        ensures
            r@ == self@.header,
    {
        &self.packet_manager.header_manager
    }

    /// Returns which messages have been sent in which packets that are not acknowledged yet.
    pub fn packet_to_message_ack_map(&self) -> (r: &MessageAckMap)
        ensures
            ack_model(*r) == self@.acks,
    {
        &self.packet_to_message_ack_map
    }

    /// Asks to be told which messages of a channel arrive from now on.
    pub fn subscribe_acks(&mut self, channel_kind: ChannelKind) -> (r: Option<AckTracker>)
        requires
            old(self).wf(),
        ensures
            final(self).wf(),
            !old(self)@.registry.kinds.contains(channel_kind) ==> r is None && final(self)@
                == old(self)@,
            old(self)@.registry.kinds.contains(channel_kind) ==> {
                let sender = old(self)@.sender(channel_kind);
                &&& r is Some
                &&& r.unwrap().channel_kind == channel_kind
                &&& r.unwrap().position == sender.subscribers().len()
                &&& final(self)@ == old(self)@.with_sender(
                    channel_kind,
                    sender.with_subscribers(sender.subscribers().push(Seq::empty())),
                )
            },
    {
        let ghost model = self@;
        match self.channel_registry.get_net_from_kind(channel_kind) {
            None => None,
            Some(net_id) => {
                let ghost channels = self.channels@;
                let ghost sender = model.senders[net_id as int];
                assert(sender.wf());
                let position: usize = self.channels[net_id as usize].sender.subscribe_acks();
                proof {
                    self.lemma_sender_changed(
                        model,
                        channels,
                        channel_kind,
                        sender.with_subscribers(sender.subscribers().push(Seq::empty())),
                    );
                }
                Some(AckTracker { channel_kind, position })
            },
        }
    }

    /// Returns the next message that arrived and that the tracker was not told about yet.
    pub fn next_ack(&mut self, tracker: &AckTracker) -> (r: Option<MessageId>)
        requires
            old(self).wf(),
        ensures
            final(self).wf(),
            !old(self)@.registry.kinds.contains(tracker.channel_kind) ==> {
                r is None && final(self)@ == old(self)@
            },
            old(self)@.registry.kinds.contains(tracker.channel_kind) ==> {
                let sender = old(self)@.sender(tracker.channel_kind);
                &&& r == pending(sender.subscribers(), tracker.position)
                &&& final(self)@ == old(self)@.with_sender(
                    tracker.channel_kind,
                    sender.with_subscribers(consumed(sender.subscribers(), tracker.position)),
                )
            },
    {
        let ghost model = self@;
        match self.channel_registry.get_net_from_kind(tracker.channel_kind) {
            None => None,
            Some(net_id) => {
                let ghost channels = self.channels@;
                let ghost sender = model.senders[net_id as int];
                assert(sender.wf());
                let r = self.channels[net_id as usize].sender.next_ack(tracker.position);
                proof {
                    self.lemma_sender_changed(
                        model,
                        channels,
                        tracker.channel_kind,
                        sender.with_subscribers(
                            consumed(sender.subscribers(), tracker.position),
                        ),
                    );
                }
                r
            },
        }
    }
}

/// Appends the messages of one channel, each with the channel's net id.
fn append_tagged(
    data: &mut VecDeque<Item>,
    net_id: NetId,
    messages: VecDeque<MessageContainer>,
)
    ensures
        views(final(data)@) == views(old(data)@) + tagged(net_id, views(messages@)),
{
    let ghost all = views(messages@);
    let ghost start = views(data@);
    let mut messages = messages;
    let ghost mut i: int = 0;
    proof {
        assert(all.skip(0) =~= all);
        assert(start + tagged(net_id, all.take(0)) =~= start);
    }
    while messages.len() > 0
        invariant
            0 <= i <= all.len(),
            views(messages@) == all.skip(i),
            views(data@) == start + tagged(net_id, all.take(i)),
        decreases messages@.len(),
    {
        let ghost rest = views(messages@);
        let message = messages.pop_front().unwrap();
        let item: Item = (net_id, message);
        let ghost before = data@;
        data.push_back(item);
        proof {
            assert(rest.len() == all.skip(i).len());
            assert(rest[0] == message@);
            assert(all[i] == message@);
            assert(views(messages@) =~= rest.drop_first());
            assert(rest.drop_first() =~= all.skip(i + 1));
            lemma_views_push(before, item);
            assert(views(data@) =~= start + tagged(net_id, all.take(i + 1)));
            i = i + 1;
        }
    }
    assert(all.take(i) =~= all);
}

/// A sender that collected nothing is as it is after sending.
proof fn lemma_nothing_collected(sender: SenderModel)
    requires
        sender.wf(),
        sender.collected().len() == 0,
    ensures
        sender.flushed() == sender,
{
    match sender {
        SenderModel::Unreliable(model) => {
            crate::channel::unreliable_sender::lemma_queue_pieces(model);
            assert(sender.flushed() =~= sender);
        },
        SenderModel::Reliable(model) => {
            assert(sender.flushed() =~= sender);
        },
    }
}

impl MessageManager {
    /// Collects what the channels send now.
    fn collect_channels(&mut self) -> (r: VecDeque<Item>)
        requires
            old(self).wf(),
        ensures
            views(r@) == old(self)@.outgoing(),
            final(self).settings_match(),
            final(self)@ == (ManagerModel {
                senders: old(self)@.senders.map_values(|s: SenderModel| s.after_send()),
                ..old(self)@
            }),
    {
        let ghost model = self@;
        let mut data_to_send: VecDeque<Item> = VecDeque::new();
        let mut i: usize = 0;
        assert(model.senders.take(0) =~= Seq::empty());
        assert(views(data_to_send@) =~= channels_outgoing(model.senders.take(0)));
        while i < self.channels.len()
            invariant
                model == old(self)@,
                model.wf(),
                i <= self.channels@.len(),
                self.channels@.len() == model.senders.len(),
                self.settings_match(),
                self@.header == model.header,
                self@.registry == model.registry,
                self@.acks == model.acks,
                views(data_to_send@) == channels_outgoing(model.senders.take(i as int)),
                forall|k: int|
                    0 <= k < i ==> (#[trigger] self.channels@[k]).sender@
                        == model.senders[k].after_send(),
                forall|k: int|
                    i <= k < self.channels@.len() ==> (#[trigger] self.channels@[k]).sender@
                        == model.senders[k],
                forall|k: int|
                    0 <= k < self.channels@.len() ==> (#[trigger] self.channels@[k]).receiver@
                        == model.receivers[k],
            decreases self.channels@.len() - i,
        {
            let ghost sender = model.senders[i as int];
            proof {
                assert(sender.wf());
                assert(self.channels@[i as int].sender@ == sender);
                assert(model.senders.take(i + 1).drop_last() =~= model.senders.take(i as int));
                assert(model.senders.take(i + 1).last() == sender);
            }
            self.channels[i].sender.collect_messages_to_send();
            if self.channels[i].sender.has_messages_to_send() {
                let messages = self.channels[i].sender.send_packet();
                append_tagged(&mut data_to_send, i as u16, messages);
            } else {
                proof {
                    lemma_nothing_collected(sender.collect());
                    let before = channels_outgoing(model.senders.take(i as int));
                    assert(before + tagged(i as u16, sender.outgoing()) =~= before);
                }
            }
            i = i + 1;
        }
        proof {
            assert(model.senders.take(i as int) =~= model.senders);
            assert(self@.senders =~= model.senders.map_values(|s: SenderModel| s.after_send()));
            assert(self@.receivers =~= model.receivers);
        }
        data_to_send
    }

    /// Records the messages of a packet, as far as their channels want to know whether they
    /// arrive.
    fn record_message_acks(&mut self, packet: &Packet) -> (r: Result<(), MessageError>)
        requires
            old(self).settings_match(),
            old(self)@.registry.wf(),
            in_registry(packet@.data, old(self)@.registry),
        ensures
            r is Ok,
            final(self).settings_match(),
            final(self)@ == (ManagerModel {
                acks: record_acks(
                    old(self)@.acks,
                    old(self)@.registry,
                    packet@.header.packet_id.0,
                    items_acks(packet@.data),
                ),
                ..old(self)@
            }),
    {
        let ghost model = self@;
        let packet_id = packet.header().packet_id;
        let message_acks = packet.message_acks();
        proof {
            lemma_items_acks(packet@.data, model.registry.kinds.len() as int);
            assert(message_acks@.take(0) =~= Seq::empty());
        }
        let mut i: usize = 0;
        while i < message_acks.len()
            invariant
                i <= message_acks@.len(),
                model == old(self)@,
                model.registry.wf(),
                packet_id == packet@.header.packet_id,
                self.settings_match(),
                forall|k: int|
                    0 <= k < message_acks@.len() ==> (#[trigger] message_acks@[k]).0
                        < model.registry.kinds.len(),
                self@ == (ManagerModel {
                    acks: record_acks(
                        model.acks,
                        model.registry,
                        packet_id.0,
                        message_acks@.take(i as int),
                    ),
                    ..model
                }),
            decreases message_acks@.len() - i,
        {
            let (net_id, message_ack) = message_acks[i];
            proof {
                assert(message_acks@[i as int].0 < model.registry.kinds.len());
                assert(message_acks@.take(i + 1).drop_last() =~= message_acks@.take(i as int));
                assert(message_acks@.take(i + 1).last() == message_acks@[i as int]);
            }
            let channel_kind = match self.channel_registry.get_kind_from_net_id(net_id) {
                Some(channel_kind) => channel_kind,
                None => {
                    return Err(MessageError::UnknownNetId(net_id));
                },
            };
            if self.channels[net_id as usize].setting.mode.is_watching_acks() {
                record_ack(
                    &mut self.packet_to_message_ack_map,
                    packet_id,
                    channel_kind,
                    message_ack,
                );
            }
            i = i + 1;
        }
        assert(message_acks@.take(i as int) =~= message_acks@);
        Ok(())
    }

    /// Prepares packets from the messages that are ready to be sent, and returns the bytes to
    /// send.
    pub fn send_packets(&mut self, current_tick: Tick) -> (r: Result<Vec<Payload>, MessageError>)
        requires
            old(self).wf(),
        ensures
            final(self).wf(),
            final(self)@ == old(self)@.after_send(current_tick),
            r is Ok,
            r.unwrap()@.len() == old(self)@.packets(current_tick).len(),
            forall|k: int|
                0 <= k < r.unwrap()@.len() ==> {
                    let payload = #[trigger] r.unwrap()@[k];
                    &&& payload@ == old(self)@.packets(current_tick)[k].wire()
                    &&& payload@.len() <= MTU_PAYLOAD_BYTES
                },
    {
        let ghost model = self@;
        let ghost expected = model.packets(current_tick);
        proof {
            lemma_packets(model, current_tick);
            assert(model.senders.take(model.senders.len() as int) =~= model.senders);
            lemma_channels_outgoing(model, model.senders.len() as int);
        }
        // Get the packets to send from all channels.
        let data_to_send = self.collect_channels();
        let mut packets = self.packet_manager.build_packets(data_to_send);
        let ghost collected = ManagerModel {
            header: model.header.sent(expected.len()),
            senders: model.senders.map_values(|s: SenderModel| s.after_send()),
            ..model
        };
        proof {
            assert(self@ =~= collected);
            assert(views(packets@).len() == expected.len());
            assert(expected.take(0) =~= Seq::empty());
            assert forall|k: int| 0 <= k < packets@.len() implies (#[trigger] packets@[k])@
                == numbered(model.header, pack(model.outgoing()), Tick(0))[k] by {
                assert(views(packets@)[k] == packets@[k]@);
            }
        }
        let mut bytes: Vec<Payload> = Vec::new();
        let mut i: usize = 0;
        while i < packets.len()
            invariant
                model == old(self)@,
                model.wf(),
                expected == model.packets(current_tick),
                packets@.len() == expected.len(),
                bytes@.len() == i,
                i <= packets@.len(),
                self.settings_match(),
                collected == (ManagerModel {
                    header: model.header.sent(expected.len()),
                    senders: model.senders.map_values(|s: SenderModel| s.after_send()),
                    ..model
                }),
                self@ == (ManagerModel {
                    acks: record_packets(model.acks, model.registry, expected.take(i as int)),
                    ..collected
                }),
                forall|k: int|
                    0 <= k < expected.len() ==> {
                        let packet = #[trigger] expected[k];
                        packet.wf() && in_registry(packet.data, model.registry)
                    },
                forall|k: int|
                    i <= k < packets@.len() ==> (#[trigger] packets@[k])@ == numbered(
                        model.header,
                        pack(model.outgoing()),
                        Tick(0),
                    )[k],
                forall|k: int|
                    0 <= k < i ==> {
                        let payload = #[trigger] bytes@[k];
                        payload@ == expected[k].wire() && payload@.len() <= MTU_PAYLOAD_BYTES
                    },
            decreases packets@.len() - i,
        {
            // Set the current tick.
            packets[i].set_tick(current_tick);
            let ghost packet = packets@[i as int]@;
            proof {
                assert(packet == expected[i as int]);
                assert(packet.wf());
                lemma_take_packet(packet, Seq::empty());
                assert(expected.take(i + 1).drop_last() =~= expected.take(i as int));
                assert(expected.take(i + 1).last() == packet);
            }
            let payload = self.packet_manager.encode_packet(&packets[i]);
            bytes.push(payload);
            assert(self@ =~= (ManagerModel {
                acks: record_packets(model.acks, model.registry, expected.take(i as int)),
                ..collected
            }));
            // Remember which messages the packet carries.
            match self.record_message_acks(&packets[i]) {
                Ok(()) => {},
                Err(e) => {
                    return Err(e);
                },
            }
            i = i + 1;
        }
        proof {
            assert(expected.take(i as int) =~= expected);
            assert(self@ =~= model.after_send(current_tick));
            lemma_after_send_wf(model, current_tick);
        }
        Ok(bytes)
    }
}

impl MessageManager {
    /// Tells the senders which of their messages arrived, and forgets the records of the packets
    /// that carried them.
    fn notify_senders(&mut self, acked: &Vec<PacketId>)
        requires
            old(self).settings_match(),
            old(self)@.registry.wf(),
            old(self)@.senders.len() == old(self)@.registry.kinds.len(),
            acked@.no_duplicates(),
        ensures
            final(self).settings_match(),
            final(self)@ == (ManagerModel {
                senders: Seq::new(
                    old(self)@.senders.len(),
                    |i: int|
                        old(self)@.senders[i].notify_all(
                            acks_in(old(self)@.acks, acked@, old(self)@.registry.kinds[i]),
                        ),
                ),
                acks: without_packets(old(self)@.acks, acked@),
                ..old(self)@
            }),
    {
        let ghost model = self@;
        let mut i: usize = 0;
        proof {
            assert(acked@.take(0) =~= Seq::empty());
            assert(self@.acks =~= without_packets(model.acks, acked@.take(0)));
        }
        while i < acked.len()
            invariant
                i <= acked@.len(),
                model == old(self)@,
                model.registry.wf(),
                model.senders.len() == model.registry.kinds.len(),
                acked@.no_duplicates(),
                self.settings_match(),
                self@ == (ManagerModel {
                    senders: self@.senders,
                    acks: without_packets(model.acks, acked@.take(i as int)),
                    ..model
                }),
                self@.senders.len() == model.senders.len(),
                forall|k: int|
                    0 <= k < model.senders.len() ==> (#[trigger] self@.senders[k])
                        == model.senders[k].notify_all(
                        acks_in(model.acks, acked@.take(i as int), model.registry.kinds[k]),
                    ),
            decreases acked@.len() - i,
        {
            let id = acked[i];
            let ghost before = self@;
            let ghost done = acked@.take(i as int);
            proof {
                assert(acked@.take(i + 1).drop_last() =~= done);
                assert(acked@.take(i + 1).last() == id);
                assert(!done.contains(id)) by {
                    if done.contains(id) {
                        let j = choose|j: int| 0 <= j < done.len() && done[j] == id;
                        assert(acked@[j] == acked@[i as int]);
                    }
                }
            }
            let ghost map = self.packet_to_message_ack_map@;
            let removed = self.packet_to_message_ack_map.remove(&id.0);
            proof {
                assert(self@.acks =~= before.acks.remove(id.0));
                let next = acked@.take(i + 1);
                assert(next =~= done.push(id));
                assert forall|k: u16| next.contains(PacketId(k)) <==> (done.contains(PacketId(k))
                    || k == id.0) by {
                    if done.contains(PacketId(k)) {
                        let j = choose|j: int| 0 <= j < done.len() && done[j] == PacketId(k);
                        assert(next[j] == PacketId(k));
                    }
                    if k == id.0 {
                        assert(next[i as int] == id);
                    }
                    if next.contains(PacketId(k)) {
                        let j = choose|j: int| 0 <= j < next.len() && next[j] == PacketId(k);
                        if j < i {
                            assert(done[j] == PacketId(k));
                        }
                    }
                }
                assert(self@.acks =~= without_packets(model.acks, acked@.take(i + 1)));
            }
            match removed {
                None => {
                    proof {
                        assert forall|k: int| 0 <= k < model.senders.len() implies (
                        #[trigger] self@.senders[k]) == model.senders[k].notify_all(
                            acks_in(model.acks, acked@.take(i + 1), model.registry.kinds[k]),
                        ) by {
                            assert(before.senders[k] == self@.senders[k]);
                            assert(!model.acks.contains_key(id.0)) by {
                                if model.acks.contains_key(id.0) {
                                    assert(before.acks.contains_key(id.0));
                                }
                            }
                            let kind = model.registry.kinds[k];
                            assert(acks_in(model.acks, done, kind) + recorded(
                                model.acks,
                                id.0,
                                kind,
                            ) =~= acks_in(model.acks, done, kind));
                        }
                    }
                },
                Some(message_map) => {
                    proof {
                        assert(map.contains_key(id.0) && map[id.0] == message_map);
                        assert(before.acks.contains_key(id.0));
                        assert(before.acks[id.0] == channel_acks_model(message_map));
                        assert(model.acks.contains_key(id.0));
                        assert(model.acks[id.0] == channel_acks_model(message_map));
                    }
                    self.notify_channels(message_map);
                    proof {
                        assert forall|k: int| 0 <= k < model.senders.len() implies (
                        #[trigger] self@.senders[k]) == model.senders[k].notify_all(
                            acks_in(model.acks, acked@.take(i + 1), model.registry.kinds[k]),
                        ) by {
                            let kind = model.registry.kinds[k];
                            assert(before.senders[k] == model.senders[k].notify_all(
                                acks_in(model.acks, done, kind),
                            ));
                            lemma_notify_all(
                                model.senders[k],
                                acks_in(model.acks, done, kind),
                                recorded(model.acks, id.0, kind),
                            );
                        }
                    }
                },
            }
            i = i + 1;
        }
        proof {
            assert(acked@.take(i as int) =~= acked@);
            assert(self@.senders =~= Seq::new(
                model.senders.len(),
                |k: int|
                    model.senders[k].notify_all(
                        acks_in(model.acks, acked@, model.registry.kinds[k]),
                    ),
            ));
        }
    }

    /// Tells the senders that the messages of a packet arrived.
    fn notify_channels(&mut self, message_map: HashMap<ChannelKind, Vec<MessageAck>>)
        requires
            old(self).settings_match(),
            old(self)@.registry.wf(),
        ensures
            final(self).settings_match(),
            final(self)@.senders.len() == old(self)@.senders.len(),
            forall|k: int|
                0 <= k < old(self)@.senders.len() ==> (#[trigger] final(self)@.senders[k]) == {
                    let kind = old(self)@.registry.kinds[k];
                    let acks = channel_acks_model(message_map);
                    old(self)@.senders[k].notify_all(
                        if acks.contains_key(kind) {
                            acks[kind]
                        } else {
                            Seq::empty()
                        },
                    )
                },
            final(self)@ == (ManagerModel { senders: final(self)@.senders, ..old(self)@ }),
    {
        let ghost model = self@;
        let ghost acks = channel_acks_model(message_map);
        let mut i: usize = 0;
        while i < self.channels.len()
            invariant
                model == old(self)@,
                model.registry.wf(),
                acks == channel_acks_model(message_map),
                i <= self.channels@.len(),
                self.channels@.len() == model.senders.len(),
                model.senders.len() == model.registry.kinds.len(),
                self.settings_match(),
                self@.header == model.header,
                self@.registry == model.registry,
                self@.acks == model.acks,
                forall|k: int|
                    0 <= k < i ==> (#[trigger] self.channels@[k]).sender@
                        == model.senders[k].notify_all(
                        if acks.contains_key(model.registry.kinds[k]) {
                            acks[model.registry.kinds[k]]
                        } else {
                            Seq::empty()
                        },
                    ),
                forall|k: int|
                    i <= k < self.channels@.len() ==> (#[trigger] self.channels@[k]).sender@
                        == model.senders[k],
                forall|k: int|
                    0 <= k < self.channels@.len() ==> (#[trigger] self.channels@[k]).receiver@
                        == model.receivers[k],
            decreases self.channels@.len() - i,
        {
            let ghost sender = model.senders[i as int];
            assert(self.channels@[i as int].sender@ == sender);
            if let Some(channel_kind) = self.channel_registry.get_kind_from_net_id(i as u16) {
                match message_map.get(&channel_kind) {
                    None => {
                        assert(!acks.contains_key(channel_kind));
                    },
                    Some(message_acks) => {
                        assert(acks[channel_kind] == message_acks@);
                        let ghost channels = self.channels@;
                        let mut j: usize = 0;
                        assert(message_acks@.take(0) =~= Seq::empty());
                        while j < message_acks.len()
                            invariant
                                i < self.channels@.len(),
                                j <= message_acks@.len(),
                                self.channels@.len() == channels.len(),
                                self@.header == model.header,
                                self@.registry == model.registry,
                                self@.acks == model.acks,
                                forall|k: int|
                                    0 <= k < channels.len() && k != i ==> (
                                    #[trigger] self.channels@[k]) == channels[k],
                                self.channels@[i as int].setting == channels[i as int].setting,
                                self.channels@[i as int].receiver == channels[i as int].receiver,
                                self.channels@[i as int].sender@ == sender.notify_all(
                                    message_acks@.take(j as int),
                                ),
                            decreases message_acks@.len() - j,
                        {
                            proof {
                                assert(message_acks@.take(j + 1).drop_last() =~= message_acks@.take(
                                    j as int,
                                ));
                                assert(message_acks@.take(j + 1).last() == message_acks@[j as int]);
                            }
                            self.channels[i].sender.notify_message_delivered(&message_acks[j]);
                            j = j + 1;
                        }
                        assert(message_acks@.take(j as int) =~= message_acks@);
                        assert(self.settings_match()) by {
                            assert forall|k: int| 0 <= k < self.channels@.len() implies (
                            #[trigger] self.channels@[k]).setting
                                == self.channel_registry@.settings[k] by {
                                assert(channels[k].setting == self.channel_registry@.settings[k]);
                            }
                        }
                    },
                }
            }
            i = i + 1;
        }
        proof {
            assert(self@.receivers =~= model.receivers);
            assert(self@ =~= (ManagerModel { senders: self@.senders, ..model }));
        }
    }

    /// Puts the messages of a packet in the buffers of their channels.
    fn deliver_messages(&mut self, data: VecDeque<Item>, tick: Tick) -> (r: Result<
        (),
        MessageError,
    >)
        requires
            old(self).settings_match(),
            old(self)@.registry.wf(),
            old(self)@.receivers.len() == old(self)@.registry.kinds.len(),
        ensures
            final(self).settings_match(),
            final(self)@ == (ManagerModel {
                receivers: deliver(old(self)@.receivers, views(data@), tick).0,
                ..old(self)@
            }),
            r == match deliver(old(self)@.receivers, views(data@), tick).1 {
                None => Ok::<(), MessageError>(()),
                Some(e) => Err::<(), MessageError>(e),
            },
    {
        let ghost model = self@;
        let ghost items = views(data@);
        let mut remaining = data;
        while remaining.len() > 0
            invariant
                model == old(self)@,
                items == views(data@),
                model.registry.wf(),
                model.receivers.len() == model.registry.kinds.len(),
                self.settings_match(),
                self@ == (ManagerModel { receivers: self@.receivers, ..model }),
                self@.receivers.len() == model.receivers.len(),
                deliver(model.receivers, items, tick) == deliver(
                    self@.receivers,
                    views(remaining@),
                    tick,
                ),
            decreases remaining@.len(),
        {
            let ghost rest = views(remaining@);
            let (net_id, message) = remaining.pop_front().unwrap();
            proof {
                assert(rest[0] == (net_id, message@));
                assert(views(remaining@) =~= rest.drop_first());
            }
            if self.channel_registry.get_kind_from_net_id(net_id).is_none() {
                assert(net_id >= self@.receivers.len());
                assert(deliver(self@.receivers, rest, tick) == (
                    self@.receivers,
                    Some(MessageError::UnknownNetId(net_id)),
                ));
                return Err(MessageError::UnknownNetId(net_id));
            }
            let ghost content = message@;
            let ghost channels = self.channels@;
            let ghost receiver = self@.receivers[net_id as int];
            let mut message = message;
            message.set_tick(tick);
            proof {
                assert(receiver.error(message@) == receiver.error(content));
            }
            let result = self.channels[net_id as usize].receiver.buffer_recv(message);
            proof {
                lemma_channel_update(channels, net_id as int, self.channels@[net_id as int]);
                assert(self.channels@ =~= channels.update(
                    net_id as int,
                    self.channels@[net_id as int],
                ));
                assert(self.settings_match()) by {
                    assert forall|k: int| 0 <= k < self.channels@.len() implies (
                    #[trigger] self.channels@[k]).setting == self.channel_registry@.settings[k] by {
                        assert(channels[k].setting == self.channel_registry@.settings[k]);
                    }
                }
                assert(self@ =~= (ManagerModel { receivers: self@.receivers, ..model }));
            }
            match result {
                Ok(()) => {},
                Err(e) => {
                    return Err(MessageError::Receive(e));
                },
            }
        }
        Ok(())
    }

    /// Processes a packet received over the network as raw bytes: updates the acks, and puts
    /// the messages from the packet in internal buffers. Returns the tick of the packet.
    pub fn recv_packet<R: ReadBuffer>(&mut self, reader: &mut R) -> (r: Result<Tick, MessageError>)
        requires
            old(self).wf(),
        ensures
            final(self).wf(),
            match take_packet(old(reader).remaining()) {
                None => {
                    &&& r == Err::<Tick, MessageError>(MessageError::InvalidPacket)
                    &&& final(self)@ == old(self)@
                },
                Some((packet, rest)) => {
                    &&& final(reader).remaining() == rest
                    &&& final(self)@ == old(self)@.receive(packet)
                    &&& r == match old(self)@.receive_error(packet) {
                        None => Ok::<Tick, MessageError>(packet.header.tick),
                        Some(e) => Err::<Tick, MessageError>(e),
                    }
                },
            },
    {
        let ghost model = self@;
        // Parse the packet.
        let packet = match self.packet_manager.decode_packet(reader) {
            Some(packet) => packet,
            None => {
                return Err(MessageError::InvalidPacket);
            },
        };
        let ghost content = packet@;
        let tick = packet.header().tick;
        // Find out which of our packets have been acked.
        let acked_packets = self.packet_manager.header_manager.process_recv_packet_header(
            packet.header(),
        );
        proof {
            lemma_newly_acked(model.header, content.header);
            assert(self@ =~= (ManagerModel {
                header: model.header.process(content.header),
                ..model
            }));
        }
        // Update the list of messages that have been acked.
        self.notify_senders(&acked_packets);
        proof {
            assert(self@ =~= model.notified(content.header));
            lemma_notified_wf(model, content.header);
        }
        // Put the messages from the packet in the internal buffers of each channel.
        let result = self.deliver_messages(packet.data, tick);
        proof {
            assert(self@ =~= model.receive(content));
            lemma_receive_packet_wf(model, content);
        }
        match result {
            Ok(()) => Ok(tick),
            Err(e) => Err(e),
        }
    }
}

/// Reads all messages of a channel that can be read. Where one cannot be decoded, the others are
/// lost.
fn read_channel<M: BitSerializable>(receiver: &mut ChannelReceiver) -> (r: Result<
    Vec<(Tick, M)>,
    SerializeError,
>)
    requires
        old(receiver)@.wf(),
    ensures
        final(receiver)@ == old(receiver)@.drained(),
        match decode_failure::<M>(old(receiver)@.ready()) {
            Some(e) => r == Err::<Vec<(Tick, M)>, SerializeError>(e),
            None => r is Ok && decoded_from(r.unwrap()@, old(receiver)@.ready()),
        },
{
    let ghost start = receiver@;
    let ghost ready = start.ready();
    let ghost mut n: int = 0;
    let mut messages: Vec<(Tick, M)> = Vec::new();
    let mut failure: Option<SerializeError> = None;
    proof {
        lemma_read(start, 0);
        assert(ready.take(0) =~= Seq::empty());
    }
    loop
        invariant
            start == old(receiver)@,
            start.wf(),
            ready == start.ready(),
            0 <= n <= ready.len(),
            receiver@ == start.read(n as nat),
            receiver@.wf(),
            receiver@.ready() == ready.skip(n),
            failure == decode_failure::<M>(ready.take(n)),
            failure is None ==> decoded_from(messages@, ready.take(n)),
        decreases ready.len() - n,
    {
        match receiver.read_message() {
            None => {
                assert(ready.skip(n).len() == 0);
                assert(ready.take(n) =~= ready);
                return match failure {
                    Some(e) => Err(e),
                    None => Ok(messages),
                };
            },
            Some(data) => {
                proof {
                    assert(ready.skip(n).len() > 0);
                    lemma_read_one(start.read(n as nat));
                    lemma_read(start, n as nat);
                    lemma_read(start, (n + 1) as nat);
                    assert(data@ == ready[n]);
                    assert(ready.take(n + 1).drop_last() =~= ready.take(n));
                    assert(ready.take(n + 1).last() == data@);
                }
                if failure.is_none() {
                    let mut reader = ReadWordBuffer::start_read(data.bytes.as_slice());
                    match M::decode(&mut reader) {
                        Ok(message) => {
                            let ghost before = messages@;
                            // Every message has a tick: it is set when the message is received.
                            messages.push((data.tick.unwrap(), message));
                            assert(decoded_from(messages@, ready.take(n + 1))) by {
                                assert forall|j: int| 0 <= j < messages@.len() implies {
                                    let (tick, message) = #[trigger] messages@[j];
                                    &&& ready.take(n + 1)[j].tick == Some(tick)
                                    &&& M::decodes_to(ready.take(n + 1)[j].bytes, message)
                                } by {
                                    if j < n {
                                        assert(messages@[j] == before[j]);
                                        assert(ready.take(n + 1)[j] == ready.take(n)[j]);
                                    }
                                }
                            }
                        },
                        Err(e) => {
                            failure = Some(e);
                        },
                    }
                }
                proof {
                    n = n + 1;
                }
            },
        }
    }
}

impl MessageManager {
    /// Reads all the messages in the internal buffers that are ready to be processed. Fails where
    /// one of them cannot be decoded; the messages are gone then too.
    pub fn try_read_messages<M: BitSerializable>(&mut self) -> (r: Result<
        HashMap<ChannelKind, Vec<(Tick, M)>>,
        MessageError,
    >)
        requires
            old(self).wf(),
        ensures
            final(self).wf(),
            final(self)@ == old(self)@.drained(),
            match channels_decode_failure::<M>(old(self)@.receivers) {
                Some(e) => r == Err::<HashMap<ChannelKind, Vec<(Tick, M)>>, MessageError>(
                    MessageError::Serialize(e),
                ),
                None => r is Ok && old(self)@.reads_as(r.unwrap()@),
            },
    {
        let ghost model = self@;
        let mut map: HashMap<ChannelKind, Vec<(Tick, M)>> = HashMap::new();
        let mut failure: Option<SerializeError> = None;
        let mut i: usize = 0;
        assert(model.receivers.take(0) =~= Seq::empty());
        while i < self.channels.len()
            invariant
                model == old(self)@,
                model.wf(),
                i <= self.channels@.len(),
                self.channels@.len() == model.receivers.len(),
                self.settings_match(),
                self@.header == model.header,
                self@.registry == model.registry,
                self@.acks == model.acks,
                forall|k: int|
                    0 <= k < self.channels@.len() ==> (#[trigger] self.channels@[k]).sender@
                        == model.senders[k],
                forall|k: int|
                    0 <= k < i ==> (#[trigger] self.channels@[k]).receiver@
                        == model.receivers[k].drained(),
                forall|k: int|
                    i <= k < self.channels@.len() ==> (#[trigger] self.channels@[k]).receiver@
                        == model.receivers[k],
                failure == channels_decode_failure::<M>(model.receivers.take(i as int)),
                failure is None ==> forall|kind: ChannelKind| #[trigger]
                    map@.contains_key(kind) <==> model.registry.kinds.contains(kind)
                        && model.registry.net_id(kind) < i && model.receiver(kind).ready().len()
                        > 0,
                failure is None ==> forall|kind: ChannelKind| #[trigger]
                    map@.contains_key(kind) ==> decoded_from(
                        map@[kind]@,
                        model.receiver(kind).ready(),
                    ),
            decreases self.channels@.len() - i,
        {
            let ghost receiver = model.receivers[i as int];
            let ghost kind = model.registry.kinds[i as int];
            proof {
                assert(receiver.wf());
                assert(self.channels@[i as int].receiver@ == receiver);
                assert(model.receivers.take(i + 1).drop_last() =~= model.receivers.take(i as int));
                assert(model.receivers.take(i + 1).last() == receiver);
                lemma_net_id(model.registry, i as int);
                assert(model.registry.kinds.contains(kind));
            }
            let result = read_channel::<M>(&mut self.channels[i].receiver);
            if failure.is_none() {
                match result {
                    Ok(messages) => {
                        if messages.len() > 0 {
                            if let Some(channel_kind) = self.channel_registry.get_kind_from_net_id(
                                i as u16,
                            ) {
                                map.insert(channel_kind, messages);
                            }
                        }
                        assert forall|k: ChannelKind| #[trigger]
                            map@.contains_key(k) <==> model.registry.kinds.contains(k)
                                && model.registry.net_id(k) < i + 1 && model.receiver(
                                k,
                            ).ready().len() > 0 by {
                            if model.registry.kinds.contains(k) && model.registry.net_id(k) == i {
                                lemma_kind(model.registry, k);
                            }
                        }
                    },
                    Err(e) => {
                        failure = Some(e);
                    },
                }
            }
            i = i + 1;
        }
        proof {
            let after = model.drained();
            assert(self@.senders =~= model.senders);
            assert(self@.receivers =~= after.receivers);
            assert(model.receivers.take(i as int) =~= model.receivers);
            assert forall|k: int| 0 <= k < after.receivers.len() implies {
                let receiver = #[trigger] after.receivers[k];
                receiver.wf() && receiver.serves(after.registry.settings[k].mode)
            } by {
                let receiver = model.receivers[k];
                assert(receiver.wf());
                lemma_read(receiver, receiver.ready().len());
            }
            lemma_acks_kept(model, after);
            assert forall|k: ChannelKind| #[trigger]
                map@.contains_key(k) && failure is None <==> failure is None
                    && model.registry.kinds.contains(k) && model.receiver(k).ready().len() > 0 by {
                if model.registry.kinds.contains(k) {
                    lemma_kind(model.registry, k);
                }
            }
        }
        match failure {
            Some(e) => Err(MessageError::Serialize(e)),
            None => Ok(map),
        }
    }

    /// Reads all the messages in the internal buffers that are ready to be processed.
    pub fn read_messages<M: BitSerializable>(&mut self) -> (r: HashMap<ChannelKind, Vec<(Tick, M)>>)
        requires
            old(self).wf(),
            old(self)@.decodable::<M>(),
        ensures
            final(self).wf(),
            final(self)@ == old(self)@.drained(),
            old(self)@.reads_as(r@),
    {
        proof {
            let n = self@.receivers.len() as int;
            lemma_channels_decodable::<M>(self@, n);
            assert(self@.receivers.take(n) =~= self@.receivers);
        }
        self.try_read_messages::<M>().unwrap()
    }
}

} // verus!
