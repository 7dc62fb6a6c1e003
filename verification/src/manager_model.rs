//! Model of a message manager: its state, and what each operation does to it.
use vstd::prelude::*;
use vstd::string::*;

use crate::ack_map::{
    acks_in, record, record_acks, record_packets, watched, without_packets, AckModel,
};
use crate::channel::receiver::{lemma_receive_wf, ReceiveError, ReceiverModel};
use crate::channel::registry::{lemma_kind, lemma_net_id, RegistryModel};
use crate::channel::reliable_sender::UnackedModel;
use crate::channel::sender::{lemma_collected, SenderModel};
use crate::channel::settings::ChannelSettings;
use crate::header::{packets_back_from, HeaderModel, PacketHeader, ACK_BITFIELD_SIZE};
use crate::ids::{ChannelKind, NetId, PacketId, Tick, Time};
use crate::message::{
    lemma_pieces_sendable, pieces, MessageAck, MessageModel, SingleModel, FRAGMENT_SIZE,
};
use crate::packet::{all_sendable, by_channel, items_acks, PacketModel};
use crate::packet_manager::{lemma_pack, numbered, pack};
use crate::serialize::{BitSerializable, SerializeError};
use crate::text::{decimal, decimal_text};

verus! {

/// Why an operation of a message manager failed.
#[derive(Clone, Copy, Debug, PartialEq, Eq)]
pub enum MessageError {
    /// No channel of this kind is registered.
    ChannelNotFound,
    /// No channel is registered under this net id.
    UnknownNetId(NetId),
    /// The bytes are not those of a packet.
    InvalidPacket,
    /// A message could not be written or read.
    Serialize(SerializeError),
    /// A channel does not take a message.
    Receive(ReceiveError),
}

impl MessageError {
    /// What went wrong, in words.
    pub open spec fn text(self) -> Seq<char> {
        match self {
            MessageError::ChannelNotFound => "Channel not found"@,
            MessageError::UnknownNetId(net_id) => "Could not recognize net_id "@ + decimal_text(
                net_id as nat,
            ) + " as a channel"@,
            MessageError::InvalidPacket => "Could not decode packet"@,
            MessageError::Serialize(SerializeError::EndOfBuffer) => "End of buffer"@,
            MessageError::Serialize(SerializeError::InvalidValue) => "Invalid value"@,
            MessageError::Receive(ReceiveError::MissingMessageId) => "Missing message id"@,
            MessageError::Receive(ReceiveError::InvalidFragment) => "Invalid fragment"@,
        }
    }

    /// Returns what went wrong, in words.
    pub fn message(&self) -> (r: String)
        ensures
            r@ == self.text(),
    {
        match self {
            MessageError::ChannelNotFound => "Channel not found".to_owned(),
            MessageError::UnknownNetId(net_id) => {
                let mut text = "Could not recognize net_id ".to_owned();
                text.append(decimal(*net_id).as_str());
                text.append(" as a channel");
                text
            },
            MessageError::InvalidPacket => "Could not decode packet".to_owned(),
            MessageError::Serialize(SerializeError::EndOfBuffer) => "End of buffer".to_owned(),
            MessageError::Serialize(SerializeError::InvalidValue) => "Invalid value".to_owned(),
            MessageError::Receive(ReceiveError::MissingMessageId) => {
                "Missing message id".to_owned()
            },
            MessageError::Receive(ReceiveError::InvalidFragment) => "Invalid fragment".to_owned(),
        }
    }
}

/// State of a message manager. The ends of the channels are listed in the order of the
/// channels' net ids.
#[verifier::ext_equal]
pub struct ManagerModel {
    pub header: HeaderModel,
    pub registry: RegistryModel,
    pub senders: Seq<SenderModel>,
    pub receivers: Seq<ReceiverModel>,
    pub acks: AckModel,
}

/// The messages of one channel, each with the channel's net id.
pub open spec fn tagged(net_id: NetId, messages: Seq<MessageModel>) -> Seq<(NetId, MessageModel)> {
    messages.map_values(|m: MessageModel| (net_id, m))
}

/// What the channels send now, channel by channel.
pub open spec fn channels_outgoing(senders: Seq<SenderModel>) -> Seq<(NetId, MessageModel)>
    decreases senders.len(),
{
    if senders.len() == 0 {
        Seq::empty()
    } else {
        channels_outgoing(senders.drop_last()) + tagged(
            (senders.len() - 1) as u16,
            senders.last().outgoing(),
        )
    }
}

/// The receivers after the messages of a packet with this tick were handed to them, and the
/// reason why that stopped before the end, if it did.
pub open spec fn deliver(
    receivers: Seq<ReceiverModel>,
    items: Seq<(NetId, MessageModel)>,
    tick: Tick,
) -> (Seq<ReceiverModel>, Option<MessageError>)
    decreases items.len(),
{
    if items.len() == 0 {
        (receivers, None)
    } else {
        let (net_id, message) = items[0];
        if net_id >= receivers.len() {
            (receivers, Some(MessageError::UnknownNetId(net_id)))
        } else {
            let receiver = receivers[net_id as int];
            match receiver.error(message) {
                Some(e) => (receivers, Some(MessageError::Receive(e))),
                None => deliver(
                    receivers.update(net_id as int, receiver.receive(message.stamped(tick))),
                    items.drop_first(),
                    tick,
                ),
            }
        }
    }
}

impl ManagerModel {
    /// The state of a manager that was not used yet.
    pub open spec fn initial(registry: RegistryModel) -> ManagerModel {
        ManagerModel {
            header: HeaderModel::initial(),
            registry,
            senders: registry.settings.map_values(
                |s: ChannelSettings| SenderModel::initial(s.mode),
            ),
            receivers: registry.settings.map_values(
                |s: ChannelSettings| ReceiverModel::initial(s.mode),
            ),
            acks: Map::empty(),
        }
    }

    /// What holds of a manager at all times.
    pub open spec fn wf(self) -> bool {
        &&& self.registry.wf()
        &&& self.senders.len() == self.registry.kinds.len()
        &&& self.receivers.len() == self.registry.kinds.len()
        &&& self.senders_wf()
        &&& self.receivers_wf()
        &&& self.acks_wf()
    }

    /// The senders fit their channels, and nothing is on its way into packets.
    pub open spec fn senders_wf(self) -> bool {
        forall|i: int|
            0 <= i < self.senders.len() ==> {
                let sender = #[trigger] self.senders[i];
                sender.wf() && sender.idle() && sender.serves(self.registry.settings[i].mode)
            }
    }

    /// The receivers fit their channels, and every message that can be read has a tick.
    pub open spec fn receivers_wf(self) -> bool {
        forall|i: int|
            0 <= i < self.receivers.len() ==> {
                let receiver = #[trigger] self.receivers[i];
                receiver.wf() && receiver.serves(self.registry.settings[i].mode)
            }
    }

    /// Messages are recorded only of packets that are not acknowledged yet, and only on channels
    /// that want to know which messages arrived.
    pub open spec fn acks_wf(self) -> bool {
        forall|packet: u16| #[trigger]
            self.acks.contains_key(packet) ==> {
                &&& self.header.sent_not_acked.contains_key(packet)
                &&& forall|kind: ChannelKind| #[trigger]
                    self.acks[packet].contains_key(kind) ==> self.watches(kind)
            }
    }

    /// Whether `kind` is a channel that wants to know which messages arrived.
    pub open spec fn watches(self, kind: ChannelKind) -> bool {
        self.registry.kinds.contains(kind) && watched(self.registry, self.registry.net_id(kind))
    }

    /// The sending end of the channel `kind`.
    pub open spec fn sender(self, kind: ChannelKind) -> SenderModel
        recommends
            self.registry.kinds.contains(kind),
    {
        self.senders[self.registry.net_id(kind) as int]
    }

    /// The receiving end of the channel `kind`.
    pub open spec fn receiver(self, kind: ChannelKind) -> ReceiverModel
        recommends
            self.registry.kinds.contains(kind),
    {
        self.receivers[self.registry.net_id(kind) as int]
    }

    /// The state with another sending end of the channel `kind`.
    pub open spec fn with_sender(self, kind: ChannelKind, sender: SenderModel) -> ManagerModel {
        ManagerModel {
            senders: self.senders.update(self.registry.net_id(kind) as int, sender),
            ..self
        }
    }

    /// The state at the time `now`, when packets and their answers take `rtt`.
    pub open spec fn update(self, now: Time, rtt: Time) -> ManagerModel {
        ManagerModel {
            header: HeaderModel { now, ..self.header },
            senders: self.senders.map_values(|s: SenderModel| s.update(now, rtt)),
            receivers: self.receivers.map_values(|r: ReceiverModel| r.update(now)),
            ..self
        }
    }

    /// The state after the message `bytes` was buffered on the channel `kind`.
    pub open spec fn buffer(self, kind: ChannelKind, bytes: Seq<u8>) -> ManagerModel {
        self.with_sender(kind, self.sender(kind).buffer(bytes))
    }

    /// What the channels send now.
    pub open spec fn outgoing(self) -> Seq<(NetId, MessageModel)> {
        channels_outgoing(self.senders)
    }

    /// The packets that are sent now.
    pub open spec fn packets(self, tick: Tick) -> Seq<PacketModel> {
        numbered(self.header, pack(self.outgoing()), tick)
    }

    /// The state after the packets were sent.
    pub open spec fn after_send(self, tick: Tick) -> ManagerModel {
        ManagerModel {
            header: self.header.sent(self.packets(tick).len()),
            senders: self.senders.map_values(|s: SenderModel| s.after_send()),
            acks: record_packets(self.acks, self.registry, self.packets(tick)),
            ..self
        }
    }

    /// The state after the acknowledgements of a header were processed: the senders learn which
    /// of their messages arrived, and the records of the packets that carried them are gone.
    pub open spec fn notified(self, header: PacketHeader) -> ManagerModel {
        let acked = self.header.newly_acked(header);
        ManagerModel {
            header: self.header.process(header),
            senders: Seq::new(
                self.senders.len(),
                |i: int|
                    self.senders[i].notify_all(
                        acks_in(self.acks, acked, self.registry.kinds[i]),
                    ),
            ),
            acks: without_packets(self.acks, acked),
            ..self
        }
    }

    /// The state after a packet was received.
    pub open spec fn receive(self, packet: PacketModel) -> ManagerModel {
        ManagerModel {
            receivers: deliver(self.receivers, packet.data, packet.header.tick).0,
            ..self.notified(packet.header)
        }
    }

    /// Why a packet was not received in full, if it was not.
    pub open spec fn receive_error(self, packet: PacketModel) -> Option<MessageError> {
        deliver(self.receivers, packet.data, packet.header.tick).1
    }

    /// The state after all messages that could be read were read.
    pub open spec fn drained(self) -> ManagerModel {
        ManagerModel {
            receivers: self.receivers.map_values(|r: ReceiverModel| r.drained()),
            ..self
        }
    }
}

/// The first reason why one of `messages` cannot be decoded, if one cannot.
pub open spec fn decode_failure<M: BitSerializable>(messages: Seq<SingleModel>) -> Option<
    SerializeError,
>
    decreases messages.len(),
{
    if messages.len() == 0 {
        None
    } else {
        match decode_failure::<M>(messages.drop_last()) {
            Some(e) => Some(e),
            None => M::decode_error(messages.last().bytes),
        }
    }
}

/// The first reason why a message that can be read cannot be decoded, if one cannot.
pub open spec fn channels_decode_failure<M: BitSerializable>(
    receivers: Seq<ReceiverModel>,
) -> Option<SerializeError>
    decreases receivers.len(),
{
    if receivers.len() == 0 {
        None
    } else {
        match channels_decode_failure::<M>(receivers.drop_last()) {
            Some(e) => Some(e),
            None => decode_failure::<M>(receivers.last().ready()),
        }
    }
}

/// Whether `decoded` are `messages`, one for one, each with its tick.
pub open spec fn decoded_from<M: BitSerializable>(
    decoded: Seq<(Tick, M)>,
    messages: Seq<SingleModel>,
) -> bool {
    &&& decoded.len() == messages.len()
    &&& forall|j: int|
        0 <= j < decoded.len() ==> {
            let (tick, message) = #[trigger] decoded[j];
            &&& messages[j].tick == Some(tick)
            &&& M::decodes_to(messages[j].bytes, message)
        }
}

impl ManagerModel {
    /// Whether `read` is what is read now: of each channel, the messages that can be read, where
    /// there are any.
    pub open spec fn reads_as<M: BitSerializable>(
        self,
        read: Map<ChannelKind, Vec<(Tick, M)>>,
    ) -> bool {
        &&& forall|kind: ChannelKind| #[trigger]
            read.contains_key(kind) <==> self.registry.kinds.contains(kind) && self.receiver(
                kind,
            ).ready().len() > 0
        &&& forall|kind: ChannelKind| #[trigger]
            read.contains_key(kind) ==> decoded_from(read[kind]@, self.receiver(kind).ready())
    }

    /// Whether every message that can be read can be decoded.
    pub open spec fn decodable<M: BitSerializable>(self) -> bool {
        forall|i: int, j: int|
            0 <= i < self.receivers.len() && 0 <= j < self.receivers[i].ready().len()
                ==> M::decode_error((#[trigger] self.receivers[i].ready()[j]).bytes) is None
    }
}

// ---------------------------------------------------------------------------------------
// What is sent
// ---------------------------------------------------------------------------------------

/// What the channels send is listed channel by channel, belongs to channels, and is fit to be
/// sent.
pub proof fn lemma_channels_outgoing(model: ManagerModel, n: int)
    requires
        model.registry.wf(),
        model.senders.len() == model.registry.kinds.len(),
        model.senders_wf(),
        0 <= n <= model.senders.len(),
    ensures
        by_channel(channels_outgoing(model.senders.take(n))),
        all_sendable(channels_outgoing(model.senders.take(n))),
        forall|k: int|
            0 <= k < channels_outgoing(model.senders.take(n)).len() ==> (
            #[trigger] channels_outgoing(model.senders.take(n))[k]).0 < n,
    decreases n,
{
    let items = channels_outgoing(model.senders.take(n));
    if n > 0 {
        lemma_channels_outgoing(model, n - 1);
        assert(model.senders.take(n).drop_last() =~= model.senders.take(n - 1));
        let before = channels_outgoing(model.senders.take(n - 1));
        let sender = model.senders[n - 1];
        assert(model.senders.take(n).last() == sender);
        lemma_collect_wf(sender);
        lemma_collected(sender.collect(), model.registry.settings[n - 1].mode);
        let added = tagged((n - 1) as u16, sender.outgoing());
        assert(items == before + added);
        assert forall|k: int| 0 <= k < items.len() implies (#[trigger] items[k]).0 < n
            && items[k].1.sendable() by {
            if k < before.len() {
                assert(items[k] == before[k]);
            } else {
                assert(items[k] == added[k - before.len()]);
                assert(sender.collect().collected()[k - before.len()].sendable());
            }
        }
        assert forall|i: int, j: int| 0 <= i <= j < items.len() implies (#[trigger] items[i]).0 <= (
        #[trigger] items[j]).0 by {
            if j < before.len() {
                assert(items[i] == before[i] && items[j] == before[j]);
            } else {
                assert(items[j] == added[j - before.len()]);
            }
        }
    }
}

/// Collecting what is to be sent keeps a sender in order.
pub proof fn lemma_collect_wf(sender: SenderModel)
    requires
        sender.wf(),
    ensures
        sender.collect().wf(),
        sender.after_send().wf(),
        sender.after_send().idle(),
{
    match sender {
        SenderModel::Unreliable(model) => {},
        SenderModel::Reliable(model) => {
            crate::channel::reliable_sender::lemma_collect_wf(model);
        },
    }
}

/// The packets that are sent are within their limits, and belong to channels.
pub proof fn lemma_packets(model: ManagerModel, tick: Tick)
    requires
        model.wf(),
    ensures
        pack(model.outgoing()).flatten() == model.outgoing(),
        forall|k: int|
            0 <= k < model.packets(tick).len() ==> {
                let packet = #[trigger] model.packets(tick)[k];
                packet.wf() && packet.data.len() > 0 && in_registry(packet.data, model.registry)
            },
{
    let n = model.senders.len() as int;
    assert(model.senders.take(n) =~= model.senders);
    lemma_channels_outgoing(model, n);
    lemma_pack(model.outgoing());
    let chunks = pack(model.outgoing());
    assert forall|k: int| 0 <= k < model.packets(tick).len() implies {
        let packet = #[trigger] model.packets(tick)[k];
        packet.wf() && packet.data.len() > 0 && in_registry(packet.data, model.registry)
    } by {
        assert(model.packets(tick)[k].data == chunks[k]);
        lemma_chunk_in_flatten(chunks, k);
        assert forall|j: int| 0 <= j < chunks[k].len() implies (#[trigger] chunks[k][j]).0
            < model.registry.kinds.len() by {
            assert(chunks[k].contains(chunks[k][j]));
            let m = choose|m: int|
                0 <= m < model.outgoing().len() && model.outgoing()[m] == chunks[k][j];
            assert(model.outgoing()[m].0 < n);
        }
    }
}

/// Whether every message belongs to a channel of the registry.
pub open spec fn in_registry(items: Seq<(NetId, MessageModel)>, registry: RegistryModel) -> bool {
    forall|i: int| 0 <= i < items.len() ==> (#[trigger] items[i]).0 < registry.kinds.len()
}

pub proof fn lemma_chunk_in_flatten<A>(chunks: Seq<Seq<A>>, k: int)
    requires
        0 <= k < chunks.len(),
    ensures
        forall|x: A| #[trigger] chunks[k].contains(x) ==> chunks.flatten().contains(x),
    decreases chunks.len(),
{
    let first = chunks.first();
    let rest = chunks.drop_first();
    assert(chunks.flatten() == first + rest.flatten());
    if k > 0 {
        lemma_chunk_in_flatten(rest, k - 1);
        assert(rest[k - 1] == chunks[k]);
    }
    assert forall|x: A| #[trigger] chunks[k].contains(x) implies chunks.flatten().contains(x) by {
        if k == 0 {
            let i = choose|i: int| 0 <= i < first.len() && first[i] == x;
            assert(chunks.flatten()[i] == x);
        } else {
            assert(rest.flatten().contains(x));
            let i = choose|i: int| 0 <= i < rest.flatten().len() && rest.flatten()[i] == x;
            assert(chunks.flatten()[first.len() + i] == x);
        }
    }
}

/// A message keeps the sender that it is buffered on in order.
proof fn lemma_sender_buffer_wf(sender: SenderModel, bytes: Seq<u8>)
    requires
        sender.wf(),
        bytes.len() <= usize::MAX,
    ensures
        sender.buffer(bytes).wf(),
{
    match sender {
        SenderModel::Unreliable(model) => {
            let after = model.buffer(bytes);
            assert forall|i: int| 0 <= i < after.queue.len() implies {
                let (id, b) = #[trigger] after.queue[i];
                &&& after.with_acks || b.len() > FRAGMENT_SIZE ==> id is Some
                &&& b.len() <= usize::MAX
            } by {
                if i < model.queue.len() {
                    assert(after.queue[i] == model.queue[i]);
                }
            }
        },
        SenderModel::Reliable(model) => {
            let after = model.buffer(bytes);
            let fresh = UnackedModel::fresh(model.next_id, bytes);
            lemma_pieces_sendable(Some(model.next_id), bytes);
            assert forall|j: int| 0 <= j < fresh.parts.len() implies {
                let m = (#[trigger] fresh.parts[j]).message;
                m.sendable() && m.ack() is Some
            } by {
                assert(fresh.parts[j].message == pieces(Some(model.next_id), bytes)[j]);
            }
            assert forall|i: int| 0 <= i < after.unacked.len() implies (
            #[trigger] after.unacked[i]).wf() by {
                if i < model.unacked.len() {
                    assert(after.unacked[i] == model.unacked[i]);
                }
            }
        },
    }
}

/// A message that is buffered keeps a manager in order.
pub proof fn lemma_buffer_wf(model: ManagerModel, kind: ChannelKind, bytes: Seq<u8>)
    requires
        model.wf(),
        model.registry.kinds.contains(kind),
        bytes.len() <= usize::MAX,
    ensures
        model.buffer(kind, bytes).wf(),
{
    let after = model.buffer(kind, bytes);
    let k = model.registry.net_id(kind) as int;
    lemma_kind(model.registry, kind);
    assert(model.senders[k].wf());
    lemma_sender_buffer_wf(model.senders[k], bytes);
    assert forall|i: int| 0 <= i < after.senders.len() implies {
        let sender = #[trigger] after.senders[i];
        sender.wf() && sender.idle() && sender.serves(after.registry.settings[i].mode)
    } by {
        assert(model.senders[i].wf());
    }
    assert forall|packet: u16| #[trigger] after.acks.contains_key(packet) implies {
        &&& after.header.sent_not_acked.contains_key(packet)
        &&& forall|c: ChannelKind| #[trigger]
            after.acks[packet].contains_key(c) ==> after.watches(c)
    } by {
        assert(model.acks.contains_key(packet));
        assert forall|c: ChannelKind| #[trigger]
            after.acks[packet].contains_key(c) implies after.watches(c) by {
            assert(model.watches(c));
        }
    }
}

// ---------------------------------------------------------------------------------------
// Records of what is sent
// ---------------------------------------------------------------------------------------

/// Recording the messages of a packet that is not acknowledged yet keeps the records in order.
pub proof fn lemma_record_acks_wf(
    model: ManagerModel,
    packet: u16,
    added: Seq<(NetId, MessageAck)>,
)
    requires
        model.registry.wf(),
        model.acks_wf(),
        model.header.sent_not_acked.contains_key(packet),
        forall|i: int|
            0 <= i < added.len() ==> (#[trigger] added[i]).0 < model.registry.kinds.len(),
    ensures
        (ManagerModel {
            acks: record_acks(model.acks, model.registry, packet, added),
            ..model
        }).acks_wf(),
    decreases added.len(),
{
    if added.len() > 0 {
        lemma_record_acks_wf(model, packet, added.drop_last());
        let before = record_acks(model.acks, model.registry, packet, added.drop_last());
        let (net_id, ack) = added.last();
        let kind = model.registry.kinds[net_id as int];
        lemma_net_id(model.registry, net_id as int);
        let after = ManagerModel {
            acks: record_acks(model.acks, model.registry, packet, added),
            ..model
        };
        if watched(model.registry, net_id) {
            assert(after.acks == record(before, packet, kind, ack));
            let middle = ManagerModel { acks: before, ..model };
            assert forall|p: u16| #[trigger] after.acks.contains_key(p) implies {
                &&& after.header.sent_not_acked.contains_key(p)
                &&& forall|k: ChannelKind| #[trigger]
                    after.acks[p].contains_key(k) ==> after.watches(k)
            } by {
                if p != packet {
                    assert(middle.acks.contains_key(p));
                }
                assert forall|k: ChannelKind| #[trigger]
                    after.acks[p].contains_key(k) implies after.watches(k) by {
                    if p != packet {
                        assert(middle.acks[p].contains_key(k));
                        assert(middle.watches(k));
                    } else if k != kind {
                        assert(middle.acks.contains_key(p));
                        assert(middle.acks[p].contains_key(k));
                        assert(middle.watches(k));
                    }
                }
            }
        }
    }
}

/// The acknowledgements that messages ask for name the channels of the messages.
pub proof fn lemma_items_acks(items: Seq<(NetId, MessageModel)>, n: int)
    requires
        forall|i: int| 0 <= i < items.len() ==> (#[trigger] items[i]).0 < n,
    ensures
        forall|i: int| 0 <= i < items_acks(items).len() ==> (#[trigger] items_acks(items)[i]).0 < n,
    decreases items.len(),
{
    if items.len() > 0 {
        lemma_items_acks(items.drop_last(), n);
        let before = items_acks(items.drop_last());
        assert forall|i: int| 0 <= i < items_acks(items).len() implies (#[trigger] items_acks(
            items,
        )[i]).0 < n by {
            if i < before.len() {
                assert(items_acks(items)[i] == before[i]);
            } else {
                assert(items_acks(items)[i].0 == items[items.len() - 1].0);
            }
        }
    }
}

/// A packet that was sent is not acknowledged until a header acknowledges it.
pub proof fn lemma_sent(header: HeaderModel, n: nat)
    ensures
        forall|p: u16| #[trigger]
            header.sent_not_acked.contains_key(p) ==> header.sent(n).sent_not_acked.contains_key(p),
        forall|k: nat| k < n ==> #[trigger] header.sent(n).sent_not_acked.contains_key(
            header.sent(k).next_packet_id.0,
        ),
        header.sent(n).last_recv == header.last_recv,
        header.sent(n).recv_bitfield == header.recv_bitfield,
        header.sent(n).now == header.now,
        header.sent(n).next_packet_id == PacketId(header.next_packet_id.0.wrapping_add(
            (n % 65536) as u16,
        )),
    decreases n,
{
    if n > 0 {
        lemma_sent(header, (n - 1) as nat);
    }
}

/// Recording packets that are not acknowledged yet keeps the records in order.
pub proof fn lemma_record_packets_wf(model: ManagerModel, packets: Seq<PacketModel>)
    requires
        model.registry.wf(),
        model.acks_wf(),
        forall|k: int|
            0 <= k < packets.len() ==> {
                let packet = #[trigger] packets[k];
                &&& model.header.sent_not_acked.contains_key(packet.header.packet_id.0)
                &&& in_registry(packet.data, model.registry)
            },
    ensures
        (ManagerModel {
            acks: record_packets(model.acks, model.registry, packets),
            ..model
        }).acks_wf(),
    decreases packets.len(),
{
    if packets.len() > 0 {
        let rest = packets.drop_last();
        assert forall|k: int| 0 <= k < rest.len() implies {
            let packet = #[trigger] rest[k];
            &&& model.header.sent_not_acked.contains_key(packet.header.packet_id.0)
            &&& in_registry(packet.data, model.registry)
        } by {
            assert(rest[k] == packets[k]);
        }
        lemma_record_packets_wf(model, rest);
        let last = packets[packets.len() - 1];
        lemma_items_acks(last.data, model.registry.kinds.len() as int);
        lemma_record_acks_wf(
            ManagerModel { acks: record_packets(model.acks, model.registry, rest), ..model },
            last.header.packet_id.0,
            items_acks(last.data),
        );
    }
}

/// Sending keeps a manager in order.
pub proof fn lemma_after_send_wf(model: ManagerModel, tick: Tick)
    requires
        model.wf(),
    ensures
        model.after_send(tick).wf(),
{
    let after = model.after_send(tick);
    let packets = model.packets(tick);
    let n = packets.len();
    lemma_packets(model, tick);
    lemma_sent(model.header, n);
    let sent = ManagerModel { header: after.header, ..model };
    assert(sent.acks_wf()) by {
        assert forall|packet: u16| #[trigger] sent.acks.contains_key(packet) implies {
            &&& sent.header.sent_not_acked.contains_key(packet)
            &&& forall|kind: ChannelKind| #[trigger]
                sent.acks[packet].contains_key(kind) ==> sent.watches(kind)
        } by {
            assert(model.acks.contains_key(packet));
            assert forall|kind: ChannelKind| #[trigger]
                sent.acks[packet].contains_key(kind) implies sent.watches(kind) by {
                assert(model.watches(kind));
            }
        }
    }
    assert forall|k: int| 0 <= k < packets.len() implies {
        let packet = #[trigger] packets[k];
        &&& sent.header.sent_not_acked.contains_key(packet.header.packet_id.0)
        &&& in_registry(packet.data, sent.registry)
    } by {
        assert(packets[k].header.packet_id == model.header.sent(k as nat).next_packet_id);
    }
    lemma_record_packets_wf(sent, packets);
    let recorded = ManagerModel {
        acks: record_packets(sent.acks, sent.registry, packets),
        ..sent
    };
    assert(after.acks_wf()) by {
        assert forall|packet: u16| #[trigger] after.acks.contains_key(packet) implies {
            &&& after.header.sent_not_acked.contains_key(packet)
            &&& forall|kind: ChannelKind| #[trigger]
                after.acks[packet].contains_key(kind) ==> after.watches(kind)
        } by {
            assert(recorded.acks.contains_key(packet));
            assert forall|kind: ChannelKind| #[trigger]
                after.acks[packet].contains_key(kind) implies after.watches(kind) by {
                assert(recorded.watches(kind));
            }
        }
    }
    assert forall|i: int| 0 <= i < after.senders.len() implies {
        let sender = #[trigger] after.senders[i];
        sender.wf() && sender.idle() && sender.serves(after.registry.settings[i].mode)
    } by {
        lemma_collect_wf(model.senders[i]);
    }
    assert forall|i: int| 0 <= i < after.receivers.len() implies {
        let receiver = #[trigger] after.receivers[i];
        receiver.wf() && receiver.serves(after.registry.settings[i].mode)
    } by {
        assert(model.receivers[i].wf());
    }
}

// ---------------------------------------------------------------------------------------
// What is received
// ---------------------------------------------------------------------------------------

/// No packet is acknowledged twice by one header.
pub proof fn lemma_newly_acked(header: HeaderModel, received: PacketHeader)
    ensures
        header.newly_acked(received).no_duplicates(),
        forall|id: PacketId| #[trigger]
            header.newly_acked(received).contains(id) <==> received.acks(id)
                && header.sent_not_acked.contains_key(id.0),
{
    match received.last_ack_packet_id {
        None => {},
        Some(last) => {
            let n = ACK_BITFIELD_SIZE as nat + 1;
            let all = packets_back_from(last, n);
            let pred = |id: PacketId|
                received.acks(id) && header.sent_not_acked.contains_key(id.0);
            assert(all.no_duplicates()) by {
                assert forall|i: int, j: int|
                    0 <= i < all.len() && 0 <= j < all.len() && i != j implies all[i] != all[j] by {
                    if last.0.wrapping_sub(i as u16) == last.0.wrapping_sub(j as u16) {
                        assert(false);
                    }
                }
            }
            lemma_filter_no_duplicates(all, pred);
            assert forall|id: PacketId| #[trigger]
                header.newly_acked(received).contains(id) <==> received.acks(id)
                    && header.sent_not_acked.contains_key(id.0) by {
                if header.newly_acked(received).contains(id) {
                    let i = choose|i: int|
                        0 <= i < all.filter(pred).len() && all.filter(pred)[i] == id;
                    all.lemma_filter_pred(pred, i);
                }
                if received.acks(id) && header.sent_not_acked.contains_key(id.0) {
                    let distance = last.0.wrapping_sub(id.0);
                    assert(all[distance as int] == id);
                    all.lemma_filter_contains(pred, distance as int);
                }
            }
        },
    }
}

proof fn lemma_filter_no_duplicates<A>(s: Seq<A>, pred: spec_fn(A) -> bool)
    requires
        s.no_duplicates(),
    ensures
        s.filter(pred).no_duplicates(),
    decreases s.len(),
{
    reveal(Seq::filter);
    if s.len() > 0 {
        let rest = s.drop_last();
        lemma_filter_no_duplicates(rest, pred);
        if pred(s.last()) {
            let f = rest.filter(pred);
            assert(!f.contains(s.last())) by {
                if f.contains(s.last()) {
                    rest.lemma_filter_contains_rev(pred, s.last());
                    let i = choose|i: int| 0 <= i < rest.len() && rest[i] == s.last();
                    assert(s[i] == s[s.len() - 1]);
                }
            }
            assert forall|i: int, j: int|
                0 <= i < f.push(s.last()).len() && 0 <= j < f.push(s.last()).len() && i
                    != j implies f.push(s.last())[i] != f.push(s.last())[j] by {
                if i == f.len() {
                    assert(f.contains(f[j]));
                } else if j == f.len() {
                    assert(f.contains(f[i]));
                }
            }
        }
    }
}

/// Telling a sender about acknowledgements in two portions is telling it about all of them.
pub proof fn lemma_notify_all(sender: SenderModel, a: Seq<MessageAck>, b: Seq<MessageAck>)
    ensures
        sender.notify_all(a + b) == sender.notify_all(a).notify_all(b),
    decreases b.len(),
{
    if b.len() == 0 {
        assert(a + b =~= a);
    } else {
        assert((a + b).drop_last() =~= a + b.drop_last());
        assert((a + b).last() == b.last());
        lemma_notify_all(sender, a, b.drop_last());
    }
}

/// Acknowledgements keep a sender in order.
pub proof fn lemma_notify_all_wf(
    sender: SenderModel,
    acks: Seq<MessageAck>,
    settings: ChannelSettings,
)
    requires
        sender.wf() && sender.idle() && sender.serves(settings.mode),
    ensures
        ({
            let after = sender.notify_all(acks);
            after.wf() && after.idle() && after.serves(settings.mode)
        }),
    decreases acks.len(),
{
    if acks.len() > 0 {
        lemma_notify_all_wf(sender, acks.drop_last(), settings);
        let before = sender.notify_all(acks.drop_last());
        match before {
            SenderModel::Unreliable(model) => {},
            SenderModel::Reliable(model) => {
                crate::channel::reliable_sender::lemma_notify_wf(model, acks.last());
            },
        }
    }
}

/// Acknowledgements keep a manager in order.
pub proof fn lemma_notified_wf(model: ManagerModel, header: PacketHeader)
    requires
        model.wf(),
    ensures
        model.notified(header).wf(),
{
    let after = model.notified(header);
    let acked = model.header.newly_acked(header);
    assert forall|i: int| 0 <= i < after.senders.len() implies {
        let sender = #[trigger] after.senders[i];
        sender.wf() && sender.idle() && sender.serves(after.registry.settings[i].mode)
    } by {
        assert(model.senders[i].wf());
        lemma_notify_all_wf(
            model.senders[i],
            acks_in(model.acks, acked, model.registry.kinds[i]),
            model.registry.settings[i],
        );
    }
    assert forall|packet: u16| #[trigger] after.acks.contains_key(packet) implies {
        &&& after.header.sent_not_acked.contains_key(packet)
        &&& forall|kind: ChannelKind| #[trigger]
            after.acks[packet].contains_key(kind) ==> after.watches(kind)
    } by {
        assert(model.acks.contains_key(packet));
        assert forall|kind: ChannelKind| #[trigger]
            after.acks[packet].contains_key(kind) implies after.watches(kind) by {
            assert(model.acks[packet].contains_key(kind));
            assert(model.watches(kind));
        }
    }
}

/// Messages keep the receivers in order.
pub proof fn lemma_deliver_wf(
    model: ManagerModel,
    items: Seq<(NetId, MessageModel)>,
    tick: Tick,
)
    requires
        model.receivers.len() == model.registry.settings.len(),
        model.receivers_wf(),
    ensures
        deliver(model.receivers, items, tick).0.len() == model.receivers.len(),
        (ManagerModel {
            receivers: deliver(model.receivers, items, tick).0,
            ..model
        }).receivers_wf(),
    decreases items.len(),
{
    if items.len() > 0 {
        let (net_id, message) = items[0];
        if net_id < model.receivers.len() && model.receivers[net_id as int].error(message) is None {
            let receiver = model.receivers[net_id as int];
            lemma_receive_wf(receiver, message.stamped(tick));
            let next = ManagerModel {
                receivers: model.receivers.update(
                    net_id as int,
                    receiver.receive(message.stamped(tick)),
                ),
                ..model
            };
            assert(next.receivers_wf());
            lemma_deliver_wf(next, items.drop_first(), tick);
        }
    }
}

/// A change of the receivers alone keeps the rest of a manager in order.
pub proof fn lemma_acks_kept(before: ManagerModel, after: ManagerModel)
    requires
        before.wf(),
        after == (ManagerModel { receivers: after.receivers, ..before }),
        after.receivers.len() == before.receivers.len(),
        after.receivers_wf(),
    ensures
        after.wf(),
{
    assert forall|i: int| 0 <= i < after.senders.len() implies {
        let sender = #[trigger] after.senders[i];
        sender.wf() && sender.idle() && sender.serves(after.registry.settings[i].mode)
    } by {
        assert(before.senders[i].wf());
    }
    assert forall|packet: u16| #[trigger] after.acks.contains_key(packet) implies {
        &&& after.header.sent_not_acked.contains_key(packet)
        &&& forall|kind: ChannelKind| #[trigger]
            after.acks[packet].contains_key(kind) ==> after.watches(kind)
    } by {
        assert(before.acks.contains_key(packet));
        assert forall|kind: ChannelKind| #[trigger]
            after.acks[packet].contains_key(kind) implies after.watches(kind) by {
            assert(before.watches(kind));
        }
    }
}

/// A packet keeps a manager in order.
pub proof fn lemma_receive_packet_wf(model: ManagerModel, packet: PacketModel)
    requires
        model.wf(),
    ensures
        model.receive(packet).wf(),
{
    let notified = model.notified(packet.header);
    lemma_notified_wf(model, packet.header);
    lemma_deliver_wf(notified, packet.data, packet.header.tick);
    lemma_acks_kept(notified, model.receive(packet));
}

/// Reading `n` messages takes the first `n` of those that can be read.
pub proof fn lemma_read(receiver: ReceiverModel, n: nat)
    requires
        receiver.wf(),
        n <= receiver.ready().len(),
    ensures
        receiver.read(n).wf(),
        receiver.read(n).ready() == receiver.ready().skip(n as int),
        receiver is Ordered <==> receiver.read(n) is Ordered,
        n < receiver.ready().len() ==> receiver.read(n + 1) == receiver.read(n).read_one(),
    decreases n,
{
    reveal_with_fuel(ReceiverModel::read, 2);
    if n == 0 {
        assert(receiver.ready().skip(0) =~= receiver.ready());
    } else {
        crate::channel::receiver::lemma_read_one(receiver);
        let next = receiver.read_one();
        lemma_read(next, (n - 1) as nat);
        assert(receiver.ready().drop_first().skip(n - 1) =~= receiver.ready().skip(n as int));
    }
}

/// Messages that can all be decoded give no reason to fail.
pub proof fn lemma_decodable<M: BitSerializable>(messages: Seq<SingleModel>)
    requires
        forall|j: int|
            0 <= j < messages.len() ==> M::decode_error((#[trigger] messages[j]).bytes) is None,
    ensures
        decode_failure::<M>(messages) is None,
    decreases messages.len(),
{
    if messages.len() > 0 {
        let rest = messages.drop_last();
        assert forall|j: int| 0 <= j < rest.len() implies M::decode_error(
            (#[trigger] rest[j]).bytes,
        ) is None by {
            assert(rest[j] == messages[j]);
        }
        lemma_decodable::<M>(rest);
        assert(messages.last() == messages[messages.len() - 1]);
    }
}

/// Receivers whose messages can all be decoded give no reason to fail.
pub proof fn lemma_channels_decodable<M: BitSerializable>(model: ManagerModel, n: int)
    requires
        model.decodable::<M>(),
        0 <= n <= model.receivers.len(),
    ensures
        channels_decode_failure::<M>(model.receivers.take(n)) is None,
    decreases n,
{
    if n > 0 {
        lemma_channels_decodable::<M>(model, n - 1);
        assert(model.receivers.take(n).drop_last() =~= model.receivers.take(n - 1));
        assert(model.receivers.take(n).last() == model.receivers[n - 1]);
        let messages = model.receivers[n - 1].ready();
        assert forall|j: int| 0 <= j < messages.len() implies M::decode_error(
            (#[trigger] messages[j]).bytes,
        ) is None by {
            assert(model.receivers[n - 1].ready()[j] == messages[j]);
        }
        lemma_decodable::<M>(messages);
    }
}

} // verus!
