//! Acknowledgements: from the packets that arrive to the records of what was sent.
use vstd::prelude::*;

use crate::ack_map::{
    acks_for, acks_in, lemma_record_acks, record_acks, record_packets, recorded, watched, AckModel,
};
use crate::channel::registry::{lemma_kind, lemma_net_id, RegistryModel};
use crate::channel::settings::ChannelMode;
use crate::header::{advanced, bit, HeaderModel, PacketHeader, ACK_BITFIELD_SIZE};
use crate::ids::{ChannelKind, NetId, PacketId, Tick};
use crate::laws::delivery::{channel_items, lemma_channel_items_push, receive_all};
use crate::manager_model::{in_registry, lemma_newly_acked, lemma_packets, lemma_sent, ManagerModel};
use crate::message::{MessageAck, MessageModel};
use crate::packet::{items_acks, PacketModel};

verus! {

// ---------------------------------------------------------------------------------------
// Which packets of the remote arrived
// ---------------------------------------------------------------------------------------

/// Whether the packet `id` is recent enough to be acknowledged when `last` is the last packet.
pub open spec fn in_window(last: Option<PacketId>, id: PacketId) -> bool {
    match last {
        None => false,
        Some(l) => l.0.wrapping_sub(id.0) <= ACK_BITFIELD_SIZE,
    }
}

/// Whether the packet `id` is more recent than all that were received.
pub open spec fn is_newer(last: Option<PacketId>, id: PacketId) -> bool {
    match last {
        None => true,
        Some(l) => 0 < id.0.wrapping_sub(l.0) < 32768,
    }
}

proof fn lemma_advanced_bits(field: u32, ahead: u16, j: u32)
    requires
        0 < ahead < 32,
        j < 32,
    ensures
        bit(advanced(field, ahead), j) <==> j == ahead - 1 || (j >= ahead && bit(
            field,
            (j - ahead) as u32,
        )),
{
    let a = ahead as u32;
    assert(bit((field << a) | (1u32 << ((a - 1) as u32)), j) <==> j == a - 1 || (j >= a && bit(
        field,
        (j - a) as u32,
    ))) by (bit_vector)
        requires
            0 < a < 32,
            j < 32,
    ;
}

/// After a packet of the remote was received, the packets that are acknowledged are that packet
/// and those that were acknowledged before, as far as they are recent enough.
pub proof fn law_received_packets(header: HeaderModel, id: PacketId, other: PacketId)
    ensures
        header.receive(id).has_received(other) <==> (other == id || header.has_received(other))
            && in_window(header.receive(id).last_recv, other),
        header.receive(id).last_recv == if is_newer(header.last_recv, id) {
            Some(id)
        } else {
            header.last_recv
        },
{
    let after = header.receive(id);
    match header.last_recv {
        None => {
            let d = id.0.wrapping_sub(other.0);
            if 0 < d <= 32 {
                let j = (d - 1) as u32;
                assert(!bit(0u32, j)) by (bit_vector)
                    requires
                        j < 32,
                ;
            }
        },
        Some(last) => {
            let ahead = id.0.wrapping_sub(last.0);
            let behind = last.0.wrapping_sub(id.0);
            let field = header.recv_bitfield;
            if 0 < ahead < 32768 {
                let d = id.0.wrapping_sub(other.0);
                if 0 < d <= 32 {
                    let j = (d - 1) as u32;
                    if ahead < 32 {
                        lemma_advanced_bits(field, ahead, j);
                    } else if ahead == 32 {
                        assert(bit(1u32 << 31, j) <==> j == 31) by (bit_vector)
                            requires
                                j < 32,
                        ;
                    } else {
                        assert(!bit(0u32, j)) by (bit_vector)
                            requires
                                j < 32,
                        ;
                    }
                }
            } else if 0 < behind <= ACK_BITFIELD_SIZE {
                let d = last.0.wrapping_sub(other.0);
                let b = (behind - 1) as u32;
                if 0 < d <= 32 {
                    let j = (d - 1) as u32;
                    assert(bit(field | (1u32 << b), j) <==> bit(field, j) || j == b) by (bit_vector)
                        requires
                            j < 32,
                            b < 32,
                    ;
                }
            }
        },
    }
}

/// Every packet that is sent acknowledges exactly the packets of the remote that were received
/// recently.
pub proof fn law_packets_acknowledge(model: ManagerModel, tick: Tick, k: int, id: PacketId)
    requires
        0 <= k < model.packets(tick).len(),
    ensures
        model.packets(tick)[k].header.acks(id) <==> model.header.has_received(id),
{
    lemma_sent(model.header, k as nat);
}

// ---------------------------------------------------------------------------------------
// Numbers of packets
// ---------------------------------------------------------------------------------------

/// The packets that are sent are numbered one after the other, bear the tick, and are not
/// acknowledged yet.
pub proof fn law_packets_are_numbered(model: ManagerModel, tick: Tick)
    ensures
        forall|k: int|
            0 <= k < model.packets(tick).len() ==> {
                let header = (#[trigger] model.packets(tick)[k]).header;
                &&& header.packet_id == PacketId(
                    model.header.next_packet_id.0.wrapping_add((k % 65536) as u16),
                )
                &&& header.tick == tick
                &&& model.after_send(tick).header.sent_not_acked.contains_key(header.packet_id.0)
            },
        model.after_send(tick).header.next_packet_id == PacketId(
            model.header.next_packet_id.0.wrapping_add(
                (model.packets(tick).len() % 65536) as u16,
            ),
        ),
        forall|p: u16| #[trigger]
            model.header.sent_not_acked.contains_key(p)
                ==> model.after_send(tick).header.sent_not_acked.contains_key(p),
{
    let n = model.packets(tick).len();
    lemma_sent(model.header, n);
    assert forall|k: int| 0 <= k < n implies {
        let header = (#[trigger] model.packets(tick)[k]).header;
        &&& header.packet_id == PacketId(
            model.header.next_packet_id.0.wrapping_add((k % 65536) as u16),
        )
        &&& header.tick == tick
        &&& model.after_send(tick).header.sent_not_acked.contains_key(header.packet_id.0)
    } by {
        lemma_sent(model.header, k as nat);
        assert(model.header.sent(n).sent_not_acked.contains_key(
            model.header.sent(k as nat).next_packet_id.0,
        ));
    }
}

// ---------------------------------------------------------------------------------------
// What was sent in which packet
// ---------------------------------------------------------------------------------------

/// The acknowledgements that `messages` ask for, in order.
pub open spec fn acks_of(messages: Seq<MessageModel>) -> Seq<MessageAck>
    decreases messages.len(),
{
    if messages.len() == 0 {
        Seq::empty()
    } else {
        let rest = acks_of(messages.drop_last());
        match messages.last().ack() {
            Some(ack) => rest.push(ack),
            None => rest,
        }
    }
}

/// The acknowledgements that a packet asks for on one channel are those of the channel's
/// messages.
proof fn lemma_acks_for(
    registry: RegistryModel,
    items: Seq<(NetId, MessageModel)>,
    kind: ChannelKind,
)
    requires
        registry.wf(),
        registry.kinds.contains(kind),
        in_registry(items, registry),
    ensures
        acks_for(registry, items_acks(items), kind) == if watched(registry, registry.net_id(kind)) {
            acks_of(channel_items(items, registry.net_id(kind)))
        } else {
            Seq::empty()
        },
    decreases items.len(),
{
    let net_id = registry.net_id(kind);
    if items.len() > 0 {
        let rest = items.drop_last();
        let (tag, message) = items[items.len() - 1];
        assert forall|i: int| 0 <= i < rest.len() implies (#[trigger] rest[i]).0
            < registry.kinds.len() by {
            assert(rest[i] == items[i]);
        }
        lemma_acks_for(registry, rest, kind);
        lemma_channel_items_push(rest, items.last(), net_id);
        assert(rest.push(items.last()) =~= items);
        lemma_net_id(registry, tag as int);
        lemma_kind(registry, kind);
        let own = channel_items(rest, net_id);
        assert(own.push(message).drop_last() =~= own);
        let before = items_acks(rest);
        match message.ack() {
            Some(ack) => {
                assert(before.push((tag, ack)).drop_last() =~= before);
            },
            None => {},
        }
    }
}

/// What the packets with this number carry for one channel, in the order the packets are sent.
pub open spec fn carried(packets: Seq<PacketModel>, id: u16, net_id: NetId) -> Seq<MessageModel>
    decreases packets.len(),
{
    if packets.len() == 0 {
        Seq::empty()
    } else {
        let before = carried(packets.drop_last(), id, net_id);
        if packets.last().header.packet_id.0 == id {
            before + channel_items(packets.last().data, net_id)
        } else {
            before
        }
    }
}

proof fn lemma_acks_of_concat(a: Seq<MessageModel>, b: Seq<MessageModel>)
    ensures
        acks_of(a + b) == acks_of(a) + acks_of(b),
    decreases b.len(),
{
    if b.len() == 0 {
        assert(a + b =~= a);
        assert(acks_of(a) + acks_of(b) =~= acks_of(a));
    } else {
        lemma_acks_of_concat(a, b.drop_last());
        assert((a + b).drop_last() =~= a + b.drop_last());
        assert((a + b).last() == b.last());
        assert(acks_of(a + b) =~= acks_of(a) + acks_of(b));
    }
}

proof fn lemma_recorded_packets(
    acks: AckModel,
    registry: RegistryModel,
    packets: Seq<PacketModel>,
    id: u16,
    kind: ChannelKind,
)
    requires
        registry.wf(),
        registry.kinds.contains(kind),
        forall|k: int|
            0 <= k < packets.len() ==> in_registry((#[trigger] packets[k]).data, registry),
    ensures
        recorded(record_packets(acks, registry, packets), id, kind) == recorded(acks, id, kind)
            + if watched(registry, registry.net_id(kind)) {
            acks_of(carried(packets, id, registry.net_id(kind)))
        } else {
            Seq::empty()
        },
    decreases packets.len(),
{
    let start = recorded(acks, id, kind);
    let net_id = registry.net_id(kind);
    if packets.len() == 0 {
        assert(start + Seq::<MessageAck>::empty() =~= start);
    } else {
        let rest = packets.drop_last();
        let last = packets[packets.len() - 1];
        assert(packets.last() == last);
        assert forall|k: int| 0 <= k < rest.len() implies in_registry(
            (#[trigger] rest[k]).data,
            registry,
        ) by {
            assert(rest[k] == packets[k]);
        }
        lemma_recorded_packets(acks, registry, rest, id, kind);
        let before = record_packets(acks, registry, rest);
        lemma_record_acks(
            before,
            registry,
            last.header.packet_id.0,
            items_acks(last.data),
            id,
            kind,
        );
        lemma_acks_for(registry, last.data, kind);
        let own = channel_items(last.data, net_id);
        let earlier = carried(rest, id, net_id);
        lemma_acks_of_concat(earlier, own);
        assert(start + acks_of(earlier) + acks_of(own) =~= start + (acks_of(earlier) + acks_of(
            own,
        )));
        assert(recorded(before, id, kind) + Seq::<MessageAck>::empty() =~= recorded(
            before,
            id,
            kind,
        ));
    }
}

/// A channel wants to know which messages arrived if it is reliable, or unreliable with
/// acknowledgements. What is no channel wants to know nothing.
pub proof fn law_channels_that_watch(model: ManagerModel, i: int, other: ChannelKind)
    requires
        model.registry.wf(),
        0 <= i < model.registry.kinds.len(),
        forall|k: int|
            0 <= k < model.registry.kinds.len() ==> #[trigger] model.registry.kinds[k] != other,
    ensures
        model.watches(model.registry.kinds[i]) == match model.registry.settings[i].mode {
            ChannelMode::UnorderedUnreliable => false,
            ChannelMode::UnorderedUnreliableWithAcks => true,
            ChannelMode::OrderedReliable(_) => true,
        },
        !model.watches(other),
{
    lemma_net_id(model.registry, i);
}

/// After packets were sent, what is recorded under each number is, on each channel that wants to
/// know which messages arrived, what was recorded before, and behind it what the packets with that
/// number carry for the channel. Nothing is recorded on the other channels.
pub proof fn law_sent_messages_are_recorded(
    model: ManagerModel,
    tick: Tick,
    kind: ChannelKind,
    id: u16,
)
    requires
        model.wf(),
        model.registry.kinds.contains(kind),
    ensures
        recorded(model.after_send(tick).acks, id, kind) == recorded(model.acks, id, kind)
            + if model.watches(kind) {
            acks_of(carried(model.packets(tick), id, model.registry.net_id(kind)))
        } else {
            Seq::empty()
        },
{
    lemma_packets(model, tick);
    lemma_recorded_packets(model.acks, model.registry, model.packets(tick), id, kind);
}

proof fn lemma_carried(packets: Seq<PacketModel>, id: u16, net_id: NetId)
    requires
        forall|i: int, j: int|
            0 <= i < j < packets.len() ==> (#[trigger] packets[i]).header.packet_id
                != (#[trigger] packets[j]).header.packet_id,
    ensures
        (forall|k: int|
            0 <= k < packets.len() ==> (#[trigger] packets[k]).header.packet_id.0 != id) ==> carried(
            packets,
            id,
            net_id,
        ) == Seq::<MessageModel>::empty(),
        forall|k: int|
            0 <= k < packets.len() && (#[trigger] packets[k]).header.packet_id.0 == id ==> carried(
                packets,
                id,
                net_id,
            ) == channel_items(packets[k].data, net_id),
    decreases packets.len(),
{
    if packets.len() > 0 {
        let rest = packets.drop_last();
        let last = packets[packets.len() - 1];
        assert(packets.last() == last);
        assert forall|i: int, j: int| 0 <= i < j < rest.len() implies (
        #[trigger] rest[i]).header.packet_id != (#[trigger] rest[j]).header.packet_id by {
            assert(rest[i] == packets[i] && rest[j] == packets[j]);
        }
        lemma_carried(rest, id, net_id);
        if last.header.packet_id.0 == id {
            assert forall|k: int| 0 <= k < rest.len() implies (
            #[trigger] rest[k]).header.packet_id.0 != id by {
                assert(rest[k] == packets[k]);
            }
            let own = channel_items(last.data, net_id);
            assert(Seq::<MessageModel>::empty() + own =~= own);
            assert forall|k: int|
                0 <= k < packets.len() && (#[trigger] packets[k]).header.packet_id.0
                    == id implies carried(packets, id, net_id) == channel_items(
                packets[k].data,
                net_id,
            ) by {
                if k < rest.len() {
                    assert(rest[k] == packets[k]);
                }
            }
        } else {
            assert forall|k: int|
                0 <= k < packets.len() && (#[trigger] packets[k]).header.packet_id.0
                    == id implies carried(packets, id, net_id) == channel_items(
                packets[k].data,
                net_id,
            ) by {
                assert(rest[k] == packets[k]);
            }
            if forall|k: int|
                0 <= k < packets.len() ==> (#[trigger] packets[k]).header.packet_id.0 != id {
                assert forall|k: int| 0 <= k < rest.len() implies (
                #[trigger] rest[k]).header.packet_id.0 != id by {
                    assert(rest[k] == packets[k]);
                }
            }
        }
    }
}

/// As long as no number is used twice, what the packets with a number carry is what the one packet
/// with that number carries, or nothing where there is none.
pub proof fn law_numbers_tell_packets_apart(
    model: ManagerModel,
    tick: Tick,
    id: u16,
    net_id: NetId,
)
    requires
        model.packets(tick).len() <= 65536,
    ensures
        forall|k: int|
            0 <= k < model.packets(tick).len() && (#[trigger] model.packets(
                tick,
            )[k]).header.packet_id.0 == id ==> carried(model.packets(tick), id, net_id)
                == channel_items(model.packets(tick)[k].data, net_id),
        (forall|k: int|
            0 <= k < model.packets(tick).len() ==> (#[trigger] model.packets(
                tick,
            )[k]).header.packet_id.0 != id) ==> carried(model.packets(tick), id, net_id)
            == Seq::<MessageModel>::empty(),
{
    let packets = model.packets(tick);
    law_packets_are_numbered(model, tick);
    assert forall|i: int, j: int| 0 <= i < j < packets.len() implies (
    #[trigger] packets[i]).header.packet_id != (#[trigger] packets[j]).header.packet_id by {
        let start = model.header.next_packet_id.0;
        let a = (i % 65536) as u16;
        let b = (j % 65536) as u16;
        assert(a != b);
        assert(start.wrapping_add(a) != start.wrapping_add(b));
    }
    lemma_carried(packets, id, net_id);
}

/// Whether nothing is recorded without need: every packet that is recorded has a channel, and
/// every channel of it has a message.
pub open spec fn is_tidy(acks: AckModel) -> bool {
    forall|id: u16| #[trigger] acks.contains_key(id) ==> is_packet_tidy(acks[id])
}

/// Whether the records of one packet are tidy.
pub open spec fn is_packet_tidy(channels: Map<ChannelKind, Seq<MessageAck>>) -> bool {
    &&& exists|kind: ChannelKind| #[trigger] channels.contains_key(kind)
    &&& forall|kind: ChannelKind| #[trigger]
        channels.contains_key(kind) ==> channels[kind].len() > 0
}

proof fn lemma_record_acks_tidy(
    acks: AckModel,
    registry: RegistryModel,
    packet: u16,
    added: Seq<(NetId, MessageAck)>,
)
    requires
        is_tidy(acks),
    ensures
        is_tidy(record_acks(acks, registry, packet, added)),
    decreases added.len(),
{
    if added.len() > 0 {
        lemma_record_acks_tidy(acks, registry, packet, added.drop_last());
        let before = record_acks(acks, registry, packet, added.drop_last());
        let after = record_acks(acks, registry, packet, added);
        let (net_id, ack) = added.last();
        let kind = registry.kinds[net_id as int];
        if watched(registry, net_id) {
            assert forall|id: u16| #[trigger] after.contains_key(id) implies is_packet_tidy(
                after[id],
            ) by {
                if id == packet {
                    assert(after[id].contains_key(kind));
                    assert forall|k: ChannelKind| #[trigger]
                        after[id].contains_key(k) implies after[id][k].len() > 0 by {
                        if k != kind {
                            assert(before.contains_key(id) && before[id].contains_key(k));
                        }
                    }
                } else {
                    assert(before.contains_key(id));
                }
            }
        }
    }
}

proof fn lemma_record_packets_tidy(
    acks: AckModel,
    registry: RegistryModel,
    packets: Seq<PacketModel>,
)
    requires
        is_tidy(acks),
    ensures
        is_tidy(record_packets(acks, registry, packets)),
    decreases packets.len(),
{
    if packets.len() > 0 {
        lemma_record_packets_tidy(acks, registry, packets.drop_last());
        lemma_record_acks_tidy(
            record_packets(acks, registry, packets.drop_last()),
            registry,
            packets.last().header.packet_id.0,
            items_acks(packets.last().data),
        );
    }
}

/// Nothing is recorded without need, from the start on: a packet that carries nothing that a
/// channel wants to know about is not recorded.
pub proof fn law_records_stay_tidy(
    model: ManagerModel,
    registry: RegistryModel,
    tick: Tick,
    header: PacketHeader,
)
    ensures
        is_tidy(ManagerModel::initial(registry).acks),
        is_tidy(model.acks) ==> is_tidy(model.after_send(tick).acks),
        is_tidy(model.acks) ==> is_tidy(model.notified(header).acks),
{
    if is_tidy(model.acks) {
        lemma_record_packets_tidy(model.acks, model.registry, model.packets(tick));
        let after = model.notified(header).acks;
        assert forall|id: u16| #[trigger] after.contains_key(id) implies is_packet_tidy(
            after[id],
        ) by {
            assert(model.acks.contains_key(id));
        }
    }
}

// ---------------------------------------------------------------------------------------
// What the remote acknowledges
// ---------------------------------------------------------------------------------------

/// A header that acknowledges a packet removes it from the packets that are not acknowledged,
/// and removes the records of what it carried. Nothing changes for the other packets.
pub proof fn law_acknowledged_packets_are_forgotten(
    model: ManagerModel,
    header: PacketHeader,
    id: PacketId,
)
    requires
        model.wf(),
    ensures
        header.acks(id) ==> {
            &&& !model.notified(header).header.sent_not_acked.contains_key(id.0)
            &&& !model.notified(header).acks.contains_key(id.0)
        },
        !header.acks(id) ==> {
            let after = model.notified(header);
            &&& after.header.sent_not_acked.contains_key(id.0)
                == model.header.sent_not_acked.contains_key(id.0)
            &&& after.acks.contains_key(id.0) == model.acks.contains_key(id.0)
            &&& model.acks.contains_key(id.0) ==> after.acks[id.0] == model.acks[id.0]
        },
{
    lemma_newly_acked(model.header, header);
    let acked = model.header.newly_acked(header);
    assert(acked.contains(id) <==> header.acks(id) && model.header.sent_not_acked.contains_key(
        id.0,
    ));
}

/// What is recorded of packets is what is recorded of one of them.
pub proof fn lemma_acks_in(acks: AckModel, packets: Seq<PacketId>, kind: ChannelKind, ack: MessageAck)
    ensures
        acks_in(acks, packets, kind).contains(ack) <==> exists|id: PacketId|
            packets.contains(id) && #[trigger] recorded(acks, id.0, kind).contains(ack),
    decreases packets.len(),
{
    let all = acks_in(acks, packets, kind);
    if packets.len() == 0 {
    } else {
        let rest = packets.drop_last();
        let last = packets.last();
        lemma_acks_in(acks, rest, kind, ack);
        let before = acks_in(acks, rest, kind);
        let own = recorded(acks, last.0, kind);
        if all.contains(ack) {
            let i = choose|i: int| 0 <= i < all.len() && all[i] == ack;
            if i < before.len() {
                assert(before[i] == ack);
                let id = choose|id: PacketId|
                    rest.contains(id) && #[trigger] recorded(acks, id.0, kind).contains(ack);
                let j = choose|j: int| 0 <= j < rest.len() && rest[j] == id;
                assert(packets[j] == id);
                assert(packets.contains(id));
            } else {
                assert(own[i - before.len()] == ack);
                assert(packets[packets.len() - 1] == last);
                assert(packets.contains(last));
                assert(own.contains(ack));
            }
        }
        if exists|id: PacketId|
            packets.contains(id) && #[trigger] recorded(acks, id.0, kind).contains(ack) {
            let id = choose|id: PacketId|
                packets.contains(id) && #[trigger] recorded(acks, id.0, kind).contains(ack);
            let j = choose|j: int| 0 <= j < packets.len() && packets[j] == id;
            if j < rest.len() {
                assert(rest[j] == id);
                assert(rest.contains(id));
                assert(before.contains(ack));
                let i = choose|i: int| 0 <= i < before.len() && before[i] == ack;
                assert(all[i] == ack);
            } else {
                let i = choose|i: int| 0 <= i < own.len() && own[i] == ack;
                assert(all[before.len() + i] == ack);
            }
        }
    }
}

/// A sender is told about exactly what is recorded of its channel in the packets that a header
/// acknowledges.
pub proof fn law_senders_are_told(
    model: ManagerModel,
    header: PacketHeader,
    kind: ChannelKind,
    ack: MessageAck,
)
    requires
        model.wf(),
    ensures
        acks_in(model.acks, model.header.newly_acked(header), kind).contains(ack) <==> exists|
            id: PacketId,
        |
            header.acks(id) && #[trigger] recorded(model.acks, id.0, kind).contains(ack),
{
    let acked = model.header.newly_acked(header);
    lemma_newly_acked(model.header, header);
    lemma_acks_in(model.acks, acked, kind, ack);
    if exists|id: PacketId|
        header.acks(id) && #[trigger] recorded(model.acks, id.0, kind).contains(ack) {
        let id = choose|id: PacketId|
            header.acks(id) && #[trigger] recorded(model.acks, id.0, kind).contains(ack);
        assert(model.acks.contains_key(id.0));
        assert(acked.contains(id));
    }
    if exists|id: PacketId|
        acked.contains(id) && #[trigger] recorded(model.acks, id.0, kind).contains(ack) {
        let id = choose|id: PacketId|
            acked.contains(id) && #[trigger] recorded(model.acks, id.0, kind).contains(ack);
        assert(header.acks(id));
    }
}

/// A packet is acknowledged once: a header that was processed acknowledges nothing more.
pub proof fn law_acknowledged_once(model: ManagerModel, header: PacketHeader)
    requires
        model.wf(),
    ensures
        model.notified(header).header.newly_acked(header).len() == 0,
{
    let after = model.notified(header).header;
    lemma_newly_acked(model.header, header);
    lemma_newly_acked(after, header);
    let again = after.newly_acked(header);
    if again.len() > 0 {
        assert(again.contains(again[0]));
        assert(model.header.newly_acked(header).contains(again[0]));
    }
}

// ---------------------------------------------------------------------------------------
// There and back
// ---------------------------------------------------------------------------------------

/// How far apart the numbers of two packets are.
proof fn lemma_number_distance(start: u16, a: nat, b: nat)
    requires
        a <= b <= a + ACK_BITFIELD_SIZE,
    ensures
        start.wrapping_add((b % 65536) as u16).wrapping_sub(
            start.wrapping_add((a % 65536) as u16),
        ) == b - a,
{
    let x = a % 65536;
    let y = b % 65536;
    let d = b - a;
    assert(y == if x + d < 65536 {
        x + d
    } else {
        x + d - 65536
    });
}

/// The number of a packet that is sent.
proof fn lemma_number(model: ManagerModel, tick: Tick, k: int)
    requires
        0 <= k < model.packets(tick).len(),
    ensures
        model.packets(tick)[k].header.packet_id == PacketId(
            model.header.next_packet_id.0.wrapping_add((k % 65536) as u16),
        ),
{
    law_packets_are_numbered(model, tick);
}

/// A manager that received the first `n` packets of what the remote sends acknowledges the most
/// recent of them.
pub proof fn law_received_run_is_acknowledged(
    sender: ManagerModel,
    receiver: ManagerModel,
    tick: Tick,
    n: nat,
    k: nat,
)
    requires
        k < n <= sender.packets(tick).len(),
        n - k <= ACK_BITFIELD_SIZE + 1,
        is_newer(receiver.header.last_recv, sender.header.next_packet_id),
    ensures
        ({
            let packets = sender.packets(tick);
            let after = receive_all(receiver, packets.take(n as int)).header;
            &&& after.last_recv == Some(packets[n - 1].header.packet_id)
            &&& after.has_received(packets[k as int].header.packet_id)
        }),
    decreases n,
{
    let packets = sender.packets(tick);
    let start = sender.header.next_packet_id.0;
    let before = receive_all(receiver, packets.take(n - 1)).header;
    let last = packets[n - 1].header.packet_id;
    let own = packets[k as int].header.packet_id;
    let after = receive_all(receiver, packets.take(n as int)).header;
    assert(after.last_recv == before.receive(last).last_recv && after.recv_bitfield
        == before.receive(last).recv_bitfield) by {
        assert(packets.take(n as int).drop_last() =~= packets.take(n - 1));
        assert(packets.take(n as int).last() == packets[n - 1]);
    }
    lemma_number(sender, tick, n - 1);
    lemma_number(sender, tick, k as int);
    lemma_number_distance(start, k, (n - 1) as nat);
    law_received_packets(before, last, own);
    if n == 1 {
        assert(packets.take(0) =~= Seq::empty());
        assert(is_newer(before.last_recv, last));
    } else {
        let m = (n - 1) as nat;
        let other = if k < m {
            k
        } else {
            (m - 1) as nat
        };
        law_received_run_is_acknowledged(sender, receiver, tick, m, other);
        lemma_number(sender, tick, m - 1);
        lemma_number_distance(start, (m - 1) as nat, m);
        assert(is_newer(before.last_recv, last));
    }
}

/// Any packet that a manager sends while it remembers a packet of the remote clears what the
/// remote recorded of that packet: nothing is recorded of it any more, and it does not count as
/// not acknowledged.
pub proof fn law_remembered_packet_is_acknowledged(
    remote: ManagerModel,
    answer_tick: Tick,
    i: int,
    sender: ManagerModel,
    id: PacketId,
)
    requires
        sender.wf(),
        remote.header.has_received(id),
        0 <= i < remote.packets(answer_tick).len(),
    ensures
        ({
            let answer = remote.packets(answer_tick)[i];
            let after = sender.receive(answer);
            &&& answer.header.acks(id)
            &&& !after.acks.contains_key(id.0)
            &&& !after.header.sent_not_acked.contains_key(id.0)
        }),
{
    let answer = remote.packets(answer_tick)[i];
    law_packets_acknowledge(remote, answer_tick, i, id);
    law_acknowledged_packets_are_forgotten(sender, answer.header, id);
}

/// The answer to packets acknowledges the most recent of them: once a manager received the packets
/// that another one sent, and the other one received any packet that is sent in return, nothing is
/// recorded of those packets any more, and none of them counts as not acknowledged. `remote` is the
/// manager that answers, whatever it did since it received the packets except receive more, and
/// `later` is the sender at any time.
pub proof fn law_answer_acknowledges(
    sender: ManagerModel,
    receiver: ManagerModel,
    tick: Tick,
    k: int,
    remote: ManagerModel,
    answer_tick: Tick,
    i: int,
    later: ManagerModel,
)
    requires
        is_newer(receiver.header.last_recv, sender.header.next_packet_id),
        0 <= k < sender.packets(tick).len(),
        sender.packets(tick).len() - k <= ACK_BITFIELD_SIZE + 1,
        remote.header.last_recv == receive_all(
            receiver,
            sender.packets(tick),
        ).header.last_recv,
        remote.header.recv_bitfield == receive_all(
            receiver,
            sender.packets(tick),
        ).header.recv_bitfield,
        0 <= i < remote.packets(answer_tick).len(),
        later.wf(),
    ensures
        ({
            let answer = remote.packets(answer_tick)[i];
            let id = sender.packets(tick)[k].header.packet_id;
            let after = later.receive(answer);
            &&& answer.header.acks(id)
            &&& !after.acks.contains_key(id.0)
            &&& !after.header.sent_not_acked.contains_key(id.0)
        }),
{
    let packets = sender.packets(tick);
    let id = packets[k].header.packet_id;
    assert(packets.take(packets.len() as int) =~= packets);
    law_received_run_is_acknowledged(sender, receiver, tick, packets.len(), k as nat);
    law_remembered_packet_is_acknowledged(remote, answer_tick, i, later, id);
}

} // verus!
