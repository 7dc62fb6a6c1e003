//! Which messages travel in which packets.
use std::collections::HashMap;
use vstd::prelude::*;

use crate::channel::registry::RegistryModel;
use crate::ids::{ChannelKind, NetId, PacketId};
use crate::message::MessageAck;
use crate::packet::{items_acks, PacketModel};

verus! {

broadcast use vstd::std_specs::hash::group_hash_axioms;

/// The messages that travel in each packet, by the number of the packet and the channel.
pub type MessageAckMap = HashMap<u16, HashMap<ChannelKind, Vec<MessageAck>>>;

/// Model of [`MessageAckMap`].
pub type AckModel = Map<u16, Map<ChannelKind, Seq<MessageAck>>>;

/// Model of the records of one packet.
pub open spec fn channel_acks_model(m: HashMap<ChannelKind, Vec<MessageAck>>) -> Map<
    ChannelKind,
    Seq<MessageAck>,
> {
    m@.map_values(|v: Vec<MessageAck>| v@)
}

/// The model of `m`.
pub open spec fn ack_model(m: MessageAckMap) -> AckModel {
    m@.map_values(|c: HashMap<ChannelKind, Vec<MessageAck>>| channel_acks_model(c))
}

/// What is recorded for the packet with number `packet` and the channel `kind`.
pub open spec fn recorded(acks: AckModel, packet: u16, kind: ChannelKind) -> Seq<MessageAck> {
    if acks.contains_key(packet) && acks[packet].contains_key(kind) {
        acks[packet][kind]
    } else {
        Seq::empty()
    }
}

/// The records with one more message.
pub open spec fn record(
    acks: AckModel,
    packet: u16,
    kind: ChannelKind,
    ack: MessageAck,
) -> AckModel {
    let channels = if acks.contains_key(packet) {
        acks[packet]
    } else {
        Map::empty()
    };
    acks.insert(packet, channels.insert(kind, recorded(acks, packet, kind).push(ack)))
}

/// Whether the channel with this net id wants to know which messages arrived.
pub open spec fn watched(registry: RegistryModel, net_id: NetId) -> bool {
    registry.settings[net_id as int].mode.watches_acks()
}

/// The records with the messages of a packet, as far as their channels want to know whether
/// they arrive.
pub open spec fn record_acks(
    acks: AckModel,
    registry: RegistryModel,
    packet: u16,
    added: Seq<(NetId, MessageAck)>,
) -> AckModel
    decreases added.len(),
{
    if added.len() == 0 {
        acks
    } else {
        let before = record_acks(acks, registry, packet, added.drop_last());
        let (net_id, ack) = added.last();
        if watched(registry, net_id) {
            record(before, packet, registry.kinds[net_id as int], ack)
        } else {
            before
        }
    }
}

/// The records with the messages of all `packets`.
pub open spec fn record_packets(
    acks: AckModel,
    registry: RegistryModel,
    packets: Seq<PacketModel>,
) -> AckModel
    decreases packets.len(),
{
    if packets.len() == 0 {
        acks
    } else {
        record_acks(
            record_packets(acks, registry, packets.drop_last()),
            registry,
            packets.last().header.packet_id.0,
            items_acks(packets.last().data),
        )
    }
}

/// What is recorded for the channel `kind` and any of `packets`, in the order of `packets`.
pub open spec fn acks_in(acks: AckModel, packets: Seq<PacketId>, kind: ChannelKind) -> Seq<
    MessageAck,
>
    decreases packets.len(),
{
    if packets.len() == 0 {
        Seq::empty()
    } else {
        acks_in(acks, packets.drop_last(), kind) + recorded(acks, packets.last().0, kind)
    }
}

/// The records without `packets`.
pub open spec fn without_packets(acks: AckModel, packets: Seq<PacketId>) -> AckModel {
    acks.remove_keys(Set::new(|k: u16| packets.contains(PacketId(k))))
}

/// Records one more message.
pub fn record_ack(map: &mut MessageAckMap, packet: PacketId, kind: ChannelKind, ack: MessageAck)
    ensures
        ack_model(*final(map)) == record(ack_model(*old(map)), packet.0, kind, ack),
{
    let ghost model = ack_model(*map);
    let mut channels: HashMap<ChannelKind, Vec<MessageAck>> = match map.remove(&packet.0) {
        Some(channels) => channels,
        None => HashMap::new(),
    };
    let ghost before = channel_acks_model(channels);
    assert(before =~= if model.contains_key(packet.0) {
        model[packet.0]
    } else {
        Map::empty()
    });
    let mut acks: Vec<MessageAck> = match channels.remove(&kind) {
        Some(acks) => acks,
        None => Vec::new(),
    };
    assert(acks@ =~= recorded(model, packet.0, kind));
    acks.push(ack);
    channels.insert(kind, acks);
    assert(channel_acks_model(channels) =~= before.insert(kind, acks@));
    map.insert(packet.0, channels);
    assert(ack_model(*map) =~= record(model, packet.0, kind, ack));
}

/// What is recorded for a packet and a channel, after the messages of another packet, or of the
/// same one, were recorded.
pub proof fn lemma_record_acks(
    acks: AckModel,
    registry: RegistryModel,
    packet: u16,
    added: Seq<(NetId, MessageAck)>,
    p: u16,
    kind: ChannelKind,
)
    ensures
        recorded(record_acks(acks, registry, packet, added), p, kind) == recorded(acks, p, kind)
            + if p == packet {
            acks_for(registry, added, kind)
        } else {
            Seq::empty()
        },
    decreases added.len(),
{
    let after = record_acks(acks, registry, packet, added);
    if added.len() == 0 {
        assert(recorded(acks, p, kind) + Seq::<MessageAck>::empty() =~= recorded(acks, p, kind));
    } else {
        lemma_record_acks(acks, registry, packet, added.drop_last(), p, kind);
        let before = record_acks(acks, registry, packet, added.drop_last());
        let (net_id, ack) = added.last();
        if watched(registry, net_id) && p == packet && registry.kinds[net_id as int] == kind {
            assert(recorded(after, p, kind) == recorded(before, p, kind).push(ack));
            assert(recorded(acks, p, kind) + acks_for(registry, added.drop_last(), kind).push(ack)
                =~= (recorded(acks, p, kind) + acks_for(registry, added.drop_last(), kind)).push(
                ack,
            ));
        } else {
            assert(recorded(after, p, kind) == recorded(before, p, kind));
        }
    }
}

/// Of the acknowledgements that are asked for, those of the channel `kind`, if it wants to know
/// which messages arrived.
pub open spec fn acks_for(
    registry: RegistryModel,
    added: Seq<(NetId, MessageAck)>,
    kind: ChannelKind,
) -> Seq<MessageAck>
    decreases added.len(),
{
    if added.len() == 0 {
        Seq::empty()
    } else {
        let before = acks_for(registry, added.drop_last(), kind);
        let (net_id, ack) = added.last();
        if watched(registry, net_id) && registry.kinds[net_id as int] == kind {
            before.push(ack)
        } else {
            before
        }
    }
}

} // verus!
