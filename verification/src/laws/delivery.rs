//! What one manager sends, another manager receives.
use vstd::prelude::*;

use crate::channel::fragment_receiver::{with_fragment, PartialModel};
use crate::channel::receiver::{ReceiverModel, UnorderedModel};
use crate::channel::registry::lemma_kind;
use crate::channel::reliable_sender::{due_pieces, UnackedModel};
use crate::channel::sender::{lemma_collected, SenderModel};
use crate::channel::unreliable_sender::{queue_pieces, UnreliableModel};
use crate::ids::{ChannelKind, MessageId, NetId, Tick, Time};
use crate::manager_model::{
    channels_outgoing, deliver, lemma_chunk_in_flatten, lemma_collect_wf, lemma_packets,
    lemma_receive_packet_wf, tagged, ManagerModel,
};
use crate::message::{
    fragment_bytes, fragment_count, lemma_fragment_range, pieces, MessageModel, SingleModel,
    FRAGMENT_SIZE,
};
use crate::packet::{lemma_take_packet, take_packet, PacketModel};
use crate::packet_manager::pack;

verus! {

/// The messages of the channel with this net id, in order.
pub open spec fn channel_items(
    items: Seq<(NetId, MessageModel)>,
    net_id: NetId,
) -> Seq<MessageModel>
    decreases items.len(),
{
    if items.len() == 0 {
        Seq::empty()
    } else {
        let rest = channel_items(items.drop_first(), net_id);
        if items[0].0 == net_id {
            seq![items[0].1] + rest
        } else {
            rest
        }
    }
}

/// A receiver after it took `messages`, which came in packets of this tick.
pub open spec fn receive_messages(
    receiver: ReceiverModel,
    messages: Seq<MessageModel>,
    tick: Tick,
) -> ReceiverModel
    decreases messages.len(),
{
    if messages.len() == 0 {
        receiver
    } else {
        receive_messages(
            receiver.receive(messages[0].stamped(tick)),
            messages.drop_first(),
            tick,
        )
    }
}

/// A manager after it received `packets`, in order.
pub open spec fn receive_all(model: ManagerModel, packets: Seq<PacketModel>) -> ManagerModel
    decreases packets.len(),
{
    if packets.len() == 0 {
        model
    } else {
        receive_all(model, packets.drop_last()).receive(packets.last())
    }
}

/// The messages of `packets`, packet by packet.
pub open spec fn contents(packets: Seq<PacketModel>) -> Seq<(NetId, MessageModel)>
    decreases packets.len(),
{
    if packets.len() == 0 {
        Seq::empty()
    } else {
        contents(packets.drop_last()) + packets.last().data
    }
}

/// Whether `receivers` take `items`: each belongs to a channel, and the channel accepts it.
pub open spec fn accepted(
    receivers: Seq<ReceiverModel>,
    items: Seq<(NetId, MessageModel)>,
) -> bool {
    forall|k: int|
        0 <= k < items.len() ==> {
            let (net_id, message) = #[trigger] items[k];
            &&& net_id < receivers.len()
            &&& receivers[net_id as int].error(message) is None
        }
}

// ---------------------------------------------------------------------------------------
// Sequences
// ---------------------------------------------------------------------------------------

proof fn lemma_channel_items_concat(
    a: Seq<(NetId, MessageModel)>,
    b: Seq<(NetId, MessageModel)>,
    net_id: NetId,
)
    ensures
        channel_items(a + b, net_id) == channel_items(a, net_id) + channel_items(b, net_id),
    decreases a.len(),
{
    if a.len() == 0 {
        assert(a + b =~= b);
        assert(channel_items(a, net_id) + channel_items(b, net_id) =~= channel_items(b, net_id));
    } else {
        lemma_channel_items_concat(a.drop_first(), b, net_id);
        assert((a + b).drop_first() =~= a.drop_first() + b);
        assert((a + b)[0] == a[0]);
        if a[0].0 == net_id {
            assert(channel_items(a + b, net_id) =~= channel_items(a, net_id) + channel_items(
                b,
                net_id,
            ));
        }
    }
}

/// One more item is one more message of its channel.
pub proof fn lemma_channel_items_push(
    items: Seq<(NetId, MessageModel)>,
    item: (NetId, MessageModel),
    net_id: NetId,
)
    ensures
        channel_items(items.push(item), net_id) == if item.0 == net_id {
            channel_items(items, net_id).push(item.1)
        } else {
            channel_items(items, net_id)
        },
{
    let one = seq![item];
    let before = channel_items(items, net_id);
    assert(items.push(item) =~= items + one);
    lemma_channel_items_concat(items, one, net_id);
    assert(one.drop_first() =~= Seq::empty());
    reveal_with_fuel(channel_items, 2);
    assert(channel_items(items.push(item), net_id) =~= if item.0 == net_id {
        before.push(item.1)
    } else {
        before
    });
}

proof fn lemma_receive_concat(
    receiver: ReceiverModel,
    a: Seq<MessageModel>,
    b: Seq<MessageModel>,
    tick: Tick,
)
    ensures
        receive_messages(receiver, a + b, tick) == receive_messages(
            receive_messages(receiver, a, tick),
            b,
            tick,
        ),
    decreases a.len(),
{
    if a.len() == 0 {
        assert(a + b =~= b);
    } else {
        assert((a + b).drop_first() =~= a.drop_first() + b);
        assert((a + b)[0] == a[0]);
        lemma_receive_concat(receiver.receive(a[0].stamped(tick)), a.drop_first(), b, tick);
    }
}

proof fn lemma_receive_push(
    receiver: ReceiverModel,
    messages: Seq<MessageModel>,
    message: MessageModel,
    tick: Tick,
)
    ensures
        receive_messages(receiver, messages.push(message), tick) == receive_messages(
            receiver,
            messages,
            tick,
        ).receive(message.stamped(tick)),
{
    let one = seq![message];
    assert(messages.push(message) =~= messages + one);
    lemma_receive_concat(receiver, messages, one, tick);
    assert(one.drop_first() =~= Seq::empty());
    reveal_with_fuel(receive_messages, 2);
}

/// A receiver stays of its kind.
proof fn lemma_receive_kind(receiver: ReceiverModel, messages: Seq<MessageModel>, tick: Tick)
    ensures
        receive_messages(receiver, messages, tick) is Ordered <==> receiver is Ordered,
    decreases messages.len(),
{
    if messages.len() > 0 {
        lemma_receive_kind(
            receiver.receive(messages[0].stamped(tick)),
            messages.drop_first(),
            tick,
        );
    }
}

/// The messages that are tagged with one channel are those of the channel.
proof fn lemma_channel_items_tagged(tag: NetId, messages: Seq<MessageModel>, net_id: NetId)
    ensures
        channel_items(tagged(tag, messages), net_id) == if tag == net_id {
            messages
        } else {
            Seq::empty()
        },
    decreases messages.len(),
{
    if messages.len() > 0 {
        lemma_channel_items_tagged(tag, messages.drop_first(), net_id);
        assert(tagged(tag, messages).drop_first() =~= tagged(tag, messages.drop_first()));
        assert(tagged(tag, messages)[0] == (tag, messages[0]));
        assert(seq![messages[0]] + messages.drop_first() =~= messages);
    } else {
        assert(messages =~= Seq::empty());
    }
}

/// What the channels send is, of each channel, what the channel sends.
pub proof fn lemma_channel_items_outgoing(senders: Seq<SenderModel>, net_id: NetId)
    requires
        senders.len() <= u16::MAX,
    ensures
        channel_items(channels_outgoing(senders), net_id) == if net_id < senders.len() {
            senders[net_id as int].outgoing()
        } else {
            Seq::empty()
        },
    decreases senders.len(),
{
    if senders.len() > 0 {
        let rest = senders.drop_last();
        let tag = (senders.len() - 1) as u16;
        let last = senders.last().outgoing();
        lemma_channel_items_outgoing(rest, net_id);
        lemma_channel_items_concat(channels_outgoing(rest), tagged(tag, last), net_id);
        lemma_channel_items_tagged(tag, last, net_id);
        if net_id < rest.len() {
            assert(rest[net_id as int] == senders[net_id as int]);
            assert(senders[net_id as int].outgoing() + Seq::<MessageModel>::empty()
                =~= senders[net_id as int].outgoing());
        } else {
            assert(Seq::<MessageModel>::empty() + last =~= last);
            assert(Seq::<MessageModel>::empty() + Seq::<MessageModel>::empty() =~= Seq::<
                MessageModel,
            >::empty());
        }
    }
}

// ---------------------------------------------------------------------------------------
// Packets
// ---------------------------------------------------------------------------------------

/// Messages that are accepted reach their channels, in order.
pub proof fn law_deliver(
    receivers: Seq<ReceiverModel>,
    items: Seq<(NetId, MessageModel)>,
    tick: Tick,
)
    requires
        receivers.len() <= u16::MAX,
        accepted(receivers, items),
    ensures
        deliver(receivers, items, tick).1 is None,
        deliver(receivers, items, tick).0 == Seq::new(
            receivers.len(),
            |i: int| receive_messages(receivers[i], channel_items(items, i as u16), tick),
        ),
    decreases items.len(),
{
    let after = Seq::new(
        receivers.len(),
        |i: int| receive_messages(receivers[i], channel_items(items, i as u16), tick),
    );
    if items.len() == 0 {
        assert(after =~= receivers);
    } else {
        let (net_id, message) = items[0];
        let rest = items.drop_first();
        let receiver = receivers[net_id as int];
        let next = receivers.update(net_id as int, receiver.receive(message.stamped(tick)));
        assert(receiver.error(message) is None);
        assert(accepted(next, rest)) by {
            assert forall|k: int| 0 <= k < rest.len() implies {
                let (n, m) = #[trigger] rest[k];
                n < next.len() && next[n as int].error(m) is None
            } by {
                assert(rest[k] == items[k + 1]);
            }
        }
        law_deliver(next, rest, tick);
        let expected = Seq::new(
            next.len(),
            |i: int| receive_messages(next[i], channel_items(rest, i as u16), tick),
        );
        assert forall|i: int| 0 <= i < receivers.len() implies after[i] == expected[i] by {
            if i == net_id {
                let own = channel_items(rest, net_id);
                assert(channel_items(items, net_id) == seq![message] + own);
                assert((seq![message] + own).drop_first() =~= own);
            } else {
                assert(channel_items(items, i as u16) == channel_items(rest, i as u16));
            }
        }
        assert(after =~= expected);
    }
}

proof fn lemma_accepted_kind(
    before: Seq<ReceiverModel>,
    after: Seq<ReceiverModel>,
    items: Seq<(NetId, MessageModel)>,
)
    requires
        accepted(before, items),
        before.len() == after.len(),
        forall|i: int| 0 <= i < before.len() ==> (before[i] is Ordered <==> after[i] is Ordered),
    ensures
        accepted(after, items),
{
    assert forall|k: int| 0 <= k < items.len() implies {
        let (n, m) = #[trigger] items[k];
        n < after.len() && after[n as int].error(m) is None
    } by {
        let (n, m) = items[k];
        assert(before[n as int].error(m) is None);
    }
}

/// Packets whose messages are accepted are received in full, and their messages reach their
/// channels in order.
pub proof fn law_receive_all(model: ManagerModel, packets: Seq<PacketModel>, tick: Tick)
    requires
        model.receivers.len() <= u16::MAX,
        forall|k: int|
            0 <= k < packets.len() ==> {
                let packet = #[trigger] packets[k];
                packet.header.tick == tick && accepted(model.receivers, packet.data)
            },
    ensures
        forall|k: int|
            0 <= k < packets.len() ==> receive_all(model, packets.take(k)).receive_error(
                #[trigger] packets[k],
            ) is None,
        receive_all(model, packets).receivers == Seq::new(
            model.receivers.len(),
            |i: int|
                receive_messages(
                    model.receivers[i],
                    channel_items(contents(packets), i as u16),
                    tick,
                ),
        ),
    decreases packets.len(),
{
    let after = Seq::new(
        model.receivers.len(),
        |i: int|
            receive_messages(
                model.receivers[i],
                channel_items(contents(packets), i as u16),
                tick,
            ),
    );
    if packets.len() == 0 {
        assert(after =~= model.receivers);
    } else {
        let rest = packets.drop_last();
        let last = packets.last();
        assert forall|k: int| 0 <= k < rest.len() implies {
            let packet = #[trigger] rest[k];
            packet.header.tick == tick && accepted(model.receivers, packet.data)
        } by {
            assert(rest[k] == packets[k]);
        }
        law_receive_all(model, rest, tick);
        let middle = receive_all(model, rest);
        assert(packets[packets.len() - 1] == last);
        assert forall|i: int| 0 <= i < model.receivers.len() implies (model.receivers[i] is Ordered
            <==> middle.receivers[i] is Ordered) by {
            lemma_receive_kind(
                model.receivers[i],
                channel_items(contents(rest), i as u16),
                tick,
            );
        }
        lemma_accepted_kind(model.receivers, middle.receivers, last.data);
        law_deliver(middle.receivers, last.data, tick);
        assert forall|i: int| 0 <= i < model.receivers.len() implies after[i]
            == #[trigger] middle.receive(last).receivers[i] by {
            let before = channel_items(contents(rest), i as u16);
            let added = channel_items(last.data, i as u16);
            lemma_channel_items_concat(contents(rest), last.data, i as u16);
            lemma_receive_concat(model.receivers[i], before, added, tick);
        }
        assert(after =~= middle.receive(last).receivers);
        assert forall|k: int| 0 <= k < packets.len() implies receive_all(
            model,
            packets.take(k),
        ).receive_error(#[trigger] packets[k]) is None by {
            if k < rest.len() {
                assert(packets.take(k) =~= rest.take(k));
                assert(rest[k] == packets[k]);
            } else {
                assert(packets.take(k) =~= rest);
            }
        }
    }
}

/// The messages of packets are those of the chunks that the packets were made from.
pub proof fn lemma_contents(packets: Seq<PacketModel>, chunks: Seq<Seq<(NetId, MessageModel)>>)
    requires
        packets.len() == chunks.len(),
        forall|k: int| 0 <= k < packets.len() ==> (#[trigger] packets[k]).data == chunks[k],
    ensures
        contents(packets) == chunks.flatten(),
    decreases packets.len(),
{
    chunks.lemma_flatten_and_flatten_alt_are_equivalent();
    if packets.len() > 0 {
        let rest = packets.drop_last();
        assert forall|k: int| 0 <= k < rest.len() implies (#[trigger] rest[k]).data
            == chunks.drop_last()[k] by {
            assert(rest[k] == packets[k]);
        }
        lemma_contents(rest, chunks.drop_last());
        chunks.drop_last().lemma_flatten_and_flatten_alt_are_equivalent();
        assert(packets[packets.len() - 1] == packets.last());
    }
}

/// What one manager sends, another manager with the same channels receives: the bytes of every
/// packet are those of a packet, every packet is received in full, and every channel takes what
/// its other end sent, in order and with the tick of the packets.
pub proof fn law_delivery(sender: ManagerModel, receiver: ManagerModel, tick: Tick)
    requires
        sender.wf(),
        receiver.wf(),
        sender.registry == receiver.registry,
    ensures
        forall|k: int|
            0 <= k < sender.packets(tick).len() ==> {
                let packet = #[trigger] sender.packets(tick)[k];
                &&& take_packet(packet.wire()) == Some((packet, Seq::<u8>::empty()))
                &&& receive_all(receiver, sender.packets(tick).take(k)).receive_error(packet)
                    is None
            },
        receive_all(receiver, sender.packets(tick)).receivers == Seq::new(
            receiver.receivers.len(),
            |i: int| receive_messages(receiver.receivers[i], sender.senders[i].outgoing(), tick),
        ),
{
    let packets = sender.packets(tick);
    let chunks = pack(sender.outgoing());
    lemma_packets(sender, tick);
    assert forall|k: int| 0 <= k < packets.len() implies {
        let packet = #[trigger] packets[k];
        packet.header.tick == tick && accepted(receiver.receivers, packet.data)
    } by {
        lemma_packet_accepted(sender, receiver, tick, k);
    }
    law_receive_all(receiver, packets, tick);
    lemma_contents(packets, chunks);
    let after = Seq::new(
        receiver.receivers.len(),
        |i: int| receive_messages(receiver.receivers[i], sender.senders[i].outgoing(), tick),
    );
    assert forall|i: int| 0 <= i < after.len() implies after[i] == #[trigger] receive_all(
        receiver,
        packets,
    ).receivers[i] by {
        lemma_channel_items_outgoing(sender.senders, i as u16);
    }
    assert(receive_all(receiver, packets).receivers =~= after);
    assert forall|k: int| 0 <= k < packets.len() implies {
        let packet = #[trigger] packets[k];
        &&& take_packet(packet.wire()) == Some((packet, Seq::<u8>::empty()))
        &&& receive_all(receiver, packets.take(k)).receive_error(packet) is None
    } by {
        let packet = packets[k];
        lemma_take_packet(packet, Seq::empty());
        assert(packet.wire() + Seq::<u8>::empty() =~= packet.wire());
    }
}

/// Every message of a packet comes from its own channel: it is one that the channel sends.
pub proof fn law_packets_carry_what_channels_send(sender: ManagerModel, tick: Tick, k: int, j: int)
    requires
        sender.wf(),
        0 <= k < sender.packets(tick).len(),
        0 <= j < sender.packets(tick)[k].data.len(),
    ensures
        ({
            let (net_id, message) = sender.packets(tick)[k].data[j];
            &&& net_id < sender.registry.kinds.len()
            &&& sender.senders[net_id as int].outgoing().contains(message)
        }),
{
    let item = sender.packets(tick)[k].data[j];
    let chunks = pack(sender.outgoing());
    lemma_packets(sender, tick);
    lemma_chunk_in_flatten(chunks, k);
    assert(chunks[k][j] == item);
    assert(chunks[k].contains(item));
    assert(sender.outgoing().contains(item));
    lemma_outgoing_member(sender.senders, item);
}

/// Any packet of one manager is received in full by any other manager with the same channels,
/// whatever the other received before: packets may be lost, repeated and reordered. Every channel
/// takes what the packet carries for it, and the manager stays in order.
pub proof fn law_any_packet_is_received(
    sender: ManagerModel,
    receiver: ManagerModel,
    tick: Tick,
    k: int,
)
    requires
        sender.wf(),
        receiver.wf(),
        sender.registry == receiver.registry,
        0 <= k < sender.packets(tick).len(),
    ensures
        ({
            let packet = sender.packets(tick)[k];
            let after = receiver.receive(packet);
            &&& take_packet(packet.wire()) == Some((packet, Seq::<u8>::empty()))
            &&& receiver.receive_error(packet) is None
            &&& after.wf()
            &&& after.registry == receiver.registry
            &&& after.receivers == Seq::new(
                receiver.receivers.len(),
                |i: int|
                    receive_messages(
                        receiver.receivers[i],
                        channel_items(packet.data, i as u16),
                        tick,
                    ),
            )
        }),
{
    let packet = sender.packets(tick)[k];
    lemma_packets(sender, tick);
    lemma_take_packet(packet, Seq::empty());
    assert(packet.wire() + Seq::<u8>::empty() =~= packet.wire());
    lemma_packet_accepted(sender, receiver, tick, k);
    law_deliver(receiver.receivers, packet.data, tick);
    lemma_receive_packet_wf(receiver, packet);
}

/// Every message of a channel's other end is accepted.
proof fn lemma_packet_accepted(
    sender: ManagerModel,
    receiver: ManagerModel,
    tick: Tick,
    k: int,
)
    requires
        sender.wf(),
        receiver.wf(),
        sender.registry == receiver.registry,
        0 <= k < sender.packets(tick).len(),
    ensures
        accepted(receiver.receivers, sender.packets(tick)[k].data),
{
    let data = sender.packets(tick)[k].data;
    assert forall|j: int| 0 <= j < data.len() implies {
        let (net_id, message) = #[trigger] data[j];
        net_id < receiver.receivers.len() && receiver.receivers[net_id as int].error(message)
            is None
    } by {
        let (net_id, message) = data[j];
        law_packets_carry_what_channels_send(sender, tick, k, j);
        let own = sender.senders[net_id as int];
        let mode = sender.registry.settings[net_id as int].mode;
        assert(own.wf());
        lemma_collect_wf(own);
        lemma_collected(own.collect(), mode);
        let m = choose|m: int| 0 <= m < own.outgoing().len() && own.outgoing()[m] == message;
        assert(own.collect().collected()[m].sendable());
        assert(receiver.receivers[net_id as int].wf());
    }
}

/// Every message that is sent is sent by its channel.
proof fn lemma_outgoing_member(senders: Seq<SenderModel>, item: (NetId, MessageModel))
    requires
        senders.len() <= u16::MAX,
        channels_outgoing(senders).contains(item),
    ensures
        item.0 < senders.len(),
        senders[item.0 as int].outgoing().contains(item.1),
    decreases senders.len(),
{
    let all = channels_outgoing(senders);
    let i = choose|i: int| 0 <= i < all.len() && all[i] == item;
    let rest = channels_outgoing(senders.drop_last());
    if i < rest.len() {
        assert(rest[i] == item);
        lemma_outgoing_member(senders.drop_last(), item);
        assert(senders.drop_last()[item.0 as int] == senders[item.0 as int]);
    } else {
        let last = senders.last().outgoing();
        assert(item == tagged((senders.len() - 1) as u16, last)[i - rest.len()]);
        assert(last[i - rest.len()] == item.1);
    }
}

// ---------------------------------------------------------------------------------------
// Whole messages
// ---------------------------------------------------------------------------------------

/// Whether a message with this id and this many fragments can be put together from its fragments
/// in order: what is left of an earlier message of that form lacks the last fragment.
pub open spec fn unclaimed(partial: Map<u16, PartialModel>, id: MessageId, count: nat) -> bool {
    partial.contains_key(id.0) && partial[id.0].num_fragments == count
        ==> !partial[id.0].received.contains_key((count - 1) as u64)
}

/// The fragments `known` and the first `n` fragments of a message.
spec fn with_first_fragments(known: Map<u64, Seq<u8>>, bytes: Seq<u8>, n: nat) -> Map<
    u64,
    Seq<u8>,
>
    decreases n,
{
    if n == 0 {
        known
    } else {
        with_first_fragments(known, bytes, (n - 1) as nat).insert(
            (n - 1) as u64,
            fragment_bytes(bytes, n - 1),
        )
    }
}

proof fn lemma_with_first_fragments(known: Map<u64, Seq<u8>>, bytes: Seq<u8>, n: nat)
    requires
        n <= u64::MAX,
    ensures
        forall|i: u64|
            #![trigger with_first_fragments(known, bytes, n).contains_key(i)]
            if i < n {
                &&& with_first_fragments(known, bytes, n).contains_key(i)
                &&& with_first_fragments(known, bytes, n)[i] == fragment_bytes(bytes, i as int)
            } else {
                with_first_fragments(known, bytes, n).contains_key(i) == known.contains_key(i)
            },
    decreases n,
{
    if n > 0 {
        lemma_with_first_fragments(known, bytes, (n - 1) as nat);
        let before = with_first_fragments(known, bytes, (n - 1) as nat);
        assert forall|i: u64|
            #![trigger with_first_fragments(known, bytes, n).contains_key(i)]
            if i < n {
                &&& with_first_fragments(known, bytes, n).contains_key(i)
                &&& with_first_fragments(known, bytes, n)[i] == fragment_bytes(bytes, i as int)
            } else {
                with_first_fragments(known, bytes, n).contains_key(i) == known.contains_key(i)
            } by {
            assert(before.contains_key(i) == before.contains_key(i));
        }
    }
}

/// The fragments of a message, one after the other, are the message.
pub proof fn lemma_assembled(partial: PartialModel, bytes: Seq<u8>, n: nat)
    requires
        n <= fragment_count(bytes.len()),
        n <= u64::MAX,
        forall|i: u64|
            i < n ==> #[trigger] partial.received[i] == fragment_bytes(bytes, i as int),
    ensures
        partial.assembled(n) == if n == fragment_count(bytes.len()) {
            bytes
        } else {
            bytes.take(n * FRAGMENT_SIZE)
        },
    decreases n,
{
    if n == 0 {
        if fragment_count(bytes.len()) == 0 {
            assert(bytes.len() == 0);
            assert(bytes =~= Seq::empty());
        } else {
            assert(bytes.take(0) =~= Seq::empty());
        }
    } else {
        let i = n - 1;
        lemma_assembled(partial, bytes, i as nat);
        lemma_fragment_range(bytes.len(), i);
        assert(partial.received[i as u64] == fragment_bytes(bytes, i));
        assert(bytes.take(i * FRAGMENT_SIZE) + fragment_bytes(bytes, i) =~= if n == fragment_count(
            bytes.len(),
        ) {
            bytes
        } else {
            bytes.take(n * FRAGMENT_SIZE)
        });
    }
}

/// A receiver that took the first `n` fragments of a message, but not all of them.
proof fn lemma_first_fragments(
    model: UnorderedModel,
    id: MessageId,
    bytes: Seq<u8>,
    tick: Tick,
    n: nat,
)
    requires
        FRAGMENT_SIZE < bytes.len() <= usize::MAX,
        unclaimed(model.partial, id, fragment_count(bytes.len())),
        n < fragment_count(bytes.len()),
    ensures
        ({
            let count = fragment_count(bytes.len());
            let known = if model.partial.contains_key(id.0) && model.partial[id.0].num_fragments
                == count {
                model.partial[id.0].received
            } else {
                Map::empty()
            };
            receive_messages(
                ReceiverModel::Unordered(model),
                pieces(Some(id), bytes).take(n as int),
                tick,
            ) == if n == 0 {
                ReceiverModel::Unordered(model)
            } else {
                ReceiverModel::Unordered(
                    UnorderedModel {
                        partial: model.partial.insert(
                            id.0,
                            PartialModel {
                                num_fragments: count as u64,
                                received: with_first_fragments(known, bytes, n),
                                last_received: model.now,
                            },
                        ),
                        ..model
                    },
                )
            }
        }),
    decreases n,
{
    let count = fragment_count(bytes.len());
    let all = pieces(Some(id), bytes);
    let receiver = ReceiverModel::Unordered(model);
    if n > 0 {
        lemma_first_fragments(model, id, bytes, tick, (n - 1) as nat);
        let known = if model.partial.contains_key(id.0) && model.partial[id.0].num_fragments
            == count {
            model.partial[id.0].received
        } else {
            Map::empty()
        };
        let before = receive_messages(receiver, all.take(n - 1), tick)->Unordered_0;
        assert(all.take(n as int) =~= all.take(n - 1).push(all[n - 1]));
        lemma_receive_push(receiver, all.take(n - 1), all[n - 1], tick);
        let fragment = all[n - 1].stamped(tick)->Fragment_0;
        let updated = with_fragment(before.partial, fragment, before.now);
        assert(updated.received =~= with_first_fragments(known, bytes, n));
        lemma_with_first_fragments(known, bytes, n);
        assert(!updated.received.contains_key((count - 1) as u64));
        assert(!updated.complete());
        assert(before.receive(all[n - 1].stamped(tick)).partial =~= model.partial.insert(
            id.0,
            updated,
        ));
    } else {
        assert(all.take(0) =~= Seq::empty());
    }
}

/// The pieces of a message, received in order, put the message among those that can be read.
pub proof fn law_pieces_reassemble(
    model: UnorderedModel,
    id: Option<MessageId>,
    bytes: Seq<u8>,
    tick: Tick,
)
    requires
        bytes.len() <= usize::MAX,
        bytes.len() > FRAGMENT_SIZE ==> id is Some && unclaimed(
            model.partial,
            id.unwrap(),
            fragment_count(bytes.len()),
        ),
    ensures
        receive_messages(ReceiverModel::Unordered(model), pieces(id, bytes), tick)
            == ReceiverModel::Unordered(
            UnorderedModel {
                ready: model.ready.push(SingleModel { id, tick: Some(tick), bytes }),
                partial: if bytes.len() > FRAGMENT_SIZE {
                    model.partial.remove(id.unwrap().0)
                } else {
                    model.partial
                },
                ..model
            },
        ),
{
    let all = pieces(id, bytes);
    let receiver = ReceiverModel::Unordered(model);
    if bytes.len() <= FRAGMENT_SIZE {
        assert(all.drop_first() =~= Seq::empty());
        reveal_with_fuel(receive_messages, 2);
    } else {
        let count = fragment_count(bytes.len());
        let n = (count - 1) as nat;
        let message_id = id.unwrap();
        let known = if model.partial.contains_key(message_id.0)
            && model.partial[message_id.0].num_fragments == count {
            model.partial[message_id.0].received
        } else {
            Map::empty()
        };
        lemma_first_fragments(model, message_id, bytes, tick, n);
        let before = receive_messages(receiver, all.take(n as int), tick)->Unordered_0;
        assert(all =~= all.take(n as int).push(all[n as int]));
        lemma_receive_push(receiver, all.take(n as int), all[n as int], tick);
        let fragment = all[n as int].stamped(tick)->Fragment_0;
        let updated = with_fragment(before.partial, fragment, before.now);
        assert(updated.received =~= with_first_fragments(known, bytes, count));
        lemma_with_first_fragments(known, bytes, count);
        assert forall|i: u64| i < count implies #[trigger] updated.received[i] == fragment_bytes(
            bytes,
            i as int,
        ) by {
            assert(updated.received.contains_key(i));
        }
        lemma_assembled(updated, bytes, count);
        assert(updated.complete());
        assert(before.receive(all[n as int].stamped(tick)).partial =~= model.partial.remove(
            message_id.0,
        ));
    }
}

/// A receiver after it took `messages`, in order.
pub open spec fn receive_each(model: UnorderedModel, messages: Seq<MessageModel>) -> UnorderedModel
    decreases messages.len(),
{
    if messages.len() == 0 {
        model
    } else {
        receive_each(model, messages.drop_last()).receive(messages.last())
    }
}

/// Whether `message` is a fragment of the message `id`.
pub open spec fn is_fragment_of(message: MessageModel, id: MessageId) -> bool {
    message matches MessageModel::Fragment(fragment) && fragment.message_id == id
}

/// Whether `message` is the fragment `j` of the message `bytes`, as it comes in some packet.
pub open spec fn is_fragment(message: MessageModel, id: MessageId, bytes: Seq<u8>, j: int) -> bool {
    exists|tick: Tick| message == #[trigger] pieces(Some(id), bytes)[j].stamped(tick)
}

/// Whether the fragment `j` of the message `bytes` is among `messages`.
pub open spec fn came(messages: Seq<MessageModel>, id: MessageId, bytes: Seq<u8>, j: int) -> bool {
    exists|i: int| 0 <= i < messages.len() && is_fragment(#[trigger] messages[i], id, bytes, j)
}

/// Whether what `messages` hold of the message `id` are fragments of `bytes`, without the
/// fragment `last`.
pub open spec fn lacks_only(
    messages: Seq<MessageModel>,
    id: MessageId,
    bytes: Seq<u8>,
    last: int,
) -> bool {
    forall|i: int|
        0 <= i < messages.len() && is_fragment_of(#[trigger] messages[i], id) ==> exists|j: int|
            0 <= j < fragment_count(bytes.len()) && j != last && #[trigger] is_fragment(
                messages[i],
                id,
                bytes,
                j,
            )
}

/// The messages that are not fragments of the message `id`.
pub open spec fn others(messages: Seq<MessageModel>, id: MessageId) -> Seq<MessageModel> {
    messages.filter(|m: MessageModel| !is_fragment_of(m, id))
}

/// While a fragment is missing, the fragments of a message change nothing but what is kept of
/// that message.
proof fn lemma_fragments_wait(
    model: UnorderedModel,
    messages: Seq<MessageModel>,
    id: MessageId,
    bytes: Seq<u8>,
    last: int,
)
    requires
        FRAGMENT_SIZE < bytes.len() <= usize::MAX,
        0 <= last < fragment_count(bytes.len()),
        model.partial.contains_key(id.0) && model.partial[id.0].num_fragments == fragment_count(
            bytes.len(),
        ) ==> !model.partial[id.0].received.contains_key(last as u64),
        lacks_only(messages, id, bytes, last),
    ensures
        ({
            let after = receive_each(model, messages);
            let rest = receive_each(model, others(messages, id));
            let count = fragment_count(bytes.len());
            &&& after.ready == rest.ready
            &&& after.now == model.now
            &&& rest.now == model.now
            &&& after.partial.remove(id.0) == rest.partial.remove(id.0)
            &&& after.partial.contains_key(id.0) && after.partial[id.0].num_fragments == count
                ==> !after.partial[id.0].received.contains_key(last as u64)
            &&& forall|j: int|
                0 <= j < count && #[trigger] came(messages, id, bytes, j) ==> {
                    &&& after.partial.contains_key(id.0)
                    &&& after.partial[id.0].num_fragments == count
                    &&& after.partial[id.0].received.contains_key(j as u64)
                    &&& after.partial[id.0].received[j as u64] == fragment_bytes(bytes, j)
                }
        }),
    decreases messages.len(),
{
    reveal(Seq::filter);
    let count = fragment_count(bytes.len());
    if messages.len() > 0 {
        let front = messages.drop_last();
        let message = messages[messages.len() - 1];
        assert(messages.last() == message);
        assert(lacks_only(front, id, bytes, last)) by {
            assert forall|i: int|
                0 <= i < front.len() && is_fragment_of(#[trigger] front[i], id) implies exists|
                j: int,
            |
                0 <= j < count && j != last && #[trigger] is_fragment(front[i], id, bytes, j) by {
                assert(front[i] == messages[i]);
            }
        }
        lemma_fragments_wait(model, front, id, bytes, last);
        let before = receive_each(model, front);
        let rest = receive_each(model, others(front, id));
        let after = receive_each(model, messages);
        assert forall|j: int| 0 <= j < count && #[trigger] came(messages, id, bytes, j) implies came(
            front,
            id,
            bytes,
            j,
        ) || is_fragment(message, id, bytes, j) by {
            let i = choose|i: int|
                0 <= i < messages.len() && is_fragment(#[trigger] messages[i], id, bytes, j);
            if i < front.len() {
                assert(front[i] == messages[i]);
            }
        }
        if is_fragment_of(message, id) {
            assert(others(messages, id) =~= others(front, id));
            let own = choose|j: int|
                0 <= j < count && j != last && #[trigger] is_fragment(message, id, bytes, j);
            let tick = choose|tick: Tick|
                message == #[trigger] pieces(Some(id), bytes)[own].stamped(tick);
            let fragment = message->Fragment_0;
            let updated = with_fragment(before.partial, fragment, before.now);
            assert(fragment.fragment_id == own as u64 && fragment.num_fragments == count);
            assert(!updated.received.contains_key(last as u64));
            assert(!updated.complete());
            assert(after.partial == before.partial.insert(id.0, updated));
            assert(after.partial.remove(id.0) =~= before.partial.remove(id.0));
            assert forall|j: int| 0 <= j < count && #[trigger] came(messages, id, bytes, j) implies {
                &&& after.partial.contains_key(id.0)
                &&& after.partial[id.0].num_fragments == count
                &&& after.partial[id.0].received.contains_key(j as u64)
                &&& after.partial[id.0].received[j as u64] == fragment_bytes(bytes, j)
            } by {
                if is_fragment(message, id, bytes, j) {
                    let t = choose|t: Tick|
                        message == #[trigger] pieces(Some(id), bytes)[j].stamped(t);
                    assert(fragment.fragment_id == j as u64);
                } else {
                    assert(came(front, id, bytes, j));
                }
            }
        } else {
            let next = receive_each(model, others(messages, id));
            assert(others(messages, id) =~= others(front, id).push(message));
            assert(others(messages, id).drop_last() =~= others(front, id));
            assert(next == rest.receive(message));
            assert forall|j: int| 0 <= j < count && #[trigger] came(messages, id, bytes, j) implies came(
                front,
                id,
                bytes,
                j,
            ) by {
                if is_fragment(message, id, bytes, j) {
                    let t = choose|t: Tick|
                        message == #[trigger] pieces(Some(id), bytes)[j].stamped(t);
                    assert(is_fragment_of(message, id));
                }
            }
            match message {
                MessageModel::Single(_) => {},
                MessageModel::Fragment(fragment) => {
                    let other = fragment.message_id.0;
                    assert(other != id.0);
                    assert(before.partial.contains_key(other) == before.partial.remove(
                        id.0,
                    ).contains_key(other));
                    assert(rest.partial.contains_key(other) == rest.partial.remove(
                        id.0,
                    ).contains_key(other));
                    if before.partial.contains_key(other) {
                        assert(before.partial.remove(id.0)[other] == before.partial[other]);
                        assert(rest.partial.remove(id.0)[other] == rest.partial[other]);
                    }
                    let updated = with_fragment(before.partial, fragment, before.now);
                    assert(updated == with_fragment(rest.partial, fragment, rest.now));
                    if updated.complete() {
                        assert(after.partial.remove(id.0) =~= before.partial.remove(id.0).remove(
                            other,
                        ));
                        assert(next.partial.remove(id.0) =~= rest.partial.remove(id.0).remove(
                            other,
                        ));
                    } else {
                        assert(after.partial.remove(id.0) =~= before.partial.remove(id.0).insert(
                            other,
                            updated,
                        ));
                        assert(next.partial.remove(id.0) =~= rest.partial.remove(id.0).insert(
                            other,
                            updated,
                        ));
                    }
                },
            }
        }
    } else {
        assert(others(messages, id) =~= messages);
    }
}

/// The fragments of a message can come in any order, more than once, in packets of different
/// ticks, and among other messages. Until the last one comes, what can be read is what could be
/// read without them; when it comes, the whole message can be read, with the tick of the packet
/// that brought it, and nothing of it is kept.
pub proof fn law_fragments_come_in_any_order(
    model: UnorderedModel,
    messages: Seq<MessageModel>,
    id: MessageId,
    bytes: Seq<u8>,
    last: int,
    tick: Tick,
)
    requires
        FRAGMENT_SIZE < bytes.len() <= usize::MAX,
        0 <= last < fragment_count(bytes.len()),
        model.partial.contains_key(id.0) && model.partial[id.0].num_fragments == fragment_count(
            bytes.len(),
        ) ==> !model.partial[id.0].received.contains_key(last as u64),
        lacks_only(messages, id, bytes, last),
        forall|j: int|
            0 <= j < fragment_count(bytes.len()) && j != last ==> #[trigger] came(
                messages,
                id,
                bytes,
                j,
            ),
    ensures
        ({
            let without = receive_each(model, others(messages, id));
            let before = receive_each(model, messages);
            let after = before.receive(pieces(Some(id), bytes)[last].stamped(tick));
            &&& before.ready == without.ready
            &&& after.ready == without.ready.push(
                SingleModel { id: Some(id), tick: Some(tick), bytes },
            )
            &&& after.partial == without.partial.remove(id.0)
        }),
{
    let count = fragment_count(bytes.len());
    lemma_fragments_wait(model, messages, id, bytes, last);
    let without = receive_each(model, others(messages, id));
    let before = receive_each(model, messages);
    let message = pieces(Some(id), bytes)[last].stamped(tick);
    let after = before.receive(message);
    let updated = with_fragment(before.partial, message->Fragment_0, before.now);
    assert forall|i: u64| i < count implies #[trigger] updated.received.contains_key(i)
        && updated.received[i] == fragment_bytes(bytes, i as int) by {
        if i != last {
            assert(came(messages, id, bytes, i as int));
        }
    }
    assert(updated.complete());
    assert forall|i: u64| i < count implies #[trigger] updated.received[i] == fragment_bytes(
        bytes,
        i as int,
    ) by {
        assert(updated.received.contains_key(i));
    }
    lemma_assembled(updated, bytes, count);
    assert(after.partial =~= before.partial.remove(id.0));
}

/// Whether all messages that wait on an unreliable channel can be put together on the other end.
pub open spec fn can_take_all(sender: UnreliableModel, receiver: UnorderedModel) -> bool {
    forall|i: int|
        0 <= i < sender.queue.len() ==> {
            let (id, bytes) = #[trigger] sender.queue[i];
            bytes.len() > FRAGMENT_SIZE ==> unclaimed(
                receiver.partial,
                id.unwrap(),
                fragment_count(bytes.len()),
            )
        }
}

/// The messages of a queue as they are read.
pub open spec fn read_of(queue: Seq<(Option<MessageId>, Seq<u8>)>, tick: Tick) -> Seq<SingleModel> {
    queue.map_values(
        |q: (Option<MessageId>, Seq<u8>)| SingleModel { id: q.0, tick: Some(tick), bytes: q.1 },
    )
}

/// What waits on an unreliable channel can be read on the other end after it was sent, message
/// by message and in order.
pub proof fn law_unreliable_delivery(sender: UnreliableModel, receiver: UnorderedModel, tick: Tick)
    requires
        sender.wf(),
        can_take_all(sender, receiver),
    ensures
        receive_messages(
            ReceiverModel::Unordered(receiver),
            SenderModel::Unreliable(sender).outgoing(),
            tick,
        ).ready() == receiver.ready + read_of(sender.queue, tick),
    decreases sender.queue.len(),
{
    let queue = sender.queue;
    let start = ReceiverModel::Unordered(receiver);
    if queue.len() == 0 {
        assert(receiver.ready + read_of(queue, tick) =~= receiver.ready);
    } else {
        let (id, bytes) = queue[0];
        let rest = UnreliableModel { queue: queue.drop_first(), ..sender };
        law_pieces_reassemble(receiver, id, bytes, tick);
        let next = receive_messages(start, pieces(id, bytes), tick)->Unordered_0;
        assert(rest.wf()) by {
            assert forall|i: int| 0 <= i < rest.queue.len() implies {
                let (id, bytes) = #[trigger] rest.queue[i];
                &&& rest.with_acks || bytes.len() > FRAGMENT_SIZE ==> id is Some
                &&& bytes.len() <= usize::MAX
            } by {
                assert(rest.queue[i] == queue[i + 1]);
            }
        }
        assert forall|i: int| 0 <= i < rest.queue.len() implies {
            let (id, bytes) = #[trigger] rest.queue[i];
            bytes.len() > FRAGMENT_SIZE ==> unclaimed(
                next.partial,
                id.unwrap(),
                fragment_count(bytes.len()),
            )
        } by {
            assert(rest.queue[i] == queue[i + 1]);
        }
        law_unreliable_delivery(rest, next, tick);
        lemma_receive_concat(start, pieces(id, bytes), queue_pieces(rest.queue), tick);
        assert(receiver.ready + read_of(queue, tick) =~= next.ready + read_of(rest.queue, tick));
    }
}

/// What waits on an unreliable channel of one manager can be read on that channel of another
/// manager with the same channels, once the other received all the packets.
pub proof fn law_messages_arrive(
    sender: ManagerModel,
    receiver: ManagerModel,
    tick: Tick,
    kind: ChannelKind,
)
    requires
        sender.wf(),
        receiver.wf(),
        sender.registry == receiver.registry,
        sender.registry.kinds.contains(kind),
        sender.sender(kind) is Unreliable,
        can_take_all(
            sender.sender(kind)->Unreliable_0,
            receiver.receiver(kind)->Unordered_0,
        ),
    ensures
        receive_all(receiver, sender.packets(tick)).receiver(kind).ready() == receiver.receiver(
            kind,
        ).ready() + read_of(sender.sender(kind)->Unreliable_0.queue, tick),
{
    let i = sender.registry.net_id(kind) as int;
    lemma_kind(sender.registry, kind);
    law_delivery(sender, receiver, tick);
    assert(sender.senders[i].wf());
    assert(receiver.receivers[i].wf());
    law_unreliable_delivery(
        sender.sender(kind)->Unreliable_0,
        receiver.receiver(kind)->Unordered_0,
        tick,
    );
    lemma_receive_all_registry(receiver, sender.packets(tick));
}

/// Receiving packets does not change which channels there are.
pub proof fn lemma_receive_all_registry(model: ManagerModel, packets: Seq<PacketModel>)
    ensures
        receive_all(model, packets).registry == model.registry,
    decreases packets.len(),
{
    if packets.len() > 0 {
        lemma_receive_all_registry(model, packets.drop_last());
    }
}

// ---------------------------------------------------------------------------------------
// From the buffer into packets
// ---------------------------------------------------------------------------------------

proof fn lemma_queue_push(
    queue: Seq<(Option<MessageId>, Seq<u8>)>,
    id: Option<MessageId>,
    bytes: Seq<u8>,
)
    ensures
        queue_pieces(queue.push((id, bytes))) == queue_pieces(queue) + pieces(id, bytes),
    decreases queue.len(),
{
    let after = queue.push((id, bytes));
    let added = pieces(id, bytes);
    if queue.len() == 0 {
        assert(after.drop_first() =~= Seq::empty());
        reveal_with_fuel(queue_pieces, 2);
        assert(queue_pieces(after) =~= added);
        assert(queue_pieces(queue) + added =~= added);
    } else {
        let rest = queue.drop_first();
        lemma_queue_push(rest, id, bytes);
        assert(after.drop_first() =~= rest.push((id, bytes)));
        assert(after[0] == queue[0]);
        assert(queue_pieces(after) =~= queue_pieces(queue) + added);
    }
}

proof fn lemma_fresh_is_due(
    id: MessageId,
    bytes: Seq<u8>,
    now: Time,
    delay: Time,
    n: int,
)
    requires
        0 <= n <= pieces(Some(id), bytes).len(),
    ensures
        due_pieces(UnackedModel::fresh(id, bytes).parts.take(n), now, delay) == pieces(
            Some(id),
            bytes,
        ).take(n),
    decreases n,
{
    let parts = UnackedModel::fresh(id, bytes).parts;
    let all = pieces(Some(id), bytes);
    if n > 0 {
        lemma_fresh_is_due(id, bytes, now, delay, n - 1);
        assert(parts.take(n).drop_last() =~= parts.take(n - 1));
        assert(parts.take(n).last() == parts[n - 1]);
        assert(all.take(n) =~= all.take(n - 1).push(all[n - 1]));
    }
}

/// A message that is buffered is sent next, behind what the channel sends already.
pub proof fn law_buffered_is_sent(sender: SenderModel, bytes: Seq<u8>)
    ensures
        sender.buffer(bytes).outgoing() == sender.outgoing() + pieces(sender.id_for(bytes), bytes),
{
    match sender {
        SenderModel::Unreliable(model) => {
            lemma_queue_push(model.queue, model.id_for(bytes), bytes);
        },
        SenderModel::Reliable(model) => {
            let now = model.now;
            let delay = model.delay();
            let added = pieces(Some(model.next_id), bytes);
            let fresh = UnackedModel::fresh(model.next_id, bytes);
            let after = model.unacked.push(fresh);
            lemma_fresh_is_due(model.next_id, bytes, now, delay, added.len() as int);
            assert(fresh.parts.take(added.len() as int) =~= fresh.parts);
            assert(added.take(added.len() as int) =~= added);
            assert(after.drop_last() =~= model.unacked);
            assert(sender.buffer(bytes).outgoing() =~= sender.outgoing() + added);
        },
    }
}

} // verus!
