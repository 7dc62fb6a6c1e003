//! What holds over a whole history of operations.
use vstd::prelude::*;

use crate::ack_map::{acks_in, record_acks, record_packets, recorded, AckModel};
use crate::channel::acks::consumed;
use crate::channel::fragment_receiver::{with_fragment, PartialModel};
use crate::channel::receiver::{run, OrderedModel, ReceiverModel, UnorderedModel};
use crate::channel::registry::{lemma_kind, RegistryModel};
use crate::channel::sender::SenderModel;
use crate::channel::unreliable_sender::UnreliableModel;
use crate::header::{HeaderModel, PacketHeader};
use crate::ids::{ChannelKind, MessageId, NetId, PacketId, Tick, Time};
use crate::laws::acks::{
    acks_of, carried, law_acknowledged_packets_are_forgotten, law_packets_are_numbered,
    law_sent_messages_are_recorded, lemma_acks_in,
};
use crate::laws::assembling::{after_arrivals, Arrival};
use crate::laws::delivery::{
    accepted, channel_items, law_any_packet_is_received, law_deliver,
    law_packets_carry_what_channels_send, receive_messages,
};
use crate::laws::ordering::law_completed_messages_get_the_tick;
use crate::laws::reporting::{all_told, law_unreliable_acknowledgement};
use crate::laws::resending::{lemma_notify_all_settles, settled};
use crate::manager_model::{decoded_from, deliver, lemma_newly_acked, lemma_sent, ManagerModel};
use crate::message::{MessageAck, MessageModel, SingleModel};
use crate::packet::{items_acks, PacketModel};
use crate::serialize::BitSerializable;

verus! {

/// An operation of a manager.
pub enum Step {
    /// Time passes: the current time, and the round trip time.
    Update(Time, Time),
    Buffer(ChannelKind, Seq<u8>),
    Subscribe(ChannelKind),
    /// The subscriber at a position is told about its next message.
    Report(ChannelKind, usize),
    Send(Tick),
    Receive(PacketModel),
    Read,
}

/// The state after an operation.
pub open spec fn after_step(model: ManagerModel, step: Step) -> ManagerModel {
    match step {
        Step::Update(now, rtt) => model.update(now, rtt),
        Step::Buffer(kind, bytes) => if model.registry.kinds.contains(kind) {
            model.buffer(kind, bytes)
        } else {
            model
        },
        Step::Subscribe(kind) => if model.registry.kinds.contains(kind) {
            let sender = model.sender(kind);
            model.with_sender(
                kind,
                sender.with_subscribers(sender.subscribers().push(Seq::empty())),
            )
        } else {
            model
        },
        Step::Report(kind, position) => if model.registry.kinds.contains(kind) {
            let sender = model.sender(kind);
            model.with_sender(
                kind,
                sender.with_subscribers(consumed(sender.subscribers(), position)),
            )
        } else {
            model
        },
        Step::Send(tick) => model.after_send(tick),
        Step::Receive(packet) => model.receive(packet),
        Step::Read => model.drained(),
    }
}

/// The state after a history of operations.
pub open spec fn after_steps(model: ManagerModel, steps: Seq<Step>) -> ManagerModel
    decreases steps.len(),
{
    if steps.len() == 0 {
        model
    } else {
        after_step(after_steps(model, steps.drop_last()), steps.last())
    }
}

// ---------------------------------------------------------------------------------------
// A packet is reported delivered once
// ---------------------------------------------------------------------------------------

/// Whether no packet that is sent in a history has this number.
pub open spec fn number_not_used(model: ManagerModel, steps: Seq<Step>, id: PacketId) -> bool {
    forall|i: int|
        0 <= i < steps.len() ==> (#[trigger] steps[i] matches Step::Send(tick) ==> number_absent(
            after_steps(model, steps.take(i)).packets(tick),
            id,
        ))
}

/// Whether no packet has this number.
pub open spec fn number_absent(packets: Seq<PacketModel>, id: PacketId) -> bool {
    forall|k: int| 0 <= k < packets.len() ==> (#[trigger] packets[k]).header.packet_id != id
}

/// Whether a manager waits for nothing from the packet with this number.
pub open spec fn is_done_with(model: ManagerModel, id: PacketId) -> bool {
    &&& !model.header.sent_not_acked.contains_key(id.0)
    &&& !model.acks.contains_key(id.0)
}

proof fn lemma_sent_only(header: HeaderModel, n: nat, id: PacketId)
    requires
        !header.sent_not_acked.contains_key(id.0),
        forall|k: nat| k < n ==> (#[trigger] header.sent(k)).next_packet_id != id,
    ensures
        !header.sent(n).sent_not_acked.contains_key(id.0),
    decreases n,
{
    if n > 0 {
        lemma_sent_only(header, (n - 1) as nat, id);
        assert(header.sent((n - 1) as nat).next_packet_id != id);
    }
}

proof fn lemma_record_acks_only(
    acks: AckModel,
    registry: RegistryModel,
    packet: u16,
    added: Seq<(NetId, MessageAck)>,
    id: u16,
)
    requires
        !acks.contains_key(id),
        packet != id,
    ensures
        !record_acks(acks, registry, packet, added).contains_key(id),
    decreases added.len(),
{
    if added.len() > 0 {
        lemma_record_acks_only(acks, registry, packet, added.drop_last(), id);
    }
}

proof fn lemma_record_packets_only(
    acks: AckModel,
    registry: RegistryModel,
    packets: Seq<PacketModel>,
    id: PacketId,
)
    requires
        !acks.contains_key(id.0),
        number_absent(packets, id),
    ensures
        !record_packets(acks, registry, packets).contains_key(id.0),
    decreases packets.len(),
{
    if packets.len() > 0 {
        let rest = packets.drop_last();
        assert(number_absent(rest, id)) by {
            assert forall|k: int| 0 <= k < rest.len() implies (
            #[trigger] rest[k]).header.packet_id != id by {
                assert(rest[k] == packets[k]);
            }
        }
        lemma_record_packets_only(acks, registry, rest, id);
        let last = packets[packets.len() - 1];
        assert(packets.last() == last);
        lemma_record_acks_only(
            record_packets(acks, registry, rest),
            registry,
            last.header.packet_id.0,
            items_acks(last.data),
            id.0,
        );
    }
}

proof fn lemma_step_stays_done(model: ManagerModel, step: Step, id: PacketId)
    requires
        is_done_with(model, id),
        step matches Step::Send(tick) ==> number_absent(model.packets(tick), id),
    ensures
        is_done_with(after_step(model, step), id),
{
    match step {
        Step::Send(tick) => {
            let packets = model.packets(tick);
            assert forall|k: nat| k < packets.len() implies (#[trigger] model.header.sent(
                k,
            )).next_packet_id != id by {
                assert(packets[k as int].header.packet_id == model.header.sent(k).next_packet_id);
            }
            lemma_sent_only(model.header, packets.len(), id);
            lemma_record_packets_only(model.acks, model.registry, packets, id);
        },
        _ => {},
    }
}

/// A manager that waits for nothing from a packet goes on to do so, whatever happens, until it
/// sends a packet with the same number.
pub proof fn law_done_stays_done(model: ManagerModel, steps: Seq<Step>, id: PacketId)
    requires
        is_done_with(model, id),
        number_not_used(model, steps, id),
    ensures
        is_done_with(after_steps(model, steps), id),
    decreases steps.len(),
{
    if steps.len() > 0 {
        let rest = steps.drop_last();
        let last = steps[steps.len() - 1];
        assert(steps.last() == last);
        assert forall|i: int| 0 <= i < rest.len() implies (#[trigger] rest[i] matches Step::Send(tick)
            ==> number_absent(after_steps(model, rest.take(i)).packets(tick), id)) by {
            assert(rest[i] == steps[i]);
            assert(rest.take(i) =~= steps.take(i));
        }
        law_done_stays_done(model, rest, id);
        assert(steps.take(steps.len() - 1) =~= rest);
        lemma_step_stays_done(after_steps(model, rest), last, id);
    }
}

/// The messages of a packet are reported delivered at most once: after a packet that acknowledges
/// it was received, no header acknowledges it anew and nothing is recorded of it, whatever happens
/// in between, as long as its number is not used again.
pub proof fn law_reported_once(
    model: ManagerModel,
    packet: PacketModel,
    id: PacketId,
    steps: Seq<Step>,
    header: PacketHeader,
)
    requires
        model.wf(),
        packet.header.acks(id),
        number_not_used(model.receive(packet), steps, id),
    ensures
        !after_steps(model.receive(packet), steps).header.newly_acked(header).contains(id),
        !after_steps(model.receive(packet), steps).acks.contains_key(id.0),
{
    law_acknowledged_packets_are_forgotten(model, packet.header, id);
    law_done_stays_done(model.receive(packet), steps, id);
    lemma_newly_acked(after_steps(model.receive(packet), steps).header, header);
}

// ---------------------------------------------------------------------------------------
// What is read was sent
// ---------------------------------------------------------------------------------------

/// Whether `data` is a message that came in one piece, with the tick of the packet that carried
/// it. `sent` are the pieces that were sent, each with the tick of its packet.
pub open spec fn came_whole(data: SingleModel, sent: Set<(MessageModel, Tick)>) -> bool {
    exists|message: MessageModel, tick: Tick| #[trigger]
        sent.contains((message, tick)) && message.stamped(tick) == MessageModel::Single(data)
}

/// Whether a fragment like this was sent.
pub open spec fn fragment_sent(
    sent: Set<(MessageModel, Tick)>,
    id: MessageId,
    index: u64,
    count: u64,
    bytes: Seq<u8>,
) -> bool {
    exists|message: MessageModel, tick: Tick| #[trigger]
        sent.contains((message, tick)) && (message matches MessageModel::Fragment(fragment) && {
            &&& fragment.message_id == id
            &&& fragment.fragment_id == index
            &&& fragment.num_fragments == count
            &&& fragment.bytes == bytes
        })
}

/// Whether a fragment of a message like this was sent in a packet of this tick.
pub open spec fn fragment_sent_at(
    sent: Set<(MessageModel, Tick)>,
    id: MessageId,
    count: u64,
    tick: Tick,
) -> bool {
    exists|message: MessageModel| #[trigger]
        sent.contains((message, tick)) && (message matches MessageModel::Fragment(fragment)
            && fragment.message_id == id && fragment.num_fragments == count)
}

/// Whether all fragments that came were sent.
pub open spec fn fragments_sent(
    partial: PartialModel,
    sent: Set<(MessageModel, Tick)>,
    id: MessageId,
) -> bool {
    forall|j: u64| #[trigger]
        partial.received.contains_key(j) ==> fragment_sent(
            sent,
            id,
            j,
            partial.num_fragments,
            partial.received[j],
        )
}

/// Whether `data` was put together from the fragments of `partial`, all of which were sent, with
/// the tick of a packet that carried one of them.
pub open spec fn is_assembled(
    data: SingleModel,
    sent: Set<(MessageModel, Tick)>,
    partial: PartialModel,
    id: MessageId,
) -> bool {
    &&& data.id == Some(id)
    &&& partial.complete()
    &&& fragments_sent(partial, sent, id)
    &&& data.bytes == partial.message()
    &&& data.tick matches Some(tick) && fragment_sent_at(sent, id, partial.num_fragments, tick)
}

/// Whether `data` is a message that came in fragments.
pub open spec fn came_in_fragments(data: SingleModel, sent: Set<(MessageModel, Tick)>) -> bool {
    exists|partial: PartialModel, id: MessageId| #[trigger] is_assembled(data, sent, partial, id)
}

/// Whether `data` was sent: in one piece, or in fragments.
pub open spec fn was_sent(data: SingleModel, sent: Set<(MessageModel, Tick)>) -> bool {
    came_whole(data, sent) || came_in_fragments(data, sent)
}

/// Whether the incomplete messages of a receiver were sent.
pub open spec fn partials_sent(
    partial: Map<u16, PartialModel>,
    sent: Set<(MessageModel, Tick)>,
) -> bool {
    forall|id: u16| #[trigger]
        partial.contains_key(id) ==> fragments_sent(partial[id], sent, MessageId(id))
}

/// Whether all that a receiver holds was sent.
pub open spec fn holds_sent(receiver: ReceiverModel, sent: Set<(MessageModel, Tick)>) -> bool {
    match receiver {
        ReceiverModel::Unordered(model) => {
            &&& partials_sent(model.partial, sent)
            &&& forall|i: int|
                0 <= i < model.ready.len() ==> was_sent(#[trigger] model.ready[i], sent)
        },
        ReceiverModel::Ordered(model) => {
            &&& partials_sent(model.partial, sent)
            &&& forall|id: u16| #[trigger]
                model.buffer.contains_key(id) ==> was_sent(model.buffer[id], sent)
        },
    }
}

/// Whether all that a manager holds on each channel was sent on that channel. `sent` are the
/// pieces that were sent on the channels, in the order of the channels' net ids.
pub open spec fn all_sent(
    receivers: Seq<ReceiverModel>,
    sent: Seq<Set<(MessageModel, Tick)>>,
) -> bool {
    &&& receivers.len() <= sent.len()
    &&& forall|i: int| 0 <= i < receivers.len() ==> holds_sent(#[trigger] receivers[i], sent[i])
}

/// Whether all messages of a packet were sent on their channels in packets of its tick.
pub open spec fn carries_sent(
    data: Seq<(NetId, MessageModel)>,
    tick: Tick,
    sent: Seq<Set<(MessageModel, Tick)>>,
) -> bool {
    forall|k: int|
        0 <= k < data.len() ==> {
            let (net_id, message) = #[trigger] data[k];
            net_id < sent.len() ==> sent[net_id as int].contains((message, tick))
        }
}

/// A fragment that was sent, among fragments that were sent.
proof fn lemma_with_fragment_sent(
    partial: Map<u16, PartialModel>,
    sent: Set<(MessageModel, Tick)>,
    message: MessageModel,
    tick: Tick,
    now: Time,
)
    requires
        partials_sent(partial, sent),
        sent.contains((message, tick)),
        message is Fragment,
    ensures
        ({
            let fragment = message.stamped(tick)->Fragment_0;
            let updated = with_fragment(partial, fragment, now);
            &&& fragments_sent(updated, sent, fragment.message_id)
            &&& fragment_sent_at(sent, fragment.message_id, updated.num_fragments, tick)
        }),
{
    let fragment = message.stamped(tick)->Fragment_0;
    let id = fragment.message_id;
    let updated = with_fragment(partial, fragment, now);
    assert forall|j: u64| #[trigger] updated.received.contains_key(j) implies fragment_sent(
        sent,
        id,
        j,
        updated.num_fragments,
        updated.received[j],
    ) by {
        if j == fragment.fragment_id {
            assert(sent.contains((message, tick)));
        } else {
            assert(partial.contains_key(id.0));
            assert(partial[id.0].received.contains_key(j));
        }
    }
    assert(sent.contains((message, tick)));
}

proof fn lemma_receive_holds_sent(
    receiver: ReceiverModel,
    sent: Set<(MessageModel, Tick)>,
    message: MessageModel,
    tick: Tick,
)
    requires
        holds_sent(receiver, sent),
        sent.contains((message, tick)),
    ensures
        holds_sent(receiver.receive(message.stamped(tick)), sent),
{
    let stamped = message.stamped(tick);
    match receiver {
        ReceiverModel::Unordered(model) => {
            let after = model.receive(stamped);
            match stamped {
                MessageModel::Single(data) => {
                    assert(came_whole(data, sent));
                },
                MessageModel::Fragment(fragment) => {
                    lemma_with_fragment_sent(model.partial, sent, message, tick, model.now);
                    let updated = with_fragment(model.partial, fragment, model.now);
                    if updated.complete() {
                        let data = after.ready[after.ready.len() - 1];
                        assert(is_assembled(data, sent, updated, fragment.message_id));
                    }
                },
            }
            assert forall|i: int| 0 <= i < after.ready.len() implies was_sent(
                #[trigger] after.ready[i],
                sent,
            ) by {
                if i < model.ready.len() {
                    assert(after.ready[i] == model.ready[i]);
                }
            }
        },
        ReceiverModel::Ordered(model) => {
            let after = model.receive(stamped);
            match stamped {
                MessageModel::Single(data) => {
                    assert(came_whole(data, sent));
                },
                MessageModel::Fragment(fragment) => {
                    lemma_with_fragment_sent(model.partial, sent, message, tick, model.now);
                    let updated = with_fragment(model.partial, fragment, model.now);
                    if !model.has(fragment.message_id) && updated.complete() {
                        let data = after.buffer[fragment.message_id.0];
                        assert(is_assembled(data, sent, updated, fragment.message_id));
                    }
                },
            }
        },
    }
}

proof fn lemma_deliver_sent(
    receivers: Seq<ReceiverModel>,
    items: Seq<(NetId, MessageModel)>,
    tick: Tick,
    sent: Seq<Set<(MessageModel, Tick)>>,
)
    requires
        all_sent(receivers, sent),
        carries_sent(items, tick, sent),
    ensures
        all_sent(deliver(receivers, items, tick).0, sent),
    decreases items.len(),
{
    if items.len() > 0 {
        let (net_id, message) = items[0];
        if net_id < receivers.len() && receivers[net_id as int].error(message) is None {
            let rest = items.drop_first();
            let receiver = receivers[net_id as int];
            lemma_receive_holds_sent(receiver, sent[net_id as int], message, tick);
            let next = receivers.update(net_id as int, receiver.receive(message.stamped(tick)));
            assert forall|k: int| 0 <= k < rest.len() implies {
                let (n, m) = #[trigger] rest[k];
                n < sent.len() ==> sent[n as int].contains((m, tick))
            } by {
                assert(rest[k] == items[k + 1]);
            }
            lemma_deliver_sent(next, rest, tick, sent);
        }
    }
}

proof fn lemma_read_holds_sent(receiver: ReceiverModel, n: nat, sent: Set<(MessageModel, Tick)>)
    requires
        holds_sent(receiver, sent),
        receiver is Unordered ==> n <= receiver.ready().len(),
    ensures
        holds_sent(receiver.read(n), sent),
    decreases n,
{
    if n > 0 {
        let next = receiver.read_one();
        match receiver {
            ReceiverModel::Unordered(model) => {
                let rest = model.ready.drop_first();
                assert forall|i: int| 0 <= i < rest.len() implies was_sent(
                    #[trigger] rest[i],
                    sent,
                ) by {
                    assert(rest[i] == model.ready[i + 1]);
                }
            },
            ReceiverModel::Ordered(model) => {},
        }
        lemma_read_holds_sent(next, (n - 1) as nat, sent);
    }
}

proof fn lemma_step_sent(model: ManagerModel, step: Step, sent: Seq<Set<(MessageModel, Tick)>>)
    requires
        all_sent(model.receivers, sent),
        step matches Step::Receive(packet) ==> carries_sent(
            packet.data,
            packet.header.tick,
            sent,
        ),
    ensures
        all_sent(after_step(model, step).receivers, sent),
{
    let after = after_step(model, step).receivers;
    match step {
        Step::Update(now, rtt) => {
            assert forall|i: int| 0 <= i < after.len() implies holds_sent(
                #[trigger] after[i],
                sent[i],
            ) by {
                assert(holds_sent(model.receivers[i], sent[i]));
            }
        },
        Step::Receive(packet) => {
            lemma_deliver_sent(model.receivers, packet.data, packet.header.tick, sent);
        },
        Step::Read => {
            assert forall|i: int| 0 <= i < after.len() implies holds_sent(
                #[trigger] after[i],
                sent[i],
            ) by {
                let receiver = model.receivers[i];
                assert(holds_sent(receiver, sent[i]));
                lemma_read_holds_sent(receiver, receiver.ready().len(), sent[i]);
            }
        },
        _ => {},
    }
}

/// Whatever happens, all that a manager holds on each channel was sent on that channel, as long as
/// the packets that it receives carry on each channel what was sent there.
pub proof fn law_channels_hold_what_was_sent(
    model: ManagerModel,
    steps: Seq<Step>,
    sent: Seq<Set<(MessageModel, Tick)>>,
)
    requires
        all_sent(model.receivers, sent),
        forall|i: int|
            0 <= i < steps.len() ==> (#[trigger] steps[i] matches Step::Receive(packet)
                ==> carries_sent(packet.data, packet.header.tick, sent)),
    ensures
        all_sent(after_steps(model, steps).receivers, sent),
    decreases steps.len(),
{
    if steps.len() > 0 {
        let rest = steps.drop_last();
        let last = steps[steps.len() - 1];
        assert(steps.last() == last);
        assert forall|i: int| 0 <= i < rest.len() implies (
        #[trigger] rest[i] matches Step::Receive(packet) ==> carries_sent(
            packet.data,
            packet.header.tick,
            sent,
        )) by {
            assert(rest[i] == steps[i]);
        }
        law_channels_hold_what_was_sent(model, rest, sent);
        lemma_step_sent(after_steps(model, rest), last, sent);
    }
}

/// A manager that was not used yet holds nothing.
pub proof fn law_initial_holds_nothing(
    registry: RegistryModel,
    sent: Seq<Set<(MessageModel, Tick)>>,
)
    requires
        registry.settings.len() <= sent.len(),
    ensures
        all_sent(ManagerModel::initial(registry).receivers, sent),
{
}

/// The packets of a manager carry on each channel what the channel sends.
pub proof fn law_packets_carry_what_was_sent(
    sender: ManagerModel,
    tick: Tick,
    k: int,
    sent: Seq<Set<(MessageModel, Tick)>>,
)
    requires
        sender.wf(),
        0 <= k < sender.packets(tick).len(),
        forall|i: int, message: MessageModel|
            0 <= i < sender.senders.len() && i < sent.len()
                && #[trigger] sender.senders[i].outgoing().contains(message)
                ==> sent[i].contains((message, tick)),
    ensures
        sender.packets(tick)[k].header.tick == tick,
        carries_sent(sender.packets(tick)[k].data, tick, sent),
{
    let data = sender.packets(tick)[k].data;
    assert forall|j: int| 0 <= j < data.len() implies {
        let (net_id, message) = #[trigger] data[j];
        net_id < sent.len() ==> sent[net_id as int].contains((message, tick))
    } by {
        law_packets_carry_what_channels_send(sender, tick, k, j);
    }
}

proof fn lemma_run_in_buffer(buffer: Map<u16, SingleModel>, from: MessageId, i: int)
    requires
        0 <= i < run(buffer, from).len(),
    ensures
        exists|id: u16| #[trigger] buffer.contains_key(id) && buffer[id] == run(buffer, from)[i],
    decreases buffer.dom().len(),
{
    if buffer.dom().finite() && buffer.contains_key(from.0) {
        let rest = buffer.remove(from.0);
        let tail = run(rest, from.successor());
        assert(run(buffer, from) == seq![buffer[from.0]] + tail);
        if i == 0 {
            assert(buffer.contains_key(from.0));
        } else {
            lemma_run_in_buffer(rest, from.successor(), i - 1);
            let id = choose|id: u16| #[trigger] rest.contains_key(id) && rest[id] == tail[i - 1];
            assert(buffer.contains_key(id) && buffer[id] == run(buffer, from)[i]);
        }
    }
}

/// What is read under a channel was sent on that channel: in one piece, and then it is read with
/// the tick of the packet that carried it, or in fragments.
pub proof fn law_read_was_sent<M: BitSerializable>(
    model: ManagerModel,
    sent: Seq<Set<(MessageModel, Tick)>>,
    read: Map<ChannelKind, Vec<(Tick, M)>>,
    kind: ChannelKind,
    j: int,
)
    requires
        model.wf(),
        all_sent(model.receivers, sent),
        model.reads_as(read),
        read.contains_key(kind),
        0 <= j < read[kind]@.len(),
    ensures
        model.registry.kinds.contains(kind),
        exists|data: SingleModel| #[trigger]
            was_sent(data, sent[model.registry.net_id(kind) as int]) && data.tick == Some(
                read[kind]@[j].0,
            ) && M::decodes_to(data.bytes, read[kind]@[j].1),
{
    let i = model.registry.net_id(kind) as int;
    lemma_kind(model.registry, kind);
    let receiver = model.receivers[i];
    assert(holds_sent(receiver, sent[i]));
    assert(decoded_from(read[kind]@, receiver.ready()));
    let (tick, message) = read[kind]@[j];
    let data = receiver.ready()[j];
    match receiver {
        ReceiverModel::Unordered(m) => {},
        ReceiverModel::Ordered(m) => {
            lemma_run_in_buffer(m.buffer, m.pending, j);
            let id = choose|id: u16| #[trigger] m.buffer.contains_key(id) && m.buffer[id] == data;
            assert(was_sent(m.buffer[id], sent[i]));
        },
    }
    assert(was_sent(data, sent[i]));
}

// ---------------------------------------------------------------------------------------
// The tick of a message
// ---------------------------------------------------------------------------------------

proof fn lemma_whole_is_ready(
    model: UnorderedModel,
    messages: Seq<MessageModel>,
    tick: Tick,
    data: SingleModel,
)
    ensures
        ({
            let after = receive_messages(ReceiverModel::Unordered(model), messages, tick);
            &&& after is Unordered
            &&& model.ready.len() <= after.ready().len()
            &&& after.ready().take(model.ready.len() as int) == model.ready
            &&& messages.contains(MessageModel::Single(data)) ==> exists|i: int|
                model.ready.len() <= i < after.ready().len() && #[trigger] after.ready()[i] == (
                SingleModel { tick: Some(tick), ..data })
        }),
    decreases messages.len(),
{
    let stamped = SingleModel { tick: Some(tick), ..data };
    let after = receive_messages(ReceiverModel::Unordered(model), messages, tick);
    if messages.len() == 0 {
        assert(model.ready.take(model.ready.len() as int) =~= model.ready);
    } else {
        let next = model.receive(messages[0].stamped(tick));
        let rest = messages.drop_first();
        let n = model.ready.len() as int;
        lemma_whole_is_ready(next, rest, tick, data);
        let prefix = after.ready().take(next.ready.len() as int);
        assert(next.ready.take(n) =~= model.ready);
        assert(after.ready().take(n) =~= prefix.take(n));
        if messages.contains(MessageModel::Single(data)) {
            let k = choose|k: int|
                0 <= k < messages.len() && messages[k] == MessageModel::Single(data);
            if k == 0 {
                assert(next.ready[n] == stamped);
                assert(after.ready()[n] == prefix[n]);
            } else {
                assert(rest[k - 1] == messages[k]);
                let i = choose|i: int|
                    next.ready.len() <= i < after.ready().len() && #[trigger] after.ready()[i]
                        == stamped;
                assert(after.ready()[i] == stamped);
            }
        }
    }
}

proof fn lemma_whole_is_buffered(
    model: OrderedModel,
    messages: Seq<MessageModel>,
    tick: Tick,
    data: SingleModel,
)
    requires
        messages.contains(MessageModel::Single(data)),
        data.id is Some,
        !model.has(data.id.unwrap()),
    ensures
        ({
            let after = receive_messages(ReceiverModel::Ordered(model), messages, tick);
            &&& after is Ordered
            &&& after->Ordered_0.buffer.contains_key(data.id.unwrap().0)
        }),
    decreases messages.len(),
{
    let next = model.receive(messages[0].stamped(tick));
    let rest = messages.drop_first();
    let id = data.id.unwrap();
    law_completed_messages_get_the_tick(next, rest, tick);
    let k = choose|k: int| 0 <= k < messages.len() && messages[k] == MessageModel::Single(data);
    if next.buffer.contains_key(id.0) {
    } else {
        assert(k != 0);
        assert(rest[k - 1] == messages[k]);
        assert(next.pending == model.pending);
        lemma_whole_is_buffered(next, rest, tick, data);
    }
}

/// A message that comes whole in a packet is held, as soon as the packet is received, with the tick
/// of that packet. Where messages are numbered, this is the first time that the message comes.
pub proof fn law_whole_message_has_the_tick_of_its_packet(
    sender: ManagerModel,
    receiver: ManagerModel,
    tick: Tick,
    k: int,
    net_id: NetId,
    data: SingleModel,
)
    requires
        sender.wf(),
        receiver.wf(),
        sender.registry == receiver.registry,
        0 <= k < sender.packets(tick).len(),
        net_id < receiver.registry.kinds.len(),
        channel_items(sender.packets(tick)[k].data, net_id).contains(MessageModel::Single(data)),
    ensures
        ({
            let after = receiver.receive(sender.packets(tick)[k]).receivers[net_id as int];
            match receiver.receivers[net_id as int] {
                ReceiverModel::Unordered(model) => {
                    exists|i: int|
                        model.ready.len() <= i < after.ready().len() && #[trigger] after.ready()[i]
                            == (SingleModel { tick: Some(tick), ..data })
                },
                ReceiverModel::Ordered(model) => {
                    data.id is Some && !model.has(data.id.unwrap()) ==> {
                        let id = data.id.unwrap().0;
                        &&& after is Ordered
                        &&& after->Ordered_0.buffer.contains_key(id)
                        &&& after->Ordered_0.buffer[id].tick == Some(tick)
                    }
                },
            }
        }),
{
    law_any_packet_is_received(sender, receiver, tick, k);
    let messages = channel_items(sender.packets(tick)[k].data, net_id);
    match receiver.receivers[net_id as int] {
        ReceiverModel::Unordered(model) => {
            lemma_whole_is_ready(model, messages, tick, data);
        },
        ReceiverModel::Ordered(model) => {
            if data.id is Some && !model.has(data.id.unwrap()) {
                lemma_whole_is_buffered(model, messages, tick, data);
                law_completed_messages_get_the_tick(model, messages, tick);
            }
        },
    }
}

// ---------------------------------------------------------------------------------------
// What a channel sees of a history
// ---------------------------------------------------------------------------------------

/// The messages of a packet for one channel, as the channel gets them.
pub open spec fn messages_for(packet: PacketModel, net_id: NetId) -> Seq<Arrival> {
    channel_items(packet.data, net_id).map_values(
        |m: MessageModel| Arrival::Message(m.stamped(packet.header.tick)),
    )
}

/// What happens to the receiving end of one channel in a history.
pub open spec fn seen_by(steps: Seq<Step>, net_id: NetId) -> Seq<Arrival>
    decreases steps.len(),
{
    if steps.len() == 0 {
        Seq::empty()
    } else {
        seen_by(steps.drop_last(), net_id) + match steps.last() {
            Step::Update(now, _) => seq![Arrival::Time(now)],
            Step::Receive(packet) => messages_for(packet, net_id),
            Step::Read => seq![Arrival::Read],
            _ => Seq::empty(),
        }
    }
}

proof fn lemma_arrivals_concat(receiver: ReceiverModel, a: Seq<Arrival>, b: Seq<Arrival>)
    ensures
        after_arrivals(receiver, a + b) == after_arrivals(after_arrivals(receiver, a), b),
    decreases b.len(),
{
    if b.len() == 0 {
        assert(a + b =~= a);
    } else {
        lemma_arrivals_concat(receiver, a, b.drop_last());
        assert((a + b).drop_last() =~= a + b.drop_last());
        assert((a + b).last() == b.last());
    }
}

proof fn lemma_arrivals_of_messages(
    receiver: ReceiverModel,
    messages: Seq<MessageModel>,
    tick: Tick,
)
    ensures
        receive_messages(receiver, messages, tick) == after_arrivals(
            receiver,
            messages.map_values(|m: MessageModel| Arrival::Message(m.stamped(tick))),
        ),
    decreases messages.len(),
{
    let f = |m: MessageModel| Arrival::Message(m.stamped(tick));
    let all = messages.map_values(f);
    if messages.len() > 0 {
        let rest = messages.drop_first();
        let next = receiver.receive(messages[0].stamped(tick));
        lemma_arrivals_of_messages(next, rest, tick);
        let first = seq![f(messages[0])];
        assert(all =~= first + rest.map_values(f));
        lemma_arrivals_concat(receiver, first, rest.map_values(f));
        assert(first.drop_last() =~= Seq::empty());
        reveal_with_fuel(after_arrivals, 2);
        assert(after_arrivals(receiver, first) == next);
    }
}

/// The kind of a receiver never changes.
proof fn lemma_arrivals_kind(receiver: ReceiverModel, arrivals: Seq<Arrival>)
    ensures
        after_arrivals(receiver, arrivals) is Ordered <==> receiver is Ordered,
    decreases arrivals.len(),
{
    if arrivals.len() > 0 {
        let before = after_arrivals(receiver, arrivals.drop_last());
        lemma_arrivals_kind(receiver, arrivals.drop_last());
        match arrivals.last() {
            Arrival::Read => {
                lemma_read_kind(before, before.ready().len());
            },
            _ => {},
        }
    }
}

proof fn lemma_read_kind(receiver: ReceiverModel, n: nat)
    ensures
        receiver.read(n) is Ordered <==> receiver is Ordered,
    decreases n,
{
    if n > 0 {
        lemma_read_kind(receiver.read_one(), (n - 1) as nat);
    }
}

/// The receiving end of a channel sees the times, the messages for it and the reads of a history, in
/// order, and nothing else: what happens to other channels and what is sent does not touch it.
pub proof fn law_channel_sees_its_history(model: ManagerModel, steps: Seq<Step>)
    requires
        model.receivers.len() <= u16::MAX,
        forall|i: int|
            0 <= i < steps.len() ==> (#[trigger] steps[i] matches Step::Receive(packet)
                ==> accepted(model.receivers, packet.data)),
    ensures
        after_steps(model, steps).receivers == Seq::new(
            model.receivers.len(),
            |c: int| after_arrivals(model.receivers[c], seen_by(steps, c as u16)),
        ),
    decreases steps.len(),
{
    let expected = Seq::new(
        model.receivers.len(),
        |c: int| after_arrivals(model.receivers[c], seen_by(steps, c as u16)),
    );
    if steps.len() == 0 {
        assert(expected =~= model.receivers);
    } else {
        let rest = steps.drop_last();
        let last = steps[steps.len() - 1];
        assert(steps.last() == last);
        assert forall|i: int| 0 <= i < rest.len() implies (
        #[trigger] rest[i] matches Step::Receive(packet) ==> accepted(
            model.receivers,
            packet.data,
        )) by {
            assert(rest[i] == steps[i]);
        }
        law_channel_sees_its_history(model, rest);
        let before = after_steps(model, rest);
        let after = after_steps(model, steps);
        match last {
            Step::Receive(packet) => {
                assert forall|c: int| 0 <= c < model.receivers.len() implies (
                #[trigger] before.receivers[c] is Ordered <==> model.receivers[c] is Ordered) by {
                    lemma_arrivals_kind(model.receivers[c], seen_by(rest, c as u16));
                }
                assert(accepted(before.receivers, packet.data)) by {
                    assert forall|k: int| 0 <= k < packet.data.len() implies {
                        let (n, m) = #[trigger] packet.data[k];
                        n < before.receivers.len() && before.receivers[n as int].error(m) is None
                    } by {
                        let (n, m) = packet.data[k];
                        assert(model.receivers[n as int].error(m) is None);
                        assert(before.receivers[n as int] is Ordered
                            <==> model.receivers[n as int] is Ordered);
                    }
                }
                law_deliver(before.receivers, packet.data, packet.header.tick);
            },
            _ => {},
        }
        assert(after.receivers.len() == model.receivers.len());
        assert forall|c: int| 0 <= c < model.receivers.len() implies after.receivers[c]
            == expected[c] by {
            let receiver = before.receivers[c];
            let seen = seen_by(rest, c as u16);
            let added = match last {
                Step::Update(now, _) => seq![Arrival::Time(now)],
                Step::Receive(packet) => messages_for(packet, c as u16),
                Step::Read => seq![Arrival::Read],
                _ => Seq::empty(),
            };
            assert(seen_by(steps, c as u16) == seen + added);
            lemma_arrivals_concat(model.receivers[c], seen, added);
            assert(receiver == after_arrivals(model.receivers[c], seen));
            reveal_with_fuel(after_arrivals, 2);
            match last {
                Step::Update(now, rtt) => {
                    assert(added.drop_last() =~= Seq::empty());
                },
                Step::Read => {
                    assert(added.drop_last() =~= Seq::empty());
                },
                Step::Receive(packet) => {
                    lemma_arrivals_of_messages(
                        receiver,
                        channel_items(packet.data, c as u16),
                        packet.header.tick,
                    );
                },
                _ => {},
            }
        }
        assert(after.receivers =~= expected);
    }
}

// ---------------------------------------------------------------------------------------
// Ready messages stay
// ---------------------------------------------------------------------------------------

/// Whether a receiver holds all that it held before.
spec fn has_grown(before: ReceiverModel, after: ReceiverModel) -> bool {
    match before {
        ReceiverModel::Unordered(b) => after matches ReceiverModel::Unordered(a)
            && b.ready.is_prefix_of(a.ready),
        ReceiverModel::Ordered(b) => after matches ReceiverModel::Ordered(a) && {
            &&& a.pending == b.pending
            &&& a.buffer.dom().finite()
            &&& forall|id: u16| #[trigger]
                b.buffer.contains_key(id) ==> a.buffer.contains_key(id) && a.buffer[id]
                    == b.buffer[id]
        },
    }
}

proof fn lemma_receive_grows(before: ReceiverModel, after: ReceiverModel, message: MessageModel)
    requires
        has_grown(before, after),
    ensures
        has_grown(before, after.receive(message)),
{
    match before {
        ReceiverModel::Unordered(b) => {
            let a = after->Unordered_0;
            let next = a.receive(message);
            assert(b.ready =~= next.ready.take(b.ready.len() as int));
        },
        ReceiverModel::Ordered(b) => {
            let a = after->Ordered_0;
            let next = a.receive(message);
            assert forall|id: u16| #[trigger]
                b.buffer.contains_key(id) implies next.buffer.contains_key(id) && next.buffer[id]
                == b.buffer[id] by {
                assert(a.has(MessageId(id)));
            }
        },
    }
}

proof fn lemma_deliver_grows(
    start: Seq<ReceiverModel>,
    receivers: Seq<ReceiverModel>,
    items: Seq<(NetId, MessageModel)>,
    tick: Tick,
)
    requires
        start.len() == receivers.len(),
        forall|i: int| 0 <= i < start.len() ==> has_grown(start[i], #[trigger] receivers[i]),
    ensures
        deliver(receivers, items, tick).0.len() == start.len(),
        forall|i: int|
            0 <= i < start.len() ==> has_grown(
                start[i],
                #[trigger] deliver(receivers, items, tick).0[i],
            ),
    decreases items.len(),
{
    if items.len() > 0 {
        let (net_id, message) = items[0];
        if net_id < receivers.len() && receivers[net_id as int].error(message) is None {
            let receiver = receivers[net_id as int];
            let next = receivers.update(net_id as int, receiver.receive(message.stamped(tick)));
            assert(has_grown(start[net_id as int], receivers[net_id as int]));
            lemma_receive_grows(start[net_id as int], receiver, message.stamped(tick));
            assert forall|i: int| 0 <= i < start.len() implies has_grown(
                start[i],
                #[trigger] next[i],
            ) by {
                if i != net_id {
                    assert(next[i] == receivers[i]);
                }
            }
            lemma_deliver_grows(start, next, items.drop_first(), tick);
        }
    }
}

proof fn lemma_run_grows(
    before: Map<u16, SingleModel>,
    after: Map<u16, SingleModel>,
    from: MessageId,
)
    requires
        after.dom().finite(),
        forall|id: u16| #[trigger]
            before.contains_key(id) ==> after.contains_key(id) && after[id] == before[id],
    ensures
        run(before, from).is_prefix_of(run(after, from)),
    decreases before.dom().len(),
{
    let left = run(before, from);
    let right = run(after, from);
    if before.dom().finite() && before.contains_key(from.0) {
        let b = before.remove(from.0);
        let a = after.remove(from.0);
        assert forall|id: u16| #[trigger] b.contains_key(id) implies a.contains_key(id) && a[id]
            == b[id] by {
            assert(before.contains_key(id));
        }
        lemma_run_grows(b, a, from.successor());
        let l = run(b, from.successor());
        let r = run(a, from.successor());
        assert(left == seq![before[from.0]] + l);
        assert(right == seq![after[from.0]] + r);
        assert(left =~= right.take(left.len() as int)) by {
            assert(l =~= r.take(l.len() as int));
            assert forall|i: int| 0 <= i < left.len() implies left[i] == right[i] by {
                if i > 0 {
                    assert(left[i] == l[i - 1]);
                    assert(right[i] == r[i - 1]);
                    assert(l[i - 1] == r.take(l.len() as int)[i - 1]);
                }
            }
        }
    } else {
        assert(left =~= right.take(0));
    }
}

proof fn lemma_steps_grow(model: ManagerModel, steps: Seq<Step>)
    requires
        model.receivers_wf(),
        forall|i: int| 0 <= i < steps.len() ==> !(#[trigger] steps[i] is Read),
    ensures
        after_steps(model, steps).receivers.len() == model.receivers.len(),
        forall|i: int|
            0 <= i < model.receivers.len() ==> has_grown(
                model.receivers[i],
                #[trigger] after_steps(model, steps).receivers[i],
            ),
    decreases steps.len(),
{
    if steps.len() == 0 {
        assert forall|i: int| 0 <= i < model.receivers.len() implies has_grown(
            model.receivers[i],
            #[trigger] after_steps(model, steps).receivers[i],
        ) by {
            assert(model.receivers[i].wf());
            match model.receivers[i] {
                ReceiverModel::Unordered(b) => {
                    assert(b.ready =~= b.ready.take(b.ready.len() as int));
                },
                ReceiverModel::Ordered(b) => {},
            }
        }
    } else {
        let rest = steps.drop_last();
        let last = steps[steps.len() - 1];
        assert(steps.last() == last);
        assert forall|i: int| 0 <= i < rest.len() implies !(#[trigger] rest[i] is Read) by {
            assert(rest[i] == steps[i]);
        }
        lemma_steps_grow(model, rest);
        let before = after_steps(model, rest);
        match last {
            Step::Receive(packet) => {
                lemma_deliver_grows(
                    model.receivers,
                    before.receivers,
                    packet.data,
                    packet.header.tick,
                );
            },
            Step::Update(now, rtt) => {
                let after = after_steps(model, steps);
                assert forall|i: int| 0 <= i < model.receivers.len() implies has_grown(
                    model.receivers[i],
                    #[trigger] after.receivers[i],
                ) by {
                    assert(has_grown(model.receivers[i], before.receivers[i]));
                }
            },
            _ => {},
        }
    }
}

/// A message that can be read stays so until it is read, whatever happens in between: sending,
/// receiving, buffering, subscribing and the passing of time take no message away, and put none
/// before it.
pub proof fn law_ready_messages_stay(model: ManagerModel, steps: Seq<Step>, i: int)
    requires
        model.wf(),
        forall|k: int| 0 <= k < steps.len() ==> !(#[trigger] steps[k] is Read),
        0 <= i < model.receivers.len(),
    ensures
        model.receivers[i].ready().is_prefix_of(after_steps(model, steps).receivers[i].ready()),
{
    lemma_steps_grow(model, steps);
    let after = after_steps(model, steps).receivers[i];
    assert(has_grown(model.receivers[i], after));
    match model.receivers[i] {
        ReceiverModel::Unordered(b) => {},
        ReceiverModel::Ordered(b) => {
            lemma_run_grows(b.buffer, after->Ordered_0.buffer, b.pending);
        },
    }
}

// ---------------------------------------------------------------------------------------
// Records stay until they are used
// ---------------------------------------------------------------------------------------

/// Whether no packet that is received in a history acknowledges the packet `id`.
pub open spec fn not_acknowledged(steps: Seq<Step>, id: PacketId) -> bool {
    forall|i: int|
        0 <= i < steps.len() ==> (#[trigger] steps[i] matches Step::Receive(packet)
            ==> !packet.header.acks(id))
}

/// Whether the same is on record of a packet, and the same is known of its acknowledgement.
pub open spec fn same_records(before: ManagerModel, after: ManagerModel, id: PacketId) -> bool {
    &&& after.registry == before.registry
    &&& after.senders.len() == before.senders.len()
    &&& after.acks.contains_key(id.0) <==> before.acks.contains_key(id.0)
    &&& before.acks.contains_key(id.0) ==> after.acks[id.0] == before.acks[id.0]
    &&& after.header.sent_not_acked.contains_key(id.0)
        <==> before.header.sent_not_acked.contains_key(id.0)
}

proof fn lemma_record_acks_elsewhere(
    acks: AckModel,
    registry: RegistryModel,
    packet: u16,
    added: Seq<(NetId, MessageAck)>,
    id: u16,
)
    requires
        packet != id,
    ensures
        record_acks(acks, registry, packet, added).contains_key(id) == acks.contains_key(id),
        acks.contains_key(id) ==> record_acks(acks, registry, packet, added)[id] == acks[id],
    decreases added.len(),
{
    if added.len() > 0 {
        lemma_record_acks_elsewhere(acks, registry, packet, added.drop_last(), id);
    }
}

proof fn lemma_record_packets_elsewhere(
    acks: AckModel,
    registry: RegistryModel,
    packets: Seq<PacketModel>,
    id: PacketId,
)
    requires
        number_absent(packets, id),
    ensures
        record_packets(acks, registry, packets).contains_key(id.0) == acks.contains_key(id.0),
        acks.contains_key(id.0) ==> record_packets(acks, registry, packets)[id.0] == acks[id.0],
    decreases packets.len(),
{
    if packets.len() > 0 {
        let rest = packets.drop_last();
        assert(number_absent(rest, id)) by {
            assert forall|k: int| 0 <= k < rest.len() implies (
            #[trigger] rest[k]).header.packet_id != id by {
                assert(rest[k] == packets[k]);
            }
        }
        lemma_record_packets_elsewhere(acks, registry, rest, id);
        let last = packets[packets.len() - 1];
        assert(packets.last() == last);
        lemma_record_acks_elsewhere(
            record_packets(acks, registry, rest),
            registry,
            last.header.packet_id.0,
            items_acks(last.data),
            id.0,
        );
    }
}

proof fn lemma_send_keeps_records(model: ManagerModel, tick: Tick, id: PacketId)
    requires
        number_absent(model.packets(tick), id),
    ensures
        same_records(model, model.after_send(tick), id),
{
    let packets = model.packets(tick);
    lemma_record_packets_elsewhere(model.acks, model.registry, packets, id);
    if !model.header.sent_not_acked.contains_key(id.0) {
        assert forall|k: nat| k < packets.len() implies (#[trigger] model.header.sent(
            k,
        )).next_packet_id != id by {
            assert(packets[k as int].header.packet_id == model.header.sent(k).next_packet_id);
        }
        lemma_sent_only(model.header, packets.len(), id);
    } else {
        lemma_sent(model.header, packets.len());
    }
}

proof fn lemma_receive_keeps_records(model: ManagerModel, packet: PacketModel, id: PacketId)
    requires
        !packet.header.acks(id),
    ensures
        same_records(model, model.receive(packet), id),
{
    lemma_newly_acked(model.header, packet.header);
    assert(!model.header.newly_acked(packet.header).contains(id));
}

proof fn lemma_step_keeps_records(model: ManagerModel, step: Step, id: PacketId)
    requires
        model.registry.wf(),
        model.senders.len() == model.registry.kinds.len(),
        step matches Step::Send(tick) ==> number_absent(model.packets(tick), id),
        step matches Step::Receive(packet) ==> !packet.header.acks(id),
    ensures
        same_records(model, after_step(model, step), id),
{
    match step {
        Step::Send(tick) => {
            lemma_send_keeps_records(model, tick, id);
        },
        Step::Receive(packet) => {
            lemma_receive_keeps_records(model, packet, id);
        },
        Step::Buffer(kind, _) | Step::Subscribe(kind) | Step::Report(kind, _) => {
            if model.registry.kinds.contains(kind) {
                lemma_kind(model.registry, kind);
            }
        },
        _ => {},
    }
}

proof fn lemma_first_steps(model: ManagerModel, steps: Seq<Step>, id: PacketId)
    requires
        steps.len() > 0,
        number_not_used(model, steps, id),
        not_acknowledged(steps, id),
    ensures
        number_not_used(model, steps.drop_last(), id),
        not_acknowledged(steps.drop_last(), id),
        steps.last() matches Step::Send(tick) ==> number_absent(
            after_steps(model, steps.drop_last()).packets(tick),
            id,
        ),
        steps.last() matches Step::Receive(packet) ==> !packet.header.acks(id),
{
    let rest = steps.drop_last();
    assert forall|i: int| 0 <= i < rest.len() implies (#[trigger] rest[i] matches Step::Send(tick)
        ==> number_absent(after_steps(model, rest.take(i)).packets(tick), id)) by {
        assert(rest[i] == steps[i]);
        assert(rest.take(i) =~= steps.take(i));
    }
    assert forall|i: int| 0 <= i < rest.len() implies (
    #[trigger] rest[i] matches Step::Receive(packet) ==> !packet.header.acks(id)) by {
        assert(rest[i] == steps[i]);
    }
    assert(steps.last() == steps[steps.len() - 1]);
    assert(steps.take(steps.len() - 1) =~= rest);
}

/// What is on record of a packet stays until the packet is acknowledged, whatever happens in
/// between, as long as its number is not used again.
pub proof fn law_records_stay(model: ManagerModel, steps: Seq<Step>, id: PacketId)
    requires
        model.registry.wf(),
        model.senders.len() == model.registry.kinds.len(),
        number_not_used(model, steps, id),
        not_acknowledged(steps, id),
    ensures
        same_records(model, after_steps(model, steps), id),
    decreases steps.len(),
{
    if steps.len() > 0 {
        let rest = steps.drop_last();
        lemma_first_steps(model, steps, id);
        law_records_stay(model, rest, id);
        lemma_step_keeps_records(after_steps(model, rest), steps.last(), id);
    }
}

/// Whether a sender that was told of `ack` acts on it: a reliable channel does not send the piece
/// any more, subscribers learn of a whole message, and a fragment is noted or completes its message.
pub open spec fn acts_on(before: SenderModel, after: SenderModel, ack: MessageAck) -> bool {
    match before {
        SenderModel::Reliable(_) => after matches SenderModel::Reliable(a) && settled(a, ack),
        SenderModel::Unreliable(b) => b.with_acks ==> (after matches SenderModel::Unreliable(a)
            && match ack.fragment_id {
            None => exists|ids: Seq<MessageId>| #[trigger]
                all_told(b.subscribers, a.subscribers, ids) && ids.contains(ack.message_id),
            Some(j) => {
                let id = ack.message_id.0;
                b.waiting.contains_key(id) && j < b.waiting[id].len()
                    ==> !a.waiting.contains_key(id) || a.waiting[id][j as int]
            },
        }),
    }
}

proof fn lemma_told_more(
    first: Seq<Seq<MessageId>>,
    second: Seq<Seq<MessageId>>,
    third: Seq<Seq<MessageId>>,
    a: Seq<MessageId>,
    b: Seq<MessageId>,
)
    requires
        all_told(first, second, a),
        all_told(second, third, b),
    ensures
        all_told(first, third, a + b),
        forall|id: MessageId| #[trigger] a.contains(id) ==> (a + b).contains(id),
        forall|id: MessageId| #[trigger] b.contains(id) ==> (a + b).contains(id),
{
    assert forall|q: int| 0 <= q < first.len() implies #[trigger] third[q] == first[q] + (a
        + b) by {
        assert(third[q] == second[q] + b);
        assert(second[q] == first[q] + a);
        assert(first[q] + a + b =~= first[q] + (a + b));
    }
    assert forall|id: MessageId| #[trigger] a.contains(id) implies (a + b).contains(id) by {
        let i = choose|i: int| 0 <= i < a.len() && a[i] == id;
        assert((a + b)[i] == id);
    }
    assert forall|id: MessageId| #[trigger] b.contains(id) implies (a + b).contains(id) by {
        let i = choose|i: int| 0 <= i < b.len() && b[i] == id;
        assert((a + b)[a.len() + i] == id);
    }
}

/// What an unreliable sender was told of, among `acks`, it acted on.
proof fn lemma_unreliable_acts(model: UnreliableModel, acks: Seq<MessageAck>, ack: MessageAck)
    requires
        model.with_acks,
    ensures
        SenderModel::Unreliable(model).notify_all(acks) matches SenderModel::Unreliable(after) && {
            let id = ack.message_id.0;
            &&& after.with_acks
            &&& exists|ids: Seq<MessageId>| #[trigger]
                all_told(model.subscribers, after.subscribers, ids) && (acks.contains(ack)
                    && ack.fragment_id is None ==> ids.contains(ack.message_id))
            &&& model.waiting.contains_key(id) && after.waiting.contains_key(id)
                ==> after.waiting[id].len() == model.waiting[id].len()
            &&& after.waiting.contains_key(id) ==> model.waiting.contains_key(id)
            &&& ack.fragment_id matches Some(j) ==> (acks.contains(ack)
                && after.waiting.contains_key(id) && j < after.waiting[id].len()
                ==> after.waiting[id][j as int])
        },
    decreases acks.len(),
{
    let id = ack.message_id.0;
    if acks.len() == 0 {
        let ids = Seq::<MessageId>::empty();
        assert(all_told(model.subscribers, model.subscribers, ids)) by {
            assert forall|q: int| 0 <= q < model.subscribers.len() implies
                #[trigger] model.subscribers[q] == model.subscribers[q] + ids by {
                assert(model.subscribers[q] + ids =~= model.subscribers[q]);
            }
        }
    } else {
        let rest = acks.drop_last();
        let last = acks.last();
        lemma_unreliable_acts(model, rest, ack);
        let before = SenderModel::Unreliable(model).notify_all(rest)->Unreliable_0;
        let after = before.notify(last);
        let told_before = choose|ids: Seq<MessageId>| #[trigger]
            all_told(model.subscribers, before.subscribers, ids) && (rest.contains(ack)
                && ack.fragment_id is None ==> ids.contains(ack.message_id));
        law_unreliable_acknowledgement(before, last, id);
        let added = if before.completes(last) {
            seq![last.message_id]
        } else {
            Seq::empty()
        };
        assert(all_told(before.subscribers, after.subscribers, added)) by {
            if !before.completes(last) {
                assert forall|q: int|
                    0 <= q < before.subscribers.len() implies #[trigger] after.subscribers[q]
                    == before.subscribers[q] + added by {
                    assert(before.subscribers[q] + added =~= before.subscribers[q]);
                }
            }
        }
        lemma_told_more(
            model.subscribers,
            before.subscribers,
            after.subscribers,
            told_before,
            added,
        );
        let ids = told_before + added;
        if acks.contains(ack) && !rest.contains(ack) {
            let i = choose|i: int| 0 <= i < acks.len() && acks[i] == ack;
            if i < rest.len() {
                assert(rest[i] == ack);
            }
            assert(last == ack);
            if ack.fragment_id is None {
                assert(added[0] == ack.message_id);
                assert(added.contains(ack.message_id));
            }
        }
        assert(all_told(model.subscribers, after.subscribers, ids) && (acks.contains(ack)
            && ack.fragment_id is None ==> ids.contains(ack.message_id)));
    }
}

proof fn lemma_acts_on(sender: SenderModel, acks: Seq<MessageAck>, ack: MessageAck)
    requires
        acks.contains(ack),
    ensures
        acts_on(sender, sender.notify_all(acks), ack),
{
    match sender {
        SenderModel::Reliable(model) => {
            lemma_notify_all_settles(model, acks, ack);
        },
        SenderModel::Unreliable(model) => {
            if model.with_acks {
                lemma_unreliable_acts(model, acks, ack);
            }
        },
    }
}

proof fn lemma_carried_contains(
    packets: Seq<PacketModel>,
    id: u16,
    net_id: NetId,
    k: int,
    message: MessageModel,
)
    requires
        0 <= k < packets.len(),
        packets[k].header.packet_id.0 == id,
        channel_items(packets[k].data, net_id).contains(message),
    ensures
        carried(packets, id, net_id).contains(message),
    decreases packets.len(),
{
    let rest = packets.drop_last();
    let all = carried(packets, id, net_id);
    if k < rest.len() {
        assert(rest[k] == packets[k]);
        lemma_carried_contains(rest, id, net_id, k, message);
        let before = carried(rest, id, net_id);
        let i = choose|i: int| 0 <= i < before.len() && before[i] == message;
        assert(all[i] == message);
    } else {
        let before = carried(rest, id, net_id);
        let own = channel_items(packets[k].data, net_id);
        let i = choose|i: int| 0 <= i < own.len() && own[i] == message;
        assert(all[before.len() + i] == message);
    }
}

proof fn lemma_acks_of_contains(messages: Seq<MessageModel>, message: MessageModel)
    requires
        messages.contains(message),
        message.ack() is Some,
    ensures
        acks_of(messages).contains(message.ack().unwrap()),
    decreases messages.len(),
{
    let ack = message.ack().unwrap();
    let rest = messages.drop_last();
    let i = choose|i: int| 0 <= i < messages.len() && messages[i] == message;
    if i < rest.len() {
        assert(rest[i] == message);
        lemma_acks_of_contains(rest, message);
        let m = choose|m: int| 0 <= m < acks_of(rest).len() && acks_of(rest)[m] == ack;
        assert(acks_of(messages)[m] == ack);
    } else {
        assert(acks_of(messages)[acks_of(messages).len() - 1] == ack);
    }
}

/// After packets were sent, and after any history in which the packet is not acknowledged and its
/// number is not used again, a packet that acknowledges it makes every channel that wants to know
/// act on every message that the packet carried.
pub proof fn law_carried_messages_are_acted_on(
    model: ManagerModel,
    tick: Tick,
    k: int,
    kind: ChannelKind,
    message: MessageModel,
    steps: Seq<Step>,
    answer: PacketModel,
)
    requires
        model.wf(),
        0 <= k < model.packets(tick).len(),
        model.watches(kind),
        channel_items(model.packets(tick)[k].data, model.registry.net_id(kind)).contains(message),
        message.ack() is Some,
        number_not_used(
            model.after_send(tick),
            steps,
            model.packets(tick)[k].header.packet_id,
        ),
        not_acknowledged(steps, model.packets(tick)[k].header.packet_id),
        answer.header.acks(model.packets(tick)[k].header.packet_id),
    ensures
        ({
            let before = after_steps(model.after_send(tick), steps);
            let i = model.registry.net_id(kind) as int;
            acts_on(
                before.senders[i],
                before.receive(answer).senders[i],
                message.ack().unwrap(),
            )
        }),
{
    let ack = message.ack().unwrap();
    let packets = model.packets(tick);
    let id = packets[k].header.packet_id;
    let net_id = model.registry.net_id(kind);
    let i = net_id as int;
    let sent = model.after_send(tick);
    let before = after_steps(sent, steps);
    lemma_kind(model.registry, kind);
    law_packets_are_numbered(model, tick);
    law_sent_messages_are_recorded(model, tick, kind, id.0);
    lemma_carried_contains(packets, id.0, net_id, k, message);
    lemma_acks_of_contains(carried(packets, id.0, net_id), message);
    let earlier = recorded(model.acks, id.0, kind);
    let added = acks_of(carried(packets, id.0, net_id));
    let m = choose|m: int| 0 <= m < added.len() && added[m] == ack;
    assert((earlier + added)[earlier.len() + m] == ack);
    assert(recorded(sent.acks, id.0, kind).contains(ack));
    law_records_stay(sent, steps, id);
    assert(recorded(before.acks, id.0, kind) == recorded(sent.acks, id.0, kind));
    lemma_newly_acked(before.header, answer.header);
    let acked = before.header.newly_acked(answer.header);
    assert(acked.contains(id));
    lemma_acks_in(before.acks, acked, kind, ack);
    let acks = acks_in(before.acks, acked, kind);
    assert(acks.contains(ack));
    assert(before.registry.kinds[i] == kind);
    lemma_acts_on(before.senders[i], acks, ack);
    assert(before.receive(answer).senders[i] == before.senders[i].notify_all(acks));
}

// ---------------------------------------------------------------------------------------
// Reports stay until they are read
// ---------------------------------------------------------------------------------------

proof fn lemma_notify_all_reports(sender: SenderModel, acks: Seq<MessageAck>, q: int)
    requires
        0 <= q < sender.subscribers().len(),
    ensures
        sender.notify_all(acks).subscribers().len() == sender.subscribers().len(),
        sender.subscribers()[q].is_prefix_of(sender.notify_all(acks).subscribers()[q]),
    decreases acks.len(),
{
    let queue = sender.subscribers()[q];
    if acks.len() == 0 {
        assert(queue.is_prefix_of(queue));
    } else {
        let before = sender.notify_all(acks.drop_last());
        lemma_notify_all_reports(sender, acks.drop_last(), q);
        let middle = before.subscribers()[q];
        let last = before.notify(acks.last()).subscribers()[q];
        assert(middle.is_prefix_of(last)) by {
            match before {
                SenderModel::Unreliable(model) => {
                    if model.with_acks && model.completes(acks.last()) {
                        assert(last == middle + seq![acks.last().message_id]);
                    } else {
                        assert(last == middle);
                    }
                },
                SenderModel::Reliable(model) => {
                    assert(last == middle + model.completed_by(acks.last()));
                },
            }
        }
        lemma_prefixes(queue, middle, last);
    }
}

proof fn lemma_prefixes(a: Seq<MessageId>, b: Seq<MessageId>, c: Seq<MessageId>)
    requires
        a.is_prefix_of(b),
        b.is_prefix_of(c),
    ensures
        a.is_prefix_of(c),
{
    assert(a =~= c.take(a.len() as int)) by {
        assert forall|i: int| 0 <= i < a.len() implies a[i] == c[i] by {
            assert(b[i] == c.take(b.len() as int)[i]);
            assert(a[i] == b.take(a.len() as int)[i]);
        }
    }
}

proof fn lemma_step_reports(model: ManagerModel, step: Step, i: int, q: int)
    requires
        model.registry.wf(),
        model.senders.len() == model.registry.kinds.len(),
        0 <= i < model.senders.len(),
        0 <= q < model.senders[i].subscribers().len(),
        step matches Step::Report(kind, position) ==> kind != model.registry.kinds[i] || position
            != q,
    ensures
        after_step(model, step).registry == model.registry,
        after_step(model, step).senders.len() == model.senders.len(),
        after_step(model, step).senders[i].subscribers().len()
            >= model.senders[i].subscribers().len(),
        model.senders[i].subscribers()[q].is_prefix_of(
            after_step(model, step).senders[i].subscribers()[q],
        ),
{
    let queue = model.senders[i].subscribers()[q];
    assert(queue.is_prefix_of(queue));
    match step {
        Step::Buffer(kind, _) | Step::Subscribe(kind) | Step::Report(kind, _) => {
            if model.registry.kinds.contains(kind) {
                lemma_kind(model.registry, kind);
            }
        },
        Step::Receive(packet) => {
            let acked = model.header.newly_acked(packet.header);
            lemma_notify_all_reports(
                model.senders[i],
                acks_in(model.acks, acked, model.registry.kinds[i]),
                q,
            );
        },
        _ => {},
    }
}

/// What a subscriber is to be told about stays on its list, in order, until the subscriber asks,
/// whatever happens in between. What comes later is put behind it.
pub proof fn law_reports_stay(model: ManagerModel, steps: Seq<Step>, i: int, q: int)
    requires
        model.registry.wf(),
        model.senders.len() == model.registry.kinds.len(),
        0 <= i < model.senders.len(),
        0 <= q < model.senders[i].subscribers().len(),
        forall|k: int|
            0 <= k < steps.len() ==> (#[trigger] steps[k] matches Step::Report(kind, position)
                ==> kind != model.registry.kinds[i] || position != q),
    ensures
        after_steps(model, steps).registry == model.registry,
        after_steps(model, steps).senders.len() == model.senders.len(),
        after_steps(model, steps).senders[i].subscribers().len()
            >= model.senders[i].subscribers().len(),
        model.senders[i].subscribers()[q].is_prefix_of(
            after_steps(model, steps).senders[i].subscribers()[q],
        ),
    decreases steps.len(),
{
    let queue = model.senders[i].subscribers()[q];
    if steps.len() == 0 {
        assert(queue.is_prefix_of(queue));
    } else {
        let rest = steps.drop_last();
        let last = steps[steps.len() - 1];
        assert(steps.last() == last);
        assert forall|k: int| 0 <= k < rest.len() implies (
        #[trigger] rest[k] matches Step::Report(kind, position) ==> kind
            != model.registry.kinds[i] || position != q) by {
            assert(rest[k] == steps[k]);
        }
        law_reports_stay(model, rest, i, q);
        let before = after_steps(model, rest);
        lemma_step_reports(before, last, i, q);
        lemma_prefixes(
            queue,
            before.senders[i].subscribers()[q],
            after_steps(model, steps).senders[i].subscribers()[q],
        );
    }
}

} // verus!
