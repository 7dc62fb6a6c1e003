//! What each operation changes, field by field, and what it leaves alone.
use vstd::prelude::*;

use crate::channel::fragment_receiver::DISCARD_AFTER;
use crate::channel::receiver::{run, OrderedModel, ReceiverModel, UnorderedModel};
use crate::channel::registry::{lemma_net_id, RegistryModel};
use crate::channel::reliable_sender::{PartModel, ReliableModel, UnackedModel};
use crate::channel::sender::SenderModel;
use crate::channel::settings::{ChannelMode, ReliableSettings};
use crate::channel::unreliable_sender::UnreliableModel;
use crate::header::HeaderModel;
use crate::ids::{ChannelKind, MessageId, PacketId, Tick, Time};
use crate::laws::acks::{in_window, is_newer, law_received_packets};
use crate::manager_model::{lemma_newly_acked, lemma_sent, ManagerModel};
use crate::message::{pieces, FRAGMENT_SIZE};
use crate::packet::PacketModel;

verus! {

// ---------------------------------------------------------------------------------------
// The start
// ---------------------------------------------------------------------------------------

/// A manager that was not used yet has sent, received, recorded and buffered nothing, and its
/// channels behave as they were registered.
pub proof fn law_new_manager_is_empty(registry: RegistryModel, i: int)
    requires
        0 <= i < registry.settings.len(),
    ensures
        ({
            let model = ManagerModel::initial(registry);
            &&& model.registry == registry
            &&& model.acks.dom() == Set::<u16>::empty()
            &&& model.header.next_packet_id == PacketId(0)
            &&& model.header.sent_not_acked.dom() == Set::<u16>::empty()
            &&& model.header.last_recv is None
            &&& model.senders.len() == registry.settings.len()
            &&& model.receivers.len() == registry.settings.len()
            &&& model.senders[i].subscribers().len() == 0
            &&& model.senders[i].outgoing().len() == 0
            &&& model.receivers[i].ready().len() == 0
            &&& match registry.settings[i].mode {
                ChannelMode::UnorderedUnreliable => {
                    &&& model.senders[i] matches SenderModel::Unreliable(s) && !s.with_acks
                        && s.next_id == MessageId(0)
                    &&& model.receivers[i] matches ReceiverModel::Unordered(r)
                        && r.partial.dom() == Set::<u16>::empty()
                },
                ChannelMode::UnorderedUnreliableWithAcks => {
                    &&& model.senders[i] matches SenderModel::Unreliable(s) && s.with_acks
                        && s.next_id == MessageId(0) && s.waiting.dom() == Set::<u16>::empty()
                    &&& model.receivers[i] matches ReceiverModel::Unordered(r)
                        && r.partial.dom() == Set::<u16>::empty()
                },
                ChannelMode::OrderedReliable(settings) => {
                    &&& model.senders[i] matches SenderModel::Reliable(s) && s.settings == settings
                        && s.next_id == MessageId(0) && s.unacked.len() == 0
                    &&& model.receivers[i] matches ReceiverModel::Ordered(r) && r.pending
                        == MessageId(0) && r.partial.dom() == Set::<u16>::empty()
                },
            }
        }),
{
    let model = ManagerModel::initial(registry);
    assert(model.acks.dom() =~= Set::<u16>::empty());
    assert(model.header.sent_not_acked.dom() =~= Set::<u16>::empty());
    match registry.settings[i].mode {
        ChannelMode::OrderedReliable(settings) => {
            let r = model.receivers[i]->Ordered_0;
            assert(r.partial.dom() =~= Set::<u16>::empty());
            assert(!r.buffer.contains_key(r.pending.0));
        },
        _ => {
            let r = model.receivers[i]->Unordered_0;
            assert(r.partial.dom() =~= Set::<u16>::empty());
            let s = model.senders[i]->Unreliable_0;
            assert(s.waiting.dom() =~= Set::<u16>::empty());
        },
    }
}

// ---------------------------------------------------------------------------------------
// Time
// ---------------------------------------------------------------------------------------

/// Whether `after` is the sender `before` with another clock and nothing else changed.
pub open spec fn only_clock_changed(
    before: SenderModel,
    after: SenderModel,
    now: Time,
    rtt: Time,
) -> bool {
    match before {
        SenderModel::Unreliable(_) => after == before,
        SenderModel::Reliable(b) => after matches SenderModel::Reliable(a) && {
            &&& a.now == now
            &&& a.rtt == rtt
            &&& a.settings == b.settings
            &&& a.next_id == b.next_id
            &&& a.unacked == b.unacked
            &&& a.queue == b.queue
            &&& a.subscribers == b.subscribers
        },
    }
}

/// Whether `after` is the receiver `before` with another clock and without the fragments that
/// came too long ago, and nothing else changed.
pub open spec fn only_old_fragments_gone(
    before: ReceiverModel,
    after: ReceiverModel,
    now: Time,
) -> bool {
    match before {
        ReceiverModel::Unordered(b) => after matches ReceiverModel::Unordered(a) && {
            &&& a.now == now
            &&& a.ready == b.ready
            &&& forall|id: u16| #[trigger]
                a.partial.contains_key(id) <==> b.partial.contains_key(id) && now
                    <= b.partial[id].last_received + DISCARD_AFTER
            &&& forall|id: u16| #[trigger]
                a.partial.contains_key(id) ==> a.partial[id] == b.partial[id]
        },
        ReceiverModel::Ordered(b) => after matches ReceiverModel::Ordered(a) && {
            &&& a.now == now
            &&& a.pending == b.pending
            &&& a.buffer == b.buffer
            &&& a.partial == b.partial
        },
    }
}

/// The passing of time moves the clocks on and lets unordered channels forget the fragments of
/// messages of which nothing came for too long. It changes nothing else: the records of what
/// travels in which packet, what waits for an acknowledgement, what waits to be sent and what can
/// be read all stay.
pub proof fn law_update_moves_clocks_only(model: ManagerModel, now: Time, rtt: Time)
    ensures
        ({
            let after = model.update(now, rtt);
            &&& after.acks == model.acks
            &&& after.registry == model.registry
            &&& after.header.now == now
            &&& after.header.next_packet_id == model.header.next_packet_id
            &&& after.header.sent_not_acked == model.header.sent_not_acked
            &&& after.header.last_recv == model.header.last_recv
            &&& after.header.recv_bitfield == model.header.recv_bitfield
            &&& after.senders.len() == model.senders.len()
            &&& after.receivers.len() == model.receivers.len()
            &&& forall|i: int|
                0 <= i < model.senders.len() ==> only_clock_changed(
                    model.senders[i],
                    #[trigger] after.senders[i],
                    now,
                    rtt,
                )
            &&& forall|i: int|
                0 <= i < model.receivers.len() ==> only_old_fragments_gone(
                    model.receivers[i],
                    #[trigger] after.receivers[i],
                    now,
                )
        }),
{
}

// ---------------------------------------------------------------------------------------
// Buffering
// ---------------------------------------------------------------------------------------

/// The number that follows `id`.
pub open spec fn number_after(id: MessageId) -> MessageId {
    MessageId(((id.0 + 1) % 65536) as u16)
}

/// Whether `after` is the sender `before` with the message `bytes` behind what waits already, and
/// the message has the number `id`, if any.
pub open spec fn only_message_added(
    before: SenderModel,
    after: SenderModel,
    id: Option<MessageId>,
    bytes: Seq<u8>,
) -> bool {
    match before {
        SenderModel::Unreliable(b) => after matches SenderModel::Unreliable(a) && {
            let long = bytes.len() > FRAGMENT_SIZE;
            &&& id == if b.with_acks || long {
                Some(b.next_id)
            } else {
                None
            }
            &&& a.next_id == if id is Some {
                number_after(b.next_id)
            } else {
                b.next_id
            }
            &&& a.with_acks == b.with_acks
            &&& a.subscribers == b.subscribers
            &&& a.queue == b.queue.push((id, bytes))
            &&& forall|m: u16|
                m != b.next_id.0 || !(b.with_acks && long) ==> (#[trigger] a.waiting.contains_key(m)
                    <==> b.waiting.contains_key(m))
            &&& forall|m: u16|
                (m != b.next_id.0 || !(b.with_acks && long))
                    && #[trigger] a.waiting.contains_key(m) ==> a.waiting[m] == b.waiting[m]
            &&& b.with_acks && long ==> waits_for_every_piece(a, b.next_id, bytes)
        },
        SenderModel::Reliable(b) => after matches SenderModel::Reliable(a) && {
            &&& id == Some(b.next_id)
            &&& a.next_id == number_after(b.next_id)
            &&& a.settings == b.settings
            &&& a.now == b.now
            &&& a.rtt == b.rtt
            &&& a.queue == b.queue
            &&& a.subscribers == b.subscribers
            &&& a.unacked.len() == b.unacked.len() + 1
            &&& a.unacked.drop_last() == b.unacked
            &&& is_new_message(a.unacked.last(), b.next_id, bytes)
        },
    }
}

/// Whether a sender waits for every piece of a message, none of which arrived yet.
pub open spec fn waits_for_every_piece(
    model: UnreliableModel,
    id: MessageId,
    bytes: Seq<u8>,
) -> bool {
    &&& model.waiting.contains_key(id.0)
    &&& model.waiting[id.0].len() == pieces(Some(id), bytes).len()
    &&& forall|j: int| 0 <= j < model.waiting[id.0].len() ==> !(#[trigger] model.waiting[id.0][j])
}

/// Whether `unacked` holds every piece of a message, none of which was sent or arrived yet.
pub open spec fn is_new_message(unacked: UnackedModel, id: MessageId, bytes: Seq<u8>) -> bool {
    &&& unacked.id == id
    &&& unacked.parts.len() == pieces(Some(id), bytes).len()
    &&& forall|j: int|
        0 <= j < unacked.parts.len() ==> {
            let part = #[trigger] unacked.parts[j];
            &&& part.message == pieces(Some(id), bytes)[j]
            &&& !part.acked
            &&& part.last_sent is None
        }
}

/// Buffering a message puts it behind what waits on its channel, under the next number where
/// messages of its kind are numbered, and changes nothing else.
pub proof fn law_buffer_adds_one_message(
    model: ManagerModel,
    kind: ChannelKind,
    bytes: Seq<u8>,
    i: int,
)
    requires
        model.registry.wf(),
        model.senders.len() == model.registry.kinds.len(),
        0 <= i < model.registry.kinds.len(),
        model.registry.kinds[i] == kind,
    ensures
        ({
            let after = model.buffer(kind, bytes);
            &&& after.acks == model.acks
            &&& after.registry == model.registry
            &&& after.header == model.header
            &&& after.receivers == model.receivers
            &&& after.senders.len() == model.senders.len()
            &&& forall|k: int|
                0 <= k < model.senders.len() && k != i ==> #[trigger] after.senders[k]
                    == model.senders[k]
            &&& only_message_added(
                model.senders[i],
                after.senders[i],
                model.sender(kind).id_for(bytes),
                bytes,
            )
        }),
{
    lemma_net_id(model.registry, i);
    let after = model.buffer(kind, bytes);
    match model.senders[i] {
        SenderModel::Unreliable(b) => {},
        SenderModel::Reliable(b) => {
            let a = after.senders[i]->Reliable_0;
            assert(a.unacked.drop_last() =~= b.unacked);
        },
    }
}

/// Putting another sender in place changes no other channel and nothing else; other subscribers
/// change nothing else of a sender.
pub proof fn law_subscribers_change_alone(
    model: ManagerModel,
    kind: ChannelKind,
    subscribers: Seq<Seq<MessageId>>,
    i: int,
)
    requires
        model.registry.wf(),
        model.senders.len() == model.registry.kinds.len(),
        0 <= i < model.registry.kinds.len(),
        model.registry.kinds[i] == kind,
    ensures
        ({
            let after = model.with_sender(kind, model.sender(kind).with_subscribers(subscribers));
            &&& after.acks == model.acks
            &&& after.registry == model.registry
            &&& after.header == model.header
            &&& after.receivers == model.receivers
            &&& after.senders.len() == model.senders.len()
            &&& forall|k: int|
                0 <= k < model.senders.len() && k != i ==> #[trigger] after.senders[k]
                    == model.senders[k]
            &&& after.senders[i].subscribers() == subscribers
            &&& match model.senders[i] {
                SenderModel::Unreliable(b) => after.senders[i] matches SenderModel::Unreliable(a)
                    && {
                    &&& a.with_acks == b.with_acks
                    &&& a.next_id == b.next_id
                    &&& a.queue == b.queue
                    &&& a.waiting == b.waiting
                    &&& a.subscribers == subscribers
                    &&& model.sender(kind).subscribers() == b.subscribers
                },
                SenderModel::Reliable(b) => after.senders[i] matches SenderModel::Reliable(a) && {
                    &&& a.settings == b.settings
                    &&& a.now == b.now
                    &&& a.rtt == b.rtt
                    &&& a.next_id == b.next_id
                    &&& a.unacked == b.unacked
                    &&& a.queue == b.queue
                    &&& a.subscribers == subscribers
                    &&& model.sender(kind).subscribers() == b.subscribers
                },
            }
        }),
{
    lemma_net_id(model.registry, i);
}

// ---------------------------------------------------------------------------------------
// Sending
// ---------------------------------------------------------------------------------------

/// Whether a piece is to be sent: it is not known to have arrived, and it was never sent, or was
/// sent longer ago than the shortest delay and than the given number of round trip times.
pub open spec fn must_be_sent(
    part: PartModel,
    now: Time,
    rtt: Time,
    factor: u64,
    min_delay: Time,
) -> bool {
    !part.acked && match part.last_sent {
        None => true,
        Some(t) => now > t + min_delay && now > t + rtt * factor,
    }
}

/// Whether `after` is the piece `before`, sent now if it had to be.
pub open spec fn only_send_time_changed(
    before: PartModel,
    after: PartModel,
    sender: ReliableModel,
) -> bool {
    &&& after.message == before.message
    &&& after.acked == before.acked
    &&& after.last_sent == if must_be_sent(
        before,
        sender.now,
        sender.rtt,
        sender.settings.rtt_resend_factor,
        sender.settings.rtt_resend_min_delay,
    ) {
        Some(sender.now)
    } else {
        before.last_sent
    }
}

/// Whether `after` is the sender `before` after it sent what it had to.
pub open spec fn only_sent(before: SenderModel, after: SenderModel) -> bool {
    match before {
        SenderModel::Unreliable(b) => after matches SenderModel::Unreliable(a) && {
            &&& a.queue.len() == 0
            &&& a.with_acks == b.with_acks
            &&& a.next_id == b.next_id
            &&& a.waiting == b.waiting
            &&& a.subscribers == b.subscribers
        },
        SenderModel::Reliable(b) => after matches SenderModel::Reliable(a) && {
            &&& a.queue.len() == 0
            &&& a.settings == b.settings
            &&& a.now == b.now
            &&& a.rtt == b.rtt
            &&& a.next_id == b.next_id
            &&& a.subscribers == b.subscribers
            &&& a.unacked.len() == b.unacked.len()
            &&& forall|m: int|
                0 <= m < b.unacked.len() ==> only_send_times_changed(
                    b.unacked[m],
                    #[trigger] a.unacked[m],
                    b,
                )
        },
    }
}

/// Whether `after` is the message `before` with the pieces sent that had to be.
pub open spec fn only_send_times_changed(
    before: UnackedModel,
    after: UnackedModel,
    sender: ReliableModel,
) -> bool {
    &&& after.id == before.id
    &&& after.parts.len() == before.parts.len()
    &&& forall|j: int|
        0 <= j < before.parts.len() ==> only_send_time_changed(
            before.parts[j],
            #[trigger] after.parts[j],
            sender,
        )
}

/// The delay of a reliable channel, in numbers: the longer of the shortest delay and the given
/// number of round trip times, where that is a time that can be represented.
pub proof fn law_delay_in_numbers(sender: ReliableModel, now: Time, t: Time)
    ensures
        now - t > sender.delay() <==> now > t + sender.settings.rtt_resend_min_delay && now > t
            + sender.rtt * sender.settings.rtt_resend_factor,
        sender.delay() >= sender.settings.rtt_resend_min_delay,
        sender.rtt * sender.settings.rtt_resend_factor <= u64::MAX ==> {
            &&& sender.delay() >= sender.rtt * sender.settings.rtt_resend_factor
            &&& sender.delay() == sender.settings.rtt_resend_min_delay || sender.delay()
                == sender.rtt * sender.settings.rtt_resend_factor
        },
        sender.rtt * sender.settings.rtt_resend_factor > u64::MAX ==> sender.delay() == u64::MAX,
{
}

/// The time to wait for an acknowledgement, in numbers: no shorter than the shortest delay and than
/// the given number of round trip times, and no longer than it has to be.
pub proof fn law_resend_delay(settings: ReliableSettings, rtt: Time)
    ensures
        settings.delay(rtt) >= settings.rtt_resend_min_delay,
        settings.delay(rtt) == settings.rtt_resend_min_delay || settings.delay(rtt) == if rtt
            * settings.rtt_resend_factor <= u64::MAX {
            rtt * settings.rtt_resend_factor
        } else {
            u64::MAX as int
        },
        rtt * settings.rtt_resend_factor <= u64::MAX ==> settings.delay(rtt) >= rtt
            * settings.rtt_resend_factor,
        rtt * settings.rtt_resend_factor > u64::MAX ==> settings.delay(rtt) == u64::MAX,
{
}

/// A piece is due when it must be sent.
pub proof fn law_due_in_numbers(sender: ReliableModel, part: PartModel)
    ensures
        part.due(sender.now, sender.delay()) <==> must_be_sent(
            part,
            sender.now,
            sender.rtt,
            sender.settings.rtt_resend_factor,
            sender.settings.rtt_resend_min_delay,
        ),
{
    match part.last_sent {
        None => {},
        Some(t) => {
            law_delay_in_numbers(sender, sender.now, t);
        },
    }
}

proof fn lemma_only_sent(sender: SenderModel)
    ensures
        only_sent(sender, sender.after_send()),
{
    match sender {
        SenderModel::Unreliable(b) => {},
        SenderModel::Reliable(b) => {
            let a = sender.after_send()->Reliable_0;
            assert forall|m: int| 0 <= m < b.unacked.len() implies only_send_times_changed(
                b.unacked[m],
                #[trigger] a.unacked[m],
                b,
            ) by {
                assert forall|j: int|
                    0 <= j < b.unacked[m].parts.len() implies only_send_time_changed(
                    b.unacked[m].parts[j],
                    #[trigger] a.unacked[m].parts[j],
                    b,
                ) by {
                    law_due_in_numbers(b, b.unacked[m].parts[j]);
                }
            }
        },
    }
}

/// The packets that are not acknowledged, after packets were sent.
proof fn lemma_sent_exactly(header: HeaderModel, n: nat, p: u16)
    ensures
        header.sent(n).sent_not_acked.contains_key(p) <==> header.sent_not_acked.contains_key(p)
            || exists|k: nat| k < n && #[trigger] header.sent(k).next_packet_id.0 == p,
        header.sent(n).sent_not_acked.contains_key(p) ==> header.sent(n).sent_not_acked[p]
            == if exists|k: nat| k < n && #[trigger] header.sent(k).next_packet_id.0 == p {
            header.now
        } else {
            header.sent_not_acked[p]
        },
    decreases n,
{
    lemma_sent(header, n);
    if n > 0 {
        let m = (n - 1) as nat;
        lemma_sent_exactly(header, m, p);
        lemma_sent(header, m);
        if header.sent(m).next_packet_id.0 == p {
            assert(m < n && header.sent(m).next_packet_id.0 == p);
        } else if exists|k: nat| k < n && #[trigger] header.sent(k).next_packet_id.0 == p {
            let k = choose|k: nat| k < n && #[trigger] header.sent(k).next_packet_id.0 == p;
            assert(k < m && header.sent(k).next_packet_id.0 == p);
        }
    }
}

/// Whether a packet has this number.
pub open spec fn has_number(packets: Seq<PacketModel>, p: u16) -> bool {
    exists|k: int| 0 <= k < packets.len() && (#[trigger] packets[k]).header.packet_id.0 == p
}

/// Sending empties what waits, notes when each piece was sent, and notes which packets are not
/// acknowledged and since when. It leaves alone what was received and which channels there are.
pub proof fn law_send_leaves_the_rest_alone(model: ManagerModel, tick: Tick, p: u16)
    ensures
        ({
            let after = model.after_send(tick);
            let packets = model.packets(tick);
            &&& after.receivers == model.receivers
            &&& after.registry == model.registry
            &&& after.header.now == model.header.now
            &&& after.header.last_recv == model.header.last_recv
            &&& after.header.recv_bitfield == model.header.recv_bitfield
            &&& after.header.next_packet_id.0 == (model.header.next_packet_id.0 + packets.len())
                % 65536
            &&& after.header.sent_not_acked.contains_key(p)
                <==> model.header.sent_not_acked.contains_key(p) || has_number(packets, p)
            &&& after.header.sent_not_acked.contains_key(p) ==> after.header.sent_not_acked[p]
                == if has_number(packets, p) {
                model.header.now
            } else {
                model.header.sent_not_acked[p]
            }
            &&& after.senders.len() == model.senders.len()
            &&& forall|i: int|
                0 <= i < model.senders.len() ==> only_sent(
                    model.senders[i],
                    #[trigger] after.senders[i],
                )
        }),
{
    let after = model.after_send(tick);
    let packets = model.packets(tick);
    let n = packets.len();
    lemma_sent(model.header, n);
    lemma_sent_exactly(model.header, n, p);
    let start = model.header.next_packet_id.0;
    let step = (n % 65536) as u16;
    assert(start.wrapping_add(step) == (start + n) % 65536) by {
        assert((start + n) % 65536 == (start + n % 65536) % 65536);
    }
    if has_number(packets, p) {
        let k = choose|k: int|
            0 <= k < packets.len() && (#[trigger] packets[k]).header.packet_id.0 == p;
        assert(packets[k].header.packet_id == model.header.sent(k as nat).next_packet_id);
        assert((k as nat) < n && model.header.sent(k as nat).next_packet_id.0 == p);
    }
    if exists|k: nat| k < n && #[trigger] model.header.sent(k).next_packet_id.0 == p {
        let k = choose|k: nat| k < n && #[trigger] model.header.sent(k).next_packet_id.0 == p;
        assert(packets[k as int].header.packet_id == model.header.sent(k).next_packet_id);
        assert(has_number(packets, p));
    }
    assert forall|i: int| 0 <= i < model.senders.len() implies only_sent(
        model.senders[i],
        #[trigger] after.senders[i],
    ) by {
        lemma_only_sent(model.senders[i]);
    }
}

// ---------------------------------------------------------------------------------------
// Receiving
// ---------------------------------------------------------------------------------------

/// Receiving a packet marks it as received, strikes off exactly the packets that its header
/// acknowledges, and leaves alone the numbers of packets, the clock and which channels there are.
pub proof fn law_receive_marks_packets(model: ManagerModel, packet: PacketModel, id: PacketId)
    ensures
        ({
            let after = model.receive(packet);
            &&& after.registry == model.registry
            &&& after.header.now == model.header.now
            &&& after.header.next_packet_id == model.header.next_packet_id
            &&& after.header.last_recv == if is_newer(
                model.header.last_recv,
                packet.header.packet_id,
            ) {
                Some(packet.header.packet_id)
            } else {
                model.header.last_recv
            }
            &&& after.header.has_received(id) <==> (id == packet.header.packet_id
                || model.header.has_received(id)) && in_window(after.header.last_recv, id)
            &&& after.header.sent_not_acked.contains_key(id.0)
                <==> model.header.sent_not_acked.contains_key(id.0) && !packet.header.acks(id)
            &&& after.header.sent_not_acked.contains_key(id.0)
                ==> after.header.sent_not_acked[id.0] == model.header.sent_not_acked[id.0]
            &&& after.senders.len() == model.senders.len()
        }),
{
    law_received_packets(model.header, packet.header.packet_id, id);
    lemma_newly_acked(model.header, packet.header);
}

// ---------------------------------------------------------------------------------------
// Reading
// ---------------------------------------------------------------------------------------

/// Whether `after` is the receiver `before` without the messages that could be read.
pub open spec fn only_ready_gone(before: ReceiverModel, after: ReceiverModel) -> bool {
    match before {
        ReceiverModel::Unordered(b) => after matches ReceiverModel::Unordered(a) && {
            &&& a.ready.len() == 0
            &&& a.partial == b.partial
            &&& a.now == b.now
        },
        ReceiverModel::Ordered(b) => after matches ReceiverModel::Ordered(a) && {
            let n = before.ready().len();
            &&& a.partial == b.partial
            &&& a.now == b.now
            &&& a.pending.0 == (b.pending.0 + n) % 65536
            &&& b.buffer.dom().len() == a.buffer.dom().len() + n
            &&& forall|id: u16| #[trigger]
                a.buffer.contains_key(id) ==> b.buffer.contains_key(id) && a.buffer[id]
                    == b.buffer[id]
        },
    }
}

proof fn lemma_read_ordered(model: OrderedModel, n: nat)
    requires
        model.buffer.dom().finite(),
        n <= run(model.buffer, model.pending).len(),
    ensures
        ({
            let after = ReceiverModel::Ordered(model).read(n);
            &&& after matches ReceiverModel::Ordered(a) && {
                &&& a.partial == model.partial
                &&& a.now == model.now
                &&& a.pending.0 == (model.pending.0 + n) % 65536
                &&& a.buffer.dom().finite()
                &&& model.buffer.dom().len() == a.buffer.dom().len() + n
                &&& forall|id: u16| #[trigger]
                    a.buffer.contains_key(id) ==> model.buffer.contains_key(id) && a.buffer[id]
                        == model.buffer[id]
            }
        }),
    decreases n,
{
    if n > 0 {
        let next = ReceiverModel::Ordered(model).read_one()->Ordered_0;
        let tail = run(next.buffer, next.pending);
        assert(run(model.buffer, model.pending) == seq![model.buffer[model.pending.0]] + tail);
        lemma_read_ordered(next, (n - 1) as nat);
        assert(next.pending.0 == (model.pending.0 + 1) % 65536);
        let p = model.pending.0 as int;
        let m = (n - 1) as int;
        assert(((p + 1) % 65536 + m) % 65536 == (p + n) % 65536) by {
            assert(((p + 1) % 65536 + m) % 65536 == (p + 1 + m) % 65536);
        }
    }
}

/// Reading from an unordered channel takes the first messages and nothing else.
pub proof fn lemma_read_unordered(model: UnorderedModel, n: nat)
    requires
        n <= model.ready.len(),
    ensures
        ReceiverModel::Unordered(model).read(n) == ReceiverModel::Unordered(
            UnorderedModel { ready: model.ready.skip(n as int), ..model },
        ),
    decreases n,
{
    if n > 0 {
        let next = UnorderedModel { ready: model.ready.drop_first(), ..model };
        lemma_read_unordered(next, (n - 1) as nat);
        assert(model.ready.drop_first().skip(n - 1) =~= model.ready.skip(n as int));
    } else {
        assert(model.ready.skip(0) =~= model.ready);
    }
}

/// Reading takes the messages that can be read and nothing else: incomplete messages, messages
/// that wait for an earlier one, and the whole sending side stay.
pub proof fn law_read_takes_ready_messages_only(model: ManagerModel)
    requires
        model.wf(),
    ensures
        ({
            let after = model.drained();
            &&& after.acks == model.acks
            &&& after.registry == model.registry
            &&& after.header == model.header
            &&& after.senders == model.senders
            &&& after.receivers.len() == model.receivers.len()
            &&& forall|i: int|
                0 <= i < model.receivers.len() ==> only_ready_gone(
                    model.receivers[i],
                    #[trigger] after.receivers[i],
                )
        }),
{
    let after = model.drained();
    assert forall|i: int| 0 <= i < model.receivers.len() implies only_ready_gone(
        model.receivers[i],
        #[trigger] after.receivers[i],
    ) by {
        let receiver = model.receivers[i];
        assert(receiver.wf());
        match receiver {
            ReceiverModel::Unordered(m) => lemma_read_unordered(m, m.ready.len()),
            ReceiverModel::Ordered(m) => lemma_read_ordered(m, receiver.ready().len()),
        }
    }
}

} // verus!
