//! What a channel does with a message that comes, and what is refused.
use vstd::prelude::*;

use crate::channel::fragment_receiver::{after_fragment, with_fragment, PartialModel};
use crate::channel::receiver::{run, ReceiveError, ReceiverModel};
use crate::ids::{MessageId, NetId, Tick, Time};
use crate::laws::delivery::accepted;
use crate::manager_model::{deliver, ManagerModel, MessageError};
use crate::message::{FragmentModel, MessageModel, SingleModel};
use crate::packet::PacketModel;

verus! {

// ---------------------------------------------------------------------------------------
// One message
// ---------------------------------------------------------------------------------------

/// Whether fragment `j` of the message that `fragment` belongs to came before.
pub open spec fn came_before(
    partial: Map<u16, PartialModel>,
    fragment: FragmentModel,
    j: u64,
) -> bool {
    let id = fragment.message_id.0;
    &&& partial.contains_key(id)
    &&& partial[id].num_fragments == fragment.num_fragments
    &&& partial[id].received.contains_key(j)
}

/// Whether no fragment of its message is missing once `fragment` came.
pub open spec fn is_last_missing(
    partial: Map<u16, PartialModel>,
    fragment: FragmentModel,
) -> bool {
    forall|j: u64|
        j < fragment.num_fragments && j != fragment.fragment_id ==> #[trigger] came_before(
            partial,
            fragment,
            j,
        )
}

/// The bytes of fragment `j` once `fragment` came.
pub open spec fn bytes_at(
    partial: Map<u16, PartialModel>,
    fragment: FragmentModel,
    j: u64,
) -> Seq<u8> {
    if j == fragment.fragment_id {
        fragment.bytes
    } else {
        partial[fragment.message_id.0].received[j]
    }
}

/// The message that is whole once `fragment` came.
pub open spec fn whole_message(
    partial: Map<u16, PartialModel>,
    fragment: FragmentModel,
) -> SingleModel {
    SingleModel {
        id: Some(fragment.message_id),
        tick: fragment.tick,
        bytes: Seq::new(
            fragment.num_fragments as nat,
            |j: int| bytes_at(partial, fragment, j as u64),
        ).flatten(),
    }
}

/// Whether `after` are the incomplete messages `before` and what came with `fragment` at the time
/// `now`.
pub open spec fn only_fragment_added(
    before: Map<u16, PartialModel>,
    after: Map<u16, PartialModel>,
    fragment: FragmentModel,
    now: Time,
) -> bool {
    let id = fragment.message_id.0;
    &&& forall|m: u16|
        m != id ==> (#[trigger] after.contains_key(m) <==> before.contains_key(m))
    &&& forall|m: u16| m != id && #[trigger] after.contains_key(m) ==> after[m] == before[m]
    &&& after.contains_key(id) <==> !is_last_missing(before, fragment)
    &&& after.contains_key(id) ==> {
        &&& after[id].num_fragments == fragment.num_fragments
        &&& after[id].last_received == now
        &&& forall|j: u64| #[trigger]
            after[id].received.contains_key(j) <==> j == fragment.fragment_id || came_before(
                before,
                fragment,
                j,
            )
        &&& forall|j: u64| #[trigger]
            after[id].received.contains_key(j) ==> after[id].received[j] == bytes_at(
                before,
                fragment,
                j,
            )
    }
}

/// Whether the number `id` is one of the half circle that ends before `next`.
pub open spec fn is_old(id: MessageId, next: MessageId) -> bool {
    (id.0 - next.0) % 65536 >= 32768
}

/// Whether `after` is the receiver `before` after `message` came.
pub open spec fn took(before: ReceiverModel, after: ReceiverModel, message: MessageModel) -> bool {
    match before {
        ReceiverModel::Unordered(b) => after matches ReceiverModel::Unordered(a) && {
            &&& a.now == b.now
            &&& match message {
                MessageModel::Single(data) => a.partial == b.partial && a.ready == b.ready.push(
                    data,
                ),
                MessageModel::Fragment(fragment) => {
                    &&& only_fragment_added(b.partial, a.partial, fragment, b.now)
                    &&& a.ready == if is_last_missing(b.partial, fragment) {
                        b.ready.push(whole_message(b.partial, fragment))
                    } else {
                        b.ready
                    }
                },
            }
        },
        ReceiverModel::Ordered(b) => after matches ReceiverModel::Ordered(a) && {
            let id = match message {
                MessageModel::Single(data) => data.id.unwrap(),
                MessageModel::Fragment(fragment) => fragment.message_id,
            };
            &&& a.now == b.now
            &&& a.pending == b.pending
            &&& if is_old(id, b.pending) || b.buffer.contains_key(id.0) {
                a.partial == b.partial && a.buffer == b.buffer
            } else {
                match message {
                    MessageModel::Single(data) => a.partial == b.partial && a.buffer
                        == b.buffer.insert(id.0, data),
                    MessageModel::Fragment(fragment) => {
                        &&& only_fragment_added(b.partial, a.partial, fragment, b.now)
                        &&& a.buffer == if is_last_missing(b.partial, fragment) {
                            b.buffer.insert(id.0, whole_message(b.partial, fragment))
                        } else {
                            b.buffer
                        }
                    },
                }
            }
        },
    }
}

proof fn lemma_assembled(partial: PartialModel, n: nat)
    ensures
        partial.assembled(n) == Seq::new(n, |j: int| partial.received[j as u64]).flatten(),
    decreases n,
{
    let parts = Seq::new(n, |j: int| partial.received[j as u64]);
    parts.lemma_flatten_and_flatten_alt_are_equivalent();
    if n > 0 {
        let m = (n - 1) as nat;
        let rest = Seq::new(m, |j: int| partial.received[j as u64]);
        lemma_assembled(partial, m);
        rest.lemma_flatten_and_flatten_alt_are_equivalent();
        assert(parts.drop_last() =~= rest);
        assert(parts.last() == partial.received[m as u64]);
    }
}

proof fn lemma_fragment_added(
    partial: Map<u16, PartialModel>,
    fragment: FragmentModel,
    now: Time,
)
    requires
        fragment.fragment_id < fragment.num_fragments,
    ensures
        ({
            let updated = with_fragment(partial, fragment, now);
            &&& updated.complete() <==> is_last_missing(partial, fragment)
            &&& updated.complete() ==> updated.message() == whole_message(partial, fragment).bytes
            &&& only_fragment_added(
                partial,
                after_fragment(partial, fragment, now),
                fragment,
                now,
            )
        }),
{
    let updated = with_fragment(partial, fragment, now);
    assert forall|j: u64| #[trigger]
        updated.received.contains_key(j) <==> j == fragment.fragment_id || came_before(
            partial,
            fragment,
            j,
        ) by {}
    if updated.complete() {
        assert forall|j: u64|
            j < fragment.num_fragments && j != fragment.fragment_id implies #[trigger] came_before(
            partial,
            fragment,
            j,
        ) by {
            assert(updated.received.contains_key(j));
        }
        let n = fragment.num_fragments as nat;
        lemma_assembled(updated, n);
        let parts = Seq::new(n, |j: int| updated.received[j as u64]);
        let expected = Seq::new(n, |j: int| bytes_at(partial, fragment, j as u64));
        assert(parts =~= expected) by {
            assert forall|j: int| 0 <= j < n implies parts[j] == expected[j] by {
                assert(updated.received.contains_key(j as u64));
            }
        }
    }
    if is_last_missing(partial, fragment) {
        assert forall|j: u64| j < updated.num_fragments implies #[trigger] updated.received.contains_key(
            j,
        ) by {
            assert(j == fragment.fragment_id || came_before(partial, fragment, j));
        }
    }
}

/// A message that comes whole is ready, or waits for its turn. A fragment is kept until the last
/// missing one came, and the message is then the bytes of all of them in order, with the tick of
/// the last. On an ordered channel, what was read before or waits already is ignored.
pub proof fn law_channel_takes_messages(receiver: ReceiverModel, message: MessageModel)
    requires
        message matches MessageModel::Fragment(fragment) ==> fragment.fragment_id
            < fragment.num_fragments,
    ensures
        took(receiver, receiver.receive(message), message),
{
    match receiver {
        ReceiverModel::Unordered(b) => {
            match message {
                MessageModel::Single(_) => {},
                MessageModel::Fragment(fragment) => {
                    lemma_fragment_added(b.partial, fragment, b.now);
                },
            }
        },
        ReceiverModel::Ordered(b) => {
            match message {
                MessageModel::Single(data) => {
                    law_old_numbers(data.id.unwrap(), b.pending);
                },
                MessageModel::Fragment(fragment) => {
                    law_old_numbers(fragment.message_id, b.pending);
                    lemma_fragment_added(b.partial, fragment, b.now);
                },
            }
        },
    }
}

/// Numbers of messages go round in a circle, half of which counts as old: the number that follows
/// is one more, and a number is behind another if it is less than half of the circle before it, or
/// opposite of it.
pub proof fn law_old_numbers(id: MessageId, next: MessageId)
    ensures
        id.behind(next) <==> is_old(id, next),
        id.successor().0 == (id.0 + 1) % 65536,
{
}

/// The number that comes `k` behind `id`.
pub open spec fn number_at(id: MessageId, k: int) -> u16 {
    ((id.0 + k) % 65536) as u16
}

/// On an ordered channel the messages that can be read have the numbers from the next one on,
/// without a gap, and they end where a message is missing.
pub proof fn law_ready_messages_follow(buffer: Map<u16, SingleModel>, next: MessageId)
    requires
        buffer.dom().finite(),
    ensures
        forall|k: int|
            0 <= k < run(buffer, next).len() ==> {
                let id = #[trigger] number_at(next, k);
                buffer.contains_key(id) && run(buffer, next)[k] == buffer[id]
            },
        ({
            let n = run(buffer, next).len();
            buffer.contains_key(number_at(next, n as int)) ==> n > 0 && n % 65536 == 0
        }),
    decreases buffer.dom().len(),
{
    let all = run(buffer, next);
    if buffer.contains_key(next.0) {
        let rest = buffer.remove(next.0);
        let after = next.successor();
        let tail = run(rest, after);
        law_ready_messages_follow(rest, after);
        law_old_numbers(next, next);
        assert(all == seq![buffer[next.0]] + tail);
        assert forall|k: int| 0 <= k < all.len() implies {
            let id = #[trigger] number_at(next, k);
            buffer.contains_key(id) && all[k] == buffer[id]
        } by {
            if k > 0 {
                assert(all[k] == tail[k - 1]);
                lemma_next_number(next, (k - 1) as nat);
                assert(number_at(after, k - 1) == number_at(next, k));
            }
        }
        let n = tail.len();
        let end = number_at(next, all.len() as int);
        lemma_next_number(next, n);
        if buffer.contains_key(end) && end != next.0 {
            assert(number_at(after, n as int) == end);
            assert(n > 65535);
            assert(number_at(after, 65535) == next.0);
            assert(false);
        }
    } else {
        assert(all.len() == 0);
        assert((next.0 + 0) % 65536 == next.0);
    }
}

proof fn lemma_next_number(id: MessageId, k: nat)
    ensures
        (id.successor().0 + k) % 65536 == (id.0 + k + 1) % 65536,
        (id.0 + k + 1) % 65536 == id.0 ==> (k + 1) % 65536 == 0,
{
}

// ---------------------------------------------------------------------------------------
// What is refused
// ---------------------------------------------------------------------------------------

/// A channel refuses a fragment that lies outside of its message, and an ordered channel refuses
/// a message without a number. It refuses nothing else.
pub proof fn law_refusals(receiver: ReceiverModel, message: MessageModel)
    ensures
        receiver.error(message) == match message {
            MessageModel::Fragment(fragment) if fragment.fragment_id >= fragment.num_fragments => {
                Some(ReceiveError::InvalidFragment)
            },
            MessageModel::Single(data) if receiver is Ordered && data.id is None => {
                Some(ReceiveError::MissingMessageId)
            },
            _ => None,
        },
{
}

/// Why the message `item` of a packet is refused, if it is: no channel has its net id, or its
/// channel refuses it.
pub open spec fn refusal(
    receivers: Seq<ReceiverModel>,
    item: (NetId, MessageModel),
) -> Option<MessageError> {
    if item.0 >= receivers.len() {
        Some(MessageError::UnknownNetId(item.0))
    } else {
        match item.1 {
            MessageModel::Fragment(fragment) if fragment.fragment_id >= fragment.num_fragments => {
                Some(MessageError::Receive(ReceiveError::InvalidFragment))
            },
            MessageModel::Single(data) if receivers[item.0 as int] is Ordered && data.id is None => {
                Some(MessageError::Receive(ReceiveError::MissingMessageId))
            },
            _ => None,
        }
    }
}

proof fn lemma_deliver_stops(
    receivers: Seq<ReceiverModel>,
    items: Seq<(NetId, MessageModel)>,
    tick: Tick,
    b: int,
)
    requires
        0 <= b < items.len(),
        accepted(receivers, items.take(b)),
        refusal(receivers, items[b]) is Some,
    ensures
        deliver(receivers, items, tick).0 == deliver(receivers, items.take(b), tick).0,
        deliver(receivers, items, tick).1 == refusal(receivers, items[b]),
    decreases b,
{
    if b > 0 {
        let (net_id, message) = items[0];
        let first = items.take(b);
        assert(first[0] == items[0]);
        let receiver = receivers[net_id as int];
        let next = receivers.update(net_id as int, receiver.receive(message.stamped(tick)));
        assert(items.drop_first().take(b - 1) =~= first.drop_first());
        assert forall|k: int| 0 <= k < first.drop_first().len() implies {
            let (n, m) = #[trigger] first.drop_first()[k];
            n < next.len() && next[n as int].error(m) is None
        } by {
            let (n, m) = first[k + 1];
            assert(first.drop_first()[k] == first[k + 1]);
            assert(receivers[n as int].error(m) is None);
        }
        assert(refusal(next, items[b]) == refusal(receivers, items[b]));
        lemma_deliver_stops(next, items.drop_first(), tick, b - 1);
    } else {
        assert(items.take(0) =~= Seq::empty());
    }
}

/// A packet is received up to the first message that is refused. What comes before it is kept,
/// what comes behind it is not looked at, and the reason is reported.
pub proof fn law_delivery_stops_at_a_refusal(model: ManagerModel, packet: PacketModel, b: int)
    requires
        0 <= b < packet.data.len(),
        accepted(model.receivers, packet.data.take(b)),
        refusal(model.receivers, packet.data[b]) is Some,
    ensures
        model.receive_error(packet) == refusal(model.receivers, packet.data[b]),
        model.receive(packet).receivers == model.receive(
            PacketModel { data: packet.data.take(b), ..packet },
        ).receivers,
        model.receive(packet).senders == model.receive(
            PacketModel { data: Seq::empty(), ..packet },
        ).senders,
        model.receive(packet).acks == model.receive(
            PacketModel { data: Seq::empty(), ..packet },
        ).acks,
        model.receive(packet).header == model.receive(
            PacketModel { data: Seq::empty(), ..packet },
        ).header,
{
    lemma_deliver_stops(model.receivers, packet.data, packet.header.tick, b);
}

/// A packet all of whose messages are taken is received without an error.
pub proof fn law_accepted_packet_is_received(model: ManagerModel, packet: PacketModel)
    requires
        forall|k: int|
            0 <= k < packet.data.len() ==> refusal(
                model.receivers,
                #[trigger] packet.data[k],
            ) is None,
    ensures
        model.receive_error(packet) is None,
{
    lemma_all_delivered(model.receivers, packet.data, packet.header.tick);
}

proof fn lemma_all_delivered(
    receivers: Seq<ReceiverModel>,
    items: Seq<(NetId, MessageModel)>,
    tick: Tick,
)
    requires
        forall|k: int| 0 <= k < items.len() ==> refusal(receivers, #[trigger] items[k]) is None,
    ensures
        deliver(receivers, items, tick).1 is None,
    decreases items.len(),
{
    if items.len() > 0 {
        let (net_id, message) = items[0];
        assert(refusal(receivers, items[0]) is None);
        let receiver = receivers[net_id as int];
        let next = receivers.update(net_id as int, receiver.receive(message.stamped(tick)));
        let rest = items.drop_first();
        assert forall|k: int| 0 <= k < rest.len() implies refusal(
            next,
            #[trigger] rest[k],
        ) is None by {
            assert(rest[k] == items[k + 1]);
            assert(refusal(receivers, items[k + 1]) is None);
        }
        lemma_all_delivered(next, rest, tick);
    }
}

} // verus!
