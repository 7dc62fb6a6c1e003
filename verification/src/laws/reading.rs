//! Reading takes what can be read, once.
use vstd::bytes::*;
use vstd::prelude::*;

use crate::channel::receiver::{lemma_update_wf, ReceiverModel};
use crate::channel::registry::{lemma_kind, lemma_net_id};
use crate::ids::{ChannelKind, Tick, Time};
use crate::laws::delivery::{
    can_take_all, law_messages_arrive, lemma_receive_all_registry, read_of, receive_all,
};
use crate::laws::ordering::{
    follows, id_of, law_reliable_messages_arrive, sends_what_is_missing, tick_of,
};
use crate::manager_model::{
    channels_decode_failure, decode_failure, decoded_from, lemma_buffer_wf, lemma_decodable,
    lemma_read, ManagerModel,
};
use crate::message::SingleModel;
use crate::serialize::{lemma_take_u32, BitSerializable};

verus! {

/// After reading, nothing is left to read.
pub proof fn law_reading_empties(model: ManagerModel, i: int)
    requires
        model.wf(),
        0 <= i < model.receivers.len(),
    ensures
        model.drained().receivers[i].ready().len() == 0,
{
    let receiver = model.receivers[i];
    assert(receiver.wf());
    lemma_read(receiver, receiver.ready().len());
}

/// Reading again reads nothing, as long as no message came in the meantime: nothing is ready on
/// any channel, so reading cannot fail, and whatever is read is empty. Other things may have
/// happened since the first read.
pub proof fn law_second_read_is_empty<M: BitSerializable>(model: ManagerModel, now: ManagerModel)
    requires
        model.wf(),
        now.receivers == model.drained().receivers,
        now.registry == model.registry,
    ensures
        now.decodable::<M>(),
        forall|i: int|
            0 <= i < now.receivers.len() ==> (#[trigger] now.receivers[i]).ready().len() == 0,
        forall|read: Map<ChannelKind, Vec<(Tick, M)>>| #[trigger]
            now.reads_as(read) ==> read.dom() == Set::<ChannelKind>::empty(),
{
    assert forall|i: int| 0 <= i < now.receivers.len() implies (
    #[trigger] now.receivers[i]).ready().len() == 0 by {
        law_reading_empties(model, i);
    }
    assert forall|read: Map<ChannelKind, Vec<(Tick, M)>>| #[trigger]
        now.reads_as(read) implies read.dom() == Set::<ChannelKind>::empty() by {
        assert forall|kind: ChannelKind| !read.dom().contains(kind) by {
            if read.contains_key(kind) {
                lemma_kind(model.registry, kind);
                assert(now.receivers[model.registry.net_id(kind) as int].ready().len() == 0);
            }
        }
        assert(read.dom() =~= Set::<ChannelKind>::empty());
    }
}

/// Whether a message is read back from the bytes that it is written as, and nothing else is.
pub open spec fn reads_back<M: BitSerializable>(message: M) -> bool {
    &&& message.encoding() is Ok
    &&& M::decode_error(message.encoding()->Ok_0) is None
    &&& forall|other: M| #[trigger]
        M::decodes_to(message.encoding()->Ok_0, other) ==> other == message
}

/// A message whose bytes are ready is read as the message that was written, with its tick.
pub proof fn law_ready_message_is_read<M: BitSerializable>(
    model: ManagerModel,
    kind: ChannelKind,
    j: int,
    message: M,
    read: Map<ChannelKind, Vec<(Tick, M)>>,
)
    requires
        model.registry.kinds.contains(kind),
        0 <= j < model.receiver(kind).ready().len(),
        reads_back(message),
        model.receiver(kind).ready()[j].bytes == message.encoding()->Ok_0,
        model.reads_as(read),
    ensures
        read.contains_key(kind),
        read[kind]@.len() == model.receiver(kind).ready().len(),
        Some(read[kind]@[j].0) == model.receiver(kind).ready()[j].tick,
        read[kind]@[j].1 == message,
{
    assert(read.contains_key(kind));
    assert(decoded_from(read[kind]@, model.receiver(kind).ready()));
    let (tick, decoded) = read[kind]@[j];
    assert(M::decodes_to(message.encoding()->Ok_0, decoded));
}

/// A message that is sent on an unreliable channel is read on the other side, with the tick of
/// its packet. It comes behind all that was ready there before and all that waited to be sent
/// before it, and nothing else is read.
pub proof fn law_unreliable_round_trip<M: BitSerializable>(
    sender: ManagerModel,
    receiver: ManagerModel,
    tick: Tick,
    kind: ChannelKind,
    message: M,
    read: Map<ChannelKind, Vec<(Tick, M)>>,
)
    requires
        sender.wf(),
        receiver.wf(),
        reads_back(message),
        message.encoding()->Ok_0.len() <= usize::MAX,
        sender.registry == receiver.registry,
        sender.registry.kinds.contains(kind),
        sender.sender(kind) is Unreliable,
        can_take_all(
            sender.buffer(kind, message.encoding()->Ok_0).sender(kind)->Unreliable_0,
            receiver.receiver(kind)->Unordered_0,
        ),
        receive_all(
            receiver,
            sender.buffer(kind, message.encoding()->Ok_0).packets(tick),
        ).reads_as(read),
    ensures
        read.contains_key(kind),
        read[kind]@.len() == receiver.receiver(kind).ready().len() + sender.sender(
            kind,
        )->Unreliable_0.queue.len() + 1,
        decoded_from(
            read[kind]@.drop_last(),
            receiver.receiver(kind).ready() + read_of(
                sender.sender(kind)->Unreliable_0.queue,
                tick,
            ),
        ),
        read[kind]@.last() == (tick, message),
{
    let bytes = message.encoding()->Ok_0;
    let queued = sender.buffer(kind, bytes);
    lemma_kind(sender.registry, kind);
    lemma_buffer_wf(sender, kind, bytes);
    let queue = sender.sender(kind)->Unreliable_0.queue;
    let id = sender.sender(kind).id_for(bytes);
    assert(queued.sender(kind)->Unreliable_0.queue == queue.push((id, bytes)));
    law_messages_arrive(queued, receiver, tick, kind);
    lemma_receive_all_registry(receiver, queued.packets(tick));
    let after = receive_all(receiver, queued.packets(tick));
    let ready = after.receiver(kind).ready();
    let j = ready.len() - 1;
    assert(ready[j] == read_of(queue.push((id, bytes)), tick)[queue.len() as int]);
    law_ready_message_is_read(after, kind, j, message, read);
    let earlier = receiver.receiver(kind).ready() + read_of(queue, tick);
    assert(ready.drop_last() =~= earlier);
    let decoded = read[kind]@;
    assert(decoded_from(decoded, ready));
    assert forall|i: int| 0 <= i < decoded.drop_last().len() implies {
        let (t, m) = #[trigger] decoded.drop_last()[i];
        &&& earlier[i].tick == Some(t)
        &&& M::decodes_to(earlier[i].bytes, m)
    } by {
        assert(decoded.drop_last()[i] == decoded[i]);
        assert(earlier[i] == ready[i]);
    }
}

/// A message that is sent on a reliable channel is read on the other side, behind all that was
/// sent before, once the other side received every piece that it lacked. It is read with the tick
/// of the packet that completed it.
pub proof fn law_reliable_round_trip<M: BitSerializable>(
    sender: ManagerModel,
    receiver: ManagerModel,
    tick: Tick,
    kind: ChannelKind,
    sent: Seq<Seq<u8>>,
    n: nat,
    k: int,
    message: M,
    read: Map<ChannelKind, Vec<(Tick, M)>>,
)
    requires
        sender.wf(),
        receiver.wf(),
        sender.registry == receiver.registry,
        sender.registry.kinds.contains(kind),
        sender.sender(kind) is Reliable,
        follows(receiver.receiver(kind)->Ordered_0, sent, n),
        sends_what_is_missing(
            sender.sender(kind)->Reliable_0,
            receiver.receiver(kind)->Ordered_0,
            sent,
            n,
            tick,
        ),
        n <= k < sent.len(),
        reads_back(message),
        sent[k] == message.encoding()->Ok_0,
        receive_all(receiver, sender.packets(tick)).reads_as(read),
    ensures
        read.contains_key(kind),
        read[kind]@.len() == sent.len() - n,
        read[kind]@[k - n].1 == message,
        Some(read[kind]@[k - n].0) == tick_of(
            receiver.receiver(kind)->Ordered_0,
            id_of(k as nat).0,
            tick,
        ),
{
    law_reliable_messages_arrive(sender, receiver, tick, kind, sent, n);
    lemma_receive_all_registry(receiver, sender.packets(tick));
    let after = receive_all(receiver, sender.packets(tick));
    assert(after.receiver(kind).ready()[k - n].bytes == sent[n + (k - n)]);
    assert((n + (k - n)) as nat == k as nat);
    law_ready_message_is_read(after, kind, k - n, message, read);
}

/// The passing of time takes no message away that can be read, and adds none.
pub proof fn law_time_keeps_messages(model: ManagerModel, now: Time, rtt: Time, i: int)
    requires
        model.wf(),
        0 <= i < model.receivers.len(),
    ensures
        model.update(now, rtt).receivers[i].ready() == model.receivers[i].ready(),
{
    assert(model.receivers[i].wf());
    lemma_update_wf(model.receivers[i], now);
}

/// An integer is read as it was written, and can always be read.
pub proof fn law_integer_round_trip(x: u32)
    ensures
        reads_back(x),
        u32::decodes_to(x.encoding()->Ok_0, x),
{
    let bytes = spec_u32_to_le_bytes(x);
    lemma_take_u32(x, Seq::empty());
    assert(bytes + Seq::<u8>::empty() =~= bytes);
}

/// What is read of a channel is what was ready there, message by message and in order, each with
/// its tick. A channel on which nothing was ready, and what is no channel, is left out.
pub proof fn law_read_lists_ready_messages<M: BitSerializable>(
    model: ManagerModel,
    read: Map<ChannelKind, Vec<(Tick, M)>>,
    i: int,
    other: ChannelKind,
)
    requires
        model.registry.wf(),
        model.reads_as(read),
        0 <= i < model.registry.kinds.len(),
        forall|k: int|
            0 <= k < model.registry.kinds.len() ==> #[trigger] model.registry.kinds[k] != other,
    ensures
        ({
            let kind = model.registry.kinds[i];
            let ready = model.receivers[i].ready();
            &&& !read.contains_key(other)
            &&& read.contains_key(kind) <==> ready.len() > 0
            &&& read.contains_key(kind) ==> {
                &&& read[kind]@.len() == ready.len()
                &&& forall|j: int|
                    0 <= j < ready.len() ==> {
                        &&& Some((#[trigger] read[kind]@[j]).0) == ready[j].tick
                        &&& M::decodes_to(ready[j].bytes, read[kind]@[j].1)
                    }
            }
        }),
{
    lemma_net_id(model.registry, i);
    assert(!read.contains_key(other));
}

/// Whether message `j` is the first of `messages` that cannot be decoded.
pub open spec fn fails_first<M: BitSerializable>(messages: Seq<SingleModel>, j: int) -> bool {
    &&& 0 <= j < messages.len()
    &&& M::decode_error(messages[j].bytes) is Some
    &&& forall|m: int| 0 <= m < j ==> M::decode_error((#[trigger] messages[m]).bytes) is None
}

/// Whether message `j` of channel `i` is the first that cannot be decoded.
pub open spec fn channel_fails_first<M: BitSerializable>(
    receivers: Seq<ReceiverModel>,
    i: int,
    j: int,
) -> bool {
    &&& 0 <= i < receivers.len()
    &&& fails_first::<M>(receivers[i].ready(), j)
    &&& forall|k: int, m: int|
        0 <= k < i && 0 <= m < receivers[k].ready().len() ==> M::decode_error(
            (#[trigger] receivers[k].ready()[m]).bytes,
        ) is None
}

proof fn lemma_fails_first<M: BitSerializable>(messages: Seq<SingleModel>, j: int)
    requires
        fails_first::<M>(messages, j),
    ensures
        decode_failure::<M>(messages) == M::decode_error(messages[j].bytes),
    decreases messages.len(),
{
    let rest = messages.drop_last();
    if j < rest.len() {
        assert(fails_first::<M>(rest, j)) by {
            assert forall|m: int| 0 <= m < j implies M::decode_error(
                (#[trigger] rest[m]).bytes,
            ) is None by {
                assert(rest[m] == messages[m]);
            }
        }
        lemma_fails_first::<M>(rest, j);
    } else {
        assert forall|m: int| 0 <= m < rest.len() implies M::decode_error(
            (#[trigger] rest[m]).bytes,
        ) is None by {
            assert(rest[m] == messages[m]);
        }
        lemma_decodable::<M>(rest);
    }
}

/// Reading fails with the reason why the first message that cannot be decoded cannot: channel by
/// channel, and on each channel message by message.
pub proof fn law_first_undecodable_message_is_reported<M: BitSerializable>(
    receivers: Seq<ReceiverModel>,
    i: int,
    j: int,
)
    requires
        channel_fails_first::<M>(receivers, i, j),
    ensures
        channels_decode_failure::<M>(receivers) == M::decode_error(receivers[i].ready()[j].bytes),
        channels_decode_failure::<M>(receivers) is Some,
    decreases receivers.len(),
{
    let rest = receivers.drop_last();
    if i < rest.len() {
        assert(channel_fails_first::<M>(rest, i, j)) by {
            assert forall|k: int, m: int|
                0 <= k < i && 0 <= m < rest[k].ready().len() implies M::decode_error(
                (#[trigger] rest[k].ready()[m]).bytes,
            ) is None by {
                assert(rest[k].ready()[m] == receivers[k].ready()[m]);
            }
        }
        law_first_undecodable_message_is_reported::<M>(rest, i, j);
    } else {
        lemma_none_fails::<M>(rest);
        lemma_fails_first::<M>(receivers[i].ready(), j);
    }
}

proof fn lemma_none_fails<M: BitSerializable>(receivers: Seq<ReceiverModel>)
    requires
        forall|k: int, m: int|
            0 <= k < receivers.len() && 0 <= m < receivers[k].ready().len() ==> M::decode_error(
                (#[trigger] receivers[k].ready()[m]).bytes,
            ) is None,
    ensures
        channels_decode_failure::<M>(receivers) is None,
    decreases receivers.len(),
{
    if receivers.len() > 0 {
        let rest = receivers.drop_last();
        assert forall|k: int, m: int|
            0 <= k < rest.len() && 0 <= m < rest[k].ready().len() implies M::decode_error(
            (#[trigger] rest[k].ready()[m]).bytes,
        ) is None by {
            assert(rest[k].ready()[m] == receivers[k].ready()[m]);
        }
        lemma_none_fails::<M>(rest);
        let messages = receivers[receivers.len() - 1].ready();
        assert forall|m: int| 0 <= m < messages.len() implies M::decode_error(
            (#[trigger] messages[m]).bytes,
        ) is None by {
            assert(receivers[receivers.len() - 1].ready()[m] == messages[m]);
        }
        lemma_decodable::<M>(messages);
    }
}

/// Reading does not fail if every message that is ready can be decoded.
pub proof fn law_decodable_messages_are_read<M: BitSerializable>(model: ManagerModel)
    ensures
        model.decodable::<M>() <==> forall|k: int, m: int|
            0 <= k < model.receivers.len() && 0 <= m < model.receivers[k].ready().len()
                ==> M::decode_error((#[trigger] model.receivers[k].ready()[m]).bytes) is None,
        model.decodable::<M>() ==> channels_decode_failure::<M>(model.receivers) is None,
{
    if model.decodable::<M>() {
        lemma_none_fails::<M>(model.receivers);
    }
}

} // verus!
