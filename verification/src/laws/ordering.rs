//! A reliable channel hands every message out once, in the order the messages were sent, whatever
//! way their pieces take.
//!
//! `sent` are the messages that were buffered on the channel, from the first one on. The message
//! `k` has the id [`id_of`]`(k)`. Of a receiver, `n` messages were read.
use vstd::prelude::*;

use crate::channel::fragment_receiver::{with_fragment, PartialModel};
use crate::channel::receiver::{OrderedModel, ReceiverModel};
use crate::channel::reliable_sender::{ReliableModel, UnackedModel};
use crate::channel::sender::SenderModel;
use crate::channel::registry::lemma_kind;
use crate::ids::{ChannelKind, MessageId, Tick, Time};
use crate::laws::delivery::{
    law_delivery, lemma_assembled, lemma_receive_all_registry, receive_all, receive_messages,
};
use crate::laws::resending::{law_due_pieces_are_sent, lemma_remaining_member};
use crate::manager_model::ManagerModel;
use crate::message::{
    fragment_bytes, fragment_count, lemma_fragment_range, pieces, MessageAck, MessageModel,
    FRAGMENT_SIZE,
};

verus! {

/// The id of the message `k`.
pub open spec fn id_of(k: nat) -> MessageId {
    MessageId((k % 65536) as u16)
}

/// The first message from `n` on that has this id.
pub open spec fn index_of(n: nat, id: u16) -> nat {
    n + id.wrapping_sub(id_of(n).0) as nat
}

/// Whether `message` is the piece `j` of the message `k`, as it comes in a packet of this tick.
pub open spec fn is_piece(
    message: MessageModel,
    sent: Seq<Seq<u8>>,
    k: nat,
    j: int,
    tick: Tick,
) -> bool {
    &&& k < sent.len()
    &&& 0 <= j < pieces(Some(id_of(k)), sent[k as int]).len()
    &&& message == pieces(Some(id_of(k)), sent[k as int])[j].stamped(tick)
}

/// Whether the messages `k` and `n` are close enough to be told apart by their ids.
pub open spec fn near(k: nat, n: nat) -> bool {
    n - 32768 <= k < n + 32768
}

/// Whether a receiver holds pieces of `sent` only, after `n` messages were read.
pub open spec fn follows(model: OrderedModel, sent: Seq<Seq<u8>>, n: nat) -> bool {
    &&& n <= sent.len()
    &&& forall|k: int| 0 <= k < sent.len() ==> (#[trigger] sent[k]).len() <= usize::MAX
    &&& model.pending == id_of(n)
    &&& model.buffer.dom().finite()
    &&& forall|id: u16| #[trigger]
        model.buffer.contains_key(id) ==> {
            &&& !MessageId(id).behind(model.pending)
            &&& index_of(n, id) < sent.len()
            &&& model.buffer[id].bytes == sent[index_of(n, id) as int]
        }
    &&& forall|id: u16| #[trigger]
        model.partial.contains_key(id) ==> {
            &&& !model.has(MessageId(id))
            &&& index_of(n, id) < sent.len()
            &&& holds_fragments(model.partial[id], sent[index_of(n, id) as int])
        }
}

/// Whether `partial` holds some, but not all, of the fragments of a message.
pub open spec fn holds_fragments(partial: PartialModel, bytes: Seq<u8>) -> bool {
    &&& bytes.len() > FRAGMENT_SIZE
    &&& partial.num_fragments == fragment_count(bytes.len())
    &&& !partial.complete()
    &&& forall|j: u64| #[trigger]
        partial.received.contains_key(j) ==> {
            &&& j < fragment_count(bytes.len())
            &&& partial.received[j] == fragment_bytes(bytes, j as int)
        }
}

// ---------------------------------------------------------------------------------------
// Ids
// ---------------------------------------------------------------------------------------

proof fn lemma_ids(n: nat, k: nat)
    requires
        near(k, n),
    ensures
        k >= n ==> index_of(n, id_of(k).0) == k && !id_of(k).behind(id_of(n)),
        k < n ==> id_of(k).behind(id_of(n)),
{
    let a = n % 65536;
    let b = k % 65536;
    if k >= n {
        let d = k - n;
        assert(b == if a + d < 65536 {
            a + d
        } else {
            a + d - 65536
        });
    } else {
        let d = n - k;
        assert(a == if b + d < 65536 {
            b + d
        } else {
            b + d - 65536
        });
    }
}

proof fn lemma_next_id(n: nat)
    ensures
        id_of(n).successor() == id_of(n + 1),
        index_of(n, id_of(n).0) == n,
        forall|id: u16| id != id_of(n).0 ==> #[trigger] index_of(n + 1, id) == index_of(n, id),
{
    let a = n % 65536;
    let b = (n + 1) % 65536;
    assert(b == if a == 65535 {
        0
    } else {
        a + 1
    });
}

// ---------------------------------------------------------------------------------------
// Receiving
// ---------------------------------------------------------------------------------------

/// A receiver that received nothing holds nothing.
pub proof fn law_initial_follows()
    ensures
        follows(OrderedModel::initial(), Seq::empty(), 0),
{
}

/// What a receiver holds stays true when the remote buffers another message.
pub proof fn law_follows_send(model: OrderedModel, sent: Seq<Seq<u8>>, n: nat, bytes: Seq<u8>)
    requires
        follows(model, sent, n),
        bytes.len() <= usize::MAX,
    ensures
        follows(model, sent.push(bytes), n),
{
    let after = sent.push(bytes);
    assert forall|k: int| 0 <= k < sent.len() implies #[trigger] after[k] == sent[k] by {}
}

/// What a receiver holds stays true when time passes.
pub proof fn law_follows_time(model: OrderedModel, sent: Seq<Seq<u8>>, n: nat, now: Time)
    requires
        follows(model, sent, n),
    ensures
        follows(OrderedModel { now, ..model }, sent, n),
{
    let after = OrderedModel { now, ..model };
    assert forall|id: u16| #[trigger] after.partial.contains_key(id) implies !after.has(
        MessageId(id),
    ) by {
        assert(!model.has(MessageId(id)));
    }
}

/// Pieces can come in any order, late, and more than once: a receiver holds pieces of the
/// messages that were sent only.
pub proof fn law_follows_receive(
    model: OrderedModel,
    sent: Seq<Seq<u8>>,
    n: nat,
    message: MessageModel,
    k: nat,
    j: int,
    tick: Tick,
)
    requires
        follows(model, sent, n),
        is_piece(message, sent, k, j, tick),
        near(k, n),
    ensures
        OrderedModel::error(message) is None,
        follows(model.receive(message), sent, n),
{
    let id = id_of(k);
    let bytes = sent[k as int];
    let after = model.receive(message);
    lemma_ids(n, k);
    assert(bytes.len() <= usize::MAX);
    if bytes.len() <= FRAGMENT_SIZE {
        if !model.has(id) {
            assert(!model.partial.contains_key(id.0)) by {
                if model.partial.contains_key(id.0) {
                    assert(sent[index_of(n, id.0) as int] == bytes);
                }
            }
            assert forall|i: u16| #[trigger] after.buffer.contains_key(i) implies {
                &&& !MessageId(i).behind(after.pending)
                &&& index_of(n, i) < sent.len()
                &&& after.buffer[i].bytes == sent[index_of(n, i) as int]
            } by {
                if i != id.0 {
                    assert(model.buffer.contains_key(i));
                }
            }
            assert forall|i: u16| #[trigger] after.partial.contains_key(i) implies {
                &&& !after.has(MessageId(i))
                &&& index_of(n, i) < sent.len()
                &&& holds_fragments(after.partial[i], sent[index_of(n, i) as int])
            } by {
                assert(model.partial.contains_key(i));
                assert(!model.has(MessageId(i)));
            }
        }
    } else {
        let count = fragment_count(bytes.len());
        lemma_fragment_range(bytes.len(), j);
        let fragment = message->Fragment_0;
        assert(fragment.fragment_id == j && fragment.num_fragments == count);
        if !model.has(id) {
            let updated = with_fragment(model.partial, fragment, model.now);
            if model.partial.contains_key(id.0) {
                assert(index_of(n, id.0) == k);
                assert(holds_fragments(model.partial[id.0], bytes));
            }
            assert forall|i: u64| #[trigger] updated.received.contains_key(i) implies {
                &&& i < count
                &&& updated.received[i] == fragment_bytes(bytes, i as int)
            } by {
                if i != j {
                    assert(model.partial.contains_key(id.0));
                    assert(model.partial[id.0].received.contains_key(i));
                }
            }
            if updated.complete() {
                assert forall|i: u64| i < count implies #[trigger] updated.received[i]
                    == fragment_bytes(bytes, i as int) by {
                    assert(updated.received.contains_key(i));
                }
                lemma_assembled(updated, bytes, count);
            }
            assert forall|i: u16| #[trigger] after.buffer.contains_key(i) implies {
                &&& !MessageId(i).behind(after.pending)
                &&& index_of(n, i) < sent.len()
                &&& after.buffer[i].bytes == sent[index_of(n, i) as int]
            } by {
                if i != id.0 {
                    assert(model.buffer.contains_key(i));
                }
            }
            assert forall|i: u16| #[trigger] after.partial.contains_key(i) implies {
                &&& !after.has(MessageId(i))
                &&& index_of(n, i) < sent.len()
                &&& holds_fragments(after.partial[i], sent[index_of(n, i) as int])
            } by {
                if i != id.0 {
                    assert(model.partial.contains_key(i));
                    assert(!model.has(MessageId(i)));
                }
            }
        }
    }
}

/// Reading a message moves the receiver on to the next one.
pub proof fn law_follows_read(model: OrderedModel, sent: Seq<Seq<u8>>, n: nat)
    requires
        follows(model, sent, n),
        model.buffer.contains_key(model.pending.0),
    ensures
        model.buffer[model.pending.0].bytes == sent[n as int],
        ReceiverModel::Ordered(model).read_one() is Ordered,
        follows(ReceiverModel::Ordered(model).read_one()->Ordered_0, sent, n + 1),
{
    let after = ReceiverModel::Ordered(model).read_one()->Ordered_0;
    lemma_next_id(n);
    assert(index_of(n, model.pending.0) == n);
    assert forall|i: u16| #[trigger] after.buffer.contains_key(i) implies {
        &&& !MessageId(i).behind(after.pending)
        &&& index_of(n + 1, i) < sent.len()
        &&& after.buffer[i].bytes == sent[index_of(n + 1, i) as int]
    } by {
        assert(model.buffer.contains_key(i));
        assert(index_of(n + 1, i) == index_of(n, i));
    }
    assert forall|i: u16| #[trigger] after.partial.contains_key(i) implies {
        &&& !after.has(MessageId(i))
        &&& index_of(n + 1, i) < sent.len()
        &&& holds_fragments(after.partial[i], sent[index_of(n + 1, i) as int])
    } by {
        assert(model.partial.contains_key(i));
        assert(!model.has(MessageId(i)));
        assert(i != model.pending.0);
        assert(index_of(n + 1, i) == index_of(n, i));
    }
}

/// The messages that can be read are the messages that follow those that were read, in the order
/// they were sent.
pub proof fn law_messages_are_read_in_order(model: OrderedModel, sent: Seq<Seq<u8>>, n: nat)
    requires
        follows(model, sent, n),
    ensures
        n + ReceiverModel::Ordered(model).ready().len() <= sent.len(),
        forall|i: int|
            0 <= i < ReceiverModel::Ordered(model).ready().len() ==> {
                let data = #[trigger] ReceiverModel::Ordered(model).ready()[i];
                let id = id_of((n + i) as nat).0;
                &&& model.buffer.contains_key(id)
                &&& data == model.buffer[id]
                &&& data.bytes == sent[n + i]
            },
    decreases model.buffer.dom().len(),
{
    let receiver = ReceiverModel::Ordered(model);
    let ready = receiver.ready();
    if model.buffer.contains_key(model.pending.0) {
        law_follows_read(model, sent, n);
        let next = receiver.read_one()->Ordered_0;
        law_messages_are_read_in_order(next, sent, n + 1);
        let rest = ReceiverModel::Ordered(next).ready();
        assert(ready =~= seq![model.buffer[model.pending.0]] + rest);
        assert forall|i: int| 0 <= i < ready.len() implies {
            let data = #[trigger] ready[i];
            let id = id_of((n + i) as nat).0;
            &&& model.buffer.contains_key(id)
            &&& data == model.buffer[id]
            &&& data.bytes == sent[n + i]
        } by {
            if i > 0 {
                assert(ready[i] == rest[i - 1]);
                assert(rest[i - 1].bytes == sent[n + 1 + (i - 1)]);
                assert((n + 1 + (i - 1)) as nat == (n + i) as nat);
            } else {
                assert((n + i) as nat == n);
            }
        }
    }
}

// ---------------------------------------------------------------------------------------
// Everything that comes is handed out
// ---------------------------------------------------------------------------------------

/// Whether the piece `j` of the message `k` came, or is not needed any more.
pub open spec fn arrived(model: OrderedModel, n: nat, k: nat, j: int) -> bool {
    let id = id_of(k).0;
    ||| k < n
    ||| model.buffer.contains_key(id)
    ||| model.partial.contains_key(id) && model.partial[id].received.contains_key(j as u64)
}

/// A piece that is received has come, and what has come is not lost.
pub proof fn law_pieces_arrive(
    model: OrderedModel,
    sent: Seq<Seq<u8>>,
    n: nat,
    message: MessageModel,
    k: nat,
    j: int,
    tick: Tick,
    other: nat,
    i: int,
)
    requires
        follows(model, sent, n),
        is_piece(message, sent, k, j, tick),
        near(k, n),
        near(other, n),
    ensures
        arrived(model.receive(message), n, k, j),
        arrived(model, n, other, i) ==> arrived(model.receive(message), n, other, i),
{
    let id = id_of(k);
    let bytes = sent[k as int];
    lemma_ids(n, k);
    lemma_ids(n, other);
    if bytes.len() > FRAGMENT_SIZE {
        let fragment = message->Fragment_0;
        lemma_fragment_range(bytes.len(), j);
        assert(fragment.fragment_id == j as u64);
        if !model.has(id) && model.partial.contains_key(id.0) {
            assert(holds_fragments(model.partial[id.0], bytes));
        }
    }
}

/// A message all of whose pieces came was read, or waits to be read.
pub proof fn law_whole_messages_are_kept(model: OrderedModel, sent: Seq<Seq<u8>>, n: nat, k: nat)
    requires
        follows(model, sent, n),
        k < sent.len(),
        near(k, n),
        forall|j: int|
            0 <= j < pieces(Some(id_of(k)), sent[k as int]).len() ==> #[trigger] arrived(
                model,
                n,
                k,
                j,
            ),
    ensures
        k < n || model.buffer.contains_key(id_of(k).0),
{
    let id = id_of(k);
    let bytes = sent[k as int];
    lemma_ids(n, k);
    if k >= n && !model.buffer.contains_key(id.0) {
        assert(bytes.len() <= usize::MAX);
        assert(pieces(Some(id), bytes).len() > 0);
        assert(arrived(model, n, k, 0));
        assert(model.partial.contains_key(id.0));
        let partial = model.partial[id.0];
        assert(holds_fragments(partial, bytes));
        let count = fragment_count(bytes.len());
        assert(count <= u64::MAX);
        assert forall|j: u64| j < partial.num_fragments implies #[trigger] partial.received.contains_key(
            j,
        ) by {
            assert(arrived(model, n, k, j as int));
        }
        assert(false);
    }
}

/// The messages that follow one another in the buffer can be read.
proof fn lemma_buffered_run(model: OrderedModel, sent: Seq<Seq<u8>>, n: nat, end: nat)
    requires
        follows(model, sent, n),
        n <= end <= sent.len(),
        end <= n + 32768,
        forall|k: nat| n <= k < end ==> model.buffer.contains_key(#[trigger] id_of(k).0),
    ensures
        ReceiverModel::Ordered(model).ready().len() >= end - n,
    decreases end - n,
{
    if n < end {
        let receiver = ReceiverModel::Ordered(model);
        assert(model.buffer.contains_key(id_of(n).0));
        law_follows_read(model, sent, n);
        let next = receiver.read_one()->Ordered_0;
        assert forall|k: nat| n + 1 <= k < end implies next.buffer.contains_key(
            #[trigger] id_of(k).0,
        ) by {
            lemma_ids(n, k);
            lemma_ids(n, n);
        }
        lemma_buffered_run(next, sent, n + 1, end);
        let rest = ReceiverModel::Ordered(next).ready();
        assert(receiver.ready() =~= seq![model.buffer[model.pending.0]] + rest);
    }
}

/// When all pieces of the next messages came, up to the message `end`, those messages can be
/// read.
pub proof fn law_whole_messages_are_handed_out(
    model: OrderedModel,
    sent: Seq<Seq<u8>>,
    n: nat,
    end: nat,
)
    requires
        follows(model, sent, n),
        n <= end <= sent.len(),
        end <= n + 32768,
        forall|k: nat, j: int|
            n <= k < end && 0 <= j < pieces(Some(id_of(k)), sent[k as int]).len()
                ==> #[trigger] arrived(model, n, k, j),
    ensures
        ReceiverModel::Ordered(model).ready().len() >= end - n,
{
    assert forall|k: nat| n <= k < end implies model.buffer.contains_key(
        #[trigger] id_of(k).0,
    ) by {
        law_whole_messages_are_kept(model, sent, n, k);
    }
    lemma_buffered_run(model, sent, n, end);
}

// ---------------------------------------------------------------------------------------
// Sending
// ---------------------------------------------------------------------------------------

/// Whether `unacked` is the message `k`.
pub open spec fn is_message(unacked: UnackedModel, sent: Seq<Seq<u8>>, k: nat) -> bool {
    &&& k < sent.len()
    &&& unacked.id == id_of(k)
    &&& unacked.parts.len() == pieces(Some(id_of(k)), sent[k as int]).len()
    &&& forall|j: int|
        0 <= j < unacked.parts.len() ==> (#[trigger] unacked.parts[j]).message == pieces(
            Some(id_of(k)),
            sent[k as int],
        )[j]
}

/// Whether `unacked` is one of the messages `sent`.
pub open spec fn is_one_of(unacked: UnackedModel, sent: Seq<Seq<u8>>) -> bool {
    exists|k: nat| is_message(unacked, sent, k)
}

/// Whether a sender keeps messages of `sent` only, and numbers the next message after them.
pub open spec fn keeps(model: ReliableModel, sent: Seq<Seq<u8>>) -> bool {
    &&& model.next_id == id_of(sent.len())
    &&& forall|i: int|
        0 <= i < model.unacked.len() ==> is_one_of(#[trigger] model.unacked[i], sent)
}

/// A sender that was not used keeps nothing.
pub proof fn law_initial_keeps(model: ReliableModel)
    requires
        model.next_id == id_of(0),
        model.unacked.len() == 0,
    ensures
        keeps(model, Seq::empty()),
{
}

/// A message that is buffered is the next one that was sent.
pub proof fn law_keeps_send(model: ReliableModel, sent: Seq<Seq<u8>>, bytes: Seq<u8>)
    requires
        keeps(model, sent),
    ensures
        keeps(model.buffer(bytes), sent.push(bytes)),
{
    let after = model.buffer(bytes);
    let all = sent.push(bytes);
    lemma_next_id(sent.len());
    assert forall|i: int| 0 <= i < after.unacked.len() implies is_one_of(
        #[trigger] after.unacked[i],
        all,
    ) by {
        if i < model.unacked.len() {
            assert(is_one_of(model.unacked[i], sent));
            let k = choose|k: nat| is_message(model.unacked[i], sent, k);
            assert(all[k as int] == sent[k as int]);
            assert(is_message(after.unacked[i], all, k));
        } else {
            assert(is_message(after.unacked[i], all, sent.len()));
        }
    }
}

/// Sending, the passing of time and acknowledgements change no message that a sender keeps.
pub proof fn law_keeps_stays(
    model: ReliableModel,
    sent: Seq<Seq<u8>>,
    ack: MessageAck,
    now: Time,
    rtt: Time,
)
    requires
        keeps(model, sent),
    ensures
        keeps(model.notify(ack), sent),
        keeps(ReliableModel { now, rtt, ..model }, sent),
        keeps(ReliableModel { queue: Seq::empty(), ..model.collect() }, sent),
{
    let notified = model.notify(ack);
    assert forall|i: int| 0 <= i < notified.unacked.len() implies is_one_of(
        #[trigger] notified.unacked[i],
        sent,
    ) by {
        let m = lemma_remaining_member(model.unacked, ack, i);
        assert(is_one_of(model.unacked[m], sent));
        let k = choose|k: nat| is_message(model.unacked[m], sent, k);
        assert(is_message(notified.unacked[i], sent, k)) by {
            assert forall|j: int| 0 <= j < notified.unacked[i].parts.len() implies (
            #[trigger] notified.unacked[i].parts[j]).message == pieces(
                Some(id_of(k)),
                sent[k as int],
            )[j] by {
                assert(model.unacked[m].parts[j].message == pieces(
                    Some(id_of(k)),
                    sent[k as int],
                )[j]);
            }
        }
    }
    let updated = ReliableModel { now, rtt, ..model };
    assert forall|i: int| 0 <= i < updated.unacked.len() implies is_one_of(
        #[trigger] updated.unacked[i],
        sent,
    ) by {
        assert(is_one_of(model.unacked[i], sent));
        let k = choose|k: nat| is_message(model.unacked[i], sent, k);
        assert(is_message(updated.unacked[i], sent, k));
    }
    let after = ReliableModel { queue: Seq::empty(), ..model.collect() };
    assert forall|i: int| 0 <= i < after.unacked.len() implies is_one_of(
        #[trigger] after.unacked[i],
        sent,
    ) by {
        assert(is_one_of(model.unacked[i], sent));
        let k = choose|k: nat| is_message(model.unacked[i], sent, k);
        assert(is_message(after.unacked[i], sent, k)) by {
            assert forall|j: int| 0 <= j < after.unacked[i].parts.len() implies (
            #[trigger] after.unacked[i].parts[j]).message == pieces(
                Some(id_of(k)),
                sent[k as int],
            )[j] by {
                assert(model.unacked[i].parts[j].message == pieces(
                    Some(id_of(k)),
                    sent[k as int],
                )[j]);
            }
        }
    }
}

/// What a reliable channel sends are pieces of the messages that were buffered.
pub proof fn law_pieces_are_sent(
    model: ReliableModel,
    sent: Seq<Seq<u8>>,
    message: MessageModel,
    tick: Tick,
)
    requires
        keeps(model, sent),
        SenderModel::Reliable(model).idle(),
        SenderModel::Reliable(model).outgoing().contains(message),
    ensures
        exists|k: nat, j: int| #[trigger] is_piece(message.stamped(tick), sent, k, j, tick),
{
    law_due_pieces_are_sent(model, message);
    let (i, j) = choose|i: int, j: int|
        0 <= i < model.unacked.len() && 0 <= j < model.unacked[i].parts.len() && (
        #[trigger] model.unacked[i].parts[j]).due(model.now, model.delay())
            && model.unacked[i].parts[j].message == message;
    assert(is_one_of(model.unacked[i], sent));
    let k = choose|k: nat| is_message(model.unacked[i], sent, k);
    assert(is_piece(message.stamped(tick), sent, k, j, tick));
}

// ---------------------------------------------------------------------------------------
// From one end to the other
// ---------------------------------------------------------------------------------------

/// Whether `message` is a piece of a message that can be told apart from the message `n`.
pub open spec fn is_near_piece(
    message: MessageModel,
    sent: Seq<Seq<u8>>,
    n: nat,
    tick: Tick,
) -> bool {
    exists|k: nat, j: int|
        near(k, n) && #[trigger] is_piece(message.stamped(tick), sent, k, j, tick)
}

/// Whether `messages` contain the piece `j` of the message `k`.
pub open spec fn includes(
    messages: Seq<MessageModel>,
    sent: Seq<Seq<u8>>,
    k: nat,
    j: int,
) -> bool {
    messages.contains(pieces(Some(id_of(k)), sent[k as int])[j])
}

proof fn lemma_receive_pieces(
    model: OrderedModel,
    sent: Seq<Seq<u8>>,
    n: nat,
    messages: Seq<MessageModel>,
    tick: Tick,
)
    requires
        follows(model, sent, n),
        forall|i: int|
            0 <= i < messages.len() ==> is_near_piece(#[trigger] messages[i], sent, n, tick),
    ensures
        ({
            let after = receive_messages(ReceiverModel::Ordered(model), messages, tick);
            &&& after is Ordered
            &&& follows(after->Ordered_0, sent, n)
            &&& forall|k: nat, j: int|
                #![trigger arrived(after->Ordered_0, n, k, j)]
                near(k, n) && k < sent.len() && 0 <= j < pieces(
                    Some(id_of(k)),
                    sent[k as int],
                ).len() && (arrived(model, n, k, j) || includes(messages, sent, k, j)) ==> arrived(
                    after->Ordered_0,
                    n,
                    k,
                    j,
                )
        }),
    decreases messages.len(),
{
    let after = receive_messages(ReceiverModel::Ordered(model), messages, tick);
    if messages.len() > 0 {
        let message = messages[0].stamped(tick);
        let rest = messages.drop_first();
        assert(is_near_piece(messages[0], sent, n, tick));
        let (k, j) = choose|k: nat, j: int|
            near(k, n) && #[trigger] is_piece(messages[0].stamped(tick), sent, k, j, tick);
        law_follows_receive(model, sent, n, message, k, j, tick);
        let next = model.receive(message);
        assert forall|i: int| 0 <= i < rest.len() implies is_near_piece(
            #[trigger] rest[i],
            sent,
            n,
            tick,
        ) by {
            assert(rest[i] == messages[i + 1]);
        }
        lemma_receive_pieces(next, sent, n, rest, tick);
        assert forall|m: nat, i: int|
            #![trigger arrived(after->Ordered_0, n, m, i)]
            near(m, n) && m < sent.len() && 0 <= i < pieces(
                Some(id_of(m)),
                sent[m as int],
            ).len() && (arrived(model, n, m, i) || includes(messages, sent, m, i)) implies arrived(
            after->Ordered_0,
            n,
            m,
            i,
        ) by {
            let piece = pieces(Some(id_of(m)), sent[m as int])[i];
            if arrived(model, n, m, i) {
                law_pieces_arrive(model, sent, n, message, k, j, tick, m, i);
            } else {
                let p = choose|p: int| 0 <= p < messages.len() && messages[p] == piece;
                if p == 0 {
                    assert(is_piece(message, sent, m, i, tick));
                    law_pieces_arrive(model, sent, n, message, m, i, tick, m, i);
                } else {
                    assert(rest[p - 1] == piece);
                    assert(includes(rest, sent, m, i));
                }
            }
            assert(arrived(next, n, m, i) || includes(rest, sent, m, i));
        }
    }
}

/// Whether the sender of a reliable channel sends every piece that the receiver lacks, and nothing
/// that the receiver could take for another message.
pub open spec fn sends_what_is_missing(
    sender: ReliableModel,
    receiver: OrderedModel,
    sent: Seq<Seq<u8>>,
    n: nat,
    tick: Tick,
) -> bool {
    let outgoing = SenderModel::Reliable(sender).outgoing();
    &&& sent.len() <= n + 32768
    &&& forall|i: int|
        0 <= i < outgoing.len() ==> is_near_piece(#[trigger] outgoing[i], sent, n, tick)
    &&& forall|k: nat, j: int|
        #![trigger arrived(receiver, n, k, j)]
        #![trigger includes(outgoing, sent, k, j)]
        n <= k < sent.len() && 0 <= j < pieces(Some(id_of(k)), sent[k as int]).len() ==> arrived(
            receiver,
            n,
            k,
            j,
        ) || includes(outgoing, sent, k, j)
}

/// The tick of a message, once the receiver took packets of this tick: that of the packet which
/// completed the message, be it an earlier one or one of these.
pub open spec fn tick_of(receiver: OrderedModel, id: u16, tick: Tick) -> Option<Tick> {
    if receiver.buffer.contains_key(id) {
        receiver.buffer[id].tick
    } else {
        Some(tick)
    }
}

/// A message that a receiver holds keeps its tick, and one that is completed gets the tick of the
/// packet.
pub proof fn law_completed_messages_get_the_tick(
    model: OrderedModel,
    messages: Seq<MessageModel>,
    tick: Tick,
)
    ensures
        ({
            let after = receive_messages(ReceiverModel::Ordered(model), messages, tick);
            &&& after is Ordered
            &&& after->Ordered_0.pending == model.pending
            &&& forall|id: u16| #[trigger]
                model.buffer.contains_key(id) ==> after->Ordered_0.buffer.contains_key(id)
                    && after->Ordered_0.buffer[id] == model.buffer[id]
            &&& forall|id: u16| #[trigger]
                after->Ordered_0.buffer.contains_key(id) ==> after->Ordered_0.buffer[id].tick
                    == tick_of(model, id, tick)
        }),
    decreases messages.len(),
{
    if messages.len() > 0 {
        let next = model.receive(messages[0].stamped(tick));
        law_completed_messages_get_the_tick(next, messages.drop_first(), tick);
        let after = receive_messages(
            ReceiverModel::Ordered(model),
            messages,
            tick,
        )->Ordered_0;
        assert forall|id: u16| #[trigger] model.buffer.contains_key(id) implies {
            next.buffer.contains_key(id) && next.buffer[id] == model.buffer[id]
        } by {
            assert(model.has(MessageId(id)));
        }
        assert forall|id: u16| #[trigger]
            model.buffer.contains_key(id) implies after.buffer.contains_key(id)
            && after.buffer[id] == model.buffer[id] by {
            assert(next.buffer.contains_key(id));
        }
        assert forall|id: u16| #[trigger] after.buffer.contains_key(id) implies after.buffer[id].tick
            == tick_of(model, id, tick) by {
            if model.buffer.contains_key(id) {
                assert(next.buffer.contains_key(id));
            }
        }
    }
}

/// Once the receiver of a reliable channel took what its sender sends, and the sender sends every
/// piece that the receiver lacks, all messages that were sent and not read can be read, in the
/// order they were sent, each with the tick of the packet that completed it.
pub proof fn law_reliable_delivery(
    sender: ReliableModel,
    receiver: OrderedModel,
    sent: Seq<Seq<u8>>,
    n: nat,
    tick: Tick,
)
    requires
        follows(receiver, sent, n),
        sends_what_is_missing(sender, receiver, sent, n, tick),
    ensures
        ({
            let ready = receive_messages(
                ReceiverModel::Ordered(receiver),
                SenderModel::Reliable(sender).outgoing(),
                tick,
            ).ready();
            &&& ready.len() == sent.len() - n
            &&& forall|i: int|
                0 <= i < ready.len() ==> {
                    let data = #[trigger] ready[i];
                    &&& data.bytes == sent[n + i]
                    &&& data.tick == tick_of(receiver, id_of((n + i) as nat).0, tick)
                }
        }),
{
    let outgoing = SenderModel::Reliable(sender).outgoing();
    lemma_receive_pieces(receiver, sent, n, outgoing, tick);
    let after = receive_messages(ReceiverModel::Ordered(receiver), outgoing, tick)->Ordered_0;
    assert forall|k: nat, j: int|
        n <= k < sent.len() && 0 <= j < pieces(
            Some(id_of(k)),
            sent[k as int],
        ).len() implies #[trigger] arrived(after, n, k, j) by {
        assert(arrived(receiver, n, k, j) || includes(outgoing, sent, k, j));
    }
    law_whole_messages_are_handed_out(after, sent, n, sent.len());
    law_messages_are_read_in_order(after, sent, n);
    law_completed_messages_get_the_tick(receiver, outgoing, tick);
}

/// What was buffered on a reliable channel of one manager can be read on that channel of another
/// manager with the same channels, in order, each with the tick of the packet that completed it,
/// once the other received packets that hold every piece it lacks.
pub proof fn law_reliable_messages_arrive(
    sender: ManagerModel,
    receiver: ManagerModel,
    tick: Tick,
    kind: ChannelKind,
    sent: Seq<Seq<u8>>,
    n: nat,
)
    requires
        sender.wf(),
        receiver.wf(),
        sender.registry == receiver.registry,
        sender.registry.kinds.contains(kind),
        sender.sender(kind) is Reliable,
        follows(receiver.receiver(kind)->Ordered_0, sent, n),
        sends_what_is_missing(
            sender.sender(kind)->Reliable_0,
            receiver.receiver(kind)->Ordered_0,
            sent,
            n,
            tick,
        ),
    ensures
        ({
            let ready = receive_all(receiver, sender.packets(tick)).receiver(kind).ready();
            &&& ready.len() == sent.len() - n
            &&& forall|i: int|
                0 <= i < ready.len() ==> {
                    let data = #[trigger] ready[i];
                    &&& data.bytes == sent[n + i]
                    &&& data.tick == tick_of(
                        receiver.receiver(kind)->Ordered_0,
                        id_of((n + i) as nat).0,
                        tick,
                    )
                }
        }),
{
    let i = sender.registry.net_id(kind) as int;
    lemma_kind(sender.registry, kind);
    law_delivery(sender, receiver, tick);
    assert(sender.senders[i].wf());
    assert(receiver.receivers[i].wf());
    law_reliable_delivery(
        sender.sender(kind)->Reliable_0,
        receiver.receiver(kind)->Ordered_0,
        sent,
        n,
        tick,
    );
    lemma_receive_all_registry(receiver, sender.packets(tick));
}

/// A sender that has just buffered its messages sends all of them.
pub proof fn law_new_messages_are_sent(
    sender: ReliableModel,
    receiver: OrderedModel,
    sent: Seq<Seq<u8>>,
    tick: Tick,
)
    requires
        SenderModel::Reliable(sender).idle(),
        sent.len() <= 32768,
        sender.unacked.len() == sent.len(),
        forall|k: int|
            0 <= k < sent.len() ==> #[trigger] sender.unacked[k] == UnackedModel::fresh(
                id_of(k as nat),
                sent[k],
            ),
    ensures
        sends_what_is_missing(sender, receiver, sent, 0, tick),
{
    let outgoing = SenderModel::Reliable(sender).outgoing();
    assert forall|p: int| 0 <= p < outgoing.len() implies is_near_piece(
        #[trigger] outgoing[p],
        sent,
        0,
        tick,
    ) by {
        let message = outgoing[p];
        assert(outgoing.contains(message));
        law_due_pieces_are_sent(sender, message);
        let (i, j) = choose|i: int, j: int|
            0 <= i < sender.unacked.len() && 0 <= j < sender.unacked[i].parts.len() && (
            #[trigger] sender.unacked[i].parts[j]).due(sender.now, sender.delay())
                && sender.unacked[i].parts[j].message == message;
        assert(sender.unacked[i] == UnackedModel::fresh(id_of(i as nat), sent[i]));
        assert(is_piece(message.stamped(tick), sent, i as nat, j, tick));
    }
    assert forall|k: nat, j: int|
        #![trigger arrived(receiver, 0, k, j)]
        #![trigger includes(outgoing, sent, k, j)]
        k < sent.len() && 0 <= j < pieces(
            Some(id_of(k)),
            sent[k as int],
        ).len() implies arrived(receiver, 0, k, j) || includes(outgoing, sent, k, j) by {
        let piece = pieces(Some(id_of(k)), sent[k as int])[j];
        let u = sender.unacked[k as int];
        assert(u == UnackedModel::fresh(id_of(k), sent[k as int]));
        assert(sender.unacked[k as int].parts[j].message == piece);
        assert(sender.unacked[k as int].parts[j].due(sender.now, sender.delay()));
        law_due_pieces_are_sent(sender, piece);
    }
}

} // verus!
