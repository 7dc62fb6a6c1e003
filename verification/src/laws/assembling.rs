//! Cut messages are put together across packets and across time.
use vstd::prelude::*;

use crate::channel::fragment_receiver::{with_fragment, DISCARD_AFTER};
use crate::channel::receiver::{ReceiverModel, UnorderedModel};
use crate::ids::{MessageId, Tick, Time};
use crate::laws::delivery::{is_fragment, is_fragment_of, lemma_assembled};
use crate::laws::frames::lemma_read_unordered;
use crate::message::{
    fragment_bytes, fragment_count, pieces, MessageModel, SingleModel, FRAGMENT_SIZE,
};

verus! {

/// Something that happens to the receiving end of a channel.
pub enum Arrival {
    /// A message comes, with the tick of its packet.
    Message(MessageModel),
    /// The clock shows another time.
    Time(Time),
    /// The messages that can be read are read.
    Read,
}

/// A receiver after something happened to it.
pub open spec fn after_arrival(receiver: ReceiverModel, arrival: Arrival) -> ReceiverModel {
    match arrival {
        Arrival::Message(message) => receiver.receive(message),
        Arrival::Time(now) => receiver.update(now),
        Arrival::Read => receiver.drained(),
    }
}

/// A receiver after a history.
pub open spec fn after_arrivals(receiver: ReceiverModel, arrivals: Seq<Arrival>) -> ReceiverModel
    decreases arrivals.len(),
{
    if arrivals.len() == 0 {
        receiver
    } else {
        after_arrival(after_arrivals(receiver, arrivals.drop_last()), arrivals.last())
    }
}

/// What the clock shows after a history.
pub open spec fn clock(arrivals: Seq<Arrival>, start: Time) -> Time
    decreases arrivals.len(),
{
    if arrivals.len() == 0 {
        start
    } else {
        match arrivals.last() {
            Arrival::Time(now) => now,
            _ => clock(arrivals.drop_last(), start),
        }
    }
}

/// When the last fragment of the message `id` came, if one came.
pub open spec fn last_fragment_at(arrivals: Seq<Arrival>, id: MessageId, start: Time) -> Option<
    Time,
>
    decreases arrivals.len(),
{
    if arrivals.len() == 0 {
        None
    } else {
        let rest = arrivals.drop_last();
        match arrivals.last() {
            Arrival::Message(message) => if is_fragment_of(message, id) {
                Some(clock(rest, start))
            } else {
                last_fragment_at(rest, id, start)
            },
            _ => last_fragment_at(rest, id, start),
        }
    }
}

/// Whether the clock never shows a time that is later than the last fragment of the message `id` by
/// more than the time that fragments are kept.
pub open spec fn in_time(arrivals: Seq<Arrival>, id: MessageId, start: Time) -> bool {
    forall|k: int|
        0 <= k < arrivals.len() ==> is_in_time(
            #[trigger] arrivals[k],
            last_fragment_at(arrivals.take(k), id, start),
        )
}

/// Whether a fragment that came at `last` is still kept when this happens.
pub open spec fn is_in_time(arrival: Arrival, last: Option<Time>) -> bool {
    match arrival {
        Arrival::Time(now) => match last {
            Some(t) => now <= t + DISCARD_AFTER,
            None => true,
        },
        _ => true,
    }
}

/// Whether something that happens is that a fragment of the message `id` comes.
pub open spec fn brings_fragment_of(arrival: Arrival, id: MessageId) -> bool {
    arrival matches Arrival::Message(message) && is_fragment_of(message, id)
}

/// Whether something that happens is that the fragment `j` of the message `bytes` comes.
pub open spec fn brings_fragment(
    arrival: Arrival,
    id: MessageId,
    bytes: Seq<u8>,
    j: int,
) -> bool {
    arrival matches Arrival::Message(message) && is_fragment(message, id, bytes, j)
}

/// Whether the fragment `j` of the message `bytes` comes in a history.
pub open spec fn comes(arrivals: Seq<Arrival>, id: MessageId, bytes: Seq<u8>, j: int) -> bool {
    exists|i: int|
        0 <= i < arrivals.len() && brings_fragment(#[trigger] arrivals[i], id, bytes, j)
}

/// Whether every fragment of the message `id` that comes in a history is one of `bytes`, other than
/// the fragment `last`.
pub open spec fn brings_all_but(
    arrivals: Seq<Arrival>,
    id: MessageId,
    bytes: Seq<u8>,
    last: int,
) -> bool {
    forall|i: int|
        0 <= i < arrivals.len() && brings_fragment_of(#[trigger] arrivals[i], id) ==> exists|j: int|
            0 <= j < fragment_count(bytes.len()) && j != last && #[trigger] brings_fragment(
                arrivals[i],
                id,
                bytes,
                j,
            )
}

/// A history without the fragments of the message `id`.
pub open spec fn without_fragments_of(arrivals: Seq<Arrival>, id: MessageId) -> Seq<Arrival> {
    arrivals.filter(|a: Arrival| !brings_fragment_of(a, id))
}

/// What is known of a message that lacks the fragment `last`. `after` is the receiver after the
/// history, and `rest` is what it would be without the fragments of the message.
spec fn awaits_fragment(
    after: UnorderedModel,
    rest: UnorderedModel,
    arrivals: Seq<Arrival>,
    start: Time,
    id: MessageId,
    bytes: Seq<u8>,
    last: int,
) -> bool {
    let count = fragment_count(bytes.len());
    &&& after.ready == rest.ready
    &&& after.now == clock(arrivals, start)
    &&& rest.now == clock(arrivals, start)
    &&& after.partial.remove(id.0) == rest.partial.remove(id.0)
    &&& after.partial.contains_key(id.0) && after.partial[id.0].num_fragments == count
        ==> !after.partial[id.0].received.contains_key(last as u64)
    &&& last_fragment_at(arrivals, id, start) matches Some(t) ==> {
        &&& after.partial.contains_key(id.0)
        &&& after.partial[id.0].num_fragments == count
        &&& after.partial[id.0].last_received == t
    }
    &&& forall|j: int|
        0 <= j < count && #[trigger] comes(arrivals, id, bytes, j) ==> {
            &&& last_fragment_at(arrivals, id, start) is Some
            &&& after.partial[id.0].received.contains_key(j as u64)
            &&& after.partial[id.0].received[j as u64] == fragment_bytes(bytes, j)
        }
}

/// The state of every other message is the same with and without the fragments of one message.
proof fn lemma_same_but_one(after: UnorderedModel, rest: UnorderedModel, id: MessageId, x: u16)
    requires
        after.partial.remove(id.0) == rest.partial.remove(id.0),
        x != id.0,
    ensures
        after.partial.contains_key(x) == rest.partial.contains_key(x),
        after.partial.contains_key(x) ==> after.partial[x] == rest.partial[x],
{
    assert(after.partial.contains_key(x) == after.partial.remove(id.0).contains_key(x));
    assert(rest.partial.contains_key(x) == rest.partial.remove(id.0).contains_key(x));
    if after.partial.contains_key(x) {
        assert(after.partial.remove(id.0)[x] == after.partial[x]);
        assert(rest.partial.remove(id.0)[x] == rest.partial[x]);
    }
}

proof fn lemma_other_message(
    after: UnorderedModel,
    rest: UnorderedModel,
    message: MessageModel,
    id: MessageId,
)
    requires
        after.partial.remove(id.0) == rest.partial.remove(id.0),
        after.ready == rest.ready,
        after.now == rest.now,
        !is_fragment_of(message, id),
    ensures
        after.receive(message).ready == rest.receive(message).ready,
        after.receive(message).now == after.now,
        rest.receive(message).now == rest.now,
        after.receive(message).partial.remove(id.0) == rest.receive(message).partial.remove(id.0),
        after.receive(message).partial.contains_key(id.0) == after.partial.contains_key(id.0),
        after.partial.contains_key(id.0) ==> after.receive(message).partial[id.0]
            == after.partial[id.0],
{
    match message {
        MessageModel::Single(_) => {},
        MessageModel::Fragment(fragment) => {
            let other = fragment.message_id.0;
            assert(other != id.0);
            lemma_same_but_one(after, rest, id, other);
            let updated = with_fragment(after.partial, fragment, after.now);
            assert(updated == with_fragment(rest.partial, fragment, rest.now));
            if updated.complete() {
                assert(after.receive(message).partial.remove(id.0) =~= after.partial.remove(
                    id.0,
                ).remove(other));
                assert(rest.receive(message).partial.remove(id.0) =~= rest.partial.remove(
                    id.0,
                ).remove(other));
            } else {
                assert(after.receive(message).partial.remove(id.0) =~= after.partial.remove(
                    id.0,
                ).insert(other, updated));
                assert(rest.receive(message).partial.remove(id.0) =~= rest.partial.remove(
                    id.0,
                ).insert(other, updated));
            }
        },
    }
}

/// The fragments of a message wait for the one that is missing, as long as they are in time.
proof fn lemma_fragments_wait_in_time(
    model: UnorderedModel,
    arrivals: Seq<Arrival>,
    id: MessageId,
    bytes: Seq<u8>,
    last: int,
)
    requires
        FRAGMENT_SIZE < bytes.len() <= usize::MAX,
        0 <= last < fragment_count(bytes.len()),
        model.partial.contains_key(id.0) && model.partial[id.0].num_fragments == fragment_count(
            bytes.len(),
        ) ==> !model.partial[id.0].received.contains_key(last as u64),
        brings_all_but(arrivals, id, bytes, last),
        in_time(arrivals, id, model.now),
    ensures
        after_arrivals(ReceiverModel::Unordered(model), arrivals) is Unordered,
        after_arrivals(
            ReceiverModel::Unordered(model),
            without_fragments_of(arrivals, id),
        ) is Unordered,
        awaits_fragment(
            after_arrivals(ReceiverModel::Unordered(model), arrivals)->Unordered_0,
            after_arrivals(
                ReceiverModel::Unordered(model),
                without_fragments_of(arrivals, id),
            )->Unordered_0,
            arrivals,
            model.now,
            id,
            bytes,
            last,
        ),
    decreases arrivals.len(),
{
    reveal(Seq::filter);
    let start = ReceiverModel::Unordered(model);
    let count = fragment_count(bytes.len());
    let others = without_fragments_of(arrivals, id);
    if arrivals.len() == 0 {
        assert(others =~= arrivals);
        assert forall|j: int| 0 <= j < count implies !(#[trigger] comes(arrivals, id, bytes, j)) by {}
    } else {
        let front = arrivals.drop_last();
        let arrival = arrivals[arrivals.len() - 1];
        assert(arrivals.last() == arrival);
        assert(brings_all_but(front, id, bytes, last)) by {
            assert forall|i: int|
                0 <= i < front.len() && brings_fragment_of(
                    #[trigger] front[i],
                    id,
                ) implies exists|j: int|
                0 <= j < count && j != last && #[trigger] brings_fragment(
                    front[i],
                    id,
                    bytes,
                    j,
                ) by {
                assert(front[i] == arrivals[i]);
            }
        }
        assert(in_time(front, id, model.now)) by {
            assert forall|k: int| 0 <= k < front.len() implies is_in_time(
                #[trigger] front[k],
                last_fragment_at(front.take(k), id, model.now),
            ) by {
                assert(front[k] == arrivals[k]);
                assert(front.take(k) =~= arrivals.take(k));
            }
        }
        lemma_fragments_wait_in_time(model, front, id, bytes, last);
        let other_front = without_fragments_of(front, id);
        let before = after_arrivals(start, front)->Unordered_0;
        let rest = after_arrivals(start, other_front)->Unordered_0;
        assert forall|j: int| 0 <= j < count && #[trigger] comes(arrivals, id, bytes, j) implies comes(
            front,
            id,
            bytes,
            j,
        ) || brings_fragment(arrival, id, bytes, j) by {
            let i = choose|i: int|
                0 <= i < arrivals.len() && brings_fragment(#[trigger] arrivals[i], id, bytes, j);
            if i < front.len() {
                assert(front[i] == arrivals[i]);
            }
        }
        if brings_fragment_of(arrival, id) {
            assert(others =~= other_front);
            let message = arrival->Message_0;
            let own = choose|j: int|
                0 <= j < count && j != last && #[trigger] brings_fragment(arrival, id, bytes, j);
            let tick = choose|tick: Tick|
                message == #[trigger] pieces(Some(id), bytes)[own].stamped(tick);
            let fragment = message->Fragment_0;
            let updated = with_fragment(before.partial, fragment, before.now);
            assert(fragment.fragment_id == own as u64 && fragment.num_fragments == count);
            assert(!updated.received.contains_key(last as u64));
            assert(!updated.complete());
            let after = before.receive(message);
            assert(after_arrivals(start, arrivals) == ReceiverModel::Unordered(after));
            assert(after.partial == before.partial.insert(id.0, updated));
            assert(after.partial.remove(id.0) =~= before.partial.remove(id.0));
            assert forall|j: int| 0 <= j < count && #[trigger] comes(arrivals, id, bytes, j) implies {
                &&& after.partial[id.0].received.contains_key(j as u64)
                &&& after.partial[id.0].received[j as u64] == fragment_bytes(bytes, j)
            } by {
                if brings_fragment(arrival, id, bytes, j) {
                    let t = choose|t: Tick|
                        message == #[trigger] pieces(Some(id), bytes)[j].stamped(t);
                    assert(fragment.fragment_id == j as u64);
                } else {
                    assert(comes(front, id, bytes, j));
                }
            }
        } else {
            assert(others =~= other_front.push(arrival));
            assert(others.drop_last() =~= other_front);
            assert forall|j: int| 0 <= j < count && #[trigger] comes(arrivals, id, bytes, j) implies comes(
                front,
                id,
                bytes,
                j,
            ) by {
                if brings_fragment(arrival, id, bytes, j) {
                    let message = arrival->Message_0;
                    let t = choose|t: Tick|
                        message == #[trigger] pieces(Some(id), bytes)[j].stamped(t);
                    assert(is_fragment_of(message, id));
                }
            }
            match arrival {
                Arrival::Message(message) => {
                    lemma_other_message(before, rest, message, id);
                },
                Arrival::Time(now) => {
                    let after = after_arrivals(start, arrivals)->Unordered_0;
                    let next = after_arrivals(start, others)->Unordered_0;
                    assert(arrivals.take(arrivals.len() - 1) =~= front);
                    assert(is_in_time(arrival, last_fragment_at(front, id, model.now)));
                    let left = after.partial.remove(id.0);
                    let right = next.partial.remove(id.0);
                    assert forall|x: u16|
                        #![trigger left.dom().contains(x)]
                        #![trigger right.dom().contains(x)]
                        left.dom().contains(x) == right.dom().contains(x) && (
                        left.dom().contains(x) ==> left[x] == right[x]) by {
                        if x != id.0 {
                            lemma_same_but_one(before, rest, id, x);
                        }
                    }
                    assert(left =~= right);
                },
                Arrival::Read => {
                    lemma_read_unordered(before, before.ready.len());
                    lemma_read_unordered(rest, rest.ready.len());
                },
            }
        }
    }
}

/// The fragments of a message can come in any order, more than once, in packets of different ticks,
/// among other messages, with the clock moving on and other messages being read in between. As long
/// as none of them has to wait longer than fragments are kept, the whole message can be read as soon
/// as the last one comes, with the tick of the packet that brought it. Before that, what can be read
/// is what could be read without them.
pub proof fn law_fragments_come_over_time(
    model: UnorderedModel,
    arrivals: Seq<Arrival>,
    id: MessageId,
    bytes: Seq<u8>,
    last: int,
    tick: Tick,
)
    requires
        FRAGMENT_SIZE < bytes.len() <= usize::MAX,
        0 <= last < fragment_count(bytes.len()),
        model.partial.contains_key(id.0) && model.partial[id.0].num_fragments == fragment_count(
            bytes.len(),
        ) ==> !model.partial[id.0].received.contains_key(last as u64),
        brings_all_but(arrivals, id, bytes, last),
        forall|j: int|
            0 <= j < fragment_count(bytes.len()) && j != last ==> #[trigger] comes(
                arrivals,
                id,
                bytes,
                j,
            ),
        in_time(arrivals, id, model.now),
    ensures
        ({
            let without = after_arrivals(
                ReceiverModel::Unordered(model),
                without_fragments_of(arrivals, id),
            );
            let before = after_arrivals(ReceiverModel::Unordered(model), arrivals);
            let after = before.receive(pieces(Some(id), bytes)[last].stamped(tick));
            &&& before.ready() == without.ready()
            &&& after.ready() == without.ready().push(
                SingleModel { id: Some(id), tick: Some(tick), bytes },
            )
        }),
{
    let count = fragment_count(bytes.len());
    lemma_fragments_wait_in_time(model, arrivals, id, bytes, last);
    let before = after_arrivals(ReceiverModel::Unordered(model), arrivals)->Unordered_0;
    let message = pieces(Some(id), bytes)[last].stamped(tick);
    let updated = with_fragment(before.partial, message->Fragment_0, before.now);
    assert forall|i: u64| i < count implies #[trigger] updated.received.contains_key(i)
        && updated.received[i] == fragment_bytes(bytes, i as int) by {
        if i != last {
            assert(comes(arrivals, id, bytes, i as int));
        }
    }
    assert(updated.complete());
    assert forall|i: u64| i < count implies #[trigger] updated.received[i] == fragment_bytes(
        bytes,
        i as int,
    ) by {
        assert(updated.received.contains_key(i));
    }
    lemma_assembled(updated, bytes, count);
}

} // verus!
