//! What is sent: every message in full, and every piece when it has to be.
use vstd::prelude::*;

use crate::channel::reliable_sender::{
    all_due_pieces, due_pieces, PartModel, ReliableModel, UnackedModel,
};
use crate::channel::sender::SenderModel;
use crate::channel::unreliable_sender::{queue_pieces, UnreliableModel};
use crate::ids::{MessageId, Tick, Time};
use crate::laws::delivery::{channel_items, contents, lemma_channel_items_outgoing, lemma_contents};
use crate::laws::frames::{law_due_in_numbers, must_be_sent};
use crate::laws::resending::law_due_pieces_are_sent;
use crate::manager_model::{lemma_packets, ManagerModel};
use crate::message::{
    fragment_bytes, lemma_fragment_range, pieces, MessageModel, SingleModel, FRAGMENT_SIZE,
};
use crate::packet_manager::pack;

verus! {

// ---------------------------------------------------------------------------------------
// Pieces
// ---------------------------------------------------------------------------------------

/// The bytes of `messages`, one after the other.
pub open spec fn joined(messages: Seq<MessageModel>) -> Seq<u8>
    decreases messages.len(),
{
    if messages.len() == 0 {
        Seq::empty()
    } else {
        joined(messages.drop_last()) + match messages.last() {
            MessageModel::Single(data) => data.bytes,
            MessageModel::Fragment(data) => data.bytes,
        }
    }
}

proof fn lemma_joined(id: MessageId, bytes: Seq<u8>, n: int)
    requires
        bytes.len() > FRAGMENT_SIZE,
        0 <= n <= pieces(Some(id), bytes).len(),
    ensures
        joined(pieces(Some(id), bytes).take(n)) == if n == pieces(Some(id), bytes).len() {
            bytes
        } else {
            bytes.take(n * FRAGMENT_SIZE)
        },
    decreases n,
{
    let all = pieces(Some(id), bytes);
    if n == 0 {
        assert(all.len() > 0);
        assert(bytes.take(0) =~= Seq::empty());
    } else {
        let i = n - 1;
        lemma_joined(id, bytes, i);
        lemma_fragment_range(bytes.len(), i);
        assert(all.take(n).drop_last() =~= all.take(i));
        assert(all.take(n).last() == all[i]);
        assert(bytes.take(i * FRAGMENT_SIZE) + fragment_bytes(bytes, i) =~= if n == all.len() {
            bytes
        } else {
            bytes.take(n * FRAGMENT_SIZE)
        });
    }
}

/// The pieces of a message make up the message: one after the other they hold its bytes, each fits
/// in a packet, and each bears the number of the message. A message that fits is one piece; the
/// pieces of a longer one are numbered from zero and tell how many they are.
pub proof fn law_pieces_make_up_the_message(id: Option<MessageId>, bytes: Seq<u8>)
    requires
        bytes.len() <= usize::MAX,
        bytes.len() > FRAGMENT_SIZE ==> id is Some,
    ensures
        ({
            let all = pieces(id, bytes);
            &&& joined(all) == bytes
            &&& bytes.len() <= FRAGMENT_SIZE ==> {
                &&& all.len() == 1
                &&& all[0] == MessageModel::Single(SingleModel { id, tick: None, bytes })
            }
            &&& bytes.len() > FRAGMENT_SIZE ==> {
                &&& all.len() > 1
                &&& forall|j: int|
                    0 <= j < all.len() ==> {
                        &&& #[trigger] all[j] matches MessageModel::Fragment(fragment)
                        &&& fragment.message_id == id.unwrap()
                        &&& fragment.fragment_id == j
                        &&& fragment.num_fragments == all.len()
                        &&& fragment.tick is None
                        &&& 0 < fragment.bytes.len() <= FRAGMENT_SIZE
                    }
            }
        }),
{
    let all = pieces(id, bytes);
    if bytes.len() <= FRAGMENT_SIZE {
        assert(all.drop_last() =~= Seq::empty());
        reveal_with_fuel(joined, 2);
        assert(joined(all) =~= bytes);
    } else {
        lemma_joined(id.unwrap(), bytes, all.len() as int);
        assert(all.take(all.len() as int) =~= all);
        assert forall|j: int| 0 <= j < all.len() implies {
            &&& #[trigger] all[j] matches MessageModel::Fragment(fragment)
            &&& fragment.message_id == id.unwrap()
            &&& fragment.fragment_id == j
            &&& fragment.num_fragments == all.len()
            &&& fragment.tick is None
            &&& 0 < fragment.bytes.len() <= FRAGMENT_SIZE
        } by {
            lemma_fragment_range(bytes.len(), j);
        }
    }
}

/// What is acknowledged of a numbered message tells its pieces apart: a whole message by its number
/// alone, a fragment by the number of its message and its own.
pub proof fn law_acknowledgements_tell_pieces_apart(id: MessageId, bytes: Seq<u8>, i: int, j: int)
    requires
        bytes.len() <= usize::MAX,
        0 <= i < pieces(Some(id), bytes).len(),
        0 <= j < pieces(Some(id), bytes).len(),
    ensures
        pieces(Some(id), bytes)[i].ack() matches Some(ack) && {
            &&& ack.message_id == id
            &&& ack.fragment_id == if bytes.len() > FRAGMENT_SIZE {
                Some(i as u64)
            } else {
                None
            }
        },
        pieces(Some(id), bytes)[i].ack() == pieces(Some(id), bytes)[j].ack() ==> i == j,
{
    law_pieces_make_up_the_message(Some(id), bytes);
}

/// What is acknowledged of a message is its number, and of a fragment which one it is. A whole message
/// without a number cannot be acknowledged.
pub proof fn law_acknowledgement_names_the_message(message: MessageModel)
    ensures
        match message {
            MessageModel::Single(data) => match data.id {
                Some(id) => message.ack() matches Some(ack) && ack.message_id == id
                    && ack.fragment_id is None,
                None => message.ack() is None,
            },
            MessageModel::Fragment(data) => message.ack() matches Some(ack) && ack.message_id
                == data.message_id && ack.fragment_id == Some(data.fragment_id),
        },
{
}

/// A message that comes in a packet gets the tick of the packet and stays as it is otherwise.
pub proof fn law_stamping_sets_the_tick(message: MessageModel, tick: Tick)
    ensures
        match message {
            MessageModel::Single(before) => message.stamped(tick) matches MessageModel::Single(
                after,
            ) && after.tick == Some(tick) && after.id == before.id && after.bytes == before.bytes,
            MessageModel::Fragment(before) => message.stamped(tick) matches MessageModel::Fragment(
                after,
            ) && {
                &&& after.tick == Some(tick)
                &&& after.message_id == before.message_id
                &&& after.fragment_id == before.fragment_id
                &&& after.num_fragments == before.num_fragments
                &&& after.bytes == before.bytes
            },
        },
{
}

// ---------------------------------------------------------------------------------------
// What a channel sends
// ---------------------------------------------------------------------------------------

/// An unreliable channel sends the pieces of every message that waits, once each and in order.
pub proof fn law_unreliable_channel_sends_what_waits(model: UnreliableModel)
    ensures
        SenderModel::Unreliable(model).outgoing() == model.queue.map_values(
            |q: (Option<MessageId>, Seq<u8>)| pieces(q.0, q.1),
        ).flatten(),
{
    lemma_queue_flatten(model.queue);
}

proof fn lemma_queue_flatten(queue: Seq<(Option<MessageId>, Seq<u8>)>)
    ensures
        queue_pieces(queue) == queue.map_values(
            |q: (Option<MessageId>, Seq<u8>)| pieces(q.0, q.1),
        ).flatten(),
    decreases queue.len(),
{
    let f = |q: (Option<MessageId>, Seq<u8>)| pieces(q.0, q.1);
    if queue.len() > 0 {
        lemma_queue_flatten(queue.drop_first());
        assert(queue.map_values(f).drop_first() =~= queue.drop_first().map_values(f));
        assert(queue.map_values(f).first() == pieces(queue[0].0, queue[0].1));
    }
}

proof fn lemma_due_filter(sender: ReliableModel, parts: Seq<PartModel>)
    ensures
        due_pieces(parts, sender.now, sender.delay()) == parts.filter(
            |p: PartModel|
                must_be_sent(
                    p,
                    sender.now,
                    sender.rtt,
                    sender.settings.rtt_resend_factor,
                    sender.settings.rtt_resend_min_delay,
                ),
        ).map_values(|p: PartModel| p.message),
    decreases parts.len(),
{
    reveal(Seq::filter);
    let keep = |p: PartModel|
        must_be_sent(
            p,
            sender.now,
            sender.rtt,
            sender.settings.rtt_resend_factor,
            sender.settings.rtt_resend_min_delay,
        );
    let message = |p: PartModel| p.message;
    if parts.len() > 0 {
        let rest = parts.drop_last();
        lemma_due_filter(sender, rest);
        law_due_in_numbers(sender, parts.last());
        assert(parts.filter(keep).map_values(message) =~= if keep(parts.last()) {
            rest.filter(keep).map_values(message).push(parts.last().message)
        } else {
            rest.filter(keep).map_values(message)
        });
    } else {
        assert(parts.filter(keep).map_values(message) =~= Seq::empty());
    }
}

/// What has to be sent of a message.
pub open spec fn to_be_sent(sender: ReliableModel, unacked: UnackedModel) -> Seq<MessageModel> {
    unacked.parts.filter(
        |p: PartModel|
            must_be_sent(
                p,
                sender.now,
                sender.rtt,
                sender.settings.rtt_resend_factor,
                sender.settings.rtt_resend_min_delay,
            ),
    ).map_values(|p: PartModel| p.message)
}

proof fn lemma_all_due_flatten(sender: ReliableModel, unacked: Seq<UnackedModel>)
    ensures
        all_due_pieces(unacked, sender.now, sender.delay()) == unacked.map_values(
            |u: UnackedModel| to_be_sent(sender, u),
        ).flatten(),
    decreases unacked.len(),
{
    let f = |u: UnackedModel| to_be_sent(sender, u);
    let all = unacked.map_values(f);
    all.lemma_flatten_and_flatten_alt_are_equivalent();
    if unacked.len() > 0 {
        let rest = unacked.drop_last();
        lemma_all_due_flatten(sender, rest);
        lemma_due_filter(sender, unacked.last().parts);
        assert(all.drop_last() =~= rest.map_values(f));
        assert(all.last() == to_be_sent(sender, unacked.last()));
        all.drop_last().lemma_flatten_and_flatten_alt_are_equivalent();
    }
}

/// A reliable channel sends every piece that is not known to have arrived and that was never sent,
/// or was last sent longer ago than the shortest delay and than the given number of round trip
/// times. It sends nothing else, and each such piece once, in the order the messages were buffered.
pub proof fn law_reliable_channel_sends_what_it_must(model: ReliableModel)
    requires
        model.queue.len() == 0,
    ensures
        SenderModel::Reliable(model).outgoing() == model.unacked.map_values(
            |u: UnackedModel| to_be_sent(model, u),
        ).flatten(),
{
    lemma_all_due_flatten(model, model.unacked);
    assert(SenderModel::Reliable(model).outgoing() =~= all_due_pieces(
        model.unacked,
        model.now,
        model.delay(),
    ));
}

/// A piece that is not known to have arrived is sent again at any time that is later than its last
/// sending by more than the shortest delay and by more than the given number of round trip times.
pub proof fn law_lost_piece_is_sent_again(
    model: ReliableModel,
    i: int,
    j: int,
    t: Time,
    later: Time,
    rtt: Time,
)
    requires
        model.queue.len() == 0,
        0 <= i < model.unacked.len(),
        0 <= j < model.unacked[i].parts.len(),
        !model.unacked[i].parts[j].acked,
        model.unacked[i].parts[j].last_sent == Some(t),
        later - t > model.settings.rtt_resend_min_delay,
        later - t > rtt * model.settings.rtt_resend_factor,
    ensures
        SenderModel::Reliable(model).update(later, rtt).outgoing().contains(
            model.unacked[i].parts[j].message,
        ),
{
    let after = ReliableModel { now: later, rtt, ..model };
    assert(SenderModel::Reliable(model).update(later, rtt) == SenderModel::Reliable(after));
    law_due_in_numbers(after, model.unacked[i].parts[j]);
    law_due_pieces_are_sent(after, model.unacked[i].parts[j].message);
    assert(after.unacked[i].parts[j].due(after.now, after.delay()));
}

// ---------------------------------------------------------------------------------------
// What packets hold
// ---------------------------------------------------------------------------------------

/// The packets that are sent hold, of every channel, exactly what the channel sends, in order.
pub proof fn law_packets_hold_what_every_channel_sends(model: ManagerModel, tick: Tick, i: int)
    requires
        model.wf(),
        0 <= i < model.senders.len(),
    ensures
        channel_items(contents(model.packets(tick)), i as u16) == model.senders[i].outgoing(),
{
    lemma_packets(model, tick);
    lemma_contents(model.packets(tick), pack(model.outgoing()));
    lemma_channel_items_outgoing(model.senders, i as u16);
}

} // verus!
