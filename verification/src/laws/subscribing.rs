//! Subscribers learn of every message that arrived, once.
use vstd::prelude::*;

use crate::channel::acks::{consumed, pending, told};
use crate::channel::sender::SenderModel;
use crate::channel::unreliable_sender::{all_true, UnreliableModel};
use crate::ids::MessageId;
use crate::message::MessageAck;

verus! {

/// The fragments of a message that arrived, after `acks` came.
pub open spec fn flags_after(flags: Seq<bool>, acks: Seq<MessageAck>) -> Seq<bool> {
    Seq::new(
        flags.len(),
        |j: int|
            flags[j] || exists|k: int|
                0 <= k < acks.len() && (#[trigger] acks[k]).fragment_id == Some(j as u64),
    )
}

/// Whether `acks` all speak of fragments of the message `id`, which has `count` fragments.
pub open spec fn fragments_of(acks: Seq<MessageAck>, id: MessageId, count: nat) -> bool {
    forall|k: int|
        0 <= k < acks.len() ==> {
            let ack = #[trigger] acks[k];
            ack.message_id == id && ack.fragment_id is Some && ack.fragment_id.unwrap() < count
        }
}

/// A whole message that arrived is reported to every subscriber of its channel.
pub proof fn law_whole_message_is_reported(model: UnreliableModel, id: MessageId)
    requires
        model.with_acks,
    ensures
        model.notify(MessageAck { message_id: id, fragment_id: None }).subscribers == told(
            model.subscribers,
            seq![id],
        ),
{
}

/// A message that was cut is reported to every subscriber when the last of its fragments
/// arrived, in whatever order they arrive and however often: once all arrived it was reported
/// once, and before that not at all.
pub proof fn law_cut_message_is_reported(
    model: UnreliableModel,
    id: MessageId,
    acks: Seq<MessageAck>,
)
    requires
        model.with_acks,
        model.waiting.contains_key(id.0),
        0 < model.waiting[id.0].len() <= u64::MAX,
        !all_true(model.waiting[id.0]),
        fragments_of(acks, id, model.waiting[id.0].len()),
    ensures
        ({
            let after = SenderModel::Unreliable(model).notify_all(acks);
            let flags = flags_after(model.waiting[id.0], acks);
            &&& after.subscribers() == if all_true(flags) {
                told(model.subscribers, seq![id])
            } else {
                model.subscribers
            }
            &&& after->Unreliable_0.waiting.contains_key(id.0) <==> !all_true(flags)
        }),
{
    lemma_cut_message(model, id, acks);
}

/// The state after acknowledgements of fragments of one message.
proof fn lemma_cut_message(model: UnreliableModel, id: MessageId, acks: Seq<MessageAck>)
    requires
        model.with_acks,
        model.waiting.contains_key(id.0),
        0 < model.waiting[id.0].len() <= u64::MAX,
        !all_true(model.waiting[id.0]),
        fragments_of(acks, id, model.waiting[id.0].len()),
    ensures
        ({
            let after = SenderModel::Unreliable(model).notify_all(acks);
            let flags = flags_after(model.waiting[id.0], acks);
            after == SenderModel::Unreliable(
                if all_true(flags) {
                    UnreliableModel {
                        waiting: model.waiting.remove(id.0),
                        subscribers: told(model.subscribers, seq![id]),
                        ..model
                    }
                } else {
                    UnreliableModel { waiting: model.waiting.insert(id.0, flags), ..model }
                },
            )
        }),
    decreases acks.len(),
{
    let start = model.waiting[id.0];
    let flags = flags_after(start, acks);
    if acks.len() == 0 {
        assert(flags =~= start);
        assert(model.waiting.insert(id.0, flags) =~= model.waiting);
    } else {
        let rest = acks.drop_last();
        let ack = acks[acks.len() - 1];
        assert(acks.last() == ack);
        assert(fragments_of(rest, id, start.len())) by {
            assert forall|k: int| 0 <= k < rest.len() implies {
                let ack = #[trigger] rest[k];
                ack.message_id == id && ack.fragment_id is Some && ack.fragment_id.unwrap()
                    < start.len()
            } by {
                assert(rest[k] == acks[k]);
            }
        }
        lemma_cut_message(model, id, rest);
        let before = flags_after(start, rest);
        let j = ack.fragment_id.unwrap() as int;
        assert(ack.message_id == id && j < start.len());
        assert forall|i: int| 0 <= i < start.len() implies flags[i] == (before[i] || i == j) by {
            if exists|k: int|
                0 <= k < acks.len() && (#[trigger] acks[k]).fragment_id == Some(i as u64) {
                let k = choose|k: int|
                    0 <= k < acks.len() && (#[trigger] acks[k]).fragment_id == Some(i as u64);
                if k < rest.len() {
                    assert(rest[k].fragment_id == Some(i as u64));
                }
            }
            if exists|k: int|
                0 <= k < rest.len() && (#[trigger] rest[k]).fragment_id == Some(i as u64) {
                let k = choose|k: int|
                    0 <= k < rest.len() && (#[trigger] rest[k]).fragment_id == Some(i as u64);
                assert(acks[k].fragment_id == Some(i as u64));
            }
            if i == j {
                assert(acks[acks.len() - 1].fragment_id == Some(i as u64));
            }
        }
        assert(flags =~= before.update(j, true));
        if all_true(before) {
            assert(all_true(flags)) by {
                assert forall|i: int| 0 <= i < flags.len() implies #[trigger] flags[i] by {
                    assert(before[i]);
                }
            }
        } else {
            let middle = UnreliableModel { waiting: model.waiting.insert(id.0, before), ..model };
            assert(middle.waiting_after(ack) == flags);
            assert(middle.notify(ack).waiting =~= if all_true(flags) {
                model.waiting.remove(id.0)
            } else {
                model.waiting.insert(id.0, flags)
            });
        }
    }
}

/// A subscriber gets the reports in the order they were made, each once.
pub proof fn law_reports_are_read_in_order(
    subscribers: Seq<Seq<MessageId>>,
    ids: Seq<MessageId>,
    position: usize,
)
    requires
        position < subscribers.len(),
    ensures
        subscribers[position as int].len() > 0 ==> {
            &&& pending(told(subscribers, ids), position) == pending(subscribers, position)
            &&& consumed(told(subscribers, ids), position)[position as int] == consumed(
                subscribers,
                position,
            )[position as int] + ids
        },
        subscribers[position as int].len() == 0 && ids.len() > 0 ==> {
            &&& pending(told(subscribers, ids), position) == Some(ids[0])
            &&& consumed(told(subscribers, ids), position)[position as int] == ids.drop_first()
        },
{
    let queue = subscribers[position as int];
    if queue.len() > 0 {
        assert((queue + ids).drop_first() =~= queue.drop_first() + ids);
    } else {
        assert(queue + ids =~= ids);
    }
}

/// A subscriber that asks is told about the oldest message that it was not told about, if there is
/// one. That message is struck off its list, and nothing else is.
pub proof fn law_report_takes_one_message(
    subscribers: Seq<Seq<MessageId>>,
    position: usize,
    other: int,
)
    requires
        0 <= other < subscribers.len(),
    ensures
        consumed(subscribers, position).len() == subscribers.len(),
        other != position ==> consumed(subscribers, position)[other] == subscribers[other],
        match pending(subscribers, position) {
            Some(id) => {
                &&& position < subscribers.len()
                &&& subscribers[position as int] == seq![id] + consumed(
                    subscribers,
                    position,
                )[position as int]
            },
            None => {
                &&& consumed(subscribers, position) == subscribers
                &&& position < subscribers.len() ==> subscribers[position as int].len() == 0
            },
        },
{
    if let Some(id) = pending(subscribers, position) {
        let queue = subscribers[position as int];
        assert(queue =~= seq![id] + queue.drop_first());
    }
}

} // verus!
