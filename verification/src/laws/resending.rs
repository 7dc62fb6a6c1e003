//! A reliable channel sends a message until it arrives, and not any longer.
use vstd::prelude::*;

use crate::ack_map::{acks_in, recorded};
use crate::channel::registry::lemma_kind;
use crate::channel::reliable_sender::{
    all_due_pieces, completed, due_pieces, remaining, PartModel, ReliableModel, UnackedModel,
};
use crate::channel::sender::SenderModel;
use crate::header::PacketHeader;
use crate::ids::{ChannelKind, PacketId, Tick, Time};
use crate::laws::acks::law_senders_are_told;
use crate::manager_model::{channels_outgoing, lemma_notified_wf, ManagerModel};
use crate::message::{pieces, MessageAck, MessageModel};

verus! {

/// Whether every piece that `ack` speaks of is known to have arrived.
pub open spec fn settled(model: ReliableModel, ack: MessageAck) -> bool {
    forall|i: int, j: int|
        0 <= i < model.unacked.len() && 0 <= j < model.unacked[i].parts.len() && (
        #[trigger] model.unacked[i].parts[j]).message.ack() == Some(ack)
            ==> model.unacked[i].parts[j].acked
}

proof fn lemma_due_member(parts: Seq<PartModel>, now: Time, delay: Time, message: MessageModel)
    ensures
        due_pieces(parts, now, delay).contains(message) <==> exists|j: int|
            0 <= j < parts.len() && (#[trigger] parts[j]).due(now, delay) && parts[j].message
                == message,
    decreases parts.len(),
{
    let due = due_pieces(parts, now, delay);
    if parts.len() > 0 {
        let rest = parts.drop_last();
        let before = due_pieces(rest, now, delay);
        lemma_due_member(rest, now, delay, message);
        if due.contains(message) {
            let i = choose|i: int| 0 <= i < due.len() && due[i] == message;
            if i < before.len() {
                assert(before[i] == message);
                let j = choose|j: int|
                    0 <= j < rest.len() && (#[trigger] rest[j]).due(now, delay) && rest[j].message
                        == message;
                assert(parts[j] == rest[j]);
            } else {
                assert(parts[parts.len() - 1].message == message);
            }
        }
        if exists|j: int|
            0 <= j < parts.len() && (#[trigger] parts[j]).due(now, delay) && parts[j].message
                == message {
            let j = choose|j: int|
                0 <= j < parts.len() && (#[trigger] parts[j]).due(now, delay) && parts[j].message
                    == message;
            if j < rest.len() {
                assert(rest[j] == parts[j]);
                assert(before.contains(message));
                let i = choose|i: int| 0 <= i < before.len() && before[i] == message;
                assert(due[i] == message);
            } else {
                assert(due[due.len() - 1] == message);
            }
        }
    }
}

proof fn lemma_all_due_member(
    unacked: Seq<UnackedModel>,
    now: Time,
    delay: Time,
    message: MessageModel,
)
    ensures
        all_due_pieces(unacked, now, delay).contains(message) <==> exists|i: int, j: int|
            0 <= i < unacked.len() && 0 <= j < unacked[i].parts.len() && (
            #[trigger] unacked[i].parts[j]).due(now, delay) && unacked[i].parts[j].message
                == message,
    decreases unacked.len(),
{
    let all = all_due_pieces(unacked, now, delay);
    if unacked.len() > 0 {
        let rest = unacked.drop_last();
        let last = unacked.len() - 1;
        let before = all_due_pieces(rest, now, delay);
        let own = due_pieces(unacked[last].parts, now, delay);
        lemma_all_due_member(rest, now, delay, message);
        lemma_due_member(unacked[last].parts, now, delay, message);
        if all.contains(message) {
            let k = choose|k: int| 0 <= k < all.len() && all[k] == message;
            if k < before.len() {
                assert(before[k] == message);
                let (i, j) = choose|i: int, j: int|
                    0 <= i < rest.len() && 0 <= j < rest[i].parts.len() && (
                    #[trigger] rest[i].parts[j]).due(now, delay) && rest[i].parts[j].message
                        == message;
                assert(unacked[i].parts[j] == rest[i].parts[j]);
            } else {
                assert(own[k - before.len()] == message);
                let j = choose|j: int|
                    0 <= j < unacked[last].parts.len() && (#[trigger] unacked[last].parts[j]).due(
                        now,
                        delay,
                    ) && unacked[last].parts[j].message == message;
                assert(unacked[last].parts[j].due(now, delay));
            }
        }
        if exists|i: int, j: int|
            0 <= i < unacked.len() && 0 <= j < unacked[i].parts.len() && (
            #[trigger] unacked[i].parts[j]).due(now, delay) && unacked[i].parts[j].message
                == message {
            let (i, j) = choose|i: int, j: int|
                0 <= i < unacked.len() && 0 <= j < unacked[i].parts.len() && (
                #[trigger] unacked[i].parts[j]).due(now, delay) && unacked[i].parts[j].message
                    == message;
            if i < last {
                assert(rest[i].parts[j] == unacked[i].parts[j]);
                assert(before.contains(message));
                let k = choose|k: int| 0 <= k < before.len() && before[k] == message;
                assert(all[k] == message);
            } else {
                assert(own.contains(message));
                let k = choose|k: int| 0 <= k < own.len() && own[k] == message;
                assert(all[before.len() + k] == message);
            }
        }
    }
}

/// What a reliable channel sends are the pieces that are due: those that were never sent, and
/// those that were sent so long ago that an acknowledgement should have come.
pub proof fn law_due_pieces_are_sent(model: ReliableModel, message: MessageModel)
    requires
        SenderModel::Reliable(model).idle(),
    ensures
        SenderModel::Reliable(model).outgoing().contains(message) <==> exists|i: int, j: int|
            0 <= i < model.unacked.len() && 0 <= j < model.unacked[i].parts.len() && (
            #[trigger] model.unacked[i].parts[j]).due(model.now, model.delay())
                && model.unacked[i].parts[j].message == message,
{
    lemma_all_due_member(model.unacked, model.now, model.delay(), message);
    assert(SenderModel::Reliable(model).outgoing() =~= all_due_pieces(
        model.unacked,
        model.now,
        model.delay(),
    ));
}

/// A piece that is known to have arrived is not sent again.
pub proof fn law_settled_is_not_sent(model: ReliableModel, ack: MessageAck, message: MessageModel)
    requires
        SenderModel::Reliable(model).idle(),
        settled(model, ack),
        message.ack() == Some(ack),
    ensures
        !SenderModel::Reliable(model).outgoing().contains(message),
{
    law_due_pieces_are_sent(model, message);
}

/// An acknowledgement settles the piece that it speaks of.
pub proof fn law_acknowledgement_settles(model: ReliableModel, ack: MessageAck)
    ensures
        settled(model.notify(ack), ack),
{
    let after = model.notify(ack);
    assert forall|i: int, j: int|
        0 <= i < after.unacked.len() && 0 <= j < after.unacked[i].parts.len() && (
        #[trigger] after.unacked[i].parts[j]).message.ack() == Some(
            ack,
        ) implies after.unacked[i].parts[j].acked by {
        let k = lemma_remaining_member(model.unacked, ack, i);
        assert(after.unacked[i].parts[j] == model.unacked[k].parts[j].after_ack(ack));
    }
}

/// A message that is left after an acknowledgement is one that was there before.
pub proof fn lemma_remaining_member(unacked: Seq<UnackedModel>, ack: MessageAck, i: int) -> (k: int)
    requires
        0 <= i < remaining(unacked, ack).len(),
    ensures
        0 <= k < unacked.len(),
        remaining(unacked, ack)[i] == unacked[k].after_ack(ack),
        !remaining(unacked, ack)[i].delivered(),
{
    let mapped = unacked.map_values(|u: UnackedModel| u.after_ack(ack));
    let keep = |u: UnackedModel| !u.delivered();
    let after = mapped.filter(keep);
    mapped.lemma_filter_pred(keep, i);
    assert(after.contains(after[i]));
    mapped.lemma_filter_contains_rev(keep, after[i]);
    let k = choose|k: int| 0 <= k < mapped.len() && mapped[k] == after[i];
    k
}

/// What is settled stays settled: when other acknowledgements come, when time passes, when the
/// channel sends, and when a message is buffered, as long as the new message has another id.
pub proof fn law_settled_stays(
    model: ReliableModel,
    ack: MessageAck,
    other: MessageAck,
    now: Time,
    rtt: Time,
    bytes: Seq<u8>,
)
    requires
        settled(model, ack),
    ensures
        settled(model.notify(other), ack),
        settled(ReliableModel { now, rtt, ..model }, ack),
        settled(model.collect(), ack),
        model.next_id != ack.message_id ==> settled(model.buffer(bytes), ack),
{
    let notified = model.notify(other);
    assert forall|i: int, j: int|
        0 <= i < notified.unacked.len() && 0 <= j < notified.unacked[i].parts.len() && (
        #[trigger] notified.unacked[i].parts[j]).message.ack() == Some(
            ack,
        ) implies notified.unacked[i].parts[j].acked by {
        let k = lemma_remaining_member(model.unacked, other, i);
        assert(notified.unacked[i].parts[j] == model.unacked[k].parts[j].after_ack(other));
    }
    let collected = model.collect();
    assert forall|i: int, j: int|
        0 <= i < collected.unacked.len() && 0 <= j < collected.unacked[i].parts.len() && (
        #[trigger] collected.unacked[i].parts[j]).message.ack() == Some(
            ack,
        ) implies collected.unacked[i].parts[j].acked by {
        assert(collected.unacked[i].parts[j] == model.unacked[i].parts[j].sent_if_due(
            model.now,
            model.delay(),
        ));
    }
    if model.next_id != ack.message_id {
        let buffered = model.buffer(bytes);
        assert forall|i: int, j: int|
            0 <= i < buffered.unacked.len() && 0 <= j < buffered.unacked[i].parts.len() && (
            #[trigger] buffered.unacked[i].parts[j]).message.ack() == Some(
                ack,
            ) implies buffered.unacked[i].parts[j].acked by {
            if i < model.unacked.len() {
                assert(buffered.unacked[i].parts[j] == model.unacked[i].parts[j]);
            } else {
                assert(buffered.unacked[i].parts[j].message == pieces(
                    Some(model.next_id),
                    bytes,
                )[j]);
            }
        }
    }
}

/// A piece that was sent and is not known to have arrived is sent again once the delay is over.
pub proof fn law_unsettled_is_sent_again(
    model: ReliableModel,
    i: int,
    j: int,
    later: Time,
    rtt: Time,
)
    requires
        SenderModel::Reliable(model).idle(),
        0 <= i < model.unacked.len(),
        0 <= j < model.unacked[i].parts.len(),
        !model.unacked[i].parts[j].acked,
        model.unacked[i].parts[j].last_sent matches Some(t) ==> t <= model.now,
        later - model.now > model.settings.delay(rtt),
    ensures
        SenderModel::Reliable(model).after_send().update(later, rtt).outgoing().contains(
            model.unacked[i].parts[j].message,
        ),
{
    let sent = ReliableModel { queue: Seq::empty(), ..model.collect() };
    let after = ReliableModel { now: later, rtt, ..sent };
    assert(SenderModel::Reliable(model).after_send().update(later, rtt) == SenderModel::Reliable(
        after,
    ));
    let part = model.unacked[i].parts[j].sent_if_due(model.now, model.delay());
    assert(after.unacked[i].parts[j] == part);
    assert(part.due(later, after.delay()));
    law_due_pieces_are_sent(after, model.unacked[i].parts[j].message);
}

/// A message whose pieces all arrived is reported and not kept; every other message is kept; and
/// no message that is kept has arrived in full.
pub proof fn law_delivered_messages_leave(model: ReliableModel, ack: MessageAck, i: int)
    requires
        0 <= i < model.unacked.len(),
    ensures
        ({
            let u = model.unacked[i].after_ack(ack);
            if u.delivered() {
                model.completed_by(ack).contains(u.id)
            } else {
                model.notify(ack).unacked.contains(u)
            }
        }),
        forall|k: int|
            0 <= k < model.notify(ack).unacked.len() ==> !(#[trigger] model.notify(
                ack,
            ).unacked[k]).delivered(),
{
    let mapped = model.unacked.map_values(|u: UnackedModel| u.after_ack(ack));
    let u = model.unacked[i].after_ack(ack);
    assert(mapped[i] == u);
    if u.delivered() {
        let gone = |u: UnackedModel| u.delivered();
        mapped.lemma_filter_contains(gone, i);
        let filtered = mapped.filter(gone);
        let k = choose|k: int| 0 <= k < filtered.len() && filtered[k] == u;
        assert(completed(model.unacked, ack)[k] == u.id);
    } else {
        mapped.lemma_filter_contains(|u: UnackedModel| !u.delivered(), i);
    }
    assert forall|k: int| 0 <= k < model.notify(ack).unacked.len() implies !(
    #[trigger] model.notify(ack).unacked[k]).delivered() by {
        let _ = lemma_remaining_member(model.unacked, ack, k);
    }
}

// ---------------------------------------------------------------------------------------
// Once at a time
// ---------------------------------------------------------------------------------------

/// What a channel has just sent it does not send again at the same time.
pub proof fn law_channel_sends_once(sender: SenderModel)
    ensures
        sender.after_send().outgoing().len() == 0,
{
    match sender {
        SenderModel::Unreliable(model) => {},
        SenderModel::Reliable(model) => {
            let after = ReliableModel { queue: Seq::empty(), ..model.collect() };
            assert(sender.after_send() == SenderModel::Reliable(after));
            let outgoing = SenderModel::Reliable(after).outgoing();
            if outgoing.len() > 0 {
                let message = outgoing[0];
                assert(outgoing.contains(message));
                law_due_pieces_are_sent(after, message);
                let (i, j) = choose|i: int, j: int|
                    0 <= i < after.unacked.len() && 0 <= j < after.unacked[i].parts.len() && (
                    #[trigger] after.unacked[i].parts[j]).due(after.now, after.delay())
                        && after.unacked[i].parts[j].message == message;
                assert(after.unacked[i].parts[j] == model.unacked[i].parts[j].sent_if_due(
                    model.now,
                    model.delay(),
                ));
            }
        },
    }
}

proof fn lemma_nothing_outgoing(senders: Seq<SenderModel>)
    requires
        forall|i: int| 0 <= i < senders.len() ==> (#[trigger] senders[i]).outgoing().len() == 0,
    ensures
        channels_outgoing(senders).len() == 0,
    decreases senders.len(),
{
    if senders.len() > 0 {
        let rest = senders.drop_last();
        assert forall|i: int| 0 <= i < rest.len() implies (
        #[trigger] rest[i]).outgoing().len() == 0 by {
            assert(rest[i] == senders[i]);
        }
        lemma_nothing_outgoing(rest);
        assert(senders[senders.len() - 1] == senders.last());
    }
}

/// Sending twice in a row sends nothing the second time.
pub proof fn law_second_send_is_empty(model: ManagerModel, tick: Tick, later: Tick)
    ensures
        model.after_send(tick).packets(later).len() == 0,
{
    let after = model.after_send(tick);
    assert forall|i: int| 0 <= i < after.senders.len() implies (
    #[trigger] after.senders[i]).outgoing().len() == 0 by {
        law_channel_sends_once(model.senders[i]);
    }
    lemma_nothing_outgoing(after.senders);
}

// ---------------------------------------------------------------------------------------
// From acknowledged packets to messages
// ---------------------------------------------------------------------------------------

/// Acknowledgements settle every piece that one of them speaks of.
pub proof fn lemma_notify_all_settles(model: ReliableModel, acks: Seq<MessageAck>, ack: MessageAck)
    requires
        acks.contains(ack),
    ensures
        SenderModel::Reliable(model).notify_all(acks) is Reliable,
        settled(SenderModel::Reliable(model).notify_all(acks)->Reliable_0, ack),
    decreases acks.len(),
{
    let rest = acks.drop_last();
    let last = acks.last();
    lemma_notify_all_kind(model, rest);
    let before = SenderModel::Reliable(model).notify_all(rest)->Reliable_0;
    if last == ack {
        law_acknowledgement_settles(before, ack);
    } else {
        let i = choose|i: int| 0 <= i < acks.len() && acks[i] == ack;
        assert(rest[i] == ack);
        lemma_notify_all_settles(model, rest, ack);
        law_settled_stays(before, ack, last, 0, 0, Seq::empty());
    }
}

proof fn lemma_notify_all_kind(model: ReliableModel, acks: Seq<MessageAck>)
    ensures
        SenderModel::Reliable(model).notify_all(acks) is Reliable,
    decreases acks.len(),
{
    if acks.len() > 0 {
        lemma_notify_all_kind(model, acks.drop_last());
    }
}

/// Once a header acknowledged a packet, a reliable channel does not send what is recorded of the
/// packet any more.
pub proof fn law_received_is_not_sent_again(
    model: ManagerModel,
    header: PacketHeader,
    kind: ChannelKind,
    id: PacketId,
    message: MessageModel,
)
    requires
        model.wf(),
        model.registry.kinds.contains(kind),
        model.sender(kind) is Reliable,
        header.acks(id),
        message.ack() is Some,
        recorded(model.acks, id.0, kind).contains(message.ack().unwrap()),
    ensures
        !model.notified(header).sender(kind).outgoing().contains(message),
{
    let ack = message.ack().unwrap();
    let i = model.registry.net_id(kind) as int;
    lemma_kind(model.registry, kind);
    law_senders_are_told(model, header, kind, ack);
    let acks = acks_in(model.acks, model.header.newly_acked(header), kind);
    assert(acks.contains(ack));
    let before = model.senders[i]->Reliable_0;
    lemma_notify_all_settles(before, acks, ack);
    lemma_notified_wf(model, header);
    let after = model.notified(header).senders[i];
    assert(after == model.senders[i].notify_all(acks));
    assert(after.idle());
    law_settled_is_not_sent(after->Reliable_0, ack, message);
}

} // verus!
