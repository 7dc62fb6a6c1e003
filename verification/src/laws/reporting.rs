//! Reports: a message is reported delivered when every piece of it is known to have arrived, and
//! not before.
use vstd::prelude::*;

use crate::ack_map::acks_in;
use crate::channel::acks::{consumed, pending, told};
use crate::channel::reliable_sender::{
    completed, remaining, PartModel, ReliableModel, UnackedModel,
};
use crate::channel::sender::SenderModel;
use crate::channel::unreliable_sender::UnreliableModel;
use crate::header::PacketHeader;
use crate::ids::{ChannelKind, MessageId, PacketId};
use crate::laws::sending::{
    law_acknowledgements_tell_pieces_apart, law_pieces_make_up_the_message,
};
use crate::manager_model::{lemma_newly_acked, ManagerModel};
use crate::message::{pieces, MessageAck, FRAGMENT_SIZE};

verus! {

// ---------------------------------------------------------------------------------------
// Subscribers
// ---------------------------------------------------------------------------------------

/// Telling subscribers about messages puts the messages behind what each of them was not told yet;
/// a subscriber that is told its next message loses that message and no other subscriber does.
pub proof fn law_every_subscriber_is_told(
    subscribers: Seq<Seq<MessageId>>,
    ids: Seq<MessageId>,
    position: usize,
    q: int,
)
    requires
        0 <= q < subscribers.len(),
    ensures
        told(subscribers, ids).len() == subscribers.len(),
        told(subscribers, ids)[q] == subscribers[q] + ids,
        consumed(subscribers, position).len() == subscribers.len(),
        q != position ==> consumed(subscribers, position)[q] == subscribers[q],
        q == position && subscribers[q].len() > 0 ==> {
            &&& pending(subscribers, position) == Some(subscribers[q][0])
            &&& seq![subscribers[q][0]] + consumed(subscribers, position)[q] == subscribers[q]
        },
        q == position && subscribers[q].len() == 0 ==> {
            &&& pending(subscribers, position) is None
            &&& consumed(subscribers, position)[q] == subscribers[q]
        },
{
    if subscribers[q].len() > 0 {
        assert(seq![subscribers[q][0]] + subscribers[q].drop_first() =~= subscribers[q]);
    }
}

/// Whether every subscriber of `after` is one of `before` that was told `ids` in addition.
pub open spec fn all_told(
    before: Seq<Seq<MessageId>>,
    after: Seq<Seq<MessageId>>,
    ids: Seq<MessageId>,
) -> bool {
    &&& after.len() == before.len()
    &&& forall|q: int| 0 <= q < before.len() ==> #[trigger] after[q] == before[q] + ids
}

proof fn lemma_all_told_step(
    first: Seq<Seq<MessageId>>,
    second: Seq<Seq<MessageId>>,
    third: Seq<Seq<MessageId>>,
    a: Seq<MessageId>,
    b: Seq<MessageId>,
)
    requires
        all_told(first, second, a),
        all_told(second, third, b),
    ensures
        all_told(first, third, a + b),
{
    assert forall|q: int| 0 <= q < first.len() implies #[trigger] third[q] == first[q] + (a
        + b) by {
        assert(third[q] == second[q] + b);
        assert(first[q] + a + b =~= first[q] + (a + b));
    }
}

// ---------------------------------------------------------------------------------------
// One acknowledgement
// ---------------------------------------------------------------------------------------

/// What one acknowledgement does to the sender of an unreliable channel. Where nobody wants to
/// know, nothing. A whole message is reported. A fragment that is waited for is noted, and when it
/// is the last one the message is reported and not waited for any more. Nothing else changes.
pub proof fn law_unreliable_acknowledgement(model: UnreliableModel, ack: MessageAck, other: u16)
    ensures
        ({
            let after = model.notify(ack);
            let id = ack.message_id.0;
            let own = seq![ack.message_id];
            &&& after.with_acks == model.with_acks
            &&& after.next_id == model.next_id
            &&& after.queue == model.queue
            &&& other != id ==> (after.waiting.contains_key(other) <==> model.waiting.contains_key(
                other,
            ))
            &&& other != id && model.waiting.contains_key(other) ==> after.waiting[other]
                == model.waiting[other]
            &&& !model.with_acks ==> after == model
            &&& model.with_acks ==> match ack.fragment_id {
                None => {
                    &&& all_told(model.subscribers, after.subscribers, own)
                    &&& after.waiting == model.waiting
                },
                Some(j) => if model.waiting.contains_key(id) && j < model.waiting[id].len() {
                    if forall|i: int|
                        0 <= i < model.waiting[id].len() && i != j ==> #[trigger] model.waiting[id][i] {
                        &&& all_told(model.subscribers, after.subscribers, own)
                        &&& !after.waiting.contains_key(id)
                    } else {
                        &&& after.subscribers == model.subscribers
                        &&& after.waiting.contains_key(id)
                        &&& after.waiting[id].len() == model.waiting[id].len()
                        &&& forall|i: int|
                            0 <= i < model.waiting[id].len() ==> (#[trigger] after.waiting[id][i]
                                <==> model.waiting[id][i] || i == j)
                    }
                } else {
                    after == model
                },
            }
        }),
{
    let after = model.notify(ack);
    let id = ack.message_id.0;
    if !model.with_acks {
        assert(after =~= model);
    } else if ack.fragment_id is Some {
        let j = ack.fragment_id.unwrap() as int;
        if model.waiting.contains_key(id) && j < model.waiting[id].len() {
            let before = model.waiting[id];
            let flags = model.waiting_after(ack);
            if forall|i: int| 0 <= i < before.len() && i != j ==> #[trigger] before[i] {
                assert forall|i: int| 0 <= i < flags.len() implies #[trigger] flags[i] by {
                    if i != j {
                        assert(before[i]);
                    }
                }
                assert(model.completes(ack));
            } else {
                let i = choose|i: int| 0 <= i < before.len() && i != j && !(#[trigger] before[i]);
                assert(!flags[i]);
                assert(!model.completes(ack));
            }
        } else {
            assert(after =~= model);
        }
    }
}

/// Whether a piece of a reliable channel is known to have arrived, now that `ack` came.
pub open spec fn is_known(part: PartModel, ack: MessageAck) -> bool {
    part.acked || part.message.ack() == Some(ack)
}

/// Whether all pieces of a message are known to have arrived, now that `ack` came.
pub open spec fn all_known(unacked: UnackedModel, ack: MessageAck) -> bool {
    forall|j: int| 0 <= j < unacked.parts.len() ==> is_known(#[trigger] unacked.parts[j], ack)
}

/// A message with a note on every piece that `ack` speaks of.
pub open spec fn noted(unacked: UnackedModel, ack: MessageAck) -> UnackedModel {
    UnackedModel {
        id: unacked.id,
        parts: unacked.parts.map_values(
            |p: PartModel|
                PartModel {
                    message: p.message,
                    acked: is_known(p, ack),
                    last_sent: p.last_sent,
                },
        ),
    }
}

/// What one acknowledgement does to the sender of a reliable channel. Every piece that it speaks of
/// is noted. The messages all of whose pieces are known to have arrived are reported, in order, and
/// given up; the others stay, in order. Nothing else changes.
pub proof fn law_reliable_acknowledgement(model: ReliableModel, ack: MessageAck)
    ensures
        ({
            let after = model.notify(ack);
            &&& after.settings == model.settings
            &&& after.now == model.now
            &&& after.rtt == model.rtt
            &&& after.next_id == model.next_id
            &&& after.queue == model.queue
            &&& after.unacked == model.unacked.filter(
                |u: UnackedModel| !all_known(u, ack),
            ).map_values(|u: UnackedModel| noted(u, ack))
            &&& all_told(
                model.subscribers,
                after.subscribers,
                model.unacked.filter(|u: UnackedModel| all_known(u, ack)).map_values(
                    |u: UnackedModel| u.id,
                ),
            )
        }),
{
    lemma_reliable_split(model.unacked, ack);
}

proof fn lemma_noted(u: UnackedModel, ack: MessageAck)
    ensures
        u.after_ack(ack) == noted(u, ack),
        u.after_ack(ack).delivered() <==> all_known(u, ack),
{
    assert(u.after_ack(ack).parts =~= noted(u, ack).parts);
    if u.after_ack(ack).delivered() {
        assert forall|j: int| 0 <= j < u.parts.len() implies is_known(
            #[trigger] u.parts[j],
            ack,
        ) by {
            assert(u.after_ack(ack).parts[j].acked);
        }
    }
    if all_known(u, ack) {
        assert forall|j: int| 0 <= j < u.after_ack(ack).parts.len() implies (
        #[trigger] u.after_ack(ack).parts[j]).acked by {
            assert(is_known(u.parts[j], ack));
        }
    }
}

proof fn lemma_reliable_split(unacked: Seq<UnackedModel>, ack: MessageAck)
    ensures
        remaining(unacked, ack) == unacked.filter(
            |u: UnackedModel| !all_known(u, ack),
        ).map_values(|u: UnackedModel| noted(u, ack)),
        completed(unacked, ack) == unacked.filter(
            |u: UnackedModel| all_known(u, ack),
        ).map_values(|u: UnackedModel| u.id),
    decreases unacked.len(),
{
    reveal(Seq::filter);
    let keep = |u: UnackedModel| !all_known(u, ack);
    let gone = |u: UnackedModel| all_known(u, ack);
    let note = |u: UnackedModel| noted(u, ack);
    let id = |u: UnackedModel| u.id;
    let step = |u: UnackedModel| u.after_ack(ack);
    if unacked.len() == 0 {
        assert(remaining(unacked, ack) =~= unacked.filter(
            keep,
        ).map_values(note));
        assert(completed(unacked, ack) =~= unacked.filter(
            gone,
        ).map_values(id));
    } else {
        let rest = unacked.drop_last();
        let last = unacked.last();
        lemma_reliable_split(rest, ack);
        lemma_noted(last, ack);
        assert(unacked.map_values(step).drop_last() =~= rest.map_values(step));
        assert(unacked.map_values(step).last() == last.after_ack(ack));
        let delivered = |u: UnackedModel| u.delivered();
        let before = rest.map_values(step).filter(delivered);
        if all_known(last, ack) {
            assert(unacked.map_values(step).filter(delivered) == before.push(last.after_ack(ack)));
            assert(before.push(last.after_ack(ack)).map_values(id) =~= before.map_values(id).push(
                last.id,
            ));
            assert(rest.filter(gone).push(last).map_values(id) =~= rest.filter(gone).map_values(
                id,
            ).push(last.id));
        } else {
            assert(unacked.map_values(step).filter(delivered) == before);
        }
        assert(remaining(unacked, ack) =~= unacked.filter(
            keep,
        ).map_values(note));
        assert(completed(unacked, ack) =~= unacked.filter(
            gone,
        ).map_values(id));
    }
}

// ---------------------------------------------------------------------------------------
// Many acknowledgements
// ---------------------------------------------------------------------------------------

/// Whether the acknowledgement of every piece of a message is among `acks`.
pub open spec fn every_piece_in(acks: Seq<MessageAck>, id: MessageId, bytes: Seq<u8>) -> bool {
    forall|j: int|
        0 <= j < pieces(Some(id), bytes).len() ==> acks.contains(
            (#[trigger] pieces(Some(id), bytes)[j]).ack().unwrap(),
        )
}

/// How often `id` is among `ids`.
pub open spec fn times(ids: Seq<MessageId>, id: MessageId) -> nat
    decreases ids.len(),
{
    if ids.len() == 0 {
        0
    } else if ids.last() == id {
        times(ids.drop_last(), id) + 1
    } else {
        times(ids.drop_last(), id)
    }
}

proof fn lemma_times_push(ids: Seq<MessageId>, added: MessageId, id: MessageId)
    ensures
        times(ids.push(added), id) == times(ids, id) + if added == id {
            1nat
        } else {
            0nat
        },
{
    assert(ids.push(added).drop_last() =~= ids);
}

proof fn lemma_contains_split(acks: Seq<MessageAck>, ack: MessageAck)
    requires
        acks.len() > 0,
    ensures
        acks.contains(ack) <==> acks.drop_last().contains(ack) || acks.last() == ack,
{
    let rest = acks.drop_last();
    if acks.contains(ack) {
        let i = choose|i: int| 0 <= i < acks.len() && acks[i] == ack;
        if i < rest.len() {
            assert(rest[i] == ack);
        }
    }
    if rest.contains(ack) {
        let i = choose|i: int| 0 <= i < rest.len() && rest[i] == ack;
        assert(acks[i] == ack);
    }
    if acks.last() == ack {
        assert(acks[acks.len() - 1] == ack);
    }
}

/// After a message that has to be cut was buffered on a channel that wants to know which messages
/// arrive, it is reported when an acknowledgement of every piece of it came, whatever else is
/// acknowledged, in whatever order and however often; it is reported once; and it is not reported
/// while a piece is missing. Returns what the subscribers are told.
pub proof fn law_cut_message_is_reported_when_every_piece_arrived(
    model: UnreliableModel,
    bytes: Seq<u8>,
    acks: Seq<MessageAck>,
) -> (ids: Seq<MessageId>)
    requires
        model.with_acks,
        FRAGMENT_SIZE < bytes.len() <= usize::MAX,
        forall|k: int|
            0 <= k < acks.len() && (#[trigger] acks[k]).message_id == model.next_id
                ==> acks[k].fragment_id is Some,
    ensures
        ({
            let after = SenderModel::Unreliable(model).buffer(bytes).notify_all(acks);
            let id = model.next_id;
            &&& after matches SenderModel::Unreliable(a)
            &&& all_told(model.subscribers, a.subscribers, ids)
            &&& a.with_acks
            &&& times(ids, id) == if every_piece_in(acks, id, bytes) {
                1nat
            } else {
                0nat
            }
            &&& every_piece_in(acks, id, bytes) ==> !a.waiting.contains_key(id.0)
            &&& !every_piece_in(acks, id, bytes) ==> {
                &&& a.waiting.contains_key(id.0)
                &&& a.waiting[id.0].len() == pieces(Some(id), bytes).len()
                &&& forall|j: int|
                    0 <= j < a.waiting[id.0].len() ==> (#[trigger] a.waiting[id.0][j]
                        <==> acks.contains(pieces(Some(id), bytes)[j].ack().unwrap()))
            }
        }),
    decreases acks.len(),
{
    let id = model.next_id;
    let all = pieces(Some(id), bytes);
    law_pieces_make_up_the_message(Some(id), bytes);
    if acks.len() == 0 {
        let ids = Seq::<MessageId>::empty();
        assert(!acks.contains(all[0].ack().unwrap()));
        let after = SenderModel::Unreliable(model).buffer(bytes)->Unreliable_0;
        assert forall|q: int| 0 <= q < model.subscribers.len() implies #[trigger] after.subscribers[q]
            == model.subscribers[q] + ids by {
            assert(model.subscribers[q] + ids =~= model.subscribers[q]);
        }
        ids
    } else {
        let rest = acks.drop_last();
        let ack = acks[acks.len() - 1];
        assert(acks.last() == ack);
        assert forall|k: int|
            0 <= k < rest.len() && (#[trigger] rest[k]).message_id
                == id implies rest[k].fragment_id is Some by {
            assert(rest[k] == acks[k]);
        }
        let before_ids = law_cut_message_is_reported_when_every_piece_arrived(model, bytes, rest);
        let before = SenderModel::Unreliable(model).buffer(bytes).notify_all(rest)->Unreliable_0;
        let after = before.notify(ack);
        law_unreliable_acknowledgement(before, ack, id.0);
        assert forall|j: int| 0 <= j < all.len() implies (acks.contains(
            (#[trigger] all[j]).ack().unwrap(),
        ) <==> rest.contains(all[j].ack().unwrap()) || ack == all[j].ack().unwrap()) by {
            lemma_contains_split(acks, all[j].ack().unwrap());
        }
        if every_piece_in(rest, id, bytes) {
            assert(every_piece_in(acks, id, bytes));
        }
        let reported = before.completes(ack);
        let added = if reported {
            seq![ack.message_id]
        } else {
            Seq::empty()
        };
        let ids = before_ids + added;
        assert(all_told(before.subscribers, after.subscribers, added)) by {
            if !reported {
                assert forall|q: int|
                    0 <= q < before.subscribers.len() implies #[trigger] after.subscribers[q]
                    == before.subscribers[q] + added by {
                    assert(before.subscribers[q] + added =~= before.subscribers[q]);
                }
            }
        }
        lemma_all_told_step(
            model.subscribers,
            before.subscribers,
            after.subscribers,
            before_ids,
            added,
        );
        if reported {
            assert(ids =~= before_ids.push(ack.message_id));
            lemma_times_push(before_ids, ack.message_id, id);
        } else {
            assert(ids =~= before_ids);
        }
        if ack.message_id != id {
            assert forall|j: int| 0 <= j < all.len() implies (acks.contains(
                (#[trigger] all[j]).ack().unwrap(),
            ) <==> rest.contains(all[j].ack().unwrap())) by {
                law_acknowledgements_tell_pieces_apart(id, bytes, j, j);
            }
            if every_piece_in(acks, id, bytes) {
                assert forall|j: int| 0 <= j < all.len() implies rest.contains(
                    (#[trigger] all[j]).ack().unwrap(),
                ) by {
                    assert(acks.contains(all[j].ack().unwrap()));
                }
                assert(every_piece_in(rest, id, bytes));
            }
        } else if every_piece_in(rest, id, bytes) {
            assert(!before.waiting.contains_key(id.0));
        } else {
            let f = ack.fragment_id.unwrap();
            let flags = before.waiting[id.0];
            assert forall|j: int| 0 <= j < all.len() implies (ack == (
            #[trigger] all[j]).ack().unwrap() <==> j == f) by {
                law_acknowledgements_tell_pieces_apart(id, bytes, j, j);
            }
            assert forall|j: int| 0 <= j < all.len() implies (acks.contains(
                (#[trigger] all[j]).ack().unwrap(),
            ) <==> flags[j] || j == f) by {
                assert(flags[j] <==> rest.contains(all[j].ack().unwrap()));
            }
            if f < flags.len() {
                if forall|i: int| 0 <= i < flags.len() && i != f ==> #[trigger] flags[i] {
                    assert forall|j: int| 0 <= j < all.len() implies acks.contains(
                        (#[trigger] all[j]).ack().unwrap(),
                    ) by {
                        if j != f {
                            assert(flags[j]);
                        }
                    }
                    assert(every_piece_in(acks, id, bytes));
                    assert(!after.waiting.contains_key(id.0));
                    assert(reported) by {
                        if !reported {
                            assert(after.waiting.contains_key(id.0));
                        }
                    }
                } else {
                    let i = choose|i: int| 0 <= i < flags.len() && i != f && !(#[trigger] flags[i]);
                    assert(!acks.contains(all[i].ack().unwrap()));
                    assert(!every_piece_in(acks, id, bytes));
                    assert(after.waiting.contains_key(id.0));
                    assert(!reported) by {
                        if reported {
                            assert(!after.waiting.contains_key(id.0));
                        }
                    }
                }
            } else {
                let j = choose|j: int|
                    0 <= j < all.len() && !rest.contains((#[trigger] all[j]).ack().unwrap());
                assert(!acks.contains(all[j].ack().unwrap()));
                assert(!every_piece_in(acks, id, bytes));
            }
        }
        ids
    }
}

/// After a message that fits in one piece was buffered on a channel that wants to know which
/// messages arrive, it is reported as often as it is acknowledged, and not at all before. Returns
/// what the subscribers are told.
pub proof fn law_whole_message_is_reported_when_it_arrived(
    model: UnreliableModel,
    bytes: Seq<u8>,
    acks: Seq<MessageAck>,
) -> (ids: Seq<MessageId>)
    requires
        model.with_acks,
        bytes.len() <= FRAGMENT_SIZE,
        !model.waiting.contains_key(model.next_id.0),
    ensures
        ({
            let after = SenderModel::Unreliable(model).buffer(bytes).notify_all(acks);
            let id = model.next_id;
            &&& after matches SenderModel::Unreliable(a)
            &&& a.with_acks
            &&& !a.waiting.contains_key(id.0)
            &&& all_told(model.subscribers, a.subscribers, ids)
            &&& times(ids, id) == acks.filter(
                |ack: MessageAck| ack == pieces(Some(id), bytes)[0].ack().unwrap(),
            ).len()
        }),
    decreases acks.len(),
{
    reveal(Seq::filter);
    let id = model.next_id;
    let own = |ack: MessageAck| ack == pieces(Some(id), bytes)[0].ack().unwrap();
    law_pieces_make_up_the_message(Some(id), bytes);
    law_acknowledgements_tell_pieces_apart(id, bytes, 0, 0);
    if acks.len() == 0 {
        let ids = Seq::<MessageId>::empty();
        let after = SenderModel::Unreliable(model).buffer(bytes)->Unreliable_0;
        assert forall|q: int| 0 <= q < model.subscribers.len() implies #[trigger] after.subscribers[q]
            == model.subscribers[q] + ids by {
            assert(model.subscribers[q] + ids =~= model.subscribers[q]);
        }
        ids
    } else {
        let rest = acks.drop_last();
        let ack = acks[acks.len() - 1];
        assert(acks.last() == ack);
        let before_ids = law_whole_message_is_reported_when_it_arrived(model, bytes, rest);
        let before = SenderModel::Unreliable(model).buffer(bytes).notify_all(rest)->Unreliable_0;
        let after = before.notify(ack);
        law_unreliable_acknowledgement(before, ack, id.0);
        let reported = before.completes(ack);
        let added = if reported {
            seq![ack.message_id]
        } else {
            Seq::empty()
        };
        let ids = before_ids + added;
        assert(all_told(before.subscribers, after.subscribers, added)) by {
            if !reported {
                assert forall|q: int|
                    0 <= q < before.subscribers.len() implies #[trigger] after.subscribers[q]
                    == before.subscribers[q] + added by {
                    assert(before.subscribers[q] + added =~= before.subscribers[q]);
                }
            }
        }
        lemma_all_told_step(
            model.subscribers,
            before.subscribers,
            after.subscribers,
            before_ids,
            added,
        );
        if reported {
            assert(ids =~= before_ids.push(ack.message_id));
            lemma_times_push(before_ids, ack.message_id, id);
        } else {
            assert(ids =~= before_ids);
        }
        ids
    }
}

/// The message `bytes` on a reliable channel, with a note on every piece that `acks` speak of.
pub open spec fn noted_message(
    unacked: UnackedModel,
    id: MessageId,
    bytes: Seq<u8>,
    acks: Seq<MessageAck>,
) -> bool {
    &&& unacked.id == id
    &&& unacked.parts.len() == pieces(Some(id), bytes).len()
    &&& forall|j: int|
        0 <= j < unacked.parts.len() ==> {
            let part = #[trigger] unacked.parts[j];
            &&& part.message == pieces(Some(id), bytes)[j]
            &&& part.acked <==> acks.contains(part.message.ack().unwrap())
        }
}

/// After a message was buffered on a reliable channel, it is reported when an acknowledgement of
/// every piece of it came, whatever else is acknowledged, in whatever order and however often. Until
/// then it is kept, and exactly the pieces that are acknowledged are known to have arrived. Returns
/// what the subscribers are told.
pub proof fn law_reliable_message_is_reported_when_every_piece_arrived(
    model: ReliableModel,
    bytes: Seq<u8>,
    acks: Seq<MessageAck>,
) -> (ids: Seq<MessageId>)
    requires
        bytes.len() <= usize::MAX,
        forall|i: int|
            0 <= i < model.unacked.len() ==> (#[trigger] model.unacked[i]).id != model.next_id,
    ensures
        ({
            let after = SenderModel::Reliable(model).buffer(bytes).notify_all(acks);
            let id = model.next_id;
            &&& after matches SenderModel::Reliable(a)
            &&& all_told(model.subscribers, a.subscribers, ids)
            &&& ids.contains(id) <==> every_piece_in(acks, id, bytes)
            &&& every_piece_in(acks, id, bytes) ==> forall|i: int|
                0 <= i < a.unacked.len() ==> (#[trigger] a.unacked[i]).id != id
            &&& !every_piece_in(acks, id, bytes) ==> exists|i: int|
                0 <= i < a.unacked.len() && noted_message(#[trigger] a.unacked[i], id, bytes, acks)
            &&& forall|i: int|
                0 <= i < a.unacked.len() && (#[trigger] a.unacked[i]).id == id ==> noted_message(
                    a.unacked[i],
                    id,
                    bytes,
                    acks,
                )
        }),
    decreases acks.len(),
{
    let id = model.next_id;
    let all = pieces(Some(id), bytes);
    law_pieces_make_up_the_message(Some(id), bytes);
    assert(all.len() > 0);
    if acks.len() == 0 {
        let ids = Seq::<MessageId>::empty();
        let after = SenderModel::Reliable(model).buffer(bytes)->Reliable_0;
        assert(SenderModel::Reliable(model).buffer(bytes).notify_all(acks)
            == SenderModel::Reliable(after));
        assert(!acks.contains(all[0].ack().unwrap()));
        assert forall|q: int| 0 <= q < model.subscribers.len() implies #[trigger] after.subscribers[q]
            == model.subscribers[q] + ids by {
            assert(model.subscribers[q] + ids =~= model.subscribers[q]);
        }
        let n = model.unacked.len() as int;
        assert(noted_message(after.unacked[n], id, bytes, acks)) by {
            assert forall|j: int| 0 <= j < after.unacked[n].parts.len() implies {
                let part = #[trigger] after.unacked[n].parts[j];
                &&& part.message == all[j]
                &&& part.acked <==> acks.contains(part.message.ack().unwrap())
            } by {}
        }
        assert forall|i: int|
            0 <= i < after.unacked.len() && (#[trigger] after.unacked[i]).id
                == id implies noted_message(after.unacked[i], id, bytes, acks) by {
            if i < n {
                assert(after.unacked[i] == model.unacked[i]);
            }
        }
        ids
    } else {
        let rest = acks.drop_last();
        let ack = acks[acks.len() - 1];
        assert(acks.last() == ack);
        let before_ids = law_reliable_message_is_reported_when_every_piece_arrived(
            model,
            bytes,
            rest,
        );
        let before = SenderModel::Reliable(model).buffer(bytes).notify_all(rest)->Reliable_0;
        let after = before.notify(ack);
        assert(SenderModel::Reliable(model).buffer(bytes).notify_all(acks)
            == SenderModel::Reliable(after));
        law_reliable_acknowledgement(before, ack);
        let gone = |u: UnackedModel| all_known(u, ack);
        let keep = |u: UnackedModel| !all_known(u, ack);
        let note = |u: UnackedModel| noted(u, ack);
        let id_of = |u: UnackedModel| u.id;
        let added = before.unacked.filter(gone).map_values(id_of);
        let ids = before_ids + added;
        lemma_all_told_step(
            model.subscribers,
            before.subscribers,
            after.subscribers,
            before_ids,
            added,
        );
        // A message with this id that has notes on what came before gets the note on what comes.
        assert forall|u: UnackedModel| noted_message(u, id, bytes, rest) implies {
            &&& #[trigger] noted_message(noted(u, ack), id, bytes, acks)
            &&& all_known(u, ack) <==> every_piece_in(acks, id, bytes)
        } by {
            assert forall|j: int| 0 <= j < all.len() implies (is_known(
                #[trigger] u.parts[j],
                ack,
            ) <==> acks.contains(all[j].ack().unwrap())) by {
                assert(u.parts[j].message == all[j]);
                law_acknowledgements_tell_pieces_apart(id, bytes, j, j);
                lemma_contains_split(acks, all[j].ack().unwrap());
            }
            assert forall|j: int| 0 <= j < noted(u, ack).parts.len() implies {
                let part = #[trigger] noted(u, ack).parts[j];
                &&& part.message == all[j]
                &&& part.acked <==> acks.contains(part.message.ack().unwrap())
            } by {
                assert(is_known(u.parts[j], ack) <==> acks.contains(all[j].ack().unwrap()));
            }
            if all_known(u, ack) {
                assert forall|j: int| 0 <= j < all.len() implies acks.contains(
                    (#[trigger] all[j]).ack().unwrap(),
                ) by {
                    assert(is_known(u.parts[j], ack));
                }
            }
            if every_piece_in(acks, id, bytes) {
                assert forall|j: int| 0 <= j < u.parts.len() implies is_known(
                    #[trigger] u.parts[j],
                    ack,
                ) by {
                    assert(acks.contains(all[j].ack().unwrap()));
                }
            }
        }
        if every_piece_in(rest, id, bytes) {
            assert forall|j: int| 0 <= j < all.len() implies acks.contains(
                (#[trigger] all[j]).ack().unwrap(),
            ) by {
                assert(rest.contains(all[j].ack().unwrap()));
                lemma_contains_split(acks, all[j].ack().unwrap());
            }
            assert(every_piece_in(acks, id, bytes));
        }
        // What stays.
        let stays = before.unacked.filter(keep);
        assert(after.unacked == stays.map_values(note));
        assert forall|i: int|
            0 <= i < after.unacked.len() && (#[trigger] after.unacked[i]).id == id implies {
            &&& noted_message(after.unacked[i], id, bytes, acks)
            &&& !every_piece_in(acks, id, bytes)
        } by {
            let u = stays[i];
            assert(after.unacked[i] == noted(u, ack));
            before.unacked.lemma_filter_pred(keep, i);
            assert(stays.contains(u));
            before.unacked.lemma_filter_contains_rev(keep, u);
            let m = choose|m: int| 0 <= m < before.unacked.len() && before.unacked[m] == u;
            assert(before.unacked[m].id == id);
            assert(noted_message(u, id, bytes, rest));
            assert(noted_message(noted(u, ack), id, bytes, acks));
        }
        if !every_piece_in(acks, id, bytes) {
            assert(!every_piece_in(rest, id, bytes));
            let m = choose|m: int|
                0 <= m < before.unacked.len() && noted_message(
                    #[trigger] before.unacked[m],
                    id,
                    bytes,
                    rest,
                );
            let u = before.unacked[m];
            assert(noted_message(noted(u, ack), id, bytes, acks));
            assert(keep(u));
            before.unacked.lemma_filter_contains(keep, m);
            let i = choose|i: int| 0 <= i < stays.len() && stays[i] == u;
            assert(after.unacked[i] == noted(u, ack));
            assert(noted_message(after.unacked[i], id, bytes, acks));
        }
        // What is reported.
        if added.contains(id) {
            let i = choose|i: int| 0 <= i < added.len() && added[i] == id;
            let u = before.unacked.filter(gone)[i];
            before.unacked.lemma_filter_pred(gone, i);
            assert(before.unacked.filter(gone).contains(u));
            before.unacked.lemma_filter_contains_rev(gone, u);
            let m = choose|m: int| 0 <= m < before.unacked.len() && before.unacked[m] == u;
            assert(before.unacked[m].id == id);
            assert(noted_message(noted(u, ack), id, bytes, acks));
            assert(every_piece_in(acks, id, bytes));
        }
        if every_piece_in(acks, id, bytes) && !every_piece_in(rest, id, bytes) {
            let m = choose|m: int|
                0 <= m < before.unacked.len() && noted_message(
                    #[trigger] before.unacked[m],
                    id,
                    bytes,
                    rest,
                );
            let u = before.unacked[m];
            assert(noted_message(noted(u, ack), id, bytes, acks));
            assert(gone(u));
            before.unacked.lemma_filter_contains(gone, m);
            let i = choose|i: int|
                0 <= i < before.unacked.filter(gone).len() && before.unacked.filter(gone)[i] == u;
            assert(added[i] == id);
        }
        assert(ids.contains(id) <==> before_ids.contains(id) || added.contains(id)) by {
            if ids.contains(id) {
                let i = choose|i: int| 0 <= i < ids.len() && ids[i] == id;
                if i < before_ids.len() {
                    assert(before_ids[i] == id);
                } else {
                    assert(added[i - before_ids.len()] == id);
                }
            }
            if before_ids.contains(id) {
                let i = choose|i: int| 0 <= i < before_ids.len() && before_ids[i] == id;
                assert(ids[i] == id);
            }
            if added.contains(id) {
                let i = choose|i: int| 0 <= i < added.len() && added[i] == id;
                assert(ids[before_ids.len() + i] == id);
            }
        }
        assert(ids.contains(id) <==> every_piece_in(acks, id, bytes));
        if every_piece_in(acks, id, bytes) {
            assert forall|i: int| 0 <= i < after.unacked.len() implies (
            #[trigger] after.unacked[i]).id != id by {}
        } else {
            assert(exists|i: int|
                0 <= i < after.unacked.len() && noted_message(
                    #[trigger] after.unacked[i],
                    id,
                    bytes,
                    acks,
                ));
        }
        ids
    }
}

// ---------------------------------------------------------------------------------------
// From headers to senders
// ---------------------------------------------------------------------------------------

/// What is on record of a packet and a channel.
pub open spec fn on_record(
    model: ManagerModel,
    packet: PacketId,
    kind: ChannelKind,
) -> Seq<MessageAck> {
    if model.acks.contains_key(packet.0) && model.acks[packet.0].contains_key(kind) {
        model.acks[packet.0][kind]
    } else {
        Seq::empty()
    }
}

/// A sender after `acks` came, one after the other.
pub open spec fn after_acks(sender: SenderModel, acks: Seq<MessageAck>) -> SenderModel
    decreases acks.len(),
{
    if acks.len() == 0 {
        sender
    } else {
        let before = after_acks(sender, acks.drop_last());
        match before {
            SenderModel::Unreliable(model) => SenderModel::Unreliable(model.notify(acks.last())),
            SenderModel::Reliable(model) => SenderModel::Reliable(model.notify(acks.last())),
        }
    }
}

proof fn lemma_after_acks(sender: SenderModel, acks: Seq<MessageAck>)
    ensures
        sender.notify_all(acks) == after_acks(sender, acks),
    decreases acks.len(),
{
    if acks.len() > 0 {
        lemma_after_acks(sender, acks.drop_last());
    }
}

proof fn lemma_acks_in_flatten(model: ManagerModel, packets: Seq<PacketId>, kind: ChannelKind)
    ensures
        acks_in(model.acks, packets, kind) == packets.map_values(
            |p: PacketId| on_record(model, p, kind),
        ).flatten(),
    decreases packets.len(),
{
    let f = |p: PacketId| on_record(model, p, kind);
    let all = packets.map_values(f);
    all.lemma_flatten_and_flatten_alt_are_equivalent();
    if packets.len() > 0 {
        let rest = packets.drop_last();
        lemma_acks_in_flatten(model, rest, kind);
        assert(all.drop_last() =~= rest.map_values(f));
        assert(all.last() == on_record(model, packets.last(), kind));
        all.drop_last().lemma_flatten_and_flatten_alt_are_equivalent();
    }
}

/// When a header is processed, every sender is told, of each packet that the header acknowledges
/// and that was not acknowledged before, exactly what is on record of the packet and the channel,
/// once and in order. Returns the packets, each of which is listed once.
pub proof fn law_senders_are_told_what_is_on_record(
    model: ManagerModel,
    header: PacketHeader,
    i: int,
) -> (packets: Seq<PacketId>)
    requires
        0 <= i < model.senders.len(),
    ensures
        packets.no_duplicates(),
        forall|p: PacketId| #[trigger]
            packets.contains(p) <==> header.acks(p) && model.header.sent_not_acked.contains_key(
                p.0,
            ),
        model.notified(header).senders.len() == model.senders.len(),
        model.notified(header).senders[i] == after_acks(
            model.senders[i],
            packets.map_values(
                |p: PacketId| on_record(model, p, model.registry.kinds[i]),
            ).flatten(),
        ),
{
    let packets = model.header.newly_acked(header);
    let kind = model.registry.kinds[i];
    lemma_newly_acked(model.header, header);
    lemma_acks_in_flatten(model, packets, kind);
    lemma_after_acks(model.senders[i], acks_in(model.acks, packets, kind));
    packets
}

} // verus!
