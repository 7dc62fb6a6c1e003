//! Sending messages until they arrive.
use std::collections::VecDeque;
use vstd::prelude::*;

use crate::channel::acks::{consumed, pending, told, AckSubscribers};
use crate::channel::settings::ReliableSettings;
use crate::ids::{MessageId, Time};
use crate::message::{
    cut, lemma_pieces_sendable, pieces, MessageAck, MessageContainer, MessageModel,
};
use crate::model::{lemma_views_push, views};

verus! {

/// A piece of a message, and what is known about its way to the remote.
pub struct UnackedPart {
    pub message: MessageContainer,
    pub acked: bool,
    pub last_sent: Option<Time>,
}

/// Model of [`UnackedPart`].
#[verifier::ext_equal]
pub struct PartModel {
    pub message: MessageModel,
    pub acked: bool,
    pub last_sent: Option<Time>,
}

impl View for UnackedPart {
    type V = PartModel;

    open spec fn view(&self) -> PartModel {
        PartModel { message: self.message@, acked: self.acked, last_sent: self.last_sent }
    }
}

impl PartModel {
    /// Whether the piece is to be sent now.
    pub open spec fn due(self, now: Time, delay: Time) -> bool {
        !self.acked && match self.last_sent {
            None => true,
            Some(t) => now - t > delay,
        }
    }

    /// The piece after it was sent if it was due.
    pub open spec fn sent_if_due(self, now: Time, delay: Time) -> PartModel {
        if self.due(now, delay) {
            PartModel { last_sent: Some(now), ..self }
        } else {
            self
        }
    }

    /// The piece after `ack` came.
    pub open spec fn after_ack(self, ack: MessageAck) -> PartModel {
        if self.message.ack() == Some(ack) {
            PartModel { acked: true, ..self }
        } else {
            self
        }
    }
}

/// A message that did not arrive in full yet.
pub struct UnackedMessage {
    pub id: MessageId,
    pub parts: Vec<UnackedPart>,
}

/// Model of [`UnackedMessage`].
#[verifier::ext_equal]
pub struct UnackedModel {
    pub id: MessageId,
    pub parts: Seq<PartModel>,
}

impl View for UnackedMessage {
    type V = UnackedModel;

    open spec fn view(&self) -> UnackedModel {
        UnackedModel { id: self.id, parts: views(self.parts@) }
    }
}

/// The pieces that are to be sent now.
pub open spec fn due_pieces(parts: Seq<PartModel>, now: Time, delay: Time) -> Seq<MessageModel>
    decreases parts.len(),
{
    if parts.len() == 0 {
        Seq::empty()
    } else {
        let rest = due_pieces(parts.drop_last(), now, delay);
        if parts.last().due(now, delay) {
            rest.push(parts.last().message)
        } else {
            rest
        }
    }
}

/// The pieces of all messages that are to be sent now.
pub open spec fn all_due_pieces(unacked: Seq<UnackedModel>, now: Time, delay: Time) -> Seq<
    MessageModel,
>
    decreases unacked.len(),
{
    if unacked.len() == 0 {
        Seq::empty()
    } else {
        all_due_pieces(unacked.drop_last(), now, delay) + due_pieces(
            unacked.last().parts,
            now,
            delay,
        )
    }
}

impl UnackedModel {
    /// A message that was not sent yet.
    pub open spec fn fresh(id: MessageId, bytes: Seq<u8>) -> UnackedModel {
        UnackedModel {
            id,
            parts: pieces(Some(id), bytes).map_values(
                |m: MessageModel| PartModel { message: m, acked: false, last_sent: None },
            ),
        }
    }

    /// The message after the pieces that were due were sent.
    pub open spec fn sent_if_due(self, now: Time, delay: Time) -> UnackedModel {
        UnackedModel {
            parts: self.parts.map_values(|p: PartModel| p.sent_if_due(now, delay)),
            ..self
        }
    }

    /// The message after `ack` came.
    pub open spec fn after_ack(self, ack: MessageAck) -> UnackedModel {
        UnackedModel { parts: self.parts.map_values(|p: PartModel| p.after_ack(ack)), ..self }
    }

    /// Whether all pieces arrived.
    pub open spec fn delivered(self) -> bool {
        forall|i: int| 0 <= i < self.parts.len() ==> (#[trigger] self.parts[i]).acked
    }

    /// Every piece can be put in a packet and is numbered.
    pub open spec fn wf(self) -> bool {
        forall|i: int|
            0 <= i < self.parts.len() ==> {
                let m = (#[trigger] self.parts[i]).message;
                m.sendable() && m.ack() is Some
            }
    }
}

/// Sends every message until it arrives.
pub struct ReliableSender {
    settings: ReliableSettings,
    current_time: Time,
    rtt: Time,
    next_message_id: MessageId,
    unacked_messages: VecDeque<UnackedMessage>,
    queue: VecDeque<MessageContainer>,
    subscribers: AckSubscribers,
}

/// Model of [`ReliableSender`].
#[verifier::ext_equal]
pub struct ReliableModel {
    pub settings: ReliableSettings,
    pub now: Time,
    pub rtt: Time,
    pub next_id: MessageId,
    /// The messages that did not arrive in full yet, in the order they were buffered.
    pub unacked: Seq<UnackedModel>,
    /// What is sent next.
    pub queue: Seq<MessageModel>,
    pub subscribers: Seq<Seq<MessageId>>,
}

impl View for ReliableSender {
    type V = ReliableModel;

    closed spec fn view(&self) -> ReliableModel {
        ReliableModel {
            settings: self.settings,
            now: self.current_time,
            rtt: self.rtt,
            next_id: self.next_message_id,
            unacked: views(self.unacked_messages@),
            queue: views(self.queue@),
            subscribers: self.subscribers@,
        }
    }
}

impl ReliableModel {
    /// A sender that was not used yet.
    pub open spec fn initial(settings: ReliableSettings) -> ReliableModel {
        ReliableModel {
            settings,
            now: 0,
            rtt: 0,
            next_id: MessageId(0),
            unacked: Seq::empty(),
            queue: Seq::empty(),
            subscribers: Seq::empty(),
        }
    }

    /// Every piece can be put in a packet and is numbered.
    pub open spec fn wf(self) -> bool {
        &&& forall|i: int| 0 <= i < self.unacked.len() ==> (#[trigger] self.unacked[i]).wf()
        &&& forall|i: int|
            0 <= i < self.queue.len() ==> {
                let m = #[trigger] self.queue[i];
                m.sendable() && m.ack() is Some
            }
    }

    /// How long to wait for an acknowledgement.
    pub open spec fn delay(self) -> Time {
        self.settings.delay(self.rtt)
    }

    /// The state after the message `bytes` was buffered.
    pub open spec fn buffer(self, bytes: Seq<u8>) -> ReliableModel {
        ReliableModel {
            next_id: self.next_id.successor(),
            unacked: self.unacked.push(UnackedModel::fresh(self.next_id, bytes)),
            ..self
        }
    }

    /// The state after the pieces that were due were queued.
    pub open spec fn collect(self) -> ReliableModel {
        ReliableModel {
            unacked: self.unacked.map_values(
                |u: UnackedModel| u.sent_if_due(self.now, self.delay()),
            ),
            queue: self.queue + all_due_pieces(self.unacked, self.now, self.delay()),
            ..self
        }
    }

    /// The messages that arrived in full, now that `ack` came.
    pub open spec fn completed_by(self, ack: MessageAck) -> Seq<MessageId> {
        completed(self.unacked, ack)
    }

    /// The state after `ack` came.
    pub open spec fn notify(self, ack: MessageAck) -> ReliableModel {
        ReliableModel {
            unacked: remaining(self.unacked, ack),
            subscribers: told(self.subscribers, self.completed_by(ack)),
            ..self
        }
    }
}

/// The ids of the messages that arrived in full, now that `ack` came.
pub open spec fn completed(unacked: Seq<UnackedModel>, ack: MessageAck) -> Seq<MessageId> {
    unacked.map_values(|u: UnackedModel| u.after_ack(ack)).filter(
        |u: UnackedModel| u.delivered(),
    ).map_values(|u: UnackedModel| u.id)
}

/// The messages that did not arrive in full, now that `ack` came.
pub open spec fn remaining(unacked: Seq<UnackedModel>, ack: MessageAck) -> Seq<UnackedModel> {
    unacked.map_values(|u: UnackedModel| u.after_ack(ack)).filter(
        |u: UnackedModel| !u.delivered(),
    )
}

/// What an acknowledgement does to one more message.
proof fn lemma_ack_push(unacked: Seq<UnackedModel>, u: UnackedModel, ack: MessageAck)
    ensures
        remaining(unacked.push(u), ack) == if u.after_ack(ack).delivered() {
            remaining(unacked, ack)
        } else {
            remaining(unacked, ack).push(u.after_ack(ack))
        },
        completed(unacked.push(u), ack) == if u.after_ack(ack).delivered() {
            completed(unacked, ack).push(u.id)
        } else {
            completed(unacked, ack)
        },
{
    reveal(Seq::filter);
    let mapped = unacked.map_values(|u: UnackedModel| u.after_ack(ack));
    let all = unacked.push(u).map_values(|u: UnackedModel| u.after_ack(ack));
    assert(all =~= mapped.push(u.after_ack(ack)));
    assert(all.drop_last() =~= mapped);
    assert(completed(unacked.push(u), ack) =~= if u.after_ack(ack).delivered() {
        completed(unacked, ack).push(u.id)
    } else {
        completed(unacked, ack)
    });
}

/// The pieces that are due are pieces of the message.
pub proof fn lemma_due_pieces(u: UnackedModel, now: Time, delay: Time)
    requires
        u.wf(),
    ensures
        forall|i: int|
            0 <= i < due_pieces(u.parts, now, delay).len() ==> {
                let m = #[trigger] due_pieces(u.parts, now, delay)[i];
                m.sendable() && m.ack() is Some
            },
    decreases u.parts.len(),
{
    if u.parts.len() > 0 {
        let rest = UnackedModel { parts: u.parts.drop_last(), ..u };
        assert forall|i: int| 0 <= i < rest.parts.len() implies {
            let m = (#[trigger] rest.parts[i]).message;
            m.sendable() && m.ack() is Some
        } by {
            assert(rest.parts[i] == u.parts[i]);
        }
        lemma_due_pieces(rest, now, delay);
        assert(u.parts[u.parts.len() - 1].message.sendable());
    }
}

/// The pieces that are due can be put in a packet and are numbered.
pub proof fn lemma_all_due_pieces(unacked: Seq<UnackedModel>, now: Time, delay: Time)
    requires
        forall|i: int| 0 <= i < unacked.len() ==> (#[trigger] unacked[i]).wf(),
    ensures
        forall|i: int|
            0 <= i < all_due_pieces(unacked, now, delay).len() ==> {
                let m = #[trigger] all_due_pieces(unacked, now, delay)[i];
                m.sendable() && m.ack() is Some
            },
    decreases unacked.len(),
{
    if unacked.len() > 0 {
        lemma_all_due_pieces(unacked.drop_last(), now, delay);
        lemma_due_pieces(unacked.last(), now, delay);
    }
}

impl UnackedMessage {
    /// Returns a message that was not sent yet.
    fn new(id: MessageId, bytes: Vec<u8>) -> (r: UnackedMessage)
        ensures
            r@ == UnackedModel::fresh(id, bytes@),
            r@.wf(),
    {
        let ghost content = bytes@;
        assert(content.len() == bytes.len());
        let mut cut_pieces = cut(Some(id), bytes);
        let ghost all = views(cut_pieces@);
        let mut parts: Vec<UnackedPart> = Vec::new();
        let ghost fresh = |m: MessageModel|
            PartModel { message: m, acked: false, last_sent: None };
        assert(views(parts@) + views(cut_pieces@).map_values(fresh) =~= all.map_values(fresh));
        while cut_pieces.len() > 0
            invariant
                fresh == (|m: MessageModel|
                    PartModel { message: m, acked: false, last_sent: None }),
                views(parts@) + views(cut_pieces@).map_values(fresh) == all.map_values(fresh),
            decreases cut_pieces@.len(),
        {
            let ghost rest = views(cut_pieces@);
            let message = cut_pieces.pop_front().unwrap();
            let part = UnackedPart { message, acked: false, last_sent: None };
            let ghost before = parts@;
            parts.push(part);
            proof {
                lemma_views_push(before, part);
                assert(rest[0] == message@);
                assert(views(cut_pieces@) =~= rest.drop_first());
                assert(views(parts@) + views(cut_pieces@).map_values(fresh) =~= views(before)
                    + rest.map_values(fresh));
            }
        }
        let r = UnackedMessage { id, parts };
        proof {
            assert(views(cut_pieces@).map_values(fresh) =~= Seq::empty());
            assert(r@ =~= UnackedModel::fresh(id, content));
            lemma_pieces_sendable(Some(id), content);
            assert forall|i: int| 0 <= i < r@.parts.len() implies {
                let m = (#[trigger] r@.parts[i]).message;
                m.sendable() && m.ack() is Some
            } by {
                assert(r@.parts[i].message == pieces(Some(id), content)[i]);
            }
        }
        r
    }

    /// Queues the pieces that are due.
    fn collect(&mut self, now: Time, delay: Time, queue: &mut VecDeque<MessageContainer>)
        ensures
            final(self)@ == old(self)@.sent_if_due(now, delay),
            views(final(queue)@) == views(old(queue)@) + due_pieces(old(self)@.parts, now, delay),
    {
        let ghost parts = self@.parts;
        let mut i: usize = 0;
        proof {
            assert(parts.take(0) =~= Seq::empty());
            assert(views(queue@) + due_pieces(parts.take(0), now, delay) =~= views(queue@));
        }
        while i < self.parts.len()
            invariant
                i <= self.parts@.len(),
                parts == old(self)@.parts,
                self.id == old(self)@.id,
                self.parts@.len() == parts.len(),
                forall|k: int|
                    0 <= k < i ==> (#[trigger] self.parts@[k])@ == parts[k].sent_if_due(
                        now,
                        delay,
                    ),
                forall|k: int| i <= k < parts.len() ==> (#[trigger] self.parts@[k])@ == parts[k],
                views(queue@) == views(old(queue)@) + due_pieces(
                    parts.take(i as int),
                    now,
                    delay,
                ),
            decreases self.parts@.len() - i,
        {
            let due: bool = !self.parts[i].acked && match self.parts[i].last_sent {
                None => true,
                Some(t) => now > t && now - t > delay,
            };
            proof {
                assert(parts.take(i + 1).drop_last() =~= parts.take(i as int));
                assert(parts.take(i + 1).last() == parts[i as int]);
                assert(self.parts@[i as int]@ == parts[i as int]);
            }
            if due {
                let message = self.parts[i].message.clone();
                let ghost before = queue@;
                queue.push_back(message);
                proof {
                    lemma_views_push(before, message);
                    assert(views(queue@) =~= views(old(queue)@) + due_pieces(
                        parts.take(i + 1),
                        now,
                        delay,
                    ));
                }
                self.parts[i].last_sent = Some(now);
            }
            i = i + 1;
        }
        proof {
            assert(parts.take(i as int) =~= parts);
            assert(self@ =~= old(self)@.sent_if_due(now, delay));
        }
    }

    /// Takes note of `ack`. Returns whether all pieces arrived.
    fn apply_ack(&mut self, ack: &MessageAck) -> (r: bool)
        ensures
            final(self)@ == old(self)@.after_ack(*ack),
            r == final(self)@.delivered(),
    {
        let ghost parts = self@.parts;
        let mut delivered: bool = true;
        let mut i: usize = 0;
        while i < self.parts.len()
            invariant
                i <= self.parts@.len(),
                parts == old(self)@.parts,
                self.id == old(self)@.id,
                self.parts@.len() == parts.len(),
                forall|k: int|
                    0 <= k < i ==> (#[trigger] self.parts@[k])@ == parts[k].after_ack(*ack),
                forall|k: int| i <= k < parts.len() ==> (#[trigger] self.parts@[k])@ == parts[k],
                delivered == (forall|k: int|
                    0 <= k < i ==> (#[trigger] self.parts@[k]).acked),
            decreases self.parts@.len() - i,
        {
            assert(self.parts@[i as int]@ == parts[i as int]);
            let ghost before = self.parts@;
            match self.parts[i].message.message_ack() {
                Some(own) => {
                    if same_ack(&own, ack) {
                        self.parts[i].acked = true;
                    }
                },
                None => {},
            }
            assert(forall|k: int|
                #![trigger self.parts@[k]]
                #![trigger before[k]]
                0 <= k < i ==> self.parts@[k] == before[k]);
            if !self.parts[i].acked {
                delivered = false;
            }
            i = i + 1;
        }
        proof {
            assert(self@ =~= old(self)@.after_ack(*ack));
            assert forall|k: int| 0 <= k < self.parts@.len() implies (#[trigger] self@.parts[k]).acked
                == self.parts@[k].acked by {}
            if self@.delivered() {
                assert forall|k: int| 0 <= k < i implies (#[trigger] self.parts@[k]).acked by {
                    assert(self@.parts[k].acked);
                }
            }
        }
        delivered
    }
}

/// Returns whether two acknowledgements speak of the same piece.
fn same_ack(a: &MessageAck, b: &MessageAck) -> (r: bool)
    ensures
        r == (*a == *b),
{
    a.message_id.0 == b.message_id.0 && match (a.fragment_id, b.fragment_id) {
        (None, None) => true,
        (Some(x), Some(y)) => x == y,
        _ => false,
    }
}

impl ReliableSender {
    /// Returns a sender that was not used yet.
    pub fn new(settings: ReliableSettings) -> (r: Self)
        ensures
            r@ == ReliableModel::initial(settings),
    {
        let r = ReliableSender {
            settings,
            current_time: 0,
            rtt: 0,
            next_message_id: MessageId(0),
            unacked_messages: VecDeque::new(),
            queue: VecDeque::new(),
            subscribers: AckSubscribers::new(),
        };
        assert(r@ =~= ReliableModel::initial(settings));
        r
    }

    /// Takes note of the current time and of the round trip time.
    pub fn update(&mut self, now: Time, rtt: Time)
        ensures
            final(self)@ == (ReliableModel { now, rtt, ..old(self)@ }),
    {
        self.current_time = now;
        self.rtt = rtt;
    }

    /// Buffers a message. Returns its id.
    pub fn buffer_send(&mut self, bytes: Vec<u8>) -> (r: MessageId)
        ensures
            r == old(self)@.next_id,
            final(self)@ == old(self)@.buffer(bytes@),
            old(self)@.wf() ==> final(self)@.wf(),
    {
        let id = self.next_message_id;
        let message = UnackedMessage::new(id, bytes);
        let ghost before = self.unacked_messages@;
        self.unacked_messages.push_back(message);
        self.next_message_id = id.next();
        proof {
            lemma_views_push(before, message);
            if old(self)@.wf() {
                assert forall|i: int| 0 <= i < self@.unacked.len() implies (
                #[trigger] self@.unacked[i]).wf() by {
                    if i < before.len() {
                        assert(self@.unacked[i] == old(self)@.unacked[i]);
                    }
                }
            }
        }
        id
    }

    /// Queues what is to be sent now.
    pub fn collect_messages_to_send(&mut self)
        ensures
            final(self)@ == old(self)@.collect(),
            old(self)@.wf() ==> final(self)@.wf(),
    {
        let delay: Time = self.settings.resend_delay(self.rtt);
        let now: Time = self.current_time;
        let ghost unacked = self@.unacked;
        let mut waiting: VecDeque<UnackedMessage> = VecDeque::new();
        waiting.append(&mut self.unacked_messages);
        let ghost step = |u: UnackedModel| u.sent_if_due(now, delay);
        proof {
            assert(views(waiting@) =~= unacked);
            assert(views(self.unacked_messages@) =~= unacked.take(0).map_values(step));
            assert(unacked.skip(0) =~= unacked);
            assert(unacked.take(0) =~= Seq::empty());
            assert(views(self.queue@) =~= old(self)@.queue + all_due_pieces(
                unacked.take(0),
                now,
                delay,
            ));
        }
        let ghost mut i: int = 0;
        while waiting.len() > 0
            invariant
                0 <= i <= unacked.len(),
                step == (|u: UnackedModel| u.sent_if_due(now, delay)),
                views(waiting@) == unacked.skip(i),
                views(self.unacked_messages@) == unacked.take(i).map_values(step),
                views(self.queue@) == old(self)@.queue + all_due_pieces(
                    unacked.take(i),
                    now,
                    delay,
                ),
                self@ == (ReliableModel {
                    unacked: self@.unacked,
                    queue: self@.queue,
                    ..old(self)@
                }),
            decreases waiting@.len(),
        {
            let ghost rest = views(waiting@);
            let mut message = waiting.pop_front().unwrap();
            proof {
                assert(rest[0] == message@);
                assert(i < unacked.len()) by {
                    assert(rest.len() == unacked.skip(i).len());
                }
                assert(unacked[i] == message@);
            }
            message.collect(now, delay, &mut self.queue);
            let ghost before = self.unacked_messages@;
            self.unacked_messages.push_back(message);
            proof {
                lemma_views_push(before, message);
                assert(unacked.take(i + 1).drop_last() =~= unacked.take(i));
                assert(unacked.take(i + 1).last() == unacked[i]);
                assert(views(waiting@) =~= rest.drop_first());
                assert(rest.drop_first() =~= unacked.skip(i + 1));
                assert(views(self.unacked_messages@) =~= unacked.take(i + 1).map_values(step));
                assert(views(self.queue@) =~= old(self)@.queue + all_due_pieces(
                    unacked.take(i + 1),
                    now,
                    delay,
                ));
                i = i + 1;
            }
        }
        proof {
            assert(unacked.take(i) =~= unacked);
            assert(self@.unacked =~= old(self)@.collect().unacked);
            assert(self@ =~= old(self)@.collect());
            if old(self)@.wf() {
                lemma_collect_wf(old(self)@);
            }
        }
    }

    /// Returns whether something is queued.
    pub fn has_messages_to_send(&self) -> (r: bool)
        ensures
            r == (self@.queue.len() > 0),
    {
        self.queue.len() > 0
    }

    /// Returns what is queued, and empties the queue.
    pub fn send_packet(&mut self) -> (r: VecDeque<MessageContainer>)
        ensures
            views(r@) == old(self)@.queue,
            final(self)@ == (ReliableModel { queue: Seq::empty(), ..old(self)@ }),
            old(self)@.wf() ==> final(self)@.wf(),
    {
        let mut r: VecDeque<MessageContainer> = VecDeque::new();
        r.append(&mut self.queue);
        proof {
            assert(views(r@) =~= old(self)@.queue);
            assert(self@.queue =~= Seq::empty());
        }
        r
    }

    /// Takes note that the remote received what `ack` speaks of. A message that arrived in full
    /// is not sent again.
    pub fn notify_message_delivered(&mut self, ack: &MessageAck)
        ensures
            final(self)@ == old(self)@.notify(*ack),
            old(self)@.wf() ==> final(self)@.wf(),
    {
        let ghost unacked = self@.unacked;
        let mut waiting: VecDeque<UnackedMessage> = VecDeque::new();
        waiting.append(&mut self.unacked_messages);
        proof {
            reveal(Seq::filter);
            assert(views(waiting@) =~= unacked);
            assert(unacked.skip(0) =~= unacked);
            assert(views(self.unacked_messages@) =~= remaining(unacked.take(0), *ack));
            assert(completed(unacked.take(0), *ack) =~= Seq::empty());
            assert(self@.subscribers =~= told(
                old(self)@.subscribers,
                completed(unacked.take(0), *ack),
            ));
        }
        let ghost mut i: int = 0;
        while waiting.len() > 0
            invariant
                0 <= i <= unacked.len(),
                views(waiting@) == unacked.skip(i),
                views(self.unacked_messages@) == remaining(unacked.take(i), *ack),
                self@.subscribers == told(
                    old(self)@.subscribers,
                    completed(unacked.take(i), *ack),
                ),
                self@ == (ReliableModel {
                    unacked: self@.unacked,
                    subscribers: self@.subscribers,
                    ..old(self)@
                }),
            decreases waiting@.len(),
        {
            let ghost rest = views(waiting@);
            let mut message = waiting.pop_front().unwrap();
            proof {
                assert(rest[0] == message@);
                assert(i < unacked.len()) by {
                    assert(rest.len() == unacked.skip(i).len());
                }
                assert(unacked[i] == message@);
                lemma_ack_push(unacked.take(i), unacked[i], *ack);
                assert(unacked.take(i + 1) =~= unacked.take(i).push(unacked[i]));
            }
            let ghost subscribers = self@.subscribers;
            if message.apply_ack(ack) {
                self.subscribers.notify(message.id);
                proof {
                    let ids = completed(unacked.take(i), *ack);
                    assert forall|k: int| 0 <= k < subscribers.len() implies (
                    #[trigger] old(self)@.subscribers[k]) + ids + seq![message.id] == old(
                        self,
                    )@.subscribers[k] + ids.push(message.id) by {
                        assert(old(self)@.subscribers[k] + ids + seq![message.id] =~= old(
                            self,
                        )@.subscribers[k] + ids.push(message.id));
                    }
                    assert(self@.subscribers =~= told(old(self)@.subscribers, ids.push(message.id)));
                }
            } else {
                let ghost before = self.unacked_messages@;
                self.unacked_messages.push_back(message);
                proof {
                    lemma_views_push(before, message);
                }
            }
            proof {
                assert(views(waiting@) =~= rest.drop_first());
                assert(rest.drop_first() =~= unacked.skip(i + 1));
                i = i + 1;
            }
        }
        proof {
            assert(unacked.take(i) =~= unacked);
            assert(self@ =~= old(self)@.notify(*ack));
            if old(self)@.wf() {
                lemma_notify_wf(old(self)@, *ack);
            }
        }
    }

    /// Adds a party that wants to know which messages arrived. Returns its position.
    pub fn subscribe_acks(&mut self) -> (r: usize)
        ensures
            r == old(self)@.subscribers.len(),
            final(self)@ == (ReliableModel {
                subscribers: old(self)@.subscribers.push(Seq::empty()),
                ..old(self)@
            }),
    {
        self.subscribers.subscribe()
    }

    /// Returns the next message that arrived and that the subscriber at `position` was not told
    /// about yet.
    pub fn next_ack(&mut self, position: usize) -> (r: Option<MessageId>)
        ensures
            r == pending(old(self)@.subscribers, position),
            final(self)@ == (ReliableModel {
                subscribers: consumed(old(self)@.subscribers, position),
                ..old(self)@
            }),
    {
        self.subscribers.next(position)
    }
}

/// Collecting what is due keeps a sender in order.
pub proof fn lemma_collect_wf(model: ReliableModel)
    requires
        model.wf(),
    ensures
        model.collect().wf(),
{
    let now = model.now;
    let delay = model.delay();
    lemma_all_due_pieces(model.unacked, now, delay);
    let after = model.collect();
    assert forall|i: int| 0 <= i < after.unacked.len() implies (#[trigger] after.unacked[i]).wf() by {
        let u = model.unacked[i];
        assert(u.wf());
        assert forall|k: int| 0 <= k < u.sent_if_due(now, delay).parts.len() implies {
            let m = (#[trigger] u.sent_if_due(now, delay).parts[k]).message;
            m.sendable() && m.ack() is Some
        } by {
            assert(u.parts[k].message.sendable());
        }
    }
    assert forall|i: int| 0 <= i < after.queue.len() implies {
        let m = #[trigger] after.queue[i];
        m.sendable() && m.ack() is Some
    } by {
        if i < model.queue.len() {
            assert(after.queue[i] == model.queue[i]);
        } else {
            assert(after.queue[i] == all_due_pieces(model.unacked, now, delay)[i
                - model.queue.len()]);
        }
    }
}

/// An acknowledgement keeps a sender in order.
pub proof fn lemma_notify_wf(model: ReliableModel, ack: MessageAck)
    requires
        model.wf(),
    ensures
        model.notify(ack).wf(),
{
    let mapped = model.unacked.map_values(|u: UnackedModel| u.after_ack(ack));
    let keep = |u: UnackedModel| !u.delivered();
    let after = mapped.filter(keep);
    assert forall|i: int| 0 <= i < mapped.len() implies (#[trigger] mapped[i]).wf() by {
        let u = model.unacked[i];
        assert(u.wf());
        assert forall|k: int| 0 <= k < u.after_ack(ack).parts.len() implies {
            let m = (#[trigger] u.after_ack(ack).parts[k]).message;
            m.sendable() && m.ack() is Some
        } by {
            assert(u.parts[k].message.sendable());
        }
    }
    assert forall|i: int| 0 <= i < after.len() implies (#[trigger] after[i]).wf() by {
        mapped.lemma_filter_contains_rev(keep, after[i]);
        let j = choose|j: int| 0 <= j < mapped.len() && mapped[j] == after[i];
        assert(mapped[j].wf());
    }
}

} // verus!
