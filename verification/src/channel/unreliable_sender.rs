//! Sending messages once.
use std::collections::{HashMap, VecDeque};
use vstd::prelude::*;

use crate::channel::acks::{consumed, pending, told, AckSubscribers};
use crate::ids::MessageId;
use crate::message::{
    count_fragments, cut, fragment_count, lemma_pieces_sendable, pieces, MessageAck, MessageContainer,
    MessageModel, FRAGMENT_SIZE,
};
use crate::model::views;

verus! {

broadcast use vstd::std_specs::hash::group_hash_axioms;

/// A message that waits to be sent.
pub struct QueuedMessage {
    pub id: Option<MessageId>,
    pub bytes: Vec<u8>,
}

impl View for QueuedMessage {
    type V = (Option<MessageId>, Seq<u8>);

    open spec fn view(&self) -> (Option<MessageId>, Seq<u8>) {
        (self.id, self.bytes@)
    }
}

/// Sends every message once.
pub struct UnreliableSender {
    /// Whether all messages are numbered, and subscribers told which of them arrived.
    with_acks: bool,
    next_message_id: MessageId,
    queue: VecDeque<QueuedMessage>,
    /// For each long message on its way, by the number of the message: which of its fragments
    /// arrived.
    waiting: HashMap<u16, Vec<bool>>,
    subscribers: AckSubscribers,
}

/// Model of [`UnreliableSender`].
#[verifier::ext_equal]
pub struct UnreliableModel {
    pub with_acks: bool,
    pub next_id: MessageId,
    pub queue: Seq<(Option<MessageId>, Seq<u8>)>,
    pub waiting: Map<u16, Seq<bool>>,
    pub subscribers: Seq<Seq<MessageId>>,
}

impl View for UnreliableSender {
    type V = UnreliableModel;

    closed spec fn view(&self) -> UnreliableModel {
        UnreliableModel {
            with_acks: self.with_acks,
            next_id: self.next_message_id,
            queue: views(self.queue@),
            waiting: self.waiting@.map_values(|v: Vec<bool>| v@),
            subscribers: self.subscribers@,
        }
    }
}

/// What is sent for the messages of a queue, in order.
pub open spec fn queue_pieces(queue: Seq<(Option<MessageId>, Seq<u8>)>) -> Seq<MessageModel>
    decreases queue.len(),
{
    if queue.len() == 0 {
        Seq::empty()
    } else {
        pieces(queue[0].0, queue[0].1) + queue_pieces(queue.drop_first())
    }
}

impl UnreliableModel {
    /// A sender that was not used yet.
    pub open spec fn initial(with_acks: bool) -> UnreliableModel {
        UnreliableModel {
            with_acks,
            next_id: MessageId(0),
            queue: Seq::empty(),
            waiting: Map::empty(),
            subscribers: Seq::empty(),
        }
    }

    /// Messages are of a length that can be represented, and numbered where that is needed.
    pub open spec fn wf(self) -> bool {
        forall|i: int|
            0 <= i < self.queue.len() ==> {
                let (id, bytes) = #[trigger] self.queue[i];
                &&& self.with_acks || bytes.len() > FRAGMENT_SIZE ==> id is Some
                &&& bytes.len() <= usize::MAX
            }
    }

    /// The id that the message `bytes` is sent with, if it has one.
    pub open spec fn id_for(self, bytes: Seq<u8>) -> Option<MessageId> {
        if self.with_acks || bytes.len() > FRAGMENT_SIZE {
            Some(self.next_id)
        } else {
            None
        }
    }

    /// The state after the message `bytes` was buffered.
    pub open spec fn buffer(self, bytes: Seq<u8>) -> UnreliableModel {
        let id = self.id_for(bytes);
        UnreliableModel {
            next_id: if id is Some {
                self.next_id.successor()
            } else {
                self.next_id
            },
            queue: self.queue.push((id, bytes)),
            waiting: if self.with_acks && bytes.len() > FRAGMENT_SIZE {
                self.waiting.insert(
                    self.next_id.0,
                    Seq::new(fragment_count(bytes.len()), |i: int| false),
                )
            } else {
                self.waiting
            },
            ..self
        }
    }

    /// The fragments of the message that `ack` speaks of, after `ack`.
    pub open spec fn waiting_after(self, ack: MessageAck) -> Seq<bool> {
        self.waiting[ack.message_id.0].update(ack.fragment_id.unwrap() as int, true)
    }

    /// Whether `ack` speaks of a fragment that is waited for.
    pub open spec fn awaits(self, ack: MessageAck) -> bool {
        &&& self.with_acks
        &&& ack.fragment_id is Some
        &&& self.waiting.contains_key(ack.message_id.0)
        &&& ack.fragment_id.unwrap() < self.waiting[ack.message_id.0].len()
    }

    /// Whether the whole message that `ack` speaks of arrived, now that `ack` came.
    pub open spec fn completes(self, ack: MessageAck) -> bool {
        if ack.fragment_id is None {
            self.with_acks
        } else {
            self.awaits(ack) && all_true(self.waiting_after(ack))
        }
    }

    /// The state after `ack` came.
    pub open spec fn notify(self, ack: MessageAck) -> UnreliableModel {
        UnreliableModel {
            waiting: if !self.awaits(ack) {
                self.waiting
            } else if self.completes(ack) {
                self.waiting.remove(ack.message_id.0)
            } else {
                self.waiting.insert(ack.message_id.0, self.waiting_after(ack))
            },
            subscribers: if self.completes(ack) {
                told(self.subscribers, seq![ack.message_id])
            } else {
                self.subscribers
            },
            ..self
        }
    }
}

/// Whether all flags are set.
pub open spec fn all_true(flags: Seq<bool>) -> bool {
    forall|i: int| 0 <= i < flags.len() ==> #[trigger] flags[i]
}

/// Everything that is sent for a queue can be put in a packet, and is numbered if the sender
/// waits for acknowledgements.
pub proof fn lemma_queue_pieces(model: UnreliableModel)
    requires
        model.wf(),
    ensures
        forall|i: int|
            0 <= i < queue_pieces(model.queue).len() ==> {
                let m = #[trigger] queue_pieces(model.queue)[i];
                m.sendable() && (model.with_acks ==> m.ack() is Some)
            },
        model.queue.len() == 0 <==> queue_pieces(model.queue).len() == 0,
    decreases model.queue.len(),
{
    let queue = model.queue;
    if queue.len() > 0 {
        let rest = UnreliableModel { queue: queue.drop_first(), ..model };
        assert(rest.wf()) by {
            assert forall|i: int| 0 <= i < rest.queue.len() implies {
                let (id, bytes) = #[trigger] rest.queue[i];
                &&& rest.with_acks || bytes.len() > FRAGMENT_SIZE ==> id is Some
                &&& bytes.len() <= usize::MAX
            } by {
                assert(rest.queue[i] == queue[i + 1]);
            }
        }
        lemma_queue_pieces(rest);
        let (id, bytes) = queue[0];
        lemma_pieces_sendable(id, bytes);
        let first = pieces(id, bytes);
        let tail = queue_pieces(rest.queue);
        assert forall|i: int| 0 <= i < queue_pieces(queue).len() implies {
            let m = #[trigger] queue_pieces(queue)[i];
            m.sendable() && (model.with_acks ==> m.ack() is Some)
        } by {
            if i < first.len() {
                assert(queue_pieces(queue)[i] == first[i]);
                assert(first[i].sendable());
            } else {
                assert(queue_pieces(queue)[i] == tail[i - first.len()]);
            }
        }
    }
}

impl UnreliableSender {
    /// Returns a sender that was not used yet.
    pub fn new(with_acks: bool) -> (r: Self)
        ensures
            r@ == UnreliableModel::initial(with_acks),
    {
        let r = UnreliableSender {
            with_acks,
            next_message_id: MessageId(0),
            queue: VecDeque::new(),
            waiting: HashMap::new(),
            subscribers: AckSubscribers::new(),
        };
        assert(r@ =~= UnreliableModel::initial(with_acks));
        r
    }

    /// Buffers a message. Returns its id, if it has one.
    pub fn buffer_send(&mut self, bytes: Vec<u8>) -> (r: Option<MessageId>)
        ensures
            r == old(self)@.id_for(bytes@),
            final(self)@ == old(self)@.buffer(bytes@),
            old(self)@.wf() ==> final(self)@.wf(),
    {
        let ghost model = self@;
        let ghost content = bytes@;
        let id = self.next_message_id;
        let long: bool = bytes.len() > FRAGMENT_SIZE;
        if self.with_acks && long {
            let flags: Vec<bool> = vec![false; count_fragments(bytes.len())];
            proof {
                assert(flags@ =~= Seq::new(fragment_count(content.len()), |i: int| false));
            }
            self.waiting.insert(id.0, flags);
            proof {
                assert(self@.waiting =~= model.waiting.insert(id.0, flags@));
            }
        }
        let message_id = if self.with_acks || long {
            self.next_message_id = id.next();
            Some(id)
        } else {
            None
        };
        let queued = QueuedMessage { id: message_id, bytes };
        let ghost before = self.queue@;
        self.queue.push_back(queued);
        proof {
            assert(views(self.queue@) =~= views(before).push(queued@));
            assert(self@ =~= model.buffer(content));
            if model.wf() {
                assert forall|i: int| 0 <= i < self@.queue.len() implies {
                    let (i_id, i_bytes) = #[trigger] self@.queue[i];
                    &&& self@.with_acks || i_bytes.len() > FRAGMENT_SIZE ==> i_id is Some
                    &&& i_bytes.len() <= usize::MAX
                } by {
                    if i < model.queue.len() {
                        assert(self@.queue[i] == model.queue[i]);
                    }
                }
            }
        }
        message_id
    }

    /// Returns whether a message waits to be sent.
    pub fn has_messages_to_send(&self) -> (r: bool)
        ensures
            r == (self@.queue.len() > 0),
    {
        self.queue.len() > 0
    }

    /// Returns what is sent for the messages that wait, and forgets them.
    pub fn send_packet(&mut self) -> (r: VecDeque<MessageContainer>)
        requires
            old(self)@.wf(),
        ensures
            views(r@) == queue_pieces(old(self)@.queue),
            final(self)@ == (UnreliableModel { queue: Seq::empty(), ..old(self)@ }),
            final(self)@.wf(),
    {
        let ghost model = self@;
        let ghost all = self@.queue;
        let mut r: VecDeque<MessageContainer> = VecDeque::new();
        assert(views(r@) + queue_pieces(all) =~= queue_pieces(all));
        while self.queue.len() > 0
            invariant
                self@ == (UnreliableModel { queue: self@.queue, ..model }),
                self@.queue == views(self.queue@),
                self@.wf(),
                views(r@) + queue_pieces(self@.queue) == queue_pieces(all),
            decreases self.queue@.len(),
        {
            let ghost rest = self@;
            let message = self.queue.pop_front().unwrap();
            proof {
                assert(rest.queue[0] == message@);
                assert(self@.queue =~= rest.queue.drop_first());
                assert forall|i: int| 0 <= i < self@.queue.len() implies {
                    let (i_id, i_bytes) = #[trigger] self@.queue[i];
                    &&& self@.with_acks || i_bytes.len() > FRAGMENT_SIZE ==> i_id is Some
                    &&& i_bytes.len() <= usize::MAX
                } by {
                    assert(self@.queue[i] == rest.queue[i + 1]);
                }
            }
            let mut parts: VecDeque<MessageContainer> = cut(message.id, message.bytes);
            let ghost before = r@;
            let ghost added = parts@;
            r.append(&mut parts);
            proof {
                assert(views(r@) =~= views(before) + views(added));
                assert(views(r@) + queue_pieces(self@.queue) =~= views(before) + queue_pieces(
                    rest.queue,
                ));
            }
        }
        proof {
            assert(self@.queue =~= Seq::empty());
            assert(views(r@) + queue_pieces(self@.queue) =~= views(r@));
        }
        r
    }

    /// Takes note that the remote received what `ack` speaks of.
    pub fn notify_message_delivered(&mut self, ack: &MessageAck)
        ensures
            final(self)@ == old(self)@.notify(*ack),
            old(self)@.wf() ==> final(self)@.wf(),
    {
        let ghost model = self@;
        if !self.with_acks {
            return;
        }
        match ack.fragment_id {
            None => {
                self.subscribers.notify(ack.message_id);
            },
            Some(fragment_id) => {
                match self.waiting.remove(&ack.message_id.0) {
                    None => {
                        assert(self@.waiting =~= model.waiting);
                    },
                    Some(flags) => {
                        let mut flags = flags;
                        let ghost before = flags@;
                        assert(model.waiting[ack.message_id.0] == before);
                        if fragment_id < flags.len() as u64 {
                            flags.set(fragment_id as usize, true);
                            if are_all_true(&flags) {
                                self.subscribers.notify(ack.message_id);
                                assert(self@.waiting =~= model.waiting.remove(ack.message_id.0));
                            } else {
                                self.waiting.insert(ack.message_id.0, flags);
                                assert(self@.waiting =~= model.waiting.insert(
                                    ack.message_id.0,
                                    flags@,
                                ));
                            }
                        } else {
                            self.waiting.insert(ack.message_id.0, flags);
                            assert(self@.waiting =~= model.waiting);
                        }
                    },
                }
            },
        }
        assert(self@ =~= model.notify(*ack));
    }

    /// Adds a party that wants to know which messages arrived. Returns its position.
    pub fn subscribe_acks(&mut self) -> (r: usize)
        ensures
            r == old(self)@.subscribers.len(),
            final(self)@ == (UnreliableModel {
                subscribers: old(self)@.subscribers.push(Seq::empty()),
                ..old(self)@
            }),
    {
        self.subscribers.subscribe()
    }

    /// Returns the next message that arrived and that the subscriber at `position` was not told
    /// about yet.
    pub fn next_ack(&mut self, position: usize) -> (r: Option<MessageId>)
        ensures
            r == pending(old(self)@.subscribers, position),
            final(self)@ == (UnreliableModel {
                subscribers: consumed(old(self)@.subscribers, position),
                ..old(self)@
            }),
    {
        self.subscribers.next(position)
    }
}

/// Returns whether all flags are set.
fn are_all_true(flags: &Vec<bool>) -> (r: bool)
    ensures
        r == all_true(flags@),
{
    let mut i: usize = 0;
    while i < flags.len()
        invariant
            i <= flags@.len(),
            forall|k: int| 0 <= k < i ==> #[trigger] flags@[k],
        decreases flags@.len() - i,
    {
        if !flags[i] {
            return false;
        }
        i = i + 1;
    }
    true
}

} // verus!
