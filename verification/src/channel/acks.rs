//! Telling interested parties which messages arrived.
use std::collections::VecDeque;
use vstd::prelude::*;

use crate::ids::MessageId;

verus! {

/// The parties that want to know which messages of a channel arrived, each with the messages
/// that it was not told about yet.
pub struct AckSubscribers {
    queues: Vec<VecDeque<MessageId>>,
}

impl View for AckSubscribers {
    type V = Seq<Seq<MessageId>>;

    closed spec fn view(&self) -> Seq<Seq<MessageId>> {
        self.queues@.map_values(|q: VecDeque<MessageId>| q@)
    }
}

/// The subscribers after all of them were told about `ids`.
pub open spec fn told(subscribers: Seq<Seq<MessageId>>, ids: Seq<MessageId>) -> Seq<Seq<MessageId>> {
    subscribers.map_values(|q: Seq<MessageId>| q + ids)
}

/// The next message that the subscriber at `position` was not told about yet.
pub open spec fn pending(subscribers: Seq<Seq<MessageId>>, position: usize) -> Option<MessageId> {
    if position < subscribers.len() && subscribers[position as int].len() > 0 {
        Some(subscribers[position as int][0])
    } else {
        None
    }
}

/// The subscribers after the one at `position` was told about its next message.
pub open spec fn consumed(subscribers: Seq<Seq<MessageId>>, position: usize) -> Seq<
    Seq<MessageId>,
> {
    if position < subscribers.len() && subscribers[position as int].len() > 0 {
        subscribers.update(position as int, subscribers[position as int].drop_first())
    } else {
        subscribers
    }
}

impl AckSubscribers {
    /// Returns an empty list.
    pub fn new() -> (r: Self)
        ensures
            r@ == Seq::<Seq<MessageId>>::empty(),
    {
        let r = AckSubscribers { queues: Vec::new() };
        assert(r@ =~= Seq::empty());
        r
    }

    /// Adds a subscriber. Returns its position.
    pub fn subscribe(&mut self) -> (r: usize)
        ensures
            r == old(self)@.len(),
            final(self)@ == old(self)@.push(Seq::empty()),
    {
        let r: usize = self.queues.len();
        self.queues.push(VecDeque::new());
        assert(self@ =~= old(self)@.push(Seq::empty()));
        r
    }

    /// Tells every subscriber about `id`.
    pub fn notify(&mut self, id: MessageId)
        ensures
            final(self)@ == told(old(self)@, seq![id]),
    {
        let mut i: usize = 0;
        while i < self.queues.len()
            invariant
                i <= self@.len(),
                self@.len() == self.queues@.len(),
                self@.len() == old(self)@.len(),
                forall|k: int| 0 <= k < i ==> (#[trigger] self@[k]) == old(self)@[k] + seq![id],
                forall|k: int| i <= k < self@.len() ==> (#[trigger] self@[k]) == old(self)@[k],
            decreases self.queues@.len() - i,
        {
            let ghost before = self@;
            self.queues[i].push_back(id);
            proof {
                assert(before[i as int].push(id) =~= before[i as int] + seq![id]);
                assert(self@ =~= before.update(i as int, before[i as int].push(id)));
            }
            i = i + 1;
        }
        assert(self@ =~= told(old(self)@, seq![id]));
    }

    /// Returns the next message that the subscriber at `position` was not told about yet.
    pub fn next(&mut self, position: usize) -> (r: Option<MessageId>)
        ensures
            r == pending(old(self)@, position),
            final(self)@ == consumed(old(self)@, position),
    {
        if position >= self.queues.len() {
            return None;
        }
        let r = self.queues[position].pop_front();
        proof {
            let queue = old(self)@[position as int];
            assert(queue == old(self).queues@[position as int]@);
            if queue.len() == 0 {
                assert(self@ =~= old(self)@);
            } else {
                assert(queue.drop_first() =~= queue.subrange(1, queue.len() as int));
                assert(self@ =~= old(self)@.update(position as int, queue.drop_first()));
            }
        }
        r
    }
}

} // verus!
