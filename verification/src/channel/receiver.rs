//! Receiving messages: keeping them until they can be read.
use std::collections::{HashMap, VecDeque};
use vstd::prelude::*;

use crate::channel::fragment_receiver::{
    after_fragment, with_fragment, without_stale, FragmentReceiver, PartialModel,
};
use crate::channel::settings::ChannelMode;
use crate::ids::{MessageId, Time};
use crate::message::{FragmentModel, MessageContainer, MessageModel, SingleData, SingleModel};
use crate::model::{lemma_views_push, views};
use crate::shared::{TickManager, TimeManager};

verus! {

broadcast use vstd::std_specs::hash::group_hash_axioms;

/// Why a channel does not take a message.
#[derive(Clone, Copy, Debug, PartialEq, Eq, Structural)]
pub enum ReceiveError {
    /// The channel numbers its messages, and the message has no number.
    MissingMessageId,
    /// The fragment lies outside of its message.
    InvalidFragment,
}

/// Hands messages out in the order they come.
pub struct UnorderedReceiver {
    ready: VecDeque<SingleData>,
    fragments: FragmentReceiver,
    current_time: Time,
}

/// Hands messages out in the order they were sent.
pub struct OrderedReceiver {
    pending_message_id: MessageId,
    /// The messages that came and were not read, by the number of the message.
    buffer: HashMap<u16, SingleData>,
    fragments: FragmentReceiver,
    current_time: Time,
}

/// Model of [`UnorderedReceiver`].
#[verifier::ext_equal]
pub struct UnorderedModel {
    pub ready: Seq<SingleModel>,
    pub partial: Map<u16, PartialModel>,
    pub now: Time,
}

/// Model of [`OrderedReceiver`].
#[verifier::ext_equal]
pub struct OrderedModel {
    /// The message that is read next.
    pub pending: MessageId,
    pub buffer: Map<u16, SingleModel>,
    pub partial: Map<u16, PartialModel>,
    pub now: Time,
}

impl View for UnorderedReceiver {
    type V = UnorderedModel;

    closed spec fn view(&self) -> UnorderedModel {
        UnorderedModel {
            ready: views(self.ready@),
            partial: self.fragments@,
            now: self.current_time,
        }
    }
}

impl View for OrderedReceiver {
    type V = OrderedModel;

    closed spec fn view(&self) -> OrderedModel {
        OrderedModel {
            pending: self.pending_message_id,
            buffer: self.buffer@.map_values(|d: SingleData| d@),
            partial: self.fragments@,
            now: self.current_time,
        }
    }
}

/// The message that `fragment` completes.
pub open spec fn reassembled(
    partial: Map<u16, PartialModel>,
    fragment: FragmentModel,
    now: Time,
) -> SingleModel {
    SingleModel {
        id: Some(fragment.message_id),
        tick: fragment.tick,
        bytes: with_fragment(partial, fragment, now).message(),
    }
}

/// The messages of `buffer` that follow one another, starting with `from`.
pub open spec fn run(buffer: Map<u16, SingleModel>, from: MessageId) -> Seq<SingleModel>
    decreases buffer.dom().len(),
{
    if buffer.dom().finite() && buffer.contains_key(from.0) {
        seq![buffer[from.0]] + run(buffer.remove(from.0), from.successor())
    } else {
        Seq::empty()
    }
}

/// Why a fragment is refused, if it is.
pub open spec fn fragment_error(fragment: FragmentModel) -> Option<ReceiveError> {
    if fragment.fragment_id >= fragment.num_fragments {
        Some(ReceiveError::InvalidFragment)
    } else {
        None
    }
}

impl UnorderedModel {
    pub open spec fn initial() -> UnorderedModel {
        UnorderedModel { ready: Seq::empty(), partial: Map::empty(), now: 0 }
    }

    /// Every message that can be read has a tick.
    pub open spec fn wf(self) -> bool {
        forall|i: int| 0 <= i < self.ready.len() ==> (#[trigger] self.ready[i]).tick is Some
    }

    pub open spec fn error(message: MessageModel) -> Option<ReceiveError> {
        match message {
            MessageModel::Single(_) => None,
            MessageModel::Fragment(fragment) => fragment_error(fragment),
        }
    }

    /// The state after `message` came.
    pub open spec fn receive(self, message: MessageModel) -> UnorderedModel {
        match message {
            MessageModel::Single(data) => UnorderedModel { ready: self.ready.push(data), ..self },
            MessageModel::Fragment(fragment) => UnorderedModel {
                ready: if with_fragment(self.partial, fragment, self.now).complete() {
                    self.ready.push(reassembled(self.partial, fragment, self.now))
                } else {
                    self.ready
                },
                partial: after_fragment(self.partial, fragment, self.now),
                ..self
            },
        }
    }
}

impl OrderedModel {
    pub open spec fn initial() -> OrderedModel {
        OrderedModel {
            pending: MessageId(0),
            buffer: Map::empty(),
            partial: Map::empty(),
            now: 0,
        }
    }

    /// Every message that can be read has a tick.
    pub open spec fn wf(self) -> bool {
        &&& self.buffer.dom().finite()
        &&& forall|id: u16|
            #[trigger] self.buffer.contains_key(id) ==> self.buffer[id].tick is Some
    }

    pub open spec fn error(message: MessageModel) -> Option<ReceiveError> {
        match message {
            MessageModel::Single(data) => if data.id is None {
                Some(ReceiveError::MissingMessageId)
            } else {
                None
            },
            MessageModel::Fragment(fragment) => fragment_error(fragment),
        }
    }

    /// Whether the message `id` was read, or waits to be read.
    pub open spec fn has(self, id: MessageId) -> bool {
        id.behind(self.pending) || self.buffer.contains_key(id.0)
    }

    /// The state after `message` came. A message that came before is ignored.
    pub open spec fn receive(self, message: MessageModel) -> OrderedModel {
        match message {
            MessageModel::Single(data) => if self.has(data.id.unwrap()) {
                self
            } else {
                OrderedModel { buffer: self.buffer.insert(data.id.unwrap().0, data), ..self }
            },
            MessageModel::Fragment(fragment) => if self.has(fragment.message_id) {
                self
            } else {
                OrderedModel {
                    buffer: if with_fragment(self.partial, fragment, self.now).complete() {
                        self.buffer.insert(
                            fragment.message_id.0,
                            reassembled(self.partial, fragment, self.now),
                        )
                    } else {
                        self.buffer
                    },
                    partial: after_fragment(self.partial, fragment, self.now),
                    ..self
                }
            },
        }
    }
}

impl UnorderedReceiver {
    /// Returns a receiver that received nothing.
    pub fn new() -> (r: Self)
        ensures
            r@ == UnorderedModel::initial(),
    {
        let r = UnorderedReceiver {
            ready: VecDeque::new(),
            fragments: FragmentReceiver::new(),
            current_time: 0,
        };
        assert(r@ =~= UnorderedModel::initial());
        r
    }

    /// Takes note of the current time, and forgets fragments that were kept for too long.
    pub fn update(&mut self, now: Time)
        ensures
            final(self)@ == (UnorderedModel {
                partial: without_stale(old(self)@.partial, now),
                now,
                ..old(self)@
            }),
    {
        self.current_time = now;
        self.fragments.cleanup(now);
    }

    /// Takes a message that came.
    pub fn buffer_recv(&mut self, message: MessageContainer) -> (r: Result<(), ReceiveError>)
        ensures
            match UnorderedModel::error(message@) {
                Some(e) => r == Err::<(), ReceiveError>(e) && final(self)@ == old(self)@,
                None => r is Ok && final(self)@ == old(self)@.receive(message@),
            },
    {
        let ghost content = message@;
        match message {
            MessageContainer::Single(data) => {
                let ghost before = self.ready@;
                self.ready.push_back(data);
                proof {
                    lemma_views_push(before, data);
                }
            },
            MessageContainer::Fragment(fragment) => {
                if fragment.fragment_id >= fragment.num_fragments {
                    return Err(ReceiveError::InvalidFragment);
                }
                let id = fragment.message_id;
                let tick = fragment.tick;
                match self.fragments.receive_fragment(fragment, self.current_time) {
                    Some(bytes) => {
                        let data = SingleData { id: Some(id), tick, bytes };
                        let ghost before = self.ready@;
                        self.ready.push_back(data);
                        proof {
                            lemma_views_push(before, data);
                        }
                    },
                    None => {},
                }
            },
        }
        assert(self@ =~= old(self)@.receive(content));
        Ok(())
    }

    /// Returns the next message.
    pub fn read_message(&mut self) -> (r: Option<SingleData>)
        ensures
            match r {
                Some(data) => {
                    &&& old(self)@.ready.len() > 0
                    &&& data@ == old(self)@.ready[0]
                    &&& final(self)@ == (UnorderedModel {
                        ready: old(self)@.ready.drop_first(),
                        ..old(self)@
                    })
                },
                None => old(self)@.ready.len() == 0 && final(self)@ == old(self)@,
            },
    {
        let r = self.ready.pop_front();
        proof {
            if r is Some {
                assert(self@.ready =~= old(self)@.ready.drop_first());
            } else {
                assert(self@ =~= old(self)@);
            }
        }
        r
    }
}

impl OrderedReceiver {
    /// Returns a receiver that received nothing.
    pub fn new() -> (r: Self)
        ensures
            r@ == OrderedModel::initial(),
    {
        let r = OrderedReceiver {
            pending_message_id: MessageId(0),
            buffer: HashMap::new(),
            fragments: FragmentReceiver::new(),
            current_time: 0,
        };
        assert(r@ =~= OrderedModel::initial());
        r
    }

    /// Takes note of the current time.
    pub fn update(&mut self, now: Time)
        ensures
            final(self)@ == (OrderedModel { now, ..old(self)@ }),
    {
        self.current_time = now;
    }

    /// Returns whether the message `id` was read, or waits to be read.
    fn has_message(&self, id: MessageId) -> (r: bool)
        ensures
            r == self@.has(id),
    {
        id.is_behind(self.pending_message_id) || self.buffer.contains_key(&id.0)
    }

    /// Takes a message that came.
    pub fn buffer_recv(&mut self, message: MessageContainer) -> (r: Result<(), ReceiveError>)
        ensures
            match OrderedModel::error(message@) {
                Some(e) => r == Err::<(), ReceiveError>(e) && final(self)@ == old(self)@,
                None => r is Ok && final(self)@ == old(self)@.receive(message@),
            },
    {
        let ghost content = message@;
        match message {
            MessageContainer::Single(data) => {
                let id = match data.id {
                    Some(id) => id,
                    None => {
                        return Err(ReceiveError::MissingMessageId);
                    },
                };
                if !self.has_message(id) {
                    self.buffer.insert(id.0, data);
                    assert(self@.buffer =~= old(self)@.buffer.insert(id.0, data@));
                }
            },
            MessageContainer::Fragment(fragment) => {
                if fragment.fragment_id >= fragment.num_fragments {
                    return Err(ReceiveError::InvalidFragment);
                }
                let id = fragment.message_id;
                let tick = fragment.tick;
                if !self.has_message(id) {
                    match self.fragments.receive_fragment(fragment, self.current_time) {
                        Some(bytes) => {
                            let data = SingleData { id: Some(id), tick, bytes };
                            self.buffer.insert(id.0, data);
                            assert(self@.buffer =~= old(self)@.buffer.insert(id.0, data@));
                        },
                        None => {},
                    }
                }
            },
        }
        assert(self@ =~= old(self)@.receive(content));
        Ok(())
    }

    /// Returns the next message.
    pub fn read_message(&mut self) -> (r: Option<SingleData>)
        ensures
            match r {
                Some(data) => {
                    let pending = old(self)@.pending;
                    &&& old(self)@.buffer.contains_key(pending.0)
                    &&& data@ == old(self)@.buffer[pending.0]
                    &&& final(self)@ == (OrderedModel {
                        pending: pending.successor(),
                        buffer: old(self)@.buffer.remove(pending.0),
                        ..old(self)@
                    })
                },
                None => !old(self)@.buffer.contains_key(old(self)@.pending.0) && final(self)@
                    == old(self)@,
            },
    {
        let id = self.pending_message_id;
        match self.buffer.remove(&id.0) {
            Some(data) => {
                self.pending_message_id = id.next();
                assert(self@.buffer =~= old(self)@.buffer.remove(id.0));
                Some(data)
            },
            None => {
                assert(self@.buffer =~= old(self)@.buffer);
                None
            },
        }
    }
}

/// The receiving end of a channel.
pub enum ChannelReceiver {
    Unordered(UnorderedReceiver),
    Ordered(OrderedReceiver),
}

/// Model of [`ChannelReceiver`].
#[verifier::ext_equal]
pub enum ReceiverModel {
    Unordered(UnorderedModel),
    Ordered(OrderedModel),
}

impl View for ChannelReceiver {
    type V = ReceiverModel;

    open spec fn view(&self) -> ReceiverModel {
        match self {
            ChannelReceiver::Unordered(receiver) => ReceiverModel::Unordered(receiver@),
            ChannelReceiver::Ordered(receiver) => ReceiverModel::Ordered(receiver@),
        }
    }
}

impl ReceiverModel {
    /// A receiver that received nothing.
    pub open spec fn initial(mode: ChannelMode) -> ReceiverModel {
        match mode {
            ChannelMode::OrderedReliable(_) => ReceiverModel::Ordered(OrderedModel::initial()),
            _ => ReceiverModel::Unordered(UnorderedModel::initial()),
        }
    }

    /// Every message that can be read has a tick.
    pub open spec fn wf(self) -> bool {
        match self {
            ReceiverModel::Unordered(model) => model.wf(),
            ReceiverModel::Ordered(model) => model.wf(),
        }
    }

    /// Whether the receiver serves channels of this mode.
    pub open spec fn serves(self, mode: ChannelMode) -> bool {
        self is Ordered <==> mode is OrderedReliable
    }

    /// The state at the time `now`.
    pub open spec fn update(self, now: Time) -> ReceiverModel {
        match self {
            ReceiverModel::Unordered(model) => ReceiverModel::Unordered(
                UnorderedModel { partial: without_stale(model.partial, now), now, ..model },
            ),
            ReceiverModel::Ordered(model) => ReceiverModel::Ordered(OrderedModel { now, ..model }),
        }
    }

    /// Why `message` is refused, if it is.
    pub open spec fn error(self, message: MessageModel) -> Option<ReceiveError> {
        match self {
            ReceiverModel::Unordered(_) => UnorderedModel::error(message),
            ReceiverModel::Ordered(_) => OrderedModel::error(message),
        }
    }

    /// The state after `message` came.
    pub open spec fn receive(self, message: MessageModel) -> ReceiverModel {
        match self {
            ReceiverModel::Unordered(model) => ReceiverModel::Unordered(model.receive(message)),
            ReceiverModel::Ordered(model) => ReceiverModel::Ordered(model.receive(message)),
        }
    }

    /// The messages that can be read, in order.
    pub open spec fn ready(self) -> Seq<SingleModel> {
        match self {
            ReceiverModel::Unordered(model) => model.ready,
            ReceiverModel::Ordered(model) => run(model.buffer, model.pending),
        }
    }

    /// The state after the next message was read.
    pub open spec fn read_one(self) -> ReceiverModel {
        match self {
            ReceiverModel::Unordered(model) => ReceiverModel::Unordered(
                UnorderedModel { ready: model.ready.drop_first(), ..model },
            ),
            ReceiverModel::Ordered(model) => ReceiverModel::Ordered(
                OrderedModel {
                    pending: model.pending.successor(),
                    buffer: model.buffer.remove(model.pending.0),
                    ..model
                },
            ),
        }
    }

    /// The state after `n` messages were read.
    pub open spec fn read(self, n: nat) -> ReceiverModel
        decreases n,
    {
        if n == 0 {
            self
        } else {
            self.read_one().read((n - 1) as nat)
        }
    }

    /// The state after all messages that could be read were read.
    pub open spec fn drained(self) -> ReceiverModel {
        self.read(self.ready().len())
    }
}

/// Reading takes the first of the messages that can be read, and keeps what was true.
pub proof fn lemma_read_one(receiver: ReceiverModel)
    requires
        receiver.wf(),
        receiver.ready().len() > 0,
    ensures
        receiver.read_one().wf(),
        receiver.read_one().ready() == receiver.ready().drop_first(),
        receiver.ready()[0].tick is Some,
{
    match receiver {
        ReceiverModel::Unordered(model) => {
            let after = model.ready.drop_first();
            assert forall|i: int| 0 <= i < after.len() implies (#[trigger] after[i]).tick is Some by {
                assert(after[i] == model.ready[i + 1]);
            }
        },
        ReceiverModel::Ordered(model) => {
            let rest = run(model.buffer.remove(model.pending.0), model.pending.successor());
            assert((seq![model.buffer[model.pending.0]] + rest).drop_first() =~= rest);
        },
    }
}

/// A message keeps the receiver in order.
pub proof fn lemma_receive_wf(receiver: ReceiverModel, message: MessageModel)
    requires
        receiver.wf(),
        message.tick() is Some,
    ensures
        receiver.receive(message).wf(),
{
}

/// The passing of time keeps the receiver in order.
pub proof fn lemma_update_wf(receiver: ReceiverModel, now: Time)
    requires
        receiver.wf(),
    ensures
        receiver.update(now).wf(),
        receiver.update(now).ready() == receiver.ready(),
{
}

impl ChannelReceiver {
    /// Returns a receiver for a channel of this mode.
    pub fn new(mode: &ChannelMode) -> (r: Self)
        ensures
            r@ == ReceiverModel::initial(*mode),
            r@.wf(),
            r@.serves(*mode),
    {
        match mode {
            ChannelMode::OrderedReliable(_) => ChannelReceiver::Ordered(OrderedReceiver::new()),
            ChannelMode::UnorderedUnreliable => ChannelReceiver::Unordered(UnorderedReceiver::new()),
            ChannelMode::UnorderedUnreliableWithAcks => ChannelReceiver::Unordered(
                UnorderedReceiver::new(),
            ),
        }
    }

    /// Takes note of the current time.
    pub fn update(&mut self, time_manager: &TimeManager, tick_manager: &TickManager)
        ensures
            final(self)@ == old(self)@.update(time_manager.current_time()),
    {
        let now = time_manager.get_current_time();
        match self {
            ChannelReceiver::Unordered(receiver) => receiver.update(now),
            ChannelReceiver::Ordered(receiver) => receiver.update(now),
        }
    }

    /// Takes a message that came.
    pub fn buffer_recv(&mut self, message: MessageContainer) -> (r: Result<(), ReceiveError>)
        ensures
            match old(self)@.error(message@) {
                Some(e) => r == Err::<(), ReceiveError>(e) && final(self)@ == old(self)@,
                None => r is Ok && final(self)@ == old(self)@.receive(message@),
            },
    {
        match self {
            ChannelReceiver::Unordered(receiver) => receiver.buffer_recv(message),
            ChannelReceiver::Ordered(receiver) => receiver.buffer_recv(message),
        }
    }

    /// Returns the next message that can be read.
    pub fn read_message(&mut self) -> (r: Option<SingleData>)
        requires
            old(self)@.wf(),
        ensures
            r is Some <==> old(self)@.ready().len() > 0,
            r matches Some(data) ==> {
                &&& data@ == old(self)@.ready()[0]
                &&& final(self)@ == old(self)@.read_one()
            },
            r is None ==> final(self)@ == old(self)@,
    {
        match self {
            ChannelReceiver::Unordered(receiver) => receiver.read_message(),
            ChannelReceiver::Ordered(receiver) => receiver.read_message(),
        }
    }
}

} // verus!
