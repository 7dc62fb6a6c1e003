//! Messages, their fragments, and how both look on the wire.
use std::collections::VecDeque;
use vstd::bytes::*;
use vstd::prelude::*;

use crate::ids::{FragmentIndex, MessageId, Tick};
use crate::model::{lemma_views_push, views};
use crate::serialize::{
    chunk_bytes, lemma_take_chunk, lemma_take_u16, lemma_take_u64, lemma_take_u8, read_chunk,
    read_u16, read_u64, read_u8, take_chunk, take_u16, take_u64, take_u8, write_chunk, write_u16,
    write_u64, write_u8, ReadBuffer, WriteBuffer,
};

verus! {

/// Length of the longest message that travels in one piece, and of every fragment but the last.
pub const FRAGMENT_SIZE: usize = 1150;

/// What a packet carried of a message: the whole message, or one fragment of it.
#[derive(Clone, Copy, Debug, PartialEq, Eq)]
pub struct MessageAck {
    pub message_id: MessageId,
    pub fragment_id: Option<FragmentIndex>,
}

/// A message in one piece.
#[derive(Debug, PartialEq, Eq)]
pub struct SingleData {
    /// Absent on channels that do not number their messages.
    pub id: Option<MessageId>,
    /// Tick of the packet that the message came in. Does not travel with the message.
    pub tick: Option<Tick>,
    pub bytes: Vec<u8>,
}

/// A piece of a message that is too long for one packet.
#[derive(Debug, PartialEq, Eq)]
pub struct FragmentData {
    pub message_id: MessageId,
    /// Tick of the packet that the fragment came in. Does not travel with the fragment.
    pub tick: Option<Tick>,
    pub fragment_id: FragmentIndex,
    pub num_fragments: FragmentIndex,
    pub bytes: Vec<u8>,
}

/// What a packet carries for a channel.
#[derive(Debug, PartialEq, Eq)]
pub enum MessageContainer {
    Single(SingleData),
    Fragment(FragmentData),
}

/// Model of [`SingleData`].
#[verifier::ext_equal]
pub struct SingleModel {
    pub id: Option<MessageId>,
    pub tick: Option<Tick>,
    pub bytes: Seq<u8>,
}

/// Model of [`FragmentData`].
#[verifier::ext_equal]
pub struct FragmentModel {
    pub message_id: MessageId,
    pub tick: Option<Tick>,
    pub fragment_id: FragmentIndex,
    pub num_fragments: FragmentIndex,
    pub bytes: Seq<u8>,
}

/// Model of [`MessageContainer`].
#[verifier::ext_equal]
pub enum MessageModel {
    Single(SingleModel),
    Fragment(FragmentModel),
}

impl View for SingleData {
    type V = SingleModel;

    open spec fn view(&self) -> SingleModel {
        SingleModel { id: self.id, tick: self.tick, bytes: self.bytes@ }
    }
}

impl View for FragmentData {
    type V = FragmentModel;

    open spec fn view(&self) -> FragmentModel {
        FragmentModel {
            message_id: self.message_id,
            tick: self.tick,
            fragment_id: self.fragment_id,
            num_fragments: self.num_fragments,
            bytes: self.bytes@,
        }
    }
}

impl View for MessageContainer {
    type V = MessageModel;

    open spec fn view(&self) -> MessageModel {
        match self {
            MessageContainer::Single(data) => MessageModel::Single(data@),
            MessageContainer::Fragment(data) => MessageModel::Fragment(data@),
        }
    }
}

impl Clone for SingleData {
    fn clone(&self) -> (r: Self)
        ensures
            r@ == self@,
    {
        let bytes = self.bytes.clone();
        assert(bytes@ =~= self.bytes@);
        SingleData { id: self.id, tick: self.tick, bytes }
    }
}

impl Clone for FragmentData {
    fn clone(&self) -> (r: Self)
        ensures
            r@ == self@,
    {
        let bytes = self.bytes.clone();
        assert(bytes@ =~= self.bytes@);
        FragmentData {
            message_id: self.message_id,
            tick: self.tick,
            fragment_id: self.fragment_id,
            num_fragments: self.num_fragments,
            bytes,
        }
    }
}

impl Clone for MessageContainer {
    fn clone(&self) -> (r: Self)
        ensures
            r@ == self@,
    {
        match self {
            MessageContainer::Single(data) => MessageContainer::Single(data.clone()),
            MessageContainer::Fragment(data) => MessageContainer::Fragment(data.clone()),
        }
    }
}

impl MessageModel {
    pub open spec fn tick(self) -> Option<Tick> {
        match self {
            MessageModel::Single(data) => data.tick,
            MessageModel::Fragment(data) => data.tick,
        }
    }

    pub open spec fn bytes(self) -> Seq<u8> {
        match self {
            MessageModel::Single(data) => data.bytes,
            MessageModel::Fragment(data) => data.bytes,
        }
    }

    /// The message as it is after it came in with a packet of this tick.
    pub open spec fn stamped(self, tick: Tick) -> MessageModel {
        match self {
            MessageModel::Single(data) => MessageModel::Single(
                SingleModel { tick: Some(tick), ..data },
            ),
            MessageModel::Fragment(data) => MessageModel::Fragment(
                FragmentModel { tick: Some(tick), ..data },
            ),
        }
    }

    /// What the remote acknowledges when it receives this, if the message has an id.
    pub open spec fn ack(self) -> Option<MessageAck> {
        match self {
            MessageModel::Single(data) => match data.id {
                Some(id) => Some(MessageAck { message_id: id, fragment_id: None }),
                None => None,
            },
            MessageModel::Fragment(data) => Some(
                MessageAck { message_id: data.message_id, fragment_id: Some(data.fragment_id) },
            ),
        }
    }

    /// Whether the message can be put in a packet: no tick yet, short enough, and inside of the
    /// message that it is a fragment of.
    pub open spec fn sendable(self) -> bool {
        &&& self.tick() is None
        &&& self.bytes().len() <= FRAGMENT_SIZE
        &&& self matches MessageModel::Fragment(data) ==> data.fragment_id < data.num_fragments
    }

    /// The message on the wire.
    pub open spec fn wire(self) -> Seq<u8> {
        match self {
            MessageModel::Single(data) => match data.id {
                None => seq![0u8] + chunk_bytes(data.bytes),
                Some(id) => seq![1u8] + (spec_u16_to_le_bytes(id.0) + chunk_bytes(data.bytes)),
            },
            MessageModel::Fragment(data) => seq![2u8] + (spec_u16_to_le_bytes(data.message_id.0) + (
            spec_u64_to_le_bytes(data.fragment_id) + (spec_u64_to_le_bytes(data.num_fragments)
                + chunk_bytes(data.bytes)))),
        }
    }

    /// Number of bytes of the message on the wire.
    pub open spec fn wire_len(self) -> nat {
        match self {
            MessageModel::Single(data) => match data.id {
                None => 3 + data.bytes.len(),
                Some(_) => 5 + data.bytes.len(),
            },
            MessageModel::Fragment(data) => 21 + data.bytes.len(),
        }
    }
}

/// Takes a message off the front of `s`.
pub open spec fn take_message(s: Seq<u8>) -> Option<(MessageModel, Seq<u8>)> {
    match take_u8(s) {
        None => None,
        Some((tag, s1)) => if tag == 0 {
            match take_chunk(s1) {
                None => None,
                Some((bytes, t)) => Some(
                    (MessageModel::Single(SingleModel { id: None, tick: None, bytes }), t),
                ),
            }
        } else if tag == 1 {
            match take_u16(s1) {
                None => None,
                Some((id, s2)) => match take_chunk(s2) {
                    None => None,
                    Some((bytes, t)) => Some(
                        (
                            MessageModel::Single(
                                SingleModel { id: Some(MessageId(id)), tick: None, bytes },
                            ),
                            t,
                        ),
                    ),
                },
            }
        } else if tag == 2 {
            match take_u16(s1) {
                None => None,
                Some((id, s2)) => match take_u64(s2) {
                    None => None,
                    Some((fragment_id, s3)) => match take_u64(s3) {
                        None => None,
                        Some((num_fragments, s4)) => match take_chunk(s4) {
                            None => None,
                            Some((bytes, t)) => Some(
                                (
                                    MessageModel::Fragment(
                                        FragmentModel {
                                            message_id: MessageId(id),
                                            tick: None,
                                            fragment_id,
                                            num_fragments,
                                            bytes,
                                        },
                                    ),
                                    t,
                                ),
                            ),
                        },
                    },
                },
            }
        } else {
            None
        },
    }
}

/// Reading a message off the wire gives back the message that was written.
pub proof fn lemma_take_message(m: MessageModel, t: Seq<u8>)
    requires
        m.sendable(),
    ensures
        m.wire().len() == m.wire_len(),
        take_message(m.wire() + t) == Some((m, t)),
{
    let c = chunk_bytes(m.bytes());
    lemma_take_chunk(m.bytes(), t);
    match m {
        MessageModel::Single(data) => match data.id {
            None => {
                assert(m.wire() + t =~= seq![0u8] + (c + t));
                lemma_take_u8(0, c + t);
            },
            Some(id) => {
                let i = spec_u16_to_le_bytes(id.0);
                assert(m.wire() + t =~= seq![1u8] + (i + (c + t)));
                lemma_take_u8(1, i + (c + t));
                lemma_take_u16(id.0, c + t);
            },
        },
        MessageModel::Fragment(data) => {
            let i = spec_u16_to_le_bytes(data.message_id.0);
            let f = spec_u64_to_le_bytes(data.fragment_id);
            let n = spec_u64_to_le_bytes(data.num_fragments);
            assert(m.wire() + t =~= seq![2u8] + (i + (f + (n + (c + t)))));
            lemma_take_u8(2, i + (f + (n + (c + t))));
            lemma_take_u16(data.message_id.0, f + (n + (c + t)));
            lemma_take_u64(data.fragment_id, n + (c + t));
            lemma_take_u64(data.num_fragments, c + t);
        },
    }
}

impl MessageContainer {
    /// Records the tick of the packet that the message came in.
    pub fn set_tick(&mut self, tick: Tick)
        ensures
            final(self)@ == old(self)@.stamped(tick),
    {
        match self {
            MessageContainer::Single(data) => {
                data.tick = Some(tick);
            },
            MessageContainer::Fragment(data) => {
                data.tick = Some(tick);
            },
        }
    }

    /// Returns what the remote acknowledges when it receives this, if the message has an id.
    pub fn message_ack(&self) -> (r: Option<MessageAck>)
        ensures
            r == self@.ack(),
    {
        match self {
            MessageContainer::Single(data) => match data.id {
                Some(id) => Some(MessageAck { message_id: id, fragment_id: None }),
                None => None,
            },
            MessageContainer::Fragment(data) => Some(
                MessageAck { message_id: data.message_id, fragment_id: Some(data.fragment_id) },
            ),
        }
    }

    /// Returns the number of bytes of the message on the wire.
    pub fn num_bytes(&self) -> (r: usize)
        requires
            self@.sendable(),
        ensures
            r == self@.wire_len(),
    {
        match self {
            MessageContainer::Single(data) => match data.id {
                None => 3 + data.bytes.len(),
                Some(_) => 5 + data.bytes.len(),
            },
            MessageContainer::Fragment(data) => 21 + data.bytes.len(),
        }
    }

    /// Writes the message.
    pub fn encode<W: WriteBuffer>(&self, writer: &mut W)
        requires
            self@.sendable(),
        ensures
            final(writer).written() == old(writer).written() + self@.wire(),
    {
        match self {
            MessageContainer::Single(data) => {
                match data.id {
                    None => write_u8(writer, 0),
                    Some(id) => {
                        write_u8(writer, 1);
                        write_u16(writer, id.0);
                    },
                }
                write_chunk(writer, data.bytes.as_slice());
            },
            MessageContainer::Fragment(data) => {
                write_u8(writer, 2);
                write_u16(writer, data.message_id.0);
                write_u64(writer, data.fragment_id);
                write_u64(writer, data.num_fragments);
                write_chunk(writer, data.bytes.as_slice());
            },
        }
        assert(writer.written() =~= old(writer).written() + self@.wire());
    }

    /// Reads a message.
    pub fn decode<R: ReadBuffer>(reader: &mut R) -> (r: Option<MessageContainer>)
        ensures
            match take_message(old(reader).remaining()) {
                Some((m, t)) => r is Some && r.unwrap()@ == m && final(reader).remaining() == t,
                None => r is None,
            },
    {
        let tag = read_u8(reader)?;
        if tag == 0 {
            let bytes = read_chunk(reader)?;
            Some(MessageContainer::Single(SingleData { id: None, tick: None, bytes }))
        } else if tag == 1 {
            let id = read_u16(reader)?;
            let bytes = read_chunk(reader)?;
            Some(
                MessageContainer::Single(
                    SingleData { id: Some(MessageId(id)), tick: None, bytes },
                ),
            )
        } else if tag == 2 {
            let id = read_u16(reader)?;
            let fragment_id = read_u64(reader)?;
            let num_fragments = read_u64(reader)?;
            let bytes = read_chunk(reader)?;
            Some(
                MessageContainer::Fragment(
                    FragmentData {
                        message_id: MessageId(id),
                        tick: None,
                        fragment_id,
                        num_fragments,
                        bytes,
                    },
                ),
            )
        } else {
            None
        }
    }
}

// ---------------------------------------------------------------------------------------
// Cutting long messages
// ---------------------------------------------------------------------------------------

/// Number of fragments that a message of this length is cut into.
pub open spec fn fragment_count(len: nat) -> nat {
    ((len + FRAGMENT_SIZE - 1) / FRAGMENT_SIZE as int) as nat
}

/// The bytes of fragment `i` of a message.
pub open spec fn fragment_bytes(bytes: Seq<u8>, i: int) -> Seq<u8> {
    let end = (i + 1) * FRAGMENT_SIZE;
    bytes.subrange(
        i * FRAGMENT_SIZE,
        if end <= bytes.len() {
            end
        } else {
            bytes.len() as int
        },
    )
}

/// What is sent for a message: the message itself, or its fragments where it is too long.
pub open spec fn pieces(id: Option<MessageId>, bytes: Seq<u8>) -> Seq<MessageModel> {
    if bytes.len() <= FRAGMENT_SIZE {
        seq![MessageModel::Single(SingleModel { id, tick: None, bytes })]
    } else {
        Seq::new(
            fragment_count(bytes.len()),
            |i: int|
                MessageModel::Fragment(
                    FragmentModel {
                        message_id: id.unwrap(),
                        tick: None,
                        fragment_id: i as u64,
                        num_fragments: fragment_count(bytes.len()) as u64,
                        bytes: fragment_bytes(bytes, i),
                    },
                ),
        )
    }
}

/// Where the fragments of a message begin and end.
pub proof fn lemma_fragment_range(len: nat, i: int)
    requires
        0 <= i < fragment_count(len),
    ensures
        0 <= i * FRAGMENT_SIZE < len,
        i < fragment_count(len) - 1 ==> (i + 1) * FRAGMENT_SIZE <= len,
        i == fragment_count(len) - 1 ==> (i + 1) * FRAGMENT_SIZE >= len,
{
}

/// Every piece of a message can be put in a packet, and carries the message's id.
pub proof fn lemma_pieces_sendable(id: Option<MessageId>, bytes: Seq<u8>)
    requires
        bytes.len() > FRAGMENT_SIZE ==> id is Some,
        bytes.len() <= usize::MAX,
    ensures
        pieces(id, bytes).len() > 0,
        forall|i: int|
            0 <= i < pieces(id, bytes).len() ==> (#[trigger] pieces(id, bytes)[i]).sendable(),
{
    assert forall|i: int| 0 <= i < pieces(id, bytes).len() implies (#[trigger] pieces(
        id,
        bytes,
    )[i]).sendable() by {
        if bytes.len() > FRAGMENT_SIZE {
            lemma_fragment_range(bytes.len(), i);
        }
    }
}

/// Returns the number of fragments that a message of this length is cut into.
pub fn count_fragments(len: usize) -> (r: usize)
    ensures
        r == fragment_count(len as nat),
{
    let rest: usize = len % FRAGMENT_SIZE;
    if rest == 0 {
        len / FRAGMENT_SIZE
    } else {
        len / FRAGMENT_SIZE + 1
    }
}

/// Cuts a message into what is sent for it.
pub fn cut(id: Option<MessageId>, bytes: Vec<u8>) -> (r: VecDeque<MessageContainer>)
    requires
        bytes@.len() > FRAGMENT_SIZE ==> id is Some,
    ensures
        views(r@) == pieces(id, bytes@),
{
    let mut r: VecDeque<MessageContainer> = VecDeque::new();
    let len = bytes.len();
    if len <= FRAGMENT_SIZE {
        r.push_back(MessageContainer::Single(SingleData { id, tick: None, bytes }));
        assert(views(r@) =~= pieces(id, bytes@));
        return r;
    }
    let message_id = id.unwrap();
    let count: usize = count_fragments(len);
    let mut i: usize = 0;
    while i < count
        invariant
            len == bytes@.len(),
            len > FRAGMENT_SIZE,
            id == Some(message_id),
            count == fragment_count(bytes@.len()),
            i <= count,
            views(r@) == pieces(id, bytes@).take(i as int),
        decreases count - i,
    {
        proof {
            lemma_fragment_range(bytes@.len(), i as int);
        }
        let start: usize = i * FRAGMENT_SIZE;
        let end: usize = if len - start > FRAGMENT_SIZE {
            start + FRAGMENT_SIZE
        } else {
            len
        };
        let data = FragmentData {
            message_id,
            tick: None,
            fragment_id: i as u64,
            num_fragments: count as u64,
            bytes: vstd::slice::slice_to_vec(
                vstd::slice::slice_subrange(bytes.as_slice(), start, end),
            ),
        };
        assert(data.bytes@ =~= fragment_bytes(bytes@, i as int));
        let piece = MessageContainer::Fragment(data);
        let ghost before = r@;
        r.push_back(piece);
        proof {
            lemma_views_push(before, piece);
            assert(piece@ == pieces(id, bytes@)[i as int]);
            assert(views(r@) =~= pieces(id, bytes@).take(i + 1));
        }
        i = i + 1;
    }
    assert(views(r@) =~= pieces(id, bytes@));
    r
}

} // verus!
