//! Packets: a header and the messages of one or more channels.
use std::collections::VecDeque;
use vstd::bytes::*;
use vstd::prelude::*;

use crate::header::{lemma_take_header, take_header, PacketHeader, HEADER_BYTES};
use crate::ids::{NetId, Tick};
use crate::message::{lemma_take_message, take_message, MessageAck, MessageContainer, MessageModel};
use crate::model::{lemma_views_push, views};
use crate::serialize::{lemma_take_u16, read_u16, take_u16, write_u16, ReadBuffer, WriteBuffer};

verus! {

/// Length of the longest packet.
pub const MTU_PAYLOAD_BYTES: usize = 1198;

/// Number of bytes that the messages of a packet can take.
pub const PACKET_ROOM: usize = 1185;

/// A message, and the channel that it is for.
pub type Item = (NetId, MessageContainer);

/// A packet. The messages are listed channel by channel.
#[derive(Debug, PartialEq, Eq)]
pub struct Packet {
    pub header: PacketHeader,
    pub data: VecDeque<Item>,
}

/// Model of [`Packet`].
#[verifier::ext_equal]
pub struct PacketModel {
    pub header: PacketHeader,
    pub data: Seq<(NetId, MessageModel)>,
}

impl View for Packet {
    type V = PacketModel;

    open spec fn view(&self) -> PacketModel {
        PacketModel { header: self.header, data: views(self.data@) }
    }
}

/// One message of a packet on the wire.
pub open spec fn item_wire(item: (NetId, MessageModel)) -> Seq<u8> {
    spec_u16_to_le_bytes(item.0) + item.1.wire()
}

/// Number of bytes of a message of a packet on the wire.
pub open spec fn item_len(item: (NetId, MessageModel)) -> nat {
    2 + item.1.wire_len()
}

/// The messages of a packet on the wire.
pub open spec fn items_wire(items: Seq<(NetId, MessageModel)>) -> Seq<u8>
    decreases items.len(),
{
    if items.len() == 0 {
        Seq::empty()
    } else {
        item_wire(items[0]) + items_wire(items.drop_first())
    }
}

/// Number of bytes of the messages of a packet on the wire.
pub open spec fn items_len(items: Seq<(NetId, MessageModel)>) -> nat
    decreases items.len(),
{
    if items.len() == 0 {
        0
    } else {
        items_len(items.drop_last()) + item_len(items.last())
    }
}

/// Whether the messages are listed channel by channel, in the order of the channels' net ids.
pub open spec fn by_channel(items: Seq<(NetId, MessageModel)>) -> bool {
    forall|i: int, j: int|
        0 <= i <= j < items.len() ==> (#[trigger] items[i]).0 <= (#[trigger] items[j]).0
}

/// Whether every message can be put in a packet.
pub open spec fn all_sendable(items: Seq<(NetId, MessageModel)>) -> bool {
    forall|i: int| 0 <= i < items.len() ==> (#[trigger] items[i]).1.sendable()
}

/// The acknowledgements that `items` ask for, in order, each with its channel.
pub open spec fn items_acks(items: Seq<(NetId, MessageModel)>) -> Seq<(NetId, MessageAck)>
    decreases items.len(),
{
    if items.len() == 0 {
        Seq::empty()
    } else {
        let rest = items_acks(items.drop_last());
        match items.last().1.ack() {
            Some(ack) => rest.push((items.last().0, ack)),
            None => rest,
        }
    }
}

impl PacketModel {
    /// Whether the packet can be sent.
    pub open spec fn wf(self) -> bool {
        &&& by_channel(self.data)
        &&& all_sendable(self.data)
        &&& items_len(self.data) <= PACKET_ROOM
    }

    /// The packet on the wire.
    pub open spec fn wire(self) -> Seq<u8> {
        self.header.wire() + (spec_u16_to_le_bytes(self.data.len() as u16) + items_wire(self.data))
    }
}

/// Takes `n` messages off the front of `s`.
pub open spec fn take_items(s: Seq<u8>, n: nat) -> Option<(Seq<(NetId, MessageModel)>, Seq<u8>)>
    decreases n,
{
    if n == 0 {
        Some((Seq::empty(), s))
    } else {
        match take_u16(s) {
            None => None,
            Some((net_id, s1)) => match take_message(s1) {
                None => None,
                Some((m, s2)) => match take_items(s2, (n - 1) as nat) {
                    None => None,
                    Some((items, t)) => Some((seq![(net_id, m)] + items, t)),
                },
            },
        }
    }
}

/// Takes a packet off the front of `s`.
pub open spec fn take_packet(s: Seq<u8>) -> Option<(PacketModel, Seq<u8>)> {
    match take_header(s) {
        None => None,
        Some((header, s1)) => match take_u16(s1) {
            None => None,
            Some((n, s2)) => match take_items(s2, n as nat) {
                None => None,
                Some((data, t)) => if by_channel(data) {
                    Some((PacketModel { header, data }, t))
                } else {
                    None
                },
            },
        },
    }
}

/// Every message takes room in its packet.
pub proof fn lemma_items_len_bound(items: Seq<(NetId, MessageModel)>)
    ensures
        items.len() <= items_len(items),
    decreases items.len(),
{
    if items.len() > 0 {
        lemma_items_len_bound(items.drop_last());
    }
}

/// The room that messages take can be counted from the front.
pub proof fn lemma_items_len_first(items: Seq<(NetId, MessageModel)>)
    requires
        items.len() > 0,
    ensures
        items_len(items) == item_len(items[0]) + items_len(items.drop_first()),
    decreases items.len(),
{
    if items.len() > 1 {
        lemma_items_len_first(items.drop_last());
        assert(items.drop_last().drop_first() =~= items.drop_first().drop_last());
    } else {
        assert(items.drop_first() =~= Seq::empty());
        assert(items.drop_last() =~= Seq::empty());
    }
}

/// Reading messages off the wire gives back the messages that were written.
pub proof fn lemma_take_items(items: Seq<(NetId, MessageModel)>, t: Seq<u8>)
    requires
        all_sendable(items),
    ensures
        items_wire(items).len() == items_len(items),
        take_items(items_wire(items) + t, items.len()) == Some((items, t)),
    decreases items.len(),
{
    if items.len() == 0 {
        assert(items_wire(items) + t =~= t);
        assert(items =~= Seq::empty());
    } else {
        let rest = items.drop_first();
        let n = spec_u16_to_le_bytes(items[0].0);
        let m = items[0].1.wire();
        let w = items_wire(rest);
        assert(all_sendable(rest)) by {
            assert forall|i: int| 0 <= i < rest.len() implies (#[trigger] rest[i]).1.sendable() by {
                assert(rest[i] == items[i + 1]);
            }
        }
        lemma_take_items(rest, t);
        lemma_items_len_first(items);
        assert(items_wire(items) + t =~= n + (m + (w + t)));
        lemma_take_u16(items[0].0, m + (w + t));
        lemma_take_message(items[0].1, w + t);
        assert(seq![items[0]] + rest =~= items);
    }
}

/// Reading a packet off the wire gives back the packet that was written, and leaves what is
/// behind it. A packet is never longer than [`MTU_PAYLOAD_BYTES`].
pub proof fn lemma_take_packet(p: PacketModel, t: Seq<u8>)
    requires
        p.wf(),
    ensures
        take_packet(p.wire() + t) == Some((p, t)),
        p.wire().len() == HEADER_BYTES + 2 + items_len(p.data),
        p.wire().len() <= MTU_PAYLOAD_BYTES,
{
    let n = spec_u16_to_le_bytes(p.data.len() as u16);
    let w = items_wire(p.data);
    lemma_items_len_bound(p.data);
    assert(p.wire() + t =~= p.header.wire() + (n + (w + t)));
    lemma_take_header(p.header, n + (w + t));
    lemma_take_u16(p.data.len() as u16, w + t);
    lemma_take_items(p.data, t);
}

impl Packet {
    /// Returns the header.
    pub fn header(&self) -> (r: &PacketHeader)
        ensures
            *r == self@.header,
    {
        &self.header
    }

    /// Sets the tick of the packet.
    pub fn set_tick(&mut self, tick: Tick)
        ensures
            final(self)@ == (PacketModel {
                header: PacketHeader { tick, ..old(self)@.header },
                data: old(self)@.data,
            }),
    {
        self.header.tick = tick;
    }

    /// Returns the acknowledgements that the packet asks for, each with its channel.
    pub fn message_acks(&self) -> (r: Vec<(NetId, MessageAck)>)
        ensures
            r@ == items_acks(self@.data),
    {
        let mut acks: Vec<(NetId, MessageAck)> = Vec::new();
        let mut i: usize = 0;
        assert(self@.data.take(0) =~= Seq::empty());
        while i < self.data.len()
            invariant
                i <= self.data@.len(),
                acks@ == items_acks(self@.data.take(i as int)),
            decreases self.data@.len() - i,
        {
            proof {
                assert(self@.data.take(i + 1).drop_last() =~= self@.data.take(i as int));
                assert(self@.data.take(i + 1).last() == self.data@[i as int]@);
            }
            match self.data[i].1.message_ack() {
                Some(ack) => {
                    acks.push((self.data[i].0, ack));
                },
                None => {},
            }
            i = i + 1;
        }
        assert(self@.data.take(i as int) =~= self@.data);
        acks
    }

    /// Writes the packet.
    pub fn encode<W: WriteBuffer>(&self, writer: &mut W)
        requires
            self@.wf(),
        ensures
            final(writer).written() == old(writer).written() + self@.wire(),
    {
        proof {
            lemma_items_len_bound(self@.data);
        }
        self.header.encode(writer);
        write_u16(writer, self.data.len() as u16);
        let ghost start = writer.written();
        let mut i: usize = 0;
        assert(self@.data.skip(0) =~= self@.data);
        while i < self.data.len()
            invariant
                i <= self.data@.len(),
                self@.wf(),
                writer.written() + items_wire(self@.data.skip(i as int)) == start + items_wire(
                    self@.data,
                ),
            decreases self.data@.len() - i,
        {
            let ghost before = writer.written();
            let ghost rest = self@.data.skip(i as int);
            proof {
                assert(rest[0] == self@.data[i as int]);
                assert(rest.drop_first() =~= self@.data.skip(i + 1));
            }
            write_u16(writer, self.data[i].0);
            self.data[i].1.encode(writer);
            assert(writer.written() + items_wire(self@.data.skip(i + 1)) =~= before + items_wire(
                rest,
            ));
            i = i + 1;
        }
        assert(self@.data.skip(i as int) =~= Seq::empty());
        assert(writer.written() =~= old(writer).written() + self@.wire());
    }

    /// Reads a packet.
    pub fn decode<R: ReadBuffer>(reader: &mut R) -> (r: Option<Packet>)
        ensures
            match take_packet(old(reader).remaining()) {
                Some((p, t)) => r is Some && r.unwrap()@ == p && final(reader).remaining() == t,
                None => r is None,
            },
    {
        let header = PacketHeader::decode(reader)?;
        let n = read_u16(reader)?;
        let ghost start = reader.remaining();
        let mut data: VecDeque<Item> = VecDeque::new();
        let mut ordered: bool = true;
        let mut i: u16 = 0;
        assert(views(data@) =~= Seq::empty());
        assert(match take_items(start, n as nat) {
            None => true,
            Some((items, t)) => views(data@) + items =~= items,
        });
        while i < n
            invariant
                i <= n,
                data@.len() == i,
                take_items(start, n as nat) == match take_items(
                    reader.remaining(),
                    (n - i) as nat,
                ) {
                    None => None,
                    Some((items, t)) => Some((views(data@) + items, t)),
                },
                ordered == by_channel(views(data@)),
                take_header(old(reader).remaining()) is Some,
                take_header(old(reader).remaining()).unwrap().0 == header,
                take_u16(take_header(old(reader).remaining()).unwrap().1) == Some((n, start)),
            decreases n - i,
        {
            let ghost s = reader.remaining();
            let net_id = read_u16(reader)?;
            let m = MessageContainer::decode(reader)?;
            if data.len() > 0 && net_id < data[data.len() - 1].0 {
                ordered = false;
            }
            let ghost before = data@;
            let item: Item = (net_id, m);
            data.push_back(item);
            proof {
                lemma_views_push(before, item);
                let prev = views(before);
                let next = views(data@);
                assert(next == prev.push((net_id, m@)));
                if prev.len() > 0 {
                    assert(prev[prev.len() - 1].0 == before[before.len() - 1].0);
                }
                if ordered {
                    assert forall|a: int, b: int| 0 <= a <= b < next.len() implies (
                    #[trigger] next[a]).0 <= (#[trigger] next[b]).0 by {
                        if a < prev.len() {
                            assert(prev[a].0 <= prev[prev.len() - 1].0);
                            if b < prev.len() {
                                assert(prev[a].0 <= prev[b].0);
                            }
                        }
                    }
                } else if by_channel(next) {
                    assert forall|a: int, b: int| 0 <= a <= b < prev.len() implies (
                    #[trigger] prev[a]).0 <= (#[trigger] prev[b]).0 by {
                        assert(next[a] == prev[a] && next[b] == prev[b]);
                    }
                    assert(next[prev.len() - 1].0 <= next[prev.len() as int].0);
                    assert(false);
                }
                match take_items(reader.remaining(), (n - i - 1) as nat) {
                    None => {},
                    Some((items, t)) => {
                        assert(prev + (seq![(net_id, m@)] + items) =~= next + items);
                    },
                }
            }
            i = i + 1;
        }
        proof {
            assert(views(data@) + Seq::<(NetId, MessageModel)>::empty() =~= views(data@));
        }
        if ordered {
            Some(Packet { header, data })
        } else {
            None
        }
    }
}

} // verus!
