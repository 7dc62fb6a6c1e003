//! Packing messages into packets.
use std::collections::VecDeque;
use vstd::prelude::*;

use crate::header::{HeaderModel, PacketHeaderManager};
use crate::ids::{NetId, Tick};
use crate::message::MessageModel;
use crate::model::{lemma_views_push, views};
use crate::packet::{
    all_sendable, by_channel, item_len, items_len, take_packet, Item, Packet, PacketModel,
    MTU_PAYLOAD_BYTES, PACKET_ROOM,
};
use crate::serialize::{ReadBuffer, WriteBuffer, WriteWordBuffer};

verus! {

/// The bytes of a packet.
pub type Payload = Vec<u8>;

/// Room that buffers are made with.
pub const PACKET_BUFFER_CAPACITY: usize = MTU_PAYLOAD_BYTES;

/// Builds packets, and keeps track of which of them arrived.
pub struct PacketBuilder {
    pub header_manager: PacketHeaderManager,
    pub write_buffer: WriteWordBuffer,
}

/// Packs `items` into packets: a packet that holds `current` takes messages in order, and is
/// closed when the next one does not fit.
pub open spec fn pack_from(
    current: Seq<(NetId, MessageModel)>,
    items: Seq<(NetId, MessageModel)>,
) -> Seq<Seq<(NetId, MessageModel)>>
    decreases items.len(),
{
    if items.len() == 0 {
        if current.len() == 0 {
            Seq::empty()
        } else {
            seq![current]
        }
    } else if current.len() > 0 && items_len(current) + item_len(items[0]) > PACKET_ROOM {
        seq![current] + pack_from(seq![items[0]], items.drop_first())
    } else {
        pack_from(current.push(items[0]), items.drop_first())
    }
}

/// Packs `items` into packets, in order.
pub open spec fn pack(items: Seq<(NetId, MessageModel)>) -> Seq<Seq<(NetId, MessageModel)>> {
    pack_from(Seq::empty(), items)
}

/// The packets that carry `chunks` when they are sent one after the other from `header`.
pub open spec fn numbered(
    header: HeaderModel,
    chunks: Seq<Seq<(NetId, MessageModel)>>,
    tick: Tick,
) -> Seq<PacketModel> {
    Seq::new(
        chunks.len(),
        |k: int|
            PacketModel { header: header.sent(k as nat).next_header(tick), data: chunks[k] },
    )
}

/// Whether every chunk can be the content of a packet.
pub open spec fn chunks_wf(chunks: Seq<Seq<(NetId, MessageModel)>>) -> bool {
    forall|k: int|
        0 <= k < chunks.len() ==> {
            let chunk = #[trigger] chunks[k];
            &&& chunk.len() > 0
            &&& by_channel(chunk)
            &&& all_sendable(chunk)
            &&& items_len(chunk) <= PACKET_ROOM
        }
}

/// Packing loses, adds and moves nothing, and every packet is within its limits.
pub proof fn lemma_pack_from(
    current: Seq<(NetId, MessageModel)>,
    items: Seq<(NetId, MessageModel)>,
)
    requires
        by_channel(current + items),
        all_sendable(current + items),
        items_len(current) <= PACKET_ROOM,
    ensures
        pack_from(current, items).flatten() == current + items,
        chunks_wf(pack_from(current, items)),
    decreases items.len(),
{
    let all = current + items;
    assert forall|i: int| 0 <= i < current.len() implies #[trigger] current[i] == all[i] by {}
    assert forall|i: int| 0 <= i < items.len() implies #[trigger] items[i] == all[i
        + current.len()] by {}
    assert(by_channel(current));
    assert(all_sendable(current));
    if items.len() == 0 {
        if current.len() == 0 {
            assert(Seq::<Seq<(NetId, MessageModel)>>::empty().flatten() =~= all);
        } else {
            let c = seq![current];
            assert(c.drop_first() =~= Seq::<Seq<(NetId, MessageModel)>>::empty());
            c.lemma_flatten_one_element();
            assert(all =~= current);
        }
    } else {
        let rest = items.drop_first();
        assert(items[0].1.sendable());
        if current.len() > 0 && items_len(current) + item_len(items[0]) > PACKET_ROOM {
            let next = seq![items[0]];
            assert(next + rest =~= items);
            assert(by_channel(items)) by {
                assert forall|i: int, j: int| 0 <= i <= j < items.len() implies (
                #[trigger] items[i]).0 <= (#[trigger] items[j]).0 by {
                    assert(all[i + current.len()].0 <= all[j + current.len()].0);
                }
            }
            assert(next.drop_last() =~= Seq::empty());
            assert(items_len(next) == item_len(items[0])) by {
                reveal_with_fuel(items_len, 2);
            }
            lemma_pack_from(next, rest);
            let tail = pack_from(next, rest);
            let c = seq![current] + tail;
            assert(c.drop_first() =~= tail);
            assert(c.first() == current);
            assert(c.flatten() =~= all);
            assert forall|k: int| 0 <= k < c.len() implies {
                let chunk = #[trigger] c[k];
                &&& chunk.len() > 0
                &&& by_channel(chunk)
                &&& all_sendable(chunk)
                &&& items_len(chunk) <= PACKET_ROOM
            } by {
                if k > 0 {
                    assert(c[k] == tail[k - 1]);
                }
            }
        } else {
            let next = current.push(items[0]);
            assert(next + rest =~= all);
            assert(next.drop_last() =~= current);
            if current.len() == 0 {
                assert(items_len(current) == 0);
            }
            lemma_pack_from(next, rest);
        }
    }
}

/// Packing loses, adds and moves nothing, and every packet is within its limits.
pub proof fn lemma_pack(items: Seq<(NetId, MessageModel)>)
    requires
        by_channel(items),
        all_sendable(items),
    ensures
        pack(items).flatten() == items,
        chunks_wf(pack(items)),
{
    assert(Seq::<(NetId, MessageModel)>::empty() + items =~= items);
    lemma_pack_from(Seq::empty(), items);
}

/// The first message of a packet that holds `current` is that of `current`.
proof fn lemma_pack_first(current: Seq<(NetId, MessageModel)>, items: Seq<(NetId, MessageModel)>)
    requires
        current.len() > 0,
    ensures
        pack_from(current, items).len() > 0,
        pack_from(current, items)[0].len() > 0,
        pack_from(current, items)[0][0] == current[0],
    decreases items.len(),
{
    if items.len() > 0 && items_len(current) + item_len(items[0]) <= PACKET_ROOM {
        lemma_pack_first(current.push(items[0]), items.drop_first());
    }
}

proof fn lemma_pack_from_full(
    current: Seq<(NetId, MessageModel)>,
    items: Seq<(NetId, MessageModel)>,
)
    ensures
        forall|k: int|
            0 <= k < pack_from(current, items).len() - 1 ==> items_len(
                #[trigger] pack_from(current, items)[k],
            ) + item_len(pack_from(current, items)[k + 1][0]) > PACKET_ROOM,
    decreases items.len(),
{
    if items.len() > 0 {
        let rest = items.drop_first();
        if current.len() > 0 && items_len(current) + item_len(items[0]) > PACKET_ROOM {
            let next = seq![items[0]];
            let tail = pack_from(next, rest);
            lemma_pack_from_full(next, rest);
            lemma_pack_first(next, rest);
            let all = pack_from(current, items);
            assert(all == seq![current] + tail);
            assert forall|k: int| 0 <= k < all.len() - 1 implies items_len(#[trigger] all[k])
                + item_len(all[k + 1][0]) > PACKET_ROOM by {
                assert(all[k + 1] == tail[k]);
                if k > 0 {
                    assert(all[k] == tail[k - 1]);
                }
            }
        } else {
            lemma_pack_from_full(current.push(items[0]), rest);
            assert(pack_from(current, items) == pack_from(current.push(items[0]), rest));
        }
    } else {
        assert(pack_from(current, items).len() <= 1);
    }
}

/// No packet is closed while the next message fits.
pub proof fn law_packets_are_full(items: Seq<(NetId, MessageModel)>)
    ensures
        forall|k: int|
            0 <= k < pack(items).len() - 1 ==> items_len(#[trigger] pack(items)[k]) + item_len(
                pack(items)[k + 1][0],
            ) > PACKET_ROOM,
{
    lemma_pack_from_full(Seq::empty(), items);
}

impl PacketBuilder {
    /// Returns a builder that has sent and received nothing.
    pub fn new() -> (r: Self)
        ensures
            r.header_manager@ == HeaderModel::initial(),
    {
        PacketBuilder {
            header_manager: PacketHeaderManager::new(),
            write_buffer: WriteWordBuffer::with_capacity(PACKET_BUFFER_CAPACITY),
        }
    }

    /// Packs messages into packets, and takes note that the packets are sent.
    pub fn build_packets(&mut self, data: VecDeque<Item>) -> (r: Vec<Packet>)
        requires
            by_channel(views(data@)),
            all_sendable(views(data@)),
        ensures
            views(r@) == numbered(
                old(self).header_manager@,
                pack(views(data@)),
                Tick(0),
            ),
            final(self).header_manager@ == old(self).header_manager@.sent(
                pack(views(data@)).len(),
            ),
    {
        let ghost items = views(data@);
        let ghost header = self.header_manager@;
        let mut data = data;
        let mut packets: Vec<Packet> = Vec::new();
        let mut current: VecDeque<Item> = VecDeque::new();
        let mut used: usize = 0;
        let ghost mut done: Seq<Seq<(NetId, MessageModel)>> = Seq::empty();
        proof {
            assert(views(current@) =~= Seq::empty());
            assert(views(packets@) =~= numbered(header, done, Tick(0)));
            assert(done + pack(items) =~= pack(items));
        }
        while data.len() > 0
            invariant
                all_sendable(views(data@)),
                used == items_len(views(current@)),
                used <= PACKET_ROOM,
                pack(items) == done + pack_from(views(current@), views(data@)),
                views(packets@) == numbered(header, done, Tick(0)),
                self.header_manager@ == header.sent(done.len()),
            decreases data@.len(),
        {
            let ghost rest = views(data@);
            let item = data.pop_front().unwrap();
            proof {
                assert(rest[0] == item@);
                assert(rest[0].1.sendable());
                assert(views(data@) =~= rest.drop_first());
                assert forall|i: int| 0 <= i < views(data@).len() implies (#[trigger] views(
                    data@,
                )[i]).1.sendable() by {
                    assert(views(data@)[i] == rest[i + 1]);
                }
            }
            let size: usize = 2 + item.1.num_bytes();
            assert(size == item_len(item@));
            if current.len() > 0 && used + size > PACKET_ROOM {
                let ghost closed_chunk = views(current@);
                self.close_packet(&mut packets, current, Ghost(header), Ghost(done));
                proof {
                    done = done.push(closed_chunk);
                }
                current = VecDeque::new();
                used = 0;
                current.push_back(item);
                proof {
                    let next = seq![item@];
                    assert(views(current@) =~= next);
                    assert(next.drop_last() =~= Seq::empty());
                    reveal_with_fuel(items_len, 2);
                    let tail = pack_from(next, views(data@));
                    assert(done.drop_last() + (seq![closed_chunk] + tail) =~= done + tail);
                }
            } else {
                let ghost before = current@;
                current.push_back(item);
                proof {
                    lemma_views_push(before, item);
                    assert(views(current@).drop_last() =~= views(before));
                }
            }
            used = used + size;
        }
        assert(views(data@) =~= Seq::empty());
        if current.len() > 0 {
            let ghost closed_chunk = views(current@);
            self.close_packet(&mut packets, current, Ghost(header), Ghost(done));
            proof {
                assert(done + seq![closed_chunk] =~= done.push(closed_chunk));
            }
        } else {
            assert(done + Seq::<Seq<(NetId, MessageModel)>>::empty() =~= done);
        }
        packets
    }

    /// Gives the next header to a packet that holds `current`.
    fn close_packet(
        &mut self,
        packets: &mut Vec<Packet>,
        current: VecDeque<Item>,
        header: Ghost<HeaderModel>,
        done: Ghost<Seq<Seq<(NetId, MessageModel)>>>,
    )
        requires
            old(self).header_manager@ == header@.sent(done@.len()),
            views(old(packets)@) == numbered(header@, done@, Tick(0)),
        ensures
            final(self).header_manager@ == header@.sent(done@.len() + 1),
            views(final(packets)@) == numbered(header@, done@.push(views(current@)), Tick(0)),
    {
        let packet_header = self.header_manager.prepare_send_packet_header();
        let packet = Packet { header: packet_header, data: current };
        packets.push(packet);
        proof {
            reveal_with_fuel(HeaderModel::sent, 2);
            lemma_views_push(old(packets)@, packet);
            assert(views(packets@) =~= numbered(header@, done@.push(views(current@)), Tick(0)));
        }
    }

    /// Returns the bytes of a packet.
    pub fn encode_packet(&mut self, packet: &Packet) -> (r: Payload)
        requires
            packet@.wf(),
        ensures
            r@ == packet@.wire(),
            final(self).header_manager@ == old(self).header_manager@,
    {
        self.write_buffer.start_write();
        packet.encode(&mut self.write_buffer);
        let payload = self.write_buffer.finish_write();
        assert(payload@ =~= packet@.wire());
        payload
    }

    /// Reads a packet.
    pub fn decode_packet<R: ReadBuffer>(&self, reader: &mut R) -> (r: Option<Packet>)
        ensures
            match take_packet(old(reader).remaining()) {
                Some((p, t)) => r is Some && r.unwrap()@ == p && final(reader).remaining() == t,
                None => r is None,
            },
    {
        Packet::decode(reader)
    }
}

} // verus!
