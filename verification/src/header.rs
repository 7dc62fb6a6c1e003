//! Packet headers: numbering packets, and telling the remote which of its packets arrived.
use std::collections::HashMap;
use vstd::bytes::*;
use vstd::prelude::*;

use crate::ids::{PacketId, Tick, Time};
use crate::serialize::{
    lemma_take_u16, lemma_take_u32, lemma_take_u8, read_u16, read_u32, read_u8, take_u16,
    take_u32, take_u8, write_u16, write_u32, write_u8, ReadBuffer, WriteBuffer,
};
use crate::shared::TimeManager;

verus! {

broadcast use vstd::std_specs::hash::group_hash_axioms;

/// Number of packets before the last one that a header acknowledges one by one.
pub const ACK_BITFIELD_SIZE: u16 = 32;

/// Number of bytes of a header on the wire.
pub const HEADER_BYTES: usize = 11;

/// Bit `i` of `field`.
pub open spec fn bit(field: u32, i: u32) -> bool {
    (field >> i) & 1 == 1
}

/// Header of a packet.
#[derive(Clone, Copy, Debug, PartialEq, Eq)]
pub struct PacketHeader {
    pub packet_id: PacketId,
    /// The most recent packet that the sender received from the remote.
    pub last_ack_packet_id: Option<PacketId>,
    /// Bit `i` is set when the sender received the packet `i + 1` before the last one.
    pub ack_bitfield: u32,
    pub tick: Tick,
}

/// Whether the packet `id` is acknowledged by a last packet and the bits for those before it.
pub open spec fn acknowledges(last: Option<PacketId>, field: u32, id: PacketId) -> bool {
    match last {
        None => false,
        Some(l) => {
            let distance = l.0.wrapping_sub(id.0);
            distance == 0 || (distance <= ACK_BITFIELD_SIZE && bit(field, (distance - 1) as u32))
        },
    }
}

impl PacketHeader {
    /// Whether the header acknowledges the packet `id`.
    pub open spec fn acks(self, id: PacketId) -> bool {
        acknowledges(self.last_ack_packet_id, self.ack_bitfield, id)
    }

    /// The header on the wire.
    pub open spec fn wire(self) -> Seq<u8> {
        let (flag, last) = match self.last_ack_packet_id {
            None => (0u8, 0u16),
            Some(id) => (1u8, id.0),
        };
        spec_u16_to_le_bytes(self.packet_id.0) + (seq![flag] + (spec_u16_to_le_bytes(last) + (
        spec_u32_to_le_bytes(self.ack_bitfield) + spec_u16_to_le_bytes(self.tick.0))))
    }

    /// Returns whether the header acknowledges the packet `distance` before the last one.
    fn acks_at(&self, distance: u16) -> (r: bool)
        requires
            distance <= ACK_BITFIELD_SIZE,
            self.last_ack_packet_id is Some,
        ensures
            r == self.acks(PacketId(self.last_ack_packet_id.unwrap().0.wrapping_sub(distance))),
    {
        if distance == 0 {
            return true;
        }
        let shift: u32 = distance as u32 - 1;
        (self.ack_bitfield >> shift) & 1 == 1
    }

    /// Writes the header.
    pub fn encode<W: WriteBuffer>(&self, writer: &mut W)
        ensures
            final(writer).written() == old(writer).written() + self.wire(),
    {
        write_u16(writer, self.packet_id.0);
        match self.last_ack_packet_id {
            None => {
                write_u8(writer, 0);
                write_u16(writer, 0);
            },
            Some(id) => {
                write_u8(writer, 1);
                write_u16(writer, id.0);
            },
        }
        write_u32(writer, self.ack_bitfield);
        write_u16(writer, self.tick.0);
        assert(writer.written() =~= old(writer).written() + self.wire());
    }

    /// Reads a header.
    pub fn decode<R: ReadBuffer>(reader: &mut R) -> (r: Option<PacketHeader>)
        ensures
            match take_header(old(reader).remaining()) {
                Some((h, t)) => r == Some(h) && final(reader).remaining() == t,
                None => r is None,
            },
    {
        let packet_id = PacketId(read_u16(reader)?);
        let flag = read_u8(reader)?;
        let last = read_u16(reader)?;
        let ack_bitfield = read_u32(reader)?;
        let tick = Tick(read_u16(reader)?);
        let last_ack_packet_id = if flag == 0 {
            None
        } else if flag == 1 {
            Some(PacketId(last))
        } else {
            return None;
        };
        Some(PacketHeader { packet_id, last_ack_packet_id, ack_bitfield, tick })
    }
}

/// Takes a header off the front of `s`.
pub open spec fn take_header(s: Seq<u8>) -> Option<(PacketHeader, Seq<u8>)> {
    match take_u16(s) {
        None => None,
        Some((packet_id, s1)) => match take_u8(s1) {
            None => None,
            Some((flag, s2)) => match take_u16(s2) {
                None => None,
                Some((last, s3)) => match take_u32(s3) {
                    None => None,
                    Some((ack_bitfield, s4)) => match take_u16(s4) {
                        None => None,
                        Some((tick, t)) => if flag > 1 {
                            None
                        } else {
                            Some(
                                (
                                    PacketHeader {
                                        packet_id: PacketId(packet_id),
                                        last_ack_packet_id: if flag == 0 {
                                            None
                                        } else {
                                            Some(PacketId(last))
                                        },
                                        ack_bitfield,
                                        tick: Tick(tick),
                                    },
                                    t,
                                ),
                            )
                        },
                    },
                },
            },
        },
    }
}

/// Reading a header off the wire gives back the header that was written.
pub proof fn lemma_take_header(h: PacketHeader, t: Seq<u8>)
    ensures
        h.wire().len() == HEADER_BYTES,
        take_header(h.wire() + t) == Some((h, t)),
{
    let (flag, last) = match h.last_ack_packet_id {
        None => (0u8, 0u16),
        Some(id) => (1u8, id.0),
    };
    let p = spec_u16_to_le_bytes(h.packet_id.0);
    let l = spec_u16_to_le_bytes(last);
    let b = spec_u32_to_le_bytes(h.ack_bitfield);
    let k = spec_u16_to_le_bytes(h.tick.0);
    assert(h.wire() + t =~= p + (seq![flag] + (l + (b + (k + t)))));
    lemma_take_u16(h.packet_id.0, seq![flag] + (l + (b + (k + t))));
    lemma_take_u8(flag, l + (b + (k + t)));
    lemma_take_u16(last, b + (k + t));
    lemma_take_u32(h.ack_bitfield, k + t);
    lemma_take_u16(h.tick.0, t);
}

/// Numbers the packets that are sent, and keeps track of which packets arrived on either side.
pub struct PacketHeaderManager {
    next_packet_id: PacketId,
    /// When each packet that is not acknowledged yet was sent, by the number of the packet.
    sent_packets_not_acked: HashMap<u16, Time>,
    last_recv_packet_id: Option<PacketId>,
    recv_bitfield: u32,
    current_time: Time,
}

/// Model of [`PacketHeaderManager`].
#[verifier::ext_equal]
pub struct HeaderModel {
    pub next_packet_id: PacketId,
    pub sent_not_acked: Map<u16, Time>,
    pub last_recv: Option<PacketId>,
    pub recv_bitfield: u32,
    pub now: Time,
}

impl View for PacketHeaderManager {
    type V = HeaderModel;

    closed spec fn view(&self) -> HeaderModel {
        HeaderModel {
            next_packet_id: self.next_packet_id,
            sent_not_acked: self.sent_packets_not_acked@,
            last_recv: self.last_recv_packet_id,
            recv_bitfield: self.recv_bitfield,
            now: self.current_time,
        }
    }
}

/// The `n` packets that end with `last`, most recent first.
pub open spec fn packets_back_from(last: PacketId, n: nat) -> Seq<PacketId> {
    Seq::new(n, |i: int| PacketId(last.0.wrapping_sub(i as u16)))
}

/// The bits for the packets before a packet that is `ahead` of the last one.
pub open spec fn advanced(field: u32, ahead: u16) -> u32 {
    if ahead < 32 {
        (field << (ahead as u32)) | (1u32 << ((ahead - 1) as u32))
    } else if ahead == 32 {
        1u32 << 31
    } else {
        0
    }
}

impl HeaderModel {
    /// The state before any packet is sent or received.
    pub open spec fn initial() -> HeaderModel {
        HeaderModel {
            next_packet_id: PacketId(0),
            sent_not_acked: Map::empty(),
            last_recv: None,
            recv_bitfield: 0,
            now: 0,
        }
    }

    /// Whether the next packet acknowledges the packet `id` of the remote.
    pub open spec fn has_received(self, id: PacketId) -> bool {
        acknowledges(self.last_recv, self.recv_bitfield, id)
    }

    /// The state after the packet `id` of the remote was received.
    pub open spec fn receive(self, id: PacketId) -> HeaderModel {
        match self.last_recv {
            None => HeaderModel { last_recv: Some(id), recv_bitfield: 0, ..self },
            Some(last) => {
                let ahead = id.0.wrapping_sub(last.0);
                let behind = last.0.wrapping_sub(id.0);
                if 0 < ahead < 32768 {
                    HeaderModel {
                        last_recv: Some(id),
                        recv_bitfield: advanced(self.recv_bitfield, ahead),
                        ..self
                    }
                } else if 0 < behind <= ACK_BITFIELD_SIZE {
                    HeaderModel {
                        recv_bitfield: self.recv_bitfield | (1u32 << ((behind - 1) as u32)),
                        ..self
                    }
                } else {
                    self
                }
            },
        }
    }

    /// The packets that `header` acknowledges and that were not acknowledged before.
    pub open spec fn newly_acked(self, header: PacketHeader) -> Seq<PacketId> {
        match header.last_ack_packet_id {
            None => Seq::empty(),
            Some(last) => packets_back_from(last, ACK_BITFIELD_SIZE as nat + 1).filter(
                |id: PacketId| header.acks(id) && self.sent_not_acked.contains_key(id.0),
            ),
        }
    }

    /// The state after a packet with this header was received.
    pub open spec fn process(self, header: PacketHeader) -> HeaderModel {
        let acked = self.newly_acked(header);
        HeaderModel {
            sent_not_acked: self.sent_not_acked.remove_keys(
                Set::new(|k: u16| acked.contains(PacketId(k))),
            ),
            ..self.receive(header.packet_id)
        }
    }

    /// The header of the next packet.
    pub open spec fn next_header(self, tick: Tick) -> PacketHeader {
        PacketHeader {
            packet_id: self.next_packet_id,
            last_ack_packet_id: self.last_recv,
            ack_bitfield: self.recv_bitfield,
            tick,
        }
    }

    /// The state after `n` more packets were sent.
    pub open spec fn sent(self, n: nat) -> HeaderModel
        decreases n,
    {
        if n == 0 {
            self
        } else {
            let before = self.sent((n - 1) as nat);
            HeaderModel {
                next_packet_id: PacketId(before.next_packet_id.0.wrapping_add(1)),
                sent_not_acked: before.sent_not_acked.insert(before.next_packet_id.0, before.now),
                ..before
            }
        }
    }
}

impl PacketHeaderManager {
    /// Returns a manager that has sent and received nothing.
    pub fn new() -> (r: Self)
        ensures
            r@ == HeaderModel::initial(),
    {
        PacketHeaderManager {
            next_packet_id: PacketId(0),
            sent_packets_not_acked: HashMap::new(),
            last_recv_packet_id: None,
            recv_bitfield: 0,
            current_time: 0,
        }
    }

    /// Takes note of the current time.
    pub fn update(&mut self, time_manager: &TimeManager)
        ensures
            final(self)@ == (HeaderModel { now: time_manager.current_time(), ..old(self)@ }),
    {
        self.current_time = time_manager.get_current_time();
    }

    /// Returns the id of the next packet.
    pub fn next_packet_id(&self) -> (r: PacketId)
        ensures
            r == self@.next_packet_id,
    {
        self.next_packet_id
    }

    /// Returns when each packet that is not acknowledged yet was sent.
    pub fn sent_packets_not_acked(&self) -> (r: &HashMap<u16, Time>)
        ensures
            r@ == self@.sent_not_acked,
    {
        &self.sent_packets_not_acked
    }

    /// Takes note that the packet `id` of the remote was received.
    fn receive_packet_id(&mut self, id: PacketId)
        ensures
            final(self)@ == old(self)@.receive(id),
    {
        match self.last_recv_packet_id {
            None => {
                self.last_recv_packet_id = Some(id);
                self.recv_bitfield = 0;
            },
            Some(last) => {
                let ahead: u16 = id.0.wrapping_sub(last.0);
                let behind: u16 = last.0.wrapping_sub(id.0);
                if 0 < ahead && ahead < 32768 {
                    self.last_recv_packet_id = Some(id);
                    if ahead < 32 {
                        let shift: u32 = ahead as u32;
                        self.recv_bitfield = (self.recv_bitfield << shift) | (1u32 << (shift - 1));
                    } else if ahead == 32 {
                        self.recv_bitfield = 1u32 << 31u32;
                    } else {
                        self.recv_bitfield = 0;
                    }
                } else if 0 < behind && behind <= ACK_BITFIELD_SIZE {
                    let shift: u32 = behind as u32 - 1;
                    self.recv_bitfield = self.recv_bitfield | (1u32 << shift);
                }
            },
        }
    }

    /// Processes the header of a packet that was received. Returns the packets that it
    /// acknowledges and that were not acknowledged before.
    pub fn process_recv_packet_header(&mut self, header: &PacketHeader) -> (r: Vec<PacketId>)
        ensures
            r@ == old(self)@.newly_acked(*header),
            final(self)@ == old(self)@.process(*header),
    {
        self.receive_packet_id(header.packet_id);
        let mut acked: Vec<PacketId> = Vec::new();
        let ghost before = old(self)@.sent_not_acked;
        let ghost pred = |id: PacketId| header.acks(id) && before.contains_key(id.0);
        if let Some(last) = header.last_ack_packet_id {
            let mut i: u16 = 0;
            assert(packets_back_from(last, 0).filter(pred) =~= Seq::<PacketId>::empty()) by {
                reveal(Seq::filter);
            }
            assert(self.sent_packets_not_acked@ =~= before.remove_keys(
                Set::new(|k: u16| acked@.contains(PacketId(k))),
            ));
            while i <= ACK_BITFIELD_SIZE
                invariant
                    i <= ACK_BITFIELD_SIZE + 1,
                    header.last_ack_packet_id == Some(last),
                    pred == (|id: PacketId| header.acks(id) && before.contains_key(id.0)),
                    acked@ == packets_back_from(last, i as nat).filter(pred),
                    self.sent_packets_not_acked@ == before.remove_keys(
                        Set::new(|k: u16| acked@.contains(PacketId(k))),
                    ),
                    self@ == (HeaderModel {
                        sent_not_acked: self.sent_packets_not_acked@,
                        ..old(self)@.receive(header.packet_id)
                    }),
                decreases ACK_BITFIELD_SIZE + 1 - i,
            {
                let id = PacketId(last.0.wrapping_sub(i));
                let ghost prefix = packets_back_from(last, i as nat);
                let ghost acked_before = acked@;
                proof {
                    reveal(Seq::filter);
                    assert(packets_back_from(last, (i + 1) as nat).drop_last() =~= prefix);
                    assert(packets_back_from(last, (i + 1) as nat).last() == id);
                    assert(!acked@.contains(id)) by {
                        if acked@.contains(id) {
                            prefix.lemma_filter_contains_rev(pred, id);
                            let j = choose|j: int| 0 <= j < prefix.len() && prefix[j] == id;
                            assert(last.0.wrapping_sub(j as u16) == last.0.wrapping_sub(i));
                            assert(false);
                        }
                    }
                }
                if header.acks_at(i) {
                    if self.sent_packets_not_acked.remove(&id.0).is_some() {
                        acked.push(id);
                        proof {
                            assert(acked@.contains(id)) by {
                                assert(acked@.last() == id);
                            }
                            assert forall|k: u16| acked@.contains(PacketId(k)) <==> (
                            acked_before.contains(PacketId(k)) || k == id.0) by {
                                if acked_before.contains(PacketId(k)) {
                                    let j = choose|j: int|
                                        0 <= j < acked_before.len() && acked_before[j] == PacketId(k);
                                    assert(acked@[j] == PacketId(k));
                                }
                            }
                        }
                    }
                }
                assert(self.sent_packets_not_acked@ =~= before.remove_keys(
                    Set::new(|k: u16| acked@.contains(PacketId(k))),
                ));
                i = i + 1;
            }
        }
        assert(self@.sent_not_acked =~= old(self)@.process(*header).sent_not_acked);
        acked
    }

    /// Returns the header of the next packet, and takes note that the packet is sent.
    pub fn prepare_send_packet_header(&mut self) -> (r: PacketHeader)
        ensures
            r == old(self)@.next_header(Tick(0)),
            final(self)@ == old(self)@.sent(1),
    {
        let header = PacketHeader {
            packet_id: self.next_packet_id,
            last_ack_packet_id: self.last_recv_packet_id,
            ack_bitfield: self.recv_bitfield,
            tick: Tick(0),
        };
        self.sent_packets_not_acked.insert(self.next_packet_id.0, self.current_time);
        self.next_packet_id = PacketId(self.next_packet_id.0.wrapping_add(1));
        proof {
            reveal_with_fuel(HeaderModel::sent, 2);
        }
        header
    }
}

} // verus!
