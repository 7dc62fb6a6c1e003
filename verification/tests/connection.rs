//! Two message managers over a transport that loses, repeats and reorders packets.
use std::collections::HashMap;

use lightyear::channel::receiver::ReceiveError;
use lightyear::channel::registry::ChannelRegistry;
use lightyear::channel::settings::{ChannelMode, ChannelSettings, ReliableSettings};
use lightyear::ids::{ChannelKind, MessageId, PacketId, Tick, Time};
use lightyear::manager_model::MessageError;
use lightyear::message::{MessageAck, FRAGMENT_SIZE};
use lightyear::message_manager::MessageManager;
use lightyear::packet::MTU_PAYLOAD_BYTES;
use lightyear::serialize::{
    BitSerializable, ReadBuffer, ReadWordBuffer, SerializeError, WriteBuffer,
};
use lightyear::shared::{PingManager, TickManager, TimeManager};

const A: ChannelKind = 100;
const B: ChannelKind = 200;

const UNRELIABLE: ChannelMode = ChannelMode::UnorderedUnreliable;
const WITH_ACKS: ChannelMode = ChannelMode::UnorderedUnreliableWithAcks;
const RELIABLE: ChannelMode = ChannelMode::OrderedReliable(ReliableSettings {
    rtt_resend_factor: 2,
    rtt_resend_min_delay: 50,
});

/// A byte string, as long as the application likes.
#[derive(Clone, Debug, PartialEq)]
struct Raw(Vec<u8>);

impl BitSerializable for Raw {
    fn encode<W: WriteBuffer>(&self, writer: &mut W) -> Result<(), SerializeError> {
        writer.write_bytes(&(self.0.len() as u32).to_le_bytes());
        writer.write_bytes(&self.0);
        Ok(())
    }

    fn decode<R: ReadBuffer>(reader: &mut R) -> Result<Self, SerializeError> {
        let n = u32::decode(reader)?;
        match reader.read_bytes(n as usize) {
            Some(bytes) => Ok(Raw(bytes)),
            None => Err(SerializeError::EndOfBuffer),
        }
    }
}

/// A message that cannot be written.
struct Unwritable;

impl BitSerializable for Unwritable {
    fn encode<W: WriteBuffer>(&self, writer: &mut W) -> Result<(), SerializeError> {
        writer.write_bytes(&[1, 2, 3]);
        Err(SerializeError::InvalidValue)
    }

    fn decode<R: ReadBuffer>(_reader: &mut R) -> Result<Self, SerializeError> {
        Err(SerializeError::InvalidValue)
    }
}

fn raw(len: usize) -> Raw {
    Raw((0..len).map(|i| (i % 251) as u8).collect())
}

fn registry(modes: &[(ChannelKind, ChannelMode)]) -> ChannelRegistry {
    let mut registry = ChannelRegistry::new();
    for (kind, mode) in modes {
        assert!(registry.add_channel(*kind, ChannelSettings { mode: *mode }));
    }
    registry
}

fn manager(modes: &[(ChannelKind, ChannelMode)]) -> MessageManager {
    MessageManager::new(&registry(modes))
}

fn set_time(manager: &mut MessageManager, now: Time, rtt: Time) {
    manager.update(&TimeManager::new(now), &PingManager::new(rtt), &TickManager::new(Tick(0)));
}

fn recv(manager: &mut MessageManager, payload: &[u8]) -> Result<Tick, MessageError> {
    manager.recv_packet(&mut ReadWordBuffer::start_read(payload))
}

/// Sends everything from one manager to the other.
fn transfer(from: &mut MessageManager, to: &mut MessageManager) -> usize {
    let payloads = from.send_packets(Tick(0)).unwrap();
    for payload in payloads.iter() {
        assert_eq!(recv(to, payload), Ok(Tick(0)));
    }
    payloads.len()
}

fn read<M: BitSerializable>(manager: &mut MessageManager, kind: ChannelKind) -> Vec<M> {
    let mut data: HashMap<ChannelKind, Vec<(Tick, M)>> = manager.read_messages();
    match data.remove(&kind) {
        Some(messages) => messages.into_iter().map(|(_, message)| message).collect(),
        None => Vec::new(),
    }
}

#[test]
fn packet_has_exact_bytes() {
    let mut client = manager(&[(A, UNRELIABLE)]);
    assert_eq!(client.buffer_send(7u32, A), Ok(None));
    let payloads = client.send_packets(Tick(3)).unwrap();
    assert_eq!(
        payloads,
        vec![vec![
            0, 0, // packet id
            0, 0, 0, // nothing was received
            0, 0, 0, 0, // no packet before that either
            3, 0, // tick
            1, 0, // one message
            0, 0, // channel
            0, 4, 0, 7, 0, 0, 0, // not numbered, four bytes
        ]]
    );
}

#[test]
fn numbered_message_has_exact_bytes() {
    let mut client = manager(&[(A, UNRELIABLE), (B, WITH_ACKS)]);
    assert_eq!(client.buffer_send(1u32, B), Ok(Some(MessageId(0))));
    assert_eq!(client.buffer_send(0x01020304u32, B), Ok(Some(MessageId(1))));
    let payloads = client.send_packets(Tick(0x1234)).unwrap();
    assert_eq!(payloads.len(), 1);
    assert_eq!(payloads[0][9..11], [0x34, 0x12]);
    assert_eq!(
        payloads[0][11..],
        [2, 0, 1, 0, 1, 0, 0, 4, 0, 1, 0, 0, 0, 1, 0, 1, 1, 0, 4, 0, 4, 3, 2, 1]
    );
}

#[test]
fn messages_carry_the_tick_of_their_packet() {
    let mut client = manager(&[(A, UNRELIABLE)]);
    let mut server = manager(&[(A, UNRELIABLE)]);
    for (tick, message) in [(5u16, 50u32), (6, 60)] {
        client.buffer_send(message, A).unwrap();
        let payloads = client.send_packets(Tick(tick)).unwrap();
        assert_eq!(recv(&mut server, &payloads[0]), Ok(Tick(tick)));
    }
    let data: HashMap<ChannelKind, Vec<(Tick, u32)>> = server.read_messages();
    assert_eq!(data, HashMap::from([(A, vec![(Tick(5), 50), (Tick(6), 60)])]));
}

#[test]
fn channels_without_messages_are_not_read() {
    let mut client = manager(&[(A, UNRELIABLE), (B, UNRELIABLE)]);
    let mut server = manager(&[(A, UNRELIABLE), (B, UNRELIABLE)]);
    client.buffer_send(1u32, B).unwrap();
    assert_eq!(transfer(&mut client, &mut server), 1);
    let data: HashMap<ChannelKind, Vec<(Tick, u32)>> = server.read_messages();
    assert_eq!(data, HashMap::from([(B, vec![(Tick(0), 1)])]));
}

#[test]
fn second_send_is_empty() {
    let mut client = manager(&[(A, UNRELIABLE), (B, RELIABLE)]);
    client.buffer_send(1u32, A).unwrap();
    client.buffer_send(2u32, B).unwrap();
    assert_eq!(client.send_packets(Tick(0)).unwrap().len(), 1);
    assert_eq!(client.send_packets(Tick(1)).unwrap().len(), 0);
    assert_eq!(client.header_manager().next_packet_id(), PacketId(1));
}

#[test]
fn second_read_is_empty() {
    let mut client = manager(&[(A, RELIABLE)]);
    let mut server = manager(&[(A, RELIABLE)]);
    client.buffer_send(1u32, A).unwrap();
    transfer(&mut client, &mut server);
    assert_eq!(read::<u32>(&mut server, A), vec![1]);
    assert!(server.read_messages::<u32>().is_empty());
}

#[test]
fn packing_fills_packets_in_order() {
    let mut client = manager(&[(A, UNRELIABLE)]);
    let mut server = manager(&[(A, UNRELIABLE)]);
    // 2 + 3 + 4 + 571 bytes each: two of them fit in a packet.
    let messages: Vec<Raw> = (0..5).map(|i| Raw(vec![i as u8; 571])).collect();
    for message in messages.iter() {
        client.buffer_send(message.clone(), A).unwrap();
    }
    let payloads = client.send_packets(Tick(0)).unwrap();
    let lengths: Vec<usize> = payloads.iter().map(|p| p.len()).collect();
    assert_eq!(lengths, vec![13 + 1160, 13 + 1160, 13 + 580]);
    for payload in payloads.iter() {
        recv(&mut server, payload).unwrap();
    }
    assert_eq!(read::<Raw>(&mut server, A), messages);
}

#[test]
fn packets_stay_within_the_limit() {
    for len in [0, 1, FRAGMENT_SIZE - 5, FRAGMENT_SIZE - 4, FRAGMENT_SIZE - 3, 5000] {
        let mut client = manager(&[(A, UNRELIABLE), (B, RELIABLE)]);
        let mut server = manager(&[(A, UNRELIABLE), (B, RELIABLE)]);
        client.buffer_send(raw(len), A).unwrap();
        client.buffer_send(raw(len), B).unwrap();
        for payload in client.send_packets(Tick(0)).unwrap().iter() {
            assert!(payload.len() <= MTU_PAYLOAD_BYTES);
            recv(&mut server, payload).unwrap();
        }
        let data: HashMap<ChannelKind, Vec<(Tick, Raw)>> = server.read_messages();
        assert_eq!(data[&A], vec![(Tick(0), raw(len))]);
        assert_eq!(data[&B], vec![(Tick(0), raw(len))]);
    }
}

#[test]
fn longest_message_in_one_piece() {
    let mut client = manager(&[(A, UNRELIABLE)]);
    assert_eq!(client.buffer_send(raw(FRAGMENT_SIZE - 4), A), Ok(None));
    let payloads = client.send_packets(Tick(0)).unwrap();
    assert_eq!(payloads.iter().map(|p| p.len()).collect::<Vec<usize>>(), vec![1168]);
    assert_eq!(client.buffer_send(raw(FRAGMENT_SIZE - 3), A), Ok(Some(MessageId(0))));
    let payloads = client.send_packets(Tick(0)).unwrap();
    assert_eq!(payloads.iter().map(|p| p.len()).collect::<Vec<usize>>(), vec![1186, 37]);
}

#[test]
fn packets_are_numbered_and_remembered() {
    let mut client = manager(&[(A, UNRELIABLE)]);
    set_time(&mut client, 77, 0);
    for _ in 0..3 {
        client.buffer_send(raw(1100), A).unwrap();
    }
    let payloads = client.send_packets(Tick(0)).unwrap();
    let ids: Vec<u8> = payloads.iter().map(|p| p[0]).collect();
    assert_eq!(ids, vec![0, 1, 2]);
    assert_eq!(client.header_manager().next_packet_id(), PacketId(3));
    assert_eq!(
        client.header_manager().sent_packets_not_acked(),
        &HashMap::from([(0, 77), (1, 77), (2, 77)])
    );
}

#[test]
fn headers_tell_which_packets_arrived() {
    let mut client = manager(&[(A, UNRELIABLE)]);
    let mut server = manager(&[(A, UNRELIABLE)]);
    let mut payloads = Vec::new();
    for i in 0..4u32 {
        client.buffer_send(i, A).unwrap();
        payloads.append(&mut client.send_packets(Tick(0)).unwrap());
    }
    // The third packet is lost, and the first two change places.
    for k in [1, 0, 3] {
        recv(&mut server, &payloads[k]).unwrap();
    }
    server.buffer_send(0u32, A).unwrap();
    let answer = server.send_packets(Tick(0)).unwrap();
    assert_eq!(answer[0][2..9], [1, 3, 0, 6, 0, 0, 0]);
    recv(&mut client, &answer[0]).unwrap();
    assert_eq!(client.header_manager().sent_packets_not_acked(), &HashMap::from([(2, 0)]));
    // Hearing it again changes nothing.
    recv(&mut client, &answer[0]).unwrap();
    assert_eq!(client.header_manager().sent_packets_not_acked(), &HashMap::from([(2, 0)]));
}

#[test]
fn answer_acknowledges_the_last_packets() {
    for (n, left) in [(33u32, 0usize), (34, 1)] {
        let mut client = manager(&[(A, WITH_ACKS)]);
        let mut server = manager(&[(A, WITH_ACKS)]);
        for i in 0..n {
            client.buffer_send(i, A).unwrap();
            transfer(&mut client, &mut server);
        }
        assert_eq!(client.packet_to_message_ack_map().len(), n as usize);
        server.buffer_send(0u32, A).unwrap();
        transfer(&mut server, &mut client);
        assert_eq!(client.packet_to_message_ack_map().len(), left);
        assert_eq!(client.header_manager().sent_packets_not_acked().len(), left);
        if left == 1 {
            assert!(client.packet_to_message_ack_map().contains_key(&0));
        }
    }
}

#[test]
fn gap_longer_than_the_window_is_forgotten() {
    let mut client = manager(&[(A, UNRELIABLE)]);
    let mut server = manager(&[(A, UNRELIABLE)]);
    let mut payloads = Vec::new();
    for i in 0..70u32 {
        client.buffer_send(i, A).unwrap();
        payloads.append(&mut client.send_packets(Tick(0)).unwrap());
    }
    for (k, header) in [
        (0, [1u8, 0, 0, 0, 0, 0, 0]),
        (32, [1, 32, 0, 0, 0, 0, 128]),
        (69, [1, 69, 0, 0, 0, 0, 0]),
        (38, [1, 69, 0, 0, 0, 0, 64]),
        (30, [1, 69, 0, 0, 0, 0, 64]),
    ] {
        recv(&mut server, &payloads[k]).unwrap();
        server.buffer_send(0u32, A).unwrap();
        let answer = server.send_packets(Tick(0)).unwrap();
        assert_eq!(answer[0][2..9], header);
    }
}

#[test]
fn reliable_channel_sends_again_after_the_delay() {
    let mut client = manager(&[(A, RELIABLE)]);
    let mut server = manager(&[(A, RELIABLE)]);
    set_time(&mut client, 1000, 100);
    assert_eq!(client.buffer_send(9u32, A), Ok(Some(MessageId(0))));
    assert_eq!(client.send_packets(Tick(0)).unwrap().len(), 1);
    set_time(&mut client, 1200, 100);
    assert_eq!(client.send_packets(Tick(0)).unwrap().len(), 0);
    set_time(&mut client, 1201, 100);
    assert_eq!(transfer(&mut client, &mut server), 1);
    assert_eq!(read::<u32>(&mut server, A), vec![9]);
    // The shortest delay holds where the round trip time is short.
    set_time(&mut client, 1251, 10);
    assert_eq!(client.send_packets(Tick(0)).unwrap().len(), 0);
    set_time(&mut client, 1252, 10);
    assert_eq!(transfer(&mut client, &mut server), 1);
    assert_eq!(read::<u32>(&mut server, A), Vec::<u32>::new());
    // Once it is known to have arrived, it is not sent any more.
    server.buffer_send(0u32, A).unwrap();
    transfer(&mut server, &mut client);
    set_time(&mut client, 9000, 10);
    assert_eq!(client.send_packets(Tick(0)).unwrap().len(), 0);
}

#[test]
fn only_missing_fragments_are_sent_again() {
    let mut client = manager(&[(A, RELIABLE)]);
    let mut server = manager(&[(A, RELIABLE)]);
    let tracker = client.subscribe_acks(A).unwrap();
    client.buffer_send(raw(3000), A).unwrap();
    let payloads = client.send_packets(Tick(0)).unwrap();
    assert_eq!(payloads.len(), 3);
    // The second fragment is lost.
    recv(&mut server, &payloads[0]).unwrap();
    recv(&mut server, &payloads[2]).unwrap();
    server.buffer_send(0u32, A).unwrap();
    transfer(&mut server, &mut client);
    assert_eq!(client.next_ack(&tracker), None);
    set_time(&mut client, 51, 0);
    let again = client.send_packets(Tick(0)).unwrap();
    assert_eq!(again.len(), 1);
    assert_eq!(again[0][13..], payloads[1][13..]);
    recv(&mut server, &again[0]).unwrap();
    assert_eq!(read::<Raw>(&mut server, A), vec![raw(3000)]);
    server.buffer_send(0u32, A).unwrap();
    transfer(&mut server, &mut client);
    assert_eq!(client.next_ack(&tracker), Some(MessageId(0)));
    assert_eq!(client.next_ack(&tracker), None);
}

#[test]
fn ordered_channel_restores_the_order() {
    let mut client = manager(&[(A, RELIABLE)]);
    let mut server = manager(&[(A, RELIABLE)]);
    let mut payloads = Vec::new();
    for i in 0..3u32 {
        client.buffer_send(i, A).unwrap();
        payloads.append(&mut client.send_packets(Tick(0)).unwrap());
    }
    recv(&mut server, &payloads[2]).unwrap();
    assert_eq!(read::<u32>(&mut server, A), Vec::<u32>::new());
    recv(&mut server, &payloads[0]).unwrap();
    recv(&mut server, &payloads[0]).unwrap();
    assert_eq!(read::<u32>(&mut server, A), vec![0]);
    recv(&mut server, &payloads[0]).unwrap();
    recv(&mut server, &payloads[2]).unwrap();
    recv(&mut server, &payloads[1]).unwrap();
    assert_eq!(read::<u32>(&mut server, A), vec![1, 2]);
}

#[test]
fn ordered_channel_takes_fragments_in_any_order() {
    let mut client = manager(&[(A, RELIABLE)]);
    let mut server = manager(&[(A, RELIABLE)]);
    client.buffer_send(raw(3000), A).unwrap();
    client.buffer_send(raw(10), A).unwrap();
    let payloads = client.send_packets(Tick(0)).unwrap();
    assert_eq!(payloads.len(), 3);
    for k in [2, 1, 1, 2] {
        recv(&mut server, &payloads[k]).unwrap();
        assert_eq!(read::<Raw>(&mut server, A), Vec::<Raw>::new());
    }
    recv(&mut server, &payloads[0]).unwrap();
    assert_eq!(read::<Raw>(&mut server, A), vec![raw(3000), raw(10)]);
}

#[test]
fn unordered_channel_hands_out_what_comes() {
    let mut client = manager(&[(A, UNRELIABLE)]);
    let mut server = manager(&[(A, UNRELIABLE)]);
    let mut payloads = Vec::new();
    for i in 0..2u32 {
        client.buffer_send(i, A).unwrap();
        payloads.append(&mut client.send_packets(Tick(0)).unwrap());
    }
    for k in [1, 0, 1] {
        recv(&mut server, &payloads[k]).unwrap();
    }
    assert_eq!(read::<u32>(&mut server, A), vec![1, 0, 1]);
}

#[test]
fn unordered_channel_puts_fragments_together() {
    let mut client = manager(&[(A, UNRELIABLE)]);
    let mut server = manager(&[(A, UNRELIABLE)]);
    client.buffer_send(raw(3000), A).unwrap();
    client.buffer_send(raw(2000), A).unwrap();
    let payloads = client.send_packets(Tick(0)).unwrap();
    assert_eq!(payloads.len(), 5);
    for k in [4, 0, 2, 3, 1] {
        recv(&mut server, &payloads[k]).unwrap();
    }
    assert_eq!(read::<Raw>(&mut server, A), vec![raw(2000), raw(3000)]);
}

#[test]
fn old_fragments_are_discarded() {
    for (now, count) in [(3000, 1), (3001, 0)] {
        let mut client = manager(&[(A, UNRELIABLE)]);
        let mut server = manager(&[(A, UNRELIABLE)]);
        client.buffer_send(raw(2000), A).unwrap();
        let payloads = client.send_packets(Tick(0)).unwrap();
        recv(&mut server, &payloads[0]).unwrap();
        set_time(&mut server, now, 0);
        recv(&mut server, &payloads[1]).unwrap();
        assert_eq!(read::<Raw>(&mut server, A).len(), count);
    }
}

#[test]
fn messages_survive_the_passing_of_time() {
    let mut client = manager(&[(A, UNRELIABLE)]);
    let mut server = manager(&[(A, UNRELIABLE)]);
    client.buffer_send(4u32, A).unwrap();
    transfer(&mut client, &mut server);
    set_time(&mut server, 1_000_000, 0);
    assert_eq!(read::<u32>(&mut server, A), vec![4]);
}

#[test]
fn cut_message_is_reported_when_all_fragments_arrived() {
    let mut client = manager(&[(A, WITH_ACKS)]);
    let mut server = manager(&[(A, WITH_ACKS)]);
    let first = client.subscribe_acks(A).unwrap();
    let second = client.subscribe_acks(A).unwrap();
    assert_eq!(client.buffer_send(raw(2000), A), Ok(Some(MessageId(0))));
    let payloads = client.send_packets(Tick(0)).unwrap();
    assert_eq!(payloads.len(), 2);
    recv(&mut server, &payloads[1]).unwrap();
    server.buffer_send(0u32, A).unwrap();
    transfer(&mut server, &mut client);
    assert_eq!(client.next_ack(&first), None);
    recv(&mut server, &payloads[0]).unwrap();
    server.buffer_send(0u32, A).unwrap();
    transfer(&mut server, &mut client);
    assert_eq!(client.next_ack(&first), Some(MessageId(0)));
    assert_eq!(client.next_ack(&first), None);
    assert_eq!(client.next_ack(&second), Some(MessageId(0)));
}

#[test]
fn reports_come_in_order() {
    let mut client = manager(&[(A, WITH_ACKS)]);
    let mut server = manager(&[(A, WITH_ACKS)]);
    let tracker = client.subscribe_acks(A).unwrap();
    for i in 0..3u32 {
        client.buffer_send(i, A).unwrap();
    }
    transfer(&mut client, &mut server);
    server.buffer_send(0u32, A).unwrap();
    transfer(&mut server, &mut client);
    let late = client.subscribe_acks(A).unwrap();
    for i in 0..3u16 {
        assert_eq!(client.next_ack(&tracker), Some(MessageId(i)));
    }
    assert_eq!(client.next_ack(&tracker), None);
    assert_eq!(client.next_ack(&late), None);
}

#[test]
fn unknown_channel_is_refused() {
    let mut client = manager(&[(A, WITH_ACKS)]);
    assert_eq!(client.buffer_send(1u32, B), Err(MessageError::ChannelNotFound));
    assert_eq!(client.buffer_send_bytes(vec![1], B), Err(MessageError::ChannelNotFound));
    assert!(client.subscribe_acks(B).is_none());
    let mut tracker = client.subscribe_acks(A).unwrap();
    tracker.channel_kind = B;
    assert_eq!(client.next_ack(&tracker), None);
    assert_eq!(client.send_packets(Tick(0)), Ok(vec![]));
}

#[test]
fn unwritable_message_is_refused() {
    let mut client = manager(&[(A, WITH_ACKS)]);
    assert_eq!(
        client.buffer_send(Unwritable, A),
        Err(MessageError::Serialize(SerializeError::InvalidValue))
    );
    // Nothing of it is left behind.
    assert_eq!(client.buffer_send(5u32, A), Ok(Some(MessageId(0))));
    let payloads = client.send_packets(Tick(0)).unwrap();
    assert_eq!(payloads[0][13..], [0, 0, 1, 0, 0, 4, 0, 5, 0, 0, 0]);
}

#[test]
fn unreadable_message_is_reported() {
    let mut client = manager(&[(A, UNRELIABLE), (B, UNRELIABLE)]);
    let mut server = manager(&[(A, UNRELIABLE), (B, UNRELIABLE)]);
    client.buffer_send(6u32, A).unwrap();
    client.buffer_send_bytes(vec![1, 2], B).unwrap();
    transfer(&mut client, &mut server);
    assert_eq!(
        server.try_read_messages::<u32>(),
        Err(MessageError::Serialize(SerializeError::EndOfBuffer))
    );
    assert_eq!(server.try_read_messages::<u32>(), Ok(HashMap::new()));
}

#[test]
fn invalid_packets_change_nothing() {
    let mut client = manager(&[(A, UNRELIABLE), (B, UNRELIABLE)]);
    let mut server = manager(&[(A, UNRELIABLE), (B, UNRELIABLE)]);
    client.buffer_send(1u32, A).unwrap();
    client.buffer_send(2u32, B).unwrap();
    let valid = client.send_packets(Tick(0)).unwrap().remove(0);
    assert_eq!(valid.len(), 13 + 9 + 9);
    let mut bad = vec![vec![], valid[..valid.len() - 1].to_vec(), valid[..12].to_vec()];
    // A flag, a kind of message and an order of channels that do not exist.
    for (position, byte) in [(2usize, 2u8), (15, 3), (13, 2)] {
        let mut payload = valid.clone();
        payload[position] = byte;
        bad.push(payload);
    }
    for payload in bad.iter() {
        assert_eq!(recv(&mut server, payload), Err(MessageError::InvalidPacket));
    }
    assert!(server.read_messages::<u32>().is_empty());
    server.buffer_send(0u32, A).unwrap();
    assert_eq!(server.send_packets(Tick(0)).unwrap()[0][2..9], [0, 0, 0, 0, 0, 0, 0]);
    assert_eq!(recv(&mut server, &valid), Ok(Tick(0)));
    assert_eq!(server.read_messages::<u32>().len(), 2);
}

#[test]
fn unknown_net_id_stops_a_packet() {
    let mut client = manager(&[(A, UNRELIABLE), (B, UNRELIABLE)]);
    let mut server = manager(&[(A, UNRELIABLE)]);
    client.buffer_send(1u32, A).unwrap();
    client.buffer_send(2u32, B).unwrap();
    let payloads = client.send_packets(Tick(0)).unwrap();
    assert_eq!(recv(&mut server, &payloads[0]), Err(MessageError::UnknownNetId(1)));
    // What stands before it was received, and the packet counts as received.
    assert_eq!(read::<u32>(&mut server, A), vec![1]);
    server.buffer_send(0u32, A).unwrap();
    transfer(&mut server, &mut client);
    assert!(client.header_manager().sent_packets_not_acked().is_empty());
}

#[test]
fn ordered_channel_wants_numbered_messages() {
    let mut client = manager(&[(A, UNRELIABLE)]);
    let mut server = manager(&[(A, RELIABLE)]);
    client.buffer_send(1u32, A).unwrap();
    let payloads = client.send_packets(Tick(0)).unwrap();
    assert_eq!(
        recv(&mut server, &payloads[0]),
        Err(MessageError::Receive(ReceiveError::MissingMessageId))
    );
    assert!(server.read_messages::<u32>().is_empty());
}

#[test]
fn fragment_outside_of_its_message_is_refused() {
    for mode in [UNRELIABLE, RELIABLE] {
        let mut server = manager(&[(A, mode)]);
        let mut payload = vec![0u8; 11];
        payload.extend_from_slice(&[1, 0, 0, 0, 2, 0, 0]);
        payload.extend_from_slice(&2u64.to_le_bytes());
        payload.extend_from_slice(&2u64.to_le_bytes());
        payload.extend_from_slice(&[0, 0]);
        assert_eq!(
            recv(&mut server, &payload),
            Err(MessageError::Receive(ReceiveError::InvalidFragment))
        );
    }
}

#[test]
fn packets_are_read_one_after_the_other() {
    let mut client = manager(&[(A, UNRELIABLE)]);
    let mut server = manager(&[(A, UNRELIABLE)]);
    let mut bytes = Vec::new();
    for (tick, message) in [(1u16, 10u32), (2, 20)] {
        client.buffer_send(message, A).unwrap();
        bytes.append(&mut client.send_packets(Tick(tick)).unwrap().remove(0));
    }
    let mut reader = ReadWordBuffer::start_read(&bytes);
    assert_eq!(server.recv_packet(&mut reader), Ok(Tick(1)));
    assert_eq!(server.recv_packet(&mut reader), Ok(Tick(2)));
    assert_eq!(server.recv_packet(&mut reader), Err(MessageError::InvalidPacket));
    assert_eq!(read::<u32>(&mut server, A), vec![10, 20]);
}

#[test]
fn only_what_channels_want_to_know_is_recorded() {
    let mut client = manager(&[(A, UNRELIABLE), (B, RELIABLE)]);
    client.buffer_send(1u32, A).unwrap();
    assert_eq!(client.send_packets(Tick(0)).unwrap().len(), 1);
    assert!(client.packet_to_message_ack_map().is_empty());
    assert_eq!(client.header_manager().sent_packets_not_acked().len(), 1);
    client.buffer_send(2u32, A).unwrap();
    client.buffer_send(3u32, B).unwrap();
    client.buffer_send(4u32, B).unwrap();
    assert_eq!(client.send_packets(Tick(0)).unwrap().len(), 1);
    let acks = [MessageId(0), MessageId(1)]
        .iter()
        .map(|id| MessageAck { message_id: *id, fragment_id: None })
        .collect();
    assert_eq!(
        client.packet_to_message_ack_map(),
        &HashMap::from([(1, HashMap::from([(B, acks)]))])
    );
}

#[test]
fn later_answer_acknowledges_too() {
    let mut client = manager(&[(A, WITH_ACKS)]);
    let mut server = manager(&[(A, WITH_ACKS)]);
    // Forty packets in one go: the most recent of them are acknowledged.
    for _ in 0..40 {
        client.buffer_send(raw(1100), A).unwrap();
    }
    assert_eq!(transfer(&mut client, &mut server), 40);
    // Both sides do other things before the answer is sent and received.
    assert_eq!(server.read_messages::<Raw>().len(), 1);
    set_time(&mut server, 5, 0);
    assert_eq!(server.send_packets(Tick(0)).unwrap().len(), 0);
    server.buffer_send(raw(1), A).unwrap();
    let answer = server.send_packets(Tick(0)).unwrap();
    client.buffer_send(raw(2), A).unwrap();
    client.send_packets(Tick(0)).unwrap();
    recv(&mut client, &answer[0]).unwrap();
    let mut left: Vec<u16> = client.packet_to_message_ack_map().keys().copied().collect();
    left.sort();
    assert_eq!(left, vec![0, 1, 2, 3, 4, 5, 6, 40]);
}

#[test]
fn nothing_is_read_until_a_message_comes() {
    let mut client = manager(&[(A, UNRELIABLE)]);
    let mut server = manager(&[(A, UNRELIABLE)]);
    client.buffer_send(1u32, A).unwrap();
    transfer(&mut client, &mut server);
    assert_eq!(read::<u32>(&mut server, A), vec![1]);
    server.buffer_send(2u32, A).unwrap();
    server.send_packets(Tick(0)).unwrap();
    set_time(&mut server, 10, 0);
    assert!(server.read_messages::<u32>().is_empty());
    client.buffer_send(3u32, A).unwrap();
    transfer(&mut client, &mut server);
    assert_eq!(read::<u32>(&mut server, A), vec![3]);
}

#[test]
fn fragments_come_in_any_order_among_other_messages() {
    let mut client = manager(&[(A, UNRELIABLE)]);
    let mut server = manager(&[(A, UNRELIABLE)]);
    client.buffer_send(raw(3000), A).unwrap();
    let fragments = client.send_packets(Tick(1)).unwrap();
    client.buffer_send(raw(2500), A).unwrap();
    let others = client.send_packets(Tick(2)).unwrap();
    client.buffer_send(raw(7), A).unwrap();
    let short = client.send_packets(Tick(3)).unwrap();
    assert_eq!((fragments.len(), others.len(), short.len()), (3, 3, 1));
    for payload in [&others[2], &fragments[2], &fragments[2], &short[0], &others[0], &fragments[0]] {
        recv(&mut server, payload).unwrap();
    }
    let data: HashMap<ChannelKind, Vec<(Tick, Raw)>> = server.read_messages();
    assert_eq!(data, HashMap::from([(A, vec![(Tick(3), raw(7))])]));
    recv(&mut server, &fragments[1]).unwrap();
    recv(&mut server, &others[1]).unwrap();
    let data: HashMap<ChannelKind, Vec<(Tick, Raw)>> = server.read_messages();
    assert_eq!(data, HashMap::from([(A, vec![(Tick(1), raw(3000)), (Tick(2), raw(2500))])]));
}

#[test]
fn messages_are_reported_once() {
    let mut client = manager(&[(A, WITH_ACKS)]);
    let mut server = manager(&[(A, WITH_ACKS)]);
    let tracker = client.subscribe_acks(A).unwrap();
    client.buffer_send(1u32, A).unwrap();
    transfer(&mut client, &mut server);
    let mut answers = Vec::new();
    for i in 0..3u32 {
        server.buffer_send(i, A).unwrap();
        answers.append(&mut server.send_packets(Tick(0)).unwrap());
    }
    recv(&mut client, &answers[1]).unwrap();
    assert_eq!(client.next_ack(&tracker), Some(MessageId(0)));
    // Other answers acknowledge the packet as well, before and after more was sent.
    recv(&mut client, &answers[0]).unwrap();
    client.buffer_send(2u32, A).unwrap();
    client.send_packets(Tick(0)).unwrap();
    set_time(&mut client, 10, 0);
    assert_eq!(read::<u32>(&mut client, A), vec![1, 0]);
    recv(&mut client, &answers[2]).unwrap();
    recv(&mut client, &answers[1]).unwrap();
    assert_eq!(client.next_ack(&tracker), None);
}

#[test]
fn messages_are_read_on_their_channel_with_their_tick() {
    let modes = [(A, UNRELIABLE), (B, RELIABLE)];
    let mut client = manager(&modes);
    let mut server = manager(&modes);
    let mut payloads = Vec::new();
    for tick in 1..4u16 {
        client.buffer_send(10 * tick as u32, A).unwrap();
        client.buffer_send(100 * tick as u32, B).unwrap();
        payloads.append(&mut client.send_packets(Tick(tick)).unwrap());
    }
    for k in [2, 0, 2, 1] {
        recv(&mut server, &payloads[k]).unwrap();
    }
    let data: HashMap<ChannelKind, Vec<(Tick, u32)>> = server.read_messages();
    assert_eq!(
        data,
        HashMap::from([
            (A, vec![(Tick(3), 30), (Tick(1), 10), (Tick(3), 30), (Tick(2), 20)]),
            (B, vec![(Tick(1), 100), (Tick(2), 200), (Tick(3), 300)]),
        ])
    );
}

#[test]
fn cut_message_has_the_tick_of_the_packet_that_completes_it() {
    for mode in [UNRELIABLE, RELIABLE] {
        let mut client = manager(&[(A, mode)]);
        let mut server = manager(&[(A, mode)]);
        client.buffer_send(raw(2000), A).unwrap();
        let mut payloads = client.send_packets(Tick(4)).unwrap();
        // The tick stands behind the acknowledgements in a header.
        payloads[0][9] = 9;
        for k in [1, 0] {
            recv(&mut server, &payloads[k]).unwrap();
        }
        let data: HashMap<ChannelKind, Vec<(Tick, Raw)>> = server.read_messages();
        assert_eq!(data, HashMap::from([(A, vec![(Tick(9), raw(2000))])]));
    }
}
