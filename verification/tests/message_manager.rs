//! Two message managers that talk to each other.
use std::collections::HashMap;

use lightyear::channel::registry::ChannelRegistry;
use lightyear::channel::settings::{ChannelMode, ChannelSettings};
use lightyear::ids::{ChannelKind, MessageId, PacketId, Tick};
use lightyear::manager_model::MessageError;
use lightyear::message::{MessageAck, FRAGMENT_SIZE};
use lightyear::message_manager::MessageManager;
use lightyear::serialize::{
    BitSerializable, ReadBuffer, ReadWordBuffer, SerializeError, WriteBuffer,
};

const CHANNEL_1: ChannelKind = 0x11;
const CHANNEL_2: ChannelKind = 0x22;

#[derive(Clone, Debug, PartialEq)]
struct Message1(String);

#[derive(Clone, Debug, PartialEq)]
struct Message2(u32);

#[derive(Clone, Debug, PartialEq)]
enum MyMessageProtocol {
    Message1(Message1),
    Message2(Message2),
}

impl BitSerializable for MyMessageProtocol {
    fn encode<W: WriteBuffer>(&self, writer: &mut W) -> Result<(), SerializeError> {
        match self {
            MyMessageProtocol::Message1(message) => {
                writer.write_bytes(&[1]);
                writer.write_bytes(&(message.0.len() as u32).to_le_bytes());
                writer.write_bytes(message.0.as_bytes());
            }
            MyMessageProtocol::Message2(message) => {
                writer.write_bytes(&[2]);
                writer.write_bytes(&message.0.to_le_bytes());
            }
        }
        Ok(())
    }

    fn decode<R: ReadBuffer>(reader: &mut R) -> Result<Self, SerializeError> {
        let tag = reader.read_bytes(1).ok_or(SerializeError::EndOfBuffer)?;
        let word = reader.read_bytes(4).ok_or(SerializeError::EndOfBuffer)?;
        let word = u32::from_le_bytes([word[0], word[1], word[2], word[3]]);
        match tag[0] {
            1 => {
                let bytes = reader.read_bytes(word as usize).ok_or(SerializeError::EndOfBuffer)?;
                let text = String::from_utf8(bytes).map_err(|_| SerializeError::InvalidValue)?;
                Ok(MyMessageProtocol::Message1(Message1(text)))
            }
            2 => Ok(MyMessageProtocol::Message2(Message2(word))),
            _ => Err(SerializeError::InvalidValue),
        }
    }
}

fn channel_registry() -> ChannelRegistry {
    let mut registry = ChannelRegistry::new();
    assert!(registry.add_channel(
        CHANNEL_1,
        ChannelSettings { mode: ChannelMode::UnorderedUnreliable },
    ));
    assert!(registry.add_channel(
        CHANNEL_2,
        ChannelSettings { mode: ChannelMode::UnorderedUnreliableWithAcks },
    ));
    registry
}

/// Messages can be sent and received over a connection.
#[test]
fn test_message_manager_single_message() -> Result<(), MessageError> {
    let registry = channel_registry();

    // Create message managers.
    let mut client_message_manager = MessageManager::new(&registry);
    let mut server_message_manager = MessageManager::new(&registry);

    // Client: buffer send messages, and then send.
    let message = MyMessageProtocol::Message1(Message1("1".to_string()));
    client_message_manager.buffer_send(message.clone(), CHANNEL_1)?;
    client_message_manager.buffer_send(message.clone(), CHANNEL_2)?;
    let packet_bytes = client_message_manager.send_packets(Tick(0))?;
    assert_eq!(
        client_message_manager.packet_to_message_ack_map(),
        &HashMap::from([(
            PacketId(0).0,
            HashMap::from([(
                CHANNEL_2,
                vec![MessageAck { message_id: MessageId(0), fragment_id: None }]
            )])
        )])
    );

    // Server: receive bytes from the sent messages, then process them into messages.
    for packet_byte in packet_bytes.iter() {
        server_message_manager
            .recv_packet(&mut ReadWordBuffer::start_read(packet_byte.as_slice()))?;
    }
    let mut data = server_message_manager.read_messages();
    assert_eq!(data.get(&CHANNEL_1).unwrap(), &vec![(Tick(0), message.clone())]);
    assert_eq!(data.get(&CHANNEL_2).unwrap(), &vec![(Tick(0), message.clone())]);

    // Reading again, when nothing came in the meantime.
    data = server_message_manager.read_messages();
    assert!(data.is_empty());

    // Check the state of the packet headers.
    assert_eq!(client_message_manager.header_manager().next_packet_id(), PacketId(1));
    assert!(client_message_manager
        .header_manager()
        .sent_packets_not_acked()
        .contains_key(&PacketId(0).0));

    // Server sends back a message.
    server_message_manager.buffer_send(message.clone(), CHANNEL_1)?;
    let packet_bytes = server_message_manager.send_packets(Tick(0))?;

    // Client: receive the answer.
    for packet_byte in packet_bytes.iter() {
        client_message_manager
            .recv_packet(&mut ReadWordBuffer::start_read(packet_byte.as_slice()))?;
    }

    // Check that reliability works correctly.
    assert_eq!(client_message_manager.packet_to_message_ack_map().len(), 0);
    Ok(())
}

/// Long messages can be sent and received over a connection.
#[test]
fn test_message_manager_fragment_message() -> Result<(), MessageError> {
    let registry = channel_registry();

    // Create message managers.
    let mut client_message_manager = MessageManager::new(&registry);
    let mut server_message_manager = MessageManager::new(&registry);

    // Client: buffer send messages, and then send.
    const MESSAGE_SIZE: usize = (1.5 * FRAGMENT_SIZE as f32) as usize;

    let data = std::str::from_utf8(&[0; MESSAGE_SIZE]).unwrap().to_string();
    let message = MyMessageProtocol::Message1(Message1(data));
    client_message_manager.buffer_send(message.clone(), CHANNEL_1)?;
    client_message_manager.buffer_send(message.clone(), CHANNEL_2)?;
    let packet_bytes = client_message_manager.send_packets(Tick(0))?;
    assert_eq!(packet_bytes.len(), 4);
    assert_eq!(
        client_message_manager.packet_to_message_ack_map(),
        &HashMap::from([
            (
                PacketId(2).0,
                HashMap::from([(
                    CHANNEL_2,
                    vec![MessageAck { message_id: MessageId(0), fragment_id: Some(0) }]
                )])
            ),
            (
                PacketId(3).0,
                HashMap::from([(
                    CHANNEL_2,
                    vec![MessageAck { message_id: MessageId(0), fragment_id: Some(1) }]
                )])
            ),
        ])
    );

    // Server: receive bytes from the sent messages, then process them into messages.
    for packet_byte in packet_bytes.iter() {
        server_message_manager
            .recv_packet(&mut ReadWordBuffer::start_read(packet_byte.as_slice()))?;
    }
    let mut data = server_message_manager.read_messages();
    assert_eq!(data.get(&CHANNEL_1).unwrap(), &vec![(Tick(0), message.clone())]);
    assert_eq!(data.get(&CHANNEL_2).unwrap(), &vec![(Tick(0), message.clone())]);

    // Reading again, when nothing came in the meantime.
    data = server_message_manager.read_messages();
    assert!(data.is_empty());

    // Check the state of the packet headers.
    assert_eq!(client_message_manager.header_manager().next_packet_id(), PacketId(4));
    assert!(client_message_manager
        .header_manager()
        .sent_packets_not_acked()
        .contains_key(&PacketId(0).0));
    assert!(client_message_manager
        .header_manager()
        .sent_packets_not_acked()
        .contains_key(&PacketId(1).0));

    // Server sends back a message.
    server_message_manager
        .buffer_send(MyMessageProtocol::Message1(Message1("b".to_string())), CHANNEL_1)?;
    let packet_bytes = server_message_manager.send_packets(Tick(0))?;

    // Client: receive the answer.
    for packet_byte in packet_bytes.iter() {
        client_message_manager
            .recv_packet(&mut ReadWordBuffer::start_read(packet_byte.as_slice()))?;
    }

    // Check that reliability works correctly.
    assert_eq!(client_message_manager.packet_to_message_ack_map().len(), 0);
    Ok(())
}

/// A party that subscribed learns which message arrived.
#[test]
fn test_notify_ack() -> Result<(), MessageError> {
    let registry = channel_registry();

    // Create message managers.
    let mut client_message_manager = MessageManager::new(&registry);
    let mut server_message_manager = MessageManager::new(&registry);

    let update_acks_tracker = client_message_manager.subscribe_acks(CHANNEL_2).unwrap();

    let message_id = client_message_manager
        .buffer_send(MyMessageProtocol::Message2(Message2(1)), CHANNEL_2)?
        .unwrap();
    assert_eq!(message_id, MessageId(0));
    let payloads = client_message_manager.send_packets(Tick(0))?;
    assert_eq!(
        client_message_manager.packet_to_message_ack_map(),
        &HashMap::from([(
            PacketId(0).0,
            HashMap::from([(CHANNEL_2, vec![MessageAck { message_id, fragment_id: None }])])
        )])
    );

    // Server: receive bytes from the sent messages, then process them into messages.
    for payload in payloads.iter() {
        server_message_manager
            .recv_packet(&mut ReadWordBuffer::start_read(payload.as_slice()))?;
    }

    // Server sends back a message (to ack the message).
    server_message_manager.buffer_send(MyMessageProtocol::Message2(Message2(1)), CHANNEL_2)?;
    let packet_bytes = server_message_manager.send_packets(Tick(0))?;

    // Client: receive the answer.
    for packet_byte in packet_bytes.iter() {
        client_message_manager
            .recv_packet(&mut ReadWordBuffer::start_read(packet_byte.as_slice()))?;
    }

    assert_eq!(client_message_manager.next_ack(&update_acks_tracker), Some(message_id));
    Ok(())
}
