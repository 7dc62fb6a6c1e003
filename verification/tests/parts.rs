//! The parts of the message layer, one by one.
use lightyear::channel::receiver::ReceiveError;
use lightyear::channel::registry::ChannelRegistry;
use lightyear::channel::settings::{ChannelMode, ChannelSettings, ReliableSettings};
use lightyear::header::PacketHeader;
use lightyear::ids::{MessageId, PacketId, Tick};
use lightyear::manager_model::MessageError;
use lightyear::message::{count_fragments, cut, MessageAck, MessageContainer, SingleData};
use lightyear::serialize::{
    BitSerializable, ReadBuffer, ReadWordBuffer, SerializeError, WriteBuffer, WriteWordBuffer,
};

#[test]
fn fragments_are_counted() {
    let counts: Vec<usize> =
        [0, 1, 1150, 1151, 2300, 2301].iter().map(|n| count_fragments(*n)).collect();
    assert_eq!(counts, vec![0, 1, 1, 2, 2, 3]);
}

#[test]
fn long_messages_are_cut() {
    let bytes: Vec<u8> = (0..2500).map(|i| (i % 256) as u8).collect();
    let pieces = cut(Some(MessageId(4)), bytes.clone());
    let mut whole = Vec::new();
    let mut acks = Vec::new();
    for piece in pieces.iter() {
        acks.push(piece.message_ack());
        match piece {
            MessageContainer::Fragment(data) => {
                assert_eq!(data.num_fragments, 3);
                whole.extend_from_slice(&data.bytes);
            }
            MessageContainer::Single(_) => panic!("not cut"),
        }
    }
    assert_eq!(whole, bytes);
    let expected: Vec<Option<MessageAck>> = (0..3)
        .map(|i| Some(MessageAck { message_id: MessageId(4), fragment_id: Some(i) }))
        .collect();
    assert_eq!(acks, expected);
}

#[test]
fn short_messages_are_not_cut() {
    let pieces = cut(None, vec![9; 1150]);
    assert_eq!(pieces.len(), 1);
    assert_eq!(
        pieces[0],
        MessageContainer::Single(SingleData { id: None, tick: None, bytes: vec![9; 1150] })
    );
    assert_eq!(pieces[0].num_bytes(), 1153);
    assert_eq!(pieces[0].message_ack(), None);
}

#[test]
fn ticks_are_set() {
    let mut message =
        MessageContainer::Single(SingleData { id: None, tick: None, bytes: vec![] });
    message.set_tick(Tick(8));
    assert_eq!(
        message,
        MessageContainer::Single(SingleData { id: None, tick: Some(Tick(8)), bytes: vec![] })
    );
}

#[test]
fn header_goes_over_the_wire() {
    let header = PacketHeader {
        packet_id: PacketId(0x0102),
        last_ack_packet_id: Some(PacketId(0x0304)),
        ack_bitfield: 0x05060708,
        tick: Tick(0x090a),
    };
    let mut writer = WriteWordBuffer::with_capacity(16);
    header.encode(&mut writer);
    let bytes = writer.finish_write();
    assert_eq!(bytes, vec![2, 1, 1, 4, 3, 8, 7, 6, 5, 10, 9]);
    assert_eq!(PacketHeader::decode(&mut ReadWordBuffer::start_read(&bytes)), Some(header));
    assert_eq!(PacketHeader::decode(&mut ReadWordBuffer::start_read(&bytes[..10])), None);
}

#[test]
fn message_ids_wrap_around() {
    assert_eq!(MessageId(65535).next(), MessageId(0));
    assert!(MessageId(65535).is_behind(MessageId(0)));
    assert!(MessageId(32768).is_behind(MessageId(0)));
    assert!(!MessageId(32767).is_behind(MessageId(0)));
    assert!(!MessageId(5).is_behind(MessageId(5)));
}

#[test]
fn resend_delay_is_bounded_from_below() {
    let settings = ReliableSettings { rtt_resend_factor: 3, rtt_resend_min_delay: 20 };
    assert_eq!(settings.resend_delay(0), 20);
    assert_eq!(settings.resend_delay(6), 20);
    assert_eq!(settings.resend_delay(7), 21);
    assert_eq!(settings.resend_delay(u64::MAX), u64::MAX);
}

#[test]
fn channels_get_net_ids_in_order() {
    let settings = ChannelSettings { mode: ChannelMode::UnorderedUnreliable };
    let mut registry = ChannelRegistry::new();
    assert!(registry.add_channel(70, settings));
    assert!(registry.add_channel(30, settings));
    assert!(!registry.add_channel(70, settings));
    assert_eq!(registry.get_net_from_kind(70), Some(0));
    assert_eq!(registry.get_net_from_kind(30), Some(1));
    assert_eq!(registry.get_net_from_kind(50), None);
    assert_eq!(registry.get_kind_from_net_id(1), Some(30));
    assert_eq!(registry.get_kind_from_net_id(2), None);
    assert_eq!(registry.clone().get_net_from_kind(30), Some(1));
    assert_eq!(registry.channels().len(), 2);
}

#[test]
fn integers_are_messages() {
    let mut writer = WriteWordBuffer::with_capacity(4);
    0xdeadbeefu32.encode(&mut writer).unwrap();
    let bytes = writer.finish_write();
    assert_eq!(bytes, vec![0xef, 0xbe, 0xad, 0xde]);
    assert_eq!(u32::decode(&mut ReadWordBuffer::start_read(&bytes)), Ok(0xdeadbeef));
    assert_eq!(
        u32::decode(&mut ReadWordBuffer::start_read(&bytes[1..])),
        Err(SerializeError::EndOfBuffer)
    );
}

#[test]
fn modes_tell_whether_acks_matter() {
    assert!(!ChannelMode::UnorderedUnreliable.is_watching_acks());
    assert!(ChannelMode::UnorderedUnreliableWithAcks.is_watching_acks());
    let settings = ReliableSettings { rtt_resend_factor: 1, rtt_resend_min_delay: 1 };
    assert!(ChannelMode::OrderedReliable(settings).is_watching_acks());
}

#[test]
fn errors_say_what_went_wrong() {
    assert_eq!(MessageError::ChannelNotFound.message(), "Channel not found");
    for net_id in [0u16, 7, 10, 305, 65535] {
        assert_eq!(
            MessageError::UnknownNetId(net_id).message(),
            format!("Could not recognize net_id {} as a channel", net_id)
        );
    }
    assert_eq!(MessageError::InvalidPacket.message(), "Could not decode packet");
    assert_eq!(MessageError::Serialize(SerializeError::EndOfBuffer).message(), "End of buffer");
    assert_eq!(MessageError::Serialize(SerializeError::InvalidValue).message(), "Invalid value");
    assert_eq!(
        MessageError::Receive(ReceiveError::MissingMessageId).message(),
        "Missing message id"
    );
    assert_eq!(MessageError::Receive(ReceiveError::InvalidFragment).message(), "Invalid fragment");
}

#[test]
fn numbers_are_written_in_decimal() {
    for n in [0u16, 9, 10, 19, 100, 1234, 40506, 65535] {
        assert_eq!(lightyear::text::decimal(n), n.to_string());
    }
}
