use byteorder::{BigEndian, WriteBytesExt};
use bytes::Bytes;
use rtmp_core::messages::types::abort::{deserialize, serialize};
use rtmp_core::messages::{
    MessageDeserializationError, MessageDeserializationErrorKind, RtmpMessage,
};
use std::io::Cursor;

#[test]
fn can_serialize_message() {
    let id: u32 = 523;
    let mut cursor = Cursor::new(Vec::new());
    cursor.write_u32::<BigEndian>(id).unwrap();
    let expected = cursor.into_inner();

    let raw_message = serialize(id).unwrap();

    assert_eq!(&raw_message[..], &expected[..]);
}

#[test]
fn can_deserialize_message() {
    let id: u32 = 532;
    let expected = RtmpMessage::Abort { stream_id: id };

    let mut cursor = Cursor::new(Vec::new());
    cursor.write_u32::<BigEndian>(id).unwrap();

    let bytes = Bytes::from(cursor.into_inner());
    let result = deserialize(bytes).unwrap();
    assert_eq!(result, expected);
}

#[test]
fn serialize_writes_four_big_endian_bytes() {
    let raw_message = serialize(523).unwrap();
    assert_eq!(&raw_message[..], &[0x00u8, 0x00, 0x02, 0x0B][..]);
    assert_eq!(raw_message.len(), 4);
}

#[test]
fn deserialize_reads_four_big_endian_bytes() {
    let bytes = Bytes::from(vec![0x00u8, 0x00, 0x02, 0x0B]);
    assert_eq!(deserialize(bytes).unwrap(), RtmpMessage::Abort { stream_id: 523 });
}

#[test]
fn serialize_orders_every_byte() {
    let raw_message = serialize(0x0102_0304).unwrap();
    assert_eq!(&raw_message[..], &[0x01u8, 0x02, 0x03, 0x04][..]);
    let highest = serialize(u32::MAX).unwrap();
    assert_eq!(&highest[..], &[0xFFu8, 0xFF, 0xFF, 0xFF][..]);
    let lowest = serialize(0).unwrap();
    assert_eq!(&lowest[..], &[0x00u8, 0x00, 0x00, 0x00][..]);
}

#[test]
fn deserialize_orders_every_byte() {
    let bytes = Bytes::from(vec![0x01u8, 0x02, 0x03, 0x04]);
    assert_eq!(deserialize(bytes).unwrap(), RtmpMessage::Abort { stream_id: 0x0102_0304 });
    let bytes = Bytes::from(vec![0x80u8, 0x00, 0x00, 0x00]);
    assert_eq!(deserialize(bytes).unwrap(), RtmpMessage::Abort { stream_id: 0x8000_0000 });
}

#[test]
fn abort_round_trips_for_many_stream_ids() {
    let mut id: u32 = 0;
    let mut step: u32 = 1;
    for _ in 0..5000 {
        let raw_message = serialize(id).unwrap();
        assert_eq!(raw_message.len(), 4);
        assert_eq!(deserialize(raw_message).unwrap(), RtmpMessage::Abort { stream_id: id });
        id = id.wrapping_add(step);
        step = step.wrapping_mul(3).wrapping_add(7);
    }
    for id in [0u32, 1, 255, 256, 65535, 65536, 0x00FF_FFFF, 0x0100_0000, u32::MAX] {
        let raw_message = serialize(id).unwrap();
        assert_eq!(deserialize(raw_message).unwrap(), RtmpMessage::Abort { stream_id: id });
    }
}

#[test]
fn deserialize_rejects_every_truncated_input() {
    let full = vec![0x00u8, 0x00, 0x02, 0x0B];
    for length in 0..4usize {
        let bytes = Bytes::from(full[..length].to_vec());
        let result = deserialize(bytes);
        assert_eq!(
            result,
            Err(MessageDeserializationError { kind: MessageDeserializationErrorKind::UnexpectedEof })
        );
    }
}

#[test]
fn deserialize_ignores_what_follows_the_fourth_byte() {
    let bytes = Bytes::from(vec![0x00u8, 0x00, 0x02, 0x0B, 0xAA, 0xBB]);
    assert_eq!(deserialize(bytes).unwrap(), RtmpMessage::Abort { stream_id: 523 });
}

#[test]
fn deserialize_reads_a_slice_of_a_larger_buffer() {
    let whole = Bytes::from(vec![0xEEu8, 0x00, 0x00, 0x02, 0x0B, 0xEE]);
    let body = whole.slice(1..5);
    assert_eq!(deserialize(body).unwrap(), RtmpMessage::Abort { stream_id: 523 });
}
