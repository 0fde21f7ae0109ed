use mcproto::error::BufferError;
use mcproto::framer::{frame_packet, ConnectionState};

#[test]
fn two_frames_in_one_receive_give_two_packets_in_order() {
    let mut data = frame_packet(0x00, &[0xAA, 0xBB]).unwrap().to_vec();
    data.extend_from_slice(&frame_packet(0x21, &[0x01]).unwrap());
    assert_eq!(data, vec![0x03, 0x00, 0xAA, 0xBB, 0x02, 0x21, 0x01]);

    let mut conn = ConnectionState::new(1024);
    assert_eq!(conn.receive(&data), Ok(2));
    let packets = conn.drain();
    assert_eq!(packets.len(), 2);
    assert_eq!(packets[0].id, 0x00);
    assert_eq!(&packets[0].buffer[..], &[0xAA, 0xBB][..]);
    assert_eq!(packets[1].id, 0x21);
    assert_eq!(&packets[1].buffer[..], &[0x01][..]);
    assert!(conn.drain().is_empty());
}

#[test]
fn length_prefix_split_across_receives() {
    let payload = vec![0x5A; 200];
    let frame = frame_packet(7, &payload).unwrap().to_vec();
    assert_eq!(&frame[..2], &[0xC9, 0x01][..]);

    let mut conn = ConnectionState::new(1024);
    assert_eq!(conn.receive(&frame[..1]), Ok(0));
    assert!(conn.drain().is_empty());
    assert_eq!(conn.receive(&frame[1..]), Ok(1));
    let packets = conn.drain();
    assert_eq!(packets.len(), 1);
    assert_eq!(packets[0].id, 7);
    assert_eq!(&packets[0].buffer[..], &payload[..]);
}

#[test]
fn frame_body_split_across_receives() {
    let frame = frame_packet(3, b"hello").unwrap().to_vec();
    let mut conn = ConnectionState::new(64);
    assert_eq!(conn.receive(&frame[..4]), Ok(0));
    assert_eq!(conn.receive(&frame[4..]), Ok(1));
    let packets = conn.drain();
    assert_eq!(packets[0].id, 3);
    assert_eq!(&packets[0].buffer[..], b"hello");
}

#[test]
fn frame_longer_than_ceiling_is_refused_at_once() {
    let mut conn = ConnectionState::new(16);
    // Declares a frame of 2097151 bytes; only the prefix has arrived.
    assert_eq!(conn.receive(&[0xFF, 0xFF, 0x7F]), Err(BufferError::FrameTooLarge));
    assert!(conn.drain().is_empty());
}

#[test]
fn frame_at_ceiling_is_accepted() {
    let frame = frame_packet(1, &[9; 15]).unwrap().to_vec();
    assert_eq!(frame[0], 16);
    let mut conn = ConnectionState::new(16);
    assert_eq!(conn.receive(&frame), Ok(1));
    assert_eq!(conn.max_frame_len(), 16);
}

#[test]
fn packets_before_a_malformed_frame_are_kept() {
    let mut data = frame_packet(5, &[1, 2]).unwrap().to_vec();
    data.extend_from_slice(&[0x02, 0x80, 0x80]);
    let mut conn = ConnectionState::new(64);
    assert_eq!(conn.receive(&data), Err(BufferError::Truncated));
    let packets = conn.drain();
    assert_eq!(packets.len(), 1);
    assert_eq!(packets[0].id, 5);
}

#[test]
fn malformed_length_prefix_is_fatal() {
    let mut conn = ConnectionState::new(64);
    assert_eq!(conn.receive(&[0x80, 0x80, 0x80, 0x80, 0x80, 0x80]), Err(BufferError::VarIntTooLarge));
}

#[test]
fn empty_receive_yields_nothing() {
    let mut conn = ConnectionState::new(64);
    assert_eq!(conn.receive(&[]), Ok(0));
}

#[test]
fn read_varint_takes_value_or_leaves_buffer() {
    let mut buf = bytes::BytesMut::from(&[0xAC, 0x02, 0x01][..]);
    assert_eq!(mcproto::framer::read_varint(&mut buf), Ok(Some(300)));
    assert_eq!(&buf[..], &[0x01][..]);
    let mut short = bytes::BytesMut::from(&[0x80][..]);
    assert_eq!(mcproto::framer::read_varint(&mut short), Ok(None));
    assert_eq!(short.len(), 1);
    let mut empty = bytes::BytesMut::new();
    assert_eq!(mcproto::framer::read_varint(&mut empty), Ok(None));
}

#[test]
fn read_varint_with_five_continuation_bytes_is_an_error() {
    let mut buf = bytes::BytesMut::from(&[0x80; 5][..]);
    assert_eq!(mcproto::framer::read_varint(&mut buf), Err(BufferError::VarIntTooLarge));
    assert_eq!(buf.len(), 5);
}
