use bytes::{Bytes, BytesMut};
use mcproto::error::BufferError;
use mcproto::reader::ProtocolBufferReaderExt;
use mcproto::varint::decode_var_int;
use uuid::Uuid;

#[test]
fn test_read_bool() {
    let mut data_buf = BytesMut::from(&[0x01][..]); // true
    assert_eq!(data_buf.read_bool().unwrap(), true);
}

#[test]
fn test_read_i8() {
    let mut data_buf = BytesMut::from(&[0x7F][..]); // 127
    assert_eq!(data_buf.read_i8().unwrap(), 127);
}

#[test]
fn test_read_u8() {
    let mut data_buf = BytesMut::from(&[0xFF][..]); // 255
    assert_eq!(data_buf.read_u8().unwrap(), 255);
}

#[test]
fn test_read_i16() {
    let mut data_buf = BytesMut::from(&[0x01, 0x00][..]); // 256
    assert_eq!(data_buf.read_i16().unwrap(), 256);
}

#[test]
fn test_read_u16() {
    let mut data_buf = BytesMut::from(&[0xFF, 0xFF][..]); // 65535
    assert_eq!(data_buf.read_u16().unwrap(), 65535);
}

#[test]
fn test_read_i32() {
    let mut data_buf = BytesMut::from(&[0x00, 0x00, 0x01, 0x00][..]); // 256
    assert_eq!(data_buf.read_i32().unwrap(), 256);
}

#[test]
fn test_read_u32() {
    let mut data_buf = BytesMut::from(&[0xFF, 0xFF, 0xFF, 0xFF][..]); // 4294967295
    assert_eq!(data_buf.read_u32().unwrap(), 4294967295);
}

#[test]
fn test_read_i64() {
    let mut data_buf = BytesMut::from(&[0x00, 0x00, 0x00, 0x00, 0x00, 0x00, 0x01, 0x00][..]); // 256
    assert_eq!(data_buf.read_i64().unwrap(), 256);
}

#[test]
fn test_read_u64() {
    let mut data_buf = BytesMut::from(&[0xFF, 0xFF, 0xFF, 0xFF, 0xFF, 0xFF, 0xFF, 0xFF][..]);
    assert_eq!(data_buf.read_u64().unwrap(), 18446744073709551615);
}

#[test]
fn test_read_f32() {
    let mut data_buf = BytesMut::from(&[0x3F, 0x80, 0x00, 0x00][..]); // 1.0 as f32
    assert_eq!(f32::from_bits(data_buf.read_u32().unwrap()), 1.0);
}

#[test]
fn test_read_f64() {
    let mut data_buf = BytesMut::from(&[0x3F, 0xF0, 0x00, 0x00, 0x00, 0x00, 0x00, 0x00][..]); // 1.0 as f64
    assert_eq!(f64::from_bits(data_buf.read_u64().unwrap()), 1.0);
}

#[test]
fn reader_test_read_var_int() {
    let mut data_buf = BytesMut::from(&[0x80, 0x80, 0x80, 0x80, 0x08][..]); // -2147483648 as VarInt
    assert_eq!(data_buf.read_var_int().unwrap(), -2147483648);
}

#[test]
fn reader_test_read_var_long() {
    let data: Vec<u8> = vec![0x80, 0x80, 0x80, 0x80, 0x80, 0x80, 0x80, 0x80, 0x80, 0x01];

    let mut buffer = BytesMut::from(&data[..]);

    assert_eq!(buffer.read_var_long().unwrap(), -9223372036854775808);
}

#[test]
fn reader_test_read_string() {
    let mut data_buf = BytesMut::from(&[0x05, b'H', b'e', b'l', b'l', b'o'][..]);
    assert_eq!(data_buf.read_string(5).unwrap(), "Hello");
}

#[test]
fn test_read_full_string() {
    let mut data_buf = BytesMut::from(&[0x05, b'H', b'e', b'l', b'l', b'o'][..]);
    assert_eq!(data_buf.read_full_string().unwrap(), "Hello");
}

#[test]
fn reader_test_read_uuid() {
    let mut data_buf = BytesMut::from(
        &[
            0x12, 0x34, 0x56, 0x78, 0x9A, 0xBC, 0xDE, 0xF0, 0x12, 0x34, 0x56, 0x78, 0x9A, 0xBC, 0xDE, 0xF1,
        ][..],
    );
    let expected_uuid = Uuid::from_bytes([
        0x12, 0x34, 0x56, 0x78, 0x9A, 0xBC, 0xDE, 0xF0, 0x12, 0x34, 0x56, 0x78, 0x9A, 0xBC, 0xDE, 0xF1,
    ]);

    assert_eq!(data_buf.read_uuid().unwrap().as_u64_pair(), expected_uuid.as_u64_pair());
}

#[test]
fn test_read_bitset() {
    let mut data_buf = BytesMut::from(&[0b10101010, 0b11110000][..]);
    assert_eq!(data_buf.read_bitset(2).unwrap(), Bytes::from(&[0b10101010, 0b11110000][..]));
}

#[test]
fn read_string_longer_than_max_is_refused() {
    let mut data_buf = BytesMut::from(&[0x05, b'H', b'e', b'l', b'l', b'o'][..]);
    assert_eq!(data_buf.read_string(4).unwrap_err(), BufferError::StringTooLarge);
    assert_eq!(data_buf.read_string(5).unwrap(), "Hello");
}

#[test]
fn read_string_cut_short_is_truncated_and_consumes_nothing() {
    let mut data_buf = BytesMut::from(&[0x09, b'm', b'i', b'n', b'e'][..]);
    assert_eq!(data_buf.read_string(32).unwrap_err(), BufferError::Truncated);
    assert_eq!(&data_buf[..], &[0x09, b'm', b'i', b'n', b'e'][..]);
}

#[test]
fn read_string_rejects_invalid_utf8() {
    let mut data_buf = BytesMut::from(&[0x02, 0xC3, 0x28][..]);
    assert_eq!(data_buf.read_string(32).unwrap_err(), BufferError::InvalidUtf8);
    assert_eq!(data_buf.len(), 3);
}

#[test]
fn read_string_decodes_multibyte_utf8() {
    let mut data_buf = BytesMut::from(&[0x06, b'h', 0xC3, 0xA9, b'l', b'l', b'o', 0xFF][..]);
    assert_eq!(data_buf.read_string(32).unwrap(), "héllo");
    assert_eq!(data_buf.read_u8().unwrap(), 0xFF);
}

#[test]
fn read_var_int_with_six_continuation_bytes_is_too_large() {
    let mut data_buf = BytesMut::from(&[0x80, 0x80, 0x80, 0x80, 0x80, 0x80, 0x01][..]);
    assert_eq!(data_buf.read_var_int().unwrap_err(), BufferError::VarIntTooLarge);
    assert_eq!(data_buf.len(), 7);
}

#[test]
fn read_var_long_with_eleven_continuation_bytes_is_too_large() {
    let mut data_buf = BytesMut::from(&[0xFF; 11][..]);
    assert_eq!(data_buf.read_var_long().unwrap_err(), BufferError::VarLongTooLarge);
}

#[test]
fn read_var_int_cut_short_is_truncated() {
    let mut data_buf = BytesMut::from(&[0xFF, 0xFF][..]);
    assert_eq!(data_buf.read_var_int().unwrap_err(), BufferError::Truncated);
}

#[test]
fn read_uuid_needs_sixteen_bytes() {
    let mut data_buf = BytesMut::from(&[0u8; 15][..]);
    assert_eq!(data_buf.read_uuid().unwrap_err(), BufferError::Truncated);
    assert_eq!(data_buf.len(), 15);
}

#[test]
fn read_fixed_bitset_rounds_bits_up_to_bytes() {
    let mut data_buf = BytesMut::from(&[0xAA, 0xBB, 0xCC][..]);
    assert_eq!(data_buf.read_fixed_bitset(9).unwrap(), Bytes::from(&[0xAA, 0xBB][..]));
    assert_eq!(data_buf.read_fixed_bitset(9).unwrap_err(), BufferError::Truncated);
}

#[test]
fn read_option_and_array_with_element_decoder() {
    let mut data_buf = BytesMut::from(&[0x01, 0x05, 0x00, 0x03, 0x01, 0xAC, 0x02, 0x7F, 0xEE][..]);
    assert_eq!(data_buf.read_option(|s: &[u8]| decode_var_int(s)).unwrap(), Some(5));
    assert_eq!(data_buf.read_option(|s: &[u8]| decode_var_int(s)).unwrap(), None);
    assert_eq!(data_buf.read_array(|s: &[u8]| decode_var_int(s)).unwrap(), vec![1, 300, 127]);
    assert_eq!(data_buf.read_u8().unwrap(), 0xEE);
}

#[test]
fn read_array_with_missing_element_fails_and_consumes_nothing() {
    let mut data_buf = BytesMut::from(&[0x03, 0x01, 0x02][..]);
    assert_eq!(data_buf.read_array(|s: &[u8]| decode_var_int(s)).unwrap_err(), BufferError::Truncated);
    assert_eq!(data_buf.len(), 3);
}
