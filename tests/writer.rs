use bytes::{Bytes, BytesMut};
use mcproto::error::BufferError;
use mcproto::reader::ProtocolBufferReaderExt;
use mcproto::varint::encode_var_int;
use mcproto::wire_uuid::WireUuid;
use mcproto::writer::ProtocolBufferWriterExt;
use rand::RngCore;
use uuid::{Builder, Variant, Version};

#[test]
fn test_write_bool() {
    let value = true;
    let mut buffer = BytesMut::new();

    buffer.write_bool(&value);

    let result = buffer.read_bool().unwrap();
    assert_eq!(result, value);
}

#[test]
fn test_write_i8() {
    let value: i8 = -123;
    let mut buffer = BytesMut::new();

    buffer.write_i8(&value);

    let result = buffer.read_i8().unwrap();
    assert_eq!(result, value);
}

#[test]
fn test_write_u8() {
    let value: u8 = 200;
    let mut buffer = BytesMut::new();

    buffer.write_u8(&value);

    let result = buffer.read_u8().unwrap();
    assert_eq!(result, value);
}

#[test]
fn test_write_i16() {
    let value: i16 = -32000;
    let mut buffer = BytesMut::new();

    buffer.write_i16(&value);

    let result = buffer.read_i16().unwrap();
    assert_eq!(result, value);
}

#[test]
fn test_write_u16() {
    let value: u16 = 65000;
    let mut buffer = BytesMut::new();

    buffer.write_u16(&value);

    let result = buffer.read_u16().unwrap();
    assert_eq!(result, value);
}

#[test]
fn test_write_i32() {
    let value: i32 = -2000000000;
    let mut buffer = BytesMut::new();

    buffer.write_i32(&value);

    let result = buffer.read_i32().unwrap();
    assert_eq!(result, value);
}

#[test]
fn test_write_u32() {
    let value: u32 = 4000000000;
    let mut buffer = BytesMut::new();

    buffer.write_u32(&value);

    let result = buffer.read_u32().unwrap();
    assert_eq!(result, value);
}

#[test]
fn test_write_i64() {
    let value: i64 = -9000000000000000000;
    let mut buffer = BytesMut::new();

    buffer.write_i64(&value);

    let result = buffer.read_i64().unwrap();
    assert_eq!(result, value);
}

#[test]
fn test_write_u64() {
    let value: u64 = 18000000000000000000;
    let mut buffer = BytesMut::new();

    buffer.write_u64(&value);

    let result = buffer.read_u64().unwrap();
    assert_eq!(result, value);
}

#[test]
fn test_write_f32() {
    let value: f32 = 3.14159;
    let mut buffer = BytesMut::new();

    buffer.write_u32(&value.to_bits());

    let result = f32::from_bits(buffer.read_u32().unwrap());
    assert_eq!(result, value);
}

#[test]
fn test_write_f64() {
    let value: f64 = 2.718281828459045;
    let mut buffer = BytesMut::new();

    buffer.write_u64(&value.to_bits());

    let result = f64::from_bits(buffer.read_u64().unwrap());
    assert_eq!(result, value);
}

#[test]
fn test_write_string() {
    let value = "Hello, world!";
    let mut buffer = BytesMut::new();

    buffer.write_string(&value, 256).unwrap();

    let result = buffer.read_string(256).unwrap();
    assert_eq!(result, value);
}

#[test]
fn test_write_full_string() {
    let value = "Full test string!";
    let mut buffer = BytesMut::new();

    buffer.write_full_string(&value).unwrap();

    let result = buffer.read_full_string().unwrap();
    assert_eq!(result, value);
}

#[test]
fn test_write_var_int() {
    let value: i32 = 123456;
    let mut buffer = BytesMut::new();

    buffer.write_var_int(&value);

    let result = buffer.read_var_int().unwrap();
    assert_eq!(result, value);
}

#[test]
fn test_write_var_long() {
    let value: i64 = 1234567890123456789;
    let mut buffer = BytesMut::new();

    buffer.write_var_long(&value);

    let result = buffer.read_var_long().unwrap();
    assert_eq!(result, value);
}

#[test]
fn test_write_uuid() {
    let mut bytes = [0u8; 16];

    rand::thread_rng().fill_bytes(&mut bytes);

    let mut binding = Builder::from_bytes(bytes);
    let value = binding.set_variant(Variant::RFC4122).set_version(Version::Random).as_uuid();
    let (high, low) = value.as_u64_pair();

    let mut buffer = BytesMut::new();

    buffer.write_uuid(&WireUuid::from_u64_pair(high, low));
    assert_eq!(buffer.len(), 16);

    let result = buffer.read_uuid().unwrap();
    assert_eq!(result.as_u64_pair(), value.as_u64_pair());
}

#[test]
fn write_fixed_width_is_big_endian() {
    let mut buffer = BytesMut::new();
    buffer.write_i16(&-2);
    buffer.write_u32(&0x0102_0304);
    buffer.write_i64(&-1);
    assert_eq!(
        &buffer[..],
        &[0xFF, 0xFE, 0x01, 0x02, 0x03, 0x04, 0xFF, 0xFF, 0xFF, 0xFF, 0xFF, 0xFF, 0xFF, 0xFF][..]
    );
}

#[test]
fn write_bool_emits_zero_or_one() {
    let mut buffer = BytesMut::new();
    buffer.write_bool(&true);
    buffer.write_bool(&false);
    assert_eq!(&buffer[..], &[1, 0][..]);
}

#[test]
fn write_string_over_max_is_refused_and_writes_nothing() {
    let mut buffer = BytesMut::new();
    assert_eq!(buffer.write_string("minecraft", 8).unwrap_err(), BufferError::StringTooLarge);
    assert_eq!(buffer.len(), 0);
}

#[test]
fn write_string_then_read_string_round_trips() {
    let mut buffer = BytesMut::new();
    buffer.write_string("minecraft", 32).unwrap();
    assert_eq!(&buffer[..1], &[9][..]);
    assert_eq!(buffer.read_string(32).unwrap(), "minecraft");
}

#[test]
fn write_string_cut_short_reads_as_truncated() {
    let mut buffer = BytesMut::new();
    buffer.write_string("minecraft", 32).unwrap();
    let mut cut = buffer.split_to(6);
    assert_eq!(cut.read_string(32).unwrap_err(), BufferError::Truncated);
}

#[test]
fn write_uuid_known_value_round_trips() {
    let value = uuid::Uuid::parse_str("550e8400-e29b-41d4-a716-446655440000").unwrap();
    let (high, low) = value.as_u64_pair();
    let mut buffer = BytesMut::new();
    buffer.write_uuid(&WireUuid::from_u64_pair(high, low));
    assert_eq!(&buffer[..], value.as_bytes());
    assert_eq!(buffer.read_uuid().unwrap().as_u64_pair(), (high, low));
}

#[test]
fn write_option_and_array_carry_flag_and_count() {
    let mut buffer = BytesMut::new();
    buffer.write_option(Some(300), |v: &i32| encode_var_int(*v));
    buffer.write_option(None, |v: &i32| encode_var_int(*v));
    buffer.write_array(vec![1, 300], |v: &i32| encode_var_int(*v));
    assert_eq!(&buffer[..], &[1, 0xAC, 0x02, 0, 2, 1, 0xAC, 0x02][..]);
}

// `write_bitset` puts a VarInt word count before the words, and
// `read_fixed_bitset(bits)` takes `ceil(bits / 8)` raw bytes. So reading a
// 2-bit fixed bitset right after writing gives one byte, the count, rather
// than the two low bytes of the words; the words follow it, big-endian.
#[test]
fn test_write_bitset() {
    let value: Vec<i64> = vec![0b10101010, 0b11110000];
    let mut buffer = BytesMut::new();

    // Write the value
    buffer.write_bitset(&value);

    // Read the value back
    let result = buffer.read_fixed_bitset(2).unwrap();
    assert_eq!(result, Bytes::from(&[0x02][..]));
    assert_eq!(buffer.read_fixed_bitset(64).unwrap(), Bytes::from(&[0, 0, 0, 0, 0, 0, 0, 0b10101010][..]));
    assert_eq!(buffer.read_fixed_bitset(64).unwrap(), Bytes::from(&[0, 0, 0, 0, 0, 0, 0, 0b11110000][..]));
    assert!(buffer.is_empty());
}

#[test]
fn write_bitset_writes_count_then_words() {
    let value: Vec<i64> = vec![0b10101010, 0b11110000];
    let mut buffer = BytesMut::new();
    buffer.write_bitset(&value);
    assert_eq!(buffer.len(), 17);
    assert_eq!(buffer.read_var_int().unwrap(), 2);
    assert_eq!(buffer.read_i64().unwrap(), 0b10101010);
    assert_eq!(buffer.read_i64().unwrap(), 0b11110000);
}
