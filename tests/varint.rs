use mcproto::error::BufferError;
use mcproto::varint::{decode_var_int, decode_var_long, encode_var_int, encode_var_long};

#[test]
fn encode_var_int_zero_is_one_byte() {
    assert_eq!(encode_var_int(0), vec![0x00]);
}

#[test]
fn encode_var_int_known_values() {
    assert_eq!(encode_var_int(1), vec![0x01]);
    assert_eq!(encode_var_int(127), vec![0x7F]);
    assert_eq!(encode_var_int(128), vec![0x80, 0x01]);
    assert_eq!(encode_var_int(300), vec![0xAC, 0x02]);
    assert_eq!(encode_var_int(2147483647), vec![0xFF, 0xFF, 0xFF, 0xFF, 0x07]);
    assert_eq!(encode_var_int(-1), vec![0xFF, 0xFF, 0xFF, 0xFF, 0x0F]);
    assert_eq!(encode_var_int(-2147483648), vec![0x80, 0x80, 0x80, 0x80, 0x08]);
}

#[test]
fn encode_var_long_known_values() {
    assert_eq!(encode_var_long(0), vec![0x00]);
    assert_eq!(encode_var_long(-1), vec![0xFF, 0xFF, 0xFF, 0xFF, 0xFF, 0xFF, 0xFF, 0xFF, 0xFF, 0x01]);
    assert_eq!(
        encode_var_long(-9223372036854775808),
        vec![0x80, 0x80, 0x80, 0x80, 0x80, 0x80, 0x80, 0x80, 0x80, 0x01]
    );
}

#[test]
fn decode_var_int_min_value() {
    assert_eq!(decode_var_int(&[0x80, 0x80, 0x80, 0x80, 0x08]), Ok((-2147483648, 5)));
}

#[test]
fn decode_var_long_min_value() {
    assert_eq!(
        decode_var_long(&[0x80, 0x80, 0x80, 0x80, 0x80, 0x80, 0x80, 0x80, 0x80, 0x01]),
        Ok((-9223372036854775808, 10))
    );
}

#[test]
fn decode_var_int_six_continuation_bytes_is_too_large() {
    assert_eq!(decode_var_int(&[0x80, 0x80, 0x80, 0x80, 0x80, 0x80]), Err(BufferError::VarIntTooLarge));
    assert_eq!(decode_var_int(&[0xFF; 64]), Err(BufferError::VarIntTooLarge));
}

#[test]
fn decode_var_int_empty_and_cut_short() {
    assert_eq!(decode_var_int(&[]), Err(BufferError::Truncated));
    assert_eq!(decode_var_int(&[0x80, 0x80]), Err(BufferError::Truncated));
}

#[test]
fn var_int_round_trip_samples() {
    for v in [0, 1, -1, 127, 128, 255, 25565, 2097151, i32::MAX, i32::MIN, -12345678] {
        let bytes = encode_var_int(v);
        assert_eq!(decode_var_int(&bytes), Ok((v, bytes.len())));
    }
}

#[test]
fn var_long_round_trip_samples() {
    for v in [0i64, 1, -1, 2147483647, -2147483648, i64::MAX, i64::MIN, 1234567890123456789] {
        let bytes = encode_var_long(v);
        assert_eq!(decode_var_long(&bytes), Ok((v, bytes.len())));
    }
}
