use mcproto::position::Position;

#[test]
fn test_serialization() {
    let position = Position { x: 18357644, y: 831, z: -20882616 };
    let encoded = position.encode();
    assert_eq!(encoded, 5046110948485792575);
}

#[test]
fn test_encoding_decoding() {
    let position = Position { x: 18357644, y: 831, z: -20882616 };
    let encoded = position.encode();
    let decoded = Position::decode(encoded);
    assert_eq!(position, decoded);
}

#[test]
fn decode_of_known_word() {
    assert_eq!(Position::decode(5046110948485792575), Position { x: 18357644, y: 831, z: -20882616 });
}

#[test]
fn position_extremes_round_trip() {
    for p in [
        Position { x: -33554432, y: -2048, z: -33554432 },
        Position { x: 33554431, y: 2047, z: 33554431 },
        Position { x: -1, y: -1, z: -1 },
        Position { x: 0, y: 0, z: 0 },
    ] {
        assert_eq!(Position::decode(p.encode()), p);
    }
    assert_eq!(Position { x: -1, y: -1, z: -1 }.encode(), -1);
}
