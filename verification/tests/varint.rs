use bytes::{Bytes, BytesMut};
use mcsrs::codec::{DecodeError, Transcodeable};
use mcsrs::types::varint::{decode_leb128, encode_leb128, leb128_size};
use mcsrs::types::{VarInt, VarLong};

fn wire_of_varint(v: i32) -> Vec<u8> {
    let mut buf = BytesMut::new();
    VarInt(v).encode(&mut buf).unwrap();
    buf.to_vec()
}

#[test]
fn varint_known_encodings() {
    assert_eq!(wire_of_varint(0), vec![0x00]);
    assert_eq!(wire_of_varint(1), vec![0x01]);
    assert_eq!(wire_of_varint(127), vec![0x7f]);
    assert_eq!(wire_of_varint(128), vec![0x80, 0x01]);
    assert_eq!(wire_of_varint(255), vec![0xff, 0x01]);
    assert_eq!(wire_of_varint(25565), vec![0xdd, 0xc7, 0x01]);
    assert_eq!(wire_of_varint(2097151), vec![0xff, 0xff, 0x7f]);
    assert_eq!(wire_of_varint(i32::MAX), vec![0xff, 0xff, 0xff, 0xff, 0x07]);
    assert_eq!(wire_of_varint(-1), vec![0xff, 0xff, 0xff, 0xff, 0x0f]);
    assert_eq!(wire_of_varint(i32::MIN), vec![0x80, 0x80, 0x80, 0x80, 0x08]);
}

#[test]
fn varint_round_trip_and_size_hint() {
    for v in [0, 1, -1, 127, 128, 16383, 16384, 756, 25565, i32::MAX, i32::MIN, -12345] {
        let wire = wire_of_varint(v);
        assert_eq!(VarInt(v).size_hint(), Some(wire.len()));
        let mut buf = Bytes::from(wire);
        assert_eq!(VarInt::decode(&mut buf), Ok(VarInt(v)));
        assert_eq!(buf.len(), 0);
    }
}

#[test]
fn varint_five_continuation_bytes_is_malformed() {
    let mut buf = Bytes::from(vec![0x80u8, 0x80, 0x80, 0x80, 0x80]);
    assert_eq!(VarInt::decode(&mut buf), Err(DecodeError::MalformedVarInt));
    let mut buf = Bytes::from(vec![0xffu8, 0xff, 0xff, 0xff, 0xff, 0x01]);
    assert_eq!(VarInt::decode(&mut buf), Err(DecodeError::MalformedVarInt));
}

#[test]
fn varint_truncated() {
    let mut buf = Bytes::new();
    assert_eq!(VarInt::decode(&mut buf), Err(DecodeError::TruncatedInput));
    let mut buf = Bytes::from(vec![0x80u8, 0x80]);
    assert_eq!(VarInt::decode(&mut buf), Err(DecodeError::TruncatedInput));
}

#[test]
fn varlong_boundaries_round_trip() {
    for v in [i64::MAX, i64::MIN, 0, -1, 1, 1337] {
        let mut buf = BytesMut::new();
        VarLong(v).encode(&mut buf).unwrap();
        assert!(buf.len() <= 10);
        assert_eq!(VarLong(v).size_hint(), Some(buf.len()));
        let mut wire = buf.freeze();
        assert_eq!(VarLong::decode(&mut wire), Ok(VarLong(v)));
        assert_eq!(wire.len(), 0);
    }
    let mut buf = BytesMut::new();
    VarLong(i64::MAX).encode(&mut buf).unwrap();
    assert_eq!(buf.to_vec(), vec![0xff, 0xff, 0xff, 0xff, 0xff, 0xff, 0xff, 0xff, 0x7f]);
    let mut buf = BytesMut::new();
    VarLong(i64::MIN).encode(&mut buf).unwrap();
    assert_eq!(
        buf.to_vec(),
        vec![0x80, 128, 128, 128, 128, 128, 128, 128, 128, 0x01]
    );
    assert_eq!(VarLong(0).size_hint(), Some(1));
}

#[test]
fn overrun_takes_exactly_the_cap() {
    let mut buf = Bytes::from(vec![0x80u8, 0x81, 0x82, 0x83, 0x84, 0x05, 0x06]);
    assert_eq!(VarInt::decode(&mut buf), Err(DecodeError::MalformedVarInt));
    assert_eq!(buf.to_vec(), vec![0x05, 0x06]);
    let mut buf = Bytes::from(vec![0xffu8; 12]);
    assert_eq!(VarLong::decode(&mut buf), Err(DecodeError::MalformedVarInt));
    assert_eq!(buf.len(), 2);
    let mut buf = Bytes::from(vec![0xffu8; 4]);
    assert_eq!(decode_leb128(&mut buf, 3), Err(DecodeError::MalformedVarInt));
    assert_eq!(buf.len(), 1);
    let mut buf = Bytes::from(vec![0xffu8; 4]);
    assert_eq!(decode_leb128(&mut buf, 0), Err(DecodeError::MalformedVarInt));
    assert_eq!(buf.len(), 4);
}

#[test]
fn running_out_of_bytes_takes_them_all() {
    let mut buf = Bytes::from(vec![0x80u8, 0x81, 0x82]);
    assert_eq!(VarInt::decode(&mut buf), Err(DecodeError::TruncatedInput));
    assert_eq!(buf.len(), 0);
}

#[test]
fn groups_of_unsigned_numbers() {
    let mut buf = BytesMut::new();
    encode_leb128(624485, &mut buf).unwrap();
    assert_eq!(buf.to_vec(), vec![0xe5, 0x8e, 0x26]);
    assert_eq!(leb128_size(624485), 3);
    assert_eq!(leb128_size(0), 1);
    assert_eq!(leb128_size(u64::MAX), 10);
    let mut wire = Bytes::from(vec![0xe5u8, 0x8e, 0x26, 0x01]);
    assert_eq!(decode_leb128(&mut wire, 10), Ok(624485));
    assert_eq!(wire.to_vec(), vec![0x01]);
    // the tenth group keeps its lowest bit only
    let mut wire = Bytes::from(vec![0xffu8, 0xff, 0xff, 0xff, 0xff, 0xff, 0xff, 0xff, 0xff, 0x7f]);
    assert_eq!(decode_leb128(&mut wire, 10), Ok(u64::MAX));
}
