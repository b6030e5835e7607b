use bytes::{Bytes, BytesMut};
use mcsrs::codec::{DecodeError, Transcodeable};
use mcsrs::types::Position;

fn wire<T: Transcodeable>(v: &T) -> Vec<u8> {
    let mut buf = BytesMut::new();
    v.encode(&mut buf).unwrap();
    buf.to_vec()
}

#[test]
fn bool_encodes_as_one_byte() {
    assert_eq!(wire(&true), vec![1]);
    assert_eq!(wire(&false), vec![0]);
    assert_eq!(true.size_hint(), Some(1));
}

#[test]
fn bool_decodes_only_zero_and_one() {
    let mut buf = Bytes::from(vec![1u8, 0, 2]);
    assert_eq!(bool::decode(&mut buf), Ok(true));
    assert_eq!(bool::decode(&mut buf), Ok(false));
    assert_eq!(bool::decode(&mut buf), Err(DecodeError::InvalidEncoding));
    assert_eq!(bool::decode(&mut buf), Err(DecodeError::TruncatedInput));
}

#[test]
fn integers_are_big_endian() {
    assert_eq!(wire(&0x12u8), vec![0x12]);
    assert_eq!(wire(&-2i8), vec![0xfe]);
    assert_eq!(wire(&0x1234u16), vec![0x12, 0x34]);
    assert_eq!(wire(&25565u16), vec![0x63, 0xdd]);
    assert_eq!(wire(&-2i16), vec![0xff, 0xfe]);
    assert_eq!(wire(&0x01020304i32), vec![1, 2, 3, 4]);
    assert_eq!(wire(&-1i32), vec![0xff; 4]);
    assert_eq!(wire(&1337i64), vec![0, 0, 0, 0, 0, 0, 0x05, 0x39]);
    assert_eq!(wire(&i64::MIN), vec![0x80, 0, 0, 0, 0, 0, 0, 0]);
    assert_eq!(
        wire(&0xa1a2a3a4b1b2c1c2d1d2d3d4d5d6d7d8u128),
        vec![
            0xa1, 0xa2, 0xa3, 0xa4, 0xb1, 0xb2, 0xc1, 0xc2, 0xd1, 0xd2, 0xd3, 0xd4, 0xd5, 0xd6,
            0xd7, 0xd8
        ]
    );
}

#[test]
fn integers_round_trip() {
    for v in [0u8, 1, 127, 128, 255] {
        assert_eq!(u8::decode(&mut Bytes::from(wire(&v))), Ok(v));
    }
    for v in [i8::MIN, -1, 0, 1, i8::MAX] {
        assert_eq!(i8::decode(&mut Bytes::from(wire(&v))), Ok(v));
    }
    for v in [0u16, 1, 255, 256, 25565, u16::MAX] {
        assert_eq!(u16::decode(&mut Bytes::from(wire(&v))), Ok(v));
    }
    for v in [i16::MIN, -1, 0, 1, 300, i16::MAX] {
        assert_eq!(i16::decode(&mut Bytes::from(wire(&v))), Ok(v));
    }
    for v in [i32::MIN, -1, 0, 1, 756, i32::MAX] {
        assert_eq!(i32::decode(&mut Bytes::from(wire(&v))), Ok(v));
    }
    for v in [i64::MIN, -1, 0, 1, 1337, i64::MAX] {
        assert_eq!(i64::decode(&mut Bytes::from(wire(&v))), Ok(v));
    }
    for v in [0u128, 1, u128::MAX, 0xa1a2a3a4b1b2c1c2d1d2d3d4d5d6d7d8] {
        assert_eq!(u128::decode(&mut Bytes::from(wire(&v))), Ok(v));
    }
}

#[test]
fn integers_report_their_width() {
    assert_eq!(0u8.size_hint(), Some(1));
    assert_eq!(0i8.size_hint(), Some(1));
    assert_eq!(0u16.size_hint(), Some(2));
    assert_eq!(0i16.size_hint(), Some(2));
    assert_eq!(0i32.size_hint(), Some(4));
    assert_eq!(0i64.size_hint(), Some(8));
    assert_eq!(0u128.size_hint(), Some(16));
}

#[test]
fn short_buffers_are_truncated_and_left_alone() {
    let mut buf = Bytes::from(vec![1u8]);
    assert_eq!(u16::decode(&mut buf), Err(DecodeError::TruncatedInput));
    assert_eq!(buf.len(), 1);
    let mut buf = Bytes::from(vec![1u8, 2, 3]);
    assert_eq!(i32::decode(&mut buf), Err(DecodeError::TruncatedInput));
    let mut buf = Bytes::from(vec![0u8; 7]);
    assert_eq!(i64::decode(&mut buf), Err(DecodeError::TruncatedInput));
    let mut buf = Bytes::from(vec![0u8; 15]);
    assert_eq!(u128::decode(&mut buf), Err(DecodeError::TruncatedInput));
    let mut buf = Bytes::new();
    assert_eq!(u8::decode(&mut buf), Err(DecodeError::TruncatedInput));
    assert_eq!(i8::decode(&mut buf), Err(DecodeError::TruncatedInput));
    assert_eq!(i16::decode(&mut buf), Err(DecodeError::TruncatedInput));
}

#[test]
fn decoding_takes_only_its_own_bytes() {
    let mut buf = Bytes::from(vec![0x12u8, 0x34, 0x56]);
    assert_eq!(u16::decode(&mut buf), Ok(0x1234));
    assert_eq!(buf.to_vec(), vec![0x56]);
}

#[test]
fn position_packs_as_documented() {
    // x = 18357644, y = 831, z = -20882616
    let p = Position::new(18357644, 831, -20882616);
    assert_eq!(
        wire(&p),
        vec![0b01000110, 0b00000111, 0b01100011, 0b00101100, 0b00010101, 0b10110100, 0b10000011, 0b00111111]
    );
    assert_eq!(p.size_hint(), Some(8));
}

#[test]
fn position_round_trips_within_its_ranges() {
    let xs = [-(1 << 25), -1, 0, 1, (1 << 25) - 1];
    let ys = [-(1 << 11), -1, 0, 1, (1 << 11) - 1];
    for &x in &xs {
        for &y in &ys {
            for &z in &xs {
                let p = Position::new(x, y, z);
                let back = Position::decode(&mut Bytes::from(wire(&p))).unwrap();
                assert_eq!((back.x(), back.y(), back.z()), (x, y, z));
                assert_eq!(back, p);
            }
        }
    }
}

#[test]
fn position_cuts_coordinates_to_their_fields() {
    let p = Position::new(1 << 25, 1 << 11, (1 << 26) + 5);
    let back = Position::decode(&mut Bytes::from(wire(&p))).unwrap();
    assert_eq!((back.x(), back.y(), back.z()), (-(1 << 25), -(1 << 11), 5));
}

#[test]
fn position_needs_eight_bytes() {
    let mut buf = Bytes::from(vec![0u8; 7]);
    assert!(matches!(Position::decode(&mut buf), Err(DecodeError::TruncatedInput)));
}

#[test]
fn bool_takes_its_byte_whatever_it_holds() {
    let mut buf = Bytes::from(vec![2u8, 1]);
    assert_eq!(bool::decode(&mut buf), Err(DecodeError::InvalidEncoding));
    assert_eq!(buf.to_vec(), vec![1]);
    assert_eq!(bool::decode(&mut buf), Ok(true));
    assert_eq!(buf.len(), 0);
    let mut buf = Bytes::from(vec![0xffu8]);
    assert_eq!(bool::decode(&mut buf), Err(DecodeError::InvalidEncoding));
    assert_eq!(buf.len(), 0);
}
