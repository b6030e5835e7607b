use bytes::{Bytes, BytesMut};
use mcsrs::codec::{DecodeError, EncodeError, Transcodeable};
use mcsrs::types::{Array, JsonN, JsonRef, StringN, VarInt};

fn text<const N: usize>(s: &str) -> StringN<N> {
    StringN(s.to_string())
}

fn wire<T: Transcodeable>(v: &T) -> Result<Vec<u8>, EncodeError> {
    let mut buf = BytesMut::new();
    v.encode(&mut buf)?;
    Ok(buf.to_vec())
}

#[test]
fn string_is_length_then_utf8() {
    assert_eq!(wire(&text::<255>("localhost")).unwrap(), b"\x09localhost".to_vec());
    assert_eq!(wire(&text::<255>("")).unwrap(), vec![0]);
    assert_eq!(wire(&text::<4>("\u{e9}")).unwrap(), vec![2, 0xc3, 0xa9]);
    let long = "a".repeat(200);
    let mut expected = vec![0xc8, 0x01];
    expected.extend_from_slice(long.as_bytes());
    assert_eq!(wire(&text::<255>(&long)).unwrap(), expected);
}

#[test]
fn string_of_exactly_n_characters_is_sent() {
    assert!(wire(&text::<5>("hello")).is_ok());
    assert!(wire(&text::<3>("\u{20ac}\u{20ac}\u{20ac}")).is_ok());
    assert!(wire(&text::<0>("")).is_ok());
}

#[test]
fn string_of_n_plus_one_characters_is_refused() {
    assert_eq!(wire(&text::<5>("hello!")), Err(EncodeError::ValueTooLarge));
    assert_eq!(wire(&text::<0>("a")), Err(EncodeError::ValueTooLarge));
    assert_eq!(wire(&text::<2>("\u{1f600}\u{1f600}\u{1f600}")), Err(EncodeError::ValueTooLarge));
}

#[test]
fn refused_string_writes_nothing() {
    let mut buf = BytesMut::new();
    buf.extend_from_slice(b"kept");
    assert_eq!(text::<2>("abc").encode(&mut buf), Err(EncodeError::ValueTooLarge));
    assert_eq!(buf.to_vec(), b"kept".to_vec());
}

#[test]
fn string_size_hint_is_its_wire_length() {
    for s in ["", "a", "localhost", "\u{20ac}uro"] {
        let v = text::<255>(s);
        assert_eq!(v.size_hint(), Some(wire(&v).unwrap().len()));
    }
    let long = text::<300>(&"x".repeat(300));
    assert_eq!(long.size_hint(), Some(302));
}

#[test]
fn string_decodes_what_was_encoded() {
    let mut buf = Bytes::from(b"\x09localhost\x63\xdd".to_vec());
    assert_eq!(StringN::<255>::decode(&mut buf), Ok(text::<255>("localhost")));
    assert_eq!(buf.to_vec(), vec![0x63, 0xdd]);
}

#[test]
fn string_length_header_above_the_bound_is_refused() {
    let mut buf = Bytes::from(b"\x06hello!".to_vec());
    assert_eq!(
        StringN::<5>::decode(&mut buf),
        Err(DecodeError::LengthExceeded { max: 5, received: 6 })
    );
    // the bound is held against the header alone, before the bytes are looked at
    let mut buf = Bytes::from(vec![0x80u8, 0x02]);
    assert_eq!(
        StringN::<255>::decode(&mut buf),
        Err(DecodeError::LengthExceeded { max: 255, received: 256 })
    );
}

#[test]
fn string_bounds_are_not_symmetric() {
    // three characters, nine bytes: sent with the bound 3, refused with it
    let v = text::<3>("\u{20ac}\u{20ac}\u{20ac}");
    let bytes = wire(&v).unwrap();
    assert_eq!(bytes.len(), 10);
    assert_eq!(
        StringN::<3>::decode(&mut Bytes::from(bytes)),
        Err(DecodeError::LengthExceeded { max: 3, received: 9 })
    );
}

#[test]
fn string_negative_length_is_refused() {
    let mut buf = Bytes::from(vec![0xffu8, 0xff, 0xff, 0xff, 0x0f]);
    assert_eq!(
        StringN::<16>::decode(&mut buf),
        Err(DecodeError::LengthExceeded { max: 16, received: -1i32 as usize })
    );
}

#[test]
fn string_errors() {
    let mut buf = Bytes::from(b"\x05hell".to_vec());
    assert_eq!(StringN::<16>::decode(&mut buf), Err(DecodeError::TruncatedInput));
    let mut buf = Bytes::from(vec![2u8, 0xc3, 0x28]);
    assert_eq!(StringN::<16>::decode(&mut buf), Err(DecodeError::InvalidEncoding));
    let mut buf = Bytes::from(vec![1u8, 0xff]);
    assert_eq!(StringN::<16>::decode(&mut buf), Err(DecodeError::InvalidEncoding));
    let mut buf = Bytes::new();
    assert_eq!(StringN::<16>::decode(&mut buf), Err(DecodeError::TruncatedInput));
    let mut buf = Bytes::from(vec![0x80u8; 5]);
    assert_eq!(StringN::<16>::decode(&mut buf), Err(DecodeError::MalformedVarInt));
}

#[test]
fn array_is_count_then_items() {
    let a: Array<u8, VarInt> = Array::new(vec![1, 2, 3]);
    assert_eq!(wire(&a).unwrap(), vec![3, 1, 2, 3]);
    let empty: Array<u8, VarInt> = Array::new(vec![]);
    assert_eq!(wire(&empty).unwrap(), vec![0]);
    let words: Array<StringN<8>, VarInt> = Array::new(vec![text("ab"), text("c")]);
    assert_eq!(wire(&words).unwrap(), b"\x02\x02ab\x01c".to_vec());
    let big: Array<u8, VarInt> = Array::new(vec![7; 130]);
    let bytes = wire(&big).unwrap();
    assert_eq!(&bytes[..2], &[0x82, 0x01]);
    assert_eq!(bytes.len(), 132);
    assert_eq!(a.size_hint(), None);
}

#[test]
fn array_decodes_exactly_the_count() {
    let mut buf = Bytes::from(vec![3u8, 1, 2, 3, 9]);
    let a = Array::<u8, VarInt>::decode(&mut buf).unwrap();
    assert_eq!(a.0, vec![1, 2, 3]);
    assert_eq!(buf.to_vec(), vec![9]);
    let mut buf = Bytes::from(b"\x02\x02ab\x01c".to_vec());
    let words = Array::<StringN<8>, VarInt>::decode(&mut buf).unwrap();
    assert_eq!(words.0, vec![text("ab"), text("c")]);
}

#[test]
fn array_fails_on_the_first_bad_item() {
    let mut buf = Bytes::from(vec![3u8, 1, 2]);
    assert!(matches!(Array::<u8, VarInt>::decode(&mut buf), Err(DecodeError::TruncatedInput)));
    let mut buf = Bytes::from(vec![2u8, 1, 2, 1]);
    assert!(matches!(
        Array::<bool, VarInt>::decode(&mut buf),
        Err(DecodeError::InvalidEncoding)
    ));
    let mut buf = Bytes::from(b"\x02\x09toolongxx\x01c".to_vec());
    assert!(matches!(
        Array::<StringN<8>, VarInt>::decode(&mut buf),
        Err(DecodeError::LengthExceeded { max: 8, received: 9 })
    ));
    let words: Array<StringN<2>, VarInt> = Array::new(vec![text("ab"), text("abc"), text("a")]);
    assert_eq!(wire(&words), Err(EncodeError::ValueTooLarge));
}

#[test]
fn array_negative_count_is_refused() {
    let mut buf = Bytes::from(vec![0xffu8, 0xff, 0xff, 0xff, 0x0f, 1, 2]);
    assert!(matches!(Array::<u8, VarInt>::decode(&mut buf), Err(DecodeError::InvalidEncoding)));
}

#[test]
fn json_is_a_string_of_json_text() {
    let doc: JsonN<64> = JsonN("{\"a\":1}".to_string());
    assert_eq!(wire(&doc).unwrap(), b"\x07{\"a\":1}".to_vec());
    assert_eq!(doc.size_hint(), None);
    let mut buf = Bytes::from(b"\x07{\"a\":1}rest".to_vec());
    assert_eq!(JsonN::<64>::decode(&mut buf), Ok(doc));
    assert_eq!(buf.to_vec(), b"rest".to_vec());
}

#[test]
fn json_refuses_what_is_no_json() {
    let broken: JsonN<64> = JsonN("{\"a\":".to_string());
    assert_eq!(wire(&broken), Err(EncodeError::JsonSerializationFailed));
    let mut buf = Bytes::from(b"\x05{\"a\":".to_vec());
    assert_eq!(JsonN::<64>::decode(&mut buf), Err(DecodeError::InvalidEncoding));
    let mut buf = Bytes::from(b"\x04nope".to_vec());
    assert_eq!(JsonN::<64>::decode(&mut buf), Err(DecodeError::InvalidEncoding));
}

#[test]
fn json_keeps_the_string_bound() {
    let doc: JsonN<4> = JsonN("[1,2,3]".to_string());
    assert_eq!(wire(&doc), Err(EncodeError::ValueTooLarge));
    let mut buf = Bytes::from(b"\x07[1,2,3]".to_vec());
    assert_eq!(
        JsonN::<4>::decode(&mut buf),
        Err(DecodeError::LengthExceeded { max: 4, received: 7 })
    );
    let mut buf = Bytes::from(b"\x07[1,2".to_vec());
    assert_eq!(JsonN::<16>::decode(&mut buf), Err(DecodeError::TruncatedInput));
}

#[test]
fn json_ref_sends_as_json_does() {
    let mut buf = BytesMut::new();
    JsonRef::<64>("[true]").encode(&mut buf).unwrap();
    assert_eq!(buf.to_vec(), b"\x06[true]".to_vec());
    let mut buf = BytesMut::new();
    assert_eq!(JsonRef::<64>("[true").encode(&mut buf), Err(EncodeError::JsonSerializationFailed));
    assert_eq!(buf.len(), 0);
    let mut wire = Bytes::from(b"\x06[true]".to_vec());
    assert_eq!(JsonRef::<64>::decode(&mut wire), Ok(JsonN("[true]".to_string())));
}
