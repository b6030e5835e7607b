use bytes::Bytes;
use mcsrs::codec::{DecodeError, Transcodeable};
use mcsrs::packets::compression::{check_inflated, wrap_compressed};
use mcsrs::packets::{
    compress, compression_level, decompess, encode, named_level, read_compression_header,
    DEFAULT_COMPRESSION_LEVEL,
};
use mcsrs::packets::status::StatusPing;
use mcsrs::types::VarInt;
use mcsrs::codec::EncodeError;

#[test]
fn compression_round_trips() {
    let payloads: Vec<Vec<u8>> = vec![
        vec![],
        vec![0],
        b"hello world".to_vec(),
        vec![0xab; 1000],
        (0..=255u8).cycle().take(5000).collect(),
        encode(StatusPing(1337)).unwrap().to_vec(),
    ];
    for level in 0..=9 {
        for payload in &payloads {
            let frame = compress(Bytes::from(payload.clone()), level).unwrap();
            assert_eq!(decompess(frame).unwrap().to_vec(), *payload);
        }
    }
}

#[test]
fn compressed_frame_has_both_lengths_in_front() {
    let payload = vec![0x42u8; 300];
    let frame = compress(Bytes::from(payload.clone()), 6).unwrap();
    let mut rest = frame.clone();
    let outer = VarInt::decode(&mut rest).unwrap();
    assert_eq!(outer.0 as usize, rest.len());
    let inner = VarInt::decode(&mut rest).unwrap();
    assert_eq!(inner.0, 300);
    // the rest is a zlib stream: it starts with the zlib header byte
    assert_eq!(rest[0] & 0x0f, 8);
    assert!(rest.len() < 300);
    let mut header = frame.clone();
    assert_eq!(read_compression_header(&mut header), Ok((frame.len() - 1, 300)));
    assert_eq!(header.len(), rest.len());
}

#[test]
fn wrong_uncompressed_length_is_a_size_mismatch() {
    let frame = compress(Bytes::from(b"hello world".to_vec()), 4).unwrap().to_vec();
    assert_eq!(frame[1], 11);
    let mut more = frame.clone();
    more[1] = 12;
    assert_eq!(decompess(Bytes::from(more)), Err(DecodeError::DecompressionSizeMismatch));
    let mut less = frame.clone();
    less[1] = 10;
    assert_eq!(decompess(Bytes::from(less)), Err(DecodeError::DecompressionSizeMismatch));
    let mut none = frame;
    none[1] = 0;
    assert_eq!(decompess(Bytes::from(none)), Err(DecodeError::DecompressionSizeMismatch));
}

#[test]
fn broken_compressed_frames() {
    let frame = compress(Bytes::from(vec![9u8; 64]), 4).unwrap().to_vec();
    // cut short
    assert_eq!(
        decompess(Bytes::from(frame[..frame.len() - 1].to_vec())),
        Err(DecodeError::TruncatedInput)
    );
    assert_eq!(decompess(Bytes::new()), Err(DecodeError::TruncatedInput));
    assert_eq!(decompess(Bytes::from(vec![5u8])), Err(DecodeError::TruncatedInput));
    // a frame too short for its own announced length
    assert_eq!(decompess(Bytes::from(vec![0u8, 0])), Err(DecodeError::TruncatedInput));
    // no zlib stream
    assert_eq!(
        decompess(Bytes::from(vec![4u8, 3, 1, 2, 3])),
        Err(DecodeError::InvalidEncoding)
    );
    // a stream with its end cut off, under a frame length that fits
    let mut cut = frame.clone();
    cut.truncate(frame.len() - 4);
    cut[0] -= 4;
    assert_eq!(decompess(Bytes::from(cut)), Err(DecodeError::InvalidEncoding));
    assert_eq!(
        decompess(Bytes::from(vec![0x80u8, 0x80, 0x80, 0x80, 0x80])),
        Err(DecodeError::MalformedVarInt)
    );
}

#[test]
fn bytes_behind_the_frame_are_not_inflated() {
    let mut frame = compress(Bytes::from(b"abc".to_vec()), 4).unwrap().to_vec();
    frame.extend_from_slice(b"trailing");
    assert_eq!(decompess(Bytes::from(frame)).unwrap().to_vec(), b"abc".to_vec());
}

#[test]
fn wrapping_follows_what_the_compressor_returned() {
    assert_eq!(wrap_compressed(3, None), Err(EncodeError::CompressionFailed));
    let frame = wrap_compressed(300, Some(vec![1, 2, 3])).unwrap();
    assert_eq!(frame.to_vec(), vec![5, 0xac, 0x02, 1, 2, 3]);
    assert_eq!(wrap_compressed(0, Some(vec![])).unwrap().to_vec(), vec![1, 0]);
    assert_eq!(check_inflated(3, None), Err(DecodeError::InvalidEncoding));
    assert_eq!(check_inflated(3, Some(vec![1, 2, 3])).unwrap().to_vec(), vec![1, 2, 3]);
    assert_eq!(check_inflated(2, Some(vec![1, 2, 3])), Err(DecodeError::DecompressionSizeMismatch));
    assert_eq!(check_inflated(-1, Some(vec![])), Err(DecodeError::DecompressionSizeMismatch));
    assert_eq!(check_inflated(0, Some(vec![])).unwrap().len(), 0);
}

#[test]
fn compression_level_comes_from_the_setting() {
    assert_eq!(DEFAULT_COMPRESSION_LEVEL, 4);
    assert_eq!(compression_level(None), 4);
    for (text, level) in [("0", 0), ("1", 1), ("9", 9), ("+7", 7), ("007", 7), ("4", 4)] {
        assert_eq!(compression_level(Some(text)), level);
    }
    for text in ["10", "-1", "", "+", "fast", " 5", "5 ", "5.0", "99999999999999999999", "0x5"] {
        assert_eq!(compression_level(Some(text)), 4);
    }
}

#[test]
fn a_setting_names_a_level_or_none() {
    for (text, level) in [("0", 0), ("9", 9), ("+3", 3), ("0009", 9)] {
        assert_eq!(named_level(text), Some(level));
    }
    for text in ["10", "-1", "", "+", "nine", "4 ", "4294967296"] {
        assert_eq!(named_level(text), None);
    }
}

#[test]
fn compress_always_hands_back_a_frame_for_data_that_fits() {
    for level in 0..=9 {
        for len in [0usize, 1, 2, 100, 70000] {
            let data = vec![0x5au8; len];
            let frame = compress(Bytes::from(data.clone()), level);
            assert!(frame.is_ok());
            assert_eq!(decompess(frame.unwrap()).unwrap().to_vec(), data);
        }
    }
}
