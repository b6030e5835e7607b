use bytes::{Bytes, BytesMut};
use mcsrs::codec::{DecodeError, EncodeError, Packet, Transcodeable};
use mcsrs::packets::login::{
    Disconnect, EncryptionRequest, EncryptionResponse, LoginStart, LoginSuccess, SetCompression,
};
use mcsrs::packets::status::{StatusPing, StatusPong, StatusRequest, StatusResponse};
use mcsrs::packets::{
    decode, encode, frame_body, next_frame, read_header, take_frames, Handshake,
};
use mcsrs::types::{Array, JsonN, StringN, VarInt};

fn handshake(next: i32) -> Handshake {
    Handshake {
        version: VarInt(756),
        address: StringN("localhost".to_string()),
        port: 25565,
        next: VarInt(next),
    }
}

const HANDSHAKE_FRAME: &[u8] = b"\x10\x00\xf4\x05\x09localhost\x63\xdd\x01";

#[test]
fn handshake_frame_is_byte_exact() {
    assert_eq!(encode(handshake(1)).unwrap().to_vec(), HANDSHAKE_FRAME.to_vec());
    assert_eq!(handshake(1).size_hint(), Some(15));
    assert_eq!(Handshake::id(), 0);
    assert_eq!(handshake(1).id_self(), 0);
}

#[test]
fn handshake_fields_are_in_declaration_order() {
    let mut buf = BytesMut::new();
    handshake(2).encode(&mut buf).unwrap();
    assert_eq!(buf.to_vec(), b"\xf4\x05\x09localhost\x63\xdd\x02".to_vec());
    let mut body = buf.freeze();
    assert_eq!(Handshake::decode(&mut body), Ok(handshake(2)));
    assert_eq!(body.len(), 0);
}

#[test]
fn handshake_frame_decodes() {
    let mut buf = Bytes::from_static(HANDSHAKE_FRAME);
    assert_eq!(decode::<Handshake>(&mut buf), Ok(handshake(1)));
    assert_eq!(buf.len(), 0);
}

#[test]
fn frame_with_another_id_is_unexpected() {
    let mut buf = Bytes::from_static(b"\x09\x01\x00\x00\x00\x00\x00\x00\x05\x39");
    assert_eq!(decode::<Handshake>(&mut buf), Err(DecodeError::UnexpectedMessageId));
    let mut buf = Bytes::from_static(HANDSHAKE_FRAME);
    assert_eq!(decode::<StatusPing>(&mut buf), Err(DecodeError::UnexpectedMessageId));
}

#[test]
fn frame_longer_than_the_buffer_is_truncated() {
    let mut buf = Bytes::from_static(&HANDSHAKE_FRAME[..10]);
    assert_eq!(decode::<Handshake>(&mut buf), Err(DecodeError::TruncatedInput));
    let mut buf = Bytes::from_static(b"\x10");
    assert_eq!(decode::<Handshake>(&mut buf), Err(DecodeError::TruncatedInput));
    let mut buf = Bytes::new();
    assert_eq!(decode::<Handshake>(&mut buf), Err(DecodeError::TruncatedInput));
}

#[test]
fn frame_length_bounds_the_fields() {
    // the frame announces 3 bytes: the id and two more, not enough for a ping
    let mut buf = Bytes::from_static(b"\x03\x01\x00\x00\x00\x00\x00\x00\x05\x39");
    assert_eq!(decode::<StatusPing>(&mut buf), Err(DecodeError::TruncatedInput));
    // a length too short to hold the id
    let mut buf = Bytes::from_static(b"\x00\x00");
    assert_eq!(decode::<StatusRequest>(&mut buf), Err(DecodeError::TruncatedInput));
    // a negative length
    let mut buf = Bytes::from_static(b"\xff\xff\xff\xff\x0f\x00");
    assert_eq!(decode::<StatusRequest>(&mut buf), Err(DecodeError::TruncatedInput));
}

#[test]
fn frame_bytes_behind_the_fields_are_passed_over() {
    let mut buf = Bytes::from_static(b"\x03\x00\xaa\xbb\x01\x00");
    assert_eq!(decode::<StatusRequest>(&mut buf), Ok(StatusRequest));
    assert_eq!(buf.to_vec(), vec![0x01, 0x00]);
    assert_eq!(decode::<StatusRequest>(&mut buf), Ok(StatusRequest));
    assert_eq!(buf.len(), 0);
}

#[test]
fn malformed_header_is_malformed() {
    let mut buf = Bytes::from_static(b"\x80\x80\x80\x80\x80\x00");
    assert_eq!(decode::<StatusRequest>(&mut buf), Err(DecodeError::MalformedVarInt));
    let mut buf = Bytes::from_static(b"\x01\x80\x80\x80\x80\x80");
    assert_eq!(decode::<StatusRequest>(&mut buf), Err(DecodeError::MalformedVarInt));
}

#[test]
fn read_header_gives_length_and_id() {
    let mut buf = Bytes::from_static(HANDSHAKE_FRAME);
    assert_eq!(read_header(&mut buf), Ok((16, 0)));
    assert_eq!(buf.len(), 15);
    let mut buf = Bytes::from_static(b"\xc8\x01\x26rest");
    assert_eq!(read_header(&mut buf), Ok((200, 0x26)));
    assert_eq!(buf.to_vec(), b"rest".to_vec());
    let mut buf = Bytes::from_static(b"\xc8");
    assert_eq!(read_header(&mut buf), Err(DecodeError::TruncatedInput));
    let mut buf = Bytes::from_static(b"\x01");
    assert_eq!(read_header(&mut buf), Err(DecodeError::TruncatedInput));
}

#[test]
fn status_packets() {
    assert_eq!(encode(StatusRequest).unwrap().to_vec(), vec![1, 0]);
    assert_eq!(StatusRequest.size_hint(), Some(0));
    assert_eq!(
        encode(StatusPing(1337)).unwrap().to_vec(),
        vec![9, 1, 0, 0, 0, 0, 0, 0, 0x05, 0x39]
    );
    assert_eq!(
        encode(StatusPong(-1)).unwrap().to_vec(),
        vec![9, 1, 0xff, 0xff, 0xff, 0xff, 0xff, 0xff, 0xff, 0xff]
    );
    assert_eq!(StatusPong(0).size_hint(), Some(8));
    let mut buf = Bytes::from_static(b"\x09\x01\x00\x00\x00\x00\x00\x00\x05\x39");
    assert_eq!(decode::<StatusPing>(&mut buf), Ok(StatusPing(1337)));
    let mut buf = Bytes::from_static(b"\x09\x01\x00\x00\x00\x00\x00\x00\x05\x39");
    assert_eq!(decode::<StatusPong>(&mut buf), Ok(StatusPong(1337)));
    assert_eq!((StatusRequest::id(), StatusResponse::id()), (0, 0));
    assert_eq!((StatusPing::id(), StatusPong::id()), (1, 1));
}

#[test]
fn packet_without_size_hint_is_measured() {
    let doc = "{\"text\":\"hi\"}";
    let frame = encode(StatusResponse(JsonN(doc.to_string()))).unwrap();
    let mut expected = vec![15u8, 0, 13];
    expected.extend_from_slice(doc.as_bytes());
    assert_eq!(frame.to_vec(), expected);
    let mut buf = frame;
    assert_eq!(decode::<StatusResponse>(&mut buf), Ok(StatusResponse(JsonN(doc.to_string()))));
    assert_eq!(
        encode(StatusResponse(JsonN("{".to_string()))),
        Err(EncodeError::JsonSerializationFailed)
    );
    assert_eq!(encode(Disconnect(JsonN("\"bye\"".to_string()))).unwrap().to_vec(), b"\x07\x00\x05\"bye\"".to_vec());
}

#[test]
fn packet_that_cannot_be_encoded_has_no_frame() {
    let name = "seventeen_letters".to_string();
    assert_eq!(encode(LoginStart(StringN(name))), Err(EncodeError::ValueTooLarge));
    let hello = Handshake {
        version: VarInt(756),
        address: StringN("x".repeat(256)),
        port: 1,
        next: VarInt(1),
    };
    assert_eq!(encode(hello), Err(EncodeError::ValueTooLarge));
}

#[test]
fn login_packets() {
    assert_eq!(encode(LoginStart(StringN("Notch".to_string()))).unwrap().to_vec(), b"\x07\x00\x05Notch".to_vec());
    assert_eq!(encode(SetCompression(VarInt(256))).unwrap().to_vec(), vec![3, 3, 0x80, 0x02]);
    let ok = LoginSuccess { uuid: 0x0102030405060708090a0b0c0d0e0f10, username: StringN("Notch".to_string()) };
    let frame = encode(ok).unwrap();
    assert_eq!(
        frame.to_vec(),
        b"\x17\x02\x01\x02\x03\x04\x05\x06\x07\x08\x09\x0a\x0b\x0c\x0d\x0e\x0f\x10\x05Notch".to_vec()
    );
    let mut buf = frame;
    let back: LoginSuccess = decode(&mut buf).unwrap();
    assert_eq!(back.uuid, 0x0102030405060708090a0b0c0d0e0f10);
    assert_eq!(back.username, StringN("Notch".to_string()));
    let request = EncryptionRequest {
        server_id: StringN("".to_string()),
        public_key: Array::new(vec![1, 2, 3]),
        verify_token: Array::new(vec![9, 8, 7, 6]),
    };
    assert_eq!(request.size_hint(), None);
    let frame = encode(request).unwrap();
    assert_eq!(frame.to_vec(), vec![11, 1, 0, 3, 1, 2, 3, 4, 9, 8, 7, 6]);
    let mut buf = frame;
    let back: EncryptionRequest = decode(&mut buf).unwrap();
    assert_eq!(back.public_key.0, vec![1, 2, 3]);
    assert_eq!(back.verify_token.0, vec![9, 8, 7, 6]);
    let response = EncryptionResponse { shared_secret: Array::new(vec![5; 2]), verify_token: Array::new(vec![]) };
    let frame = encode(response).unwrap();
    assert_eq!(frame.to_vec(), vec![5, 1, 2, 5, 5, 0]);
    let mut buf = frame;
    let back: EncryptionResponse = decode(&mut buf).unwrap();
    assert_eq!(back.shared_secret.0, vec![5, 5]);
    assert_eq!(back.verify_token.0, Vec::<u8>::new());
    assert_eq!((Disconnect::id(), EncryptionRequest::id(), LoginSuccess::id(), SetCompression::id()), (0, 1, 2, 3));
    assert_eq!((LoginStart::id(), EncryptionResponse::id()), (0, 1));
}

#[test]
fn multi_field_packet_fails_on_its_first_bad_field() {
    let mut buf = Bytes::from_static(b"\x0e\x00\xf4\x05\x09localhost\x63");
    assert_eq!(decode::<Handshake>(&mut buf), Err(DecodeError::TruncatedInput));
    let mut buf = Bytes::from_static(b"\x06\x00\xf4\x05\x02\xc3\x28");
    assert_eq!(decode::<Handshake>(&mut buf), Err(DecodeError::InvalidEncoding));
}

#[test]
fn next_frame_waits_for_the_whole_frame() {
    let mut buf = BytesMut::new();
    assert_eq!(next_frame(&mut buf), Ok(None));
    for i in 0..HANDSHAKE_FRAME.len() - 1 {
        buf.extend_from_slice(&HANDSHAKE_FRAME[i..i + 1]);
        assert_eq!(next_frame(&mut buf), Ok(None));
        assert_eq!(buf.to_vec(), HANDSHAKE_FRAME[..i + 1].to_vec());
    }
    buf.extend_from_slice(&HANDSHAKE_FRAME[HANDSHAKE_FRAME.len() - 1..]);
    let frame = next_frame(&mut buf).unwrap().unwrap();
    assert_eq!(frame.to_vec(), HANDSHAKE_FRAME.to_vec());
    assert_eq!(buf.len(), 0);
    assert_eq!(next_frame(&mut buf), Ok(None));
}

#[test]
fn next_frame_takes_exactly_one_frame() {
    let mut buf = BytesMut::new();
    buf.extend_from_slice(b"\x01\x00\x09\x01\x00\x00\x00\x00\x00\x00\x05\x39\x05");
    assert_eq!(next_frame(&mut buf).unwrap().unwrap().to_vec(), vec![1, 0]);
    assert_eq!(
        next_frame(&mut buf).unwrap().unwrap().to_vec(),
        vec![9, 1, 0, 0, 0, 0, 0, 0, 0x05, 0x39]
    );
    assert_eq!(next_frame(&mut buf), Ok(None));
    assert_eq!(buf.to_vec(), vec![5]);
}

#[test]
fn next_frame_handles_a_long_prefix() {
    let mut buf = BytesMut::new();
    buf.extend_from_slice(&[0xc8, 0x01]);
    buf.extend_from_slice(&[7u8; 199]);
    assert_eq!(next_frame(&mut buf), Ok(None));
    buf.extend_from_slice(&[7u8; 3]);
    let frame = next_frame(&mut buf).unwrap().unwrap();
    assert_eq!(frame.len(), 202);
    assert_eq!(buf.to_vec(), vec![7, 7]);
    let mut buf = BytesMut::new();
    buf.extend_from_slice(&[0x80, 0x80]);
    assert_eq!(next_frame(&mut buf), Ok(None));
    let mut buf = BytesMut::new();
    buf.extend_from_slice(&[0x00, 0x55]);
    assert_eq!(next_frame(&mut buf).unwrap().unwrap().to_vec(), vec![0]);
}

#[test]
fn next_frame_refuses_a_bad_prefix() {
    let mut buf = BytesMut::new();
    buf.extend_from_slice(&[0x80, 0x80, 0x80, 0x80, 0x80, 0x01]);
    assert_eq!(next_frame(&mut buf), Err(DecodeError::MalformedVarInt));
    assert_eq!(buf.len(), 6);
    let mut buf = BytesMut::new();
    buf.extend_from_slice(&[0xff, 0xff, 0xff, 0xff, 0x0f, 0x01]);
    assert_eq!(next_frame(&mut buf), Err(DecodeError::InvalidEncoding));
    assert_eq!(buf.len(), 6);
}

#[test]
fn frame_body_puts_length_and_id_in_front() {
    assert_eq!(frame_body(0, &[]).unwrap().to_vec(), vec![1, 0]);
    assert_eq!(frame_body(0x26, &[1, 2, 3]).unwrap().to_vec(), vec![4, 0x26, 1, 2, 3]);
    // an id of two bytes counts twice, a negative one five times
    assert_eq!(frame_body(128, &[7]).unwrap().to_vec(), vec![3, 0x80, 0x01, 7]);
    assert_eq!(
        frame_body(-1, &[7]).unwrap().to_vec(),
        vec![6, 0xff, 0xff, 0xff, 0xff, 0x0f, 7]
    );
    let body = vec![9u8; 127];
    let frame = frame_body(1, &body).unwrap();
    assert_eq!(&frame[..3], &[0x80, 0x01, 1]);
    assert_eq!(frame.len(), 130);
    // what `encode` builds is the frame of the encoded fields
    let mut fields = BytesMut::new();
    handshake(1).encode(&mut fields).unwrap();
    assert_eq!(frame_body(0, &fields).unwrap(), encode(handshake(1)).unwrap());
}

#[test]
fn take_frames_hands_out_every_whole_frame_in_order() {
    let mut buf = BytesMut::new();
    buf.extend_from_slice(b"\x01\x00\x09\x01\x00\x00\x00\x00\x00\x00\x05\x39\x05\x00");
    let (frames, stopped) = take_frames(&mut buf);
    assert_eq!(stopped, None);
    assert_eq!(frames.len(), 2);
    assert_eq!(frames[0].to_vec(), vec![1, 0]);
    assert_eq!(frames[1].to_vec(), vec![9, 1, 0, 0, 0, 0, 0, 0, 0x05, 0x39]);
    assert_eq!(buf.to_vec(), vec![5, 0]);
    let (frames, stopped) = take_frames(&mut buf);
    assert!(frames.is_empty());
    assert_eq!(stopped, None);
    assert_eq!(buf.to_vec(), vec![5, 0]);
    let mut empty = BytesMut::new();
    assert_eq!(take_frames(&mut empty), (vec![], None));
}

#[test]
fn take_frames_keeps_the_frames_before_a_bad_prefix() {
    let mut buf = BytesMut::new();
    buf.extend_from_slice(b"\x01\x00\x80\x80\x80\x80\x80\x01");
    let (frames, stopped) = take_frames(&mut buf);
    assert_eq!(frames.len(), 1);
    assert_eq!(frames[0].to_vec(), vec![1, 0]);
    assert_eq!(stopped, Some(DecodeError::MalformedVarInt));
    assert_eq!(buf.len(), 6);
    let mut buf = BytesMut::new();
    buf.extend_from_slice(b"\xff\xff\xff\xff\x0f");
    assert_eq!(take_frames(&mut buf), (vec![], Some(DecodeError::InvalidEncoding)));
}

#[test]
fn frames_come_out_the_same_however_the_stream_is_split() {
    let sent: Vec<Vec<u8>> = vec![
        HANDSHAKE_FRAME.to_vec(),
        encode(StatusRequest).unwrap().to_vec(),
        encode(StatusPing(1337)).unwrap().to_vec(),
        frame_body(7, &[3u8; 200]).unwrap().to_vec(),
        encode(StatusPing(-1)).unwrap().to_vec(),
    ];
    let stream: Vec<u8> = sent.concat();
    for chunk in [1usize, 2, 3, 5, 7, 16, 64, 199, 1000] {
        let mut buf = BytesMut::new();
        let mut got: Vec<Vec<u8>> = Vec::new();
        for piece in stream.chunks(chunk) {
            buf.extend_from_slice(piece);
            let (frames, stopped) = take_frames(&mut buf);
            assert_eq!(stopped, None);
            got.extend(frames.iter().map(|f| f.to_vec()));
        }
        assert_eq!(got, sent);
        assert_eq!(buf.len(), 0);
    }
}

#[test]
fn length_prefix_cut_short_waits() {
    let frame = frame_body(7, &[3u8; 200]).unwrap();
    let mut buf = BytesMut::new();
    buf.extend_from_slice(&frame[..1]);
    assert_eq!(take_frames(&mut buf), (vec![], None));
    assert_eq!(buf.len(), 1);
    buf.extend_from_slice(&frame[1..]);
    let (frames, stopped) = take_frames(&mut buf);
    assert_eq!((frames.len(), stopped), (1, None));
    assert_eq!(frames[0], frame);
}
