use bytes::Bytes;
use mcsrs::codec::{DecodeError, EncodeError};
use mcsrs::packets::status::{Response, StatusPing, StatusPong, StatusRequest, StatusResponse};
use mcsrs::packets::{compress, decode, encode, Handshake};
use mcsrs::sm::encryption::{Encryption, PassTrough};
use mcsrs::sm::{status_response, LoginStep, State, StateMachine, StatusStep};
use mcsrs::types::{Chat, JsonN, StringN, VarInt};
use mcsrs::{MC_VERSION, VERSION};

/// The status document as JSON text, fields that are `None` left out.
fn render(r: &Response) -> String {
    let description = match &r.description {
        Chat::Obj(d) => format!(
            "{{\"text\":\"{}\",\"bold\":{},\"color\":\"{}\"}}",
            d.text.as_ref().unwrap(),
            d.bold.unwrap(),
            d.color.as_ref().unwrap()
        ),
        _ => panic!("the description is an object"),
    };
    format!(
        "{{\"version\":{{\"name\":\"{}\",\"protocol\":{}}},\"players\":{{\"max\":{},\"online\":{}}},\"description\":{}}}",
        r.version.name, r.version.protocol, r.players.max, r.players.online, description
    )
}

fn machine() -> StateMachine<PassTrough> {
    StateMachine::new(JsonN(render(&status_response()))).unwrap()
}

fn handshake(next: i32) -> Bytes {
    encode(Handshake {
        version: VarInt(756),
        address: StringN("localhost".to_string()),
        port: 25565,
        next: VarInt(next),
    })
    .unwrap()
}

#[test]
fn status_document_of_this_server() {
    let r = status_response();
    assert_eq!(VERSION, 756);
    assert_eq!(MC_VERSION, "1.17.1");
    assert_eq!(r.version.name, "1.17.1");
    assert_eq!(r.version.protocol, 756);
    assert_eq!((r.players.max, r.players.online), (1337, 0));
    assert!(r.players.sample.is_none());
    assert!(r.favicon.is_none());
    match r.description {
        Chat::Obj(d) => {
            assert_eq!(d.text.as_deref(), Some("MCSRS!"));
            assert_eq!(d.bold, Some(true));
            assert_eq!(d.color.as_deref(), Some("gold"));
            assert!(d.translate.is_none() && d.score.is_none() && d.keybind.is_none());
            assert!(d.selector.is_none() && d.italic.is_none() && d.underlined.is_none());
            assert!(d.strikethrough.is_none() && d.obfuscated.is_none());
            assert!(d.insertion.is_none() && d.click_event.is_none());
            assert!(d.hover_event.is_none() && d.extra.is_none());
        }
        _ => panic!("the description is an object"),
    }
}

#[test]
fn new_connection_is_in_init() {
    assert_eq!(machine().phase(), State::Init);
}

#[test]
fn handshake_for_status_moves_to_awaiting_request() {
    let mut m = machine();
    assert_eq!(m.submit(handshake(1)), Ok(None));
    assert_eq!(m.phase(), State::Status(StatusStep::AwaitingRequest));
}

#[test]
fn handshake_for_login_moves_to_login() {
    let mut m = machine();
    assert_eq!(m.submit(handshake(2)), Ok(None));
    assert_eq!(m.phase(), State::Login(LoginStep::AwaitingStart));
}

#[test]
fn status_request_is_answered_with_the_status_document() {
    let mut m = machine();
    m.submit(handshake(1)).unwrap();
    let mut reply = m.submit(encode(StatusRequest).unwrap()).unwrap().unwrap();
    assert_eq!(m.phase(), State::Status(StatusStep::AwaitingPing));
    let StatusResponse(doc) = decode::<StatusResponse>(&mut reply).unwrap();
    assert_eq!(reply.len(), 0);
    let mut text = doc.0.into_bytes();
    let value = simd_json::to_owned_value(&mut text).unwrap();
    assert!(value["version"]["protocol"] == VERSION);
    assert!(value["version"]["name"] == "1.17.1");
    assert!(value["players"]["max"] == 1337);
    assert!(value["players"]["online"] == 0);
    assert!(value["description"]["text"] == "MCSRS!");
    assert!(value["description"]["bold"] == true);
    assert!(value["description"]["color"] == "gold");
}

#[test]
fn ping_is_answered_with_the_same_payload() {
    let mut m = machine();
    m.submit(handshake(1)).unwrap();
    m.submit(encode(StatusRequest).unwrap()).unwrap();
    let ping = encode(StatusPing(1337)).unwrap();
    let reply = m.submit(ping.clone()).unwrap().unwrap();
    assert_eq!(reply, encode(StatusPong(1337)).unwrap());
    assert_eq!(reply.to_vec(), vec![9, 1, 0, 0, 0, 0, 0, 0, 0x05, 0x39]);
    assert_eq!(&reply[2..], &ping[2..]);
    assert_eq!(m.phase(), State::Status(StatusStep::AwaitingPing));
    // ping and pong may repeat
    for payload in [0, -1, i64::MAX, i64::MIN] {
        let mut reply = m.submit(encode(StatusPing(payload)).unwrap()).unwrap().unwrap();
        assert_eq!(decode::<StatusPong>(&mut reply), Ok(StatusPong(payload)));
        assert_eq!(m.phase(), State::Status(StatusStep::AwaitingPing));
    }
}

#[test]
fn handshake_with_another_next_state_is_refused() {
    for next in [0, 3, -1, 256] {
        let mut m = machine();
        assert_eq!(m.submit(handshake(next)), Err(DecodeError::InvalidEncoding));
        assert_eq!(m.phase(), State::Init);
    }
}

#[test]
fn unexpected_packets_leave_the_phase_alone() {
    let mut m = machine();
    assert_eq!(m.submit(encode(StatusPing(1)).unwrap()), Err(DecodeError::UnexpectedMessageId));
    assert_eq!(m.phase(), State::Init);
    m.submit(handshake(1)).unwrap();
    assert_eq!(m.submit(encode(StatusPing(1)).unwrap()), Err(DecodeError::UnexpectedMessageId));
    assert_eq!(m.phase(), State::Status(StatusStep::AwaitingRequest));
    m.submit(encode(StatusRequest).unwrap()).unwrap();
    assert_eq!(m.submit(encode(StatusRequest).unwrap()), Err(DecodeError::UnexpectedMessageId));
    assert_eq!(m.phase(), State::Status(StatusStep::AwaitingPing));
}

#[test]
fn broken_frames_leave_the_phase_alone() {
    let mut m = machine();
    let frame = handshake(1);
    assert_eq!(m.submit(frame.slice(..frame.len() - 1)), Err(DecodeError::TruncatedInput));
    assert_eq!(m.submit(Bytes::new()), Err(DecodeError::TruncatedInput));
    assert_eq!(m.submit(Bytes::from(vec![0x80u8; 5])), Err(DecodeError::MalformedVarInt));
    assert_eq!(m.phase(), State::Init);
    assert_eq!(m.submit(frame), Ok(None));
}

#[test]
fn login_has_no_packets_yet() {
    let mut m = machine();
    m.submit(handshake(2)).unwrap();
    assert_eq!(m.submit(encode(StatusRequest).unwrap()), Err(DecodeError::UnexpectedMessageId));
    assert_eq!(m.submit(handshake(1)), Err(DecodeError::UnexpectedMessageId));
    assert_eq!(m.phase(), State::Login(LoginStep::AwaitingStart));
}

#[test]
fn handle_does_what_submit_does_without_cipher() {
    let mut m = machine();
    assert_eq!(m.handle(handshake(1)), Ok(None));
    assert_eq!(m.phase(), State::Status(StatusStep::AwaitingRequest));
}

#[test]
fn status_document_must_have_a_frame() {
    assert!(matches!(
        StateMachine::new(JsonN("{\"version\"".to_string())),
        Err(EncodeError::JsonSerializationFailed)
    ));
    let long = format!("\"{}\"", "x".repeat(0x8000));
    assert!(matches!(StateMachine::new(JsonN(long)), Err(EncodeError::ValueTooLarge)));
}

#[test]
fn compressed_connection_opens_the_envelope_first() {
    let doc = JsonN(render(&status_response()));
    let mut m = StateMachine::with_encryption(PassTrough, true, doc).unwrap();
    assert_eq!(m.submit(compress(handshake(1), 4).unwrap()), Ok(None));
    assert_eq!(m.phase(), State::Status(StatusStep::AwaitingRequest));
    // a plain frame is no envelope: what stands where the zlib stream should is none
    assert_eq!(m.submit(encode(StatusRequest).unwrap()), Err(DecodeError::InvalidEncoding));
    assert_eq!(m.phase(), State::Status(StatusStep::AwaitingRequest));
    let reply = m.submit(compress(encode(StatusRequest).unwrap(), 9).unwrap()).unwrap();
    assert!(reply.is_some());
    let pong = m.submit(compress(encode(StatusPing(7)).unwrap(), 0).unwrap()).unwrap();
    assert_eq!(pong, Some(encode(StatusPong(7)).unwrap()));
}

/// A cipher for the test: every byte is flipped, in both directions.
struct Flip;

impl Encryption for Flip {
    fn encrypt(&mut self, input: Bytes) -> Bytes {
        Bytes::from(input.iter().map(|b| !b).collect::<Vec<u8>>())
    }

    fn decrypt(&mut self, input: Bytes) -> Bytes {
        Bytes::from(input.iter().map(|b| !b).collect::<Vec<u8>>())
    }
}

#[test]
fn inbound_frames_go_through_the_cipher() {
    let doc = JsonN(render(&status_response()));
    let mut m = StateMachine::with_encryption(Flip, false, doc).unwrap();
    assert_eq!(m.submit(handshake(1)), Err(DecodeError::MalformedVarInt));
    assert_eq!(m.phase(), State::Init);
    let sealed = Flip.encrypt(handshake(1));
    assert_eq!(m.submit(sealed), Ok(None));
    assert_eq!(m.phase(), State::Status(StatusStep::AwaitingRequest));
}

#[test]
fn pass_through_changes_nothing() {
    let data = Bytes::from_static(b"\x00\x01\xfe\xff");
    assert_eq!(PassTrough.encrypt(data.clone()), data);
    assert_eq!(PassTrough.decrypt(data.clone()), data);
}
