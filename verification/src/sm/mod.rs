//! The state machine of one connection: which packet it expects next, what
//! it answers, and where it goes from there.
pub mod encryption;

use crate::buffer::{bytes_contents, clone_bytes};
use crate::codec::{DecodeError, EncodeError, Transcodeable};
use crate::packets::compression::{decompess, parse_compressed};
use crate::packets::status::{
    Players, Response, StatusPing, StatusPong, StatusRequest, StatusResponse, Version,
};
use crate::packets::{
    decode, encode, frame_of, lemma_frame_round_trip, lemma_handshake_round_trip, parse_frame,
    parse_pair, Handshake,
};
use crate::types::chat::{Chat, ChatObj};
use crate::types::json::Json;
use crate::types::string::{lemma_string_round_trip, MAX_CHARS_STR};
use crate::types::varint::lemma_leb128_len_bounds;
use crate::wire::{
    lemma_be_bytes_len, lemma_be_bytes_of_value, lemma_be_value_bound, lemma_signed_unsigned,
    unsigned_value,
};
use crate::{MC_VERSION, VERSION};
use bytes::Bytes;
use encryption::{Encryption, PassTrough};
use vstd::prelude::*;
use vstd::string::StringExecFns;

verus! {

/// Where the status exchange stands.
#[derive(Clone, Copy, Debug, PartialEq, Eq, Structural)]
pub enum StatusStep {
    AwaitingRequest,
    AwaitingPing,
}

/// Where the login exchange stands.
#[derive(Clone, Copy, Debug, PartialEq, Eq, Structural)]
pub enum LoginStep {
    AwaitingStart,
}

/// The phase of a connection.
#[derive(Clone, Copy, Debug, PartialEq, Eq, Structural)]
pub enum State {
    Init,
    Status(StatusStep),
    Login(LoginStep),
    Play,
}

/// What a plain frame does to a connection in `state`: the next state and
/// the frame to send back, if any, or the error that ends the connection.
/// `status_frame` is the frame that answers a status request.
///
/// `Login` and `Play` have no packets yet: every frame there is unexpected.
pub open spec fn step(state: State, frame: Seq<u8>, status_frame: Seq<u8>) -> Result<
    (State, Option<Seq<u8>>),
    DecodeError,
> {
    match state {
        State::Init => match parse_frame::<Handshake>(frame) {
            Err(e) => Err(e),
            Ok((hello, _)) => if hello.3 == 1 {
                Ok((State::Status(StatusStep::AwaitingRequest), None))
            } else if hello.3 == 2 {
                Ok((State::Login(LoginStep::AwaitingStart), None))
            } else {
                Err(DecodeError::InvalidEncoding)
            },
        },
        State::Status(StatusStep::AwaitingRequest) => match parse_frame::<StatusRequest>(frame) {
            Err(e) => Err(e),
            Ok(_) => Ok((State::Status(StatusStep::AwaitingPing), Some(status_frame))),
        },
        State::Status(StatusStep::AwaitingPing) => match parse_frame::<StatusPing>(frame) {
            Err(e) => Err(e),
            Ok((payload, _)) => match frame_of::<StatusPong>(payload) {
                Ok(pong) => Ok((State::Status(StatusStep::AwaitingPing), Some(pong))),
                Err(_) => Err(DecodeError::InvalidEncoding),
            },
        },
        State::Login(_) => Err(DecodeError::UnexpectedMessageId),
        State::Play => Err(DecodeError::UnexpectedMessageId),
    }
}

/// The phase of a connection after a plain frame: the next one where the
/// frame is accepted, the one it was in where the frame is refused.
pub open spec fn phase_after(state: State, frame: Seq<u8>, status_frame: Seq<u8>) -> State {
    match step(state, frame, status_frame) {
        Ok((next, _)) => next,
        Err(_) => state,
    }
}

/// The frame inside what the cipher handed back: itself, or what it
/// decompresses to where compression is on.
pub open spec fn opened(compressed: bool, plain: Seq<u8>) -> Result<Seq<u8>, DecodeError> {
    if compressed {
        parse_compressed(plain)
    } else {
        Ok(plain)
    }
}

/// What a frame does to a connection once the cipher has handed it back:
/// it is opened, and what was inside is handled.
pub open spec fn received(state: State, compressed: bool, plain: Seq<u8>, status_frame: Seq<u8>)
    -> Result<(State, Option<Seq<u8>>), DecodeError> {
    match opened(compressed, plain) {
        Err(e) => Err(e),
        Ok(frame) => step(state, frame, status_frame),
    }
}

/// Whether a call that found the connection in `before`, left it in `after`
/// and returned `r` did what `outcome` says: on success the next state is
/// entered and the reply, if any, is returned; on an error the state stays
/// and the error is returned.
pub open spec fn is_outcome(
    outcome: Result<(State, Option<Seq<u8>>), DecodeError>,
    before: State,
    after: State,
    r: Result<Option<Bytes>, DecodeError>,
) -> bool {
    match outcome {
        Ok((next, Some(bytes))) => after == next && match r {
            Ok(Some(out)) => bytes_contents(out) == bytes,
            _ => false,
        },
        Ok((next, None)) => after == next && r == Ok::<Option<Bytes>, DecodeError>(None),
        Err(e) => after == before && r == Err::<Option<Bytes>, DecodeError>(e),
    }
}

/// A handshake decides the phase by its last field alone: 1 leads to the
/// status exchange, 2 to login, and anything else is refused and leaves the
/// connection in `Init`. Nothing is sent back in any case. This holds of
/// every handshake whose address the reading side admits.
pub proof fn lemma_handshake_decides(v: (i32, Seq<char>, u16, i32), status_frame: Seq<u8>)
    requires
        v.1.len() <= 255,
        vstd::utf8::encode_utf8(v.1).len() <= 255,
    ensures
        frame_of::<Handshake>(v) matches Ok(frame) && step(State::Init, frame, status_frame) == (
        if v.3 == 1 {
            Ok::<(State, Option<Seq<u8>>), DecodeError>(
                (State::Status(StatusStep::AwaitingRequest), None),
            )
        } else if v.3 == 2 {
            Ok((State::Login(LoginStep::AwaitingStart), None))
        } else {
            Err(DecodeError::InvalidEncoding)
        }),
{
    lemma_handshake_round_trip(v, Seq::empty());
    let body = Handshake::encoding(v).unwrap();
    assert(body + Seq::<u8>::empty() =~= body);
    lemma_leb128_len_bounds(unsigned_value(0, 32));
    lemma_frame_round_trip::<Handshake>(v, Seq::empty());
    let frame = frame_of::<Handshake>(v).unwrap();
    assert(frame + Seq::<u8>::empty() =~= frame);
}

/// What a frame does to a connection in `Init`, for every frame. A frame
/// that holds a handshake decides by the handshake's last field: 1 leads to
/// the status exchange, 2 to login, anything else is refused. A frame that
/// holds none is refused with the error of its decoding. Nothing is sent
/// back in any case, and a refusal leaves the connection in `Init`.
pub proof fn lemma_handshake_outcome(frame: Seq<u8>, status_frame: Seq<u8>)
    ensures
        step(State::Init, frame, status_frame) == (match parse_frame::<Handshake>(frame) {
            Ok((hello, _)) => if hello.3 == 1 {
                Ok::<(State, Option<Seq<u8>>), DecodeError>(
                    (State::Status(StatusStep::AwaitingRequest), None),
                )
            } else if hello.3 == 2 {
                Ok((State::Login(LoginStep::AwaitingStart), None))
            } else {
                Err(DecodeError::InvalidEncoding)
            },
            Err(e) => Err(e),
        }),
        step(State::Init, frame, status_frame) matches Ok((_, reply)) ==> reply is None,
        step(State::Init, frame, status_frame) is Err ==> phase_after(
            State::Init,
            frame,
            status_frame,
        ) == State::Init,
{
}

/// A frame that was refused is as if it had never come: the connection is
/// where it was, and the next frame does to it what it would have done in
/// its place. So a handshake that follows a refused one is the first.
pub proof fn lemma_refused_frame_is_forgotten(
    state: State,
    refused: Seq<u8>,
    next: Seq<u8>,
    status_frame: Seq<u8>,
)
    requires
        step(state, refused, status_frame) is Err,
    ensures
        phase_after(state, refused, status_frame) == state,
        step(phase_after(state, refused, status_frame), next, status_frame) == step(
            state,
            next,
            status_frame,
        ),
{
}

/// A status request, the two bytes 1 and 0, is answered with the status
/// frame and with nothing else, and the connection goes on to wait for
/// pings. There a second request is refused as unexpected.
pub proof fn lemma_request_is_answered(status_frame: Seq<u8>)
    ensures
        frame_of::<StatusRequest>(()) == Ok::<Seq<u8>, EncodeError>(seq![1u8, 0u8]),
        step(State::Status(StatusStep::AwaitingRequest), seq![1u8, 0u8], status_frame) == Ok::<
            (State, Option<Seq<u8>>),
            DecodeError,
        >((State::Status(StatusStep::AwaitingPing), Some(status_frame))),
        step(State::Status(StatusStep::AwaitingPing), seq![1u8, 0u8], status_frame) == Err::<
            (State, Option<Seq<u8>>),
            DecodeError,
        >(DecodeError::UnexpectedMessageId),
{
    let frame = frame_of::<StatusRequest>(()).unwrap();
    lemma_leb128_len_bounds(unsigned_value(0, 32));
    reveal_with_fuel(crate::types::varint::leb128, 2);
    assert(frame =~= seq![1u8, 0u8]);
    assert(Seq::<u8>::empty() + Seq::<u8>::empty() =~= Seq::<u8>::empty());
    lemma_frame_round_trip::<StatusRequest>((), Seq::empty());
    assert(frame + Seq::<u8>::empty() =~= frame);
    // seen as a ping, the same two bytes carry the wrong id
    crate::types::varint::lemma_varint_round_trip(1, seq![0u8]);
    crate::types::varint::lemma_varint_round_trip(0, Seq::empty());
    assert(seq![1u8] + seq![0u8] =~= frame);
    assert(frame.skip(1) =~= seq![0u8] + Seq::<u8>::empty());
}

/// The status frame of a document reads back as that document, whatever
/// follows it on the wire, where the reading side admits the document:
/// where its bytes, and not only its characters, are within the bound.
pub proof fn lemma_status_reply_reads_back(status: Seq<char>, rest: Seq<u8>)
    requires
        frame_of::<StatusResponse>(status) is Ok,
        vstd::utf8::encode_utf8(status).len() <= MAX_CHARS_STR,
    ensures
        frame_of::<StatusResponse>(status) matches Ok(frame) && parse_frame::<StatusResponse>(
            frame + rest,
        ) == Ok::<(Seq<char>, nat), DecodeError>((status, frame.len())),
{
    let body = StatusResponse::encoding(status).unwrap();
    lemma_string_round_trip::<MAX_CHARS_STR>(status, Seq::empty());
    assert(body + Seq::<u8>::empty() =~= body);
    lemma_frame_round_trip::<StatusResponse>(status, rest);
}

/// A ping, the two bytes 9 and 1 and any eight bytes of payload, is
/// answered with the very same ten bytes, and the connection stays where it
/// is: any number of pings are answered alike.
pub proof fn lemma_ping_is_echoed(payload: Seq<u8>, status_frame: Seq<u8>)
    requires
        payload.len() == 8,
    ensures
        step(State::Status(StatusStep::AwaitingPing), seq![9u8, 1u8] + payload, status_frame)
            == Ok::<(State, Option<Seq<u8>>), DecodeError>(
            (State::Status(StatusStep::AwaitingPing), Some(seq![9u8, 1u8] + payload)),
        ),
        phase_after(
            State::Status(StatusStep::AwaitingPing),
            seq![9u8, 1u8] + payload,
            status_frame,
        ) == State::Status(StatusStep::AwaitingPing),
{
    let ping = seq![9u8, 1u8] + payload;
    reveal_with_fuel(crate::types::varint::leb128, 2);
    crate::types::varint::lemma_varint_round_trip(9, seq![1u8] + payload);
    crate::types::varint::lemma_varint_round_trip(1, payload);
    assert(ping =~= seq![9u8] + (seq![1u8] + payload));
    assert(ping.skip(1) =~= seq![1u8] + payload);
    assert(ping.subrange(2, 10) =~= payload);
    assert(parse_frame::<StatusPing>(ping) is Ok);
    lemma_pong_echoes_ping(ping, status_frame);
}

/// The frame of a pong is always there.
pub proof fn lemma_pong_has_frame(payload: i64)
    ensures
        frame_of::<StatusPong>(payload) is Ok,
{
    lemma_be_bytes_len(unsigned_value(payload as int, 64), 8);
    lemma_leb128_len_bounds(unsigned_value(1, 32));
}

/// Whether `text` holds exactly the characters of `expected`.
pub open spec fn holds_text(text: Option<String>, expected: Seq<char>) -> bool {
    match text {
        Some(t) => t@ == expected,
        None => false,
    }
}

/// The description of this server: the bold, gold text `MCSRS!` and nothing
/// else.
pub open spec fn is_server_description(chat: Chat) -> bool {
    match chat {
        Chat::Obj(d) => holds_text(d.text, "MCSRS!"@) && d.bold == Some(true) && holds_text(
            d.color,
            "gold"@,
        ) && d.translate is None && d.score is None && d.keybind is None && d.selector is None
            && d.italic is None && d.underlined is None && d.strikethrough is None
            && d.obfuscated is None && d.insertion is None && d.click_event is None
            && d.hover_event is None && d.extra is None,
        _ => false,
    }
}

/// A ping is answered with its own payload, byte for byte: the pong is the
/// two header bytes of a pong and then the eight bytes that stood behind the
/// header of the ping. The connection stays where it is.
pub proof fn lemma_pong_echoes_ping(ping: Seq<u8>, status_frame: Seq<u8>)
    requires
        parse_frame::<StatusPing>(ping) is Ok,
    ensures
        ({
            let (_, _, n1, n2) = parse_pair(ping).unwrap();
            let payload = ping.subrange((n1 + n2) as int, (n1 + n2 + 8) as int);
            step(State::Status(StatusStep::AwaitingPing), ping, status_frame) == Ok::<
                (State, Option<Seq<u8>>),
                DecodeError,
            >((State::Status(StatusStep::AwaitingPing), Some(seq![9u8, 1u8] + payload)))
        }),
{
    let (len, _, n1, n2) = parse_pair(ping).unwrap();
    let body = ping.subrange((n1 + n2) as int, n1 + len);
    let payload = ping.subrange((n1 + n2) as int, (n1 + n2 + 8) as int);
    assert(body.take(8) =~= payload);
    let value = parse_frame::<StatusPing>(ping).unwrap().0;
    lemma_be_value_bound(payload);
    lemma_signed_unsigned(0, crate::wire::be_value(payload), 64);
    lemma_be_bytes_of_value(payload);
    lemma_pong_has_frame(value);
    reveal_with_fuel(crate::types::varint::leb128, 2);
    assert(frame_of::<StatusPong>(value).unwrap() =~= seq![9u8, 1u8] + payload);
}

/// The status document that this server answers with.
pub fn status_response() -> (r: Response)
    ensures
        r.version.name@ == MC_VERSION@,
        r.version.protocol == VERSION,
        r.players.max == 1337,
        r.players.online == 0,
        r.players.sample is None,
        r.favicon is None,
        is_server_description(r.description),
{
    Response {
        version: Version { name: String::from_str(MC_VERSION), protocol: VERSION },
        players: Players { max: 1337, online: 0, sample: None },
        description: Chat::Obj(
            ChatObj {
                text: Some(String::from_str("MCSRS!")),
                translate: None,
                score: None,
                keybind: None,
                selector: None,
                bold: Some(true),
                italic: None,
                underlined: None,
                strikethrough: None,
                obfuscated: None,
                color: Some(String::from_str("gold")),
                insertion: None,
                click_event: None,
                hover_event: None,
                extra: None,
            },
        ),
        favicon: None,
    }
}

/// The protocol state of one connection.
pub struct StateMachine<E: Encryption> {
    encryption: E,
    compressed: bool,
    status: Bytes,
    state: State,
}

impl StateMachine<PassTrough> {
    /// A connection in `Init`, without cipher and without compression, that
    /// answers status requests with `status`. Fails where `status` has no
    /// frame.
    pub fn new(status: Json) -> (r: Result<Self, EncodeError>)
        ensures
            match frame_of::<StatusResponse>(status@) {
                Ok(frame) => r matches Ok(m) && m.state() == State::Init && !m.compressed()
                    && m.status_frame() == frame,
                Err(e) => r matches Err(x) && x == e,
            },
    {
        StateMachine::with_encryption(PassTrough, false, status)
    }
}

impl<E: Encryption> StateMachine<E> {
    /// The phase the connection is in.
    pub closed spec fn state(&self) -> State {
        self.state
    }

    /// Whether inbound frames are compressed.
    pub closed spec fn compressed(&self) -> bool {
        self.compressed
    }

    /// The frame that answers a status request.
    pub closed spec fn status_frame(&self) -> Seq<u8> {
        bytes_contents(self.status)
    }

    /// The cipher, in the state it is in.
    pub closed spec fn cipher(&self) -> E {
        self.encryption
    }

    /// A connection in `Init` with the given cipher and compression, that
    /// answers status requests with `status`. Fails where `status` has no
    /// frame.
    pub fn with_encryption(encryption: E, compressed: bool, status: Json) -> (r: Result<
        Self,
        EncodeError,
    >)
        ensures
            match frame_of::<StatusResponse>(status@) {
                Ok(frame) => r matches Ok(m) && m.state() == State::Init && m.compressed()
                    == compressed && m.status_frame() == frame && m.cipher() == encryption,
                Err(e) => r matches Err(x) && x == e,
            },
    {
        let frame = encode(StatusResponse(status))?;
        Ok(StateMachine { encryption, compressed, status: frame, state: State::Init })
    }

    /// The phase the connection is in.
    pub fn phase(&self) -> (s: State)
        ensures
            s == self.state(),
    {
        self.state
    }

    /// Takes one frame as it came off the wire: runs it through the cipher
    /// and hands what comes back to [`receive`](Self::receive). Where the
    /// cipher states what it makes of the frame, the outcome is that of the
    /// plain frame; where it does not, the outcome is that of some plain
    /// frame, whichever the cipher handed back. On an error the phase stays
    /// as it was.
    pub fn submit(&mut self, packet: Bytes) -> (r: Result<Option<Bytes>, DecodeError>)
        ensures
            final(self).compressed() == old(self).compressed(),
            final(self).status_frame() == old(self).status_frame(),
            r is Err ==> final(self).state() == old(self).state(),
            old(self).cipher().decrypts_to(bytes_contents(packet)) matches Some(plain)
                ==> is_outcome(
                received(old(self).state(), old(self).compressed(), plain, old(self).status_frame()),
                old(self).state(),
                final(self).state(),
                r,
            ),
            exists|plain: Seq<u8>|
                is_outcome(
                    #[trigger] received(
                        old(self).state(),
                        old(self).compressed(),
                        plain,
                        old(self).status_frame(),
                    ),
                    old(self).state(),
                    final(self).state(),
                    r,
                ),
    {
        let plain = self.encryption.decrypt(packet);
        let ghost given = bytes_contents(plain);
        let r = self.receive(plain);
        assert(is_outcome(
            received(old(self).state(), old(self).compressed(), given, old(self).status_frame()),
            old(self).state(),
            self.state(),
            r,
        ));
        r
    }

    /// Takes one frame as the cipher handed it back: decompresses it where
    /// compression is on, and handles it. On an error the phase stays as it
    /// was.
    pub fn receive(&mut self, plain: Bytes) -> (r: Result<Option<Bytes>, DecodeError>)
        ensures
            final(self).compressed() == old(self).compressed(),
            final(self).status_frame() == old(self).status_frame(),
            final(self).cipher() == old(self).cipher(),
            is_outcome(
                received(
                    old(self).state(),
                    old(self).compressed(),
                    bytes_contents(plain),
                    old(self).status_frame(),
                ),
                old(self).state(),
                final(self).state(),
                r,
            ),
    {
        let frame = if self.compressed {
            decompess(plain)?
        } else {
            plain
        };
        self.handle(frame)
    }

    /// Handles one plain frame: decodes the packet that the phase expects,
    /// moves to the next phase and returns the frame to send back, if any.
    /// On an error the phase stays as it was.
    pub fn handle(&mut self, frame: Bytes) -> (r: Result<Option<Bytes>, DecodeError>)
        ensures
            final(self).compressed() == old(self).compressed(),
            final(self).status_frame() == old(self).status_frame(),
            final(self).cipher() == old(self).cipher(),
            final(self).state() == phase_after(
                old(self).state(),
                bytes_contents(frame),
                old(self).status_frame(),
            ),
            is_outcome(
                step(old(self).state(), bytes_contents(frame), old(self).status_frame()),
                old(self).state(),
                final(self).state(),
                r,
            ),
    {
        match self.state {
            State::Init => self.handshake(frame),
            State::Status(StatusStep::AwaitingRequest) => self.status0(frame),
            State::Status(StatusStep::AwaitingPing) => self.status1(frame),
            State::Login(_) => Err(DecodeError::UnexpectedMessageId),
            State::Play => Err(DecodeError::UnexpectedMessageId),
        }
    }

    fn handshake(&mut self, packet: Bytes) -> (r: Result<Option<Bytes>, DecodeError>)
        requires
            old(self).state() == State::Init,
        ensures
            final(self).compressed() == old(self).compressed(),
            final(self).status_frame() == old(self).status_frame(),
            final(self).cipher() == old(self).cipher(),
            match step(State::Init, bytes_contents(packet), old(self).status_frame()) {
                Ok((next, reply)) => final(self).state() == next && reply is None && r matches Ok(
                    None,
                ),
                Err(e) => r matches Err(x) && x == e && final(self).state() == old(self).state(),
            },
    {
        let mut packet = packet;
        let hello: Handshake = decode(&mut packet)?;
        if hello.next.0 == 1 {
            self.state = State::Status(StatusStep::AwaitingRequest);
        } else if hello.next.0 == 2 {
            self.state = State::Login(LoginStep::AwaitingStart);
        } else {
            return Err(DecodeError::InvalidEncoding);
        }
        Ok(None)
    }

    fn status0(&mut self, packet: Bytes) -> (r: Result<Option<Bytes>, DecodeError>)
        requires
            old(self).state() == State::Status(StatusStep::AwaitingRequest),
        ensures
            final(self).compressed() == old(self).compressed(),
            final(self).status_frame() == old(self).status_frame(),
            final(self).cipher() == old(self).cipher(),
            match step(old(self).state(), bytes_contents(packet), old(self).status_frame()) {
                Ok((next, reply)) => r matches Ok(Some(out)) && reply == Some(bytes_contents(out))
                    && final(self).state() == next,
                Err(e) => r matches Err(x) && x == e && final(self).state() == old(self).state(),
            },
    {
        let mut packet = packet;
        // The request has no fields: decoding it only checks that it is one.
        let _request: StatusRequest = decode(&mut packet)?;
        let reply = clone_bytes(&self.status);
        self.state = State::Status(StatusStep::AwaitingPing);
        Ok(Some(reply))
    }

    fn status1(&mut self, packet: Bytes) -> (r: Result<Option<Bytes>, DecodeError>)
        requires
            old(self).state() == State::Status(StatusStep::AwaitingPing),
        ensures
            final(self).compressed() == old(self).compressed(),
            final(self).status_frame() == old(self).status_frame(),
            final(self).cipher() == old(self).cipher(),
            final(self).state() == old(self).state(),
            match step(old(self).state(), bytes_contents(packet), old(self).status_frame()) {
                Ok((next, reply)) => r matches Ok(Some(out)) && reply == Some(bytes_contents(out)),
                Err(e) => r matches Err(x) && x == e,
            },
    {
        let mut packet = packet;
        let ping: StatusPing = decode(&mut packet)?;
        proof {
            lemma_pong_has_frame(ping.0);
        }
        match encode(StatusPong(ping.0)) {
            Ok(reply) => Ok(Some(reply)),
            Err(_) => Err(DecodeError::InvalidEncoding),
        }
    }
}

} // verus!
