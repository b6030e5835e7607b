//! The packets of the status phase, and the parts of a status document.
use crate::buffer::{bytes_contents, bytes_mut_contents};
use crate::codec::{DecodeError, EncodeError, Packet, Transcodeable};
use crate::types::chat::Chat;
use crate::types::json::Json;
use crate::wire::{lemma_rest_of_rest, lemma_skip_skip};
use bytes::{Bytes, BytesMut};
use vstd::prelude::*;

verus! {

/// To the client: the status document, as JSON.
#[derive(Debug, PartialEq, Eq)]
pub struct StatusResponse(pub Json);

impl View for StatusResponse {
    type V = Seq<char>;

    open spec fn view(&self) -> Seq<char> {
        self.0@
    }
}

impl Packet for StatusResponse {
    open spec fn spec_id() -> i32 {
        0x00
    }

    fn id() -> (id: i32) {
        0x00
    }
}

impl Transcodeable for StatusResponse {
    /// The fields in the order of their declaration.
    open spec fn encoding(v: Seq<char>) -> Result<Seq<u8>, EncodeError> {
        Json::encoding(v)
    }

    /// The fields in the order of their declaration, each from where the one
    /// before it ended.
    open spec fn parse(s: Seq<u8>) -> Result<(Seq<char>, nat), DecodeError> {
        match Json::parse(s) {
            Err(e) => Err(e),
            Ok((x0, n0)) => {
                Ok((x0, n0))
            },
        }
    }

    proof fn lemma_parse_in_bounds(s: Seq<u8>) {
        Json::lemma_parse_in_bounds(s);
    }

    fn encode(&self, buf: &mut BytesMut) -> (r: Result<(), EncodeError>) {
        self.0.encode(buf)
    }

    fn decode(buf: &mut Bytes) -> (r: Result<Self, DecodeError>) {
        let ghost s = bytes_contents(*buf);
        proof {
            lemma_skip_skip(s, 0, 0);
            assert(s.skip(0) =~= s);
        }
        let ghost s0 = bytes_contents(*buf);
        proof {
            Json::lemma_parse_in_bounds(s0);
        }
        let f0 = match Json::decode(buf) {
            Ok(v) => v,
            Err(e) => {
                proof {
                    lemma_rest_of_rest(bytes_contents(*buf), s0, s);
                }
                return Err(e);
            },
        };
        let ghost n0 = Json::parse(s0).unwrap().1;
        proof {
            lemma_skip_skip(s, 0, n0);
            lemma_skip_skip(s, n0, 0);
        }
        Ok(StatusResponse(f0))
    }

    /// The sum of the sizes of the fields, where all are known.
    open spec fn size(v: Seq<char>) -> Option<nat> {
        Json::size(v)
    }

    proof fn lemma_size_is_exact(v: Seq<char>) {
        Json::lemma_size_is_exact(v);
    }

    fn size_hint(&self) -> (r: Option<usize>) {
        self.0.size_hint()
    }
}

/// To the client: the payload of its ping.
#[derive(Debug, PartialEq, Eq)]
pub struct StatusPong(pub i64);

impl View for StatusPong {
    type V = i64;

    open spec fn view(&self) -> i64 {
        self.0@
    }
}

impl Packet for StatusPong {
    open spec fn spec_id() -> i32 {
        0x01
    }

    fn id() -> (id: i32) {
        0x01
    }
}

impl Transcodeable for StatusPong {
    /// The fields in the order of their declaration.
    open spec fn encoding(v: i64) -> Result<Seq<u8>, EncodeError> {
        i64::encoding(v)
    }

    /// The fields in the order of their declaration, each from where the one
    /// before it ended.
    open spec fn parse(s: Seq<u8>) -> Result<(i64, nat), DecodeError> {
        match i64::parse(s) {
            Err(e) => Err(e),
            Ok((x0, n0)) => {
                Ok((x0, n0))
            },
        }
    }

    proof fn lemma_parse_in_bounds(s: Seq<u8>) {
        i64::lemma_parse_in_bounds(s);
    }

    fn encode(&self, buf: &mut BytesMut) -> (r: Result<(), EncodeError>) {
        self.0.encode(buf)
    }

    fn decode(buf: &mut Bytes) -> (r: Result<Self, DecodeError>) {
        let ghost s = bytes_contents(*buf);
        proof {
            lemma_skip_skip(s, 0, 0);
            assert(s.skip(0) =~= s);
        }
        let ghost s0 = bytes_contents(*buf);
        proof {
            i64::lemma_parse_in_bounds(s0);
        }
        let f0 = match i64::decode(buf) {
            Ok(v) => v,
            Err(e) => {
                proof {
                    lemma_rest_of_rest(bytes_contents(*buf), s0, s);
                }
                return Err(e);
            },
        };
        let ghost n0 = i64::parse(s0).unwrap().1;
        proof {
            lemma_skip_skip(s, 0, n0);
            lemma_skip_skip(s, n0, 0);
        }
        Ok(StatusPong(f0))
    }

    /// The sum of the sizes of the fields, where all are known.
    open spec fn size(v: i64) -> Option<nat> {
        i64::size(v)
    }

    proof fn lemma_size_is_exact(v: i64) {
        i64::lemma_size_is_exact(v);
    }

    fn size_hint(&self) -> (r: Option<usize>) {
        self.0.size_hint()
    }
}

/// To the server: asks for the status document.
#[derive(Debug, PartialEq, Eq)]
pub struct StatusRequest;

impl View for StatusRequest {
    type V = ();

    open spec fn view(&self) -> () {
        ()
    }
}

impl Packet for StatusRequest {
    open spec fn spec_id() -> i32 {
        0x00
    }

    fn id() -> (id: i32) {
        0x00
    }
}

impl Transcodeable for StatusRequest {
    /// The fields in the order of their declaration.
    open spec fn encoding(v: ()) -> Result<Seq<u8>, EncodeError> {
        Ok(Seq::empty())
    }

    /// The fields in the order of their declaration, each from where the one
    /// before it ended.
    open spec fn parse(s: Seq<u8>) -> Result<((), nat), DecodeError> {
        Ok(((), 0))
    }

    proof fn lemma_parse_in_bounds(s: Seq<u8>) {
    }

    fn encode(&self, buf: &mut BytesMut) -> (r: Result<(), EncodeError>) {
        assert(bytes_mut_contents(*buf) =~= bytes_mut_contents(*buf) + Seq::<u8>::empty());
        Ok(())
    }

    fn decode(buf: &mut Bytes) -> (r: Result<Self, DecodeError>) {
        assert(bytes_contents(*buf).skip(0) =~= bytes_contents(*buf));
        Ok(StatusRequest)
    }

    /// The sum of the sizes of the fields, where all are known.
    open spec fn size(v: ()) -> Option<nat> {
        Some(0)
    }

    proof fn lemma_size_is_exact(v: ()) {
    }

    fn size_hint(&self) -> (r: Option<usize>) {
        Some(0)
    }
}

/// To the server: a payload to send back.
#[derive(Debug, PartialEq, Eq)]
pub struct StatusPing(pub i64);

impl View for StatusPing {
    type V = i64;

    open spec fn view(&self) -> i64 {
        self.0@
    }
}

impl Packet for StatusPing {
    open spec fn spec_id() -> i32 {
        0x01
    }

    fn id() -> (id: i32) {
        0x01
    }
}

impl Transcodeable for StatusPing {
    /// The fields in the order of their declaration.
    open spec fn encoding(v: i64) -> Result<Seq<u8>, EncodeError> {
        i64::encoding(v)
    }

    /// The fields in the order of their declaration, each from where the one
    /// before it ended.
    open spec fn parse(s: Seq<u8>) -> Result<(i64, nat), DecodeError> {
        match i64::parse(s) {
            Err(e) => Err(e),
            Ok((x0, n0)) => {
                Ok((x0, n0))
            },
        }
    }

    proof fn lemma_parse_in_bounds(s: Seq<u8>) {
        i64::lemma_parse_in_bounds(s);
    }

    fn encode(&self, buf: &mut BytesMut) -> (r: Result<(), EncodeError>) {
        self.0.encode(buf)
    }

    fn decode(buf: &mut Bytes) -> (r: Result<Self, DecodeError>) {
        let ghost s = bytes_contents(*buf);
        proof {
            lemma_skip_skip(s, 0, 0);
            assert(s.skip(0) =~= s);
        }
        let ghost s0 = bytes_contents(*buf);
        proof {
            i64::lemma_parse_in_bounds(s0);
        }
        let f0 = match i64::decode(buf) {
            Ok(v) => v,
            Err(e) => {
                proof {
                    lemma_rest_of_rest(bytes_contents(*buf), s0, s);
                }
                return Err(e);
            },
        };
        let ghost n0 = i64::parse(s0).unwrap().1;
        proof {
            lemma_skip_skip(s, 0, n0);
            lemma_skip_skip(s, n0, 0);
        }
        Ok(StatusPing(f0))
    }

    /// The sum of the sizes of the fields, where all are known.
    open spec fn size(v: i64) -> Option<nat> {
        i64::size(v)
    }

    proof fn lemma_size_is_exact(v: i64) {
        i64::lemma_size_is_exact(v);
    }

    fn size_hint(&self) -> (r: Option<usize>) {
        self.0.size_hint()
    }
}

/// The status document of a server. A field that is `None` does not appear
/// in the JSON.
#[derive(Debug)]
pub struct Response {
    pub version: Version,
    pub players: Players,
    pub description: Chat,
    pub favicon: Option<String>,
}

/// The game version that a server speaks.
#[derive(Clone, Debug)]
pub struct Version {
    pub name: String,
    pub protocol: i32,
}

/// The players of a server. A sample that is `None` does not appear in the
/// JSON.
#[derive(Clone, Debug)]
pub struct Players {
    pub max: i32,
    pub online: i32,
    pub sample: Option<Vec<Player>>,
}

/// A player, by name and by the 128 bits of its UUID.
#[derive(Clone, Debug)]
pub struct Player {
    pub name: String,
    pub id: u128,
}

} // verus!
